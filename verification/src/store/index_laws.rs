//! What an index file written by the builder answers when it is read back:
//! the layout facts of the written bytes, the parse of each page, the
//! descent from the root, and the law that ties them together.
use vstd::prelude::*;
use vstd::bytes::*;
use vstd::utf8::valid_utf8;

use crate::store::bplus_tree;
use crate::store::bplus_tree::{ChildView, EntryView, PAGE_HEADER_LEN, PAGE_KIND_INTERNAL, PAGE_KIND_LEAF, PAGE_SIZE};
use crate::store::formats;
use crate::store::formats::{DataPointer, IndexEntry, IndexHeader, DEFAULT_PAGE_SIZE, FORMAT_VERSION, INDEX_HEADER_LEN};

verus! {

// ---------------------------------------------------------------------------
// Bytes at a place
// ---------------------------------------------------------------------------

/// `part` lies in `s` from `at` on.
pub open spec fn holds_at(s: Seq<u8>, at: int, part: Seq<u8>) -> bool {
    &&& 0 <= at
    &&& at + part.len() <= s.len()
    &&& s.subrange(at, at + part.len()) == part
}

pub(crate) proof fn lemma_holds_split(s: Seq<u8>, at: int, a: Seq<u8>, b: Seq<u8>)
    requires
        holds_at(s, at, a + b),
    ensures
        holds_at(s, at, a),
        holds_at(s, at + a.len(), b),
{
    assert(s.subrange(at, at + a.len()) =~= (a + b).subrange(0, a.len() as int));
    assert((a + b).subrange(0, a.len() as int) =~= a);
    assert(s.subrange(at + a.len(), at + a.len() + b.len()) =~= (a + b).subrange(a.len() as int, (a + b).len() as int));
    assert((a + b).subrange(a.len() as int, (a + b).len() as int) =~= b);
}

pub(crate) proof fn lemma_holds_extend(a: Seq<u8>, b: Seq<u8>, at: int, part: Seq<u8>)
    requires
        holds_at(a, at, part),
    ensures
        holds_at(a + b, at, part),
        holds_at(b + a, b.len() + at, part),
{
    assert((a + b).subrange(at, at + part.len()) =~= a.subrange(at, at + part.len()));
    assert((b + a).subrange(b.len() + at, b.len() + at + part.len()) =~= a.subrange(at, at + part.len()));
}

pub(crate) proof fn lemma_holds_inner(s: Seq<u8>, at: int, outer: Seq<u8>, inner_at: int, part: Seq<u8>)
    requires
        holds_at(s, at, outer),
        holds_at(outer, inner_at, part),
    ensures
        holds_at(s, at + inner_at, part),
{
    assert(s.subrange(at + inner_at, at + inner_at + part.len()) =~= outer.subrange(inner_at, inner_at + part.len()));
}

pub(crate) proof fn lemma_u16_at(s: Seq<u8>, at: int, x: u16)
    requires
        holds_at(s, at, spec_u16_to_le_bytes(x)),
    ensures
        formats::u16_at(s, at) == x as int,
{
    lemma_auto_spec_u16_to_from_le_bytes();
}

pub(crate) proof fn lemma_u32_at(s: Seq<u8>, at: int, x: u32)
    requires
        holds_at(s, at, spec_u32_to_le_bytes(x)),
    ensures
        formats::u32_at(s, at) == x,
{
    lemma_auto_spec_u32_to_from_le_bytes();
}

pub(crate) proof fn lemma_u64_at(s: Seq<u8>, at: int, x: u64)
    requires
        holds_at(s, at, spec_u64_to_le_bytes(x)),
    ensures
        formats::u64_at(s, at) == x,
{
    lemma_auto_spec_u64_to_from_le_bytes();
}

pub(crate) proof fn lemma_le_lens()
    ensures
        forall|x: u16| #[trigger] spec_u16_to_le_bytes(x).len() == 2,
        forall|x: u32| #[trigger] spec_u32_to_le_bytes(x).len() == 4,
        forall|x: u64| #[trigger] spec_u64_to_le_bytes(x).len() == 8,
{
    lemma_auto_spec_u16_to_from_le_bytes();
    lemma_auto_spec_u32_to_from_le_bytes();
    lemma_auto_spec_u64_to_from_le_bytes();
}

/// Every leaf entry takes at least 14 bytes, so a page holds few of them.
pub(crate) proof fn lemma_leaf_entries_len(s: Seq<EntryView>)
    ensures
        bplus_tree::leaf_entries_bytes(s).len() >= 14 * s.len(),
    decreases s.len(),
{
    if s.len() > 0 {
        lemma_le_lens();
        lemma_leaf_entries_len(s.drop_last());
    }
}

/// Every internal entry takes at least 10 bytes, so a page holds few of them.
pub(crate) proof fn lemma_internal_entries_len(cs: Seq<ChildView>)
    ensures
        bplus_tree::internal_entries_bytes(cs).len() >= 10 * cs.len(),
    decreases cs.len(),
{
    if cs.len() > 0 {
        lemma_le_lens();
        lemma_internal_entries_len(cs.drop_last());
    }
}

// ---------------------------------------------------------------------------
// Key order
// ---------------------------------------------------------------------------

pub(crate) proof fn lemma_lt_irreflexive(a: Seq<u8>)
    ensures
        !formats::bytes_lt(a, a),
    decreases a.len(),
{
    if a.len() > 0 {
        lemma_lt_irreflexive(a.drop_first());
    }
}

pub(crate) proof fn lemma_lt_transitive(a: Seq<u8>, b: Seq<u8>, c: Seq<u8>)
    requires
        formats::bytes_lt(a, b),
        formats::bytes_lt(b, c),
    ensures
        formats::bytes_lt(a, c),
    decreases a.len(),
{
    if a.len() > 0 && b.len() > 0 && c.len() > 0 && a[0] == b[0] && b[0] == c[0] {
        lemma_lt_transitive(a.drop_first(), b.drop_first(), c.drop_first());
    }
}

/// Keys strictly increase from any entry to any later one.
pub(crate) proof fn lemma_sorted_pairwise(es: Seq<EntryView>, i: int, j: int)
    requires
        bplus_tree::strictly_sorted(es),
        0 <= i < j < es.len(),
    ensures
        formats::bytes_lt(es[i].0, es[j].0),
    decreases j - i,
{
    assert(formats::bytes_lt(es[j - 1].0, es[j].0));
    if i < j - 1 {
        lemma_sorted_pairwise(es, i, j - 1);
        lemma_lt_transitive(es[i].0, es[j - 1].0, es[j].0);
    }
}

// ---------------------------------------------------------------------------
// The file header
// ---------------------------------------------------------------------------

proof fn lemma_header_parse(b: Seq<u8>, root: u64, page_count: u64, key_count: u64)
    requires
        holds_at(b, 0, bplus_tree::index_header_bytes(root, page_count, key_count)),
    ensures
        bplus_tree::spec_index_header(b) == Ok::<IndexHeader, bplus_tree::IndexError>(
            IndexHeader {
                version: FORMAT_VERSION,
                page_size: DEFAULT_PAGE_SIZE,
                root_page_offset: root,
                page_count,
                key_count,
            },
        ),
{
    lemma_le_lens();
    let m = formats::index_magic();
    let v = spec_u32_to_le_bytes(FORMAT_VERSION);
    let p = spec_u32_to_le_bytes(DEFAULT_PAGE_SIZE);
    let r = spec_u64_to_le_bytes(root);
    let c = spec_u64_to_le_bytes(page_count);
    let k = spec_u64_to_le_bytes(key_count);
    assert(bplus_tree::index_header_bytes(root, page_count, key_count) == m + v + p + r + c + k);
    lemma_holds_split(b, 0, m + v + p + r + c, k);
    lemma_holds_split(b, 0, m + v + p + r, c);
    lemma_holds_split(b, 0, m + v + p, r);
    lemma_holds_split(b, 0, m + v, p);
    lemma_holds_split(b, 0, m, v);
    lemma_u32_at(b, 4, FORMAT_VERSION);
    lemma_u32_at(b, 8, DEFAULT_PAGE_SIZE);
    lemma_u64_at(b, 12, root);
    lemma_u64_at(b, 20, page_count);
    lemma_u64_at(b, 28, key_count);
}

// ---------------------------------------------------------------------------
// Entries of a page
// ---------------------------------------------------------------------------

/// The pointer of the first entry whose key is `key`.
pub open spec fn first_match(s: Seq<EntryView>, key: Seq<u8>) -> Option<DataPointer>
    decreases s.len(),
{
    if s.len() == 0 {
        None
    } else if s[0].0 == key {
        Some(s[0].1)
    } else {
        first_match(s.drop_first(), key)
    }
}

/// Every key is UTF-8 and short enough for its two-byte length.
pub open spec fn keys_readable(s: Seq<EntryView>) -> bool {
    forall|k: int| 0 <= k < s.len() ==> valid_utf8(#[trigger] s[k].0) && s[k].0.len() < 0x1_0000
}

pub(crate) proof fn lemma_leaf_entry_len(e: EntryView)
    ensures
        bplus_tree::leaf_entry_bytes(e).len() == bplus_tree::leaf_entry_size(e.0),
{
    lemma_le_lens();
}

pub(crate) proof fn lemma_leaf_entries_cons(s: Seq<EntryView>)
    requires
        s.len() > 0,
    ensures
        bplus_tree::leaf_entries_bytes(s) == bplus_tree::leaf_entry_bytes(s[0]) + bplus_tree::leaf_entries_bytes(s.drop_first()),
    decreases s.len(),
{
    if s.len() == 1 {
        assert(s.drop_last() =~= Seq::<EntryView>::empty());
        assert(s.drop_first() =~= Seq::<EntryView>::empty());
        assert(bplus_tree::leaf_entries_bytes(s.drop_last()) =~= Seq::<u8>::empty());
        assert(s.last() == s[0]);
        assert(bplus_tree::leaf_entries_bytes(s) =~= bplus_tree::leaf_entry_bytes(s[0]));
    } else {
        lemma_leaf_entries_cons(s.drop_last());
        assert(s.drop_last().drop_first() =~= s.drop_first().drop_last());
        assert(s.drop_first().last() == s.last());
        assert(s.drop_last()[0] == s[0]);
        assert(bplus_tree::leaf_entries_bytes(s) =~= bplus_tree::leaf_entry_bytes(s[0]) + bplus_tree::leaf_entries_bytes(
            s.drop_first(),
        ));
    }
}

proof fn lemma_leaf_entries_push(s: Seq<EntryView>, e: EntryView)
    ensures
        bplus_tree::leaf_entries_bytes(s.push(e)) == bplus_tree::leaf_entries_bytes(s) + bplus_tree::leaf_entry_bytes(e),
{
    assert(s.push(e).drop_last() =~= s);
}

/// Reading `s.len()` leaf entries that lie at `o` finds the first entry
/// with the key.
proof fn lemma_leaf_lookup(p: Seq<u8>, o: int, s: Seq<EntryView>, key: Seq<u8>)
    requires
        holds_at(p, o, bplus_tree::leaf_entries_bytes(s)),
        keys_readable(s),
    ensures
        bplus_tree::leaf_lookup(p, o, s.len(), key) == Ok::<Option<DataPointer>, bplus_tree::IndexError>(first_match(s, key)),
    decreases s.len(),
{
    if s.len() > 0 {
        lemma_le_lens();
        lemma_leaf_entries_cons(s);
        let e = s[0];
        let rest = s.drop_first();
        lemma_holds_split(p, o, bplus_tree::leaf_entry_bytes(e), bplus_tree::leaf_entries_bytes(rest));
        let lb = spec_u16_to_le_bytes(e.0.len() as u16);
        let ob = spec_u64_to_le_bytes(e.1.offset);
        let nb = spec_u32_to_le_bytes(e.1.len);
        assert(bplus_tree::leaf_entry_bytes(e) == lb + e.0 + ob + nb);
        lemma_holds_split(p, o, lb + e.0 + ob, nb);
        lemma_holds_split(p, o, lb + e.0, ob);
        lemma_holds_split(p, o, lb, e.0);
        assert(valid_utf8(s[0].0) && s[0].0.len() < 0x1_0000);
        lemma_u16_at(p, o, e.0.len() as u16);
        let ks = o + 2;
        let ke = ks + e.0.len();
        lemma_u64_at(p, ke, e.1.offset);
        lemma_u32_at(p, ke + 8, e.1.len);
        assert(p.subrange(ks, ke) == e.0);
        assert(bplus_tree::leaf_entry(p, o) == Ok::<(int, int, DataPointer, int), bplus_tree::IndexError>(
            (ks, ke, DataPointer { offset: e.1.offset, len: e.1.len }, ke + 12),
        ));
        assert(keys_readable(rest)) by {
            assert forall|k: int| 0 <= k < rest.len() implies valid_utf8(#[trigger] rest[k].0) && rest[k].0.len() < 0x1_0000 by {
                assert(rest[k] == s[k + 1]);
            }
        }
        lemma_leaf_lookup(p, ke + 12, rest, key);
    }
}

/// The child chosen among separators that follow the child `selected`:
/// the one of the last separator not above `key`.
pub open spec fn select_child(seps: Seq<ChildView>, key: Seq<u8>, selected: u64) -> u64
    decreases seps.len(),
{
    if seps.len() == 0 {
        selected
    } else if formats::bytes_lt(key, seps[0].0) {
        selected
    } else {
        select_child(seps.drop_first(), key, seps[0].1)
    }
}

proof fn lemma_internal_entries_cons(s: Seq<ChildView>)
    requires
        s.len() > 0,
    ensures
        bplus_tree::internal_entries_bytes(s) == bplus_tree::internal_entry_bytes(s[0]) + bplus_tree::internal_entries_bytes(
            s.drop_first(),
        ),
    decreases s.len(),
{
    if s.len() == 1 {
        assert(s.drop_last() =~= Seq::<ChildView>::empty());
        assert(s.drop_first() =~= Seq::<ChildView>::empty());
        assert(bplus_tree::internal_entries_bytes(s.drop_last()) =~= Seq::<u8>::empty());
        assert(s.last() == s[0]);
        assert(bplus_tree::internal_entries_bytes(s) =~= bplus_tree::internal_entry_bytes(s[0]));
    } else {
        lemma_internal_entries_cons(s.drop_last());
        assert(s.drop_last().drop_first() =~= s.drop_first().drop_last());
        assert(s.drop_first().last() == s.last());
        assert(s.drop_last()[0] == s[0]);
        assert(bplus_tree::internal_entries_bytes(s) =~= bplus_tree::internal_entry_bytes(s[0])
            + bplus_tree::internal_entries_bytes(s.drop_first()));
    }
}

/// Every separator is UTF-8 and short enough for its two-byte length.
pub open spec fn separators_readable(s: Seq<ChildView>) -> bool {
    forall|k: int| 0 <= k < s.len() ==> valid_utf8(#[trigger] s[k].0) && s[k].0.len() < 0x1_0000
}

/// Reading `s.len()` internal entries that lie at `o` picks the child of
/// the last separator not above the key.
proof fn lemma_internal_select(p: Seq<u8>, o: int, s: Seq<ChildView>, key: Seq<u8>, selected: u64)
    requires
        holds_at(p, o, bplus_tree::internal_entries_bytes(s)),
        separators_readable(s),
    ensures
        bplus_tree::internal_select(p, o, s.len(), key, selected) == Ok::<u64, bplus_tree::IndexError>(
            select_child(s, key, selected),
        ),
    decreases s.len(),
{
    if s.len() > 0 {
        lemma_le_lens();
        lemma_internal_entries_cons(s);
        let e = s[0];
        let rest = s.drop_first();
        lemma_holds_split(p, o, bplus_tree::internal_entry_bytes(e), bplus_tree::internal_entries_bytes(rest));
        let lb = spec_u16_to_le_bytes(e.0.len() as u16);
        let cb = spec_u64_to_le_bytes(e.1);
        assert(bplus_tree::internal_entry_bytes(e) == lb + e.0 + cb);
        lemma_holds_split(p, o, lb + e.0, cb);
        lemma_holds_split(p, o, lb, e.0);
        assert(valid_utf8(s[0].0) && s[0].0.len() < 0x1_0000);
        lemma_u16_at(p, o, e.0.len() as u16);
        let ks = o + 2;
        let ke = ks + e.0.len();
        lemma_u64_at(p, ke, e.1);
        assert(p.subrange(ks, ke) == e.0);
        assert(bplus_tree::internal_entry(p, o) == Ok::<(int, int, u64, int), bplus_tree::IndexError>((ks, ke, e.1, ke + 8)));
        assert(separators_readable(rest)) by {
            assert forall|k: int| 0 <= k < rest.len() implies valid_utf8(#[trigger] rest[k].0) && rest[k].0.len() < 0x1_0000 by {
                assert(rest[k] == s[k + 1]);
            }
        }
        lemma_internal_select(p, ke + 8, rest, key, e.1);
    }
}

// ---------------------------------------------------------------------------
// Pages
// ---------------------------------------------------------------------------

pub(crate) proof fn lemma_pad(c: Seq<u8>)
    requires
        c.len() <= PAGE_SIZE,
    ensures
        bplus_tree::pad_page(c).len() == PAGE_SIZE,
        holds_at(bplus_tree::pad_page(c), 0, c),
{
    let p = bplus_tree::pad_page(c);
    if c.len() < PAGE_SIZE {
        assert(p.subrange(0, c.len() as int) =~= c);
    } else {
        assert(p.subrange(0, c.len() as int) =~= c);
    }
}

pub(crate) proof fn lemma_page_header(p: Seq<u8>, kind: u8, count: u32, extra: u64)
    requires
        holds_at(p, 0, bplus_tree::page_header_bytes(kind, count, extra)),
    ensures
        p[0] == kind,
        bplus_tree::page_count(p) == count as nat,
        bplus_tree::page_extra(p) == extra,
{
    lemma_le_lens();
    let a = seq![kind, 0u8, 0u8, 0u8];
    let c = spec_u32_to_le_bytes(count);
    let e = spec_u64_to_le_bytes(extra);
    assert(bplus_tree::page_header_bytes(kind, count, extra) == a + c + e);
    lemma_holds_split(p, 0, a + c, e);
    lemma_holds_split(p, 0, a, c);
    assert(p[0] == p.subrange(0, 4)[0]);
    lemma_u32_at(p, 4, count);
    lemma_u64_at(p, 8, extra);
}

/// The bytes a leaf page over `s` holds before its padding.
pub open spec fn leaf_content(s: Seq<EntryView>, next: u64) -> Seq<u8> {
    bplus_tree::page_header_bytes(PAGE_KIND_LEAF, s.len() as u32, next) + bplus_tree::leaf_entries_bytes(s)
}

proof fn lemma_leaf_page(s: Seq<EntryView>, next: u64, key: Seq<u8>)
    requires
        PAGE_HEADER_LEN + bplus_tree::leaf_entries_bytes(s).len() <= PAGE_SIZE,
        keys_readable(s),
    ensures
        bplus_tree::leaf_page_bytes(s, next).len() == PAGE_SIZE,
        bplus_tree::leaf_page_bytes(s, next)[0] == PAGE_KIND_LEAF,
        bplus_tree::page_count(bplus_tree::leaf_page_bytes(s, next)) == s.len(),
        ({
            let p = bplus_tree::leaf_page_bytes(s, next);
            bplus_tree::leaf_lookup(p, PAGE_HEADER_LEN as int, bplus_tree::page_count(p), key)
                == Ok::<Option<DataPointer>, bplus_tree::IndexError>(first_match(s, key))
        }),
{
    lemma_le_lens();
    lemma_leaf_entries_len(s);
    let h = bplus_tree::page_header_bytes(PAGE_KIND_LEAF, s.len() as u32, next);
    let c = leaf_content(s, next);
    assert(h.len() == PAGE_HEADER_LEN);
    lemma_pad(c);
    let p = bplus_tree::pad_page(c);
    assert(p == bplus_tree::leaf_page_bytes(s, next));
    lemma_holds_split(p, 0, h, bplus_tree::leaf_entries_bytes(s));
    lemma_page_header(p, PAGE_KIND_LEAF, s.len() as u32, next);
    lemma_leaf_lookup(p, PAGE_HEADER_LEN as int, s, key);
}

/// The bytes an internal page over `cs` holds before its padding.
pub open spec fn internal_content(cs: Seq<ChildView>) -> Seq<u8> {
    bplus_tree::page_header_bytes(PAGE_KIND_INTERNAL, (cs.len() - 1) as u32, cs[0].1) + bplus_tree::internal_entries_bytes(
        cs.drop_first(),
    )
}

proof fn lemma_internal_page(cs: Seq<ChildView>, key: Seq<u8>)
    requires
        cs.len() >= 1,
        PAGE_HEADER_LEN + bplus_tree::internal_entries_bytes(cs.drop_first()).len() <= PAGE_SIZE,
        separators_readable(cs),
    ensures
        bplus_tree::internal_page_bytes(cs).len() == PAGE_SIZE,
        bplus_tree::internal_page_bytes(cs)[0] == PAGE_KIND_INTERNAL,
        ({
            let p = bplus_tree::internal_page_bytes(cs);
            bplus_tree::internal_select(p, PAGE_HEADER_LEN as int, bplus_tree::page_count(p), key, bplus_tree::page_extra(p))
                == Ok::<u64, bplus_tree::IndexError>(select_child(cs.drop_first(), key, cs[0].1))
        }),
{
    lemma_le_lens();
    lemma_internal_entries_len(cs.drop_first());
    let h = bplus_tree::page_header_bytes(PAGE_KIND_INTERNAL, (cs.len() - 1) as u32, cs[0].1);
    let c = internal_content(cs);
    assert(h.len() == PAGE_HEADER_LEN);
    lemma_pad(c);
    let p = bplus_tree::pad_page(c);
    assert(p == bplus_tree::internal_page_bytes(cs));
    lemma_holds_split(p, 0, h, bplus_tree::internal_entries_bytes(cs.drop_first()));
    lemma_page_header(p, PAGE_KIND_INTERNAL, (cs.len() - 1) as u32, cs[0].1);
    let rest = cs.drop_first();
    assert(separators_readable(rest)) by {
        assert forall|k: int| 0 <= k < rest.len() implies valid_utf8(#[trigger] rest[k].0) && rest[k].0.len() < 0x1_0000 by {
            assert(rest[k] == cs[k + 1]);
        }
    }
    lemma_internal_select(p, PAGE_HEADER_LEN as int, rest, key, cs[0].1);
}

// ---------------------------------------------------------------------------
// The ranges the builder cuts fit in a page
// ---------------------------------------------------------------------------

/// Every range of `rs` cut from `es` fits in one leaf page.
pub open spec fn leaf_ranges_fit(es: Seq<EntryView>, rs: Seq<(int, int)>) -> bool {
    forall|k: int|
        0 <= k < rs.len() ==> PAGE_HEADER_LEN + bplus_tree::leaf_entries_bytes(es.subrange((#[trigger] rs[k]).0, rs[k].1)).len()
            <= PAGE_SIZE
}

proof fn lemma_leaf_ranges_fit(es: Seq<EntryView>, i: int, start: int, used: int)
    requires
        bplus_tree::keys_fit(es),
        0 <= start <= i <= es.len(),
        PAGE_HEADER_LEN + bplus_tree::leaf_entries_bytes(es.subrange(start, i)).len() <= used <= PAGE_SIZE,
        start == i ==> used == PAGE_HEADER_LEN,
    ensures
        leaf_ranges_fit(es, bplus_tree::leaf_ranges_from(es, i, start, used)),
    decreases es.len() - i,
{
    let rs = bplus_tree::leaf_ranges_from(es, i, start, used);
    if i >= es.len() {
        if start < i {
            assert(rs =~= seq![(start, i)]);
            assert(rs[0] == (start, i));
        }
    } else {
        let size = bplus_tree::leaf_entry_size(es[i].0);
        assert(bplus_tree::leaf_entry_size(es[i].0) + PAGE_HEADER_LEN <= PAGE_SIZE);
        lemma_leaf_entry_len(es[i]);
        if used + size > PAGE_SIZE && start < i {
            assert(es.subrange(i, i + 1) =~= Seq::<EntryView>::empty().push(es[i]));
            lemma_leaf_entries_push(Seq::<EntryView>::empty(), es[i]);
            assert(bplus_tree::leaf_entries_bytes(Seq::<EntryView>::empty()) =~= Seq::<u8>::empty());
            lemma_leaf_ranges_fit(es, i + 1, i, PAGE_HEADER_LEN + size);
            let rest = bplus_tree::leaf_ranges_from(es, i + 1, i, PAGE_HEADER_LEN + size);
            assert(rs == seq![(start, i)] + rest);
            assert forall|k: int| 0 <= k < rs.len() implies PAGE_HEADER_LEN + bplus_tree::leaf_entries_bytes(
                es.subrange((#[trigger] rs[k]).0, rs[k].1),
            ).len() <= PAGE_SIZE by {
                if k > 0 {
                    assert(rs[k] == rest[k - 1]);
                }
            }
        } else {
            if start == i {
                assert(es.subrange(start, i) =~= Seq::<EntryView>::empty());
                assert(bplus_tree::leaf_entries_bytes(Seq::<EntryView>::empty()) =~= Seq::<u8>::empty());
            }
            assert(es.subrange(start, i + 1) =~= es.subrange(start, i).push(es[i]));
            lemma_leaf_entries_push(es.subrange(start, i), es[i]);
            lemma_leaf_ranges_fit(es, i + 1, start, used + size);
        }
    }
}

/// Every range of `rs` cut from `cs` fits in one internal page.
pub open spec fn internal_ranges_fit(cs: Seq<ChildView>, rs: Seq<(int, int)>) -> bool {
    forall|k: int|
        0 <= k < rs.len() ==> PAGE_HEADER_LEN + bplus_tree::internal_entries_bytes(
            cs.subrange((#[trigger] rs[k]).0 + 1, rs[k].1),
        ).len() <= PAGE_SIZE
}

proof fn lemma_internal_entries_push(s: Seq<ChildView>, e: ChildView)
    ensures
        bplus_tree::internal_entries_bytes(s.push(e)) == bplus_tree::internal_entries_bytes(s) + bplus_tree::internal_entry_bytes(e),
        bplus_tree::internal_entry_bytes(e).len() == 2 + e.0.len() + 8,
{
    lemma_le_lens();
    assert(s.push(e).drop_last() =~= s);
}

proof fn lemma_internal_ranges_fit(cs: Seq<ChildView>, i: int, start: int, used: int)
    requires
        bplus_tree::separators_fit(cs),
        0 <= start <= i <= cs.len(),
        start < i ==> PAGE_HEADER_LEN + bplus_tree::internal_entries_bytes(cs.subrange(start + 1, i)).len() <= used,
        PAGE_HEADER_LEN <= used <= PAGE_SIZE,
    ensures
        internal_ranges_fit(cs, bplus_tree::internal_ranges_from(cs, i, start, used)),
    decreases cs.len() - i,
{
    let rs = bplus_tree::internal_ranges_from(cs, i, start, used);
    if i >= cs.len() {
        if start < i {
            assert(rs =~= seq![(start, i)]);
            assert(rs[0] == (start, i));
        }
    } else {
        let size = if start < i { 2 + cs[i].0.len() + 8 } else { 0 };
        assert(cs[i].0.len() + 2 + 8 + PAGE_HEADER_LEN <= PAGE_SIZE);
        if used + size > PAGE_SIZE && start < i {
            assert(cs.subrange(i + 1, i + 1) =~= Seq::<ChildView>::empty());
            lemma_internal_ranges_fit(cs, i + 1, i, PAGE_HEADER_LEN + size);
            let rest = bplus_tree::internal_ranges_from(cs, i + 1, i, PAGE_HEADER_LEN + size);
            assert(rs == seq![(start, i)] + rest);
            assert forall|k: int| 0 <= k < rs.len() implies PAGE_HEADER_LEN + bplus_tree::internal_entries_bytes(
                cs.subrange((#[trigger] rs[k]).0 + 1, rs[k].1),
            ).len() <= PAGE_SIZE by {
                if k > 0 {
                    assert(rs[k] == rest[k - 1]);
                }
            }
        } else {
            if start == i {
                assert(cs.subrange(start + 1, i + 1) =~= Seq::<ChildView>::empty());
                assert(bplus_tree::internal_entries_bytes(Seq::<ChildView>::empty()) =~= Seq::<u8>::empty());
            } else {
                assert(cs.subrange(start + 1, i + 1) =~= cs.subrange(start + 1, i).push(cs[i]));
                lemma_internal_entries_push(cs.subrange(start + 1, i), cs[i]);
            }
            lemma_internal_ranges_fit(cs, i + 1, start, used + size);
        }
    }
}

// ---------------------------------------------------------------------------
// Pages laid one after another
// ---------------------------------------------------------------------------

/// The next-leaf link of leaf page `k` among `n`.
pub open spec fn next_leaf(k: int, n: int) -> u64 {
    if k + 1 < n {
        bplus_tree::page_offset(k + 1) as u64
    } else {
        0u64
    }
}

/// The ranges stay inside `0..n` and are not reversed.
pub open spec fn ranges_within(rs: Seq<(int, int)>, n: int) -> bool {
    forall|k: int| 0 <= k < rs.len() ==> 0 <= (#[trigger] rs[k]).0 <= rs[k].1 <= n
}

pub(crate) proof fn lemma_partitions_within(rs: Seq<(int, int)>, n: int)
    requires
        bplus_tree::partitions(rs, 0, n),
    ensures
        ranges_within(rs, n),
{
    assert forall|k: int| 0 <= k < rs.len() implies 0 <= (#[trigger] rs[k]).0 <= rs[k].1 <= n by {
        bplus_tree::lemma_partition_bounds(rs, 0, n, k);
    }
}

#[verifier::spinoff_prover]
pub(crate) proof fn lemma_leaf_pages(es: Seq<EntryView>, rs: Seq<(int, int)>, j: int)
    requires
        leaf_ranges_fit(es, rs),
        ranges_within(rs, es.len() as int),
        0 <= j <= rs.len(),
    ensures
        bplus_tree::leaf_pages_bytes(es, rs, j).len() == j * PAGE_SIZE,
        forall|k: int|
            0 <= k < j ==> holds_at(
                bplus_tree::leaf_pages_bytes(es, rs, j),
                k * PAGE_SIZE,
                bplus_tree::leaf_page_bytes(es.subrange((#[trigger] rs[k]).0, rs[k].1), next_leaf(k, rs.len() as int)),
            ),
    decreases j,
{
    if j > 0 {
        lemma_leaf_pages(es, rs, j - 1);
        lemma_le_lens();
        let prev = bplus_tree::leaf_pages_bytes(es, rs, j - 1);
        let r = rs[j - 1];
        let sub = es.subrange(r.0, r.1);
        let page = bplus_tree::leaf_page_bytes(sub, next_leaf(j - 1, rs.len() as int));
        lemma_pad(leaf_content(sub, next_leaf(j - 1, rs.len() as int)));
        assert(bplus_tree::leaf_pages_bytes(es, rs, j) == prev + page);
        assert forall|k: int|
            0 <= k < j implies holds_at(
            bplus_tree::leaf_pages_bytes(es, rs, j),
            k * PAGE_SIZE,
            bplus_tree::leaf_page_bytes(es.subrange((#[trigger] rs[k]).0, rs[k].1), next_leaf(k, rs.len() as int)),
        ) by {
            if k < j - 1 {
                lemma_holds_extend(prev, page, k * PAGE_SIZE, bplus_tree::leaf_page_bytes(
                    es.subrange(rs[k].0, rs[k].1),
                    next_leaf(k, rs.len() as int),
                ));
            } else {
                assert((prev + page).subrange(prev.len() as int, (prev.len() + page.len()) as int) =~= page);
            }
        }
    }
}

#[verifier::spinoff_prover]
proof fn lemma_internal_pages(cs: Seq<ChildView>, rs: Seq<(int, int)>, j: int)
    requires
        internal_ranges_fit(cs, rs),
        forall|k: int| 0 <= k < rs.len() ==> 0 <= (#[trigger] rs[k]).0 < rs[k].1 <= cs.len(),
        0 <= j <= rs.len(),
    ensures
        bplus_tree::internal_pages_bytes(cs, rs, j).len() == j * PAGE_SIZE,
        forall|k: int|
            0 <= k < j ==> holds_at(
                bplus_tree::internal_pages_bytes(cs, rs, j),
                k * PAGE_SIZE,
                bplus_tree::internal_page_bytes(cs.subrange((#[trigger] rs[k]).0, rs[k].1)),
            ),
    decreases j,
{
    if j > 0 {
        lemma_internal_pages(cs, rs, j - 1);
        lemma_le_lens();
        let prev = bplus_tree::internal_pages_bytes(cs, rs, j - 1);
        let r = rs[j - 1];
        let sub = cs.subrange(r.0, r.1);
        let page = bplus_tree::internal_page_bytes(sub);
        assert(sub.drop_first() =~= cs.subrange(r.0 + 1, r.1));
        lemma_pad(internal_content(sub));
        assert(bplus_tree::internal_pages_bytes(cs, rs, j) == prev + page);
        assert forall|k: int|
            0 <= k < j implies holds_at(
            bplus_tree::internal_pages_bytes(cs, rs, j),
            k * PAGE_SIZE,
            bplus_tree::internal_page_bytes(cs.subrange((#[trigger] rs[k]).0, rs[k].1)),
        ) by {
            if k < j - 1 {
                lemma_holds_extend(prev, page, k * PAGE_SIZE, bplus_tree::internal_page_bytes(cs.subrange(rs[k].0, rs[k].1)));
            } else {
                assert((prev + page).subrange(prev.len() as int, (prev.len() + page.len()) as int) =~= page);
            }
        }
    }
}

// ---------------------------------------------------------------------------
// The levels above the leaves
// ---------------------------------------------------------------------------

/// A level of children whose separators can be written and read back.
pub open spec fn level_ok(cs: Seq<ChildView>) -> bool {
    &&& separators_readable(cs)
    &&& bplus_tree::separators_fit(cs)
}

proof fn lemma_parent_level_ok(cs: Seq<ChildView>, rs: Seq<(int, int)>, first: int)
    requires
        level_ok(cs),
        forall|k: int| 0 <= k < rs.len() ==> 0 <= (#[trigger] rs[k]).0 < rs[k].1 <= cs.len(),
    ensures
        level_ok(bplus_tree::parent_level(cs, rs, first)),
        bplus_tree::parent_level(cs, rs, first).len() == rs.len(),
{
    let pl = bplus_tree::parent_level(cs, rs, first);
    assert forall|k: int| 0 <= k < pl.len() implies valid_utf8(#[trigger] pl[k].0) && pl[k].0.len() < 0x1_0000 by {
        assert(pl[k].0 == cs[rs[k].0].0);
    }
    assert forall|k: int| 0 <= k < pl.len() implies #[trigger] pl[k].0.len() + 2 + 8 + PAGE_HEADER_LEN <= PAGE_SIZE by {
        assert(pl[k].0 == cs[rs[k].0].0);
    }
}

/// The internal pages above a level take whole pages, and the page count
/// grows by at most the level's length per level.
#[verifier::spinoff_prover]
proof fn lemma_upper_shape(cs: Seq<ChildView>, count: nat, fuel: nat)
    requires
        level_ok(cs),
    ensures
        bplus_tree::upper_levels(cs, count, fuel).1 >= count,
        bplus_tree::upper_levels(cs, count, fuel).0.len() == (bplus_tree::upper_levels(cs, count, fuel).1 - count) * PAGE_SIZE,
        bplus_tree::upper_levels(cs, count, fuel).1 <= count + cs.len() * fuel,
    decreases fuel,
{
    if cs.len() > 1 && fuel > 0 {
        let rs = bplus_tree::internal_ranges(cs);
        bplus_tree::lemma_internal_level_shrinks(cs);
        assert(bplus_tree::separators_fit(cs));
        lemma_internal_ranges_fit(cs, 0, 0, PAGE_HEADER_LEN as int);
        assert forall|k: int| 0 <= k < rs.len() implies 0 <= (#[trigger] rs[k]).0 < rs[k].1 <= cs.len() by {
            bplus_tree::lemma_partition_bounds(rs, 0, cs.len() as int, k);
        }
        lemma_internal_pages(cs, rs, rs.len() as int);
        let pl = bplus_tree::parent_level(cs, rs, count as int);
        lemma_parent_level_ok(cs, rs, count as int);
        lemma_upper_shape(pl, count + rs.len(), (fuel - 1) as nat);
        let up = bplus_tree::upper_levels(pl, count + rs.len(), (fuel - 1) as nat);
        assert(up.1 <= count + rs.len() + pl.len() * (fuel - 1));
        assert(rs.len() + pl.len() * (fuel - 1) <= cs.len() * fuel) by (nonlinear_arith)
            requires
                pl.len() == rs.len(),
                rs.len() <= cs.len(),
                fuel >= 1,
        ;
        assert((up.1 - count) * PAGE_SIZE == rs.len() * PAGE_SIZE + (up.1 - count - rs.len()) * PAGE_SIZE) by (nonlinear_arith);
    }
}

// ---------------------------------------------------------------------------
// Which child a key belongs to
// ---------------------------------------------------------------------------

/// Child `m` of the level is the one `key` belongs to: the last whose first
/// key is not above it (the first child when every first key is).
pub open spec fn covers(cs: Seq<ChildView>, key: Seq<u8>, m: int) -> bool {
    &&& 0 <= m < cs.len()
    &&& (m == 0 || !formats::bytes_lt(key, cs[m].0))
    &&& (m + 1 == cs.len() || formats::bytes_lt(key, cs[m + 1].0))
}

/// Reading the separators `c..b` after child `c - 1` of a page selects the
/// child of the range that `key` belongs to.
proof fn lemma_select_covers(cs: Seq<ChildView>, key: Seq<u8>, c: int, b: int) -> (m: int)
    requires
        1 <= c <= b <= cs.len(),
        c - 1 == 0 || !formats::bytes_lt(key, cs[c - 1].0),
        b == cs.len() || formats::bytes_lt(key, cs[b].0),
    ensures
        covers(cs, key, m),
        c - 1 <= m < b,
        select_child(cs.subrange(c, b), key, cs[c - 1].1) == cs[m].1,
    decreases b - c,
{
    let seps = cs.subrange(c, b);
    if c == b {
        c - 1
    } else {
        assert(seps[0] == cs[c]);
        if formats::bytes_lt(key, cs[c].0) {
            c - 1
        } else {
            assert(seps.drop_first() =~= cs.subrange(c + 1, b));
            lemma_select_covers(cs, key, c + 1, b)
        }
    }
}

// ---------------------------------------------------------------------------
// Descending from the root
// ---------------------------------------------------------------------------

/// The facts of one level's internal pages, placed from page `count` on.
pub open spec fn level_pages_at(b: Seq<u8>, cs: Seq<ChildView>, count: int) -> bool {
    let rs = bplus_tree::internal_ranges(cs);
    &&& bplus_tree::partitions(rs, 0, cs.len() as int)
    &&& internal_ranges_fit(cs, rs)
    &&& holds_at(b, bplus_tree::page_offset(count), bplus_tree::internal_pages_bytes(cs, rs, rs.len() as int))
}

/// The internal page of parent child `k` lies at its offset in the file.
#[verifier::spinoff_prover]
proof fn lemma_level_page(b: Seq<u8>, cs: Seq<ChildView>, count: int, k: int)
    requires
        0 <= count,
        level_pages_at(b, cs, count),
        0 <= k < bplus_tree::internal_ranges(cs).len(),
    ensures
        ({
            let rs = bplus_tree::internal_ranges(cs);
            holds_at(b, bplus_tree::page_offset(count + k), bplus_tree::internal_page_bytes(cs.subrange(rs[k].0, rs[k].1)))
        }),
{
    let rs = bplus_tree::internal_ranges(cs);
    let pages = bplus_tree::internal_pages_bytes(cs, rs, rs.len() as int);
    assert forall|t: int| 0 <= t < rs.len() implies 0 <= (#[trigger] rs[t]).0 < rs[t].1 <= cs.len() by {
        bplus_tree::lemma_partition_bounds(rs, 0, cs.len() as int, t);
    }
    lemma_internal_pages(cs, rs, rs.len() as int);
    let page = bplus_tree::internal_page_bytes(cs.subrange(rs[k].0, rs[k].1));
    assert(holds_at(pages, k * PAGE_SIZE, page));
    lemma_holds_inner(b, bplus_tree::page_offset(count), pages, k * PAGE_SIZE, page);
}

/// A whole internal page held at `off` is the page read there.
proof fn lemma_internal_page_at(b: Seq<u8>, off: int, sub: Seq<ChildView>)
    requires
        sub.len() >= 1,
        0 <= off,
        holds_at(b, off, bplus_tree::internal_page_bytes(sub)),
        PAGE_HEADER_LEN + bplus_tree::internal_entries_bytes(sub.drop_first()).len() <= PAGE_SIZE,
    ensures
        bplus_tree::page_in(b, off),
        bplus_tree::page_at(b, off) == bplus_tree::internal_page_bytes(sub),
{
    lemma_le_lens();
    lemma_pad(internal_content(sub));
}

/// The children of a range of a level whose separators read back.
proof fn lemma_sub_readable(cs: Seq<ChildView>, a: int, e: int)
    requires
        separators_readable(cs),
        0 <= a <= e <= cs.len(),
    ensures
        separators_readable(cs.subrange(a, e)),
{
    let sub = cs.subrange(a, e);
    assert forall|t: int| 0 <= t < sub.len() implies valid_utf8(#[trigger] sub[t].0) && sub[t].0.len() < 0x1_0000 by {
        assert(sub[t] == cs[a + t]);
    }
}

/// The ends of range `k` of a partition of `[0, n)`.
proof fn lemma_range_ends(rs: Seq<(int, int)>, n: int, k: int)
    requires
        bplus_tree::partitions(rs, 0, n),
        0 <= k < rs.len(),
    ensures
        0 <= rs[k].0 < rs[k].1 <= n,
        k == 0 ==> rs[k].0 == 0,
        k + 1 == rs.len() ==> rs[k].1 == n,
        k + 1 < rs.len() ==> rs[k].1 == rs[k + 1].0 && rs[k + 1].0 < n,
{
    bplus_tree::lemma_partition_bounds(rs, 0, n, k);
    if k + 1 < rs.len() {
        bplus_tree::lemma_partition_bounds(rs, 0, n, k + 1);
    }
}

/// The internal page of parent child `k`: where it lies, the children it
/// covers, and what it holds.
#[verifier::spinoff_prover]
proof fn lemma_step_page(b: Seq<u8>, cs: Seq<ChildView>, count: int, k: int)
    requires
        2 <= cs.len(),
        level_ok(cs),
        0 <= count,
        level_pages_at(b, cs, count),
        0 <= k < bplus_tree::internal_ranges(cs).len(),
        bplus_tree::page_offset(count + k) < u64::MAX,
    ensures
        ({
            let rs = bplus_tree::internal_ranges(cs);
            let pl = bplus_tree::parent_level(cs, rs, count);
            let a = rs[k].0;
            let e = rs[k].1;
            let off = bplus_tree::page_offset(count + k);
            &&& 0 <= a < e <= cs.len()
            &&& pl.len() == rs.len()
            &&& pl[k] == (cs[a].0, off as u64)
            &&& off as u64 as int == off
            &&& bplus_tree::page_in(b, off)
            &&& bplus_tree::page_at(b, off) == bplus_tree::internal_page_bytes(cs.subrange(a, e))
            &&& PAGE_HEADER_LEN + bplus_tree::internal_entries_bytes(cs.subrange(a, e).drop_first()).len() <= PAGE_SIZE
            &&& separators_readable(cs.subrange(a, e))
            &&& (k == 0 ==> a == 0)
            &&& (k + 1 == rs.len() ==> e == cs.len())
            &&& (k + 1 < rs.len() ==> pl[k + 1].0 == cs[e].0)
        }),
{
    let rs = bplus_tree::internal_ranges(cs);
    let a = rs[k].0;
    let e = rs[k].1;
    let sub = cs.subrange(a, e);
    let off = bplus_tree::page_offset(count + k);
    lemma_range_ends(rs, cs.len() as int, k);
    assert(sub.drop_first() =~= cs.subrange(a + 1, e));
    assert(PAGE_HEADER_LEN + bplus_tree::internal_entries_bytes(cs.subrange(a + 1, e)).len() <= PAGE_SIZE);
    lemma_level_page(b, cs, count, k);
    lemma_internal_page_at(b, off, sub);
    lemma_sub_readable(cs, a, e);
}

/// One step down: from the page of the parent child `k` the key belongs
/// to, the descent moves to the child of `cs` the key belongs to.
#[verifier::spinoff_prover]
#[verifier::rlimit(40)]
proof fn lemma_step(b: Seq<u8>, cs: Seq<ChildView>, count: int, k: int, key: Seq<u8>, g: nat) -> (m: int)
    requires
        2 <= cs.len(),
        level_ok(cs),
        0 <= count,
        level_pages_at(b, cs, count),
        covers(bplus_tree::parent_level(cs, bplus_tree::internal_ranges(cs), count), key, k),
        bplus_tree::page_offset(count + k) < u64::MAX,
        g >= 1,
    ensures
        covers(cs, key, m),
        bplus_tree::find_leaf(b, bplus_tree::parent_level(cs, bplus_tree::internal_ranges(cs), count)[k].1, key, g)
            == bplus_tree::find_leaf(b, cs[m].1, key, (g - 1) as nat),
{
    let rs = bplus_tree::internal_ranges(cs);
    let pl = bplus_tree::parent_level(cs, rs, count);
    lemma_step_page(b, cs, count, k);
    let a = rs[k].0;
    let e = rs[k].1;
    let sub = cs.subrange(a, e);
    let off = bplus_tree::page_offset(count + k);
    lemma_internal_page(sub, key);
    assert(sub.drop_first() =~= cs.subrange(a + 1, e));
    assert(a == 0 || !formats::bytes_lt(key, cs[a].0));
    assert(e == cs.len() || formats::bytes_lt(key, cs[e].0));
    let m = lemma_select_covers(cs, key, a + 1, e);
    assert(sub[0] == cs[a]);
    m
}

/// From the root of the levels built above `cs`, the descent for any key
/// reaches the child of `cs` the key belongs to, one step per level.
#[verifier::spinoff_prover]
pub(crate) proof fn lemma_descend(b: Seq<u8>, cs: Seq<ChildView>, count: nat, fuel: nat, key: Seq<u8>, f: nat) -> (res: (int, nat))
    requires
        1 <= cs.len(),
        fuel + 1 >= cs.len(),
        level_ok(cs),
        holds_at(b, bplus_tree::page_offset(count as int), bplus_tree::upper_levels(cs, count, fuel).0),
        f >= bplus_tree::upper_levels(cs, count, fuel).1 - count + 1,
        bplus_tree::page_offset(bplus_tree::upper_levels(cs, count, fuel).1 as int) <= u64::MAX,
    ensures
        covers(cs, key, res.0),
        res.1 <= bplus_tree::upper_levels(cs, count, fuel).1 - count,
        bplus_tree::find_leaf(b, bplus_tree::upper_levels(cs, count, fuel).2, key, f) == bplus_tree::find_leaf(
            b,
            cs[res.0].1,
            key,
            (f - res.1) as nat,
        ),
    decreases fuel,
{
    if cs.len() <= 1 || fuel == 0 {
        (0, 0)
    } else {
        let rs = bplus_tree::internal_ranges(cs);
        bplus_tree::lemma_internal_level_shrinks(cs);
        lemma_internal_ranges_fit(cs, 0, 0, PAGE_HEADER_LEN as int);
        assert forall|t: int| 0 <= t < rs.len() implies 0 <= (#[trigger] rs[t]).0 < rs[t].1 <= cs.len() by {
            bplus_tree::lemma_partition_bounds(rs, 0, cs.len() as int, t);
        }
        lemma_internal_pages(cs, rs, rs.len() as int);
        let pages = bplus_tree::internal_pages_bytes(cs, rs, rs.len() as int);
        let pl = bplus_tree::parent_level(cs, rs, count as int);
        lemma_parent_level_ok(cs, rs, count as int);
        let c2: nat = count + rs.len();
        let up2 = bplus_tree::upper_levels(pl, c2, (fuel - 1) as nat);
        assert(bplus_tree::upper_levels(cs, count, fuel) == (pages + up2.0, up2.1, up2.2));
        lemma_holds_split(b, bplus_tree::page_offset(count as int), pages, up2.0);
        lemma_upper_shape(pl, c2, (fuel - 1) as nat);
        let (k, d) = lemma_descend(b, pl, c2, (fuel - 1) as nat, key, f);
        assert(bplus_tree::page_offset(count + k) < bplus_tree::page_offset(up2.1 as int));
        let m = lemma_step(b, cs, count as int, k, key, (f - d) as nat);
        (m, d + 1)
    }
}

// ---------------------------------------------------------------------------
// The leaf a key belongs to holds it
// ---------------------------------------------------------------------------

pub(crate) proof fn lemma_first_match_at(s: Seq<EntryView>, t: int, key: Seq<u8>)
    requires
        0 <= t < s.len(),
        s[t].0 == key,
        forall|u: int| 0 <= u < t ==> (#[trigger] s[u]).0 != key,
    ensures
        first_match(s, key) == Some(s[t].1),
    decreases t,
{
    if t > 0 {
        assert(s[0].0 != key);
        let rest = s.drop_first();
        assert forall|u: int| 0 <= u < t - 1 implies (#[trigger] rest[u]).0 != key by {
            assert(rest[u] == s[u + 1]);
        }
        lemma_first_match_at(rest, t - 1, key);
    }
}

pub(crate) proof fn lemma_first_match_none(s: Seq<EntryView>, key: Seq<u8>)
    requires
        forall|u: int| 0 <= u < s.len() ==> (#[trigger] s[u]).0 != key,
    ensures
        first_match(s, key) is None,
    decreases s.len(),
{
    if s.len() > 0 {
        assert(s[0].0 != key);
        let rest = s.drop_first();
        assert forall|u: int| 0 <= u < rest.len() implies (#[trigger] rest[u]).0 != key by {
            assert(rest[u] == s[u + 1]);
        }
        lemma_first_match_none(rest, key);
    }
}

/// In strictly sorted entries, the leaf a key belongs to answers for the
/// key as all the entries do.
proof fn lemma_leaf_find(es: Seq<EntryView>, rs: Seq<(int, int)>, j: int, key: Seq<u8>)
    requires
        bplus_tree::strictly_sorted(es),
        es.len() > 0,
        bplus_tree::partitions(rs, 0, es.len() as int),
        covers(bplus_tree::leaf_level(es, rs), key, j),
    ensures
        first_match(es.subrange(rs[j].0, rs[j].1), key) == first_match(es, key),
{
    let ll = bplus_tree::leaf_level(es, rs);
    let a = rs[j].0;
    let e = rs[j].1;
    bplus_tree::lemma_partition_bounds(rs, 0, es.len() as int, j);
    let sub = es.subrange(a, e);
    if exists|i: int| 0 <= i < es.len() && (#[trigger] es[i]).0 == key {
        let i = choose|i: int| 0 <= i < es.len() && (#[trigger] es[i]).0 == key;
        assert forall|u: int| 0 <= u < i implies (#[trigger] es[u]).0 != key by {
            lemma_sorted_pairwise(es, u, i);
            lemma_lt_irreflexive(key);
        }
        lemma_first_match_at(es, i, key);
        assert(a <= i) by {
            if i < a {
                assert(j != 0) by {
                    assert(rs[0].0 == 0);
                }
                assert(ll[j].0 == es[a].0);
                lemma_sorted_pairwise(es, i, a);
            }
        }
        assert(i < e) by {
            if i >= e {
                if j + 1 == ll.len() {
                    assert(rs.last().1 == es.len());
                } else {
                    assert(rs[j].1 == rs[j + 1].0);
                    bplus_tree::lemma_partition_bounds(rs, 0, es.len() as int, j + 1);
                    assert(ll[j + 1].0 == es[e].0);
                    if e == i {
                        lemma_lt_irreflexive(key);
                    } else {
                        lemma_sorted_pairwise(es, e, i);
                        formats::lemma_bytes_lt_asym(es[e].0, es[i].0);
                    }
                }
            }
        }
        assert(sub[i - a] == es[i]);
        assert forall|u: int| 0 <= u < i - a implies (#[trigger] sub[u]).0 != key by {
            assert(sub[u] == es[a + u]);
        }
        lemma_first_match_at(sub, i - a, key);
    } else {
        lemma_first_match_none(es, key);
        assert forall|u: int| 0 <= u < sub.len() implies (#[trigger] sub[u]).0 != key by {
            assert(sub[u] == es[a + u]);
        }
        lemma_first_match_none(sub, key);
    }
}

// ---------------------------------------------------------------------------
// The written file
// ---------------------------------------------------------------------------

/// The entries' keys are UTF-8.
pub open spec fn keys_utf8(es: Seq<EntryView>) -> bool {
    forall|k: int| 0 <= k < es.len() ==> valid_utf8(#[trigger] es[k].0)
}

/// Where the header, the leaf pages and the upper levels lie in the file
/// written for `es`.
#[verifier::spinoff_prover]
pub(crate) proof fn lemma_file_layout(es: Seq<EntryView>)
    requires
        bplus_tree::keys_fit(es),
        keys_utf8(es),
        0 < es.len(),
        bplus_tree::offsets_fit(es),
    ensures
        ({
            let rs = bplus_tree::leaf_ranges(es);
            let nl = rs.len();
            let ll = bplus_tree::leaf_level(es, rs);
            let up = bplus_tree::upper_levels(ll, nl, nl);
            let b = bplus_tree::index_file(es);
            &&& bplus_tree::partitions(rs, 0, es.len() as int)
            &&& 1 <= nl <= es.len()
            &&& leaf_ranges_fit(es, rs)
            &&& level_ok(ll)
            &&& ll.len() == nl
            &&& up.1 >= nl
            &&& es.len() <= u64::MAX
            &&& bplus_tree::page_offset(up.1 as int) <= u64::MAX
            &&& b.len() == bplus_tree::page_offset(up.1 as int)
            &&& holds_at(b, 0, bplus_tree::index_header_bytes(up.2, up.1 as u64, es.len() as u64))
            &&& holds_at(b, INDEX_HEADER_LEN as int, bplus_tree::leaf_pages_bytes(es, rs, nl as int))
            &&& holds_at(b, bplus_tree::page_offset(nl as int), up.0)
        }),
{
    reveal(bplus_tree::offsets_fit);
    lemma_le_lens();
    let rs = bplus_tree::leaf_ranges(es);
    let nl = rs.len();
    let ll = bplus_tree::leaf_level(es, rs);
    let up = bplus_tree::upper_levels(ll, nl, nl);
    let b = bplus_tree::index_file(es);
    bplus_tree::lemma_leaf_ranges(es, 0, 0, PAGE_HEADER_LEN as int);
    assert(es.subrange(0, 0) =~= Seq::<EntryView>::empty());
    assert(bplus_tree::leaf_entries_bytes(Seq::<EntryView>::empty()) =~= Seq::<u8>::empty());
    lemma_leaf_ranges_fit(es, 0, 0, PAGE_HEADER_LEN as int);
    lemma_partitions_within(rs, es.len() as int);
    lemma_leaf_pages(es, rs, nl as int);
    assert(level_ok(ll)) by {
        assert forall|j: int| 0 <= j < ll.len() implies valid_utf8(#[trigger] ll[j].0) && ll[j].0.len() < 0x1_0000 by {
            bplus_tree::lemma_partition_bounds(rs, 0, es.len() as int, j);
            assert(ll[j].0 == es[rs[j].0].0);
            assert(bplus_tree::leaf_entry_size(es[rs[j].0].0) + PAGE_HEADER_LEN <= PAGE_SIZE);
        }
        assert forall|j: int| 0 <= j < ll.len() implies #[trigger] ll[j].0.len() + 2 + 8 + PAGE_HEADER_LEN <= PAGE_SIZE by {
            bplus_tree::lemma_partition_bounds(rs, 0, es.len() as int, j);
            assert(ll[j].0 == es[rs[j].0].0);
            assert(bplus_tree::leaf_entry_size(es[rs[j].0].0) + PAGE_HEADER_LEN <= PAGE_SIZE);
        }
    }
    lemma_upper_shape(ll, nl, nl);
    let h = bplus_tree::index_header_bytes(up.2, up.1 as u64, es.len() as u64);
    let leaves = bplus_tree::leaf_pages_bytes(es, rs, nl as int);
    assert(h.len() == INDEX_HEADER_LEN);
    assert(b == h + leaves + up.0);
    assert(b.subrange(0, b.len() as int) =~= b);
    lemma_holds_split(b, 0, h + leaves, up.0);
    lemma_holds_split(b, 0, h, leaves);
}

/// An index file written for strictly sorted entries with fitting UTF-8
/// keys answers every key with the pointer written for it, and a key that
/// was not written with nothing.
#[verifier::spinoff_prover]
#[verifier::rlimit(100)]
pub(crate) proof fn lemma_index_file_get(es: Seq<EntryView>, key: Seq<u8>)
    requires
        bplus_tree::strictly_sorted(es),
        bplus_tree::keys_fit(es),
        keys_utf8(es),
        bplus_tree::offsets_fit(es),
    ensures
        bplus_tree::spec_index_header(bplus_tree::index_file(es)) matches Ok(h) && bplus_tree::tree_get(
            bplus_tree::index_file(es),
            h,
            key,
        ) == Ok::<Option<DataPointer>, bplus_tree::IndexError>(first_match(es, key)),
{
    let b = bplus_tree::index_file(es);
    let rs = bplus_tree::leaf_ranges(es);
    let nl = rs.len();
    let ll = bplus_tree::leaf_level(es, rs);
    let up = bplus_tree::upper_levels(ll, nl, nl);
    if es.len() == 0 {
        lemma_le_lens();
        bplus_tree::lemma_leaf_ranges(es, 0, 0, PAGE_HEADER_LEN as int);
        assert(ll.len() == 0);
        let h = bplus_tree::index_header_bytes(up.2, up.1 as u64, 0u64);
        assert(b == h + bplus_tree::leaf_pages_bytes(es, rs, 0) + up.0);
        assert(b.subrange(0, h.len() as int) =~= h);
        lemma_header_parse(b, up.2, up.1 as u64, 0u64);
    } else {
        lemma_file_layout(es);
        lemma_written_header(es);
        let header = IndexHeader {
            version: FORMAT_VERSION,
            page_size: DEFAULT_PAGE_SIZE,
            root_page_offset: up.2,
            page_count: up.1 as u64,
            key_count: es.len() as u64,
        };
        assert(es.len() as u64 != 0);
        let j = lemma_root_to_leaf(es, key);
        lemma_leaf_page_in_file(es, j);
        let sub = es.subrange(rs[j].0, rs[j].1);
        let off = bplus_tree::page_offset(j);
        lemma_leaf_page(sub, next_leaf(j, nl as int), key);
        assert(off as u64 as int == off);
        lemma_leaf_find(es, rs, j, key);
        assert(bplus_tree::tree_get(b, header, key) == Ok::<Option<DataPointer>, bplus_tree::IndexError>(first_match(es, key)));
    }
}

/// The keys the writer is given as strings are UTF-8.
pub(crate) proof fn lemma_entry_keys_utf8(entries: Seq<IndexEntry>)
    ensures
        keys_utf8(bplus_tree::entries_view(entries)),
{
    let ev = bplus_tree::entries_view(entries);
    assert forall|k: int| 0 <= k < ev.len() implies valid_utf8(#[trigger] ev[k].0) by {
        vstd::utf8::encode_utf8_valid_utf8(entries[k].key@);
    }
}

/// Law: an index file that the writer produced from `entries` answers every
/// key with the pointer written for it, and a key it was not given with
/// nothing.
pub proof fn law_written_index_answers(entries: Seq<IndexEntry>, bytes: Seq<u8>, key: Seq<u8>)
    requires
        bplus_tree::spec_write_index(bplus_tree::entries_view(entries)) == Ok::<Seq<u8>, bplus_tree::IndexError>(bytes),
    ensures
        bplus_tree::spec_index_header(bytes) matches Ok(h) && bplus_tree::tree_get(bytes, h, key)
            == Ok::<Option<DataPointer>, bplus_tree::IndexError>(first_match(bplus_tree::entries_view(entries), key)),
{
    lemma_entry_keys_utf8(entries);
    lemma_index_file_get(bplus_tree::entries_view(entries), key);
}

/// Leaf page `j` of the written file: where it lies and what it holds.
#[verifier::spinoff_prover]
pub(crate) proof fn lemma_leaf_page_in_file(es: Seq<EntryView>, j: int)
    requires
        bplus_tree::keys_fit(es),
        keys_utf8(es),
        0 < es.len(),
        bplus_tree::offsets_fit(es),
        0 <= j < bplus_tree::leaf_ranges(es).len(),
    ensures
        ({
            let rs = bplus_tree::leaf_ranges(es);
            let sub = es.subrange(rs[j].0, rs[j].1);
            let off = bplus_tree::page_offset(j);
            &&& 0 <= rs[j].0 < rs[j].1 <= es.len()
            &&& off as u64 as int == off
            &&& bplus_tree::page_in(bplus_tree::index_file(es), off)
            &&& bplus_tree::page_at(bplus_tree::index_file(es), off) == bplus_tree::leaf_page_bytes(sub, next_leaf(j, rs.len() as int))
            &&& keys_readable(sub)
            &&& PAGE_HEADER_LEN + bplus_tree::leaf_entries_bytes(sub).len() <= PAGE_SIZE
            &&& sub.len() < 0x1_0000_0000
            &&& next_leaf(j, rs.len() as int) == (if j + 1 < rs.len() { off + PAGE_SIZE } else { 0 })
        }),
{
    let b = bplus_tree::index_file(es);
    let rs = bplus_tree::leaf_ranges(es);
    let nl = rs.len();
    lemma_file_layout(es);
    let ll = bplus_tree::leaf_level(es, rs);
    let up = bplus_tree::upper_levels(ll, nl, nl);
    bplus_tree::lemma_partition_bounds(rs, 0, es.len() as int, j);
    let sub = es.subrange(rs[j].0, rs[j].1);
    let leaves = bplus_tree::leaf_pages_bytes(es, rs, nl as int);
    lemma_partitions_within(rs, es.len() as int);
    lemma_leaf_pages(es, rs, nl as int);
    let page = bplus_tree::leaf_page_bytes(sub, next_leaf(j, nl as int));
    assert(holds_at(leaves, j * PAGE_SIZE, page));
    lemma_holds_inner(b, INDEX_HEADER_LEN as int, leaves, j * PAGE_SIZE, page);
    assert(keys_readable(sub)) by {
        assert forall|t: int| 0 <= t < sub.len() implies valid_utf8(#[trigger] sub[t].0) && sub[t].0.len() < 0x1_0000 by {
            assert(sub[t] == es[rs[j].0 + t]);
            assert(bplus_tree::leaf_entry_size(es[rs[j].0 + t].0) + PAGE_HEADER_LEN <= PAGE_SIZE);
        }
    }
    lemma_le_lens();
    assert(PAGE_HEADER_LEN + bplus_tree::leaf_entries_bytes(es.subrange(rs[j].0, rs[j].1)).len() <= PAGE_SIZE);
    lemma_leaf_entries_len(sub);
    lemma_pad(leaf_content(sub, next_leaf(j, nl as int)));
    let off = bplus_tree::page_offset(j);
    assert(off as u64 as int == off);
    assert(bplus_tree::page_offset(j + 1) <= bplus_tree::page_offset(up.1 as int));
    assert(bplus_tree::page_at(b, off) == page);
}

/// The descent stops at a leaf page of the written file.
pub(crate) proof fn lemma_leaf_at_page(es: Seq<EntryView>, j: int, key: Seq<u8>, g: nat)
    requires
        bplus_tree::keys_fit(es),
        keys_utf8(es),
        0 < es.len(),
        bplus_tree::offsets_fit(es),
        0 <= j < bplus_tree::leaf_ranges(es).len(),
        g >= 1,
    ensures
        bplus_tree::find_leaf(bplus_tree::index_file(es), bplus_tree::page_offset(j) as u64, key, g) == Ok::<
            u64,
            bplus_tree::IndexError,
        >(bplus_tree::page_offset(j) as u64),
{
    let rs = bplus_tree::leaf_ranges(es);
    lemma_leaf_page_in_file(es, j);
    let sub = es.subrange(rs[j].0, rs[j].1);
    lemma_leaf_page(sub, next_leaf(j, rs.len() as int), key);
}

/// The header of the written file.
pub(crate) proof fn lemma_written_header(es: Seq<EntryView>)
    ensures
        ({
            let rs = bplus_tree::leaf_ranges(es);
            let up = bplus_tree::upper_levels(bplus_tree::leaf_level(es, rs), rs.len(), rs.len());
            bplus_tree::spec_index_header(bplus_tree::index_file(es)) == Ok::<IndexHeader, bplus_tree::IndexError>(
                IndexHeader {
                    version: FORMAT_VERSION,
                    page_size: DEFAULT_PAGE_SIZE,
                    root_page_offset: up.2,
                    page_count: up.1 as u64,
                    key_count: es.len() as u64,
                },
            )
        }),
{
    lemma_le_lens();
    let b = bplus_tree::index_file(es);
    let rs = bplus_tree::leaf_ranges(es);
    let up = bplus_tree::upper_levels(bplus_tree::leaf_level(es, rs), rs.len(), rs.len());
    let h = bplus_tree::index_header_bytes(up.2, up.1 as u64, es.len() as u64);
    assert(b == h + bplus_tree::leaf_pages_bytes(es, rs, rs.len() as int) + up.0);
    assert(b.subrange(0, h.len() as int) =~= h);
    lemma_header_parse(b, up.2, up.1 as u64, es.len() as u64);
}

/// The descent from the root of the written file for `key` ends at the
/// leaf page the key belongs to.
#[verifier::spinoff_prover]
#[verifier::rlimit(40)]
pub(crate) proof fn lemma_root_to_leaf(es: Seq<EntryView>, key: Seq<u8>) -> (j: int)
    requires
        bplus_tree::keys_fit(es),
        keys_utf8(es),
        0 < es.len(),
        bplus_tree::offsets_fit(es),
    ensures
        0 <= j < bplus_tree::leaf_ranges(es).len(),
        covers(bplus_tree::leaf_level(es, bplus_tree::leaf_ranges(es)), key, j),
        bplus_tree::leaf_ranges(es).len() <= bplus_tree::walk_fuel(bplus_tree::index_file(es)),
        ({
            let rs = bplus_tree::leaf_ranges(es);
            let b = bplus_tree::index_file(es);
            let up = bplus_tree::upper_levels(bplus_tree::leaf_level(es, rs), rs.len(), rs.len());
            bplus_tree::find_leaf(b, up.2, key, bplus_tree::walk_fuel(b)) == Ok::<u64, bplus_tree::IndexError>(
                bplus_tree::page_offset(j) as u64,
            )
        }),
{
    let b = bplus_tree::index_file(es);
    let rs = bplus_tree::leaf_ranges(es);
    let nl = rs.len();
    let ll = bplus_tree::leaf_level(es, rs);
    let up = bplus_tree::upper_levels(ll, nl, nl);
    lemma_file_layout(es);
    let fuel = bplus_tree::walk_fuel(b);
    assert(b.len() / (PAGE_SIZE as nat) == up.1) by (nonlinear_arith)
        requires
            b.len() == INDEX_HEADER_LEN + up.1 * PAGE_SIZE,
    ;
    let (j, d) = lemma_descend(b, ll, nl, nl, key, fuel);
    assert(ll[j].1 == bplus_tree::page_offset(j) as u64);
    lemma_leaf_at_page(es, j, key, (fuel - d) as nat);
    j
}

} // verus!
