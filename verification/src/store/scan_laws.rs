//! What a prefix scan of an index file written by the builder returns: the
//! pointers of exactly the keys that start with the prefix, in key order.
use vstd::prelude::*;

use crate::store::bplus_tree;
use crate::store::bplus_tree::{EntryView, ScanStep};
use crate::store::formats;
use crate::store::formats::{DataPointer, IndexEntry};
use crate::store::index_laws;
use crate::store::index_laws::holds_at;
use crate::store::bplus_tree::{PAGE_HEADER_LEN, PAGE_KIND_LEAF, PAGE_SIZE};
use crate::store::formats::{IndexHeader, DEFAULT_PAGE_SIZE, FORMAT_VERSION, INDEX_HEADER_LEN};
use vstd::bytes::*;
use vstd::utf8::valid_utf8;

verus! {

// ---------------------------------------------------------------------------
// Prefixes in key order
// ---------------------------------------------------------------------------

proof fn lemma_starts_with_cons(s: Seq<u8>, pre: Seq<u8>)
    requires
        pre.len() > 0,
    ensures
        formats::bytes_starts_with(s, pre) <==> (s.len() > 0 && s[0] == pre[0] && formats::bytes_starts_with(
            s.drop_first(),
            pre.drop_first(),
        )),
{
    if s.len() > 0 && pre.len() <= s.len() {
        if s.subrange(0, pre.len() as int) == pre {
            assert(s.drop_first().subrange(0, pre.len() - 1) =~= pre.drop_first());
            assert(s[0] == s.subrange(0, pre.len() as int)[0]);
        }
        if s[0] == pre[0] && s.drop_first().subrange(0, pre.len() - 1) == pre.drop_first() {
            assert forall|i: int| 0 <= i < pre.len() implies #[trigger] s.subrange(0, pre.len() as int)[i] == pre[i] by {
                if i > 0 {
                    assert(s.drop_first().subrange(0, pre.len() - 1)[i - 1] == pre.drop_first()[i - 1]);
                }
            }
            assert(s.subrange(0, pre.len() as int) =~= pre);
        }
    }
}

/// A key that starts with the prefix does not sort before it.
proof fn lemma_prefixed_not_below(k: Seq<u8>, pre: Seq<u8>)
    requires
        formats::bytes_starts_with(k, pre),
    ensures
        !formats::bytes_lt(k, pre),
    decreases pre.len(),
{
    if pre.len() > 0 {
        lemma_starts_with_cons(k, pre);
        lemma_prefixed_not_below(k.drop_first(), pre.drop_first());
    }
}

/// A key above the prefix that does not start with it is above every key
/// that does.
proof fn lemma_above_prefix_block(k: Seq<u8>, pre: Seq<u8>, k2: Seq<u8>)
    requires
        !formats::bytes_starts_with(k, pre),
        formats::bytes_lt(pre, k),
        formats::bytes_starts_with(k2, pre),
    ensures
        formats::bytes_lt(k2, k),
    decreases pre.len(),
{
    if pre.len() == 0 {
        assert(k.subrange(0, 0) =~= pre);
    } else {
        lemma_starts_with_cons(k, pre);
        lemma_starts_with_cons(k2, pre);
        if pre[0] == k[0] {
            lemma_above_prefix_block(k.drop_first(), pre.drop_first(), k2.drop_first());
        }
    }
}

/// A key below the prefix that does not start with it is below every key
/// that does.
proof fn lemma_below_prefix_block(k: Seq<u8>, pre: Seq<u8>, k2: Seq<u8>)
    requires
        !formats::bytes_starts_with(k, pre),
        formats::bytes_lt(k, pre),
        formats::bytes_starts_with(k2, pre),
    ensures
        formats::bytes_lt(k, k2),
    decreases pre.len(),
{
    if pre.len() == 0 {
        assert(k.subrange(0, 0) =~= pre);
    } else {
        lemma_starts_with_cons(k, pre);
        lemma_starts_with_cons(k2, pre);
        if k.len() > 0 && pre[0] == k[0] {
            lemma_below_prefix_block(k.drop_first(), pre.drop_first(), k2.drop_first());
        }
    }
}

/// A key after a prefixed key that does not start with the prefix sorts
/// after the prefix.
proof fn lemma_past_prefix(k0: Seq<u8>, pre: Seq<u8>, k: Seq<u8>)
    requires
        formats::bytes_starts_with(k0, pre),
        formats::bytes_lt(k0, k),
        !formats::bytes_starts_with(k, pre),
    ensures
        formats::bytes_lt(pre, k),
    decreases pre.len(),
{
    if pre.len() == 0 {
        assert(k.subrange(0, 0) =~= pre);
    } else {
        lemma_starts_with_cons(k0, pre);
        lemma_starts_with_cons(k, pre);
        if k0[0] == k[0] {
            lemma_past_prefix(k0.drop_first(), pre.drop_first(), k.drop_first());
        }
    }
}

// ---------------------------------------------------------------------------
// The scan over entries as values
// ---------------------------------------------------------------------------

/// The pointers of the entries whose keys start with `pre`, in order.
pub open spec fn prefix_ptrs(s: Seq<EntryView>, pre: Seq<u8>) -> Seq<DataPointer>
    decreases s.len(),
{
    if s.len() == 0 {
        Seq::empty()
    } else if formats::bytes_starts_with(s[0].0, pre) {
        seq![s[0].1] + prefix_ptrs(s.drop_first(), pre)
    } else {
        prefix_ptrs(s.drop_first(), pre)
    }
}

/// The scan of one leaf's entries, on values.
pub open spec fn scan_values(s: Seq<EntryView>, pre: Seq<u8>, seen: bool, acc: Seq<DataPointer>) -> ScanStep
    decreases s.len(),
{
    if s.len() == 0 {
        ScanStep::Continue(acc, seen)
    } else if formats::bytes_starts_with(s[0].0, pre) {
        scan_values(s.drop_first(), pre, true, acc.push(s[0].1))
    } else if seen || formats::bytes_lt(pre, s[0].0) {
        ScanStep::Stop(acc)
    } else {
        scan_values(s.drop_first(), pre, seen, acc)
    }
}

/// The scan going on with `rest` after a step.
pub open spec fn scan_then(step: ScanStep, rest: Seq<EntryView>, pre: Seq<u8>) -> ScanStep {
    match step {
        ScanStep::Continue(a, seen) => scan_values(rest, pre, seen, a),
        _ => step,
    }
}

/// What a finished scan collected.
pub open spec fn scan_collected(step: ScanStep) -> Option<Seq<DataPointer>> {
    match step {
        ScanStep::Fail(_) => None,
        ScanStep::Stop(a) => Some(a),
        ScanStep::Continue(a, _) => Some(a),
    }
}

proof fn lemma_prefix_ptrs_concat(s1: Seq<EntryView>, s2: Seq<EntryView>, pre: Seq<u8>)
    ensures
        prefix_ptrs(s1 + s2, pre) == prefix_ptrs(s1, pre) + prefix_ptrs(s2, pre),
    decreases s1.len(),
{
    if s1.len() == 0 {
        assert(s1 + s2 =~= s2);
        assert(prefix_ptrs(s1, pre) + prefix_ptrs(s2, pre) =~= prefix_ptrs(s2, pre));
    } else {
        assert((s1 + s2).drop_first() =~= s1.drop_first() + s2);
        assert((s1 + s2)[0] == s1[0]);
        lemma_prefix_ptrs_concat(s1.drop_first(), s2, pre);
        if formats::bytes_starts_with(s1[0].0, pre) {
            assert(seq![s1[0].1] + (prefix_ptrs(s1.drop_first(), pre) + prefix_ptrs(s2, pre)) =~= (seq![s1[0].1]
                + prefix_ptrs(s1.drop_first(), pre)) + prefix_ptrs(s2, pre));
        }
    }
}

/// Scanning two runs of entries one after the other is scanning them joined.
proof fn lemma_scan_concat(s1: Seq<EntryView>, s2: Seq<EntryView>, pre: Seq<u8>, seen: bool, acc: Seq<DataPointer>)
    ensures
        scan_values(s1 + s2, pre, seen, acc) == scan_then(scan_values(s1, pre, seen, acc), s2, pre),
    decreases s1.len(),
{
    if s1.len() == 0 {
        assert(s1 + s2 =~= s2);
    } else {
        assert((s1 + s2).drop_first() =~= s1.drop_first() + s2);
        assert((s1 + s2)[0] == s1[0]);
        if formats::bytes_starts_with(s1[0].0, pre) {
            lemma_scan_concat(s1.drop_first(), s2, pre, true, acc.push(s1[0].1));
        } else if seen || formats::bytes_lt(pre, s1[0].0) {
        } else {
            lemma_scan_concat(s1.drop_first(), s2, pre, seen, acc);
        }
    }
}

/// Keys strictly increase from any entry to any later one.
pub open spec fn sorted_pairwise(s: Seq<EntryView>) -> bool {
    forall|i: int, j: int| 0 <= i < j < s.len() ==> formats::bytes_lt(#[trigger] s[i].0, #[trigger] s[j].0)
}

proof fn lemma_no_prefixed(s: Seq<EntryView>, pre: Seq<u8>)
    requires
        forall|u: int| 0 <= u < s.len() ==> !formats::bytes_starts_with(#[trigger] s[u].0, pre),
    ensures
        prefix_ptrs(s, pre) == Seq::<DataPointer>::empty(),
    decreases s.len(),
{
    if s.len() > 0 {
        let rest = s.drop_first();
        assert(!formats::bytes_starts_with(s[0].0, pre));
        assert forall|u: int| 0 <= u < rest.len() implies !formats::bytes_starts_with(#[trigger] rest[u].0, pre) by {
            assert(rest[u] == s[u + 1]);
        }
        lemma_no_prefixed(rest, pre);
    }
}

/// On sorted entries the scan collects exactly the prefixed keys: it skips
/// the keys below the prefix, takes the block of prefixed keys, and stops
/// at the first key past it. `k0` is the last prefixed key taken, if any.
proof fn lemma_scan_sorted(s: Seq<EntryView>, pre: Seq<u8>, seen: bool, acc: Seq<DataPointer>, k0: Seq<u8>)
    requires
        sorted_pairwise(s),
        seen ==> formats::bytes_starts_with(k0, pre) && forall|u: int| 0 <= u < s.len() ==> formats::bytes_lt(k0, #[trigger] s[u].0),
    ensures
        scan_collected(scan_values(s, pre, seen, acc)) == Some(acc + prefix_ptrs(s, pre)),
    decreases s.len(),
{
    if s.len() == 0 {
        assert(acc + Seq::<DataPointer>::empty() =~= acc);
    } else {
        let rest = s.drop_first();
        let k = s[0].0;
        assert(sorted_pairwise(rest)) by {
            assert forall|i: int, j: int| 0 <= i < j < rest.len() implies formats::bytes_lt(#[trigger] rest[i].0, #[trigger] rest[j].0) by {
                assert(rest[i] == s[i + 1] && rest[j] == s[j + 1]);
            }
        }
        assert forall|u: int| 0 <= u < rest.len() implies formats::bytes_lt(k, #[trigger] rest[u].0) by {
            assert(rest[u] == s[u + 1]);
        }
        if formats::bytes_starts_with(k, pre) {
            lemma_scan_sorted(rest, pre, true, acc.push(s[0].1), k);
            assert(acc.push(s[0].1) + prefix_ptrs(rest, pre) =~= acc + (seq![s[0].1] + prefix_ptrs(rest, pre)));
        } else if seen || formats::bytes_lt(pre, k) {
            if seen {
                lemma_past_prefix(k0, pre, k);
            }
            assert forall|u: int| 0 <= u < rest.len() implies !formats::bytes_starts_with(#[trigger] rest[u].0, pre) by {
                if formats::bytes_starts_with(rest[u].0, pre) {
                    lemma_above_prefix_block(k, pre, rest[u].0);
                    formats::lemma_bytes_lt_asym(k, rest[u].0);
                }
            }
            lemma_no_prefixed(rest, pre);
            assert(acc + Seq::<DataPointer>::empty() =~= acc);
        } else {
            lemma_scan_sorted(rest, pre, seen, acc, k0);
        }
    }
}

// ---------------------------------------------------------------------------
// The scan over the written bytes
// ---------------------------------------------------------------------------

/// Reading `s.len()` leaf entries that lie at `o` scans them as values.
proof fn lemma_scan_entries(p: Seq<u8>, o: int, s: Seq<EntryView>, pre: Seq<u8>, seen: bool, acc: Seq<DataPointer>)
    requires
        holds_at(p, o, bplus_tree::leaf_entries_bytes(s)),
        index_laws::keys_readable(s),
    ensures
        bplus_tree::scan_entries(p, o, s.len(), pre, seen, acc) == scan_values(s, pre, seen, acc),
    decreases s.len(),
{
    if s.len() > 0 {
        index_laws::lemma_le_lens();
        index_laws::lemma_leaf_entries_cons(s);
        let e = s[0];
        let rest = s.drop_first();
        index_laws::lemma_holds_split(p, o, bplus_tree::leaf_entry_bytes(e), bplus_tree::leaf_entries_bytes(rest));
        let lb = spec_u16_to_le_bytes(e.0.len() as u16);
        let ob = spec_u64_to_le_bytes(e.1.offset);
        let nb = spec_u32_to_le_bytes(e.1.len);
        assert(bplus_tree::leaf_entry_bytes(e) == lb + e.0 + ob + nb);
        index_laws::lemma_holds_split(p, o, lb + e.0 + ob, nb);
        index_laws::lemma_holds_split(p, o, lb + e.0, ob);
        index_laws::lemma_holds_split(p, o, lb, e.0);
        assert(valid_utf8(s[0].0) && s[0].0.len() < 0x1_0000);
        index_laws::lemma_u16_at(p, o, e.0.len() as u16);
        let ks = o + 2;
        let ke = ks + e.0.len();
        index_laws::lemma_u64_at(p, ke, e.1.offset);
        index_laws::lemma_u32_at(p, ke + 8, e.1.len);
        assert(p.subrange(ks, ke) == e.0);
        assert(bplus_tree::leaf_entry(p, o) == Ok::<(int, int, DataPointer, int), bplus_tree::IndexError>(
            (ks, ke, DataPointer { offset: e.1.offset, len: e.1.len }, ke + 12),
        ));
        assert(index_laws::keys_readable(rest)) by {
            assert forall|k: int| 0 <= k < rest.len() implies valid_utf8(#[trigger] rest[k].0) && rest[k].0.len() < 0x1_0000 by {
                assert(rest[k] == s[k + 1]);
            }
        }
        if formats::bytes_starts_with(e.0, pre) {
            lemma_scan_entries(p, ke + 12, rest, pre, true, acc.push(e.1));
        } else if seen || formats::bytes_lt(pre, e.0) {
        } else {
            lemma_scan_entries(p, ke + 12, rest, pre, seen, acc);
        }
    }
}

/// A leaf page over `s` linked to `next` scans as the values of `s`.
proof fn lemma_leaf_page_scan(s: Seq<EntryView>, next: u64, pre: Seq<u8>, seen: bool, acc: Seq<DataPointer>)
    requires
        PAGE_HEADER_LEN + bplus_tree::leaf_entries_bytes(s).len() <= PAGE_SIZE,
        index_laws::keys_readable(s),
    ensures
        bplus_tree::leaf_page_bytes(s, next).len() == PAGE_SIZE,
        bplus_tree::page_extra(bplus_tree::leaf_page_bytes(s, next)) == next,
        ({
            let p = bplus_tree::leaf_page_bytes(s, next);
            bplus_tree::scan_entries(p, PAGE_HEADER_LEN as int, bplus_tree::page_count(p), pre, seen, acc) == scan_values(
                s,
                pre,
                seen,
                acc,
            )
        }),
{
    index_laws::lemma_le_lens();
    index_laws::lemma_leaf_entries_len(s);
    let h = bplus_tree::page_header_bytes(PAGE_KIND_LEAF, s.len() as u32, next);
    let c = index_laws::leaf_content(s, next);
    assert(h.len() == PAGE_HEADER_LEN);
    index_laws::lemma_pad(c);
    let p = bplus_tree::pad_page(c);
    assert(p == bplus_tree::leaf_page_bytes(s, next));
    index_laws::lemma_holds_split(p, 0, h, bplus_tree::leaf_entries_bytes(s));
    index_laws::lemma_page_header(p, PAGE_KIND_LEAF, s.len() as u32, next);
    lemma_scan_entries(p, PAGE_HEADER_LEN as int, s, pre, seen, acc);
}

/// What a walk over leaves answers for a scan of their entries.
pub open spec fn scan_answer(step: ScanStep) -> Result<Seq<DataPointer>, bplus_tree::IndexError> {
    match step {
        ScanStep::Fail(e) => Err(e),
        ScanStep::Stop(a) => Ok(a),
        ScanStep::Continue(a, _) => Ok(a),
    }
}

/// Walking the leaves from leaf `j` along their links scans every entry
/// from that leaf on.
#[verifier::spinoff_prover]
proof fn lemma_scan_leaves(es: Seq<EntryView>, j: int, pre: Seq<u8>, seen: bool, acc: Seq<DataPointer>, f: nat)
    requires
        bplus_tree::keys_fit(es),
        index_laws::keys_utf8(es),
        0 < es.len(),
        bplus_tree::offsets_fit(es),
        0 <= j < bplus_tree::leaf_ranges(es).len(),
        f >= bplus_tree::leaf_ranges(es).len() - j,
    ensures
        bplus_tree::scan_leaves(bplus_tree::index_file(es), bplus_tree::page_offset(j) as u64, pre, seen, acc, f) == scan_answer(
            scan_values(es.subrange(bplus_tree::leaf_ranges(es)[j].0, es.len() as int), pre, seen, acc),
        ),
    decreases bplus_tree::leaf_ranges(es).len() - j,
{
    let rs = bplus_tree::leaf_ranges(es);
    let nl = rs.len();
    index_laws::lemma_leaf_page_in_file(es, j);
    bplus_tree::lemma_leaf_ranges(es, 0, 0, PAGE_HEADER_LEN as int);
    let a = rs[j].0;
    let e = rs[j].1;
    let sub = es.subrange(a, e);
    let next = index_laws::next_leaf(j, nl as int);
    lemma_leaf_page_scan(sub, next, pre, seen, acc);
    let step = scan_values(sub, pre, seen, acc);
    let suffix = es.subrange(a, es.len() as int);
    if j + 1 == nl {
        assert(e == es.len()) by {
            assert(rs.last().1 == es.len());
        }
        assert(suffix == sub);
    } else {
        assert(rs[j].1 == rs[j + 1].0);
        let rest = es.subrange(e, es.len() as int);
        assert(suffix =~= sub + rest);
        lemma_scan_concat(sub, rest, pre, seen, acc);
        match step {
            ScanStep::Continue(a2, s2) => {
                lemma_scan_leaves(es, j + 1, pre, s2, a2, (f - 1) as nat);
                assert(bplus_tree::page_offset(j + 1) as u64 == next);
            },
            _ => {},
        }
    }
}

/// Entries before the leaf a prefix belongs to hold no key with the prefix.
proof fn lemma_nothing_before_leaf(es: Seq<EntryView>, rs: Seq<(int, int)>, j: int, pre: Seq<u8>)
    requires
        sorted_pairwise(es),
        es.len() > 0,
        bplus_tree::partitions(rs, 0, es.len() as int),
        index_laws::covers(bplus_tree::leaf_level(es, rs), pre, j),
    ensures
        prefix_ptrs(es.subrange(0, rs[j].0), pre) == Seq::<DataPointer>::empty(),
{
    let a = rs[j].0;
    bplus_tree::lemma_partition_bounds(rs, 0, es.len() as int, j);
    let head = es.subrange(0, a);
    if j > 0 {
        assert(bplus_tree::leaf_level(es, rs)[j].0 == es[a].0);
        assert forall|u: int| 0 <= u < head.len() implies !formats::bytes_starts_with(#[trigger] head[u].0, pre) by {
            assert(head[u] == es[u]);
            if formats::bytes_starts_with(es[u].0, pre) {
                lemma_prefixed_not_below(es[u].0, pre);
                formats::lemma_bytes_lt_total(es[a].0, pre);
                if es[a].0 != pre {
                    index_laws::lemma_lt_transitive(es[u].0, es[a].0, pre);
                }
            }
        }
    } else {
        assert(rs[0].0 == 0);
    }
    lemma_no_prefixed(head, pre);
}

proof fn lemma_sorted_pairwise_all(es: Seq<EntryView>)
    requires
        bplus_tree::strictly_sorted(es),
    ensures
        sorted_pairwise(es),
{
    assert forall|i: int, k: int| 0 <= i < k < es.len() implies formats::bytes_lt(#[trigger] es[i].0, #[trigger] es[k].0) by {
        index_laws::lemma_sorted_pairwise(es, i, k);
    }
}

proof fn lemma_sorted_suffix(es: Seq<EntryView>, a: int)
    requires
        sorted_pairwise(es),
        0 <= a <= es.len(),
    ensures
        sorted_pairwise(es.subrange(a, es.len() as int)),
{
    let suffix = es.subrange(a, es.len() as int);
    assert forall|i: int, k: int| 0 <= i < k < suffix.len() implies formats::bytes_lt(#[trigger] suffix[i].0, #[trigger] suffix[k].0) by {
        assert(suffix[i] == es[a + i] && suffix[k] == es[a + k]);
    }
}

/// The scan of a written file with entries, from its root.
#[verifier::spinoff_prover]
#[verifier::rlimit(60)]
proof fn lemma_scan_from_root(es: Seq<EntryView>, pre: Seq<u8>)
    requires
        bplus_tree::strictly_sorted(es),
        bplus_tree::keys_fit(es),
        index_laws::keys_utf8(es),
        0 < es.len(),
        bplus_tree::offsets_fit(es),
    ensures
        ({
            let b = bplus_tree::index_file(es);
            let rs = bplus_tree::leaf_ranges(es);
            let up = bplus_tree::upper_levels(bplus_tree::leaf_level(es, rs), rs.len(), rs.len());
            bplus_tree::find_leaf(b, up.2, pre, bplus_tree::walk_fuel(b)) matches Ok(leaf)
                && bplus_tree::scan_leaves(b, leaf, pre, false, Seq::empty(), bplus_tree::walk_fuel(b))
                == Ok::<Seq<DataPointer>, bplus_tree::IndexError>(prefix_ptrs(es, pre))
        }),
{
    let rs = bplus_tree::leaf_ranges(es);
    let j = index_laws::lemma_root_to_leaf(es, pre);
    bplus_tree::lemma_leaf_ranges(es, 0, 0, PAGE_HEADER_LEN as int);
    bplus_tree::lemma_partition_bounds(rs, 0, es.len() as int, j);
    lemma_sorted_pairwise_all(es);
    let a = rs[j].0;
    let suffix = es.subrange(a, es.len() as int);
    lemma_sorted_suffix(es, a);
    lemma_scan_leaves(es, j, pre, false, Seq::empty(), bplus_tree::walk_fuel(bplus_tree::index_file(es)));
    lemma_scan_sorted(suffix, pre, false, Seq::empty(), Seq::empty());
    assert(Seq::<DataPointer>::empty() + prefix_ptrs(suffix, pre) =~= prefix_ptrs(suffix, pre));
    lemma_nothing_before_leaf(es, rs, j, pre);
    assert(es =~= es.subrange(0, a) + suffix);
    lemma_prefix_ptrs_concat(es.subrange(0, a), suffix, pre);
}

/// An index file written for strictly sorted entries with fitting UTF-8
/// keys answers a prefix scan with the pointers of exactly the keys that
/// start with the prefix, in key order.
pub(crate) proof fn lemma_index_file_scan(es: Seq<EntryView>, pre: Seq<u8>)
    requires
        bplus_tree::strictly_sorted(es),
        bplus_tree::keys_fit(es),
        index_laws::keys_utf8(es),
        bplus_tree::offsets_fit(es),
    ensures
        bplus_tree::spec_index_header(bplus_tree::index_file(es)) matches Ok(h) && bplus_tree::tree_scan_prefix(
            bplus_tree::index_file(es),
            h,
            pre,
        ) == Ok::<Seq<DataPointer>, bplus_tree::IndexError>(prefix_ptrs(es, pre)),
{
    reveal(bplus_tree::offsets_fit);
    index_laws::lemma_written_header(es);
    if es.len() > 0 {
        lemma_scan_from_root(es, pre);
    }
}

/// Law: an index file that the writer produced from `entries` answers a
/// prefix scan with the pointers of exactly the entries whose keys start
/// with the prefix, in key order.
pub proof fn law_written_index_scans(entries: Seq<IndexEntry>, bytes: Seq<u8>, pre: Seq<u8>)
    requires
        bplus_tree::spec_write_index(bplus_tree::entries_view(entries)) == Ok::<Seq<u8>, bplus_tree::IndexError>(bytes),
    ensures
        bplus_tree::spec_index_header(bytes) matches Ok(h) && bplus_tree::tree_scan_prefix(bytes, h, pre) == Ok::<
            Seq<DataPointer>,
            bplus_tree::IndexError,
        >(prefix_ptrs(bplus_tree::entries_view(entries), pre)),
{
    index_laws::lemma_entry_keys_utf8(entries);
    lemma_index_file_scan(bplus_tree::entries_view(entries), pre);
}

} // verus!
