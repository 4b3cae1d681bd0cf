//! A read-only, page-based B+ tree over string keys, and the writer that
//! lays one out.
//!
//! Index file layout (all integers little-endian):
//! - header (36 bytes): magic `C4I1`, version `u32`, page size `u32`,
//!   root page offset `u64`, page count `u64`, key count `u64`;
//! - pages of 4096 bytes each. A page starts with a 16-byte header: kind
//!   (`1` leaf, `2` internal) at byte 0, entry count `u32` at byte 4, and a
//!   `u64` at byte 8 that is the next leaf's offset (leaf, `0` for the last)
//!   or the first child's offset (internal). Leaf entries follow as
//!   `u16` key length, key bytes, `u64` record offset, `u32` record length;
//!   internal entries as `u16` key length, separator key bytes, `u64` child
//!   offset.
use vstd::prelude::*;
use vstd::bytes::*;
use vstd::slice::slice_subrange;
use vstd::utf8::{encode_utf8, valid_utf8};
use vstd::string::StringSliceAdditionalSpecFns;

use super::formats::{eq_bytes, get_u16, get_u32, get_u64, is_utf8, key_bytes, lt_bytes, starts_with_bytes, write_u16, write_u32, write_u64, DataPointer, IndexEntry, IndexHeader, DEFAULT_PAGE_SIZE, FORMAT_VERSION, INDEX_HEADER_LEN, INDEX_MAGIC};

verus! {

pub const PAGE_SIZE: usize = 4096;
pub const PAGE_HEADER_LEN: usize = 16;
pub const PAGE_KIND_LEAF: u8 = 1;
pub const PAGE_KIND_INTERNAL: u8 = 2;

/// Why an index file could not be read or written.
#[derive(Debug, Clone, Copy, PartialEq, Eq, Structural)]
pub enum IndexError {
    /// The file is shorter than its header.
    TooSmall,
    /// The file does not start with `C4I1`.
    BadMagic,
    UnsupportedVersion(u32),
    UnsupportedPageSize(u32),
    /// A page at this offset does not lie inside the file.
    PageOutOfBounds(u64),
    UnsupportedPageKind(u8),
    /// An entry runs past the end of its page.
    EntryOutOfBounds,
    /// A stored key is not UTF-8.
    KeyNotUtf8,
    /// Following child or sibling offsets visited more pages than the file holds.
    TooDeep,
    /// Entries handed to the writer are not strictly sorted and unique.
    UnsortedEntries,
    /// A key does not fit in one page.
    KeyTooLarge,
    /// The file would reach past the largest offset that the format's `u64`
    /// page offsets and page count can address.
    FileTooLarge,
}

// ---------------------------------------------------------------------------
// Reading: the meaning of the bytes
// ---------------------------------------------------------------------------

/// The header of an index file, or why it is refused.
pub open spec fn spec_index_header(b: Seq<u8>) -> Result<IndexHeader, IndexError> {
    if b.len() < INDEX_HEADER_LEN {
        Err(IndexError::TooSmall)
    } else if b.subrange(0, 4) != crate::store::formats::index_magic() {
        Err(IndexError::BadMagic)
    } else if crate::store::formats::u32_at(b, 4) != FORMAT_VERSION {
        Err(IndexError::UnsupportedVersion(crate::store::formats::u32_at(b, 4)))
    } else if crate::store::formats::u32_at(b, 8) != DEFAULT_PAGE_SIZE {
        Err(IndexError::UnsupportedPageSize(crate::store::formats::u32_at(b, 8)))
    } else {
        Ok(
            IndexHeader {
                version: crate::store::formats::u32_at(b, 4),
                page_size: crate::store::formats::u32_at(b, 8),
                root_page_offset: crate::store::formats::u64_at(b, 12),
                page_count: crate::store::formats::u64_at(b, 20),
                key_count: crate::store::formats::u64_at(b, 28),
            },
        )
    }
}

/// The page of `b` that starts at `off`.
pub open spec fn page_at(b: Seq<u8>, off: int) -> Seq<u8> {
    b.subrange(off, off + PAGE_SIZE)
}

/// The page at `off` lies inside `b`.
pub open spec fn page_in(b: Seq<u8>, off: int) -> bool {
    0 <= off && off + PAGE_SIZE <= b.len()
}

/// Number of entries a page header announces.
pub open spec fn page_count(p: Seq<u8>) -> nat {
    crate::store::formats::u32_at(p, 4) as nat
}

/// The next-leaf or first-child offset of a page header.
pub open spec fn page_extra(p: Seq<u8>) -> u64 {
    crate::store::formats::u64_at(p, 8)
}

/// The leaf entry at `o`: key start, key end, record pointer and the offset
/// after the entry.
pub open spec fn leaf_entry(p: Seq<u8>, o: int) -> Result<(int, int, DataPointer, int), IndexError> {
    if o + 2 > p.len() {
        Err(IndexError::EntryOutOfBounds)
    } else {
        let ks = o + 2;
        let ke = ks + crate::store::formats::u16_at(p, o);
        if ke + 12 > p.len() {
            Err(IndexError::EntryOutOfBounds)
        } else if !valid_utf8(p.subrange(ks, ke)) {
            Err(IndexError::KeyNotUtf8)
        } else {
            Ok((ks, ke, DataPointer { offset: crate::store::formats::u64_at(p, ke), len: crate::store::formats::u32_at(p, ke + 8) }, ke + 12))
        }
    }
}

/// The internal entry at `o`: separator start, separator end, child offset
/// and the offset after the entry.
pub open spec fn internal_entry(p: Seq<u8>, o: int) -> Result<(int, int, u64, int), IndexError> {
    if o + 2 > p.len() {
        Err(IndexError::EntryOutOfBounds)
    } else {
        let ks = o + 2;
        let ke = ks + crate::store::formats::u16_at(p, o);
        if ke + 8 > p.len() {
            Err(IndexError::EntryOutOfBounds)
        } else if !valid_utf8(p.subrange(ks, ke)) {
            Err(IndexError::KeyNotUtf8)
        } else {
            Ok((ks, ke, crate::store::formats::u64_at(p, ke), ke + 8))
        }
    }
}

/// Looks `key` up among the `n` leaf entries from `o` on: the pointer of the
/// first entry whose key equals it.
pub open spec fn leaf_lookup(p: Seq<u8>, o: int, n: nat, key: Seq<u8>) -> Result<Option<DataPointer>, IndexError>
    decreases n,
{
    if n == 0 {
        Ok(None)
    } else {
        match leaf_entry(p, o) {
            Err(e) => Err(e),
            Ok((ks, ke, ptr, next)) => {
                if p.subrange(ks, ke) == key {
                    Ok(Some(ptr))
                } else {
                    leaf_lookup(p, next, (n - 1) as nat, key)
                }
            },
        }
    }
}

/// The child of an internal page to descend into for `key`, reading the `n`
/// entries from `o` on: the child of the last separator not above `key`, or
/// `selected` when the first is already above it.
pub open spec fn internal_select(p: Seq<u8>, o: int, n: nat, key: Seq<u8>, selected: u64) -> Result<u64, IndexError>
    decreases n,
{
    if n == 0 {
        Ok(selected)
    } else {
        match internal_entry(p, o) {
            Err(e) => Err(e),
            Ok((ks, ke, child, next)) => {
                if crate::store::formats::bytes_lt(key, p.subrange(ks, ke)) {
                    Ok(selected)
                } else {
                    internal_select(p, next, (n - 1) as nat, key, child)
                }
            },
        }
    }
}

/// How many pages a descent or a leaf walk may visit in `b`.
pub open spec fn walk_fuel(b: Seq<u8>) -> nat {
    (b.len() / (PAGE_SIZE as nat) + 1) as nat
}

/// The leaf reached by descending from the page at `off` for `key`.
pub open spec fn find_leaf(b: Seq<u8>, off: u64, key: Seq<u8>, fuel: nat) -> Result<u64, IndexError>
    decreases fuel,
{
    if fuel == 0 {
        Err(IndexError::TooDeep)
    } else if !page_in(b, off as int) {
        Err(IndexError::PageOutOfBounds(off))
    } else {
        let p = page_at(b, off as int);
        if p[0] == PAGE_KIND_LEAF {
            Ok(off)
        } else if p[0] == PAGE_KIND_INTERNAL {
            match internal_select(p, PAGE_HEADER_LEN as int, page_count(p), key, page_extra(p)) {
                Err(e) => Err(e),
                Ok(child) => find_leaf(b, child, key, (fuel - 1) as nat),
            }
        } else {
            Err(IndexError::UnsupportedPageKind(p[0]))
        }
    }
}

/// The record pointer stored for `key`, if any.
pub open spec fn tree_get(b: Seq<u8>, h: IndexHeader, key: Seq<u8>) -> Result<Option<DataPointer>, IndexError> {
    if h.key_count == 0 {
        Ok(None)
    } else {
        match find_leaf(b, h.root_page_offset, key, walk_fuel(b)) {
            Err(e) => Err(e),
            Ok(leaf) => {
                let p = page_at(b, leaf as int);
                leaf_lookup(p, PAGE_HEADER_LEN as int, page_count(p), key)
            },
        }
    }
}

/// Where a walk over the entries of one leaf ended.
pub enum ScanStep {
    Fail(IndexError),
    /// A key past the prefix range was met: the scan is over.
    Stop(Seq<DataPointer>),
    /// The leaf ran out: the scan goes on, with whether a match was seen.
    Continue(Seq<DataPointer>, bool),
}

/// Collects the pointers of the `n` leaf entries from `o` on whose keys start
/// with `prefix`, stopping at the first non-matching key once a match was
/// seen or once a key sorts after `prefix`.
pub open spec fn scan_entries(p: Seq<u8>, o: int, n: nat, prefix: Seq<u8>, seen: bool, acc: Seq<DataPointer>) -> ScanStep
    decreases n,
{
    if n == 0 {
        ScanStep::Continue(acc, seen)
    } else {
        match leaf_entry(p, o) {
            Err(e) => ScanStep::Fail(e),
            Ok((ks, ke, ptr, next)) => {
                let k = p.subrange(ks, ke);
                if crate::store::formats::bytes_starts_with(k, prefix) {
                    scan_entries(p, next, (n - 1) as nat, prefix, true, acc.push(ptr))
                } else if seen || crate::store::formats::bytes_lt(prefix, k) {
                    ScanStep::Stop(acc)
                } else {
                    scan_entries(p, next, (n - 1) as nat, prefix, seen, acc)
                }
            },
        }
    }
}

/// Continues a prefix scan at the leaf at `off`, following next-leaf links.
pub open spec fn scan_leaves(b: Seq<u8>, off: u64, prefix: Seq<u8>, seen: bool, acc: Seq<DataPointer>, fuel: nat) -> Result<Seq<DataPointer>, IndexError>
    decreases fuel,
{
    if fuel == 0 {
        Err(IndexError::TooDeep)
    } else if !page_in(b, off as int) {
        Err(IndexError::PageOutOfBounds(off))
    } else {
        let p = page_at(b, off as int);
        match scan_entries(p, PAGE_HEADER_LEN as int, page_count(p), prefix, seen, acc) {
            ScanStep::Fail(e) => Err(e),
            ScanStep::Stop(a) => Ok(a),
            ScanStep::Continue(a, s) => {
                if page_extra(p) == 0 {
                    Ok(a)
                } else {
                    scan_leaves(b, page_extra(p), prefix, s, a, (fuel - 1) as nat)
                }
            },
        }
    }
}

/// The record pointers of the keys that start with `prefix`, in key order.
pub open spec fn tree_scan_prefix(b: Seq<u8>, h: IndexHeader, prefix: Seq<u8>) -> Result<Seq<DataPointer>, IndexError> {
    if h.key_count == 0 {
        Ok(Seq::empty())
    } else {
        match find_leaf(b, h.root_page_offset, prefix, walk_fuel(b)) {
            Err(e) => Err(e),
            Ok(leaf) => scan_leaves(b, leaf, prefix, false, Seq::empty(), walk_fuel(b)),
        }
    }
}

pub proof fn lemma_find_leaf_in(b: Seq<u8>, off: u64, key: Seq<u8>, fuel: nat)
    ensures
        find_leaf(b, off, key, fuel) matches Ok(l) ==> page_in(b, l as int),
    decreases fuel,
{
    if fuel > 0 && page_in(b, off as int) {
        let p = page_at(b, off as int);
        if p[0] == PAGE_KIND_INTERNAL {
            match internal_select(p, PAGE_HEADER_LEN as int, page_count(p), key, page_extra(p)) {
                Ok(child) => lemma_find_leaf_in(b, child, key, (fuel - 1) as nat),
                Err(_) => {},
            }
        }
    }
}

// ---------------------------------------------------------------------------
// Reading: the executable tree
// ---------------------------------------------------------------------------

/// An index file held in memory, with its checked header.
#[derive(Debug)]
pub struct ReadOnlyBPlusTree {
    bytes: Vec<u8>,
    header: IndexHeader,
}

/// The header of `bytes`, or why the file is refused.
pub fn parse_header(bytes: &[u8]) -> (r: Result<IndexHeader, IndexError>)
    ensures
        r == spec_index_header(bytes@),
{
    if bytes.len() < INDEX_HEADER_LEN {
        return Err(IndexError::TooSmall);
    }
    if bytes[0] != INDEX_MAGIC[0] || bytes[1] != INDEX_MAGIC[1] || bytes[2] != INDEX_MAGIC[2]
        || bytes[3] != INDEX_MAGIC[3] {
        proof {
            if bytes@.subrange(0, 4) == crate::store::formats::index_magic() {
                assert(bytes@.subrange(0, 4)[0] == bytes@[0]);
                assert(bytes@.subrange(0, 4)[1] == bytes@[1]);
                assert(bytes@.subrange(0, 4)[2] == bytes@[2]);
                assert(bytes@.subrange(0, 4)[3] == bytes@[3]);
            }
        }
        return Err(IndexError::BadMagic);
    }
    assert(bytes@.subrange(0, 4) =~= crate::store::formats::index_magic());
    let version = get_u32(bytes, 4);
    let page_size = get_u32(bytes, 8);
    let root_page_offset = get_u64(bytes, 12);
    let page_count = get_u64(bytes, 20);
    let key_count = get_u64(bytes, 28);
    if version != FORMAT_VERSION {
        return Err(IndexError::UnsupportedVersion(version));
    }
    if page_size != DEFAULT_PAGE_SIZE {
        return Err(IndexError::UnsupportedPageSize(page_size));
    }
    Ok(IndexHeader { version, page_size, root_page_offset, page_count, key_count })
}

/// The header fields of the page `p`: entry count and extra offset.
pub fn parse_page_header(page: &[u8]) -> (r: (u32, u64))
    requires
        page@.len() == PAGE_SIZE,
    ensures
        r.0 as nat == page_count(page@),
        r.1 == page_extra(page@),
{
    (get_u32(page, 4), get_u64(page, 8))
}

/// The leaf entry at `offset` of `page`.
pub fn parse_leaf_entry(page: &[u8], offset: usize) -> (r: Result<(usize, usize, DataPointer, usize), IndexError>)
    requires
        page@.len() == PAGE_SIZE,
    ensures
        match r {
            Ok((ks, ke, ptr, next)) => leaf_entry(page@, offset as int) == Ok::<(int, int, DataPointer, int), IndexError>((ks as int, ke as int, ptr, next as int))
                && ks <= ke && next <= PAGE_SIZE,
            Err(e) => leaf_entry(page@, offset as int) == Err::<(int, int, DataPointer, int), IndexError>(e),
        },
{
    if offset > PAGE_SIZE - 2 {
        return Err(IndexError::EntryOutOfBounds);
    }
    let key_len = get_u16(page, offset) as usize;
    let key_start = offset + 2;
    let key_end = key_start + key_len;
    if key_end > PAGE_SIZE - 12 {
        return Err(IndexError::EntryOutOfBounds);
    }
    let key = slice_subrange(page, key_start, key_end);
    if !is_utf8(key) {
        return Err(IndexError::KeyNotUtf8);
    }
    let pointer = DataPointer { offset: get_u64(page, key_end), len: get_u32(page, key_end + 8) };
    Ok((key_start, key_end, pointer, key_end + 12))
}

/// The internal entry at `offset` of `page`.
pub fn parse_internal_entry(page: &[u8], offset: usize) -> (r: Result<(usize, usize, u64, usize), IndexError>)
    requires
        page@.len() == PAGE_SIZE,
    ensures
        match r {
            Ok((ks, ke, child, next)) => internal_entry(page@, offset as int) == Ok::<(int, int, u64, int), IndexError>((ks as int, ke as int, child, next as int))
                && ks <= ke && next <= PAGE_SIZE,
            Err(e) => internal_entry(page@, offset as int) == Err::<(int, int, u64, int), IndexError>(e),
        },
{
    if offset > PAGE_SIZE - 2 {
        return Err(IndexError::EntryOutOfBounds);
    }
    let key_len = get_u16(page, offset) as usize;
    let key_start = offset + 2;
    let key_end = key_start + key_len;
    if key_end > PAGE_SIZE - 8 {
        return Err(IndexError::EntryOutOfBounds);
    }
    let key = slice_subrange(page, key_start, key_end);
    if !is_utf8(key) {
        return Err(IndexError::KeyNotUtf8);
    }
    Ok((key_start, key_end, get_u64(page, key_end), key_end + 8))
}

/// Looks `key` up among the `count` entries of the leaf `page`.
fn lookup_in_leaf(page: &[u8], count: u32, key: &[u8]) -> (r: Result<Option<DataPointer>, IndexError>)
    requires
        page@.len() == PAGE_SIZE,
    ensures
        r == leaf_lookup(page@, PAGE_HEADER_LEN as int, count as nat, key@),
{
    let mut cursor: usize = PAGE_HEADER_LEN;
    let mut i: u32 = 0;
    while i < count
        invariant
            page@.len() == PAGE_SIZE,
            i <= count,
            cursor <= PAGE_SIZE,
            leaf_lookup(page@, PAGE_HEADER_LEN as int, count as nat, key@) == leaf_lookup(
                page@,
                cursor as int,
                (count - i) as nat,
                key@,
            ),
        decreases count - i,
    {
        let (ks, ke, pointer, next) = parse_leaf_entry(page, cursor)?;
        let k = slice_subrange(page, ks, ke);
        if eq_bytes(k, key) {
            return Ok(Some(pointer));
        }
        cursor = next;
        i = i + 1;
    }
    Ok(None)
}

/// The child to descend into for `key` from the internal `page` with
/// `count` entries and first child `first_child`.
fn select_child(page: &[u8], count: u32, key: &[u8], first_child: u64) -> (r: Result<u64, IndexError>)
    requires
        page@.len() == PAGE_SIZE,
    ensures
        r == internal_select(page@, PAGE_HEADER_LEN as int, count as nat, key@, first_child),
{
    let mut selected = first_child;
    let mut cursor: usize = PAGE_HEADER_LEN;
    let mut i: u32 = 0;
    while i < count
        invariant
            page@.len() == PAGE_SIZE,
            i <= count,
            cursor <= PAGE_SIZE,
            internal_select(page@, PAGE_HEADER_LEN as int, count as nat, key@, first_child)
                == internal_select(page@, cursor as int, (count - i) as nat, key@, selected),
        decreases count - i,
    {
        let (ks, ke, child, next) = parse_internal_entry(page, cursor)?;
        let separator = slice_subrange(page, ks, ke);
        if lt_bytes(key, separator) {
            return Ok(selected);
        }
        selected = child;
        cursor = next;
        i = i + 1;
    }
    Ok(selected)
}

impl ReadOnlyBPlusTree {
    #[verifier::type_invariant]
    spec fn inv(self) -> bool {
        spec_index_header(self.bytes@) == Ok::<IndexHeader, IndexError>(self.header)
    }

    /// The bytes of the index file.
    pub closed spec fn bytes(&self) -> Seq<u8> {
        self.bytes@
    }

    /// The checked header of the index file.
    pub closed spec fn header(&self) -> IndexHeader {
        self.header
    }

    /// Reads an index held in memory; fails exactly when its header is
    /// refused.
    pub fn from_bytes(bytes: Vec<u8>) -> (r: Result<Self, IndexError>)
        ensures
            match r {
                Ok(t) => t.bytes() == bytes@ && spec_index_header(bytes@) == Ok::<IndexHeader, IndexError>(t.header()),
                Err(e) => spec_index_header(bytes@) == Err::<IndexHeader, IndexError>(e),
            },
    {
        let header = parse_header(bytes.as_slice())?;
        Ok(ReadOnlyBPlusTree { bytes, header })
    }

    /// The record pointer stored for `key`, if any.
    pub fn get(&self, key: &str) -> (r: Result<Option<DataPointer>, IndexError>)
        ensures
            r == tree_get(self.bytes(), self.header(), key.spec_bytes()),
    {
        proof {
            use_type_invariant(self);
        }
        if self.header.key_count == 0 {
            return Ok(None);
        }
        let k = key_bytes(key);
        let leaf_offset = self.find_leaf_offset(k)?;
        proof {
            lemma_find_leaf_in(self.bytes@, self.header.root_page_offset, k@, walk_fuel(self.bytes@));
        }
        let page = self.page_slice(leaf_offset)?;
        let (count, _) = parse_page_header(page);
        lookup_in_leaf(page, count, k)
    }

    /// The record pointers of the keys that start with `prefix`, in key order.
    pub fn scan_prefix(&self, prefix: &str) -> (r: Result<Vec<DataPointer>, IndexError>)
        ensures
            match r {
                Ok(v) => tree_scan_prefix(self.bytes(), self.header(), prefix.spec_bytes()) == Ok::<Seq<DataPointer>, IndexError>(v@),
                Err(e) => tree_scan_prefix(self.bytes(), self.header(), prefix.spec_bytes()) == Err::<Seq<DataPointer>, IndexError>(e),
            },
    {
        proof {
            use_type_invariant(self);
        }
        if self.header.key_count == 0 {
            return Ok(Vec::new());
        }
        let pre = key_bytes(prefix);
        let mut leaf_offset = self.find_leaf_offset(pre)?;
        let ghost b = self.bytes@;
        let mut pointers: Vec<DataPointer> = Vec::new();
        let mut seen = false;
        let mut fuel: usize = self.bytes.len() / PAGE_SIZE + 1;
        assert(fuel == walk_fuel(b));
        loop
            invariant
                b == self.bytes@,
                pre@ == prefix.spec_bytes(),
                tree_scan_prefix(b, self.header, pre@) == scan_leaves(b, leaf_offset, pre@, seen, pointers@, fuel as nat),
            decreases fuel,
        {
            if fuel == 0 {
                return Err(IndexError::TooDeep);
            }
            let page = self.page_slice(leaf_offset)?;
            let (count, next_leaf) = parse_page_header(page);
            let ghost p = page@;
            let ghost seen_before = seen;
            let ghost pointers_before = pointers@;
            let mut cursor: usize = PAGE_HEADER_LEN;
            let mut i: u32 = 0;
            while i < count
                invariant
                    b == self.bytes@,
                    pre@ == prefix.spec_bytes(),
                    fuel > 0,
                    page_in(b, leaf_offset as int),
                    p == page_at(b, leaf_offset as int),
                    count as nat == page_count(p),
                    next_leaf == page_extra(p),
                    tree_scan_prefix(b, self.header, pre@) == scan_leaves(b, leaf_offset, pre@, seen_before, pointers_before, fuel as nat),
                    p == page@,
                    page@.len() == PAGE_SIZE,
                    i <= count,
                    cursor <= PAGE_SIZE,
                    scan_entries(p, PAGE_HEADER_LEN as int, count as nat, pre@, seen_before, pointers_before)
                        == scan_entries(p, cursor as int, (count - i) as nat, pre@, seen, pointers@),
                decreases count - i,
            {
                let (ks, ke, pointer, next) = match parse_leaf_entry(page, cursor) {
                    Ok(e) => e,
                    Err(e) => {
                        return Err(e);
                    },
                };
                let entry_key = slice_subrange(page, ks, ke);
                if starts_with_bytes(entry_key, pre) {
                    seen = true;
                    pointers.push(pointer);
                } else if seen || lt_bytes(pre, entry_key) {
                    return Ok(pointers);
                }
                cursor = next;
                i = i + 1;
            }
            if next_leaf == 0 {
                return Ok(pointers);
            }
            leaf_offset = next_leaf;
            fuel = fuel - 1;
        }
    }

    /// The leaf page offset reached by descending from the root for `key`.
    fn find_leaf_offset(&self, key: &[u8]) -> (r: Result<u64, IndexError>)
        ensures
            r == find_leaf(self.bytes(), self.header().root_page_offset, key@, walk_fuel(self.bytes())),
    {
        let mut page_offset = self.header.root_page_offset;
        let mut fuel: usize = self.bytes.len() / PAGE_SIZE + 1;
        loop
            invariant
                find_leaf(self.bytes@, self.header.root_page_offset, key@, walk_fuel(self.bytes@))
                    == find_leaf(self.bytes@, page_offset, key@, fuel as nat),
            decreases fuel,
        {
            if fuel == 0 {
                return Err(IndexError::TooDeep);
            }
            let page = self.page_slice(page_offset)?;
            let page_kind = page[0];
            let (entry_count, extra) = parse_page_header(page);
            if page_kind == PAGE_KIND_LEAF {
                return Ok(page_offset);
            } else if page_kind == PAGE_KIND_INTERNAL {
                page_offset = select_child(page, entry_count, key, extra)?;
                fuel = fuel - 1;
            } else {
                return Err(IndexError::UnsupportedPageKind(page_kind));
            }
        }
    }

    /// The page at `offset`, if it lies inside the file.
    fn page_slice(&self, offset: u64) -> (r: Result<&[u8], IndexError>)
        ensures
            match r {
                Ok(p) => page_in(self.bytes(), offset as int) && p@ == page_at(self.bytes(), offset as int),
                Err(e) => !page_in(self.bytes(), offset as int) && e == IndexError::PageOutOfBounds(offset),
            },
    {
        let len = self.bytes.len();
        if offset > len as u64 || (len as u64) - offset < PAGE_SIZE as u64 {
            return Err(IndexError::PageOutOfBounds(offset));
        }
        let start = offset as usize;
        Ok(slice_subrange(self.bytes.as_slice(), start, start + PAGE_SIZE))
    }
}

} // verus!

verus! {

// ---------------------------------------------------------------------------
// Writing: the layout of the bytes
// ---------------------------------------------------------------------------

/// An entry as values: key bytes and record pointer.
pub type EntryView = (Seq<u8>, DataPointer);

/// A child of an internal page as values: its first key and its offset.
pub type ChildView = (Seq<u8>, u64);

/// The entries handed to the writer, as values.
pub open spec fn entries_view(es: Seq<IndexEntry>) -> Seq<EntryView> {
    es.map_values(|e: IndexEntry| (encode_utf8(e.key@), e.pointer))
}

/// Keys are strictly increasing.
pub open spec fn strictly_sorted(es: Seq<EntryView>) -> bool {
    forall|i: int| 0 <= i < es.len() - 1 ==> crate::store::formats::bytes_lt(#[trigger] es[i].0, es[i + 1].0)
}

/// Every key fits in one leaf page.
pub open spec fn keys_fit(es: Seq<EntryView>) -> bool {
    forall|i: int| 0 <= i < es.len() ==> leaf_entry_size(#[trigger] es[i].0) + PAGE_HEADER_LEN <= PAGE_SIZE
}

/// Bytes a leaf entry with key `k` takes.
pub open spec fn leaf_entry_size(k: Seq<u8>) -> int {
    (2 + k.len() + 8 + 4) as int
}

/// The leaf pages as index ranges `[start, end)` of the entries, filled
/// greedily: a page is closed when the next entry does not fit any more.
pub open spec fn leaf_ranges_from(es: Seq<EntryView>, i: int, start: int, used: int) -> Seq<(int, int)>
    decreases es.len() - i,
{
    if i >= es.len() {
        if start < i {
            seq![(start, i)]
        } else {
            Seq::empty()
        }
    } else {
        let size = leaf_entry_size(es[i].0);
        if used + size > PAGE_SIZE && start < i {
            seq![(start, i)] + leaf_ranges_from(es, i + 1, i, PAGE_HEADER_LEN + size)
        } else {
            leaf_ranges_from(es, i + 1, start, used + size)
        }
    }
}

/// The leaf pages of the entries, as index ranges.
pub open spec fn leaf_ranges(es: Seq<EntryView>) -> Seq<(int, int)> {
    leaf_ranges_from(es, 0, 0, PAGE_HEADER_LEN as int)
}

/// The internal pages over a level of children, as index ranges. The first
/// child of a page costs nothing (its offset sits in the page header).
pub open spec fn internal_ranges_from(cs: Seq<ChildView>, i: int, start: int, used: int) -> Seq<(int, int)>
    decreases cs.len() - i,
{
    if i >= cs.len() {
        if start < i {
            seq![(start, i)]
        } else {
            Seq::empty()
        }
    } else {
        let size = if start < i { 2 + cs[i].0.len() + 8 } else { 0 };
        if used + size > PAGE_SIZE && start < i {
            seq![(start, i)] + internal_ranges_from(cs, i + 1, i, PAGE_HEADER_LEN + size)
        } else {
            internal_ranges_from(cs, i + 1, start, used + size)
        }
    }
}

/// The internal pages over a level of children, as index ranges.
pub open spec fn internal_ranges(cs: Seq<ChildView>) -> Seq<(int, int)> {
    internal_ranges_from(cs, 0, 0, PAGE_HEADER_LEN as int)
}

/// `s` followed by zero bytes up to a full page.
pub open spec fn pad_page(s: Seq<u8>) -> Seq<u8> {
    if s.len() >= PAGE_SIZE {
        s
    } else {
        s + Seq::new((PAGE_SIZE - s.len()) as nat, |i: int| 0u8)
    }
}

/// The 16-byte page header.
pub open spec fn page_header_bytes(kind: u8, count: u32, extra: u64) -> Seq<u8> {
    seq![kind, 0u8, 0u8, 0u8] + spec_u32_to_le_bytes(count) + spec_u64_to_le_bytes(extra)
}

/// The bytes of one leaf entry.
pub open spec fn leaf_entry_bytes(e: EntryView) -> Seq<u8> {
    spec_u16_to_le_bytes(e.0.len() as u16) + e.0 + spec_u64_to_le_bytes(e.1.offset) + spec_u32_to_le_bytes(e.1.len)
}

/// The bytes of consecutive leaf entries.
pub open spec fn leaf_entries_bytes(es: Seq<EntryView>) -> Seq<u8>
    decreases es.len(),
{
    if es.len() == 0 {
        Seq::empty()
    } else {
        leaf_entries_bytes(es.drop_last()) + leaf_entry_bytes(es.last())
    }
}

/// The bytes of a leaf page holding `es`, linked to the leaf at `next`.
pub open spec fn leaf_page_bytes(es: Seq<EntryView>, next: u64) -> Seq<u8> {
    pad_page(page_header_bytes(PAGE_KIND_LEAF, es.len() as u32, next) + leaf_entries_bytes(es))
}

/// The bytes of one internal entry.
pub open spec fn internal_entry_bytes(c: ChildView) -> Seq<u8> {
    spec_u16_to_le_bytes(c.0.len() as u16) + c.0 + spec_u64_to_le_bytes(c.1)
}

/// The bytes of consecutive internal entries.
pub open spec fn internal_entries_bytes(cs: Seq<ChildView>) -> Seq<u8>
    decreases cs.len(),
{
    if cs.len() == 0 {
        Seq::empty()
    } else {
        internal_entries_bytes(cs.drop_last()) + internal_entry_bytes(cs.last())
    }
}

/// The bytes of an internal page over the children `cs` (at least one): the
/// first child's offset in the header, the others as separator entries.
pub open spec fn internal_page_bytes(cs: Seq<ChildView>) -> Seq<u8> {
    pad_page(
        page_header_bytes(PAGE_KIND_INTERNAL, (cs.len() - 1) as u32, cs[0].1)
            + internal_entries_bytes(cs.drop_first()),
    )
}

/// Offset of the page with the given number.
pub open spec fn page_offset(n: int) -> int {
    INDEX_HEADER_LEN + n * PAGE_SIZE
}

/// The bytes of the leaf pages for the ranges `rs[0..j)`, each linked to the next.
pub open spec fn leaf_pages_bytes(es: Seq<EntryView>, rs: Seq<(int, int)>, j: int) -> Seq<u8>
    decreases j,
{
    if j <= 0 {
        Seq::empty()
    } else {
        let r = rs[j - 1];
        let next = if j < rs.len() { page_offset(j) as u64 } else { 0u64 };
        leaf_pages_bytes(es, rs, j - 1) + leaf_page_bytes(es.subrange(r.0, r.1), next)
    }
}

/// The level of children the leaf pages form.
pub open spec fn leaf_level(es: Seq<EntryView>, rs: Seq<(int, int)>) -> Seq<ChildView> {
    Seq::new(rs.len(), |j: int| (es[rs[j].0].0, page_offset(j) as u64))
}

/// The bytes of the internal pages over `cs` for the ranges `rs[0..j)`.
pub open spec fn internal_pages_bytes(cs: Seq<ChildView>, rs: Seq<(int, int)>, j: int) -> Seq<u8>
    decreases j,
{
    if j <= 0 {
        Seq::empty()
    } else {
        let r = rs[j - 1];
        internal_pages_bytes(cs, rs, j - 1) + internal_page_bytes(cs.subrange(r.0, r.1))
    }
}

/// The level of children that internal pages numbered from `first` on form.
pub open spec fn parent_level(cs: Seq<ChildView>, rs: Seq<(int, int)>, first: int) -> Seq<ChildView> {
    Seq::new(rs.len(), |j: int| (cs[rs[j].0].0, page_offset(first + j) as u64))
}

/// The internal levels built over `cs` until one page remains: their bytes,
/// the total number of pages, and the root offset. `count` pages precede them.
pub open spec fn upper_levels(cs: Seq<ChildView>, count: nat, fuel: nat) -> (Seq<u8>, nat, u64)
    decreases fuel,
{
    if cs.len() <= 1 || fuel == 0 {
        (Seq::empty(), count, if cs.len() >= 1 { cs[0].1 } else { INDEX_HEADER_LEN as u64 })
    } else {
        let rs = internal_ranges(cs);
        let pages = internal_pages_bytes(cs, rs, rs.len() as int);
        let up = upper_levels(parent_level(cs, rs, count as int), count + rs.len(), (fuel - 1) as nat);
        (pages + up.0, up.1, up.2)
    }
}

/// The 36-byte index header.
pub open spec fn index_header_bytes(root: u64, page_count: u64, key_count: u64) -> Seq<u8> {
    crate::store::formats::index_magic() + spec_u32_to_le_bytes(FORMAT_VERSION) + spec_u32_to_le_bytes(DEFAULT_PAGE_SIZE)
        + spec_u64_to_le_bytes(root) + spec_u64_to_le_bytes(page_count) + spec_u64_to_le_bytes(key_count)
}

/// The index file for sorted entries whose keys fit.
pub open spec fn index_file(es: Seq<EntryView>) -> Seq<u8> {
    let rs = leaf_ranges(es);
    let leaves = leaf_pages_bytes(es, rs, rs.len() as int);
    let up = upper_levels(leaf_level(es, rs), rs.len(), rs.len());
    index_header_bytes(up.2, up.1 as u64, es.len() as u64) + leaves + up.0
}

/// The number of pages in the index file for the entries.
pub open spec fn index_page_count(es: Seq<EntryView>) -> nat {
    let rs = leaf_ranges(es);
    upper_levels(leaf_level(es, rs), rs.len(), rs.len()).1
}

/// The index file for the entries fits the format's `u64` fields: its key
/// count, and the offsets of all its pages and of its end.
#[verifier::opaque]
pub open spec fn offsets_fit(es: Seq<EntryView>) -> bool {
    es.len() <= u64::MAX && page_offset(index_page_count(es) as int) <= u64::MAX
}

/// What the writer yields for the entries.
pub open spec fn spec_write_index(es: Seq<EntryView>) -> Result<Seq<u8>, IndexError> {
    if !strictly_sorted(es) {
        Err(IndexError::UnsortedEntries)
    } else if !keys_fit(es) {
        Err(IndexError::KeyTooLarge)
    } else if !offsets_fit(es) {
        Err(IndexError::FileTooLarge)
    } else {
        Ok(index_file(es))
    }
}

/// Building the levels above `cs` only adds pages.
pub proof fn lemma_upper_count(cs: Seq<ChildView>, count: nat, fuel: nat)
    ensures
        upper_levels(cs, count, fuel).1 >= count,
    decreases fuel,
{
    if cs.len() > 1 && fuel > 0 {
        let rs = internal_ranges(cs);
        lemma_upper_count(parent_level(cs, rs, count as int), count + rs.len(), (fuel - 1) as nat);
    }
}

} // verus!

verus! {

/// Index ranges as values.
pub open spec fn ranges_view(v: Seq<(usize, usize)>) -> Seq<(int, int)> {
    v.map_values(|r: (usize, usize)| (r.0 as int, r.1 as int))
}

/// `rs` cut `[start, n)` into consecutive non-empty ranges.
pub open spec fn partitions(rs: Seq<(int, int)>, start: int, n: int) -> bool {
    &&& rs.len() >= 1
    &&& rs[0].0 == start
    &&& rs.last().1 == n
    &&& forall|j: int| 0 <= j < rs.len() ==> #[trigger] rs[j].0 < rs[j].1
    &&& forall|j: int| 0 <= j < rs.len() - 1 ==> #[trigger] rs[j].1 == rs[j + 1].0
}

pub proof fn lemma_partitions_cons(r: (int, int), rest: Seq<(int, int)>, n: int)
    requires
        r.0 < r.1,
        partitions(rest, r.1, n),
    ensures
        partitions(seq![r] + rest, r.0, n),
{
    let rs = seq![r] + rest;
    assert(rs[0] == r);
    assert(rs.last() == rest.last());
    assert forall|j: int| 0 <= j < rs.len() implies #[trigger] rs[j].0 < rs[j].1 by {
        if j > 0 {
            assert(rs[j] == rest[j - 1]);
        }
    }
    assert forall|j: int| 0 <= j < rs.len() - 1 implies #[trigger] rs[j].1 == rs[j + 1].0 by {
        if j > 0 {
            assert(rs[j] == rest[j - 1]);
        }
        assert(rs[j + 1] == rest[j]);
    }
}

/// The leaf pages partition the entries that are left, one page at most per
/// entry after the first.
pub proof fn lemma_leaf_ranges(es: Seq<EntryView>, i: int, start: int, used: int)
    requires
        0 <= start <= i <= es.len(),
    ensures
        ({
            let rs = leaf_ranges_from(es, i, start, used);
            &&& (start < es.len() ==> partitions(rs, start, es.len() as int))
            &&& (start == es.len() ==> rs.len() == 0)
            &&& (start < i ==> rs.len() <= 1 + es.len() - i)
            &&& (start == i ==> rs.len() <= es.len() - i)
        }),
    decreases es.len() - i,
{
    if i >= es.len() {
        if start < i {
            let rs = leaf_ranges_from(es, i, start, used);
            assert(rs =~= seq![(start, i)]);
        }
    } else {
        let size = leaf_entry_size(es[i].0);
        if used + size > PAGE_SIZE && start < i {
            lemma_leaf_ranges(es, i + 1, i, PAGE_HEADER_LEN + size);
            let rest = leaf_ranges_from(es, i + 1, i, PAGE_HEADER_LEN + size);
            lemma_partitions_cons((start, i), rest, es.len() as int);
        } else {
            lemma_leaf_ranges(es, i + 1, start, used + size);
        }
    }
}

/// Internal pages partition the children that are left; when every
/// separator fits beside a page header, a page opened at the first child
/// takes at least two children.
pub proof fn lemma_internal_ranges(cs: Seq<ChildView>, i: int, start: int, used: int)
    requires
        0 <= start <= i <= cs.len(),
    ensures
        ({
            let rs = internal_ranges_from(cs, i, start, used);
            &&& (start < cs.len() ==> partitions(rs, start, cs.len() as int))
            &&& (start == cs.len() ==> rs.len() == 0)
            &&& (start < i ==> rs.len() <= 1 + cs.len() - i)
            &&& (start == i ==> rs.len() <= cs.len() - i)
        }),
    decreases cs.len() - i,
{
    if i >= cs.len() {
        if start < i {
            let rs = internal_ranges_from(cs, i, start, used);
            assert(rs =~= seq![(start, i)]);
        }
    } else {
        let size = if start < i { 2 + cs[i].0.len() + 8 } else { 0 };
        if used + size > PAGE_SIZE && start < i {
            lemma_internal_ranges(cs, i + 1, i, PAGE_HEADER_LEN + size);
            let rest = internal_ranges_from(cs, i + 1, i, PAGE_HEADER_LEN + size);
            lemma_partitions_cons((start, i), rest, cs.len() as int);
        } else {
            lemma_internal_ranges(cs, i + 1, start, used + size);
        }
    }
}

/// Separators that fit make every internal level shorter than the one below.
pub proof fn lemma_internal_level_shrinks(cs: Seq<ChildView>)
    requires
        cs.len() >= 2,
        forall|i: int| 0 <= i < cs.len() ==> #[trigger] cs[i].0.len() + 2 + 8 + PAGE_HEADER_LEN <= PAGE_SIZE,
    ensures
        internal_ranges(cs).len() <= cs.len() - 1,
        partitions(internal_ranges(cs), 0, cs.len() as int),
{
    let size1 = 2 + cs[1].0.len() + 8;
    assert(internal_ranges(cs) == internal_ranges_from(cs, 1, 0, PAGE_HEADER_LEN as int));
    assert(internal_ranges_from(cs, 1, 0, PAGE_HEADER_LEN as int) == internal_ranges_from(
        cs,
        2,
        0,
        PAGE_HEADER_LEN + size1,
    ));
    lemma_internal_ranges(cs, 2, 0, PAGE_HEADER_LEN + size1);
    lemma_internal_ranges(cs, 0, 0, PAGE_HEADER_LEN as int);
}

/// Entries sorted strictly: checked pairwise.
fn validate_entries(entries: &[IndexEntry]) -> (r: bool)
    ensures
        r == strictly_sorted(entries_view(entries@)),
{
    let ghost ev = entries_view(entries@);
    if entries.len() < 2 {
        return true;
    }
    let mut i: usize = 0;
    while i + 1 < entries.len()
        invariant
            entries.len() >= 2,
            ev == entries_view(entries@),
            i + 1 <= entries.len(),
            forall|j: int| 0 <= j < i ==> crate::store::formats::bytes_lt(#[trigger] ev[j].0, ev[j + 1].0),
        decreases entries.len() - i,
    {
        let a = key_bytes(entries[i].key.as_str());
        let b = key_bytes(entries[i + 1].key.as_str());
        if !lt_bytes(a, b) {
            assert(!crate::store::formats::bytes_lt(ev[i as int].0, ev[i + 1].0));
            return false;
        }
        i = i + 1;
    }
    true
}

/// The leaf page ranges of the entries, or `KeyTooLarge` when a key does
/// not fit in one page.
fn build_leaf_ranges(entries: &[IndexEntry]) -> (r: Result<Vec<(usize, usize)>, IndexError>)
    ensures
        match r {
            Ok(v) => keys_fit(entries_view(entries@)) && ranges_view(v@) == leaf_ranges(entries_view(entries@)),
            Err(e) => !keys_fit(entries_view(entries@)) && e == IndexError::KeyTooLarge,
        },
{
    let ghost ev = entries_view(entries@);
    let mut pages: Vec<(usize, usize)> = Vec::new();
    let mut start: usize = 0;
    let mut used: usize = PAGE_HEADER_LEN;
    let mut i: usize = 0;
    assert(ranges_view(pages@) =~= Seq::<(int, int)>::empty());
    while i < entries.len()
        invariant
            ev == entries_view(entries@),
            start <= i <= entries.len(),
            PAGE_HEADER_LEN <= used <= PAGE_SIZE,
            start == i ==> used == PAGE_HEADER_LEN,
            forall|j: int| 0 <= j < i ==> leaf_entry_size(#[trigger] ev[j].0) + PAGE_HEADER_LEN <= PAGE_SIZE,
            ranges_view(pages@) + leaf_ranges_from(ev, i as int, start as int, used as int) == leaf_ranges(ev),
        decreases entries.len() - i,
    {
        let k = key_bytes(entries[i].key.as_str());
        if k.len() > PAGE_SIZE - PAGE_HEADER_LEN - 14 {
            assert(!(leaf_entry_size(ev[i as int].0) + PAGE_HEADER_LEN <= PAGE_SIZE));
            return Err(IndexError::KeyTooLarge);
        }
        let entry_size = 2 + k.len() + 8 + 4;
        assert(entry_size == leaf_entry_size(ev[i as int].0));
        let ghost before = ranges_view(pages@);
        if used + entry_size > PAGE_SIZE && start < i {
            pages.push((start, i));
            assert(ranges_view(pages@) =~= before + seq![(start as int, i as int)]);
            assert(before + (seq![(start as int, i as int)] + leaf_ranges_from(ev, i + 1, i as int, PAGE_HEADER_LEN + entry_size))
                =~= (before + seq![(start as int, i as int)]) + leaf_ranges_from(ev, i + 1, i as int, PAGE_HEADER_LEN + entry_size));
            start = i;
            used = PAGE_HEADER_LEN + entry_size;
        } else {
            used = used + entry_size;
        }
        i = i + 1;
    }
    let ghost before = ranges_view(pages@);
    if start < entries.len() {
        pages.push((start, entries.len()));
        assert(ranges_view(pages@) =~= before + seq![(start as int, entries@.len() as int)]);
    } else {
        assert(before + Seq::<(int, int)>::empty() =~= before);
    }
    Ok(pages)
}

/// Appends zero bytes up to a full page.
fn pad_to_page(buf: &mut Vec<u8>)
    ensures
        final(buf)@ == pad_page(old(buf)@),
{
    let ghost s = buf@;
    if buf.len() >= PAGE_SIZE {
        return;
    }
    while buf.len() < PAGE_SIZE
        invariant
            s.len() < PAGE_SIZE,
            s.len() <= buf@.len() <= PAGE_SIZE,
            buf@ == s + Seq::new((buf@.len() - s.len()) as nat, |i: int| 0u8),
        decreases PAGE_SIZE - buf.len(),
    {
        let ghost before = buf@;
        buf.push(0u8);
        assert(buf@ =~= s + Seq::new((buf@.len() - s.len()) as nat, |i: int| 0u8));
    }
}

/// Appends the 16-byte page header.
fn write_page_header(buf: &mut Vec<u8>, kind: u8, count: u32, extra: u64)
    ensures
        final(buf)@ == old(buf)@ + page_header_bytes(kind, count, extra),
{
    buf.push(kind);
    buf.push(0u8);
    buf.push(0u8);
    buf.push(0u8);
    write_u32(buf, count);
    write_u64(buf, extra);
    assert(buf@ =~= old(buf)@ + page_header_bytes(kind, count, extra));
}

/// Appends the bytes of `src`.
fn append_bytes(buf: &mut Vec<u8>, src: &[u8])
    ensures
        final(buf)@ == old(buf)@ + src@,
{
    let mut i: usize = 0;
    while i < src.len()
        invariant
            i <= src.len(),
            buf@ == old(buf)@ + src@.subrange(0, i as int),
        decreases src.len() - i,
    {
        buf.push(src[i]);
        i = i + 1;
        assert(buf@ =~= old(buf)@ + src@.subrange(0, i as int));
    }
    assert(src@ =~= src@.subrange(0, src@.len() as int));
}

/// The leaf page holding `entries[start..end]`, linked to `next_leaf`.
fn serialize_leaf_page(entries: &[IndexEntry], start: usize, end: usize, next_leaf: u64) -> (r: Vec<u8>)
    requires
        start < end <= entries.len(),
        keys_fit(entries_view(entries@)),
    ensures
        r@ == leaf_page_bytes(entries_view(entries@).subrange(start as int, end as int), next_leaf),
{
    let ghost ev = entries_view(entries@);
    let ghost page = ev.subrange(start as int, end as int);
    let mut buf: Vec<u8> = Vec::new();
    write_page_header(&mut buf, PAGE_KIND_LEAF, (end - start) as u32, next_leaf);
    let ghost head = buf@;
    let mut i = start;
    while i < end
        invariant
            ev == entries_view(entries@),
            keys_fit(ev),
            start <= i <= end <= entries.len(),
            page == ev.subrange(start as int, end as int),
            buf@ == head + leaf_entries_bytes(ev.subrange(start as int, i as int)),
        decreases end - i,
    {
        let k = key_bytes(entries[i].key.as_str());
        assert(leaf_entry_size(ev[i as int].0) + PAGE_HEADER_LEN <= PAGE_SIZE);
        let ghost before = buf@;
        write_u16(&mut buf, k.len() as u16);
        append_bytes(&mut buf, k);
        write_u64(&mut buf, entries[i].pointer.offset);
        write_u32(&mut buf, entries[i].pointer.len);
        let ghost sub = ev.subrange(start as int, i + 1);
        assert(sub.drop_last() =~= ev.subrange(start as int, i as int));
        assert(sub.last() == ev[i as int]);
        assert(buf@ =~= before + leaf_entry_bytes(ev[i as int]));
        i = i + 1;
    }
    assert(page.len() as u32 == (end - start) as u32);
    pad_to_page(&mut buf);
    buf
}

/// The internal page over `level[start..end]`.
fn serialize_internal_page(level: &Vec<(Vec<u8>, u64)>, start: usize, end: usize) -> (r: Vec<u8>)
    requires
        start < end <= level.len(),
        forall|i: int| 0 <= i < level@.len() ==> #[trigger] level@[i].0@.len() < 65536,
    ensures
        r@ == internal_page_bytes(children_view(level@).subrange(start as int, end as int)),
{
    let ghost cs = children_view(level@);
    let ghost page = cs.subrange(start as int, end as int);
    let mut buf: Vec<u8> = Vec::new();
    write_page_header(&mut buf, PAGE_KIND_INTERNAL, (end - start - 1) as u32, level[start].1);
    let ghost head = buf@;
    let mut i = start + 1;
    while i < end
        invariant
            cs == children_view(level@),
            forall|i: int| 0 <= i < level@.len() ==> #[trigger] level@[i].0@.len() < 65536,
            start + 1 <= i <= end <= level.len(),
            buf@ == head + internal_entries_bytes(cs.subrange(start + 1, i as int)),
        decreases end - i,
    {
        let ghost before = buf@;
        let k = level[i].0.as_slice();
        write_u16(&mut buf, k.len() as u16);
        append_bytes(&mut buf, k);
        write_u64(&mut buf, level[i].1);
        let ghost sub = cs.subrange(start + 1, i + 1);
        assert(sub.drop_last() =~= cs.subrange(start + 1, i as int));
        assert(sub.last() == cs[i as int]);
        assert(buf@ =~= before + internal_entry_bytes(cs[i as int]));
        i = i + 1;
    }
    assert(page.drop_first() =~= cs.subrange(start + 1, end as int));
    assert(page[0] == cs[start as int]);
    pad_to_page(&mut buf);
    buf
}

/// A level of children as values.
pub open spec fn children_view(v: Seq<(Vec<u8>, u64)>) -> Seq<ChildView> {
    v.map_values(|c: (Vec<u8>, u64)| (c.0@, c.1))
}

/// The internal page ranges over a level of children.
fn build_internal_ranges(children: &Vec<(Vec<u8>, u64)>) -> (r: Vec<(usize, usize)>)
    requires
        separators_fit(children_view(children@)),
    ensures
        ranges_view(r@) == internal_ranges(children_view(children@)),
{
    let ghost cs = children_view(children@);
    let mut pages: Vec<(usize, usize)> = Vec::new();
    let mut start: usize = 0;
    let mut used: usize = PAGE_HEADER_LEN;
    let mut i: usize = 0;
    assert(ranges_view(pages@) =~= Seq::<(int, int)>::empty());
    while i < children.len()
        invariant
            cs == children_view(children@),
            separators_fit(cs),
            start <= i <= children.len(),
            PAGE_HEADER_LEN <= used <= PAGE_SIZE,
            ranges_view(pages@) + internal_ranges_from(cs, i as int, start as int, used as int) == internal_ranges(cs),
        decreases children.len() - i,
    {
        assert(cs[i as int].0.len() + 2 + 8 + PAGE_HEADER_LEN <= PAGE_SIZE);
        let entry_size = if start < i { 2 + children[i].0.len() + 8 } else { 0 };
        let ghost before = ranges_view(pages@);
        if used + entry_size > PAGE_SIZE && start < i {
            pages.push((start, i));
            assert(ranges_view(pages@) =~= before + seq![(start as int, i as int)]);
            assert(before + (seq![(start as int, i as int)] + internal_ranges_from(cs, i + 1, i as int, PAGE_HEADER_LEN + entry_size))
                =~= (before + seq![(start as int, i as int)]) + internal_ranges_from(cs, i + 1, i as int, PAGE_HEADER_LEN + entry_size));
            start = i;
            assert(entry_size <= PAGE_SIZE - PAGE_HEADER_LEN);
            used = PAGE_HEADER_LEN + entry_size;
        } else {
            assert(used + entry_size <= PAGE_SIZE);
            used = used + entry_size;
        }
        i = i + 1;
    }
    let ghost before = ranges_view(pages@);
    if start < children.len() {
        pages.push((start, children.len()));
        assert(ranges_view(pages@) =~= before + seq![(start as int, children@.len() as int)]);
    } else {
        assert(before + Seq::<(int, int)>::empty() =~= before);
    }
    pages
}

} // verus!

verus! {

/// A copy of `s`.
fn copy_bytes(s: &[u8]) -> (r: Vec<u8>)
    ensures
        r@ == s@,
{
    let mut r: Vec<u8> = Vec::new();
    append_bytes(&mut r, s);
    r
}

/// Appends the 36-byte index header.
fn write_index_header(buf: &mut Vec<u8>, root: u64, page_count: u64, key_count: u64)
    ensures
        final(buf)@ == old(buf)@ + index_header_bytes(root, page_count, key_count),
{
    buf.push(INDEX_MAGIC[0]);
    buf.push(INDEX_MAGIC[1]);
    buf.push(INDEX_MAGIC[2]);
    buf.push(INDEX_MAGIC[3]);
    write_u32(buf, FORMAT_VERSION);
    write_u32(buf, DEFAULT_PAGE_SIZE);
    write_u64(buf, root);
    write_u64(buf, page_count);
    write_u64(buf, key_count);
    assert(buf@ =~= old(buf)@ + index_header_bytes(root, page_count, key_count));
}

/// Children whose keys fit beside a page header as separators.
pub open spec fn separators_fit(cs: Seq<ChildView>) -> bool {
    forall|i: int| 0 <= i < cs.len() ==> #[trigger] cs[i].0.len() + 2 + 8 + PAGE_HEADER_LEN <= PAGE_SIZE
}

/// The internal pages over one level: their bytes, appended to `out`, and
/// the level of children they form, numbered from `first` on; none when a
/// page would lie past the offsets a `u64` holds.
fn build_parent_level(level: &Vec<(Vec<u8>, u64)>, first: u64, out: &mut Vec<u8>) -> (r: Option<Vec<(Vec<u8>, u64)>>)
    requires
        level.len() >= 2,
        separators_fit(children_view(level@)),
    ensures
        ({
            let cs = children_view(level@);
            let rs = internal_ranges(cs);
            match r {
                Some(v) => {
                    &&& final(out)@ == old(out)@ + internal_pages_bytes(cs, rs, rs.len() as int)
                    &&& children_view(v@) == parent_level(cs, rs, first as int)
                    &&& v@.len() == rs.len()
                    &&& v@.len() <= level@.len() - 1
                    &&& separators_fit(children_view(v@))
                },
                None => page_offset(first + rs.len()) > u64::MAX,
            }
        }),
{
    let ghost cs = children_view(level@);
    proof {
        assert forall|i: int| 0 <= i < level@.len() implies #[trigger] level@[i].0@.len() < 65536 by {
            assert(cs[i].0.len() + 2 + 8 + PAGE_HEADER_LEN <= PAGE_SIZE);
        }
        lemma_internal_level_shrinks(cs);
    }
    let ranges = build_internal_ranges(level);
    let ghost rs = ranges_view(ranges@);
    let mut next: Vec<(Vec<u8>, u64)> = Vec::new();
    let mut j: usize = 0;
    while j < ranges.len()
        invariant
            cs == children_view(level@),
            rs == ranges_view(ranges@),
            rs == internal_ranges(cs),
            partitions(rs, 0, cs.len() as int),
            rs.len() <= cs.len() - 1,
            separators_fit(cs),
            forall|i: int| 0 <= i < level@.len() ==> #[trigger] level@[i].0@.len() < 65536,
            j <= ranges.len(),
            out@ == old(out)@ + internal_pages_bytes(cs, rs, j as int),
            children_view(next@) == parent_level(cs, rs, first as int).subrange(0, j as int),
            separators_fit(children_view(next@)),
        decreases ranges.len() - j,
    {
        let (a, b) = ranges[j];
        assert(rs[j as int] == (a as int, b as int));
        assert(0 <= a < b <= level.len()) by {
            if j > 0 {
                lemma_partition_bounds(rs, 0, cs.len() as int, j as int);
            } else {
                lemma_partition_bounds(rs, 0, cs.len() as int, 0);
            }
        }
        let mut page = serialize_internal_page(level, a, b);
        out.append(&mut page);
        let key = copy_bytes(level[a].0.as_slice());
        let number = match first.checked_add(j as u64) {
            Some(n) => n,
            None => return None,
        };
        let offset = match checked_page_offset(number) {
            Some(o) => o,
            None => return None,
        };
        let ghost before = children_view(next@);
        next.push((key, offset));
        proof {
            assert(children_view(next@) =~= before.push((cs[a as int].0, offset)));
            assert(parent_level(cs, rs, first as int).subrange(0, j + 1) =~= parent_level(cs, rs, first as int).subrange(0, j as int).push(parent_level(cs, rs, first as int)[j as int]));
            assert(out@ =~= old(out)@ + internal_pages_bytes(cs, rs, j + 1));
            let nv = children_view(next@);
            assert forall|i: int| 0 <= i < nv.len() implies #[trigger] nv[i].0.len() + 2 + 8 + PAGE_HEADER_LEN <= PAGE_SIZE by {
                if i < j {
                    assert(nv[i] == before[i]);
                }
            }
        }
        j = j + 1;
    }
    assert(parent_level(cs, rs, first as int).subrange(0, rs.len() as int) =~= parent_level(cs, rs, first as int));
    Some(next)
}

/// The offset of page `n`, when a `u64` holds it.
fn checked_page_offset(n: u64) -> (r: Option<u64>)
    ensures
        match r {
            Some(x) => x == page_offset(n as int),
            None => page_offset(n as int) > u64::MAX,
        },
{
    match n.checked_mul(PAGE_SIZE as u64) {
        None => None,
        Some(m) => m.checked_add(INDEX_HEADER_LEN as u64),
    }
}

/// A range of a partition lies inside it.
pub proof fn lemma_partition_bounds(rs: Seq<(int, int)>, start: int, n: int, j: int)
    requires
        partitions(rs, start, n),
        0 <= j < rs.len(),
    ensures
        start <= rs[j].0 < rs[j].1 <= n,
    decreases rs.len() - j,
{
    lemma_partition_monotone(rs, start, n, j);
    if j < rs.len() - 1 {
        lemma_partition_bounds(rs, start, n, j + 1);
    }
}

/// The ranges of a partition start no earlier than its start.
pub proof fn lemma_partition_monotone(rs: Seq<(int, int)>, start: int, n: int, j: int)
    requires
        partitions(rs, start, n),
        0 <= j < rs.len(),
    ensures
        start <= rs[j].0,
    decreases j,
{
    if j > 0 {
        lemma_partition_monotone(rs, start, n, j - 1);
        assert(rs[j - 1].1 == rs[j].0);
    }
}

} // verus!

verus! {

/// Lays out an index file over entries that must be strictly sorted by key,
/// whose keys must each fit in one page, and whose pages must all lie at
/// offsets a `u64` holds; the bytes are those of `spec_write_index`.
pub fn build_index_bytes(sorted_entries: &[IndexEntry]) -> (r: Result<Vec<u8>, IndexError>)
    ensures
        match r {
            Ok(b) => spec_write_index(entries_view(sorted_entries@)) == Ok::<Seq<u8>, IndexError>(b@),
            Err(e) => spec_write_index(entries_view(sorted_entries@)) == Err::<Seq<u8>, IndexError>(e),
        },
{
    let ghost ev = entries_view(sorted_entries@);
    let n_entries: usize = sorted_entries.len();
    assert(ev.len() == n_entries);
    if !validate_entries(sorted_entries) {
        return Err(IndexError::UnsortedEntries);
    }
    let ranges = build_leaf_ranges(sorted_entries)?;
    let ghost rs = ranges_view(ranges@);
    proof {
        lemma_leaf_ranges(ev, 0, 0, PAGE_HEADER_LEN as int);
    }
    let n_leaves = ranges.len();
    let ghost top = upper_levels(leaf_level(ev, rs), n_leaves as nat, n_leaves as nat);
    proof {
        reveal(offsets_fit);
        lemma_upper_count(leaf_level(ev, rs), n_leaves as nat, n_leaves as nat);
        assert(top.1 == index_page_count(ev));
    }
    let mut body: Vec<u8> = Vec::new();
    let mut level: Vec<(Vec<u8>, u64)> = Vec::new();
    let mut j: usize = 0;
    while j < n_leaves
        invariant
            ev == entries_view(sorted_entries@),
            strictly_sorted(ev),
            keys_fit(ev),
            rs == ranges_view(ranges@),
            rs == leaf_ranges(ev),
            n_leaves == rs.len(),
            n_leaves <= sorted_entries.len(),
            n_leaves <= index_page_count(ev),
            ev.len() <= u64::MAX,
            ev.len() > 0 ==> partitions(rs, 0, ev.len() as int),
            j <= n_leaves,
            body@ == leaf_pages_bytes(ev, rs, j as int),
            children_view(level@) == leaf_level(ev, rs).subrange(0, j as int),
            separators_fit(children_view(level@)),
        decreases n_leaves - j,
    {
        let (a, b) = ranges[j];
        assert(rs[j as int] == (a as int, b as int));
        assert(0 <= a < b <= sorted_entries.len()) by {
            lemma_partition_bounds(rs, 0, ev.len() as int, j as int);
        }
        let offset = match checked_page_offset(j as u64) {
            Some(o) => o,
            None => {
                proof {
                    reveal(offsets_fit);
                }
                return Err(IndexError::FileTooLarge);
            },
        };
        let next_leaf: u64 = if j + 1 < n_leaves {
            match checked_page_offset((j + 1) as u64) {
                Some(o) => o,
                None => {
                proof {
                    reveal(offsets_fit);
                }
                return Err(IndexError::FileTooLarge);
            },
            }
        } else {
            0
        };
        let mut page = serialize_leaf_page(sorted_entries, a, b, next_leaf);
        body.append(&mut page);
        let key = copy_bytes(key_bytes(sorted_entries[a].key.as_str()));
        let ghost before = children_view(level@);
        level.push((key, offset));
        proof {
            assert(body@ =~= leaf_pages_bytes(ev, rs, j + 1));
            assert(children_view(level@) =~= before.push((ev[a as int].0, offset)));
            assert(leaf_level(ev, rs).subrange(0, j + 1) =~= leaf_level(ev, rs).subrange(0, j as int).push(leaf_level(ev, rs)[j as int]));
            assert(leaf_entry_size(ev[a as int].0) + PAGE_HEADER_LEN <= PAGE_SIZE);
            let nv = children_view(level@);
            assert forall|i: int| 0 <= i < nv.len() implies #[trigger] nv[i].0.len() + 2 + 8 + PAGE_HEADER_LEN <= PAGE_SIZE by {
                if i < j {
                    assert(nv[i] == before[i]);
                }
            }
        }
        j = j + 1;
    }
    assert(leaf_level(ev, rs).subrange(0, n_leaves as int) =~= leaf_level(ev, rs));
    let mut upper: Vec<u8> = Vec::new();
    let mut count: u64 = n_leaves as u64;
    let ghost mut fuel: nat = n_leaves as nat;
    assert(upper@ + top.0 =~= top.0);
    while level.len() > 1
        invariant
            ev == entries_view(sorted_entries@),
            strictly_sorted(ev),
            keys_fit(ev),
            top.1 == index_page_count(ev),
            ev.len() <= u64::MAX,
            level@.len() <= fuel,
            separators_fit(children_view(level@)),
            upper@ + upper_levels(children_view(level@), count as nat, fuel).0 == top.0,
            upper_levels(children_view(level@), count as nat, fuel).1 == top.1,
            upper_levels(children_view(level@), count as nat, fuel).2 == top.2,
        decreases level.len(),
    {
        let ghost cs = children_view(level@);
        let ghost old_upper = upper@;
        let ghost rs2 = internal_ranges(cs);
        proof {
            lemma_upper_count(parent_level(cs, rs2, count as int), (count + rs2.len()) as nat, (fuel - 1) as nat);
        }
        let next = match build_parent_level(&level, count, &mut upper) {
            Some(v) => v,
            None => {
                proof {
                    reveal(offsets_fit);
                }
                return Err(IndexError::FileTooLarge);
            },
        };
        proof {
            assert(upper@ =~= old_upper + internal_pages_bytes(cs, rs2, rs2.len() as int));
        }
        count = match count.checked_add(next.len() as u64) {
            Some(c) => c,
            None => {
                proof {
                    reveal(offsets_fit);
                }
                return Err(IndexError::FileTooLarge);
            },
        };
        level = next;
        proof {
            fuel = (fuel - 1) as nat;
        }
    }
    let root: u64 = if level.len() == 1 { level[0].1 } else { INDEX_HEADER_LEN as u64 };
    proof {
        assert(upper@ + Seq::<u8>::empty() =~= upper@);
    }
    proof {
        reveal(offsets_fit);
    }
    if checked_page_offset(count).is_none() {
        return Err(IndexError::FileTooLarge);
    }
    let mut out: Vec<u8> = Vec::new();
    write_index_header(&mut out, root, count, sorted_entries.len() as u64);
    out.append(&mut body);
    out.append(&mut upper);
    assert(out@ =~= index_file(ev));
    Ok(out)
}

} // verus!
