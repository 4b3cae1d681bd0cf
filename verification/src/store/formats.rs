//! Constants, records and little-endian integer helpers of the C4DB index
//! (`.c4idx`) and data (`.c4dat`) files.
use vstd::prelude::*;
use vstd::bytes::*;
use vstd::slice::slice_subrange;
use vstd::utf8::valid_utf8;
use vstd::string::StringSliceAdditionalSpecFns;

use super::command_store::CommandRecord;

verus! {

/// First byte of the index file magic `C4I1`.
pub const INDEX_MAGIC: [u8; 4] = [0x43u8, 0x34u8, 0x49u8, 0x31u8];
/// The data file magic `C4D1`.
pub const DATA_MAGIC: [u8; 4] = [0x43u8, 0x34u8, 0x44u8, 0x31u8];
pub const FORMAT_VERSION: u32 = 1;
pub const DEFAULT_PAGE_SIZE: u32 = 4096;
pub const INDEX_HEADER_LEN: usize = 36;
pub const DATA_HEADER_LEN: usize = 16;

/// The index magic as a sequence.
pub open spec fn index_magic() -> Seq<u8> {
    seq![0x43u8, 0x34u8, 0x49u8, 0x31u8]
}

/// The data magic as a sequence.
pub open spec fn data_magic() -> Seq<u8> {
    seq![0x43u8, 0x34u8, 0x44u8, 0x31u8]
}

/// Where a serialized record lives in the data file.
#[derive(Debug, Clone, Copy, PartialEq, Eq, Structural)]
pub struct DataPointer {
    pub offset: u64,
    pub len: u32,
}

/// The fixed header of an index file.
#[derive(Debug, Clone, Copy, PartialEq, Eq, Structural)]
pub struct IndexHeader {
    pub version: u32,
    pub page_size: u32,
    pub root_page_offset: u64,
    pub page_count: u64,
    pub key_count: u64,
}

/// The fixed header of a data file.
#[derive(Debug, Clone, Copy, PartialEq, Eq, Structural)]
pub struct DataHeader {
    pub version: u32,
    pub record_count: u64,
}

/// One key of the index and the record it points to.
#[derive(Debug, Clone)]
pub struct IndexEntry {
    pub key: String,
    pub pointer: DataPointer,
}

/// The reviewed source catalog of command records.
#[derive(Debug, Clone)]
pub struct SourceCommandCatalog {
    pub commands: Vec<CommandRecord>,
}

/// The little-endian value of the two bytes of `s` at `at`.
pub open spec fn u16_at(s: Seq<u8>, at: int) -> int {
    spec_u16_from_le_bytes(s.subrange(at, at + 2)) as int
}

/// The little-endian value of the four bytes of `s` at `at`.
pub open spec fn u32_at(s: Seq<u8>, at: int) -> u32 {
    spec_u32_from_le_bytes(s.subrange(at, at + 4))
}

/// The little-endian value of the eight bytes of `s` at `at`.
pub open spec fn u64_at(s: Seq<u8>, at: int) -> u64 {
    spec_u64_from_le_bytes(s.subrange(at, at + 8))
}

/// Appends `value` in little-endian order.
pub fn write_u32(out: &mut Vec<u8>, value: u32)
    ensures
        final(out)@ == old(out)@ + spec_u32_to_le_bytes(value),
{
    let mut b = u32_to_le_bytes(value);
    out.append(&mut b);
}

/// Appends `value` in little-endian order.
pub fn write_u64(out: &mut Vec<u8>, value: u64)
    ensures
        final(out)@ == old(out)@ + spec_u64_to_le_bytes(value),
{
    let mut b = u64_to_le_bytes(value);
    out.append(&mut b);
}

/// Appends `value` in little-endian order.
pub fn write_u16(out: &mut Vec<u8>, value: u16)
    ensures
        final(out)@ == old(out)@ + spec_u16_to_le_bytes(value),
{
    let mut b = u16_to_le_bytes(value);
    out.append(&mut b);
}

/// Reads a little-endian `u32` at `*cursor` and advances the cursor; fails,
/// leaving the cursor alone, when fewer than four bytes remain.
pub fn read_u32(bytes: &[u8], cursor: &mut usize) -> (r: Option<u32>)
    ensures
        *old(cursor) + 4 <= bytes@.len() ==> r == Some(u32_at(bytes@, *old(cursor) as int))
            && *final(cursor) == *old(cursor) + 4,
        *old(cursor) + 4 > bytes@.len() ==> r is None && *final(cursor) == *old(cursor),
{
    if *cursor > bytes.len() || bytes.len() - *cursor < 4 {
        return None;
    }
    let s = slice_subrange(bytes, *cursor, *cursor + 4);
    let v = u32_from_le_bytes(s);
    *cursor = *cursor + 4;
    Some(v)
}

/// Reads a little-endian `u64` at `*cursor` and advances the cursor; fails,
/// leaving the cursor alone, when fewer than eight bytes remain.
pub fn read_u64(bytes: &[u8], cursor: &mut usize) -> (r: Option<u64>)
    ensures
        *old(cursor) + 8 <= bytes@.len() ==> r == Some(u64_at(bytes@, *old(cursor) as int))
            && *final(cursor) == *old(cursor) + 8,
        *old(cursor) + 8 > bytes@.len() ==> r is None && *final(cursor) == *old(cursor),
{
    if *cursor > bytes.len() || bytes.len() - *cursor < 8 {
        return None;
    }
    let s = slice_subrange(bytes, *cursor, *cursor + 8);
    let v = u64_from_le_bytes(s);
    *cursor = *cursor + 8;
    Some(v)
}

/// The little-endian `u16` at `at`.
pub fn get_u16(bytes: &[u8], at: usize) -> (r: u16)
    requires
        at + 2 <= bytes@.len(),
    ensures
        r as int == u16_at(bytes@, at as int),
{
    let n = bytes.len();
    assert(n == bytes@.len());
    let s = slice_subrange(bytes, at, at + 2);
    u16_from_le_bytes(s)
}

/// The little-endian `u32` at `at`.
pub fn get_u32(bytes: &[u8], at: usize) -> (r: u32)
    requires
        at + 4 <= bytes@.len(),
    ensures
        r == u32_at(bytes@, at as int),
{
    let n = bytes.len();
    assert(n == bytes@.len());
    let s = slice_subrange(bytes, at, at + 4);
    u32_from_le_bytes(s)
}

/// The little-endian `u64` at `at`.
pub fn get_u64(bytes: &[u8], at: usize) -> (r: u64)
    requires
        at + 8 <= bytes@.len(),
    ensures
        r == u64_at(bytes@, at as int),
{
    let n = bytes.len();
    assert(n == bytes@.len());
    let s = slice_subrange(bytes, at, at + 8);
    u64_from_le_bytes(s)
}

/// Lexicographic order of byte strings, the order of `str` keys.
pub open spec fn bytes_lt(a: Seq<u8>, b: Seq<u8>) -> bool
    decreases a.len(),
{
    if a.len() == 0 {
        b.len() > 0
    } else if b.len() == 0 {
        false
    } else if a[0] != b[0] {
        a[0] < b[0]
    } else {
        bytes_lt(a.drop_first(), b.drop_first())
    }
}

/// `prefix` is a prefix of `s`.
pub open spec fn bytes_starts_with(s: Seq<u8>, prefix: Seq<u8>) -> bool {
    prefix.len() <= s.len() && s.subrange(0, prefix.len() as int) == prefix
}

/// Whether `a` sorts strictly before `b`.
pub fn lt_bytes(a: &[u8], b: &[u8]) -> (r: bool)
    ensures
        r == bytes_lt(a@, b@),
{
    let mut i: usize = 0;
    assert(a@.subrange(0, a@.len() as int) =~= a@);
    assert(b@.subrange(0, b@.len() as int) =~= b@);
    while i < a.len() && i < b.len() && a[i] == b[i]
        invariant
            i <= a.len(),
            i <= b.len(),
            bytes_lt(a@, b@) == bytes_lt(a@.subrange(i as int, a@.len() as int), b@.subrange(i as int, b@.len() as int)),
        decreases a.len() - i,
    {
        let ghost sa = a@.subrange(i as int, a@.len() as int);
        let ghost sb = b@.subrange(i as int, b@.len() as int);
        assert(sa.drop_first() =~= a@.subrange(i + 1, a@.len() as int));
        assert(sb.drop_first() =~= b@.subrange(i + 1, b@.len() as int));
        i = i + 1;
    }
    let ghost sa = a@.subrange(i as int, a@.len() as int);
    let ghost sb = b@.subrange(i as int, b@.len() as int);
    if i == a.len() {
        i < b.len()
    } else if i == b.len() {
        false
    } else {
        assert(sa[0] == a@[i as int] && sb[0] == b@[i as int]);
        a[i] < b[i]
    }
}

/// Whether two byte strings are equal.
pub fn eq_bytes(a: &[u8], b: &[u8]) -> (r: bool)
    ensures
        r == (a@ == b@),
{
    if a.len() != b.len() {
        return false;
    }
    let mut i: usize = 0;
    while i < a.len()
        invariant
            a.len() == b.len(),
            i <= a.len(),
            a@.subrange(0, i as int) == b@.subrange(0, i as int),
        decreases a.len() - i,
    {
        if a[i] != b[i] {
            assert(a@[i as int] != b@[i as int]);
            return false;
        }
        assert(a@.subrange(0, i + 1) =~= a@.subrange(0, i as int).push(a@[i as int]));
        assert(b@.subrange(0, i + 1) =~= b@.subrange(0, i as int).push(b@[i as int]));
        i = i + 1;
    }
    assert(a@ =~= a@.subrange(0, a@.len() as int));
    assert(b@ =~= b@.subrange(0, b@.len() as int));
    true
}

/// Whether `prefix` is a prefix of `s`.
pub fn starts_with_bytes(s: &[u8], prefix: &[u8]) -> (r: bool)
    ensures
        r == bytes_starts_with(s@, prefix@),
{
    if prefix.len() > s.len() {
        return false;
    }
    let head = slice_subrange(s, 0, prefix.len());
    eq_bytes(head, prefix)
}

/// Whether `bytes` are well-formed UTF-8, as `std::str::from_utf8` decides.
#[verifier::external_body]
pub(crate) fn is_utf8(bytes: &[u8]) -> (r: bool)
    ensures
        r == valid_utf8(bytes@),
{
    std::str::from_utf8(bytes).is_ok()
}

/// The UTF-8 bytes of `s`.
pub fn key_bytes(s: &str) -> (r: &[u8])
    ensures
        r@ == s.spec_bytes(),
{
    s.as_bytes()
}


/// The order of byte strings is asymmetric.
pub proof fn lemma_bytes_lt_asym(a: Seq<u8>, b: Seq<u8>)
    ensures
        bytes_lt(a, b) ==> !bytes_lt(b, a),
    decreases a.len(),
{
    if a.len() > 0 && b.len() > 0 && a[0] == b[0] {
        lemma_bytes_lt_asym(a.drop_first(), b.drop_first());
    }
}

/// Two different byte strings are ordered one way or the other.
pub proof fn lemma_bytes_lt_total(a: Seq<u8>, b: Seq<u8>)
    ensures
        a != b ==> bytes_lt(a, b) || bytes_lt(b, a),
    decreases a.len(),
{
    if a.len() > 0 && b.len() > 0 && a[0] == b[0] {
        lemma_bytes_lt_total(a.drop_first(), b.drop_first());
        if a.drop_first() == b.drop_first() {
            assert(a =~= seq![a[0]] + a.drop_first());
            assert(b =~= seq![b[0]] + b.drop_first());
        }
    } else if a.len() == 0 && b.len() == 0 {
        assert(a =~= b);
    }
}

} // verus!
