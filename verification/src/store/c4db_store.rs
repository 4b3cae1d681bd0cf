//! The command store read from a C4DB index and data file pair.
//!
//! The data file is a `C4D1` header (version, record count) followed by
//! length-prefixed record blobs. The blobs are decoded outside the library;
//! the store checks their framing, keeps each decoded record beside the
//! pointer of its blob, and answers lookups through the B+ tree index, with
//! a scan of every record's examples when no exact key matches.
use vstd::prelude::*;

use crate::detector;
use crate::detector::{best_match, platform_rank};
use crate::rules;
use crate::rules::build_command_regex;
use crate::store::bplus_tree;
use crate::store::bplus_tree::ReadOnlyBPlusTree;
use crate::store::command_store::{CommandRecord, CommandRecordView, CommandStore, StoreError};
use crate::store::formats;
use crate::store::formats::{get_u32, get_u64, DataHeader, DataPointer, DATA_HEADER_LEN, DATA_MAGIC, FORMAT_VERSION};
use crate::store::normalize;
use crate::store::normalize::{category_prefix, exact_command_key, intent_key};

verus! {

broadcast use vstd::string::group_string_axioms;

/// The header of a data file, or why it is refused.
pub open spec fn spec_data_header(b: Seq<u8>) -> Result<DataHeader, StoreError> {
    if b.len() < DATA_HEADER_LEN {
        Err(StoreError::DataTooSmall)
    } else if b.subrange(0, 4) != formats::data_magic() {
        Err(StoreError::BadDataMagic)
    } else if formats::u32_at(b, 4) != FORMAT_VERSION {
        Err(StoreError::UnsupportedDataVersion(formats::u32_at(b, 4)))
    } else {
        Ok(DataHeader { version: formats::u32_at(b, 4), record_count: formats::u64_at(b, 8) })
    }
}

/// The pointers of the `n` length-prefixed blobs that start at `cursor`.
pub open spec fn spec_frames_from(b: Seq<u8>, cursor: int, n: nat) -> Result<Seq<DataPointer>, StoreError>
    decreases n,
{
    if n == 0 {
        Ok(Seq::empty())
    } else if cursor + 4 > b.len() {
        Err(StoreError::DataEnded)
    } else {
        let len = formats::u32_at(b, cursor);
        let start = cursor + 4;
        if start + len > b.len() {
            Err(StoreError::DataEnded)
        } else {
            match spec_frames_from(b, start + len, (n - 1) as nat) {
                Ok(rest) => Ok(seq![DataPointer { offset: start as u64, len }] + rest),
                Err(e) => Err(e),
            }
        }
    }
}

/// The pointers of every record blob of a data file.
pub open spec fn spec_frames(b: Seq<u8>) -> Result<Seq<DataPointer>, StoreError> {
    match spec_data_header(b) {
        Err(e) => Err(e),
        Ok(h) => spec_frames_from(b, DATA_HEADER_LEN as int, h.record_count as nat),
    }
}

/// The record stored under `pointer`: the first entry with that pointer.
pub open spec fn spec_record_at(entries: Seq<(DataPointer, CommandRecordView)>, pointer: DataPointer) -> Option<CommandRecordView>
    decreases entries.len(),
{
    if entries.len() == 0 {
        None
    } else if entries[0].0 == pointer {
        Some(entries[0].1)
    } else {
        spec_record_at(entries.drop_first(), pointer)
    }
}

/// The record behind an index lookup.
pub open spec fn spec_lookup_result(
    entries: Seq<(DataPointer, CommandRecordView)>,
    found: Result<Option<DataPointer>, bplus_tree::IndexError>,
) -> Result<Option<CommandRecordView>, StoreError> {
    match found {
        Err(e) => Err(StoreError::Index(e)),
        Ok(None) => Ok(None),
        Ok(Some(p)) => match spec_record_at(entries, p) {
            Some(r) => Ok(Some(r)),
            None => Err(StoreError::UnknownRecord),
        },
    }
}

/// The records behind a list of pointers, in order.
pub open spec fn spec_records_at(entries: Seq<(DataPointer, CommandRecordView)>, pointers: Seq<DataPointer>)
    -> Result<Seq<CommandRecordView>, StoreError>
    decreases pointers.len(),
{
    if pointers.len() == 0 {
        Ok(Seq::empty())
    } else {
        match spec_records_at(entries, pointers.drop_last()) {
            Err(e) => Err(e),
            Ok(v) => match spec_record_at(entries, pointers.last()) {
                Some(r) => Ok(v.push(r)),
                None => Err(StoreError::UnknownRecord),
            },
        }
    }
}

/// The record whose best example match is best over all records, the
/// earliest among equals, with the key of that match.
pub open spec fn spec_scan(input: Seq<char>, entries: Seq<(DataPointer, CommandRecordView)>) -> Option<((bool, u8), CommandRecordView)>
    decreases entries.len(),
{
    if entries.len() == 0 {
        None
    } else {
        let b = spec_scan(input, entries.drop_last());
        match detector::spec_best_match(input, entries.last().1.commands) {
            Some(c) => {
                let current = match b {
                    Some(x) => Some(x.0),
                    None => None,
                };
                if detector::spec_is_better(current, detector::candidate_key(c)) {
                    Some((detector::candidate_key(c), entries.last().1))
                } else {
                    b
                }
            },
            None => b,
        }
    }
}

/// The UTF-8 bytes of a key.
pub open spec fn key_of(s: Seq<char>) -> Seq<u8> {
    vstd::utf8::encode_utf8(s)
}

/// A command store backed by a C4DB index and its data file.
#[derive(Debug)]
pub struct C4DbCommandStore {
    index: ReadOnlyBPlusTree,
    data_bytes: Vec<u8>,
    data_header: DataHeader,
    records: Vec<(DataPointer, CommandRecord)>,
}

/// Parses and checks the header of a data file.
pub fn parse_data_header(bytes: &[u8]) -> (r: Result<DataHeader, StoreError>)
    ensures
        r == spec_data_header(bytes@),
{
    let n = bytes.len();
    if n < DATA_HEADER_LEN {
        return Err(StoreError::DataTooSmall);
    }
    if bytes[0] != DATA_MAGIC[0] || bytes[1] != DATA_MAGIC[1] || bytes[2] != DATA_MAGIC[2] || bytes[3]
        != DATA_MAGIC[3] {
        assert(bytes@.subrange(0, 4) != formats::data_magic()) by {
            if bytes@.subrange(0, 4) == formats::data_magic() {
                assert(bytes@.subrange(0, 4)[0] == bytes@[0]);
                assert(bytes@.subrange(0, 4)[1] == bytes@[1]);
                assert(bytes@.subrange(0, 4)[2] == bytes@[2]);
                assert(bytes@.subrange(0, 4)[3] == bytes@[3]);
            }
        }
        return Err(StoreError::BadDataMagic);
    }
    assert(bytes@.subrange(0, 4) =~= formats::data_magic());
    let version = get_u32(bytes, 4);
    let record_count = get_u64(bytes, 8);
    if version != FORMAT_VERSION {
        return Err(StoreError::UnsupportedDataVersion(version));
    }
    Ok(DataHeader { version, record_count })
}

/// The pointers of every record blob of a data file, in file order.
pub fn frame_records(bytes: &[u8]) -> (r: Result<Vec<DataPointer>, StoreError>)
    ensures
        match r {
            Ok(v) => spec_frames(bytes@) == Ok::<Seq<DataPointer>, StoreError>(v@),
            Err(e) => spec_frames(bytes@) == Err::<Seq<DataPointer>, StoreError>(e),
        },
{
    let header = match parse_data_header(bytes) {
        Ok(h) => h,
        Err(e) => return Err(e),
    };
    let n = bytes.len();
    let count = header.record_count;
    let mut out: Vec<DataPointer> = Vec::new();
    let mut cursor: usize = DATA_HEADER_LEN;
    let mut k: u64 = 0;
    while k < count
        invariant
            n == bytes@.len(),
            k <= count,
            cursor <= n,
            count == header.record_count,
            spec_data_header(bytes@) == Ok::<DataHeader, StoreError>(header),
            spec_frames(bytes@) == match spec_frames_from(bytes@, cursor as int, (count - k) as nat) {
                Ok(rest) => Ok::<Seq<DataPointer>, StoreError>(out@ + rest),
                Err(e) => Err(e),
            },
        decreases count - k,
    {
        let ghost rest_n: nat = (count - k) as nat;
        if n - cursor < 4 {
            return Err(StoreError::DataEnded);
        }
        let len = get_u32(bytes, cursor);
        let start = cursor + 4;
        if ((n - start) as u64) < (len as u64) {
            return Err(StoreError::DataEnded);
        }
        let p = DataPointer { offset: start as u64, len };
        proof {
            assert(rest_n > 0);
            assert((rest_n - 1) as nat == (count - (k + 1)) as nat);
            match spec_frames_from(bytes@, start + len, (rest_n - 1) as nat) {
                Ok(rest) => {
                    assert(out@.push(p) + rest =~= out@ + (seq![p] + rest));
                },
                Err(e) => {},
            }
        }
        out.push(p);
        cursor = start + (len as usize);
        k = k + 1;
    }
    assert(out@ + Seq::<DataPointer>::empty() =~= out@);
    Ok(out)
}

/// Whether every example of `record` compiles to a valid pattern.
pub fn record_examples_valid(record: &CommandRecord) -> (r: bool)
    ensures
        r == rules::examples_valid(record@),
{
    let ghost table = record.table();
    let mut i: usize = 0;
    while i < record.commands.len()
        invariant
            i <= record.commands@.len(),
            table == record.table(),
            table == record@.commands,
            forall|a: int, b: int|
                0 <= a < i && 0 <= b < table[a].1.len() ==> rules::regex_accepts(
                    #[trigger] rules::spec_command_pattern(table[a].1[b]),
                ),
        decreases record.commands.len() - i,
    {
        let examples = &record.commands[i].1;
        assert(table[i as int].1 == crate::text::views(examples@));
        let mut j: usize = 0;
        while j < examples.len()
            invariant
                i < record.commands@.len(),
                j <= examples@.len(),
                table == record.table(),
                table == record@.commands,
                table[i as int].1 == crate::text::views(examples@),
                forall|a: int, b: int|
                    0 <= a < i && 0 <= b < table[a].1.len() ==> rules::regex_accepts(
                        #[trigger] rules::spec_command_pattern(table[a].1[b]),
                    ),
                forall|b: int| 0 <= b < j ==> rules::regex_accepts(#[trigger] rules::spec_command_pattern(table[i as int].1[b])),
            decreases examples.len() - j,
        {
            assert(table[i as int].1[j as int] == examples@[j as int]@);
            match build_command_regex(examples[j].as_str()) {
                Ok(_) => {},
                Err(_) => {
                    return false;
                },
            }
            j = j + 1;
        }
        i = i + 1;
    }
    true
}

impl C4DbCommandStore {
    #[verifier::type_invariant]
    spec fn inv(&self) -> bool {
        forall|k: int| 0 <= k < self.records@.len() ==> rules::examples_valid(#[trigger] self.records@[k].1@)
    }

    /// The index file.
    pub closed spec fn index_bytes(&self) -> Seq<u8> {
        self.index.bytes()
    }

    /// The header of the index file.
    pub closed spec fn index_header(&self) -> formats::IndexHeader {
        self.index.header()
    }

    /// The data file.
    pub closed spec fn data(&self) -> Seq<u8> {
        self.data_bytes@
    }

    /// Each record blob's pointer with its decoded record, in file order.
    pub closed spec fn entries(&self) -> Seq<(DataPointer, CommandRecordView)> {
        self.records@.map_values(|e: (DataPointer, CommandRecord)| (e.0, e.1@))
    }

    /// The store answers from the index file `index` and the data file
    /// `data`, and holds each of `recs` beside the pointer of its blob.
    pub open spec fn opened_from(&self, index: Seq<u8>, data: Seq<u8>, recs: Seq<CommandRecordView>) -> bool {
        &&& self.index_bytes() == index
        &&& self.data() == data
        &&& bplus_tree::spec_index_header(index) == Ok::<formats::IndexHeader, bplus_tree::IndexError>(self.index_header())
        &&& spec_frames(data) matches Ok(ptrs)
        &&& ptrs.len() == recs.len()
        &&& self.entries().len() == recs.len()
        &&& forall|k: int| 0 <= k < recs.len() ==> #[trigger] self.entries()[k] == (ptrs[k], recs[k])
    }

    /// A store over an index file, a data file, and the records decoded from
    /// the data file's blobs in file order. Refused when a file is malformed,
    /// when the number of records differs from the number of blobs, or when a
    /// record holds an example command that does not compile.
    pub fn from_parts(index_bytes: Vec<u8>, data_bytes: Vec<u8>, records: Vec<CommandRecord>) -> (r: Result<C4DbCommandStore, StoreError>)
        requires
            forall|k: int| 0 <= k < records@.len() ==> crate::store::command_store::platforms_unique(#[trigger] records@[k]@.commands),
        ensures
            match r {
                Ok(s) => s.opened_from(index_bytes@, data_bytes@, records@.map_values(|c: CommandRecord| c@))
                    && (forall|k: int| 0 <= k < records@.len() ==> rules::examples_valid(#[trigger] records@[k]@)),
                Err(e) => match bplus_tree::spec_index_header(index_bytes@) {
                    Err(ie) => e == StoreError::Index(ie),
                    Ok(_) => match spec_frames(data_bytes@) {
                        Err(de) => e == de,
                        Ok(ptrs) => if ptrs.len() != records@.len() {
                            e == StoreError::RecordCountMismatch
                        } else {
                            e == StoreError::InvalidExample && exists|k: int| 0 <= k < records@.len() && !rules::examples_valid(#[trigger] records@[k]@)
                        },
                    },
                },
            },
    {
        let index = match ReadOnlyBPlusTree::from_bytes(index_bytes) {
            Ok(t) => t,
            Err(e) => return Err(StoreError::Index(e)),
        };
        let pointers = match frame_records(data_bytes.as_slice()) {
            Ok(v) => v,
            Err(e) => return Err(e),
        };
        if pointers.len() != records.len() {
            return Err(StoreError::RecordCountMismatch);
        }
        let header = match parse_data_header(data_bytes.as_slice()) {
            Ok(h) => h,
            Err(e) => return Err(e),
        };
        let ghost recs = records@;
        let mut k: usize = 0;
        while k < records.len()
            invariant
                k <= records@.len(),
                pointers@.len() == records@.len(),
                spec_frames(data_bytes@) == Ok::<Seq<DataPointer>, StoreError>(pointers@),
                bplus_tree::spec_index_header(index_bytes@) is Ok,
                forall|a: int| 0 <= a < k ==> rules::examples_valid(#[trigger] records@[a]@),
            decreases records.len() - k,
        {
            if !record_examples_valid(&records[k]) {
                assert(!rules::examples_valid(records@[k as int]@));
                return Err(StoreError::InvalidExample);
            }
            k = k + 1;
        }
        let mut entries: Vec<(DataPointer, CommandRecord)> = Vec::new();
        let mut k: usize = 0;
        while k < records.len()
            invariant
                k <= records@.len(),
                pointers@.len() == records@.len(),
                entries@.len() == k,
                forall|a: int| 0 <= a < records@.len() ==> rules::examples_valid(#[trigger] records@[a]@),
                forall|a: int| 0 <= a < k ==> (#[trigger] entries@[a]).0 == pointers@[a] && entries@[a].1@ == records@[a]@,
            decreases records.len() - k,
        {
            let rec = records[k].duplicate();
            entries.push((pointers[k], rec));
            k = k + 1;
        }
        let store = C4DbCommandStore { index, data_bytes, data_header: header, records: entries };
        let ghost rv = records@.map_values(|c: CommandRecord| c@);
        assert(forall|a: int| 0 <= a < records@.len() ==> #[trigger] store.entries()[a] == (pointers@[a], rv[a]));
        Ok(store)
    }
}


impl C4DbCommandStore {
    /// The record stored under `pointer`.
    fn read_record(&self, pointer: DataPointer) -> (r: Result<CommandRecord, StoreError>)
        ensures
            match r {
                Ok(rec) => spec_record_at(self.entries(), pointer) == Some(rec@) && rules::examples_valid(rec@),
                Err(e) => spec_record_at(self.entries(), pointer) == None::<CommandRecordView> && e == StoreError::UnknownRecord,
            },
    {
        proof {
            use_type_invariant(self);
        }
        let ghost es = self.entries();
        let mut i: usize = 0;
        assert(es.subrange(0, es.len() as int) =~= es);
        while i < self.records.len()
            invariant
                i <= self.records@.len(),
                es == self.entries(),
                es.len() == self.records@.len(),
                spec_record_at(es, pointer) == spec_record_at(es.subrange(i as int, es.len() as int), pointer),
                forall|k: int| 0 <= k < self.records@.len() ==> rules::examples_valid(#[trigger] self.records@[k].1@),
            decreases self.records.len() - i,
        {
            let ghost rest = es.subrange(i as int, es.len() as int);
            assert(rest.drop_first() =~= es.subrange(i + 1, es.len() as int));
            assert(rest[0] == es[i as int]);
            if self.records[i].0 == pointer {
                return Ok(self.records[i].1.duplicate());
            }
            i = i + 1;
        }
        Err(StoreError::UnknownRecord)
    }

    fn lookup_pointer(&self, found: Result<Option<DataPointer>, bplus_tree::IndexError>) -> (r: Result<Option<CommandRecord>, StoreError>)
        ensures
            match r {
                Ok(Some(rec)) => spec_lookup_result(self.entries(), found) == Ok::<Option<CommandRecordView>, StoreError>(Some(rec@))
                    && rules::examples_valid(rec@),
                Ok(None) => spec_lookup_result(self.entries(), found) == Ok::<Option<CommandRecordView>, StoreError>(None),
                Err(e) => spec_lookup_result(self.entries(), found) == Err::<Option<CommandRecordView>, StoreError>(e),
            },
    {
        match found {
            Err(e) => Err(StoreError::Index(e)),
            Ok(None) => Ok(None),
            Ok(Some(p)) => match self.read_record(p) {
                Ok(rec) => Ok(Some(rec)),
                Err(e) => Err(e),
            },
        }
    }

    /// The record whose examples match `command` best, over all records.
    fn scan_records(&self, command: &str) -> (r: Option<CommandRecord>)
        ensures
            match r {
                Some(rec) => spec_scan(command@, self.entries()) matches Some(x) && x.1 == rec@ && rules::examples_valid(rec@),
                None => spec_scan(command@, self.entries()) == None::<((bool, u8), CommandRecordView)>,
            },
    {
        proof {
            use_type_invariant(self);
        }
        let ghost es = self.entries();
        let mut best: Option<usize> = None;
        let mut best_full = false;
        let mut best_rank: u8 = 0;
        let mut i: usize = 0;
        while i < self.records.len()
            invariant
                i <= self.records@.len(),
                es == self.entries(),
                es.len() == self.records@.len(),
                forall|k: int| 0 <= k < self.records@.len() ==> rules::examples_valid(#[trigger] self.records@[k].1@),
                match best {
                    Some(k) => k < i && spec_scan(command@, es.subrange(0, i as int)) == Some(((best_full, best_rank), es[k as int].1)),
                    None => spec_scan(command@, es.subrange(0, i as int)) == None::<((bool, u8), CommandRecordView)>,
                },
            decreases self.records.len() - i,
        {
            proof {
                assert(es.subrange(0, i + 1).drop_last() =~= es.subrange(0, i as int));
                assert(es.subrange(0, i + 1).last() == es[i as int]);
                assert(es[i as int].1.commands == self.records@[i as int].1.table());
            }
            let record = &self.records[i].1;
            match best_match(command, record) {
                Some(m) => {
                    let full = m.2;
                    let rank = platform_rank(record.commands[m.0].0.as_str());
                    let replace = match best {
                        None => true,
                        Some(_) => (full && !best_full) || (full == best_full && rank < best_rank),
                    };
                    if replace {
                        best = Some(i);
                        best_full = full;
                        best_rank = rank;
                    }
                },
                None => {},
            }
            i = i + 1;
        }
        assert(es.subrange(0, es.len() as int) =~= es);
        match best {
            Some(k) => Some(self.records[k].1.duplicate()),
            None => None,
        }
    }
}

impl CommandStore for C4DbCommandStore {
    open spec fn command_lookup(&self, command: Seq<char>) -> Result<Option<CommandRecordView>, StoreError> {
        let found = bplus_tree::tree_get(self.index_bytes(), self.index_header(), key_of(normalize::spec_exact_command_key(command)));
        match found {
            Ok(None) => match spec_scan(command, self.entries()) {
                Some(x) => Ok(Some(x.1)),
                None => Ok(None),
            },
            _ => spec_lookup_result(self.entries(), found),
        }
    }

    open spec fn intent_lookup(&self, intent: Seq<char>) -> Result<Option<CommandRecordView>, StoreError> {
        spec_lookup_result(
            self.entries(),
            bplus_tree::tree_get(self.index_bytes(), self.index_header(), key_of(normalize::spec_intent_key(intent))),
        )
    }

    open spec fn category_listing(&self, category: Seq<char>) -> Result<Seq<CommandRecordView>, StoreError> {
        match bplus_tree::tree_scan_prefix(self.index_bytes(), self.index_header(), key_of(normalize::spec_category_prefix(category))) {
            Err(e) => Err(StoreError::Index(e)),
            Ok(ptrs) => spec_records_at(self.entries(), ptrs),
        }
    }

    fn find_by_command(&self, command: &str) -> (r: Result<Option<CommandRecord>, StoreError>) {
        let key = exact_command_key(command);
        let found = self.index.get(key.as_str());
        match found {
            Ok(None) => Ok(self.scan_records(command)),
            _ => self.lookup_pointer(found),
        }
    }

    fn find_by_intent(&self, intent: &str) -> (r: Result<Option<CommandRecord>, StoreError>) {
        let key = intent_key(intent);
        let found = self.index.get(key.as_str());
        self.lookup_pointer(found)
    }

    fn list_by_category(&self, category: &str) -> (r: Result<Vec<CommandRecord>, StoreError>) {
        let prefix = category_prefix(category);
        let pointers = match self.index.scan_prefix(prefix.as_str()) {
            Ok(v) => v,
            Err(e) => return Err(StoreError::Index(e)),
        };
        let ghost es = self.entries();
        let mut out: Vec<CommandRecord> = Vec::new();
        let mut i: usize = 0;
        assert(pointers@.subrange(0, 0) =~= Seq::<DataPointer>::empty());
        assert(out@.map_values(|c: CommandRecord| c@) =~= Seq::<CommandRecordView>::empty());
        while i < pointers.len()
            invariant
                i <= pointers@.len(),
                es == self.entries(),
                bplus_tree::tree_scan_prefix(self.index_bytes(), self.index_header(), key_of(normalize::spec_category_prefix(category@)))
                    == Ok::<Seq<DataPointer>, bplus_tree::IndexError>(pointers@),
                spec_records_at(es, pointers@.subrange(0, i as int)) == Ok::<Seq<CommandRecordView>, StoreError>(
                    out@.map_values(|c: CommandRecord| c@),
                ),
            decreases pointers.len() - i,
        {
            proof {
                assert(pointers@.subrange(0, i + 1).drop_last() =~= pointers@.subrange(0, i as int));
                assert(pointers@.subrange(0, i + 1).last() == pointers@[i as int]);
            }
            match self.read_record(pointers[i]) {
                Ok(rec) => {
                    let ghost before = out@.map_values(|c: CommandRecord| c@);
                    out.push(rec);
                    assert(out@.map_values(|c: CommandRecord| c@) =~= before.push(rec@));
                },
                Err(e) => {
                    proof {
                        lemma_records_at_fails(es, pointers@, i as int);
                    }
                    return Err(e);
                },
            }
            i = i + 1;
        }
        assert(pointers@.subrange(0, pointers@.len() as int) =~= pointers@);
        Ok(out)
    }
}

proof fn lemma_records_at_fails(entries: Seq<(DataPointer, CommandRecordView)>, pointers: Seq<DataPointer>, i: int)
    requires
        0 <= i < pointers.len(),
        spec_records_at(entries, pointers.subrange(0, i)) is Ok,
        spec_record_at(entries, pointers[i]) is None,
    ensures
        spec_records_at(entries, pointers) == Err::<Seq<CommandRecordView>, StoreError>(StoreError::UnknownRecord),
    decreases pointers.len() - i,
{
    if i + 1 == pointers.len() {
        assert(pointers.drop_last() =~= pointers.subrange(0, i));
    } else {
        assert(pointers.drop_last().subrange(0, i) =~= pointers.subrange(0, i));
        lemma_records_at_fails(entries, pointers.drop_last(), i);
    }
}

} // verus!
