//! Building a C4DB index and data file pair from reviewed command records.
//!
//! Records are validated and ordered by intent; their serialized blobs are
//! framed into the data file, and every lookup key (intent, category and
//! each example command) is entered into a sorted, collision-free list of
//! index entries from which the B+ tree is written.
use vstd::prelude::*;
use vstd::bytes::*;

use crate::rules;
use crate::rules::build_command_regex;
use crate::store::bplus_tree;
use crate::store::bplus_tree::build_index_bytes;
use crate::store::c4db_store;
use crate::store::command_store::{CommandRecord, CommandRecordView};
use crate::store::formats;
use crate::store::formats::{eq_bytes, key_bytes, lt_bytes, write_u32, write_u64, DataPointer, IndexEntry, DATA_HEADER_LEN, DATA_MAGIC, FORMAT_VERSION};
use crate::store::normalize;
use crate::store::normalize::{category_key, exact_command_key, intent_key};
use crate::text;
use crate::text::trim_str;

verus! {

broadcast use vstd::string::group_string_axioms;

/// Why the files could not be built.
#[derive(Debug, Clone)]
pub enum BuildError {
    /// A record's intent is empty or blank.
    EmptyIntent,
    /// The record of this intent has a blank category.
    EmptyCategory(String),
    /// The record of this intent lists no platform.
    NoPlatforms(String),
    /// The record of this intent lists a platform without examples.
    NoExamples { intent: String, platform: String },
    /// An example command does not give a valid pattern.
    InvalidExample { intent: String, platform: String, command: String },
    /// A serialized record does not fit its `u32` length prefix.
    BlobTooLarge,
    /// Two records claim this key for different data.
    KeyCollision(String),
    /// The index writer refused the entries.
    Index(bplus_tree::IndexError),
    /// The number of serialized records differs from the number of records.
    BlobCountMismatch,
}

/// What the builder demands of one record: a non-blank intent and category,
/// at least one platform, at least one example per platform, and examples
/// that compile.
pub open spec fn record_ok(rec: CommandRecordView) -> bool {
    &&& text::trim(rec.intent).len() > 0
    &&& text::trim(rec.category).len() > 0
    &&& rec.commands.len() > 0
    &&& forall|i: int| 0 <= i < rec.commands.len() ==> (#[trigger] rec.commands[i]).1.len() > 0
    &&& rules::examples_valid(rec)
}

/// The platforms before `k` each list examples, and all of them compile.
pub open spec fn platforms_ok_before(rec: CommandRecordView, k: int) -> bool {
    forall|a: int, b: int|
        0 <= a < k && 0 <= b < rec.commands[a].1.len() ==> rules::regex_accepts(
            #[trigger] rules::spec_command_pattern(rec.commands[a].1[b]),
        ) && rec.commands[a].1.len() > 0
}

/// The intent and category are not blank and some platform is listed.
pub open spec fn record_head_ok(rec: CommandRecordView) -> bool {
    &&& text::trim(rec.intent).len() > 0
    &&& text::trim(rec.category).len() > 0
    &&& rec.commands.len() > 0
}

/// The error `validate_record` gives for a record: the first failing check,
/// in the order intent, category, platforms, then each platform's examples
/// in table order.
pub open spec fn validation_error(rec: CommandRecordView, r: Result<(), BuildError>) -> bool {
    match r {
        Ok(_) => true,
        Err(BuildError::EmptyIntent) => text::trim(rec.intent).len() == 0,
        Err(BuildError::EmptyCategory(i)) => text::trim(rec.intent).len() > 0
            && text::trim(rec.category).len() == 0 && i@ == rec.intent,
        Err(BuildError::NoPlatforms(i)) => text::trim(rec.intent).len() > 0
            && text::trim(rec.category).len() > 0 && rec.commands.len() == 0 && i@ == rec.intent,
        Err(BuildError::NoExamples { intent, platform }) => record_head_ok(rec) && intent@ == rec.intent
            && exists|k: int| 0 <= k < rec.commands.len() && platforms_ok_before(rec, k)
                && (#[trigger] rec.commands[k]).1.len() == 0 && rec.commands[k].0 == platform@,
        Err(BuildError::InvalidExample { intent, platform, command }) => record_head_ok(rec)
            && intent@ == rec.intent && exists|k: int, j: int|
            0 <= k < rec.commands.len() && platforms_ok_before(rec, k)
                && rec.commands[k].0 == platform@ && 0 <= j < rec.commands[k].1.len()
                && (#[trigger] rec.commands[k].1[j]) == command@
                && !rules::regex_accepts(rules::spec_command_pattern(command@))
                && forall|b: int| 0 <= b < j ==> rules::regex_accepts(
                    #[trigger] rules::spec_command_pattern(rec.commands[k].1[b]),
                ),
        Err(_) => false,
    }
}

/// Checks one record; the error is the one `validation_error` names.
pub fn validate_record(record: &CommandRecord) -> (r: Result<(), BuildError>)
    ensures
        r is Ok <==> record_ok(record@),
        validation_error(record@, r),
{
    let intent = trim_str(record.intent.as_str());
    if intent.unicode_len() == 0 {
        return Err(BuildError::EmptyIntent);
    }
    let category = trim_str(record.category.as_str());
    if category.unicode_len() == 0 {
        return Err(BuildError::EmptyCategory(record.intent.clone()));
    }
    if record.commands.len() == 0 {
        return Err(BuildError::NoPlatforms(record.intent.clone()));
    }
    let ghost table = record.table();
    assert(record_head_ok(record@));
    let mut i: usize = 0;
    while i < record.commands.len()
        invariant
            record_head_ok(record@),
            i <= record.commands@.len(),
            table == record.table(),
            table == record@.commands,
            forall|a: int| 0 <= a < i ==> (#[trigger] table[a]).1.len() > 0,
            forall|a: int, b: int|
                0 <= a < i && 0 <= b < table[a].1.len() ==> rules::regex_accepts(
                    #[trigger] rules::spec_command_pattern(table[a].1[b]),
                ),
        decreases record.commands.len() - i,
    {
        let examples = &record.commands[i].1;
        assert(table[i as int].1 == text::views(examples@));
        proof {
            assert(platforms_ok_before(record@, i as int));
            assert(record@.commands[i as int].0 == record.commands@[i as int].0@);
        }
        if examples.len() == 0 {
            return Err(BuildError::NoExamples { intent: record.intent.clone(), platform: record.commands[i].0.clone() });
        }
        let mut j: usize = 0;
        while j < examples.len()
            invariant
                record_head_ok(record@),
                i < record.commands@.len(),
                j <= examples@.len(),
                table == record.table(),
                table == record@.commands,
                table[i as int].1 == text::views(examples@),
                forall|a: int| 0 <= a < i ==> (#[trigger] table[a]).1.len() > 0,
                forall|a: int, b: int|
                    0 <= a < i && 0 <= b < table[a].1.len() ==> rules::regex_accepts(
                        #[trigger] rules::spec_command_pattern(table[a].1[b]),
                    ),
                forall|b: int| 0 <= b < j ==> rules::regex_accepts(#[trigger] rules::spec_command_pattern(table[i as int].1[b])),
            decreases examples.len() - j,
        {
            assert(table[i as int].1[j as int] == examples@[j as int]@);
            match build_command_regex(examples[j].as_str()) {
                Ok(_) => {},
                Err(_) => {
                    proof {
                        assert(record@.commands[i as int].1[j as int] == examples@[j as int]@);
                    }
                    return Err(BuildError::InvalidExample {
                        intent: record.intent.clone(),
                        platform: record.commands[i].0.clone(),
                        command: examples[j].clone(),
                    });
                },
            }
            j = j + 1;
        }
        i = i + 1;
    }
    Ok(())
}

/// The UTF-8 bytes of a record's intent, by which records are ordered.
pub open spec fn intent_bytes(rec: CommandRecordView) -> Seq<u8> {
    vstd::utf8::encode_utf8(rec.intent)
}

/// Records in non-decreasing order of intent.
pub open spec fn sorted_by_intent(s: Seq<CommandRecordView>) -> bool {
    forall|i: int, j: int|
        0 <= i && i + 1 == j && j < s.len() ==> !formats::bytes_lt(intent_bytes(#[trigger] s[j]), intent_bytes(#[trigger] s[i]))
}

/// `rec` placed into `s` before the first record whose intent sorts after
/// its own.
pub open spec fn insert_by_intent(s: Seq<CommandRecordView>, rec: CommandRecordView) -> Seq<CommandRecordView>
    decreases s.len(),
{
    if s.len() == 0 {
        seq![rec]
    } else if formats::bytes_lt(intent_bytes(rec), intent_bytes(s[0])) {
        seq![rec] + s
    } else {
        seq![s[0]] + insert_by_intent(s.drop_first(), rec)
    }
}

/// The records in intent order; records with equal intents keep their order.
pub open spec fn sort_by_intent(s: Seq<CommandRecordView>) -> Seq<CommandRecordView>
    decreases s.len(),
{
    if s.len() == 0 {
        Seq::empty()
    } else {
        insert_by_intent(sort_by_intent(s.drop_last()), s.last())
    }
}

proof fn lemma_insert_by_intent_at(s: Seq<CommandRecordView>, rec: CommandRecordView, pos: int)
    requires
        0 <= pos <= s.len(),
        forall|a: int| 0 <= a < pos ==> !formats::bytes_lt(intent_bytes(rec), intent_bytes(#[trigger] s[a])),
        pos < s.len() ==> formats::bytes_lt(intent_bytes(rec), intent_bytes(s[pos])),
    ensures
        insert_by_intent(s, rec) == s.insert(pos, rec),
    decreases pos,
{
    if s.len() == 0 {
        assert(s.insert(pos, rec) =~= seq![rec]);
    } else if pos == 0 {
        assert(s.insert(0, rec) =~= seq![rec] + s);
    } else {
        let rest = s.drop_first();
        assert forall|a: int| 0 <= a < pos - 1 implies !formats::bytes_lt(intent_bytes(rec), intent_bytes(#[trigger] rest[a])) by {
            assert(rest[a] == s[a + 1]);
        }
        if pos < s.len() {
            assert(rest[pos - 1] == s[pos]);
        }
        lemma_insert_by_intent_at(rest, rec, pos - 1);
        assert(s.insert(pos, rec) =~= seq![s[0]] + rest.insert(pos - 1, rec));
    }
}

/// The records ordered by intent; records with equal intents keep their order.
pub fn sort_records(records: &Vec<CommandRecord>) -> (r: Vec<CommandRecord>)
    ensures
        sorted_by_intent(r@.map_values(|c: CommandRecord| c@)),
        r@.map_values(|c: CommandRecord| c@).to_multiset() == records@.map_values(|c: CommandRecord| c@).to_multiset(),
        r@.map_values(|c: CommandRecord| c@) == sort_by_intent(records@.map_values(|c: CommandRecord| c@)),
{
    broadcast use vstd::seq_lib::group_to_multiset_ensures;
    let ghost input = records@.map_values(|c: CommandRecord| c@);
    let mut out: Vec<CommandRecord> = Vec::new();
    let mut i: usize = 0;
    while i < records.len()
        invariant
            i <= records@.len(),
            input == records@.map_values(|c: CommandRecord| c@),
            sorted_by_intent(out@.map_values(|c: CommandRecord| c@)),
            out@.map_values(|c: CommandRecord| c@).to_multiset() == input.subrange(0, i as int).to_multiset(),
            out@.map_values(|c: CommandRecord| c@) == sort_by_intent(input.subrange(0, i as int)),
        decreases records.len() - i,
    {
        let rec = records[i].duplicate();
        let key = key_bytes(rec.intent.as_str());
        let ghost os = out@.map_values(|c: CommandRecord| c@);
        let mut pos: usize = 0;
        let mut done = false;
        while !done && pos < out.len()
            invariant
                pos <= out@.len(),
                os == out@.map_values(|c: CommandRecord| c@),
                key@ == intent_bytes(rec@),
                done ==> pos < out@.len() && formats::bytes_lt(key@, intent_bytes(os[pos as int])),
                forall|a: int| 0 <= a < pos ==> !formats::bytes_lt(key@, intent_bytes(#[trigger] os[a])),
            decreases out.len() - pos + (if done { 0int } else { 1int }),
        {
            if lt_bytes(key, key_bytes(out[pos].intent.as_str())) {
                done = true;
            } else {
                pos = pos + 1;
            }
        }
        proof {
            if pos < os.len() {
                formats::lemma_bytes_lt_asym(key@, intent_bytes(os[pos as int]));
            }
        }
        out.insert(pos, rec);
        proof {
            let ns = out@.map_values(|c: CommandRecord| c@);
            assert(ns =~= os.insert(pos as int, rec@));
            assert(input.subrange(0, i + 1) =~= input.subrange(0, i as int).push(input[i as int]));
            vstd::seq_lib::to_multiset_insert(os, pos as int, rec@);
            lemma_insert_by_intent_at(os, rec@, pos as int);
            assert(input.subrange(0, i + 1).drop_last() =~= input.subrange(0, i as int));
            vstd::seq_lib::to_multiset_build(input.subrange(0, i as int), input[i as int]);
            assert forall|a: int, b: int| 0 <= a && a + 1 == b && b < ns.len() implies !formats::bytes_lt(
                intent_bytes(#[trigger] ns[b]),
                intent_bytes(#[trigger] ns[a]),
            ) by {
                if a + 1 < pos {
                    assert(ns[a] == os[a] && ns[a + 1] == os[a + 1]);
                } else if a + 1 == pos {
                    assert(ns[a] == os[a]);
                    assert(ns[a + 1] == rec@);
                    assert(!formats::bytes_lt(key@, intent_bytes(os[a])));
                } else if a == pos {
                    assert(ns[a] == rec@);
                    assert(ns[a + 1] == os[a]);
                    assert(done);
                    assert(formats::bytes_lt(key@, intent_bytes(os[a])));
                } else {
                    assert(ns[a] == os[a - 1] && ns[a + 1] == os[a]);
                }
            }
        }
        i = i + 1;
    }
    assert(input.subrange(0, input.len() as int) =~= input);
    out
}


/// Every blob fits the `u32` length prefix.
pub open spec fn blobs_fit(blobs: Seq<Seq<u8>>) -> bool {
    forall|k: int| 0 <= k < blobs.len() ==> (#[trigger] blobs[k]).len() <= u32::MAX
}

/// The framed blobs: each blob preceded by its length as little-endian `u32`.
pub open spec fn framed_blobs(blobs: Seq<Seq<u8>>) -> Seq<u8>
    decreases blobs.len(),
{
    if blobs.len() == 0 {
        Seq::empty()
    } else {
        spec_u32_to_le_bytes(blobs[0].len() as u32) + blobs[0] + framed_blobs(blobs.drop_first())
    }
}

/// The pointers of the framed blobs when the first length prefix is at `at`.
pub open spec fn blob_pointers(blobs: Seq<Seq<u8>>, at: int) -> Seq<DataPointer>
    decreases blobs.len(),
{
    if blobs.len() == 0 {
        Seq::empty()
    } else {
        seq![DataPointer { offset: (at + 4) as u64, len: blobs[0].len() as u32 }] + blob_pointers(
            blobs.drop_first(),
            at + 4 + blobs[0].len(),
        )
    }
}

/// The data file holding `blobs`: magic, version, record count, framed blobs.
pub open spec fn spec_data_file(blobs: Seq<Seq<u8>>) -> Seq<u8> {
    formats::data_magic() + spec_u32_to_le_bytes(FORMAT_VERSION) + spec_u64_to_le_bytes(blobs.len() as u64)
        + framed_blobs(blobs)
}

proof fn lemma_framed_push(blobs: Seq<Seq<u8>>, b: Seq<u8>)
    ensures
        framed_blobs(blobs.push(b)) == framed_blobs(blobs) + spec_u32_to_le_bytes(b.len() as u32) + b,
    decreases blobs.len(),
{
    let pb = blobs.push(b);
    assert(pb[0] == if blobs.len() == 0 { b } else { blobs[0] });
    if blobs.len() == 0 {
        assert(pb.drop_first() =~= Seq::<Seq<u8>>::empty());
        assert(framed_blobs(pb.drop_first()) == Seq::<u8>::empty());
        assert(framed_blobs(pb) =~= framed_blobs(blobs) + spec_u32_to_le_bytes(b.len() as u32) + b);
    } else {
        assert(pb.drop_first() =~= blobs.drop_first().push(b));
        lemma_framed_push(blobs.drop_first(), b);
        assert(framed_blobs(pb) =~= framed_blobs(blobs) + spec_u32_to_le_bytes(b.len() as u32) + b);
    }
}

proof fn lemma_framed_len(blobs: Seq<Seq<u8>>)
    ensures
        framed_blobs(blobs).len() >= 4 * blobs.len(),
        blobs.len() > 0 ==> framed_blobs(blobs).len() == 4 + blobs[0].len() + framed_blobs(blobs.drop_first()).len(),
    decreases blobs.len(),
{
    lemma_auto_spec_u32_to_from_le_bytes();
    if blobs.len() > 0 {
        lemma_framed_len(blobs.drop_first());
    }
}

proof fn lemma_pointers_push(blobs: Seq<Seq<u8>>, b: Seq<u8>, at: int)
    ensures
        blob_pointers(blobs.push(b), at) == blob_pointers(blobs, at).push(
            DataPointer { offset: (at + framed_blobs(blobs).len() + 4) as u64, len: b.len() as u32 },
        ),
    decreases blobs.len(),
{
    let pb = blobs.push(b);
    assert(pb[0] == if blobs.len() == 0 { b } else { blobs[0] });
    lemma_framed_len(blobs);
    if blobs.len() == 0 {
        assert(pb.drop_first() =~= Seq::<Seq<u8>>::empty());
        assert(blob_pointers(pb.drop_first(), at + 4 + b.len()) == Seq::<DataPointer>::empty());
        assert(blob_pointers(pb, at) =~= blob_pointers(blobs, at).push(
            DataPointer { offset: (at + framed_blobs(blobs).len() + 4) as u64, len: b.len() as u32 },
        ));
    } else {
        assert(pb.drop_first() =~= blobs.drop_first().push(b));
        lemma_pointers_push(blobs.drop_first(), b, at + 4 + blobs[0].len());
        assert(blob_pointers(pb, at) =~= blob_pointers(blobs, at).push(
            DataPointer { offset: (at + framed_blobs(blobs).len() + 4) as u64, len: b.len() as u32 },
        ));
    }
}

proof fn lemma_frames_read(d: Seq<u8>, at: int, blobs: Seq<Seq<u8>>)
    requires
        0 <= at,
        at + framed_blobs(blobs).len() <= d.len(),
        d.len() <= u64::MAX,
        d.subrange(at, at + framed_blobs(blobs).len()) == framed_blobs(blobs),
        blobs_fit(blobs),
    ensures
        c4db_store::spec_frames_from(d, at, blobs.len()) == Ok::<Seq<DataPointer>, crate::store::command_store::StoreError>(blob_pointers(blobs, at)),
    decreases blobs.len(),
{
    lemma_auto_spec_u32_to_from_le_bytes();
    if blobs.len() > 0 {
        let b0 = blobs[0];
        let f = framed_blobs(blobs);
        let rest = blobs.drop_first();
        assert(blobs_fit(rest)) by {
            assert forall|k: int| 0 <= k < rest.len() implies (#[trigger] rest[k]).len() <= u32::MAX by {
                assert(rest[k] == blobs[k + 1]);
            }
        }
        assert(b0.len() <= u32::MAX);
        let lenb = spec_u32_to_le_bytes(b0.len() as u32);
        assert(f =~= lenb + b0 + framed_blobs(rest));
        assert(d.subrange(at, at + 4) =~= f.subrange(0, 4));
        assert(f.subrange(0, 4) =~= lenb);
        assert(formats::u32_at(d, at) == b0.len());
        let next = at + 4 + b0.len();
        assert(d.subrange(next, next + framed_blobs(rest).len()) =~= framed_blobs(rest)) by {
            assert(f.subrange(4 + b0.len() as int, f.len() as int) =~= framed_blobs(rest));
        }
        lemma_frames_read(d, next, rest);
        assert(blobs.len() - 1 == rest.len());
    }
}

/// The data file that `build_data_file` writes frames exactly the blobs it
/// was given: reading it back yields one pointer per blob, in order, each
/// addressing the bytes of that blob.
pub proof fn law_data_file_round_trip(blobs: Seq<Seq<u8>>)
    requires
        blobs_fit(blobs),
        spec_data_file(blobs).len() <= u64::MAX,
    ensures
        c4db_store::spec_frames(spec_data_file(blobs)) == Ok::<Seq<DataPointer>, crate::store::command_store::StoreError>(
            blob_pointers(blobs, DATA_HEADER_LEN as int),
        ),
{
    lemma_auto_spec_u32_to_from_le_bytes();
    lemma_auto_spec_u64_to_from_le_bytes();
    let d = spec_data_file(blobs);
    let head = formats::data_magic() + spec_u32_to_le_bytes(FORMAT_VERSION) + spec_u64_to_le_bytes(blobs.len() as u64);
    assert(d =~= head + framed_blobs(blobs));
    assert(head.len() == 16);
    assert(d.subrange(0, 4) =~= formats::data_magic());
    assert(d.subrange(4, 8) =~= spec_u32_to_le_bytes(FORMAT_VERSION));
    assert(d.subrange(8, 16) =~= spec_u64_to_le_bytes(blobs.len() as u64));
    assert(d.subrange(16, 16 + framed_blobs(blobs).len() as int) =~= framed_blobs(blobs));
    lemma_framed_len(blobs);
    assert(blobs.len() <= u64::MAX);
    lemma_frames_read(d, 16, blobs);
}

/// Writes the data file for `blobs`, the serialized records in order, and
/// returns it with the pointer of each blob.
pub fn build_data_file(blobs: &Vec<Vec<u8>>) -> (r: Result<(Vec<u8>, Vec<DataPointer>), BuildError>)
    ensures
        match r {
            Ok(out) => blobs_fit(blobs@.map_values(|b: Vec<u8>| b@)) && out.0@ == spec_data_file(blobs@.map_values(|b: Vec<u8>| b@))
                && out.0@.len() <= u64::MAX && out.1@ == blob_pointers(blobs@.map_values(|b: Vec<u8>| b@), DATA_HEADER_LEN as int),
            Err(e) => e is BlobTooLarge && (!blobs_fit(blobs@.map_values(|b: Vec<u8>| b@)) || spec_data_file(
                blobs@.map_values(|b: Vec<u8>| b@),
            ).len() > u64::MAX),
        },
{
    let ghost bs = blobs@.map_values(|b: Vec<u8>| b@);
    let mut out: Vec<u8> = Vec::new();
    out.push(DATA_MAGIC[0]);
    out.push(DATA_MAGIC[1]);
    out.push(DATA_MAGIC[2]);
    out.push(DATA_MAGIC[3]);
    write_u32(&mut out, FORMAT_VERSION);
    let count = blobs.len() as u64;
    write_u64(&mut out, count);
    let ghost head = out@;
    assert(head =~= formats::data_magic() + spec_u32_to_le_bytes(FORMAT_VERSION) + spec_u64_to_le_bytes(bs.len() as u64));
    proof {
        lemma_auto_spec_u32_to_from_le_bytes();
        lemma_auto_spec_u64_to_from_le_bytes();
    }
    let mut pointers: Vec<DataPointer> = Vec::new();
    let mut i: usize = 0;
    assert(bs.subrange(0, 0) =~= Seq::<Seq<u8>>::empty());
    assert(out@ =~= head + framed_blobs(bs.subrange(0, 0)));
    while i < blobs.len()
        invariant
            i <= blobs@.len(),
            bs == blobs@.map_values(|b: Vec<u8>| b@),
            head.len() == DATA_HEADER_LEN,
            head == formats::data_magic() + spec_u32_to_le_bytes(FORMAT_VERSION) + spec_u64_to_le_bytes(bs.len() as u64),
            out@ == head + framed_blobs(bs.subrange(0, i as int)),
            pointers@ == blob_pointers(bs.subrange(0, i as int), DATA_HEADER_LEN as int),
            blobs_fit(bs.subrange(0, i as int)),
            out@.len() <= u64::MAX,
        decreases blobs.len() - i,
    {
        let blob = &blobs[i];
        let n = blob.len();
        if n > 0xffff_ffffusize {
            proof {
                assert(!blobs_fit(bs)) by {
                    assert(bs[i as int].len() > u32::MAX);
                }
            }
            return Err(BuildError::BlobTooLarge);
        }
        let room: u64 = 0xffff_ffff_ffff_ffffu64 - (out.len() as u64);
        if (n as u64) > room || room - (n as u64) < 4 {
            proof {
                lemma_data_file_prefix_len(bs, i as int);
            }
            return Err(BuildError::BlobTooLarge);
        }
        let start: u64 = (out.len() as u64) + 4;
        let ghost before = out@;
        let ghost prev = bs.subrange(0, i as int);
        write_u32(&mut out, n as u32);
        let mut j: usize = 0;
        while j < n
            invariant
                j <= n,
                n == blob@.len(),
                out@ == before + spec_u32_to_le_bytes(n as u32) + blob@.subrange(0, j as int),
            decreases n - j,
        {
            out.push(blob[j]);
            j = j + 1;
            assert(out@ =~= before + spec_u32_to_le_bytes(n as u32) + blob@.subrange(0, j as int));
        }
        proof {
            lemma_auto_spec_u32_to_from_le_bytes();
            assert(blob@.subrange(0, n as int) =~= blob@);
            assert(bs.subrange(0, i + 1) =~= prev.push(bs[i as int]));
            assert(bs[i as int] == blob@);
            lemma_framed_push(prev, blob@);
            lemma_pointers_push(prev, blob@, DATA_HEADER_LEN as int);
            assert(out@ =~= head + framed_blobs(bs.subrange(0, i + 1)));
            assert(blobs_fit(bs.subrange(0, i + 1))) by {
                assert forall|k: int| 0 <= k < i + 1 implies (#[trigger] bs.subrange(0, i + 1)[k]).len() <= u32::MAX by {
                    if k < i {
                        assert(bs.subrange(0, i + 1)[k] == bs.subrange(0, i as int)[k]);
                    }
                }
            }
        }
        pointers.push(DataPointer { offset: start, len: n as u32 });
        i = i + 1;
    }
    assert(bs.subrange(0, bs.len() as int) =~= bs);
    Ok((out, pointers))
}

proof fn lemma_framed_len_monotone(blobs: Seq<Seq<u8>>, i: int)
    requires
        0 <= i < blobs.len(),
    ensures
        framed_blobs(blobs.subrange(0, i)).len() + 4 + blobs[i].len() <= framed_blobs(blobs).len(),
    decreases blobs.len(),
{
    lemma_auto_spec_u32_to_from_le_bytes();
    if i + 1 < blobs.len() {
        lemma_framed_len_monotone(blobs.drop_last(), i);
        assert(blobs.drop_last().subrange(0, i) =~= blobs.subrange(0, i));
        lemma_framed_push(blobs.drop_last(), blobs.last());
        assert(blobs.drop_last().push(blobs.last()) =~= blobs);
    } else {
        lemma_framed_push(blobs.subrange(0, i), blobs[i]);
        assert(blobs.subrange(0, i).push(blobs[i]) =~= blobs);
    }
}

proof fn lemma_data_file_prefix_len(blobs: Seq<Seq<u8>>, i: int)
    requires
        0 <= i < blobs.len(),
    ensures
        DATA_HEADER_LEN + framed_blobs(blobs.subrange(0, i)).len() + 4 + blobs[i].len() <= spec_data_file(blobs).len(),
{
    lemma_auto_spec_u32_to_from_le_bytes();
    lemma_auto_spec_u64_to_from_le_bytes();
    lemma_framed_len_monotone(blobs, i);
}


/// The map that a sequence of entries describes, later entries winning.
pub open spec fn entry_map(es: Seq<bplus_tree::EntryView>) -> Map<Seq<u8>, DataPointer>
    decreases es.len(),
{
    if es.len() == 0 {
        Map::empty()
    } else {
        entry_map(es.drop_last()).insert(es.last().0, es.last().1)
    }
}

/// No key occurs twice.
pub open spec fn distinct_keys(es: Seq<bplus_tree::EntryView>) -> bool {
    forall|a: int, b: int| 0 <= a < es.len() && 0 <= b < es.len() && a != b ==> (#[trigger] es[a]).0 != (#[trigger] es[b]).0
}

pub(crate) proof fn lemma_entry_map_absent(es: Seq<bplus_tree::EntryView>, k: Seq<u8>)
    requires
        forall|j: int| 0 <= j < es.len() ==> (#[trigger] es[j]).0 != k,
    ensures
        !entry_map(es).contains_key(k),
    decreases es.len(),
{
    if es.len() > 0 {
        lemma_entry_map_absent(es.drop_last(), k);
    }
}

pub(crate) proof fn lemma_entry_map_at(es: Seq<bplus_tree::EntryView>, j: int)
    requires
        0 <= j < es.len(),
        distinct_keys(es),
    ensures
        entry_map(es).contains_key(es[j].0) && entry_map(es)[es[j].0] == es[j].1,
    decreases es.len(),
{
    if j < es.len() - 1 {
        assert(distinct_keys(es.drop_last()));
        lemma_entry_map_at(es.drop_last(), j);
        assert(es[j] == es.drop_last()[j]);
        assert(es[j].0 != es.last().0);
    }
}

proof fn lemma_entry_map_insert(es: Seq<bplus_tree::EntryView>, i: int, e: bplus_tree::EntryView)
    requires
        0 <= i <= es.len(),
        forall|j: int| 0 <= j < es.len() ==> (#[trigger] es[j]).0 != e.0,
    ensures
        entry_map(es.insert(i, e)) == entry_map(es).insert(e.0, e.1),
    decreases es.len(),
{
    if i == es.len() {
        assert(es.insert(i, e).drop_last() =~= es);
    } else {
        let ins = es.insert(i, e);
        assert(ins.drop_last() =~= es.drop_last().insert(i, e));
        assert(ins.last() == es.last());
        lemma_entry_map_insert(es.drop_last(), i, e);
        assert(es.last().0 != e.0);
        assert(entry_map(ins) =~= entry_map(es).insert(e.0, e.1));
    }
}

/// Entering `key` for `pointer`: unchanged when it is already there for
/// the same record, refused when it is there for another one.
pub open spec fn spec_enter(m: Map<Seq<u8>, DataPointer>, key: Seq<u8>, pointer: DataPointer) -> Option<Map<Seq<u8>, DataPointer>> {
    if m.contains_key(key) {
        if m[key] == pointer {
            Some(m)
        } else {
            None
        }
    } else {
        Some(m.insert(key, pointer))
    }
}

/// The entries are sorted, unique, and describe `m`.
pub open spec fn entries_describe(es: Seq<IndexEntry>, m: Map<Seq<u8>, DataPointer>) -> bool {
    &&& bplus_tree::strictly_sorted(bplus_tree::entries_view(es))
    &&& distinct_keys(bplus_tree::entries_view(es))
    &&& entry_map(bplus_tree::entries_view(es)) == m
}

/// Enters `key` for `pointer` into the sorted entries.
fn insert_entry(entries: &mut Vec<IndexEntry>, key: String, pointer: DataPointer) -> (r: Result<(), BuildError>)
    requires
        entries_describe(old(entries)@, entry_map(bplus_tree::entries_view(old(entries)@))),
    ensures
        match spec_enter(entry_map(bplus_tree::entries_view(old(entries)@)), vstd::utf8::encode_utf8(key@), pointer) {
            Some(m) => r is Ok && entries_describe(final(entries)@, m),
            None => r matches Err(BuildError::KeyCollision(k)) && k@ == key@,
        },
{
    let ghost ev = bplus_tree::entries_view(entries@);
    let ghost m = entry_map(ev);
    let kb = key_bytes(key.as_str());
    let mut j: usize = 0;
    while j < entries.len()
        invariant
            j <= entries@.len(),
            ev == bplus_tree::entries_view(entries@),
            entries@ == old(entries)@,
            entries_describe(entries@, entry_map(ev)),
            kb@ == vstd::utf8::encode_utf8(key@),
            forall|a: int| 0 <= a < j ==> (#[trigger] ev[a]).0 != kb@,
        decreases entries.len() - j,
    {
        if eq_bytes(key_bytes(entries[j].key.as_str()), kb) {
            proof {
                lemma_entry_map_at(ev, j as int);
            }
            if entries[j].pointer == pointer {
                return Ok(());
            } else {
                return Err(BuildError::KeyCollision(key));
            }
        }
        j = j + 1;
    }
    proof {
        lemma_entry_map_absent(ev, kb@);
    }
    let mut pos: usize = 0;
    let mut done = false;
    while !done && pos < entries.len()
        invariant
            pos <= entries@.len(),
            ev == bplus_tree::entries_view(entries@),
            entries@ == old(entries)@,
            entries_describe(entries@, entry_map(ev)),
            forall|a: int| 0 <= a < ev.len() ==> (#[trigger] ev[a]).0 != kb@,
            kb@ == vstd::utf8::encode_utf8(key@),
            done ==> pos < entries@.len() && !formats::bytes_lt(ev[pos as int].0, kb@),
            forall|a: int| 0 <= a < pos ==> formats::bytes_lt((#[trigger] ev[a]).0, kb@),
        decreases entries.len() - pos + (if done { 0int } else { 1int }),
    {
        if !lt_bytes(key_bytes(entries[pos].key.as_str()), kb) {
            done = true;
        } else {
            pos = pos + 1;
        }
    }
    let ghost e = (kb@, pointer);
    entries.insert(pos, IndexEntry { key, pointer });
    proof {
        let nv = bplus_tree::entries_view(entries@);
        assert(nv =~= ev.insert(pos as int, e));
        lemma_entry_map_insert(ev, pos as int, e);
        if pos < ev.len() {
            formats::lemma_bytes_lt_total(ev[pos as int].0, kb@);
        }
        assert forall|a: int| 0 <= a < nv.len() - 1 implies formats::bytes_lt(#[trigger] nv[a].0, nv[a + 1].0) by {
            if a + 1 < pos {
                assert(nv[a] == ev[a] && nv[a + 1] == ev[a + 1]);
            } else if a + 1 == pos {
                assert(nv[a] == ev[a] && nv[a + 1] == e);
            } else if a == pos {
                assert(nv[a] == e && nv[a + 1] == ev[a]);
            } else {
                assert(nv[a] == ev[a - 1] && nv[a + 1] == ev[a]);
            }
        }
        assert forall|a: int, b: int| 0 <= a < nv.len() && 0 <= b < nv.len() && a != b implies (#[trigger] nv[a]).0 != (#[trigger] nv[b]).0 by {
            if a != pos && b != pos {
                let oa = if a < pos { a } else { a - 1 };
                let ob = if b < pos { b } else { b - 1 };
                assert(nv[a] == ev[oa] && nv[b] == ev[ob]);
            } else if a == pos {
                let ob = if b < pos { b } else { b - 1 };
                assert(nv[b] == ev[ob]);
            } else {
                let oa = if a < pos { a } else { a - 1 };
                assert(nv[a] == ev[oa]);
            }
        }
    }
    Ok(())
}


/// The exact-command keys of every example of a platform table, in order.
pub open spec fn table_keys(table: Seq<(Seq<char>, Seq<Seq<char>>)>) -> Seq<Seq<char>>
    decreases table.len(),
{
    if table.len() == 0 {
        Seq::empty()
    } else {
        table_keys(table.drop_last()) + table.last().1.map_values(|e: Seq<char>| normalize::spec_exact_command_key(e))
    }
}

/// Every index key of a record: its intent key, its category key, and the
/// exact key of each example command.
pub open spec fn spec_record_keys(rec: CommandRecordView) -> Seq<Seq<char>> {
    seq![normalize::spec_intent_key(rec.intent), normalize::spec_category_key(rec.category, rec.intent)]
        + table_keys(rec.commands)
}

/// Enters each key for `pointer` in turn; the first refused key is the error.
pub open spec fn spec_enter_all(m: Map<Seq<u8>, DataPointer>, keys: Seq<Seq<char>>, pointer: DataPointer)
    -> Result<Map<Seq<u8>, DataPointer>, Seq<char>>
    decreases keys.len(),
{
    if keys.len() == 0 {
        Ok(m)
    } else {
        match spec_enter_all(m, keys.drop_last(), pointer) {
            Err(k) => Err(k),
            Ok(m1) => match spec_enter(m1, vstd::utf8::encode_utf8(keys.last()), pointer) {
                Some(m2) => Ok(m2),
                None => Err(keys.last()),
            },
        }
    }
}

/// The key map of records stored under `pointers`, or the first key two
/// records claim for different data.
pub open spec fn spec_index_map(recs: Seq<CommandRecordView>, pointers: Seq<DataPointer>)
    -> Result<Map<Seq<u8>, DataPointer>, Seq<char>>
    decreases recs.len(),
{
    if recs.len() == 0 {
        Ok(Map::empty())
    } else {
        match spec_index_map(recs.drop_last(), pointers) {
            Err(k) => Err(k),
            Ok(m) => spec_enter_all(m, spec_record_keys(recs.last()), pointers[recs.len() - 1]),
        }
    }
}

proof fn lemma_index_map_err(recs: Seq<CommandRecordView>, pointers: Seq<DataPointer>, i: int, k: Seq<char>)
    requires
        0 <= i <= recs.len(),
        spec_index_map(recs.subrange(0, i), pointers) == Err::<Map<Seq<u8>, DataPointer>, Seq<char>>(k),
    ensures
        spec_index_map(recs, pointers) == Err::<Map<Seq<u8>, DataPointer>, Seq<char>>(k),
    decreases recs.len() - i,
{
    if i < recs.len() {
        assert(recs.drop_last().subrange(0, i) =~= recs.subrange(0, i));
        lemma_index_map_err(recs.drop_last(), pointers, i, k);
    } else {
        assert(recs.subrange(0, i) =~= recs);
    }
}

proof fn lemma_enter_all_err(m: Map<Seq<u8>, DataPointer>, keys: Seq<Seq<char>>, pointer: DataPointer, i: int, k: Seq<char>)
    requires
        0 <= i <= keys.len(),
        spec_enter_all(m, keys.subrange(0, i), pointer) == Err::<Map<Seq<u8>, DataPointer>, Seq<char>>(k),
    ensures
        spec_enter_all(m, keys, pointer) == Err::<Map<Seq<u8>, DataPointer>, Seq<char>>(k),
    decreases keys.len() - i,
{
    if i < keys.len() {
        assert(keys.drop_last().subrange(0, i) =~= keys.subrange(0, i));
        lemma_enter_all_err(m, keys.drop_last(), pointer, i, k);
    } else {
        assert(keys.subrange(0, i) =~= keys);
    }
}

/// Every index key of `record`, in order.
pub fn record_keys(record: &CommandRecord) -> (r: Vec<String>)
    ensures
        text::views(r@) == spec_record_keys(record@),
{
    let mut keys: Vec<String> = Vec::new();
    keys.push(intent_key(record.intent.as_str()));
    keys.push(category_key(record.category.as_str(), record.intent.as_str()));
    let ghost table = record.table();
    let ghost head = seq![normalize::spec_intent_key(record.intent@), normalize::spec_category_key(record.category@, record.intent@)];
    assert(text::views(keys@) =~= head + table_keys(table.subrange(0, 0)));
    let mut i: usize = 0;
    while i < record.commands.len()
        invariant
            i <= record.commands@.len(),
            table == record.table(),
            table == record@.commands,
            text::views(keys@) == head + table_keys(table.subrange(0, i as int)),
        decreases record.commands.len() - i,
    {
        let examples = &record.commands[i].1;
        let ghost exs = table[i as int].1;
        assert(exs == text::views(examples@));
        let ghost before = text::views(keys@);
        let mut j: usize = 0;
        assert(before =~= before + exs.subrange(0, 0).map_values(|e: Seq<char>| normalize::spec_exact_command_key(e)));
        while j < examples.len()
            invariant
                j <= examples@.len(),
                exs == text::views(examples@),
                text::views(keys@) == before + exs.subrange(0, j as int).map_values(|e: Seq<char>| normalize::spec_exact_command_key(e)),
            decreases examples.len() - j,
        {
            let k = exact_command_key(examples[j].as_str());
            let ghost b2 = text::views(keys@);
            keys.push(k);
            assert(text::views(keys@) =~= b2.push(k@));
            assert(exs.subrange(0, j + 1).map_values(|e: Seq<char>| normalize::spec_exact_command_key(e)) =~= exs.subrange(
                0,
                j as int,
            ).map_values(|e: Seq<char>| normalize::spec_exact_command_key(e)).push(normalize::spec_exact_command_key(exs[j as int])));
            j = j + 1;
        }
        proof {
            assert(exs.subrange(0, exs.len() as int) =~= exs);
            assert(table.subrange(0, i + 1).drop_last() =~= table.subrange(0, i as int));
            assert(table.subrange(0, i + 1).last() == table[i as int]);
            assert(text::views(keys@) =~= head + table_keys(table.subrange(0, i + 1)));
        }
        i = i + 1;
    }
    assert(table.subrange(0, table.len() as int) =~= table);
    keys
}

/// The sorted, collision-free index entries of `records` stored under
/// `pointers`.
pub fn build_index_entries(records: &Vec<CommandRecord>, pointers: &Vec<DataPointer>) -> (r: Result<Vec<IndexEntry>, BuildError>)
    requires
        records@.len() == pointers@.len(),
    ensures
        match spec_index_map(records@.map_values(|c: CommandRecord| c@), pointers@) {
            Ok(m) => r matches Ok(v) && entries_describe(v@, m),
            Err(k) => r matches Err(BuildError::KeyCollision(s)) && s@ == k,
        },
{
    let ghost recs = records@.map_values(|c: CommandRecord| c@);
    let mut entries: Vec<IndexEntry> = Vec::new();
    assert(bplus_tree::entries_view(entries@) =~= Seq::<bplus_tree::EntryView>::empty());
    assert(recs.subrange(0, 0) =~= Seq::<CommandRecordView>::empty());
    let mut i: usize = 0;
    while i < records.len()
        invariant
            i <= records@.len(),
            records@.len() == pointers@.len(),
            recs == records@.map_values(|c: CommandRecord| c@),
            spec_index_map(recs.subrange(0, i as int), pointers@) == Ok::<Map<Seq<u8>, DataPointer>, Seq<char>>(
                entry_map(bplus_tree::entries_view(entries@)),
            ),
            entries_describe(entries@, entry_map(bplus_tree::entries_view(entries@))),
        decreases records.len() - i,
    {
        let keys = record_keys(&records[i]);
        let pointer = pointers[i];
        let ghost ks = text::views(keys@);
        let ghost m0 = entry_map(bplus_tree::entries_view(entries@));
        assert(ks.subrange(0, 0) =~= Seq::<Seq<char>>::empty());
        let mut j: usize = 0;
        while j < keys.len()
            invariant
                j <= keys@.len(),
                ks == text::views(keys@),
                i < records@.len(),
                records@.len() == pointers@.len(),
                recs == records@.map_values(|c: CommandRecord| c@),
                pointer == pointers@[i as int],
                ks == spec_record_keys(records@[i as int]@),
                spec_index_map(recs.subrange(0, i as int), pointers@) == Ok::<Map<Seq<u8>, DataPointer>, Seq<char>>(m0),
                spec_enter_all(m0, ks.subrange(0, j as int), pointer) == Ok::<Map<Seq<u8>, DataPointer>, Seq<char>>(
                    entry_map(bplus_tree::entries_view(entries@)),
                ),
                entries_describe(entries@, entry_map(bplus_tree::entries_view(entries@))),
            decreases keys.len() - j,
        {
            proof {
                assert(ks.subrange(0, j + 1).drop_last() =~= ks.subrange(0, j as int));
                assert(ks.subrange(0, j + 1).last() == keys@[j as int]@);
            }
            let key = keys[j].clone();
            match insert_entry(&mut entries, key, pointer) {
                Ok(()) => {},
                Err(e) => {
                    proof {
                        assert(spec_enter_all(m0, ks.subrange(0, j + 1), pointer) == Err::<Map<Seq<u8>, DataPointer>, Seq<char>>(ks[j as int]));
                        lemma_enter_all_err(m0, ks, pointer, j + 1, ks[j as int]);
                        assert(recs.subrange(0, i + 1).drop_last() =~= recs.subrange(0, i as int));
                        assert(recs.subrange(0, i + 1).last() == records@[i as int]@);
                        lemma_index_map_err(recs, pointers@, i + 1, ks[j as int]);
                    }
                    return Err(e);
                },
            }
            j = j + 1;
        }
        proof {
            assert(ks.subrange(0, ks.len() as int) =~= ks);
            assert(recs.subrange(0, i + 1).drop_last() =~= recs.subrange(0, i as int));
            assert(recs.subrange(0, i + 1).last() == records@[i as int]@);
        }
        i = i + 1;
    }
    assert(recs.subrange(0, recs.len() as int) =~= recs);
    Ok(entries)
}


proof fn lemma_pointers_len(blobs: Seq<Seq<u8>>, at: int)
    ensures
        blob_pointers(blobs, at).len() == blobs.len(),
    decreases blobs.len(),
{
    if blobs.len() > 0 {
        lemma_pointers_len(blobs.drop_first(), at + 4 + blobs[0].len());
    }
}

/// `e` is the error of the first record of `rs` that fails its checks.
pub open spec fn first_invalid_error(rs: Seq<CommandRecordView>, e: BuildError) -> bool {
    exists|k: int|
        0 <= k < rs.len() && !record_ok(#[trigger] rs[k]) && validation_error(rs[k], Err::<(), BuildError>(e)) && forall|j: int|
            0 <= j < k ==> record_ok(#[trigger] rs[j])
}

/// The records in intent order, once every one of them passes
/// `validate_record`; the first failure in that order is the error.
pub fn prepare_records(records: &Vec<CommandRecord>) -> (r: Result<Vec<CommandRecord>, BuildError>)
    ensures
        match r {
            Ok(v) => v@.map_values(|c: CommandRecord| c@) == sort_by_intent(records@.map_values(|c: CommandRecord| c@))
                && sorted_by_intent(v@.map_values(|c: CommandRecord| c@))
                && v@.map_values(|c: CommandRecord| c@).to_multiset() == records@.map_values(|c: CommandRecord| c@).to_multiset()
                && (forall|k: int| 0 <= k < v@.len() ==> record_ok(#[trigger] v@[k]@))
                && ((forall|k: int| 0 <= k < records@.len() ==> crate::store::command_store::platforms_unique(#[trigger] records@[k]@.commands))
                ==> forall|k: int| 0 <= k < v@.len() ==> crate::store::command_store::platforms_unique(#[trigger] v@[k]@.commands)),
            Err(e) => (exists|k: int| 0 <= k < records@.len() && !record_ok(#[trigger] records@[k]@)
                && validation_error(records@[k]@, Err::<(), BuildError>(e)))
                && first_invalid_error(sort_by_intent(records@.map_values(|c: CommandRecord| c@)), e),
        },
{
    broadcast use vstd::seq_lib::group_to_multiset_ensures;
    let sorted = sort_records(records);
    let ghost sv = sorted@.map_values(|c: CommandRecord| c@);
    let ghost rv = records@.map_values(|c: CommandRecord| c@);
    let mut i: usize = 0;
    while i < sorted.len()
        invariant
            i <= sorted@.len(),
            sv == sorted@.map_values(|c: CommandRecord| c@),
            rv == records@.map_values(|c: CommandRecord| c@),
            sv.to_multiset() == rv.to_multiset(),
            sv == sort_by_intent(rv),
            forall|k: int| 0 <= k < i ==> record_ok(#[trigger] sorted@[k]@),
        decreases sorted.len() - i,
    {
        match validate_record(&sorted[i]) {
            Ok(()) => {},
            Err(e) => {
                proof {
                    let x = sv[i as int];
                    assert(sv.contains(x));
                    vstd::seq_lib::to_multiset_contains(sv, x);
                    vstd::seq_lib::to_multiset_contains(rv, x);
                    assert(rv.to_multiset().count(x) > 0);
                    assert(rv.contains(x));
                    let k = choose|k: int| 0 <= k < rv.len() && rv[k] == x;
                    assert(records@[k]@ == x);
                    assert(!record_ok(records@[k]@));
                    assert(validation_error(records@[k]@, Err::<(), BuildError>(e)));
                    assert(sv[i as int] == sorted@[i as int]@);
                    assert(!record_ok(sv[i as int]) && validation_error(sv[i as int], Err::<(), BuildError>(e)));
                    assert(forall|j: int| 0 <= j < i ==> record_ok(#[trigger] sv[j])) by {
                        assert forall|j: int| 0 <= j < i implies record_ok(#[trigger] sv[j]) by {
                            assert(sv[j] == sorted@[j]@);
                        }
                    }
                    assert(first_invalid_error(sv, e));
                }
                return Err(e);
            },
        }
        i = i + 1;
    }
    proof {
        if forall|k: int| 0 <= k < records@.len() ==> crate::store::command_store::platforms_unique(#[trigger] records@[k]@.commands) {
            assert forall|k: int| 0 <= k < sorted@.len() implies crate::store::command_store::platforms_unique(#[trigger] sorted@[k]@.commands) by {
                let x = sv[k];
                assert(x == sorted@[k]@);
                assert(sv.contains(x));
                vstd::seq_lib::to_multiset_contains(sv, x);
                vstd::seq_lib::to_multiset_contains(rv, x);
                assert(rv.to_multiset().count(x) > 0);
                assert(rv.contains(x));
                let j = choose|j: int| 0 <= j < rv.len() && rv[j] == x;
                assert(records@[j]@ == x);
            }
        }
    }
    Ok(sorted)
}

/// The files built for `recs` and their serialized `blobs`: the data file
/// frames the blobs, and the index file is written from sorted entries that
/// map exactly the keys of the records to the pointers of their blobs.
pub open spec fn built_files(recs: Seq<CommandRecordView>, blobs: Seq<Seq<u8>>, index: Seq<u8>, data: Seq<u8>) -> bool {
    &&& recs.len() == blobs.len()
    &&& blobs_fit(blobs)
    &&& data == spec_data_file(blobs)
    &&& data.len() <= u64::MAX
    &&& spec_index_map(recs, blob_pointers(blobs, DATA_HEADER_LEN as int)) matches Ok(m)
    &&& exists|es: Seq<IndexEntry>| #[trigger] entries_describe(es, m)
        && bplus_tree::spec_write_index(bplus_tree::entries_view(es)) == Ok::<Seq<u8>, bplus_tree::IndexError>(index)
}

/// The index file written over the key map would reach past the offsets
/// that the format's `u64` fields can address.
pub open spec fn index_too_large(m: Map<Seq<u8>, DataPointer>) -> bool {
    exists|es: Seq<IndexEntry>| #[trigger] entries_describe(es, m) && !bplus_tree::offsets_fit(bplus_tree::entries_view(es))
}

/// The index file and the data file for `records`, given the serialized
/// form of each record in the same order.
pub fn build_store_files(records: &Vec<CommandRecord>, blobs: &Vec<Vec<u8>>) -> (r: Result<(Vec<u8>, Vec<u8>), BuildError>)
    ensures
        match r {
            Ok(files) => built_files(
                records@.map_values(|c: CommandRecord| c@),
                blobs@.map_values(|b: Vec<u8>| b@),
                files.0@,
                files.1@,
            ),
            Err(BuildError::BlobCountMismatch) => records@.len() != blobs@.len(),
            Err(BuildError::BlobTooLarge) => records@.len() == blobs@.len() && (!blobs_fit(blobs@.map_values(|b: Vec<u8>| b@))
                || spec_data_file(blobs@.map_values(|b: Vec<u8>| b@)).len() > u64::MAX),
            Err(BuildError::KeyCollision(k)) => records@.len() == blobs@.len() && spec_index_map(
                records@.map_values(|c: CommandRecord| c@),
                blob_pointers(blobs@.map_values(|b: Vec<u8>| b@), DATA_HEADER_LEN as int),
            ) == Err::<Map<Seq<u8>, DataPointer>, Seq<char>>(k@),
            Err(BuildError::Index(e)) => records@.len() == blobs@.len() && (spec_index_map(
                records@.map_values(|c: CommandRecord| c@),
                blob_pointers(blobs@.map_values(|b: Vec<u8>| b@), DATA_HEADER_LEN as int),
            ) matches Ok(m) && if exists|k: Seq<u8>| #[trigger] m.contains_key(k)
                && bplus_tree::leaf_entry_size(k) + bplus_tree::PAGE_HEADER_LEN > bplus_tree::PAGE_SIZE {
                e == bplus_tree::IndexError::KeyTooLarge
            } else {
                e == bplus_tree::IndexError::FileTooLarge && index_too_large(m)
            }),
            Err(_) => false,
        },
{
    if records.len() != blobs.len() {
        return Err(BuildError::BlobCountMismatch);
    }
    let (data, pointers) = match build_data_file(blobs) {
        Ok(out) => out,
        Err(e) => return Err(e),
    };
    proof {
        lemma_pointers_len(blobs@.map_values(|b: Vec<u8>| b@), DATA_HEADER_LEN as int);
    }
    let entries = match build_index_entries(records, &pointers) {
        Ok(v) => v,
        Err(e) => return Err(e),
    };
    let index = match build_index_bytes(entries.as_slice()) {
        Ok(b) => b,
        Err(e) => {
            proof {
                let ev = bplus_tree::entries_view(entries@);
                let m = entry_map(ev);
                if bplus_tree::keys_fit(ev) {
                    assert(entries_describe(entries@, m));
                    assert forall|k: Seq<u8>| #[trigger] m.contains_key(k) implies bplus_tree::leaf_entry_size(k)
                        + bplus_tree::PAGE_HEADER_LEN <= bplus_tree::PAGE_SIZE by {
                        if forall|j: int| 0 <= j < ev.len() ==> (#[trigger] ev[j]).0 != k {
                            lemma_entry_map_absent(ev, k);
                        } else {
                            let j = choose|j: int| 0 <= j < ev.len() && (#[trigger] ev[j]).0 == k;
                            assert(bplus_tree::leaf_entry_size(ev[j].0) + bplus_tree::PAGE_HEADER_LEN <= bplus_tree::PAGE_SIZE);
                        }
                    }
                } else {
                    let i = choose|i: int| 0 <= i < ev.len() && !(bplus_tree::leaf_entry_size(#[trigger] ev[i].0)
                        + bplus_tree::PAGE_HEADER_LEN <= bplus_tree::PAGE_SIZE);
                    lemma_entry_map_at(ev, i);
                }
            }
            return Err(BuildError::Index(e));
        },
    };
    assert(entries_describe(entries@, entry_map(bplus_tree::entries_view(entries@))));
    Ok((index, data))
}

} // verus!
