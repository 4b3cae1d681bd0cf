//! What a store opened from the files built for a list of records answers:
//! every record is found by its intent and by each of its example commands.
use vstd::prelude::*;

use crate::store::bplus_tree;
use crate::store::c4db_builder;
use crate::store::c4db_store;
use crate::store::c4db_store::C4DbCommandStore;
use crate::store::command_store::{CommandRecordView, CommandStore, StoreError};
use crate::store::formats::{DataPointer, IndexEntry, DATA_HEADER_LEN};
use crate::store::index_laws;
use crate::store::normalize;
use crate::store::scan_laws;

verus! {

/// Entering keys keeps what was entered before and files every key under
/// the pointer.
proof fn lemma_enter_all(m: Map<Seq<u8>, DataPointer>, keys: Seq<Seq<char>>, p: DataPointer, m1: Map<Seq<u8>, DataPointer>)
    requires
        c4db_builder::spec_enter_all(m, keys, p) == Ok::<Map<Seq<u8>, DataPointer>, Seq<char>>(m1),
    ensures
        forall|key: Seq<u8>| #[trigger] m.contains_key(key) ==> m1.contains_key(key) && m1[key] == m[key],
        forall|i: int|
            0 <= i < keys.len() ==> m1.contains_key(vstd::utf8::encode_utf8(#[trigger] keys[i])) && m1[vstd::utf8::encode_utf8(
                keys[i],
            )] == p,
        forall|key: Seq<u8>| #[trigger] m1.contains_key(key) ==> (m.contains_key(key) && m1[key] == m[key]) || m1[key] == p,
        forall|key: Seq<u8>|
            #[trigger] m1.contains_key(key) ==> m.contains_key(key) || exists|i: int| 0 <= i < keys.len() && key == vstd::utf8::encode_utf8(
                #[trigger] keys[i],
            ),
    decreases keys.len(),
{
    if keys.len() == 0 {
    } else {
        let init = keys.drop_last();
        match c4db_builder::spec_enter_all(m, init, p) {
            Ok(m0) => {
                lemma_enter_all(m, init, p, m0);
                assert forall|i: int| 0 <= i < keys.len() implies m1.contains_key(vstd::utf8::encode_utf8(#[trigger] keys[i]))
                    && m1[vstd::utf8::encode_utf8(keys[i])] == p by {
                    if i < keys.len() - 1 {
                        assert(keys[i] == init[i]);
                    }
                }
                assert forall|key: Seq<u8>| #[trigger] m1.contains_key(key) implies m.contains_key(key) || exists|i: int|
                    0 <= i < keys.len() && key == vstd::utf8::encode_utf8(#[trigger] keys[i]) by {
                    if !m.contains_key(key) {
                        if m0.contains_key(key) {
                            let i = choose|i: int| 0 <= i < init.len() && key == vstd::utf8::encode_utf8(#[trigger] init[i]);
                            assert(keys[i] == init[i]);
                        } else {
                            assert(key == vstd::utf8::encode_utf8(keys[keys.len() - 1]));
                        }
                    }
                }
            },
            Err(_) => {},
        }
    }
}

/// In a key map that the records' keys were entered into without a clash,
/// every key of a record is filed under that record's pointer.
proof fn lemma_index_map(recs: Seq<CommandRecordView>, ptrs: Seq<DataPointer>, m: Map<Seq<u8>, DataPointer>)
    requires
        c4db_builder::spec_index_map(recs, ptrs) == Ok::<Map<Seq<u8>, DataPointer>, Seq<char>>(m),
    ensures
        forall|k: int, i: int|
            0 <= k < recs.len() && 0 <= i < c4db_builder::spec_record_keys(recs[k]).len() ==> m.contains_key(
                vstd::utf8::encode_utf8(#[trigger] c4db_builder::spec_record_keys(recs[k])[i]),
            ) && m[vstd::utf8::encode_utf8(c4db_builder::spec_record_keys(recs[k])[i])] == ptrs[k],
    decreases recs.len(),
{
    if recs.len() > 0 {
        let init = recs.drop_last();
        let n = recs.len() - 1;
        match c4db_builder::spec_index_map(init, ptrs) {
            Ok(m0) => {
                lemma_index_map(init, ptrs, m0);
                lemma_enter_all(m0, c4db_builder::spec_record_keys(recs.last()), ptrs[n], m);
                assert forall|k: int, i: int|
                    0 <= k < recs.len() && 0 <= i < c4db_builder::spec_record_keys(recs[k]).len() implies m.contains_key(
                    vstd::utf8::encode_utf8(#[trigger] c4db_builder::spec_record_keys(recs[k])[i]),
                ) && m[vstd::utf8::encode_utf8(c4db_builder::spec_record_keys(recs[k])[i])] == ptrs[k] by {
                    if k < n {
                        assert(recs[k] == init[k]);
                        let key = vstd::utf8::encode_utf8(c4db_builder::spec_record_keys(init[k])[i]);
                        assert(m0.contains_key(key));
                    }
                }
            },
            Err(_) => {},
        }
    }
}

/// The place of an example's exact key among the keys of its table.
proof fn lemma_table_key_index(table: Seq<(Seq<char>, Seq<Seq<char>>)>, p: int, e: int) -> (i: int)
    requires
        0 <= p < table.len(),
        0 <= e < table[p].1.len(),
    ensures
        0 <= i < c4db_builder::table_keys(table).len(),
        c4db_builder::table_keys(table)[i] == normalize::spec_exact_command_key(table[p].1[e]),
    decreases table.len(),
{
    let init = table.drop_last();
    let tail = table.last().1.map_values(|x: Seq<char>| normalize::spec_exact_command_key(x));
    assert(c4db_builder::table_keys(table) == c4db_builder::table_keys(init) + tail);
    if p == table.len() - 1 {
        c4db_builder::table_keys(init).len() + e
    } else {
        assert(table[p] == init[p]);
        lemma_table_key_index(init, p, e)
    }
}

/// The pointers of framed blobs address strictly increasing offsets.
proof fn lemma_pointer_offsets(blobs: Seq<Seq<u8>>, at: int)
    requires
        at >= 0,
        at + c4db_builder::framed_blobs(blobs).len() <= u64::MAX,
    ensures
        c4db_builder::blob_pointers(blobs, at).len() == blobs.len(),
        forall|i: int|
            0 <= i < blobs.len() ==> at < (#[trigger] c4db_builder::blob_pointers(blobs, at)[i]).offset <= at
                + c4db_builder::framed_blobs(blobs).len(),
        forall|i: int, j: int|
            0 <= i < j < blobs.len() ==> (#[trigger] c4db_builder::blob_pointers(blobs, at)[i]).offset
                < (#[trigger] c4db_builder::blob_pointers(blobs, at)[j]).offset,
    decreases blobs.len(),
{
    if blobs.len() > 0 {
        vstd::bytes::lemma_auto_spec_u32_to_from_le_bytes();
        let rest = blobs.drop_first();
        let next = at + 4 + blobs[0].len();
        assert(c4db_builder::framed_blobs(blobs) == vstd::bytes::spec_u32_to_le_bytes(blobs[0].len() as u32) + blobs[0]
            + c4db_builder::framed_blobs(rest));
        lemma_pointer_offsets(rest, next);
        let bp = c4db_builder::blob_pointers(blobs, at);
        let rp = c4db_builder::blob_pointers(rest, next);
        assert(bp == seq![DataPointer { offset: (at + 4) as u64, len: blobs[0].len() as u32 }] + rp);
        assert forall|i: int| 0 <= i < blobs.len() implies at < (#[trigger] bp[i]).offset <= at + c4db_builder::framed_blobs(
            blobs,
        ).len() by {
            if i > 0 {
                assert(bp[i] == rp[i - 1]);
            }
        }
        assert forall|i: int, j: int| 0 <= i < j < blobs.len() implies (#[trigger] bp[i]).offset < (#[trigger] bp[j]).offset by {
            assert(bp[j] == rp[j - 1]);
            if i > 0 {
                assert(bp[i] == rp[i - 1]);
            }
        }
    }
}

/// The record stored under the pointer of entry `k`, when no earlier entry
/// has that pointer.
proof fn lemma_record_at(entries: Seq<(DataPointer, CommandRecordView)>, k: int)
    requires
        0 <= k < entries.len(),
        forall|u: int| 0 <= u < k ==> (#[trigger] entries[u]).0 != entries[k].0,
    ensures
        c4db_store::spec_record_at(entries, entries[k].0) == Some(entries[k].1),
    decreases k,
{
    if k > 0 {
        assert(entries[0].0 != entries[k].0);
        let rest = entries.drop_first();
        assert(rest[k - 1] == entries[k]);
        assert forall|u: int| 0 <= u < k - 1 implies (#[trigger] rest[u]).0 != rest[k - 1].0 by {
            assert(rest[u] == entries[u + 1]);
        }
        lemma_record_at(rest, k - 1);
    }
}

/// The first entry with a key of a described map is the map's value.
proof fn lemma_first_match_map(es: Seq<IndexEntry>, m: Map<Seq<u8>, DataPointer>, key: Seq<u8>)
    requires
        c4db_builder::entries_describe(es, m),
        m.contains_key(key),
    ensures
        index_laws::first_match(bplus_tree::entries_view(es), key) == Some(m[key]),
{
    let ev = bplus_tree::entries_view(es);
    if forall|i: int| 0 <= i < ev.len() ==> (#[trigger] ev[i]).0 != key {
        c4db_builder::lemma_entry_map_absent(ev, key);
    } else {
        let i = choose|i: int| 0 <= i < ev.len() && (#[trigger] ev[i]).0 == key;
        c4db_builder::lemma_entry_map_at(ev, i);
        index_laws::lemma_first_match_at(ev, i, key);
    }
}

/// The index file built for the records answers a key of the key map with
/// the pointer the map files it under.
#[verifier::spinoff_prover]
proof fn lemma_built_index_get(index: Seq<u8>, m: Map<Seq<u8>, DataPointer>, key: Seq<u8>, h: crate::store::formats::IndexHeader)
    requires
        exists|es: Seq<IndexEntry>| #[trigger] c4db_builder::entries_describe(es, m)
            && bplus_tree::spec_write_index(bplus_tree::entries_view(es)) == Ok::<Seq<u8>, bplus_tree::IndexError>(index),
        bplus_tree::spec_index_header(index) == Ok::<crate::store::formats::IndexHeader, bplus_tree::IndexError>(h),
        m.contains_key(key),
    ensures
        bplus_tree::tree_get(index, h, key) == Ok::<Option<DataPointer>, bplus_tree::IndexError>(Some(m[key])),
{
    let es = choose|es: Seq<IndexEntry>| #[trigger] c4db_builder::entries_describe(es, m)
        && bplus_tree::spec_write_index(bplus_tree::entries_view(es)) == Ok::<Seq<u8>, bplus_tree::IndexError>(index);
    let ev = bplus_tree::entries_view(es);
    index_laws::law_written_index_answers(es, index, key);
    lemma_first_match_map(es, m, key);
}

/// The store opened from the built data file holds record `k` under the
/// pointer of blob `k`, which no earlier record shares.
#[verifier::spinoff_prover]
proof fn lemma_store_record_at(recs: Seq<CommandRecordView>, blobs: Seq<Seq<u8>>, data: Seq<u8>, entries: Seq<(DataPointer, CommandRecordView)>, k: int)
    requires
        c4db_builder::blobs_fit(blobs),
        data == c4db_builder::spec_data_file(blobs),
        data.len() <= u64::MAX,
        recs.len() == blobs.len(),
        entries.len() == recs.len(),
        c4db_store::spec_frames(data) matches Ok(ptrs) && ptrs.len() == recs.len()
            && forall|u: int| 0 <= u < recs.len() ==> #[trigger] entries[u] == (ptrs[u], recs[u]),
        0 <= k < recs.len(),
    ensures
        c4db_store::spec_record_at(entries, c4db_builder::blob_pointers(blobs, DATA_HEADER_LEN as int)[k]) == Some(recs[k]),
{
    let ptrs = c4db_builder::blob_pointers(blobs, DATA_HEADER_LEN as int);
    c4db_builder::law_data_file_round_trip(blobs);
    vstd::bytes::lemma_auto_spec_u32_to_from_le_bytes();
    vstd::bytes::lemma_auto_spec_u64_to_from_le_bytes();
    assert(data.len() == DATA_HEADER_LEN + c4db_builder::framed_blobs(blobs).len());
    lemma_pointer_offsets(blobs, DATA_HEADER_LEN as int);
    assert(entries[k] == (ptrs[k], recs[k]));
    assert forall|u: int| 0 <= u < k implies (#[trigger] entries[u]).0 != entries[k].0 by {
        assert(entries[u] == (ptrs[u], recs[u]));
    }
    lemma_record_at(entries, k);
}

/// A key the builder filed under the pointer of record `k` leads a store
/// opened from the built files to record `k`.
#[verifier::spinoff_prover]
#[verifier::rlimit(80)]
proof fn lemma_key_finds_record(
    recs: Seq<CommandRecordView>,
    blobs: Seq<Seq<u8>>,
    index: Seq<u8>,
    data: Seq<u8>,
    store: C4DbCommandStore,
    m: Map<Seq<u8>, DataPointer>,
    k: int,
    key: Seq<u8>,
)
    requires
        c4db_builder::built_files(recs, blobs, index, data),
        store.opened_from(index, data, recs),
        0 <= k < recs.len(),
        c4db_builder::spec_index_map(recs, c4db_builder::blob_pointers(blobs, DATA_HEADER_LEN as int)) == Ok::<
            Map<Seq<u8>, DataPointer>,
            Seq<char>,
        >(m),
        m.contains_key(key),
        m[key] == c4db_builder::blob_pointers(blobs, DATA_HEADER_LEN as int)[k],
    ensures
        bplus_tree::tree_get(store.index_bytes(), store.index_header(), key) == Ok::<Option<DataPointer>, bplus_tree::IndexError>(
            Some(m[key]),
        ),
        c4db_store::spec_lookup_result(store.entries(), bplus_tree::tree_get(store.index_bytes(), store.index_header(), key))
            == Ok::<Option<CommandRecordView>, StoreError>(Some(recs[k])),
{
    lemma_built_index_get(index, m, key, store.index_header());
    lemma_store_record_at(recs, blobs, data, store.entries(), k);
}

/// A command whose exact key the index answers with a pointer is looked up
/// through that pointer, without the scan.
proof fn lemma_command_lookup_hit(store: C4DbCommandStore, c: Seq<char>, p: DataPointer)
    requires
        bplus_tree::tree_get(store.index_bytes(), store.index_header(), c4db_store::key_of(normalize::spec_exact_command_key(c)))
            == Ok::<Option<DataPointer>, bplus_tree::IndexError>(Some(p)),
    ensures
        store.command_lookup(c) == c4db_store::spec_lookup_result(
            store.entries(),
            Ok::<Option<DataPointer>, bplus_tree::IndexError>(Some(p)),
        ),
{
}

/// Record `k` of a built store is found by each of its example commands.
#[verifier::spinoff_prover]
#[verifier::rlimit(100)]
proof fn lemma_example_found(
    recs: Seq<CommandRecordView>,
    blobs: Seq<Seq<u8>>,
    index: Seq<u8>,
    data: Seq<u8>,
    store: C4DbCommandStore,
    k: int,
    p: int,
    e: int,
)
    requires
        c4db_builder::built_files(recs, blobs, index, data),
        store.opened_from(index, data, recs),
        0 <= k < recs.len(),
        0 <= p < recs[k].commands.len(),
        0 <= e < recs[k].commands[p].1.len(),
    ensures
        store.command_lookup(recs[k].commands[p].1[e]) == Ok::<Option<CommandRecordView>, StoreError>(Some(recs[k])),
{
    let ptrs = c4db_builder::blob_pointers(blobs, DATA_HEADER_LEN as int);
    let m = c4db_builder::spec_index_map(recs, ptrs)->Ok_0;
    let keys = c4db_builder::spec_record_keys(recs[k]);
    let i = lemma_table_key_index(recs[k].commands, p, e);
    let c = recs[k].commands[p].1[e];
    assert(keys[2 + i] == normalize::spec_exact_command_key(c));
    let key = vstd::utf8::encode_utf8(keys[2 + i]);
    assert(m.contains_key(key) && m[key] == ptrs[k]) by {
        lemma_index_map(recs, ptrs, m);
    }
    lemma_key_finds_record(recs, blobs, index, data, store, m, k, key);
    lemma_command_lookup_hit(store, c, m[key]);
}

/// Record `k` of a built store is found by its intent.
#[verifier::spinoff_prover]
#[verifier::rlimit(100)]
proof fn lemma_intent_found(
    recs: Seq<CommandRecordView>,
    blobs: Seq<Seq<u8>>,
    index: Seq<u8>,
    data: Seq<u8>,
    store: C4DbCommandStore,
    k: int,
)
    requires
        c4db_builder::built_files(recs, blobs, index, data),
        store.opened_from(index, data, recs),
        0 <= k < recs.len(),
    ensures
        store.intent_lookup(recs[k].intent) == Ok::<Option<CommandRecordView>, StoreError>(Some(recs[k])),
{
    let ptrs = c4db_builder::blob_pointers(blobs, DATA_HEADER_LEN as int);
    let m = c4db_builder::spec_index_map(recs, ptrs)->Ok_0;
    let keys = c4db_builder::spec_record_keys(recs[k]);
    assert(keys[0] == normalize::spec_intent_key(recs[k].intent));
    let key = vstd::utf8::encode_utf8(keys[0]);
    assert(m.contains_key(key) && m[key] == ptrs[k]) by {
        lemma_index_map(recs, ptrs, m);
    }
    lemma_key_finds_record(recs, blobs, index, data, store, m, k, key);
}

/// Law: a store opened from the files built for `recs` finds every record
/// by its intent and by each of its example commands.
pub proof fn law_built_store_finds_records(
    recs: Seq<CommandRecordView>,
    blobs: Seq<Seq<u8>>,
    index: Seq<u8>,
    data: Seq<u8>,
    store: C4DbCommandStore,
    k: int,
)
    requires
        c4db_builder::built_files(recs, blobs, index, data),
        store.opened_from(index, data, recs),
        0 <= k < recs.len(),
    ensures
        store.intent_lookup(recs[k].intent) == Ok::<Option<CommandRecordView>, StoreError>(Some(recs[k])),
        forall|p: int, e: int|
            0 <= p < recs[k].commands.len() && 0 <= e < recs[k].commands[p].1.len() ==> store.command_lookup(
                #[trigger] recs[k].commands[p].1[e],
            ) == Ok::<Option<CommandRecordView>, StoreError>(Some(recs[k])),
{
    lemma_intent_found(recs, blobs, index, data, store, k);
    assert forall|p: int, e: int|
        0 <= p < recs[k].commands.len() && 0 <= e < recs[k].commands[p].1.len() implies store.command_lookup(
        #[trigger] recs[k].commands[p].1[e],
    ) == Ok::<Option<CommandRecordView>, StoreError>(Some(recs[k])) by {
        lemma_example_found(recs, blobs, index, data, store, k, p, e);
    }
}

/// Every pointer of the key map is the pointer of one of the records.
proof fn lemma_index_map_values(recs: Seq<CommandRecordView>, ptrs: Seq<DataPointer>, m: Map<Seq<u8>, DataPointer>)
    requires
        c4db_builder::spec_index_map(recs, ptrs) == Ok::<Map<Seq<u8>, DataPointer>, Seq<char>>(m),
    ensures
        forall|key: Seq<u8>| #[trigger] m.contains_key(key) ==> exists|k: int| 0 <= k < recs.len() && m[key] == ptrs[k],
    decreases recs.len(),
{
    if recs.len() > 0 {
        let init = recs.drop_last();
        let n = recs.len() - 1;
        match c4db_builder::spec_index_map(init, ptrs) {
            Ok(m0) => {
                lemma_index_map_values(init, ptrs, m0);
                lemma_enter_all(m0, c4db_builder::spec_record_keys(recs.last()), ptrs[n], m);
                assert forall|key: Seq<u8>| #[trigger] m.contains_key(key) implies exists|k: int| 0 <= k < recs.len() && m[key] == ptrs[k] by {
                    if m0.contains_key(key) && m[key] == m0[key] {
                        let k = choose|k: int| 0 <= k < init.len() && m0[key] == ptrs[k];
                        assert(0 <= k < recs.len() && m[key] == ptrs[k]);
                    } else {
                        assert(m[key] == ptrs[n]);
                    }
                }
            },
            Err(_) => {},
        }
    }
}

proof fn lemma_encode_concat(a: Seq<char>, b: Seq<char>)
    ensures
        vstd::utf8::encode_utf8(a + b) == vstd::utf8::encode_utf8(a) + vstd::utf8::encode_utf8(b),
    decreases a.len(),
{
    if a.len() == 0 {
        assert(a + b =~= b);
        assert(vstd::utf8::encode_utf8(a) =~= Seq::<u8>::empty());
        assert(Seq::<u8>::empty() + vstd::utf8::encode_utf8(b) =~= vstd::utf8::encode_utf8(b));
    } else {
        assert((a + b).drop_first() =~= a.drop_first() + b);
        assert((a + b)[0] == a[0]);
        lemma_encode_concat(a.drop_first(), b);
        let x = vstd::utf8::encode_scalar(a[0] as u32);
        assert(x + (vstd::utf8::encode_utf8(a.drop_first()) + vstd::utf8::encode_utf8(b)) =~= (x + vstd::utf8::encode_utf8(
            a.drop_first(),
        )) + vstd::utf8::encode_utf8(b));
    }
}

proof fn lemma_prefix_ptrs_member(s: Seq<crate::store::bplus_tree::EntryView>, i: int, pre: Seq<u8>)
    requires
        0 <= i < s.len(),
        crate::store::formats::bytes_starts_with(s[i].0, pre),
    ensures
        scan_laws::prefix_ptrs(s, pre).contains(s[i].1),
    decreases i,
{
    let pp = scan_laws::prefix_ptrs(s, pre);
    if i == 0 {
        assert(pp[0] == s[0].1);
    } else {
        let rest = s.drop_first();
        assert(rest[i - 1] == s[i]);
        lemma_prefix_ptrs_member(rest, i - 1, pre);
        let rp = scan_laws::prefix_ptrs(rest, pre);
        let t = choose|t: int| 0 <= t < rp.len() && rp[t] == s[i].1;
        if crate::store::formats::bytes_starts_with(s[0].0, pre) {
            assert(pp[t + 1] == rp[t]);
        } else {
            assert(pp[t] == rp[t]);
        }
    }
}

proof fn lemma_prefix_ptrs_from(s: Seq<crate::store::bplus_tree::EntryView>, pre: Seq<u8>)
    ensures
        forall|t: int| 0 <= t < scan_laws::prefix_ptrs(s, pre).len() ==> exists|i: int| 0 <= i < s.len() && #[trigger] scan_laws::prefix_ptrs(
            s,
            pre,
        )[t] == s[i].1,
    decreases s.len(),
{
    if s.len() > 0 {
        let rest = s.drop_first();
        lemma_prefix_ptrs_from(rest, pre);
        let pp = scan_laws::prefix_ptrs(s, pre);
        let rp = scan_laws::prefix_ptrs(rest, pre);
        assert forall|t: int| 0 <= t < pp.len() implies exists|i: int| 0 <= i < s.len() && #[trigger] pp[t] == s[i].1 by {
            if crate::store::formats::bytes_starts_with(s[0].0, pre) {
                if t == 0 {
                    assert(pp[0] == s[0].1);
                } else {
                    assert(pp[t] == rp[t - 1]);
                    let i = choose|i: int| 0 <= i < rest.len() && rp[t - 1] == rest[i].1;
                    assert(rest[i] == s[i + 1]);
                }
            } else {
                assert(pp[t] == rp[t]);
                let i = choose|i: int| 0 <= i < rest.len() && rp[t] == rest[i].1;
                assert(rest[i] == s[i + 1]);
            }
        }
    }
}

/// The records behind pointers that each address a record.
proof fn lemma_records_at_all(entries: Seq<(DataPointer, CommandRecordView)>, ps: Seq<DataPointer>)
    requires
        forall|t: int| 0 <= t < ps.len() ==> c4db_store::spec_record_at(entries, #[trigger] ps[t]) is Some,
    ensures
        c4db_store::spec_records_at(entries, ps) matches Ok(list) && list.len() == ps.len() && forall|t: int|
            0 <= t < ps.len() ==> Some(#[trigger] list[t]) == c4db_store::spec_record_at(entries, ps[t]),
    decreases ps.len(),
{
    if ps.len() > 0 {
        let init = ps.drop_last();
        assert forall|t: int| 0 <= t < init.len() implies c4db_store::spec_record_at(entries, #[trigger] init[t]) is Some by {
            assert(init[t] == ps[t]);
        }
        lemma_records_at_all(entries, init);
        assert(c4db_store::spec_record_at(entries, ps[ps.len() - 1]) is Some);
        let list0 = c4db_store::spec_records_at(entries, init)->Ok_0;
        let list = c4db_store::spec_records_at(entries, ps)->Ok_0;
        assert forall|t: int| 0 <= t < ps.len() implies Some(#[trigger] list[t]) == c4db_store::spec_record_at(entries, ps[t]) by {
            if t < ps.len() - 1 {
                assert(list[t] == list0[t]);
                assert(init[t] == ps[t]);
            }
        }
    }
}

/// The entries written for the key map hold the key with its pointer.
proof fn lemma_entry_for_key(es: Seq<IndexEntry>, m: Map<Seq<u8>, DataPointer>, key: Seq<u8>) -> (i: int)
    requires
        c4db_builder::entries_describe(es, m),
        m.contains_key(key),
    ensures
        0 <= i < bplus_tree::entries_view(es).len(),
        bplus_tree::entries_view(es)[i] == (key, m[key]),
{
    let ev = bplus_tree::entries_view(es);
    if forall|i: int| 0 <= i < ev.len() ==> (#[trigger] ev[i]).0 != key {
        c4db_builder::lemma_entry_map_absent(ev, key);
        0
    } else {
        let i = choose|i: int| 0 <= i < ev.len() && (#[trigger] ev[i]).0 == key;
        c4db_builder::lemma_entry_map_at(ev, i);
        i
    }
}

/// Every pointer the scan of the built index returns addresses a record of
/// the built store.
#[verifier::spinoff_prover]
#[verifier::rlimit(60)]
proof fn lemma_scanned_records(
    recs: Seq<CommandRecordView>,
    blobs: Seq<Seq<u8>>,
    index: Seq<u8>,
    data: Seq<u8>,
    store: C4DbCommandStore,
    es: Seq<IndexEntry>,
    m: Map<Seq<u8>, DataPointer>,
    pre: Seq<u8>,
)
    requires
        c4db_builder::built_files(recs, blobs, index, data),
        store.opened_from(index, data, recs),
        c4db_builder::spec_index_map(recs, c4db_builder::blob_pointers(blobs, DATA_HEADER_LEN as int)) == Ok::<
            Map<Seq<u8>, DataPointer>,
            Seq<char>,
        >(m),
        c4db_builder::entries_describe(es, m),
    ensures
        ({
            let ps = scan_laws::prefix_ptrs(bplus_tree::entries_view(es), pre);
            forall|t: int| 0 <= t < ps.len() ==> c4db_store::spec_record_at(store.entries(), #[trigger] ps[t]) is Some
        }),
{
    let ptrs = c4db_builder::blob_pointers(blobs, DATA_HEADER_LEN as int);
    let ev = bplus_tree::entries_view(es);
    let ps = scan_laws::prefix_ptrs(ev, pre);
    lemma_prefix_ptrs_from(ev, pre);
    lemma_index_map_values(recs, ptrs, m);
    assert forall|t: int| 0 <= t < ps.len() implies c4db_store::spec_record_at(store.entries(), #[trigger] ps[t]) is Some by {
        let i = choose|i: int| 0 <= i < ev.len() && ps[t] == ev[i].1;
        c4db_builder::lemma_entry_map_at(ev, i);
        assert(m.contains_key(ev[i].0));
        let k = choose|k: int| 0 <= k < recs.len() && m[ev[i].0] == ptrs[k];
        lemma_store_record_at(recs, blobs, data, store.entries(), k);
    }
}

/// The category key of record `k` starts with the prefix of any category
/// name that normalizes like the record's, and is filed under its pointer.
#[verifier::spinoff_prover]
proof fn lemma_category_key_filed(
    recs: Seq<CommandRecordView>,
    ptrs: Seq<DataPointer>,
    m: Map<Seq<u8>, DataPointer>,
    k: int,
    category: Seq<char>,
) -> (key: Seq<u8>)
    requires
        c4db_builder::spec_index_map(recs, ptrs) == Ok::<Map<Seq<u8>, DataPointer>, Seq<char>>(m),
        0 <= k < recs.len(),
        normalize::spec_normalize_category(recs[k].category) == normalize::spec_normalize_category(category),
    ensures
        m.contains_key(key),
        m[key] == ptrs[k],
        crate::store::formats::bytes_starts_with(key, c4db_store::key_of(normalize::spec_category_prefix(category))),
{
    lemma_index_map(recs, ptrs, m);
    let prefix = normalize::spec_category_prefix(category);
    let pre = c4db_store::key_of(prefix);
    let keys = c4db_builder::spec_record_keys(recs[k]);
    let cat_key = keys[1];
    assert(cat_key == prefix + normalize::spec_normalize_intent(recs[k].intent));
    let enc = vstd::utf8::encode_utf8(cat_key);
    lemma_encode_concat(prefix, normalize::spec_normalize_intent(recs[k].intent));
    assert(enc.subrange(0, pre.len() as int) =~= pre);
    enc
}

/// What the built store lists for a category: the records behind the
/// pointers of the keys that start with the category's prefix.
#[verifier::spinoff_prover]
#[verifier::rlimit(60)]
proof fn lemma_listing(
    recs: Seq<CommandRecordView>,
    blobs: Seq<Seq<u8>>,
    index: Seq<u8>,
    data: Seq<u8>,
    store: C4DbCommandStore,
    es: Seq<IndexEntry>,
    m: Map<Seq<u8>, DataPointer>,
    category: Seq<char>,
)
    requires
        c4db_builder::built_files(recs, blobs, index, data),
        store.opened_from(index, data, recs),
        c4db_builder::spec_index_map(recs, c4db_builder::blob_pointers(blobs, DATA_HEADER_LEN as int)) == Ok::<
            Map<Seq<u8>, DataPointer>,
            Seq<char>,
        >(m),
        c4db_builder::entries_describe(es, m),
        bplus_tree::spec_write_index(bplus_tree::entries_view(es)) == Ok::<Seq<u8>, bplus_tree::IndexError>(index),
    ensures
        ({
            let ps = scan_laws::prefix_ptrs(
                bplus_tree::entries_view(es),
                c4db_store::key_of(normalize::spec_category_prefix(category)),
            );
            store.category_listing(category) matches Ok(list) && list.len() == ps.len() && forall|t: int|
                0 <= t < ps.len() ==> Some(#[trigger] list[t]) == c4db_store::spec_record_at(store.entries(), ps[t])
        }),
{
    let ev = bplus_tree::entries_view(es);
    let pre = c4db_store::key_of(normalize::spec_category_prefix(category));
    scan_laws::law_written_index_scans(es, index, pre);
    let ps = scan_laws::prefix_ptrs(ev, pre);
    lemma_scanned_records(recs, blobs, index, data, store, es, m, pre);
    lemma_records_at_all(store.entries(), ps);
}

/// Law: a store opened from the files built for `recs` lists every record
/// under its category, named in any spelling that normalizes alike.
pub proof fn law_built_store_lists_categories(
    recs: Seq<CommandRecordView>,
    blobs: Seq<Seq<u8>>,
    index: Seq<u8>,
    data: Seq<u8>,
    store: C4DbCommandStore,
    k: int,
    category: Seq<char>,
)
    requires
        c4db_builder::built_files(recs, blobs, index, data),
        store.opened_from(index, data, recs),
        0 <= k < recs.len(),
        normalize::spec_normalize_category(recs[k].category) == normalize::spec_normalize_category(category),
    ensures
        store.category_listing(category) matches Ok(list) && list.contains(recs[k]),
{
    let ptrs = c4db_builder::blob_pointers(blobs, DATA_HEADER_LEN as int);
    let m = c4db_builder::spec_index_map(recs, ptrs)->Ok_0;
    let es = choose|es: Seq<IndexEntry>| #[trigger] c4db_builder::entries_describe(es, m)
        && bplus_tree::spec_write_index(bplus_tree::entries_view(es)) == Ok::<Seq<u8>, bplus_tree::IndexError>(index);
    let ev = bplus_tree::entries_view(es);
    let pre = c4db_store::key_of(normalize::spec_category_prefix(category));
    let key = lemma_category_key_filed(recs, ptrs, m, k, category);
    let i = lemma_entry_for_key(es, m, key);
    lemma_prefix_ptrs_member(ev, i, pre);
    lemma_listing(recs, blobs, index, data, store, es, m, category);
    let ps = scan_laws::prefix_ptrs(ev, pre);
    let t = choose|t: int| 0 <= t < ps.len() && ps[t] == ptrs[k];
    lemma_store_record_at(recs, blobs, data, store.entries(), k);
    let list = store.category_listing(category)->Ok_0;
    assert(list[t] == recs[k]);
}

/// Every key of the key map is a key of one of the records.
proof fn lemma_index_map_keys(recs: Seq<CommandRecordView>, ptrs: Seq<DataPointer>, m: Map<Seq<u8>, DataPointer>)
    requires
        c4db_builder::spec_index_map(recs, ptrs) == Ok::<Map<Seq<u8>, DataPointer>, Seq<char>>(m),
    ensures
        forall|key: Seq<u8>|
            #[trigger] m.contains_key(key) ==> exists|k: int, i: int|
                0 <= k < recs.len() && 0 <= i < c4db_builder::spec_record_keys(recs[k]).len() && key
                    == vstd::utf8::encode_utf8(#[trigger] c4db_builder::spec_record_keys(recs[k])[i]),
    decreases recs.len(),
{
    if recs.len() > 0 {
        let init = recs.drop_last();
        let n = recs.len() - 1;
        match c4db_builder::spec_index_map(init, ptrs) {
            Ok(m0) => {
                lemma_index_map_keys(init, ptrs, m0);
                let keys = c4db_builder::spec_record_keys(recs.last());
                lemma_enter_all(m0, keys, ptrs[n], m);
                assert forall|key: Seq<u8>| #[trigger] m.contains_key(key) implies exists|k: int, i: int|
                    0 <= k < recs.len() && 0 <= i < c4db_builder::spec_record_keys(recs[k]).len() && key
                        == vstd::utf8::encode_utf8(#[trigger] c4db_builder::spec_record_keys(recs[k])[i]) by {
                    if m0.contains_key(key) {
                        let (k, i) = choose|k: int, i: int|
                            0 <= k < init.len() && 0 <= i < c4db_builder::spec_record_keys(init[k]).len() && key
                                == vstd::utf8::encode_utf8(#[trigger] c4db_builder::spec_record_keys(init[k])[i]);
                        assert(init[k] == recs[k]);
                    } else {
                        let i = choose|i: int| 0 <= i < keys.len() && key == vstd::utf8::encode_utf8(#[trigger] keys[i]);
                        assert(recs[n] == recs.last());
                        assert(c4db_builder::spec_record_keys(recs[n])[i] == keys[i]);
                    }
                }
            },
            Err(_) => {},
        }
    }
}

/// The intent key of a name no record's intent normalizes to is no key of
/// the records.
proof fn lemma_unknown_intent_key(rec: CommandRecordView, intent: Seq<char>, i: int)
    requires
        normalize::spec_normalize_intent(rec.intent) != normalize::spec_normalize_intent(intent),
        0 <= i < c4db_builder::spec_record_keys(rec).len(),
    ensures
        vstd::utf8::encode_utf8(c4db_builder::spec_record_keys(rec)[i]) != vstd::utf8::encode_utf8(normalize::spec_intent_key(intent)),
{
    let keys = c4db_builder::spec_record_keys(rec);
    let target = normalize::spec_intent_key(intent);
    vstd::utf8::encode_utf8_decode_utf8(keys[i]);
    vstd::utf8::encode_utf8_decode_utf8(target);
    reveal_strlit("intent:");
    reveal_strlit("category:");
    reveal_strlit("exact:");
    assert(target[0] == 'i');
    if i == 0 {
        let own = normalize::spec_intent_key(rec.intent);
        assert(keys[0] == own);
        if own == target {
            assert(own.subrange(7, own.len() as int) =~= normalize::spec_normalize_intent(rec.intent));
            assert(target.subrange(7, target.len() as int) =~= normalize::spec_normalize_intent(intent));
        }
    } else if i == 1 {
        assert(keys[1][0] == 'c');
    } else {
        let t = c4db_builder::table_keys(rec.commands);
        assert(keys[i] == t[i - 2]);
        lemma_table_keys_exact(rec.commands, i - 2);
        assert(t[i - 2][0] == 'e');
    }
}

/// Every key of a table is the exact key of one of its examples.
proof fn lemma_table_keys_exact(table: Seq<(Seq<char>, Seq<Seq<char>>)>, i: int)
    requires
        0 <= i < c4db_builder::table_keys(table).len(),
    ensures
        exists|e: Seq<char>| c4db_builder::table_keys(table)[i] == #[trigger] normalize::spec_exact_command_key(e),
    decreases table.len(),
{
    let init = table.drop_last();
    let tail = table.last().1.map_values(|x: Seq<char>| normalize::spec_exact_command_key(x));
    assert(c4db_builder::table_keys(table) == c4db_builder::table_keys(init) + tail);
    if i < c4db_builder::table_keys(init).len() {
        lemma_table_keys_exact(init, i);
    } else {
        let e = table.last().1[i - c4db_builder::table_keys(init).len()];
        assert(c4db_builder::table_keys(table)[i] == normalize::spec_exact_command_key(e));
    }
}

/// Law: a store opened from the files built for `recs` answers an intent
/// that no record's intent normalizes like with no record.
#[verifier::spinoff_prover]
#[verifier::rlimit(100)]
pub proof fn law_built_store_unknown_intent(
    recs: Seq<CommandRecordView>,
    blobs: Seq<Seq<u8>>,
    index: Seq<u8>,
    data: Seq<u8>,
    store: C4DbCommandStore,
    intent: Seq<char>,
)
    requires
        c4db_builder::built_files(recs, blobs, index, data),
        store.opened_from(index, data, recs),
        forall|k: int| 0 <= k < recs.len() ==> normalize::spec_normalize_intent(#[trigger] recs[k].intent)
            != normalize::spec_normalize_intent(intent),
    ensures
        store.intent_lookup(intent) == Ok::<Option<CommandRecordView>, StoreError>(None),
{
    let ptrs = c4db_builder::blob_pointers(blobs, DATA_HEADER_LEN as int);
    let m = c4db_builder::spec_index_map(recs, ptrs)->Ok_0;
    let es = choose|es: Seq<IndexEntry>| #[trigger] c4db_builder::entries_describe(es, m)
        && bplus_tree::spec_write_index(bplus_tree::entries_view(es)) == Ok::<Seq<u8>, bplus_tree::IndexError>(index);
    let ev = bplus_tree::entries_view(es);
    let key = vstd::utf8::encode_utf8(normalize::spec_intent_key(intent));
    lemma_index_map_keys(recs, ptrs, m);
    assert(!m.contains_key(key)) by {
        if m.contains_key(key) {
            let (k, i) = choose|k: int, i: int|
                0 <= k < recs.len() && 0 <= i < c4db_builder::spec_record_keys(recs[k]).len() && key
                    == vstd::utf8::encode_utf8(#[trigger] c4db_builder::spec_record_keys(recs[k])[i]);
            lemma_unknown_intent_key(recs[k], intent, i);
        }
    }
    assert forall|i: int| 0 <= i < ev.len() implies (#[trigger] ev[i]).0 != key by {
        c4db_builder::lemma_entry_map_at(ev, i);
    }
    index_laws::lemma_first_match_none(ev, key);
    index_laws::law_written_index_answers(es, index, key);
}

} // verus!
