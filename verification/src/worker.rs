//! The worker's side: what it does with the coordinator's answer, the
//! partition a key falls in, the text that a map job adds to each
//! intermediate file, and the text of a reduce job's output file.

use std::hash::Hasher;
use vstd::prelude::*;
use vstd::string::*;
use vstd::utf8::encode_utf8;
use crate::job::{AskForJobReply, Job, JobStatus, JobType, JobView, ReportJobStatusRequest};
use crate::grouping::{lemma_map_output_reads_back, lemma_sorted_reduction_is_reduce_output};
use crate::order::sort_by_key;
use crate::record::{
    RecordError, all_keys_read_back, decode_records, decoded, encode_record, json_text,
    keys_read_back, record_line, records_view,
};
use crate::text::{decimal, lemma_split_takes_line, push_decimal, split_lines};

verus! {

/// One record: a key and the value that a map function gave it.
#[derive(Debug, Clone, PartialEq, Eq)]
pub struct KeyValue<T, U> {
    pub key: T,
    pub val: U,
}

impl<T, U> KeyValue<T, U> {
    /// The record of `key` and `val`.
    pub fn new(key: T, val: U) -> (record: KeyValue<T, U>)
        ensures
            record.key == key,
            record.val == val,
    {
        KeyValue { key, val }
    }
}

/// One step of FNV-1a: the byte is mixed in, then the hash is multiplied by
/// the FNV prime, modulo 2^64.
pub open spec fn fnv_step(hash: u64, byte: u8) -> u64 {
    (((hash ^ (byte as u64)) as int * 0x100000001b3) % 0x1_0000_0000_0000_0000) as u64
}

/// The 64-bit FNV-1a hash of `bytes`.
pub open spec fn fnv1a(bytes: Seq<u8>) -> u64
    decreases bytes.len(),
{
    if bytes.len() == 0 {
        0xcbf29ce484222325u64
    } else {
        fnv_step(fnv1a(bytes.drop_last()), bytes.last())
    }
}

/// Feeds `bytes` to a fresh `fnv::FnvHasher` and takes what it has then. The
/// hasher starts at the FNV offset basis, and for each byte in order it xors
/// the byte in and multiplies by the FNV prime with wrap-around.
#[verifier::external_body]
fn fnv1a_of(bytes: &[u8]) -> (hash: u64)
    ensures
        hash == fnv1a(bytes@),
{
    let mut hasher = fnv::FnvHasher::default();
    hasher.write(bytes);
    hasher.finish()
}

/// The hash by which keys are assigned to partitions: the low 31 bits of the
/// FNV-1a hash of the key's UTF-8 bytes.
pub open spec fn spec_ihash(key: Seq<char>) -> u64 {
    fnv1a(encode_utf8(key)) & 0x7fffffff
}

/// The partition of `key` among `num_reducer` partitions.
pub open spec fn spec_partition(key: Seq<char>, num_reducer: u32) -> u32
    recommends
        num_reducer > 0,
{
    (spec_ihash(key) % (num_reducer as u64)) as u32
}

/// Hashes a key to 31 bits.
pub fn ihash(key: &str) -> (hash: u64)
    ensures
        hash == spec_ihash(key@),
        hash <= 0x7fffffff,
{
    let full = fnv1a_of(key.as_bytes());
    assert(full & 0x7fffffff <= 0x7fffffff) by (bit_vector);
    full & 0x7fffffff
}

/// The partition that the records of `key` go to.
pub fn partition(key: &str, num_reducer: u32) -> (index: u32)
    requires
        num_reducer > 0,
    ensures
        index == spec_partition(key@, num_reducer),
        index < num_reducer,
{
    (ihash(key) % (num_reducer as u64)) as u32
}

/// The records among `records` whose key falls in the partition `index`, in
/// order.
pub open spec fn shard_records(records: Seq<(Seq<char>, u8)>, num_reducer: u32, index: u32) -> Seq<
    (Seq<char>, u8),
>
    decreases records.len(),
{
    if records.len() == 0 {
        Seq::empty()
    } else if spec_partition(records.last().0, num_reducer) == index {
        shard_records(records.drop_last(), num_reducer, index).push(records.last())
    } else {
        shard_records(records.drop_last(), num_reducer, index)
    }
}

/// The text of a list of records: the line of each, in order, each ended by
/// a newline.
pub open spec fn lines_text(records: Seq<(Seq<char>, u8)>) -> Seq<char>
    decreases records.len(),
{
    if records.len() == 0 {
        Seq::empty()
    } else {
        lines_text(records.drop_last()) + record_line(
            json_text(records.last().0),
            records.last().1,
        ) + seq!['\n']
    }
}

/// The text that `records` add to the intermediate file of the partition
/// `index`: the lines of those among them whose key falls in that partition.
pub open spec fn shard_text(records: Seq<(Seq<char>, u8)>, num_reducer: u32, index: u32) -> Seq<
    char,
> {
    lines_text(shard_records(records, num_reducer, index))
}

/// The lines of a list of records, in order, without their line breaks.
pub open spec fn record_lines(records: Seq<(Seq<char>, u8)>) -> Seq<Seq<char>> {
    Seq::new(records.len(), |i: int| record_line(json_text(records[i].0), records[i].1))
}

/// Sorts the records that a map function emitted into one buffer for each
/// partition: the text to append to that partition's intermediate file. It
/// always succeeds. Each record is one line of the buffer of its key's
/// partition and of no other buffer, whatever its key holds: taken apart at
/// its line breaks, a buffer gives the lines of its records, one for each.
pub fn partition_records(intermediate: &Vec<KeyValue<String, u8>>, num_reducer: u32) -> (buffers:
    Result<Vec<String>, RecordError>)
    requires
        num_reducer > 0,
    ensures
        buffers is Ok,
        buffers->Ok_0@.len() == num_reducer,
        forall|r: int|
            0 <= r < num_reducer ==> (#[trigger] buffers->Ok_0@[r])@ == shard_text(
                records_view(intermediate@),
                num_reducer,
                r as u32,
            ),
        forall|r: int|
            0 <= r < num_reducer ==> split_lines((#[trigger] buffers->Ok_0@[r])@) == (
                record_lines(shard_records(records_view(intermediate@), num_reducer, r as u32)),
                Seq::<char>::empty(),
            ),
{
    let mut shards: Vec<String> = Vec::new();
    let mut r: u32 = 0;
    while r < num_reducer
        invariant
            r <= num_reducer,
            shards@.len() == r,
            forall|k: int| 0 <= k < r ==> (#[trigger] shards@[k])@ == Seq::<char>::empty(),
        decreases num_reducer - r,
    {
        shards.push(String::new());
        r = r + 1;
    }
    let ghost all = records_view(intermediate@);
    let mut i: usize = 0;
    proof {
        assert forall|k: int| 0 <= k < num_reducer implies split_lines((#[trigger] shards@[k])@) == (
            record_lines(shard_records(all.take(0), num_reducer, k as u32)),
            Seq::<char>::empty(),
        ) by {
            assert(record_lines(shard_records(all.take(0), num_reducer, k as u32)) =~= Seq::<
                Seq<char>,
            >::empty());
        }
    }
    while i < intermediate.len()
        invariant
            i <= intermediate.len(),
            num_reducer > 0,
            all == records_view(intermediate@),
            shards@.len() == num_reducer,
            forall|k: int|
                0 <= k < num_reducer ==> (#[trigger] shards@[k])@ == shard_text(
                    all.take(i as int),
                    num_reducer,
                    k as u32,
                ),
            forall|k: int|
                0 <= k < num_reducer ==> split_lines((#[trigger] shards@[k])@) == (
                    record_lines(shard_records(all.take(i as int), num_reducer, k as u32)),
                    Seq::<char>::empty(),
                ),
        decreases intermediate.len() - i,
    {
        let record = &intermediate[i];
        let line = match encode_record(record) {
            Ok(line) => line,
            Err(e) => {
                return Err(e);
            },
        };
        let index = partition(record.key.as_str(), num_reducer) as usize;
        let ghost before = shards@;
        shards[index].append(line.as_str());
        shards[index].append("\n");
        proof {
            reveal_strlit("\n");
            let next = all.take(i + 1);
            assert(next.drop_last() =~= all.take(i as int));
            assert(next.last() == all[i as int]);
            assert forall|k: int| 0 <= k < num_reducer implies (#[trigger] shards@[k])@
                == shard_text(next, num_reducer, k as u32) && split_lines(shards@[k]@) == (
                record_lines(shard_records(next, num_reducer, k as u32)),
                Seq::<char>::empty(),
            ) by {
                let earlier = shard_records(all.take(i as int), num_reducer, k as u32);
                if k != index {
                    assert(shards@[k] == before[k]);
                } else {
                    assert(earlier.push(next.last()).drop_last() =~= earlier);
                    assert(shards@[k]@ =~= before[k]@ + line@ + seq!['\n']);
                    lemma_split_takes_line(before[k]@, line@);
                    assert(record_lines(earlier.push(next.last())) =~= record_lines(earlier).push(
                        line@,
                    ));
                }
            }
        }
        i = i + 1;
    }
    assert(all.take(i as int) =~= all);
    Ok(shards)
}

/// Each buffer of `shards`, taken apart at its line breaks, gives lines that
/// stand for the records of `emitted` whose key falls in its partition, in
/// order.
pub open spec fn reads_back(shards: Seq<String>, emitted: Seq<(Seq<char>, u8)>, num_reducer: u32) -> bool {
    forall|r: int, j: int|
        0 <= r < num_reducer && 0 <= j < shard_records(emitted, num_reducer, r as u32).len()
            ==> decoded(#[trigger] split_lines(shards[r]@).0[j]) == Some(
            shard_records(emitted, num_reducer, r as u32)[j],
        )
}

/// Sorts the records into one buffer for each partition as
/// [`partition_records`] does, after it has written each record and read it
/// back: fails exactly when reading the text of some key does not give the
/// key back, so that what it returns reads back as the records.
pub fn partition_records_checked(intermediate: &Vec<KeyValue<String, u8>>, num_reducer: u32) -> (buffers:
    Result<Vec<String>, RecordError>)
    requires
        num_reducer > 0,
    ensures
        buffers is Ok <==> all_keys_read_back(records_view(intermediate@)),
        buffers is Ok ==> is_map_output(buffers->Ok_0@, records_view(intermediate@), num_reducer)
            && reads_back(buffers->Ok_0@, records_view(intermediate@), num_reducer),
        buffers is Err ==> buffers->Err_0 == RecordError::Encode,
{
    if keys_read_back(intermediate) {
        let buffers = partition_records(intermediate, num_reducer);
        proof {
            let shards = buffers->Ok_0@;
            let emitted = records_view(intermediate@);
            assert forall|r: int, j: int|
                0 <= r < num_reducer && 0 <= j < shard_records(
                    emitted,
                    num_reducer,
                    r as u32,
                ).len() implies decoded(#[trigger] split_lines(shards[r]@).0[j]) == Some(
                shard_records(emitted, num_reducer, r as u32)[j],
            ) by {
                lemma_map_output_reads_back(shards, emitted, num_reducer, r as u32);
            }
        }
        buffers
    } else {
        Err(RecordError::Encode)
    }
}

/// The order of keys: the lexicographic order of their UTF-8 bytes.
pub open spec fn bytes_le(a: Seq<u8>, b: Seq<u8>) -> bool
    decreases a.len(),
{
    if a.len() == 0 {
        true
    } else if b.len() == 0 {
        false
    } else if a[0] != b[0] {
        a[0] < b[0]
    } else {
        bytes_le(a.drop_first(), b.drop_first())
    }
}

/// The key `a` is not after the key `b`.
pub open spec fn key_le(a: Seq<char>, b: Seq<char>) -> bool {
    bytes_le(encode_utf8(a), encode_utf8(b))
}

/// Whether the key `a` is not after the key `b`.
pub fn key_not_after(a: &str, b: &str) -> (yes: bool)
    ensures
        yes == key_le(a@, b@),
{
    let x = a.as_bytes();
    let y = b.as_bytes();
    let mut i: usize = 0;
    assert(x@.skip(0) =~= x@ && y@.skip(0) =~= y@);
    loop
        invariant
            i <= x@.len(),
            i <= y@.len(),
            x@ == encode_utf8(a@),
            y@ == encode_utf8(b@),
            bytes_le(x@, y@) == bytes_le(x@.skip(i as int), y@.skip(i as int)),
        decreases x@.len() - i,
    {
        if i >= x.len() {
            return true;
        }
        if i >= y.len() {
            return false;
        }
        if x[i] != y[i] {
            return x[i] < y[i];
        }
        proof {
            assert(x@.skip(i as int).drop_first() =~= x@.skip(i + 1));
            assert(y@.skip(i as int).drop_first() =~= y@.skip(i + 1));
        }
        i = i + 1;
    }
}

/// The records stand in ascending order of key.
pub open spec fn sorted_by_key(records: Seq<(Seq<char>, u8)>) -> bool {
    forall|i: int, j: int|
        0 <= i < j < records.len() ==> key_le((#[trigger] records[i]).0, (#[trigger] records[j]).0)
}

/// The values of the records of `key`, in the order of the records.
pub open spec fn values_of(records: Seq<(Seq<char>, u8)>, key: Seq<char>) -> Seq<u8>
    decreases records.len(),
{
    if records.len() == 0 {
        Seq::empty()
    } else if records.last().0 == key {
        values_of(records.drop_last(), key).push(records.last().1)
    } else {
        values_of(records.drop_last(), key)
    }
}

/// The number of records from the position `from` on that have the key
/// `key`, up to the first that has another.
pub open spec fn run_len(records: Seq<(Seq<char>, u8)>, key: Seq<char>, from: int) -> nat
    decreases records.len() - from,
{
    if 0 <= from < records.len() && records[from].0 == key {
        1 + run_len(records, key, from + 1)
    } else {
        0
    }
}

/// A run ends within the records.
pub proof fn lemma_run_len_bound(records: Seq<(Seq<char>, u8)>, key: Seq<char>, from: int)
    requires
        0 <= from <= records.len(),
    ensures
        from + run_len(records, key, from) <= records.len(),
    decreases records.len() - from,
{
    if from < records.len() && records[from].0 == key {
        lemma_run_len_bound(records, key, from + 1);
    }
}

/// The maximal runs of records with equal keys from the position `from` on:
/// for each run its key and its values, in order.
pub open spec fn groups_from(records: Seq<(Seq<char>, u8)>, from: int) -> Seq<
    (Seq<char>, Seq<u8>),
>
    decreases records.len() - from,
{
    if 0 <= from < records.len() {
        let key = records[from].0;
        let count = 1 + run_len(records, key, from + 1);
        proof {
            lemma_run_len_bound(records, key, from + 1);
        }
        seq![(key, Seq::new(count, |k: int| records[from + k].1))] + groups_from(
            records,
            from + count,
        )
    } else {
        Seq::empty()
    }
}

/// The maximal runs of records with equal keys. On records sorted by key
/// there is one run for each key.
pub open spec fn groups(records: Seq<(Seq<char>, u8)>) -> Seq<(Seq<char>, Seq<u8>)> {
    groups_from(records, 0)
}

/// `result` is what `reducefunc` may return for the key and the values of
/// `group`.
pub open spec fn reduced<F: Fn(&str, Vec<u8>) -> usize>(
    reducefunc: &F,
    group: (Seq<char>, Seq<u8>),
    result: usize,
) -> bool {
    exists|key: &str, values: Vec<u8>|
        key@ == group.0 && values@ == group.1 && #[trigger] reducefunc.ensures(
            (key, values),
            result,
        )
}

/// `results` holds, for each maximal run of `records` with equal keys, in
/// order, the run's key and what `reducefunc` may return for the run.
pub open spec fn is_reduction<F: Fn(&str, Vec<u8>) -> usize>(
    reducefunc: &F,
    records: Seq<(Seq<char>, u8)>,
    results: Seq<(Seq<char>, usize)>,
) -> bool {
    &&& results.len() == groups(records).len()
    &&& forall|g: int|
        0 <= g < results.len() ==> (#[trigger] results[g]).0 == groups(records)[g].0 && reduced(
            reducefunc,
            groups(records)[g],
            results[g].1,
        )
}

/// Some record at the position `from` or later has the key `key`.
pub open spec fn occurs_from(records: Seq<(Seq<char>, u8)>, key: Seq<char>, from: int) -> bool {
    exists|p: int| from <= p < records.len() && (#[trigger] records[p]).0 == key
}

/// Some result is the result of the key `key`.
pub open spec fn has_result(results: Seq<(Seq<char>, usize)>, key: Seq<char>) -> bool {
    exists|g: int| 0 <= g < results.len() && (#[trigger] results[g]).0 == key
}

/// `results` is the output of the reduce side for `records`: one result for
/// each key that a record has and for no other, in strictly ascending order
/// of key, each being what `reducefunc` may return for the key and all its
/// values in the order of the records.
pub open spec fn is_reduce_output<F: Fn(&str, Vec<u8>) -> usize>(
    reducefunc: &F,
    records: Seq<(Seq<char>, u8)>,
    results: Seq<(Seq<char>, usize)>,
) -> bool {
    &&& forall|g: int|
        0 <= g < results.len() ==> occurs_from(records, (#[trigger] results[g]).0, 0) && reduced(
            reducefunc,
            (results[g].0, values_of(records, results[g].0)),
            results[g].1,
        )
    &&& forall|g: int, h: int|
        0 <= g < h < results.len() ==> (#[trigger] results[g]).0 != (#[trigger] results[h]).0
            && key_le(results[g].0, results[h].0)
    &&& forall|i: int| 0 <= i < records.len() ==> has_result(results, (#[trigger] records[i]).0)
}

/// Calls the reduce function once for each maximal run of records with equal
/// keys, on the run's key and its values in the order of the records, and
/// returns each key with the result, in the order of the runs.
pub fn collapse<F: Fn(&str, Vec<u8>) -> usize>(
    intermediate: &Vec<KeyValue<String, u8>>,
    reducefunc: &F,
) -> (results: Vec<KeyValue<String, usize>>)
    requires
        forall|key: &str, values: Vec<u8>| reducefunc.requires((key, values)),
    ensures
        is_reduction(reducefunc, records_view(intermediate@), results_view(results@)),
{
    let ghost all = records_view(intermediate@);
    let ghost mut done: Seq<(Seq<char>, Seq<u8>)> = Seq::empty();
    let mut results: Vec<KeyValue<String, usize>> = Vec::new();
    let len = intermediate.len();
    let mut i: usize = 0;
    while i < len
        invariant
            i <= len,
            len == intermediate@.len(),
            all == records_view(intermediate@),
            groups(all) == done + groups_from(all, i as int),
            results@.len() == done.len(),
            forall|key: &str, values: Vec<u8>| reducefunc.requires((key, values)),
            forall|g: int|
                0 <= g < results@.len() ==> (#[trigger] results@[g]).key@ == done[g].0 && reduced(
                    reducefunc,
                    done[g],
                    results@[g].val,
                ),
        decreases len - i,
    {
        let ghost key = all[i as int].0;
        let mut vals: Vec<u8> = Vec::new();
        vals.push(intermediate[i].val);
        let mut count: usize = 1;
        while count < len - i && intermediate[i + count].key == intermediate[i].key
            invariant
                i < len,
                1 <= count <= len - i,
                len == intermediate@.len(),
                all == records_view(intermediate@),
                key == all[i as int].0,
                run_len(all, key, i + 1) == (count - 1) + run_len(all, key, i + count),
                vals@.len() == count,
                forall|k: int| 0 <= k < count ==> #[trigger] vals@[k] == all[i + k].1,
            decreases len - i - count,
        {
            assert(all[i + count].0 == key);
            vals.push(intermediate[i + count].val);
            count = count + 1;
        }
        proof {
            assert(all[i as int].0 == intermediate@[i as int].key@);
            if count < len - i {
                assert(all[i + count].0 != key);
            }
            assert(run_len(all, key, i + count) == 0);
        }
        let ghost group = (key, vals@);
        assert(group.1 =~= Seq::new(count as nat, |k: int| all[i + k].1));
        let result = reducefunc(intermediate[i].key.as_str(), vals);
        results.push(KeyValue::new(intermediate[i].key.clone(), result));
        proof {
            assert(groups_from(all, i as int) =~= seq![group] + groups_from(all, i + count));
            assert(reduced(reducefunc, group, result));
            let grown = done.push(group);
            assert(groups(all) =~= grown + groups_from(all, i + count));
            assert forall|g: int| 0 <= g < results@.len() implies (#[trigger] results@[g]).key@
                == grown[g].0 && reduced(reducefunc, grown[g], results@[g].val) by {
                if g < done.len() {
                    assert(grown[g] == done[g]);
                }
            }
            done = grown;
        }
        i = i + count;
    }
    assert(groups(all) =~= done);
    assert forall|g: int| 0 <= g < results_view(results@).len() implies (#[trigger] results_view(
        results@,
    )[g]).0 == groups(all)[g].0 && reduced(reducefunc, groups(all)[g], results_view(results@)[g].1) by {
        assert(results@[g].key@ == done[g].0);
    }
    results
}

/// The text of an output file: for each key and result, in order, the key, a
/// space, the result in decimal and a newline.
pub open spec fn output_lines(results: Seq<(Seq<char>, usize)>) -> Seq<char>
    decreases results.len(),
{
    if results.len() == 0 {
        Seq::empty()
    } else {
        output_lines(results.drop_last()) + results.last().0 + seq![' '] + decimal(
            results.last().1 as nat,
        ) + seq!['\n']
    }
}

/// The contents of a list of results, in order.
pub open spec fn results_view(results: Seq<KeyValue<String, usize>>) -> Seq<(Seq<char>, usize)> {
    Seq::new(results.len(), |i: int| (results[i].key@, results[i].val))
}

/// Writes the text of an output file.
pub fn output_text(results: &Vec<KeyValue<String, usize>>) -> (text: String)
    ensures
        text@ == output_lines(results_view(results@)),
{
    let ghost all = results_view(results@);
    let mut text = String::new();
    let mut i: usize = 0;
    while i < results.len()
        invariant
            i <= results.len(),
            all == results_view(results@),
            text@ == output_lines(all.take(i as int)),
        decreases results.len() - i,
    {
        let ghost before = text@;
        text.append(results[i].key.as_str());
        text.append(" ");
        push_decimal(&mut text, results[i].val as u64);
        text.append("\n");
        proof {
            reveal_strlit(" ");
            reveal_strlit("\n");
            let next = all.take(i + 1);
            assert(next.drop_last() =~= all.take(i as int));
            assert(next.last() == all[i as int]);
            assert(text@ =~= before + all[i as int].0 + seq![' '] + decimal(
                all[i as int].1 as nat,
            ) + seq!['\n']);
        }
        i = i + 1;
    }
    assert(all.take(i as int) =~= all);
    text
}

/// Sorts the records of one partition by key and reduces each key's values:
/// the records are put in ascending order of key, those of one key in the
/// order they had, and the reduce function is called once for each key.
pub fn reduce_records<F: Fn(&str, Vec<u8>) -> usize>(
    intermediate: Vec<KeyValue<String, u8>>,
    reducefunc: &F,
) -> (results: Vec<KeyValue<String, usize>>)
    requires
        forall|key: &str, values: Vec<u8>| reducefunc.requires((key, values)),
    ensures
        is_reduce_output(reducefunc, records_view(intermediate@), results_view(results@)),
{
    let mut records = intermediate;
    sort_by_key(&mut records);
    let results = collapse(&records, reducefunc);
    proof {
        lemma_sorted_reduction_is_reduce_output(
            reducefunc,
            records_view(intermediate@),
            records_view(records@),
            results_view(results@),
        );
    }
    results
}

/// The records that the lines of an intermediate file stand for, in order.
pub open spec fn decoded_all(lines: Seq<String>) -> Seq<(Seq<char>, u8)> {
    Seq::new(lines.len(), |i: int| decoded(lines[i]@)->0)
}

/// The text of a reduce job's output file, from the lines of its
/// intermediate file: the lines are read as records, the records are sorted
/// by key, the reduce function is called once for each key on its values in
/// the order of the lines, and each key is written with its result, in
/// ascending order of key. Fails exactly when some line is no record.
pub fn handle_reduce_job<F: Fn(&str, Vec<u8>) -> usize>(lines: &Vec<String>, reducefunc: &F) -> (output:
    Result<String, RecordError>)
    requires
        forall|key: &str, values: Vec<u8>| reducefunc.requires((key, values)),
    ensures
        match output {
            Ok(text) => {
                &&& forall|i: int| 0 <= i < lines@.len() ==> decoded(#[trigger] lines@[i]@) is Some
                &&& exists|results: Seq<(Seq<char>, usize)>| #[trigger]
                    is_reduce_output(reducefunc, decoded_all(lines@), results) && text@
                        == output_lines(results)
            },
            Err(e) => e == RecordError::Malformed && exists|i: int|
                0 <= i < lines@.len() && decoded(#[trigger] lines@[i]@) is None,
        },
{
    let records = match decode_records(lines) {
        Ok(records) => records,
        Err(e) => {
            return Err(e);
        },
    };
    proof {
        assert forall|i: int| 0 <= i < lines@.len() implies decoded(#[trigger] lines@[i]@) is Some by {
            assert(decoded(lines@[i]@) == Some(records_view(records@)[i]));
        }
        assert forall|i: int| 0 <= i < lines@.len() implies records_view(records@)[i]
            == #[trigger] decoded_all(lines@)[i] by {
            assert(decoded(lines@[i]@) == Some(records_view(records@)[i]));
        }
        assert(records_view(records@) =~= decoded_all(lines@));
    }
    let results = reduce_records(records, reducefunc);
    let text = output_text(&results);
    assert(is_reduce_output(reducefunc, decoded_all(lines@), results_view(results@)) && text@
        == output_lines(results_view(results@)));
    Ok(text)
}

/// `sorted` holds the records of `records` in ascending order of key, those
/// of one key in the order they have in `records`.
pub open spec fn is_sort_of(sorted: Seq<(Seq<char>, u8)>, records: Seq<(Seq<char>, u8)>) -> bool {
    &&& sorted.len() == records.len()
    &&& sorted_by_key(sorted)
    &&& forall|key: Seq<char>| #[trigger] values_of(sorted, key) == values_of(records, key)
}

/// What a worker does next, given the coordinator's answer.
#[derive(Debug, PartialEq, Eq)]
pub enum WorkerAction {
    /// The workload is complete: stop.
    Stop,
    /// Run the map function on the job's input file and split what it emits
    /// among `num_reducer` partitions.
    RunMap { job: Job, num_reducer: u32 },
    /// Run the reduce function on the job's partition.
    RunReduce { job: Job },
    /// The job is of no known kind.
    Unknown { job: Job },
}

/// What a [`WorkerAction`] holds.
pub enum WorkerActionView {
    Stop,
    RunMap { job: JobView, num_reducer: u32 },
    RunReduce { job: JobView },
    Unknown { job: JobView },
}

impl View for WorkerAction {
    type V = WorkerActionView;

    open spec fn view(&self) -> WorkerActionView {
        match self {
            WorkerAction::Stop => WorkerActionView::Stop,
            WorkerAction::RunMap { job, num_reducer } => WorkerActionView::RunMap {
                job: job@,
                num_reducer: *num_reducer,
            },
            WorkerAction::RunReduce { job } => WorkerActionView::RunReduce { job: job@ },
            WorkerAction::Unknown { job } => WorkerActionView::Unknown { job: job@ },
        }
    }
}

/// The action that an answer of the coordinator calls for: stop when it
/// assigns no job, else run the job according to its kind.
pub open spec fn action_for(job: Option<JobView>, num_reducer: u32) -> WorkerActionView {
    match job {
        None => WorkerActionView::Stop,
        Some(job) => match JobType::of_wire(job.job_type) {
            Some(JobType::MapJob) => WorkerActionView::RunMap { job, num_reducer },
            Some(JobType::Reduce) => WorkerActionView::RunReduce { job },
            None => WorkerActionView::Unknown { job },
        },
    }
}

/// Decides what the worker does with the coordinator's answer.
pub fn next_action(reply: AskForJobReply) -> (action: WorkerAction)
    ensures
        action@ == action_for(reply@.assigned_job, reply.num_reducer),
{
    let num_reducer = reply.num_reducer;
    match reply.assigned_job {
        None => WorkerAction::Stop,
        Some(job) => match JobType::from_i32(job.job_type) {
            Some(JobType::MapJob) => WorkerAction::RunMap { job, num_reducer },
            Some(JobType::Reduce) => WorkerAction::RunReduce { job },
            None => WorkerAction::Unknown { job },
        },
    }
}

/// The report that a worker sends when it is done with a job: complete if
/// every step succeeded, failed otherwise.
pub fn job_report(job_id: u32, kind: JobType, succeeded: bool) -> (request: ReportJobStatusRequest)
    ensures
        request.job_id == job_id,
        request.job_type == kind.wire(),
        request.status == (if succeeded {
            JobStatus::JobComplete
        } else {
            JobStatus::JobFailed
        }).wire(),
{
    let status = if succeeded {
        JobStatus::JobComplete
    } else {
        JobStatus::JobFailed
    };
    ReportJobStatusRequest::new(job_id, kind, status)
}

/// The text that a map job appends to each partition's intermediate file:
/// the map function is called on the name and the contents of the job's input
/// file, and what it emits is split by key. It always succeeds. Each emitted
/// record is one line of the buffer of its key's partition and of no other
/// buffer.
pub fn handle_map_job<M: Fn(String, String) -> Vec<KeyValue<String, u8>>>(
    job: &Job,
    content: String,
    num_reducer: u32,
    mapfunc: &M,
) -> (buffers: Result<Vec<String>, RecordError>)
    requires
        num_reducer > 0,
        forall|name: String, text: String| mapfunc.requires((name, text)),
    ensures
        buffers is Ok,
        buffers->Ok_0@.len() == num_reducer,
        exists|name: String, emitted: Vec<KeyValue<String, u8>>|
            name@ == job.inp_file@ && #[trigger] mapfunc.ensures((name, content), emitted)
                && is_map_output(buffers->Ok_0@, records_view(emitted@), num_reducer),
{
    let name = job.inp_file.clone();
    let emitted = mapfunc(name, content);
    let buffers = partition_records(&emitted, num_reducer);
    assert(mapfunc.ensures((name, content), emitted) && is_map_output(
        buffers->Ok_0@,
        records_view(emitted@),
        num_reducer,
    ));
    buffers
}

/// `shards` holds what a map job adds to the intermediate files for the
/// records `emitted`: one buffer for each partition, which is the text of the
/// emitted records whose key falls in that partition, in order, and which,
/// taken apart at its line breaks, gives one line for each of them.
pub open spec fn is_map_output(
    shards: Seq<String>,
    emitted: Seq<(Seq<char>, u8)>,
    num_reducer: u32,
) -> bool {
    &&& shards.len() == num_reducer
    &&& forall|r: int|
        0 <= r < num_reducer ==> (#[trigger] shards[r])@ == shard_text(
            emitted,
            num_reducer,
            r as u32,
        )
    &&& forall|r: int|
        0 <= r < num_reducer ==> split_lines((#[trigger] shards[r])@) == (
            record_lines(shard_records(emitted, num_reducer, r as u32)),
            Seq::<char>::empty(),
        )
}

} // verus!
