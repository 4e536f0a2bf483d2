//! What the two sides compute together: a key's records all go to one
//! partition, in order, each as one line of that partition's text; what was
//! written reads back as what was emitted; and on records sorted by key there
//! is one run for each key, which holds the values of that key in the order
//! of the records before the sort.

use vstd::prelude::*;
use vstd::utf8::{encode_utf8, encode_utf8_decode_utf8};
use crate::record::{
    all_keys_read_back, decoded, json_parsed, json_text, lemma_decode_inverts_encode,
};
use crate::text::split_lines;
use crate::worker::{
    is_map_output, record_lines,
    bytes_le, groups, groups_from, has_result, is_reduce_output, is_reduction, is_sort_of, key_le,
    lemma_run_len_bound, lines_text, occurs_from, reduced, run_len, shard_records, shard_text,
    sorted_by_key, spec_partition, values_of,
};

verus! {

/// Two byte strings of which each is not after the other are equal.
pub proof fn lemma_bytes_le_antisymmetric(a: Seq<u8>, b: Seq<u8>)
    requires
        bytes_le(a, b),
        bytes_le(b, a),
    ensures
        a == b,
    decreases a.len(),
{
    if a.len() == 0 {
        assert(a =~= b);
    } else {
        lemma_bytes_le_antisymmetric(a.drop_first(), b.drop_first());
        assert(a =~= seq![a[0]] + a.drop_first());
        assert(b =~= seq![b[0]] + b.drop_first());
    }
}

/// Two keys of which each is not after the other are equal.
pub proof fn lemma_key_le_antisymmetric(a: Seq<char>, b: Seq<char>)
    requires
        key_le(a, b),
        key_le(b, a),
    ensures
        a == b,
{
    lemma_bytes_le_antisymmetric(encode_utf8(a), encode_utf8(b));
    encode_utf8_decode_utf8(a);
    encode_utf8_decode_utf8(b);
}

/// The values of a key in two lists, one after the other, are its values in
/// the first followed by its values in the second.
pub proof fn lemma_values_of_concat(
    a: Seq<(Seq<char>, u8)>,
    b: Seq<(Seq<char>, u8)>,
    key: Seq<char>,
)
    ensures
        values_of(a + b, key) == values_of(a, key) + values_of(b, key),
    decreases b.len(),
{
    if b.len() == 0 {
        assert(a + b =~= a);
        assert(values_of(a, key) + values_of(b, key) =~= values_of(a, key));
    } else {
        lemma_values_of_concat(a, b.drop_last(), key);
        assert((a + b).drop_last() =~= a + b.drop_last());
        assert((a + b).last() == b.last());
        if b.last().0 == key {
            assert(values_of(a + b, key) =~= values_of(a, key) + values_of(b, key));
        }
    }
}

/// A key that no record has has no values.
pub proof fn lemma_values_of_absent(records: Seq<(Seq<char>, u8)>, key: Seq<char>)
    requires
        forall|i: int| 0 <= i < records.len() ==> (#[trigger] records[i]).0 != key,
    ensures
        values_of(records, key) == Seq::<u8>::empty(),
    decreases records.len(),
{
    if records.len() > 0 {
        lemma_values_of_absent(records.drop_last(), key);
    }
}

/// Where every record has the key, its values are the values of all records.
pub proof fn lemma_values_of_run(records: Seq<(Seq<char>, u8)>, key: Seq<char>)
    requires
        forall|i: int| 0 <= i < records.len() ==> (#[trigger] records[i]).0 == key,
    ensures
        values_of(records, key) == Seq::new(records.len(), |i: int| records[i].1),
    decreases records.len(),
{
    if records.len() > 0 {
        lemma_values_of_run(records.drop_last(), key);
        assert(values_of(records, key) =~= Seq::new(records.len(), |i: int| records[i].1));
    } else {
        assert(values_of(records, key) =~= Seq::new(records.len(), |i: int| records[i].1));
    }
}

/// The records counted by a run have the run's key, and the record after
/// them, if there is one, has another.
pub proof fn lemma_run_holds_key(records: Seq<(Seq<char>, u8)>, key: Seq<char>, from: int)
    requires
        0 <= from <= records.len(),
    ensures
        forall|i: int|
            from <= i < from + run_len(records, key, from) ==> (#[trigger] records[i]).0 == key,
        from + run_len(records, key, from) < records.len() ==> records[from + run_len(
            records,
            key,
            from,
        )].0 != key,
    decreases records.len() - from,
{
    if from < records.len() && records[from].0 == key {
        lemma_run_holds_key(records, key, from + 1);
    }
}

/// On records sorted by key, from a position where a run starts: each run
/// holds all values of its key, in the order of the records, and its key
/// occurs at that position or later.
pub proof fn lemma_sorted_runs_hold_all_values(records: Seq<(Seq<char>, u8)>, from: int)
    requires
        sorted_by_key(records),
        0 <= from <= records.len(),
        0 < from < records.len() ==> records[from - 1].0 != records[from].0,
    ensures
        forall|g: int|
            0 <= g < groups_from(records, from).len() ==> (#[trigger] groups_from(
                records,
                from,
            )[g]).1 == values_of(records, groups_from(records, from)[g].0) && occurs_from(
                records,
                groups_from(records, from)[g].0,
                from,
            ),
    decreases records.len() - from,
{
    if from < records.len() {
        let key = records[from].0;
        let count = 1 + run_len(records, key, from + 1);
        let end = from + count;
        lemma_run_len_bound(records, key, from + 1);
        lemma_run_holds_key(records, key, from + 1);
        lemma_sorted_runs_hold_all_values(records, end);
        let before = records.subrange(0, from);
        let run = records.subrange(from, end);
        let after = records.subrange(end, records.len() as int);
        assert(records =~= before + run + after);
        assert forall|i: int| 0 <= i < before.len() implies (#[trigger] before[i]).0 != key by {
            if before[i].0 == key {
                assert(key_le(records[i].0, records[from - 1].0) || i == from - 1);
                assert(key_le(records[from - 1].0, records[from].0));
                if i < from - 1 {
                    lemma_key_le_antisymmetric(records[from - 1].0, key);
                }
            }
        }
        assert forall|i: int| 0 <= i < after.len() implies (#[trigger] after[i]).0 != key by {
            if after[i].0 == key {
                assert(key_le(records[from].0, records[end].0));
                if i > 0 {
                    assert(key_le(records[end].0, records[end + i].0));
                    lemma_key_le_antisymmetric(records[end].0, key);
                }
            }
        }
        assert forall|i: int| 0 <= i < run.len() implies (#[trigger] run[i]).0 == key by {
            assert(run[i] == records[from + i]);
        }
        lemma_values_of_absent(before, key);
        lemma_values_of_absent(after, key);
        lemma_values_of_run(run, key);
        lemma_values_of_concat(before + run, after, key);
        lemma_values_of_concat(before, run, key);
        let first = (key, Seq::new(count, |k: int| records[from + k].1));
        assert(first.1 =~= values_of(records, key)) by {
            assert(values_of(records, key) =~= values_of(run, key));
            assert(values_of(run, key) =~= first.1);
        }
        let all = groups_from(records, from);
        let rest = groups_from(records, end);
        assert(all =~= seq![first] + rest);
        assert forall|g: int| 0 <= g < all.len() implies (#[trigger] all[g]).1 == values_of(
            records,
            all[g].0,
        ) && occurs_from(records, all[g].0, from) by {
            if g == 0 {
                assert(all[0] == first);
                assert(records[from].0 == key);
            } else {
                assert(all[g] == rest[g - 1]);
                assert(occurs_from(records, rest[g - 1].0, end));
                let p = choose|p: int|
                    end <= p < records.len() && (#[trigger] records[p]).0 == rest[g - 1].0;
                assert(from <= p < records.len() && records[p].0 == all[g].0);
            }
        }
    }
}

/// On records sorted by key, no two runs have the same key.
pub proof fn lemma_sorted_runs_have_distinct_keys(records: Seq<(Seq<char>, u8)>, from: int)
    requires
        sorted_by_key(records),
        0 <= from <= records.len(),
        0 < from < records.len() ==> records[from - 1].0 != records[from].0,
    ensures
        forall|g: int, h: int|
            0 <= g < h < groups_from(records, from).len() ==> (#[trigger] groups_from(
                records,
                from,
            )[g]).0 != (#[trigger] groups_from(records, from)[h]).0,
    decreases records.len() - from,
{
    if from < records.len() {
        let key = records[from].0;
        let count = 1 + run_len(records, key, from + 1);
        let end = from + count;
        lemma_run_len_bound(records, key, from + 1);
        lemma_run_holds_key(records, key, from + 1);
        lemma_sorted_runs_have_distinct_keys(records, end);
        lemma_sorted_runs_hold_all_values(records, end);
        let first = (key, Seq::new(count, |k: int| records[from + k].1));
        let all = groups_from(records, from);
        let rest = groups_from(records, end);
        assert(all =~= seq![first] + rest);
        assert forall|g: int, h: int| 0 <= g < h < all.len() implies (#[trigger] all[g]).0 != (
        #[trigger] all[h]).0 by {
            assert(all[h] == rest[h - 1]);
            if g == 0 {
                assert(occurs_from(records, rest[h - 1].0, end));
                let p = choose|p: int|
                    end <= p < records.len() && (#[trigger] records[p]).0 == rest[h - 1].0;
                if records[p].0 == key {
                    assert(key_le(records[from].0, records[end].0));
                    if p > end {
                        assert(key_le(records[end].0, records[p].0));
                        lemma_key_le_antisymmetric(records[end].0, key);
                    }
                }
            } else {
                assert(all[g] == rest[g - 1]);
            }
        }
    }
}

/// What a reduce job computes from the records of its partition, whatever
/// their order within a key's neighbours: for each key one result, made by the
/// reduce function from all values of that key in the order of the records;
/// and no key has two results.
pub proof fn lemma_reduction_of_sorted_records<F: Fn(&str, Vec<u8>) -> usize>(
    reducefunc: &F,
    records: Seq<(Seq<char>, u8)>,
    sorted: Seq<(Seq<char>, u8)>,
    results: Seq<(Seq<char>, usize)>,
)
    requires
        is_sort_of(sorted, records),
        is_reduction(reducefunc, sorted, results),
    ensures
        forall|g: int|
            0 <= g < results.len() ==> reduced(
                reducefunc,
                ((#[trigger] results[g]).0, values_of(records, results[g].0)),
                results[g].1,
            ),
        forall|g: int, h: int|
            0 <= g < h < results.len() ==> (#[trigger] results[g]).0 != (#[trigger] results[h]).0,
{
    lemma_sorted_runs_hold_all_values(sorted, 0);
    lemma_sorted_runs_have_distinct_keys(sorted, 0);
    assert forall|g: int| 0 <= g < results.len() implies reduced(
        reducefunc,
        ((#[trigger] results[g]).0, values_of(records, results[g].0)),
        results[g].1,
    ) by {
        let group = groups(sorted)[g];
        assert(group.1 == values_of(sorted, group.0));
        assert(values_of(sorted, group.0) == values_of(records, group.0));
        assert(group == (results[g].0, values_of(records, results[g].0)));
    }
    assert forall|g: int, h: int| 0 <= g < h < results.len() implies (#[trigger] results[g]).0 != (
    #[trigger] results[h]).0 by {
        assert(groups(sorted)[g].0 != groups(sorted)[h].0);
    }
}

/// All records of a key go to the partition of that key, in their order, and
/// none of them to another partition.
pub proof fn lemma_shard_keeps_values_of_key(
    records: Seq<(Seq<char>, u8)>,
    num_reducer: u32,
    index: u32,
    key: Seq<char>,
)
    ensures
        values_of(shard_records(records, num_reducer, index), key) == if spec_partition(
            key,
            num_reducer,
        ) == index {
            values_of(records, key)
        } else {
            Seq::<u8>::empty()
        },
    decreases records.len(),
{
    if records.len() > 0 {
        lemma_shard_keeps_values_of_key(records.drop_last(), num_reducer, index, key);
        if spec_partition(records.last().0, num_reducer) == index {
            let before = shard_records(records.drop_last(), num_reducer, index);
            assert(before.push(records.last()).drop_last() =~= before);
        }
    }
}

/// With one partition, every record falls in it.
pub proof fn lemma_single_partition_holds_all(records: Seq<(Seq<char>, u8)>)
    ensures
        shard_records(records, 1, 0) == records,
    decreases records.len(),
{
    if records.len() > 0 {
        lemma_single_partition_holds_all(records.drop_last());
        assert(records.drop_last().push(records.last()) =~= records);
    } else {
        assert(shard_records(records, 1, 0) =~= records);
    }
}

/// A key that some record has has at least one value.
pub proof fn lemma_values_of_present(records: Seq<(Seq<char>, u8)>, key: Seq<char>)
    requires
        occurs_from(records, key, 0),
    ensures
        values_of(records, key).len() > 0,
    decreases records.len(),
{
    let p = choose|p: int| 0 <= p < records.len() && (#[trigger] records[p]).0 == key;
    if records.last().0 != key {
        assert(records.drop_last()[p].0 == key);
        lemma_values_of_present(records.drop_last(), key);
    }
}

/// The key of every record from the position `from` on is the key of a run.
pub proof fn lemma_runs_cover_keys(records: Seq<(Seq<char>, u8)>, from: int, p: int)
    requires
        0 <= from <= p < records.len(),
    ensures
        exists|g: int|
            0 <= g < groups_from(records, from).len() && (#[trigger] groups_from(
                records,
                from,
            )[g]).0 == records[p].0,
    decreases records.len() - from,
{
    let key = records[from].0;
    let count = 1 + run_len(records, key, from + 1);
    let end = from + count;
    lemma_run_len_bound(records, key, from + 1);
    lemma_run_holds_key(records, key, from + 1);
    let first = (key, Seq::new(count, |k: int| records[from + k].1));
    let all = groups_from(records, from);
    let rest = groups_from(records, end);
    assert(all =~= seq![first] + rest);
    if p < end {
        assert(all[0].0 == records[p].0);
    } else {
        lemma_runs_cover_keys(records, end, p);
        let g = choose|g: int| 0 <= g < rest.len() && (#[trigger] rest[g]).0 == records[p].0;
        assert(all[g + 1] == rest[g]);
    }
}

/// A reduce job leaves out no key: every key that a record has has a result.
pub proof fn lemma_every_key_is_reduced<F: Fn(&str, Vec<u8>) -> usize>(
    reducefunc: &F,
    records: Seq<(Seq<char>, u8)>,
    sorted: Seq<(Seq<char>, u8)>,
    results: Seq<(Seq<char>, usize)>,
    key: Seq<char>,
)
    requires
        is_sort_of(sorted, records),
        is_reduction(reducefunc, sorted, results),
        occurs_from(records, key, 0),
    ensures
        has_result(results, key),
{
    lemma_values_of_present(records, key);
    assert(values_of(sorted, key) == values_of(records, key));
    if !occurs_from(sorted, key, 0) {
        lemma_values_of_absent(sorted, key);
    }
    let p = choose|p: int| 0 <= p < sorted.len() && (#[trigger] sorted[p]).0 == key;
    lemma_runs_cover_keys(sorted, 0, p);
    let g = choose|g: int|
        0 <= g < groups(sorted).len() && (#[trigger] groups(sorted)[g]).0 == sorted[p].0;
    assert(results[g].0 == key);
}

/// On records sorted by key, the keys of the runs stand in ascending order.
pub proof fn lemma_sorted_runs_ascend(records: Seq<(Seq<char>, u8)>, from: int)
    requires
        sorted_by_key(records),
        0 <= from <= records.len(),
        0 < from < records.len() ==> records[from - 1].0 != records[from].0,
    ensures
        forall|g: int, h: int|
            0 <= g < h < groups_from(records, from).len() ==> key_le(
                (#[trigger] groups_from(records, from)[g]).0,
                (#[trigger] groups_from(records, from)[h]).0,
            ),
    decreases records.len() - from,
{
    if from < records.len() {
        let key = records[from].0;
        let count = 1 + run_len(records, key, from + 1);
        let end = from + count;
        lemma_run_len_bound(records, key, from + 1);
        lemma_run_holds_key(records, key, from + 1);
        lemma_sorted_runs_ascend(records, end);
        lemma_sorted_runs_hold_all_values(records, end);
        let first = (key, Seq::new(count, |k: int| records[from + k].1));
        let all = groups_from(records, from);
        let rest = groups_from(records, end);
        assert(all =~= seq![first] + rest);
        assert forall|g: int, h: int| 0 <= g < h < all.len() implies key_le(
            (#[trigger] all[g]).0,
            (#[trigger] all[h]).0,
        ) by {
            assert(all[h] == rest[h - 1]);
            if g == 0 {
                assert(occurs_from(records, rest[h - 1].0, end));
                let p = choose|p: int|
                    end <= p < records.len() && (#[trigger] records[p]).0 == rest[h - 1].0;
                assert(key_le(records[from].0, records[p].0));
            } else {
                assert(all[g] == rest[g - 1]);
            }
        }
    }
}

/// Sorting the records by key and reducing each run gives the output of the
/// reduce side: one result for each key, in ascending order of key, each made
/// from all values of its key in the order of the records.
pub proof fn lemma_sorted_reduction_is_reduce_output<F: Fn(&str, Vec<u8>) -> usize>(
    reducefunc: &F,
    records: Seq<(Seq<char>, u8)>,
    sorted: Seq<(Seq<char>, u8)>,
    results: Seq<(Seq<char>, usize)>,
)
    requires
        is_sort_of(sorted, records),
        is_reduction(reducefunc, sorted, results),
    ensures
        is_reduce_output(reducefunc, records, results),
{
    lemma_reduction_of_sorted_records(reducefunc, records, sorted, results);
    lemma_sorted_runs_hold_all_values(sorted, 0);
    lemma_sorted_runs_ascend(sorted, 0);
    assert forall|g: int| 0 <= g < results.len() implies occurs_from(
        records,
        (#[trigger] results[g]).0,
        0,
    ) by {
        let key = results[g].0;
        assert(groups(sorted)[g].0 == key);
        assert(occurs_from(sorted, key, 0));
        lemma_values_of_present(sorted, key);
        if !occurs_from(records, key, 0) {
            lemma_values_of_absent(records, key);
        }
    }
    assert forall|g: int, h: int| 0 <= g < h < results.len() implies key_le(
        (#[trigger] results[g]).0,
        (#[trigger] results[h]).0,
    ) by {
        assert(key_le(groups(sorted)[g].0, groups(sorted)[h].0));
    }
    assert forall|i: int| 0 <= i < records.len() implies has_result(
        results,
        (#[trigger] records[i]).0,
    ) by {
        assert(occurs_from(records, records[i].0, 0));
        lemma_every_key_is_reduced(reducefunc, records, sorted, results, records[i].0);
    }
}

/// What the reduce job of one partition computes from everything that the map
/// jobs emitted: it has a result for each emitted key that falls in its
/// partition and for no other key, and each result is made by the reduce
/// function from all values of its key, in the order in which they were
/// emitted. A run that reduces all emitted records in one place makes the
/// result of each key from the same key and the same values.
pub proof fn lemma_partition_output_matches_whole<F: Fn(&str, Vec<u8>) -> usize>(
    reducefunc: &F,
    emitted: Seq<(Seq<char>, u8)>,
    num_reducer: u32,
    index: u32,
    results: Seq<(Seq<char>, usize)>,
)
    requires
        is_reduce_output(reducefunc, shard_records(emitted, num_reducer, index), results),
    ensures
        forall|g: int|
            0 <= g < results.len() ==> spec_partition((#[trigger] results[g]).0, num_reducer)
                == index && occurs_from(emitted, results[g].0, 0) && reduced(
                reducefunc,
                (results[g].0, values_of(emitted, results[g].0)),
                results[g].1,
            ),
        forall|i: int|
            0 <= i < emitted.len() && spec_partition((#[trigger] emitted[i]).0, num_reducer)
                == index ==> has_result(results, emitted[i].0),
{
    let shard = shard_records(emitted, num_reducer, index);
    assert forall|g: int| 0 <= g < results.len() implies spec_partition(
        (#[trigger] results[g]).0,
        num_reducer,
    ) == index && occurs_from(emitted, results[g].0, 0) && reduced(
        reducefunc,
        (results[g].0, values_of(emitted, results[g].0)),
        results[g].1,
    ) by {
        let key = results[g].0;
        assert(occurs_from(shard, key, 0));
        lemma_values_of_present(shard, key);
        lemma_shard_keeps_values_of_key(emitted, num_reducer, index, key);
        if !occurs_from(emitted, key, 0) {
            lemma_values_of_absent(emitted, key);
        }
    }
    assert forall|i: int|
        0 <= i < emitted.len() && spec_partition((#[trigger] emitted[i]).0, num_reducer)
            == index implies has_result(results, emitted[i].0) by {
        let key = emitted[i].0;
        assert(occurs_from(emitted, key, 0));
        lemma_values_of_present(emitted, key);
        lemma_shard_keeps_values_of_key(emitted, num_reducer, index, key);
        if !occurs_from(shard, key, 0) {
            lemma_values_of_absent(shard, key);
        }
        let p = choose|p: int| 0 <= p < shard.len() && (#[trigger] shard[p]).0 == key;
        assert(has_result(results, shard[p].0));
    }
}

/// With one partition, the one reduce job computes the output of the reduce
/// side for everything that the map jobs emitted, from the text of all their
/// records: what a run that reduces all records in one place computes.
pub proof fn lemma_single_partition_is_whole<F: Fn(&str, Vec<u8>) -> usize>(
    reducefunc: &F,
    emitted: Seq<(Seq<char>, u8)>,
    results: Seq<(Seq<char>, usize)>,
)
    requires
        is_reduce_output(reducefunc, shard_records(emitted, 1, 0), results),
    ensures
        is_reduce_output(reducefunc, emitted, results),
        shard_text(emitted, 1, 0) == lines_text(emitted),
{
    lemma_single_partition_holds_all(emitted);
}

/// The output of the reduce side has the same keys, in the same order,
/// whoever computes it.
pub proof fn lemma_reduce_output_keys_are_unique<F: Fn(&str, Vec<u8>) -> usize>(
    reducefunc: &F,
    records: Seq<(Seq<char>, u8)>,
    one: Seq<(Seq<char>, usize)>,
    other: Seq<(Seq<char>, usize)>,
)
    requires
        is_reduce_output(reducefunc, records, one),
        is_reduce_output(reducefunc, records, other),
    ensures
        one.len() == other.len(),
        forall|g: int| 0 <= g < one.len() ==> (#[trigger] one[g]).0 == other[g].0,
{
    lemma_ascending_keys_are_unique(records, one, other, one.len() as int, other.len() as int);
}

/// The position at which the key `key` stands in `results`, if it does.
pub open spec fn result_position(results: Seq<(Seq<char>, usize)>, key: Seq<char>) -> int {
    choose|g: int| 0 <= g < results.len() && (#[trigger] results[g]).0 == key
}

/// Two lists of results whose keys ascend strictly and are the keys of the
/// same records agree on their keys, position by position.
proof fn lemma_ascending_keys_are_unique(
    records: Seq<(Seq<char>, u8)>,
    one: Seq<(Seq<char>, usize)>,
    other: Seq<(Seq<char>, usize)>,
    n: int,
    m: int,
)
    requires
        n == one.len(),
        m == other.len(),
        forall|g: int| 0 <= g < one.len() ==> occurs_from(records, (#[trigger] one[g]).0, 0),
        forall|g: int| 0 <= g < other.len() ==> occurs_from(records, (#[trigger] other[g]).0, 0),
        forall|g: int, h: int|
            0 <= g < h < one.len() ==> (#[trigger] one[g]).0 != (#[trigger] one[h]).0 && key_le(
                one[g].0,
                one[h].0,
            ),
        forall|g: int, h: int|
            0 <= g < h < other.len() ==> (#[trigger] other[g]).0 != (#[trigger] other[h]).0
                && key_le(other[g].0, other[h].0),
        forall|i: int| 0 <= i < records.len() ==> has_result(one, (#[trigger] records[i]).0),
        forall|i: int| 0 <= i < records.len() ==> has_result(other, (#[trigger] records[i]).0),
    ensures
        one.len() == other.len(),
        forall|g: int| 0 <= g < one.len() ==> (#[trigger] one[g]).0 == other[g].0,
{
    // each key of one list stands in the other, at a position that grows with it
    assert forall|g: int| 0 <= g < one.len() implies has_result(other, (#[trigger] one[g]).0) by {
        let p = choose|p: int| 0 <= p < records.len() && (#[trigger] records[p]).0 == one[g].0;
        assert(has_result(other, records[p].0));
    }
    assert forall|g: int| 0 <= g < other.len() implies has_result(one, (#[trigger] other[g]).0) by {
        let p = choose|p: int| 0 <= p < records.len() && (#[trigger] records[p]).0 == other[g].0;
        assert(has_result(one, records[p].0));
    }
    lemma_same_keys_same_order(one, other, 0);
    lemma_same_keys_same_order(other, one, 0);
}

/// Of two lists whose keys ascend strictly, where every key of each stands in
/// the other: the first is no longer than the second, and they agree on their
/// keys from the position `from` on if they agree before it.
proof fn lemma_same_keys_same_order(
    one: Seq<(Seq<char>, usize)>,
    other: Seq<(Seq<char>, usize)>,
    from: int,
)
    requires
        0 <= from <= one.len(),
        from <= other.len(),
        forall|g: int| 0 <= g < from ==> (#[trigger] one[g]).0 == other[g].0,
        forall|g: int, h: int|
            0 <= g < h < one.len() ==> (#[trigger] one[g]).0 != (#[trigger] one[h]).0 && key_le(
                one[g].0,
                one[h].0,
            ),
        forall|g: int, h: int|
            0 <= g < h < other.len() ==> (#[trigger] other[g]).0 != (#[trigger] other[h]).0
                && key_le(other[g].0, other[h].0),
        forall|g: int| 0 <= g < one.len() ==> has_result(other, (#[trigger] one[g]).0),
        forall|g: int| 0 <= g < other.len() ==> has_result(one, (#[trigger] other[g]).0),
    ensures
        one.len() <= other.len(),
        forall|g: int| 0 <= g < one.len() ==> (#[trigger] one[g]).0 == other[g].0,
    decreases one.len() - from,
{
    if from < one.len() {
        // the key at `from` in one list stands in the other, at `from` or later
        let key = one[from].0;
        assert(has_result(other, key));
        let q = result_position(other, key);
        assert(0 <= q < other.len() && other[q].0 == key);
        if q < from {
            assert(one[q].0 == other[q].0);
            assert(one[q].0 != one[from].0);
        }
        assert(from < other.len());
        // and the key at `from` in the other stands in the first, at `from` or later
        let back = other[from].0;
        assert(has_result(one, back));
        let p = result_position(one, back);
        assert(0 <= p < one.len() && one[p].0 == back);
        if p < from {
            assert(one[p].0 == other[p].0);
            assert(other[p].0 != other[from].0);
        }
        if q > from {
            assert(key_le(other[from].0, other[q].0));
            if p > from {
                assert(key_le(one[from].0, one[p].0));
                lemma_key_le_antisymmetric(key, back);
            }
        }
        assert(one[from].0 == other[from].0);
        lemma_same_keys_same_order(one, other, from + 1);
    }
}

/// If the keys of all records read back, so do those of the records of one
/// partition.
pub proof fn lemma_shard_keys_read_back(
    records: Seq<(Seq<char>, u8)>,
    num_reducer: u32,
    index: u32,
)
    requires
        all_keys_read_back(records),
    ensures
        all_keys_read_back(shard_records(records, num_reducer, index)),
    decreases records.len(),
{
    if records.len() > 0 {
        assert(all_keys_read_back(records.drop_last())) by {
            assert forall|i: int| 0 <= i < records.drop_last().len() implies json_parsed(
                json_text((#[trigger] records.drop_last()[i]).0),
            ) == Some(records.drop_last()[i].0) by {
                assert(records.drop_last()[i] == records[i]);
            }
        }
        lemma_shard_keys_read_back(records.drop_last(), num_reducer, index);
        let before = shard_records(records.drop_last(), num_reducer, index);
        let shard = shard_records(records, num_reducer, index);
        assert forall|i: int| 0 <= i < shard.len() implies json_parsed(
            json_text((#[trigger] shard[i]).0),
        ) == Some(shard[i].0) by {
            if i < before.len() {
                assert(shard[i] == before[i]);
            } else {
                assert(shard[i] == records[records.len() - 1]);
            }
        }
    }
}

/// What a map job wrote for a partition reads back as what it emitted for
/// that partition, provided that the keys read back: taken apart at its line
/// breaks, the buffer gives one line for each emitted record of the
/// partition, in order, and each line stands for its record. No record is
/// lost, split or merged.
pub proof fn lemma_map_output_reads_back(
    shards: Seq<String>,
    emitted: Seq<(Seq<char>, u8)>,
    num_reducer: u32,
    index: u32,
)
    requires
        is_map_output(shards, emitted, num_reducer),
        all_keys_read_back(emitted),
        index < num_reducer,
    ensures
        split_lines(shards[index as int]@).1.len() == 0,
        split_lines(shards[index as int]@).0.len() == shard_records(
            emitted,
            num_reducer,
            index,
        ).len(),
        forall|j: int|
            0 <= j < shard_records(emitted, num_reducer, index).len() ==> decoded(
                #[trigger] split_lines(shards[index as int]@).0[j],
            ) == Some(shard_records(emitted, num_reducer, index)[j]),
{
    let shard = shard_records(emitted, num_reducer, index);
    lemma_shard_keys_read_back(emitted, num_reducer, index);
    assert(split_lines(shards[index as int]@) == (record_lines(shard), Seq::<char>::empty()));
    assert forall|j: int| 0 <= j < shard.len() implies decoded(
        #[trigger] split_lines(shards[index as int]@).0[j],
    ) == Some(shard[j]) by {
        lemma_decode_inverts_encode(shard[j].0, shard[j].1);
    }
}

/// Every record of a partition has a key that falls in that partition.
pub proof fn lemma_shard_holds_only_its_keys(
    records: Seq<(Seq<char>, u8)>,
    num_reducer: u32,
    index: u32,
)
    ensures
        forall|j: int|
            0 <= j < shard_records(records, num_reducer, index).len() ==> spec_partition(
                (#[trigger] shard_records(records, num_reducer, index)[j]).0,
                num_reducer,
            ) == index,
    decreases records.len(),
{
    if records.len() > 0 {
        lemma_shard_holds_only_its_keys(records.drop_last(), num_reducer, index);
        let before = shard_records(records.drop_last(), num_reducer, index);
        let shard = shard_records(records, num_reducer, index);
        assert forall|j: int| 0 <= j < shard.len() implies spec_partition(
            (#[trigger] shard[j]).0,
            num_reducer,
        ) == index by {
            if j < before.len() {
                assert(shard[j] == before[j]);
            }
        }
    }
}

/// The record `record` is among `records`.
pub open spec fn is_among(records: Seq<(Seq<char>, u8)>, record: (Seq<char>, u8)) -> bool {
    exists|j: int| 0 <= j < records.len() && #[trigger] records[j] == record
}

/// Every record is among the records of the partition of its key. By
/// [`lemma_shard_holds_only_its_keys`] no record with its key is among those
/// of another partition.
pub proof fn lemma_record_is_in_its_shard(records: Seq<(Seq<char>, u8)>, num_reducer: u32, i: int)
    requires
        0 <= i < records.len(),
    ensures
        is_among(
            shard_records(records, num_reducer, spec_partition(records[i].0, num_reducer)),
            records[i],
        ),
    decreases records.len(),
{
    let index = spec_partition(records[i].0, num_reducer);
    let before = shard_records(records.drop_last(), num_reducer, index);
    let shard = shard_records(records, num_reducer, index);
    if i == records.len() - 1 {
        assert(shard[shard.len() - 1] == records[i]);
    } else {
        assert(records.drop_last()[i] == records[i]);
        lemma_record_is_in_its_shard(records.drop_last(), num_reducer, i);
        let j = choose|j: int| 0 <= j < before.len() && #[trigger] before[j] == records[i];
        assert(shard[j] == before[j]);
    }
}

/// With one partition, the one buffer that a map job returns holds the line
/// of every emitted record, in order, one line for each.
pub proof fn lemma_single_partition_output(shards: Seq<String>, emitted: Seq<(Seq<char>, u8)>)
    requires
        is_map_output(shards, emitted, 1),
    ensures
        shards.len() == 1,
        shards[0]@ == lines_text(emitted),
        split_lines(shards[0]@) == (record_lines(emitted), Seq::<char>::empty()),
{
    lemma_single_partition_holds_all(emitted);
}

} // verus!
