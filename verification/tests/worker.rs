use mapreduce_rs::job::{AskForJobReply, Job, JobStatus, JobType};
use mapreduce_rs::order::compare_keys;
use mapreduce_rs::record::{
    decode_record, decode_records, encode_record, encode_record_checked, frame_record,
    keys_read_back, split_record, RecordError,
};
use mapreduce_rs::text::{chars_of, decimal_string, digit_value, has_at, string_of_range};
use mapreduce_rs::wc;
use mapreduce_rs::worker::{
    collapse, handle_map_job, handle_reduce_job, ihash, job_report, key_not_after, next_action,
    output_text, partition, partition_records, partition_records_checked, reduce_records,
    KeyValue, WorkerAction,
};

fn kv(key: &str, val: u8) -> KeyValue<String, u8> {
    KeyValue::new(key.to_string(), val)
}

fn count(_key: &str, values: Vec<u8>) -> usize {
    values.len()
}

/// A reduce function that depends on the order of the values.
fn positional(_key: &str, values: Vec<u8>) -> usize {
    values.iter().fold(0usize, |acc, v| acc * 10 + *v as usize)
}

fn sequential(inputs: &[(&str, &str)]) -> String {
    let mut all: Vec<KeyValue<String, u8>> = Vec::new();
    for (name, text) in inputs {
        all.extend(wc::map(name.to_string(), text.to_string()));
    }
    all.sort_by(|a, b| a.key.cmp(&b.key));
    let mut out = String::new();
    let mut i = 0;
    while i < all.len() {
        let mut j = i;
        while j < all.len() && all[j].key == all[i].key {
            j += 1;
        }
        out.push_str(&format!("{} {}\n", all[i].key, j - i));
        i = j;
    }
    out
}

/// The whole pipeline, with the files kept in memory.
fn distributed(inputs: &[(&str, &str)], num_reducer: u32) -> Vec<String> {
    let mut shards: Vec<String> = vec![String::new(); num_reducer as usize];
    for (id, (name, text)) in inputs.iter().enumerate() {
        let job = Job {
            id: id as u32,
            job_type: 0,
            inp_file: name.to_string(),
            oup_file: String::new(),
        };
        let buffers = handle_map_job(&job, text.to_string(), num_reducer, &wc::map).unwrap();
        assert_eq!(buffers.len(), num_reducer as usize);
        for (r, b) in buffers.iter().enumerate() {
            shards[r].push_str(b);
        }
    }
    shards
        .iter()
        .map(|shard| {
            let lines: Vec<String> = shard.lines().map(|l| l.to_string()).collect();
            handle_reduce_job(&lines, &count).unwrap()
        })
        .collect()
}

#[test]
fn key_value_new_keeps_both_parts() {
    let record = KeyValue::new("k".to_string(), 7u8);
    assert_eq!(record.key, "k");
    assert_eq!(record.val, 7);
}

#[test]
fn ihash_is_fnv1a_masked_to_31_bits() {
    assert_eq!(ihash(""), 0x04222325);
    assert_eq!(ihash("a"), 0x0601ec8c);
    assert_eq!(ihash("foobar"), 0x773967e8);
    assert_eq!(ihash("cat"), 216310567);
    assert_eq!(ihash("dog"), 1953790185);
    assert_eq!(ihash("\u{e9}"), 924327425);
    assert_ne!(ihash("a"), ihash("b"));
}

#[test]
fn partition_is_the_hash_modulo_the_partitions() {
    assert_eq!(partition("cat", 2), 1);
    assert_eq!(partition("dog", 2), 1);
    assert_eq!(partition("a", 2), 0);
    assert_eq!(partition("dog", 3), 0);
    assert_eq!(partition("cat", 10), 7);
    assert_eq!(partition("hello world", 10), 3);
    assert_eq!(partition("anything", 1), 0);
}

#[test]
fn partition_is_the_same_on_every_call() {
    for key in ["", "a", "dog", "some longer key"] {
        for r in 1..12u32 {
            let first = partition(key, r);
            assert!(first < r);
            assert_eq!(partition(key, r), first);
            assert_eq!(first as u64, ihash(key) % r as u64);
        }
    }
}

#[test]
fn decimal_of_numbers() {
    assert_eq!(decimal_string(0), "0");
    assert_eq!(decimal_string(9), "9");
    assert_eq!(decimal_string(10), "10");
    assert_eq!(decimal_string(255), "255");
    assert_eq!(decimal_string(1000), "1000");
    assert_eq!(decimal_string(u64::MAX), "18446744073709551615");
}

#[test]
fn text_helpers() {
    let chars = chars_of("h\u{e9}llo");
    assert_eq!(chars, vec!['h', '\u{e9}', 'l', 'l', 'o']);
    assert_eq!(string_of_range(&chars, 1, 3), "\u{e9}l");
    assert_eq!(string_of_range(&chars, 2, 2), "");
    assert!(has_at(&chars, 2, &chars_of("llo")));
    assert!(!has_at(&chars, 3, &chars_of("llo")));
    assert!(!has_at(&chars, 9, &chars_of("l")));
    assert!(has_at(&chars, 5, &chars_of("")));
    assert_eq!(digit_value('7'), Some(7));
    assert_eq!(digit_value('0'), Some(0));
    assert_eq!(digit_value(':'), None);
    assert_eq!(digit_value('a'), None);
}

#[test]
fn record_is_written_as_an_object_on_one_line() {
    assert_eq!(encode_record(&kv("dog", 1)).unwrap(), "{\"key\":\"dog\",\"val\":1}");
    assert_eq!(encode_record(&kv("", 0)).unwrap(), "{\"key\":\"\",\"val\":0}");
    assert_eq!(encode_record(&kv("k", 255)).unwrap(), "{\"key\":\"k\",\"val\":255}");
    assert_eq!(
        encode_record(&kv("a\"b\\c\nd", 42)).unwrap(),
        "{\"key\":\"a\\\"b\\\\c\\nd\",\"val\":42}"
    );
    assert_eq!(frame_record("\"x\"", 10), "{\"key\":\"x\",\"val\":10}");
}

#[test]
fn record_survives_writing_and_reading() {
    let keys = [
        "",
        "a",
        "dog",
        "with space",
        "quote\"inside",
        "back\\slash",
        "line\nbreak",
        "tab\tand\rreturn",
        "\u{1}control",
        "caf\u{e9} \u{4e2d}\u{6587} \u{1f600}",
        "{\"key\":\"nested\",\"val\":1}",
        "ends with ,\"val\":7}",
        "123",
    ];
    for key in keys {
        for val in [0u8, 1, 9, 10, 42, 99, 100, 101, 199, 200, 255] {
            let record = kv(key, val);
            let line = encode_record(&record).unwrap();
            assert!(!line.contains('\n'));
            assert_eq!(decode_record(&line), Ok(record));
        }
    }
}

#[test]
fn line_is_taken_apart_at_its_frame() {
    assert_eq!(
        split_record("{\"key\":\"dog\",\"val\":3}"),
        Some(("\"dog\"".to_string(), 3))
    );
    assert_eq!(split_record("{\"key\":,\"val\":255}"), Some((String::new(), 255)));
    assert_eq!(
        split_record("{\"key\":\",\\\"val\\\":1}\",\"val\":12}"),
        Some(("\",\\\"val\\\":1}\"".to_string(), 12))
    );
}

#[test]
fn malformed_lines_are_refused() {
    let bad = [
        "",
        "{}",
        "dog 3",
        "{\"key\":\"dog\",\"val\":3",
        "{\"key\":\"dog\",\"val\":}",
        "{\"key\":\"dog\",\"val\":256}",
        "{\"key\":\"dog\",\"val\":1000}",
        "{\"key\":\"dog\",\"val\":03}",
        "{\"key\":\"dog\",\"val\":-1}",
        "{\"key\":\"dog\",\"val\":1.0}",
        "{\"key\":\"dog\", \"val\":3}",
        "{\"val\":3,\"key\":\"dog\"}",
        " {\"key\":\"dog\",\"val\":3}",
        "{\"key\":\"dog\",\"val\":3} ",
        "{\"key\":dog,\"val\":3}",
        "{\"key\":\"dog,\"val\":3}",
        "{\"key\":17,\"val\":3}",
        "{\"key\":\"a\"\"b\",\"val\":3}",
        "{\"key\":,\"val\":3}",
        "{\"kez\":\"dog\",\"val\":3}",
    ];
    for line in bad {
        assert_eq!(decode_record(line), Err(RecordError::Malformed), "line: {}", line);
    }
    assert_eq!(split_record("{\"key\":\"dog\",\"val\":03}"), None);
    assert_eq!(split_record("{\"key\":\"dog\",\"val\":256}"), None);
    assert_eq!(split_record("{\"key\":\"dog\",\"val\":0}"), Some(("\"dog\"".to_string(), 0)));
}

#[test]
fn lines_are_read_in_order() {
    let lines = vec![
        "{\"key\":\"b\",\"val\":1}".to_string(),
        "{\"key\":\"a\",\"val\":2}".to_string(),
    ];
    assert_eq!(decode_records(&lines), Ok(vec![kv("b", 1), kv("a", 2)]));
    assert_eq!(decode_records(&Vec::new()), Ok(Vec::new()));
    let broken = vec!["{\"key\":\"b\",\"val\":1}".to_string(), "oops".to_string()];
    assert_eq!(decode_records(&broken), Err(RecordError::Malformed));
}

#[test]
fn records_are_split_by_the_partition_of_their_key() {
    // with two partitions "a" falls in 0, "cat" and "dog" in 1
    let records = vec![kv("cat", 1), kv("a", 1), kv("dog", 2), kv("a", 3)];
    let shards = partition_records(&records, 2).unwrap();
    assert_eq!(shards.len(), 2);
    assert_eq!(shards[0], "{\"key\":\"a\",\"val\":1}\n{\"key\":\"a\",\"val\":3}\n");
    assert_eq!(shards[1], "{\"key\":\"cat\",\"val\":1}\n{\"key\":\"dog\",\"val\":2}\n");
    let one = partition_records(&records, 1).unwrap();
    assert_eq!(one.len(), 1);
    assert_eq!(one[0].lines().count(), 4);
    let none = partition_records(&Vec::new(), 3).unwrap();
    assert_eq!(none, vec![String::new(), String::new(), String::new()]);
}

#[test]
fn collapse_reduces_each_run_of_equal_keys() {
    let records = vec![kv("a", 1), kv("a", 2), kv("b", 3), kv("a", 4)];
    let results = collapse(&records, &positional);
    assert_eq!(results, vec![
        KeyValue::new("a".to_string(), 12usize),
        KeyValue::new("b".to_string(), 3),
        KeyValue::new("a".to_string(), 4),
    ]);
    assert_eq!(collapse(&Vec::new(), &count), Vec::new());
}

#[test]
fn reduce_records_sorts_by_key_and_keeps_the_order_of_values() {
    let records = vec![kv("b", 1), kv("a", 2), kv("b", 3), kv("a", 4), kv("B", 5), kv("ab", 6)];
    let results = reduce_records(records, &positional);
    assert_eq!(results, vec![
        KeyValue::new("B".to_string(), 5usize),
        KeyValue::new("a".to_string(), 24),
        KeyValue::new("ab".to_string(), 6),
        KeyValue::new("b".to_string(), 13),
    ]);
}

#[test]
fn output_has_one_line_for_each_key() {
    let results = vec![KeyValue::new("a".to_string(), 2usize), KeyValue::new("b".to_string(), 1)];
    assert_eq!(output_text(&results), "a 2\nb 1\n");
    assert_eq!(output_text(&Vec::new()), "");
    let big = vec![KeyValue::new("k".to_string(), 1234567usize)];
    assert_eq!(output_text(&big), "k 1234567\n");
}

#[test]
fn one_file_one_partition() {
    let outputs = distributed(&[("pg.txt", "a b a")], 1);
    assert_eq!(outputs, vec!["a 2\nb 1\n".to_string()]);
    assert_eq!(outputs[0], sequential(&[("pg.txt", "a b a")]));
}

#[test]
fn two_files_two_partitions() {
    let inputs = [("f1", "cat dog"), ("f2", "dog dog")];
    let outputs = distributed(&inputs, 2);
    assert_eq!(outputs.len(), 2);
    let mut lines: Vec<String> = Vec::new();
    for out in &outputs {
        let own: Vec<String> = out.lines().map(|l| l.to_string()).collect();
        let mut sorted = own.clone();
        sorted.sort();
        assert_eq!(own, sorted);
        lines.extend(own);
    }
    lines.sort();
    assert_eq!(lines, vec!["cat 1".to_string(), "dog 3".to_string()]);
    assert_eq!(outputs[0], "");
    assert_eq!(outputs[1], "cat 1\ndog 3\n");
}

#[test]
fn distributed_output_agrees_with_the_sequential_run() {
    let inputs = [
        ("f1", "the quick brown fox jumps over the lazy dog"),
        ("f2", "The dog barks; the fox runs away. A fox!"),
        ("f3", ""),
        ("f4", "caf\u{e9} au lait, caf\u{e9} noir"),
    ];
    let oracle = sequential(&inputs);
    for r in [1u32, 2, 3, 10] {
        let outputs = distributed(&inputs, r);
        let mut lines: Vec<&str> = outputs.iter().flat_map(|o| o.lines()).collect();
        lines.sort_by(|a, b| {
            let ka = a.split(' ').next().unwrap();
            let kb = b.split(' ').next().unwrap();
            ka.cmp(kb)
        });
        let mut merged = String::new();
        for line in lines {
            merged.push_str(line);
            merged.push('\n');
        }
        assert_eq!(merged, oracle, "with {} partitions", r);
    }
}

#[test]
fn reduce_job_fails_on_a_malformed_line() {
    let lines = vec!["{\"key\":\"a\",\"val\":1}".to_string(), "{\"key\":\"a\"".to_string()];
    assert_eq!(handle_reduce_job(&lines, &count), Err(RecordError::Malformed));
    assert_eq!(handle_reduce_job(&Vec::new(), &count), Ok(String::new()));
}

#[test]
fn map_job_hands_the_file_name_to_the_map_function() {
    let job = Job { id: 3, job_type: 0, inp_file: "in.txt".to_string(), oup_file: String::new() };
    let name_as_key = |name: String, _text: String| vec![KeyValue::new(name, 9u8)];
    let shards = handle_map_job(&job, "ignored".to_string(), 1, &name_as_key).unwrap();
    assert_eq!(shards, vec!["{\"key\":\"in.txt\",\"val\":9}\n".to_string()]);
}

#[test]
fn worker_stops_when_no_job_is_assigned() {
    let reply = AskForJobReply { assigned_job: None, num_reducer: 4 };
    assert_eq!(next_action(reply), WorkerAction::Stop);
}

#[test]
fn worker_runs_the_job_according_to_its_kind() {
    let map_job = Job { id: 1, job_type: 0, inp_file: "f".to_string(), oup_file: String::new() };
    let reduce_job = Job {
        id: 2,
        job_type: 1,
        inp_file: "mr-inp-2".to_string(),
        oup_file: "mr-out-2".to_string(),
    };
    let odd_job = Job { id: 3, job_type: 9, inp_file: String::new(), oup_file: String::new() };
    assert_eq!(
        next_action(AskForJobReply { assigned_job: Some(map_job.clone()), num_reducer: 4 }),
        WorkerAction::RunMap { job: map_job, num_reducer: 4 }
    );
    assert_eq!(
        next_action(AskForJobReply { assigned_job: Some(reduce_job.clone()), num_reducer: 4 }),
        WorkerAction::RunReduce { job: reduce_job }
    );
    assert_eq!(
        next_action(AskForJobReply { assigned_job: Some(odd_job.clone()), num_reducer: 4 }),
        WorkerAction::Unknown { job: odd_job }
    );
}

#[test]
fn worker_reports_what_happened() {
    let done = job_report(5, JobType::Reduce, true);
    assert_eq!((done.job_id, done.job_type, done.status), (5, 1, 0));
    let failed = job_report(6, JobType::MapJob, false);
    assert_eq!((failed.job_id, failed.job_type, failed.status), (6, 0, 1));
    assert_eq!(JobStatus::from_i32(failed.status), Some(JobStatus::JobFailed));
}

#[test]
fn keys_are_ordered_by_their_bytes() {
    assert_key_order(&[
        ("", "", true, true),
        ("", "a", true, false),
        ("a", "b", true, false),
        ("B", "a", true, false),
        ("a", "ab", true, false),
        ("ab", "b", true, false),
        ("z", "\u{e9}", true, false),
        ("\u{e9}", "\u{4e2d}", true, false),
        ("same", "same", true, true),
    ]);
}

fn assert_key_order(cases: &[(&str, &str, bool, bool)]) {
    for (a, b, forth, back) in cases {
        assert_eq!(key_not_after(a, b), *forth, "{:?} {:?}", a, b);
        assert_eq!(key_not_after(b, a), *back, "{:?} {:?}", b, a);
        assert_eq!(compare_keys(a, b), a.cmp(b), "{:?} {:?}", a, b);
        assert_eq!(compare_keys(b, a), b.cmp(a), "{:?} {:?}", b, a);
    }
}

#[test]
fn every_key_is_written_on_one_line() {
    let keys = ["plain", "line\nbreak", "two\n\nbreaks\n", "return\r\nfeed", "quote\"d", "\n"];
    for key in keys {
        let line = encode_record(&kv(key, 7)).unwrap();
        assert!(!line.contains('\n'), "key {:?}", key);
        assert_eq!(decode_record(&line), Ok(kv(key, 7)));
    }
    let records: Vec<KeyValue<String, u8>> = keys.iter().map(|k| kv(k, 1)).collect();
    let shards = partition_records(&records, 1).unwrap();
    assert_eq!(shards[0].matches('\n').count(), keys.len());
    let lines: Vec<String> = shards[0].lines().map(|l| l.to_string()).collect();
    assert_eq!(decode_records(&lines), Ok(records));
}

#[test]
fn each_record_goes_to_the_buffer_of_its_key_and_to_no_other() {
    let records = vec![kv("cat", 1), kv("a", 2), kv("dog", 3), kv("cat", 4), kv("b\nc", 5)];
    for r in 1..6u32 {
        let shards = partition_records(&records, r).unwrap();
        assert_eq!(shards.len(), r as usize);
        let mut seen = 0;
        for (index, shard) in shards.iter().enumerate() {
            for line in shard.lines() {
                let record = decode_record(line).unwrap();
                assert_eq!(partition(&record.key, r) as usize, index);
                seen += 1;
            }
        }
        assert_eq!(seen, records.len());
    }
}

#[test]
fn checked_encoding_gives_the_line_that_reads_back() {
    for key in ["", "dog", "a\"b", "line\nbreak", "caf\u{e9}"] {
        let record = kv(key, 200);
        let line = encode_record_checked(&record).expect("a line");
        assert_eq!(line, encode_record(&record).unwrap());
        assert_eq!(decode_record(&line), Ok(record));
    }
}

#[test]
fn checked_partitioning_gives_what_plain_partitioning_gives() {
    let records = vec![kv("cat", 1), kv("a\nb", 2), kv("dog\"", 3), kv("", 4)];
    assert!(keys_read_back(&records));
    assert!(keys_read_back(&Vec::new()));
    for r in 1..4u32 {
        assert_eq!(partition_records_checked(&records, r), partition_records(&records, r));
    }
}
