//! The text of one record of an intermediate file: an object with the members
//! `key` and `val` on one line, such as `{"key":"dog","val":1}`. The key is
//! written and read as a JSON string by `serde_json`; the frame around it is
//! written and read here.

use vstd::prelude::*;
use vstd::string::*;
use crate::text::{
    chars_of, decimal, digit_char, digit_of, digit_value, has_at, lemma_decimal_small,
    lemma_digit_char_of_digit, lemma_digit_of_digit_char, matches_at, no_line_break, push_decimal,
    string_of_range,
};
use crate::worker::KeyValue;

verus! {

/// What can go wrong with a record of an intermediate file.
#[derive(Debug, Clone, Copy, PartialEq, Eq, Structural)]
pub enum RecordError {
    /// The text written for a key does not read back as the key.
    Encode,
    /// A line is not a record.
    Malformed,
}

/// The contents of a list of records, in order.
pub open spec fn records_view(records: Seq<KeyValue<String, u8>>) -> Seq<(Seq<char>, u8)> {
    Seq::new(records.len(), |i: int| (records[i].key@, records[i].val))
}

/// The JSON text of a string, quotes and escapes included, as
/// `serde_json::to_string` writes it.
pub uninterp spec fn json_text(s: Seq<char>) -> Seq<char>;

/// The string that a JSON text stands for, as `serde_json::from_str` reads
/// it; `None` for a text that it does not take for a string.
pub uninterp spec fn json_parsed(text: Seq<char>) -> Option<Seq<char>>;

/// The error type of `serde_json`, carried through and never looked into.
#[verifier::external_type_specification]
#[verifier::external_body]
pub struct ExJsonError(serde_json::Error);

/// Calls `serde_json::to_string` on a string. For a string it always
/// succeeds: it writes into memory, and writing the string is all it does.
/// The result is the JSON text of that string, and it holds no line break:
/// every control character is written as an escape.
#[verifier::external_body]
fn json_quote(s: &str) -> (quoted: Result<String, serde_json::Error>)
    ensures
        quoted is Ok,
        quoted->Ok_0@ == json_text(s@),
        no_line_break(quoted->Ok_0@),
{
    serde_json::to_string(s)
}

/// Calls `serde_json::from_str` for a `String`. It succeeds exactly on the
/// texts that it takes for a JSON string, with the string that the text
/// stands for.
#[verifier::external_body]
fn json_unquote(text: &str) -> (parsed: Result<String, serde_json::Error>)
    ensures
        match parsed {
            Ok(s) => json_parsed(text@) == Some(s@),
            Err(_) => json_parsed(text@) is None,
        },
{
    serde_json::from_str::<String>(text)
}

/// What stands before the key's text in a record's line.
pub open spec fn key_open() -> Seq<char> {
    seq!['\u{7b}', '\u{22}', 'k', 'e', 'y', '\u{22}', ':']
}

/// What stands between the key's text and the value in a record's line.
pub open spec fn val_open() -> Seq<char> {
    seq![',', '\u{22}', 'v', 'a', 'l', '\u{22}', ':']
}

/// The line of a record, without the newline: an object with the member
/// `key`, whose value is the JSON text `quoted`, and the member `val`, in
/// decimal.
pub open spec fn record_line(quoted: Seq<char>, val: u8) -> Seq<char> {
    key_open() + quoted + val_open() + decimal(val as nat) + seq!['\u{7d}']
}

/// Writes the line of a record around the JSON text of its key.
pub fn frame_record(quoted: &str, val: u8) -> (line: String)
    ensures
        line@ == record_line(quoted@, val),
{
    proof {
        reveal_strlit("\u{7b}\"key\":");
        reveal_strlit(",\"val\":");
        reveal_strlit("\u{7d}");
    }
    let mut line = String::from_str("\u{7b}\"key\":");
    assert(line@ =~= key_open());
    line.append(quoted);
    line.append(",\"val\":");
    assert(line@ =~= key_open() + quoted@ + val_open());
    push_decimal(&mut line, val as u64);
    line.append("\u{7d}");
    assert(line@ =~= record_line(quoted@, val));
    line
}

/// A record's line holds no line break if the text of its key holds none.
pub proof fn lemma_record_line_keeps_to_one_line(quoted: Seq<char>, val: u8)
    requires
        no_line_break(quoted),
    ensures
        no_line_break(record_line(quoted, val)),
{
    lemma_decimal_small(val as nat);
    let line = record_line(quoted, val);
    let digits = decimal(val as nat);
    assert forall|i: int| 0 <= i < line.len() implies #[trigger] line[i] != '\n' by {
        if i < 7 {
            assert(line[i] == key_open()[i]);
        } else if i < 7 + quoted.len() {
            assert(line[i] == quoted[i - 7]);
        } else if i < 14 + quoted.len() {
            assert(line[i] == val_open()[i - 7 - quoted.len()]);
        } else if i < 14 + quoted.len() + digits.len() {
            assert(line[i] == digits[i - 14 - quoted.len()]);
        }
    }
}

/// Writes a record as one line of text, without the newline. It always
/// succeeds, and the line holds no line break, whatever the key holds.
pub fn encode_record(record: &KeyValue<String, u8>) -> (line: Result<String, RecordError>)
    ensures
        line is Ok,
        line->Ok_0@ == record_line(json_text(record.key@), record.val),
        no_line_break(line->Ok_0@),
{
    match json_quote(record.key.as_str()) {
        Ok(quoted) => {
            proof {
                lemma_record_line_keeps_to_one_line(quoted@, record.val);
            }
            Ok(frame_record(quoted.as_str(), record.val))
        },
        Err(_) => Err(RecordError::Encode),
    }
}

/// Where the frame of a record's line stands in `line`: the position at which
/// the key's text ends, and the value. `None` if `line` is no record's line.
pub open spec fn find_frame(line: Seq<char>) -> Option<(int, u8)> {
    let n = line.len() as int;
    if n < 16 || line[n - 1] != '\u{7d}' || digit_of(line[n - 2]) is None {
        None
    } else {
        let ones = digit_of(line[n - 2])->0;
        let tens = digit_of(line[n - 3]);
        let hundreds = digit_of(line[n - 4]);
        let (width, val, lead) = if tens is None {
            (1int, ones, 1nat)
        } else if hundreds is None {
            (2int, tens->0 * 10 + ones, tens->0)
        } else {
            (3int, hundreds->0 * 100 + tens->0 * 10 + ones, hundreds->0)
        };
        let at = n - 8 - width;
        if lead == 0 || val > 255 || at < 7 || !matches_at(line, at, val_open()) || !matches_at(
            line,
            0,
            key_open(),
        ) {
            None
        } else {
            Some((at, val as u8))
        }
    }
}

/// A frame that was found is a frame: the line is the record's line of the
/// text between the frame's parts and of the value.
pub proof fn lemma_found_frame_is_record(line: Seq<char>)
    requires
        find_frame(line) is Some,
    ensures
        ({
            let (at, val) = find_frame(line)->0;
            7 <= at <= line.len() && line == record_line(line.subrange(7, at), val)
        }),
{
    let n = line.len() as int;
    let (at, val) = find_frame(line)->0;
    let digits = decimal(val as nat);
    lemma_decimal_small(val as nat);
    lemma_digit_char_of_digit(line[n - 2]);
    if digit_of(line[n - 3]) is Some {
        lemma_digit_char_of_digit(line[n - 3]);
        if digit_of(line[n - 4]) is Some {
            lemma_digit_char_of_digit(line[n - 4]);
        }
    }
    let width = n - 8 - at;
    assert(digits.len() == width);
    assert(digits =~= line.subrange(n - 1 - width, n - 1));
    assert(val_open() =~= line.subrange(at, at + 7)) by {
        assert(matches_at(line, at, val_open()));
        assert forall|k: int| 0 <= k < 7 implies line.subrange(at, at + 7)[k] == val_open()[k] by {
            assert(line[at + k] == val_open()[k]);
        }
    }
    assert(key_open() =~= line.subrange(0, 7)) by {
        assert(matches_at(line, 0, key_open()));
        assert forall|k: int| 0 <= k < 7 implies line.subrange(0, 7)[k] == key_open()[k] by {
            assert(line[0 + k] == key_open()[k]);
        }
    }
    assert(line =~= line.subrange(0, 7) + line.subrange(7, at) + line.subrange(at, at + 7)
        + line.subrange(n - 1 - width, n - 1) + seq!['\u{7d}']);
}

/// Every record's line has a frame, and it is found where it was put: reading
/// the frame of a line that was written gives back the key's text and the
/// value.
pub proof fn lemma_record_frame_is_found(quoted: Seq<char>, val: u8)
    ensures
        find_frame(record_line(quoted, val)) == Some((7 + quoted.len() as int, val)),
        record_line(quoted, val).subrange(7, 7 + quoted.len() as int) == quoted,
{
    let line = record_line(quoted, val);
    let n = line.len() as int;
    let digits = decimal(val as nat);
    let v = val as nat;
    lemma_decimal_small(v);
    let width = digits.len() as int;
    let at = 7 + quoted.len() as int;
    assert(n == 15 + quoted.len() + width);
    assert(line[n - 1] == '\u{7d}');
    assert forall|k: int| 0 <= k < width implies line[n - 1 - width + k] == digits[k] by {}
    assert forall|k: int| 0 <= k < 7 implies line[at + k] == val_open()[k] by {}
    assert forall|k: int| 0 <= k < 7 implies line[0 + k] == key_open()[k] by {}
    assert(matches_at(line, at, val_open()));
    assert(matches_at(line, 0, key_open()));
    assert(line[at + 6] == ':');
    assert(line.subrange(7, at) =~= quoted);
    if v < 10 {
        lemma_digit_of_digit_char(v);
        assert(line[n - 2] == digits[0]);
        assert(line[n - 3] == ':');
    } else if v < 100 {
        lemma_digit_of_digit_char(v / 10);
        lemma_digit_of_digit_char(v % 10);
        assert(line[n - 2] == digits[1]);
        assert(line[n - 3] == digits[0]);
        assert(line[n - 4] == ':');
    } else {
        lemma_digit_of_digit_char(v / 100);
        lemma_digit_of_digit_char((v / 10) % 10);
        lemma_digit_of_digit_char(v % 10);
        assert(line[n - 2] == digits[2]);
        assert(line[n - 3] == digits[1]);
        assert(line[n - 4] == digits[0]);
    }
}

/// Two records' lines are equal only if the keys' texts and the values are.
pub proof fn lemma_record_line_injective(q1: Seq<char>, v1: u8, q2: Seq<char>, v2: u8)
    requires
        record_line(q1, v1) == record_line(q2, v2),
    ensures
        q1 == q2,
        v1 == v2,
{
    lemma_record_frame_is_found(q1, v1);
    lemma_record_frame_is_found(q2, v2);
}

/// Finds the frame of a record's line.
fn locate_frame(line: &Vec<char>) -> (found: Option<(usize, u8)>)
    ensures
        match found {
            Some((at, val)) => find_frame(line@) == Some((at as int, val)),
            None => find_frame(line@) is None,
        },
{
    let n = line.len();
    if n < 16 || line[n - 1] != '\u{7d}' {
        return None;
    }
    let ones = match digit_value(line[n - 2]) {
        Some(d) => d,
        None => {
            return None;
        },
    };
    let mut width: usize = 1;
    let mut val: u32 = ones;
    let mut lead: u32 = 1;
    match digit_value(line[n - 3]) {
        None => {},
        Some(tens) => {
            match digit_value(line[n - 4]) {
                None => {
                    width = 2;
                    val = tens * 10 + ones;
                    lead = tens;
                },
                Some(hundreds) => {
                    width = 3;
                    val = hundreds * 100 + tens * 10 + ones;
                    lead = hundreds;
                },
            }
        },
    }
    let at = n - 8 - width;
    if lead == 0 || val > 255 || at < 7 {
        return None;
    }
    proof {
        reveal_strlit("\u{7b}\"key\":");
        reveal_strlit(",\"val\":");
    }
    let key_part = chars_of("\u{7b}\"key\":");
    let val_part = chars_of(",\"val\":");
    assert(key_part@ =~= key_open());
    assert(val_part@ =~= val_open());
    if !has_at(line, at, &val_part) || !has_at(line, 0, &key_part) {
        return None;
    }
    Some((at, val as u8))
}

/// Takes a record's line apart: the JSON text of the key, and the value.
/// `None` exactly when `line` is no record's line.
pub fn split_record(line: &str) -> (parts: Option<(String, u8)>)
    ensures
        match parts {
            Some((quoted, val)) => line@ == record_line(quoted@, val),
            None => forall|quoted: Seq<char>, val: u8| line@ != record_line(quoted, val),
        },
{
    let chars = chars_of(line);
    match locate_frame(&chars) {
        None => {
            proof {
                assert forall|quoted: Seq<char>, val: u8| line@ != record_line(quoted, val) by {
                    lemma_record_frame_is_found(quoted, val);
                }
            }
            None
        },
        Some((at, val)) => {
            proof {
                lemma_found_frame_is_record(chars@);
            }
            Some((string_of_range(&chars, 7, at), val))
        },
    }
}

/// The record that a line stands for: the line is a record's line, and the
/// text of its key stands for a string. `None` for any other line.
pub open spec fn decoded(line: Seq<char>) -> Option<(Seq<char>, u8)> {
    match find_frame(line) {
        None => None,
        Some((at, val)) => match json_parsed(line.subrange(7, at)) {
            None => None,
            Some(key) => Some((key, val)),
        },
    }
}

/// Reads a record from one line of text, without the newline.
pub fn decode_record(line: &str) -> (record: Result<KeyValue<String, u8>, RecordError>)
    ensures
        match record {
            Ok(r) => decoded(line@) == Some((r.key@, r.val)),
            Err(e) => e == RecordError::Malformed && decoded(line@) is None,
        },
{
    match split_record(line) {
        None => {
            proof {
                if find_frame(line@) is Some {
                    lemma_found_frame_is_record(line@);
                }
            }
            Err(RecordError::Malformed)
        },
        Some((quoted, val)) => {
            proof {
                lemma_record_frame_is_found(quoted@, val);
            }
            match json_unquote(quoted.as_str()) {
                Ok(key) => Ok(KeyValue::new(key, val)),
                Err(_) => Err(RecordError::Malformed),
            }
        },
    }
}

/// A line stands for the record of `key` and `val` exactly when it is the
/// record's line of `val` and of a text that stands for `key`.
pub proof fn lemma_decoded_is_the_framed_key(line: Seq<char>, key: Seq<char>, val: u8)
    ensures
        decoded(line) == Some((key, val)) <==> exists|quoted: Seq<char>|
            line == #[trigger] record_line(quoted, val) && json_parsed(quoted) == Some(key),
{
    if decoded(line) == Some((key, val)) {
        lemma_found_frame_is_record(line);
        let (at, found) = find_frame(line)->0;
        assert(line == record_line(line.subrange(7, at), val));
    }
    if exists|quoted: Seq<char>|
        line == #[trigger] record_line(quoted, val) && json_parsed(quoted) == Some(key) {
        let quoted = choose|quoted: Seq<char>|
            line == #[trigger] record_line(quoted, val) && json_parsed(quoted) == Some(key);
        lemma_record_frame_is_found(quoted, val);
    }
}

/// Writes a record as one line of text and reads the line back: the line is
/// returned only if it stands for the record. `None` exactly when reading the
/// JSON text of the key does not give the key back.
pub fn encode_record_checked(record: &KeyValue<String, u8>) -> (line: Option<String>)
    ensures
        line is Some <==> json_parsed(json_text(record.key@)) == Some(record.key@),
        line is Some ==> line->0@ == record_line(json_text(record.key@), record.val)
            && no_line_break(line->0@) && decoded(line->0@) == Some((record.key@, record.val)),
{
    let text = match encode_record(record) {
        Ok(text) => text,
        Err(_) => {
            return None;
        },
    };
    proof {
        lemma_record_frame_is_found(json_text(record.key@), record.val);
    }
    match decode_record(text.as_str()) {
        Ok(back) => {
            if back.key == record.key {
                Some(text)
            } else {
                None
            }
        },
        Err(_) => None,
    }
}

/// Reading the JSON text of every key of `records` gives the key back.
pub open spec fn all_keys_read_back(records: Seq<(Seq<char>, u8)>) -> bool {
    forall|i: int|
        0 <= i < records.len() ==> json_parsed(json_text((#[trigger] records[i]).0)) == Some(
            records[i].0,
        )
}

/// Writes each record and reads it back, and tells whether every record came
/// back: whether reading the JSON text of every key gives the key back.
pub fn keys_read_back(records: &Vec<KeyValue<String, u8>>) -> (yes: bool)
    ensures
        yes == all_keys_read_back(records_view(records@)),
{
    let mut i: usize = 0;
    while i < records.len()
        invariant
            i <= records@.len(),
            forall|j: int|
                0 <= j < i ==> json_parsed(json_text((#[trigger] records_view(records@)[j]).0))
                    == Some(records_view(records@)[j].0),
        decreases records.len() - i,
    {
        if encode_record_checked(&records[i]).is_none() {
            assert(json_parsed(json_text(records_view(records@)[i as int].0)) != Some(
                records_view(records@)[i as int].0,
            ));
            return false;
        }
        assert(records_view(records@)[i as int].0 == records@[i as int].key@);
        i = i + 1;
    }
    true
}

/// Reading a line that was written gives the record back, provided that
/// reading the JSON text of the key gives the key back.
pub proof fn lemma_decode_inverts_encode(key: Seq<char>, val: u8)
    requires
        json_parsed(json_text(key)) == Some(key),
    ensures
        decoded(record_line(json_text(key), val)) == Some((key, val)),
{
    lemma_record_frame_is_found(json_text(key), val);
}

/// Reads the records of an intermediate file from its lines, in order. Fails
/// exactly when some line is no record.
pub fn decode_records(lines: &Vec<String>) -> (records: Result<
    Vec<KeyValue<String, u8>>,
    RecordError,
>)
    ensures
        match records {
            Ok(rs) => {
                &&& rs@.len() == lines@.len()
                &&& forall|i: int|
                    0 <= i < rs@.len() ==> decoded(lines@[i]@) == Some(
                        #[trigger] records_view(rs@)[i],
                    )
            },
            Err(e) => e == RecordError::Malformed && exists|i: int|
                0 <= i < lines@.len() && decoded(#[trigger] lines@[i]@) is None,
        },
{
    let mut rs: Vec<KeyValue<String, u8>> = Vec::new();
    let mut i: usize = 0;
    while i < lines.len()
        invariant
            i <= lines@.len(),
            rs@.len() == i,
            forall|j: int|
                0 <= j < i ==> decoded(lines@[j]@) == Some(((#[trigger] rs@[j]).key@, rs@[j].val)),
        decreases lines.len() - i,
    {
        match decode_record(lines[i].as_str()) {
            Ok(r) => {
                rs.push(r);
            },
            Err(e) => {
                assert(decoded(lines@[i as int]@) is None);
                return Err(e);
            },
        }
        i = i + 1;
    }
    Ok(rs)
}

} // verus!
