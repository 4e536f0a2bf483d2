//! The word-count application: `map` emits one record for each word of a
//! file, `reduce` counts the records of a word.

use vstd::prelude::*;
use vstd::string::*;
use crate::text::{chars_of, push_char, strings_view};
use crate::record::records_view;
use crate::worker::KeyValue;

verus! {

/// Whether `c` has the Unicode property Alphabetic, as `char::is_alphabetic`
/// tells it.
pub uninterp spec fn alphabetic(c: char) -> bool;

/// Calls `char::is_alphabetic`. The contract only names the answer: it is
/// the Alphabetic property of the Unicode tables that std carries.
#[verifier::external_body]
fn is_alphabetic(c: char) -> (yes: bool)
    ensures
        yes == alphabetic(c),
{
    c.is_alphabetic()
}

/// The state of a scan of `text` from left to right: the words that have
/// ended, and the letters of the word that is still open.
pub open spec fn scan(text: Seq<char>) -> (Seq<Seq<char>>, Seq<char>)
    decreases text.len(),
{
    if text.len() == 0 {
        (Seq::empty(), Seq::empty())
    } else {
        let (words, open) = scan(text.drop_last());
        if alphabetic(text.last()) {
            (words, open.push(text.last()))
        } else if open.len() > 0 {
            (words.push(open), Seq::empty())
        } else {
            (words, open)
        }
    }
}

/// The words of `text`: its maximal runs of alphabetic characters, in order.
pub open spec fn words_of(text: Seq<char>) -> Seq<Seq<char>> {
    let (words, open) = scan(text);
    if open.len() > 0 {
        words.push(open)
    } else {
        words
    }
}

/// Every character of `word` is alphabetic.
pub open spec fn all_letters(word: Seq<char>) -> bool {
    forall|j: int| 0 <= j < word.len() ==> alphabetic(#[trigger] word[j])
}

/// Every word of `words` has at least one character, all of them alphabetic.
pub open spec fn all_runs_of_letters(words: Seq<Seq<char>>) -> bool {
    forall|i: int| 0 <= i < words.len() ==> (#[trigger] words[i]).len() > 0 && all_letters(words[i])
}

/// At every point of a scan, the words that have ended are runs of letters,
/// and the open word holds letters only.
pub proof fn lemma_scan_keeps_letters(text: Seq<char>)
    ensures
        all_runs_of_letters(scan(text).0),
        all_letters(scan(text).1),
    decreases text.len(),
{
    if text.len() > 0 {
        lemma_scan_keeps_letters(text.drop_last());
        let (ended, open) = scan(text.drop_last());
        let (ended_now, open_now) = scan(text);
        if alphabetic(text.last()) {
            assert forall|j: int| 0 <= j < open_now.len() implies alphabetic(
                #[trigger] open_now[j],
            ) by {
                if j < open.len() {
                    assert(open_now[j] == open[j]);
                }
            }
        } else if open.len() > 0 {
            assert forall|i: int| 0 <= i < ended_now.len() implies (#[trigger] ended_now[i]).len()
                > 0 && all_letters(ended_now[i]) by {
                if i < ended.len() {
                    assert(ended_now[i] == ended[i]);
                } else {
                    assert(ended_now[i] == open);
                }
            }
        }
    }
}

/// Every word has at least one character, and all its characters are
/// alphabetic.
pub proof fn lemma_words_are_runs_of_letters(text: Seq<char>)
    ensures
        all_runs_of_letters(words_of(text)),
{
    lemma_scan_keeps_letters(text);
    let (ended, open) = scan(text);
    let words = words_of(text);
    assert forall|i: int| 0 <= i < words.len() implies (#[trigger] words[i]).len() > 0
        && all_letters(words[i]) by {
        if i < ended.len() {
            assert(words[i] == ended[i]);
        } else {
            assert(words[i] == open);
        }
    }
}

/// A text without alphabetic characters has no words.
pub proof fn lemma_no_letters_no_words(text: Seq<char>)
    requires
        forall|i: int| 0 <= i < text.len() ==> !alphabetic(#[trigger] text[i]),
    ensures
        scan(text) == (Seq::<Seq<char>>::empty(), Seq::<char>::empty()),
        words_of(text) == Seq::<Seq<char>>::empty(),
    decreases text.len(),
{
    if text.len() > 0 {
        lemma_no_letters_no_words(text.drop_last());
    }
}

/// A text of alphabetic characters only is one word, if it is not empty.
pub proof fn lemma_letters_are_one_word(text: Seq<char>)
    requires
        text.len() > 0,
        forall|i: int| 0 <= i < text.len() ==> alphabetic(#[trigger] text[i]),
    ensures
        words_of(text) == seq![text],
    decreases text.len(),
{
    lemma_all_letters_stay_open(text);
}

/// While a scan meets alphabetic characters only, no word ends and all of
/// them are in the open word.
pub proof fn lemma_all_letters_stay_open(text: Seq<char>)
    requires
        forall|i: int| 0 <= i < text.len() ==> alphabetic(#[trigger] text[i]),
    ensures
        scan(text) == (Seq::<Seq<char>>::empty(), text),
    decreases text.len(),
{
    if text.len() > 0 {
        lemma_all_letters_stay_open(text.drop_last());
        assert(text.drop_last().push(text.last()) =~= text);
    }
}

/// A scan that goes on after a point where no word is open adds the words of
/// what follows to the words that have ended.
pub proof fn lemma_scan_goes_on(before: Seq<char>, after: Seq<char>)
    requires
        scan(before).1.len() == 0,
    ensures
        scan(before + after) == (scan(before).0 + scan(after).0, scan(after).1),
    decreases after.len(),
{
    if after.len() == 0 {
        assert(before + after =~= before);
        assert(scan(before).0 + scan(after).0 =~= scan(before).0);
        assert(scan(before).1 =~= scan(after).1);
    } else {
        lemma_scan_goes_on(before, after.drop_last());
        assert((before + after).drop_last() =~= before + after.drop_last());
        assert((before + after).last() == after.last());
        let (ended, open) = scan(after.drop_last());
        if !alphabetic(after.last()) && open.len() > 0 {
            assert((scan(before).0 + ended).push(open) =~= scan(before).0 + ended.push(open));
        }
    }
}

/// A character that is not alphabetic parts the words before it from the
/// words after it.
pub proof fn lemma_delimiter_parts_words(before: Seq<char>, delimiter: char, after: Seq<char>)
    requires
        !alphabetic(delimiter),
    ensures
        words_of(before + seq![delimiter] + after) == words_of(before) + words_of(after),
{
    let head = before + seq![delimiter];
    assert(head.drop_last() =~= before);
    assert(head.last() == delimiter);
    assert(scan(head) == (words_of(before), Seq::<char>::empty()));
    lemma_scan_goes_on(head, after);
    let (ended, open) = scan(after);
    if open.len() > 0 {
        assert((words_of(before) + ended).push(open) =~= words_of(before) + ended.push(open));
    }
}

/// Whether the character at the position `i` is flagged as a letter; a
/// position without a flag counts as no letter.
pub open spec fn is_letter_at(letter: Seq<bool>, i: int) -> bool {
    0 <= i < letter.len() && letter[i]
}

/// The state of a scan of the first `upto` characters of `chars`, where
/// `letter` tells of each character whether it is a letter: the words that
/// have ended, and the letters of the word that is still open.
pub open spec fn scan_flags(chars: Seq<char>, letter: Seq<bool>, upto: nat) -> (
    Seq<Seq<char>>,
    Seq<char>,
)
    decreases upto,
{
    if upto == 0 {
        (Seq::empty(), Seq::empty())
    } else {
        let (words, open) = scan_flags(chars, letter, (upto - 1) as nat);
        if is_letter_at(letter, upto - 1) {
            (words, open.push(chars[upto - 1]))
        } else if open.len() > 0 {
            (words.push(open), Seq::empty())
        } else {
            (words, open)
        }
    }
}

/// The words of `chars`, where `letter` tells of each character whether it is
/// a letter: the maximal runs of letters, in order.
pub open spec fn words_at(chars: Seq<char>, letter: Seq<bool>) -> Seq<Seq<char>> {
    let (words, open) = scan_flags(chars, letter, chars.len());
    if open.len() > 0 {
        words.push(open)
    } else {
        words
    }
}

/// Of each character of `text`, whether it is alphabetic.
pub open spec fn letter_flags(text: Seq<char>) -> Seq<bool> {
    Seq::new(text.len(), |i: int| alphabetic(text[i]))
}

/// A scan by the flags of the alphabetic characters is the scan of the text.
pub proof fn lemma_scan_by_letter_flags(text: Seq<char>, upto: nat)
    requires
        upto <= text.len(),
    ensures
        scan_flags(text, letter_flags(text), upto) == scan(text.take(upto as int)),
    decreases upto,
{
    if upto > 0 {
        lemma_scan_by_letter_flags(text, (upto - 1) as nat);
        let head = text.take(upto as int);
        assert(head.drop_last() =~= text.take(upto - 1));
        assert(head.last() == text[upto - 1]);
    }
}

/// The words of a text are its words by the flags of its alphabetic
/// characters.
pub proof fn lemma_words_by_letter_flags(text: Seq<char>)
    ensures
        words_at(text, letter_flags(text)) == words_of(text),
{
    lemma_scan_by_letter_flags(text, text.len());
    assert(text.take(text.len() as int) =~= text);
}

/// Splits `chars` into words, where `letter` tells of each character whether
/// it is a letter: every other character is a delimiter.
pub fn split_at_flags(chars: &Vec<char>, letter: &Vec<bool>) -> (words: Vec<String>)
    ensures
        strings_view(words@) == words_at(chars@, letter@),
{
    let mut ret: Vec<String> = Vec::new();
    let mut word = String::new();
    let mut letters: usize = 0;
    let mut i: usize = 0;
    assert(strings_view(ret@) =~= Seq::<Seq<char>>::empty());
    while i < chars.len()
        invariant
            i <= chars@.len(),
            scan_flags(chars@, letter@, i as nat) == (strings_view(ret@), word@),
            (letters == 0) == (word@.len() == 0),
        decreases chars.len() - i,
    {
        if i < letter.len() && letter[i] {
            push_char(&mut word, chars[i]);
            letters = 1;
        } else {
            if letters != 0 {
                let ghost before = strings_view(ret@);
                ret.push(word);
                assert(strings_view(ret@) =~= before.push(word@));
            }
            word = String::new();
            letters = 0;
        }
        i = i + 1;
    }
    if letters != 0 {
        let ghost before = strings_view(ret@);
        ret.push(word);
        assert(strings_view(ret@) =~= before.push(word@));
    }
    ret
}

/// Tells of each character whether it is alphabetic.
pub fn flag_letters(chars: &Vec<char>) -> (letter: Vec<bool>)
    ensures
        letter@ == letter_flags(chars@),
{
    let mut letter: Vec<bool> = Vec::new();
    let mut i: usize = 0;
    while i < chars.len()
        invariant
            i <= chars@.len(),
            letter@.len() == i,
            forall|j: int| 0 <= j < i ==> #[trigger] letter@[j] == alphabetic(chars@[j]),
        decreases chars.len() - i,
    {
        letter.push(is_alphabetic(chars[i]));
        i = i + 1;
    }
    assert(letter@ =~= letter_flags(chars@));
    letter
}

/// Splits `line` into words, taking every character that is not alphabetic
/// as a delimiter.
pub fn split_to_words(line: String) -> (words: Vec<String>)
    ensures
        strings_view(words@) == words_of(line@),
        all_runs_of_letters(strings_view(words@)),
{
    proof {
        lemma_words_are_runs_of_letters(line@);
        lemma_words_by_letter_flags(line@);
    }
    let chars = chars_of(line.as_str());
    let letter = flag_letters(&chars);
    split_at_flags(&chars, &letter)
}

/// The records that word count emits for a file: one for each word, in
/// order, each with the value 1.
pub open spec fn records_of(words: Seq<Seq<char>>) -> Seq<(Seq<char>, u8)> {
    Seq::new(words.len(), |i: int| (words[i], 1u8))
}

/// Emits one record with the value 1 for each word of `contents`. The file's
/// name plays no part.
pub fn map(_filename: String, contents: String) -> (records: Vec<KeyValue<String, u8>>)
    ensures
        records_view(records@) == records_of(words_of(contents@)),
{
    let mut words = split_to_words(contents);
    let ghost all = strings_view(words@);
    let mut records: Vec<KeyValue<String, u8>> = Vec::new();
    let mut i: usize = 0;
    let n = words.len();
    while i < n
        invariant
            i <= n,
            n == words@.len(),
            strings_view(words@) == all,
            records@.len() == i,
            forall|j: int|
                0 <= j < i ==> (#[trigger] records@[j]).key@ == all[j] && records@[j].val == 1u8,
        decreases n - i,
    {
        assert(all[i as int] == words@[i as int]@);
        records.push(KeyValue::new(words[i].clone(), 1u8));
        i = i + 1;
    }
    assert(records_view(records@) =~= records_of(all));
    records
}

/// Counts the values of a key. The key plays no part.
pub fn reduce<T, U>(_key: T, values: Vec<U>) -> (count: usize)
    ensures
        count == values@.len(),
{
    values.len()
}

} // verus!
