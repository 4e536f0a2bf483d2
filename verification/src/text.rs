//! Decimal rendering of unsigned integers and the few string helpers that the
//! rest of the crate builds file names and output lines from.

use vstd::prelude::*;
use vstd::std_specs::iter::IteratorSpec;
use vstd::string::*;

verus! {

/// Calls `String::push`: the character is appended to the string.
#[verifier::external_body]
pub(crate) fn push_char(text: &mut String, c: char)
    ensures
        final(text)@ == old(text)@.push(c),
{
    text.push(c)
}

/// The contents of a list of strings, in order.
pub open spec fn strings_view(strings: Seq<String>) -> Seq<Seq<char>> {
    Seq::new(strings.len(), |i: int| strings[i]@)
}

/// The character that stands for the digit `d`, for `d < 10`.
pub open spec fn digit_char(d: nat) -> char {
    if d == 0 {
        '0'
    } else if d == 1 {
        '1'
    } else if d == 2 {
        '2'
    } else if d == 3 {
        '3'
    } else if d == 4 {
        '4'
    } else if d == 5 {
        '5'
    } else if d == 6 {
        '6'
    } else if d == 7 {
        '7'
    } else if d == 8 {
        '8'
    } else {
        '9'
    }
}

/// The decimal numeral of `n`, most significant digit first, without leading
/// zeros (`0` is written `"0"`).
pub open spec fn decimal(n: nat) -> Seq<char>
    decreases n,
{
    if n < 10 {
        seq![digit_char(n)]
    } else {
        decimal(n / 10).push(digit_char(n % 10))
    }
}

/// The one-character string of a single digit.
pub fn digit_str(d: u64) -> (s: &'static str)
    requires
        d < 10,
    ensures
        s@ == seq![digit_char(d as nat)],
{
    proof {
        reveal_strlit("0");
        reveal_strlit("1");
        reveal_strlit("2");
        reveal_strlit("3");
        reveal_strlit("4");
        reveal_strlit("5");
        reveal_strlit("6");
        reveal_strlit("7");
        reveal_strlit("8");
        reveal_strlit("9");
    }
    let s = if d == 0 {
        "0"
    } else if d == 1 {
        "1"
    } else if d == 2 {
        "2"
    } else if d == 3 {
        "3"
    } else if d == 4 {
        "4"
    } else if d == 5 {
        "5"
    } else if d == 6 {
        "6"
    } else if d == 7 {
        "7"
    } else if d == 8 {
        "8"
    } else {
        "9"
    };
    assert(s@ =~= seq![digit_char(d as nat)]);
    s
}

/// Appends the decimal numeral of `n` to `out`.
pub fn push_decimal(out: &mut String, n: u64)
    ensures
        final(out)@ == old(out)@ + decimal(n as nat),
    decreases n,
{
    if n >= 10 {
        push_decimal(out, n / 10);
    }
    out.append(digit_str(n % 10));
    proof {
        if n >= 10 {
            assert(decimal(n as nat) =~= decimal((n / 10) as nat) + seq![digit_char((n % 10) as nat)]);
            assert(out@ =~= old(out)@ + decimal(n as nat));
        } else {
            assert(out@ =~= old(out)@ + decimal(n as nat));
        }
    }
}

/// The decimal numeral of `n` as an owned string.
pub fn decimal_string(n: u64) -> (s: String)
    ensures
        s@ == decimal(n as nat),
{
    let mut s = String::new();
    push_decimal(&mut s, n);
    assert(s@ =~= decimal(n as nat));
    s
}

/// A name made of a fixed prefix and the decimal numeral of an index, such as
/// the intermediate file of one reducer.
pub open spec fn indexed_name(prefix: Seq<char>, index: nat) -> Seq<char> {
    prefix + decimal(index)
}

/// Builds `prefix` followed by the decimal numeral of `index`.
pub fn make_indexed_name(prefix: &str, index: u32) -> (s: String)
    ensures
        s@ == indexed_name(prefix@, index as nat),
{
    let mut s = String::from_str(prefix);
    push_decimal(&mut s, index as u64);
    s
}

/// The characters of `text`, in order.
pub fn chars_of(text: &str) -> (chars: Vec<char>)
    ensures
        chars@ == text@,
{
    let mut out: Vec<char> = Vec::new();
    let mut rest = text.chars();
    loop
        invariant
            out@ + rest.remaining() == text@,
            rest.decrease() is Some,
        ensures
            out@ == text@,
        decreases rest.decrease()->0,
    {
        match rest.next() {
            None => {
                assert(out@ =~= text@);
                break ;
            },
            Some(c) => {
                let ghost before = out@;
                out.push(c);
                assert(out@ + rest.remaining() =~= text@);
            },
        }
    }
    out
}

/// The string made of the characters of `chars` from `from` up to `to`.
pub fn string_of_range(chars: &Vec<char>, from: usize, to: usize) -> (text: String)
    requires
        from <= to <= chars@.len(),
    ensures
        text@ == chars@.subrange(from as int, to as int),
{
    let mut text = String::new();
    let mut i: usize = from;
    while i < to
        invariant
            from <= i <= to <= chars@.len(),
            text@ == chars@.subrange(from as int, i as int),
        decreases to - i,
    {
        push_char(&mut text, chars[i]);
        assert(text@ =~= chars@.subrange(from as int, i + 1));
        i = i + 1;
    }
    text
}

/// `pattern` stands in `text` at the position `at`.
pub open spec fn matches_at(text: Seq<char>, at: int, pattern: Seq<char>) -> bool {
    &&& 0 <= at
    &&& at + pattern.len() <= text.len()
    &&& forall|k: int| 0 <= k < pattern.len() ==> text[at + k] == #[trigger] pattern[k]
}

/// Whether `pattern` stands in `text` at the position `at`.
pub fn has_at(text: &Vec<char>, at: usize, pattern: &Vec<char>) -> (found: bool)
    ensures
        found == matches_at(text@, at as int, pattern@),
{
    if at > text.len() || pattern.len() > text.len() - at {
        return false;
    }
    let mut k: usize = 0;
    while k < pattern.len()
        invariant
            k <= pattern@.len(),
            at + pattern@.len() <= text@.len() <= usize::MAX,
            forall|j: int| 0 <= j < k ==> text@[at + j] == #[trigger] pattern@[j],
        decreases pattern.len() - k,
    {
        if text[at + k] != pattern[k] {
            return false;
        }
        k = k + 1;
    }
    true
}

/// The digit that `c` stands for, if it is a decimal digit.
pub open spec fn digit_of(c: char) -> Option<nat> {
    if c == '0' {
        Some(0)
    } else if c == '1' {
        Some(1)
    } else if c == '2' {
        Some(2)
    } else if c == '3' {
        Some(3)
    } else if c == '4' {
        Some(4)
    } else if c == '5' {
        Some(5)
    } else if c == '6' {
        Some(6)
    } else if c == '7' {
        Some(7)
    } else if c == '8' {
        Some(8)
    } else if c == '9' {
        Some(9)
    } else {
        None
    }
}

/// The digit that `c` stands for, if it is a decimal digit.
pub fn digit_value(c: char) -> (digit: Option<u32>)
    ensures
        match digit {
            Some(d) => digit_of(c) == Some(d as nat) && d < 10,
            None => digit_of(c) is None,
        },
{
    if c == '0' {
        Some(0)
    } else if c == '1' {
        Some(1)
    } else if c == '2' {
        Some(2)
    } else if c == '3' {
        Some(3)
    } else if c == '4' {
        Some(4)
    } else if c == '5' {
        Some(5)
    } else if c == '6' {
        Some(6)
    } else if c == '7' {
        Some(7)
    } else if c == '8' {
        Some(8)
    } else if c == '9' {
        Some(9)
    } else {
        None
    }
}

/// The numeral of a number below 1000 has one, two or three digits, the
/// first of which is zero only for the number zero.
pub proof fn lemma_decimal_small(n: nat)
    requires
        n < 1000,
    ensures
        n < 10 ==> decimal(n) == seq![digit_char(n)],
        10 <= n < 100 ==> decimal(n) == seq![digit_char(n / 10), digit_char(n % 10)],
        100 <= n ==> decimal(n) == seq![
            digit_char(n / 100),
            digit_char((n / 10) % 10),
            digit_char(n % 10),
        ],
{
    reveal_with_fuel(decimal, 4);
    if n >= 100 {
        assert((n / 10) / 10 == n / 100);
        assert(decimal(n / 100) == seq![digit_char(n / 100)]);
        assert(decimal(n / 10) =~= seq![digit_char(n / 100), digit_char((n / 10) % 10)]);
        assert(decimal(n) =~= seq![
            digit_char(n / 100),
            digit_char((n / 10) % 10),
            digit_char(n % 10),
        ]);
    } else if n >= 10 {
        assert(decimal(n) =~= seq![digit_char(n / 10), digit_char(n % 10)]);
    }
}

/// A digit's character stands for that digit.
pub proof fn lemma_digit_of_digit_char(d: nat)
    requires
        d < 10,
    ensures
        digit_of(digit_char(d)) == Some(d),
{
}

/// A character that stands for a digit is that digit's character.
pub proof fn lemma_digit_char_of_digit(c: char)
    requires
        digit_of(c) is Some,
    ensures
        digit_char(digit_of(c)->0) == c,
        digit_of(c)->0 < 10,
{
}

/// No character of `text` is a line break.
pub open spec fn no_line_break(text: Seq<char>) -> bool {
    forall|i: int| 0 <= i < text.len() ==> #[trigger] text[i] != '\n'
}

/// None of `lines` holds a line break.
pub open spec fn all_one_line(lines: Seq<Seq<char>>) -> bool {
    forall|i: int| 0 <= i < lines.len() ==> no_line_break(#[trigger] lines[i])
}

/// The text made of `lines`, each ended by a line break.
pub open spec fn join_lines(lines: Seq<Seq<char>>) -> Seq<char>
    decreases lines.len(),
{
    if lines.len() == 0 {
        Seq::empty()
    } else {
        join_lines(lines.drop_last()) + lines.last() + seq!['\n']
    }
}

/// A text taken apart at its line breaks: the lines that a line break ends,
/// in order, and what stands after the last line break.
pub open spec fn split_lines(text: Seq<char>) -> (Seq<Seq<char>>, Seq<char>)
    decreases text.len(),
{
    if text.len() == 0 {
        (Seq::empty(), Seq::empty())
    } else {
        let (ended, open) = split_lines(text.drop_last());
        if text.last() == '\n' {
            (ended.push(open), Seq::empty())
        } else {
            (ended, open.push(text.last()))
        }
    }
}

/// Text without a line break, put after a text, ends no line: it goes to
/// what stands after the last line break.
pub proof fn lemma_split_goes_on(text: Seq<char>, more: Seq<char>)
    requires
        no_line_break(more),
    ensures
        split_lines(text + more) == (split_lines(text).0, split_lines(text).1 + more),
    decreases more.len(),
{
    if more.len() == 0 {
        assert(text + more =~= text);
        assert(split_lines(text).1 + more =~= split_lines(text).1);
    } else {
        assert(no_line_break(more.drop_last())) by {
            assert forall|i: int| 0 <= i < more.drop_last().len() implies #[trigger] more.drop_last()[i]
                != '\n' by {
                assert(more.drop_last()[i] == more[i]);
            }
        }
        lemma_split_goes_on(text, more.drop_last());
        assert((text + more).drop_last() =~= text + more.drop_last());
        assert((text + more).last() == more[more.len() - 1]);
        assert((split_lines(text).1 + more.drop_last()).push(more.last()) =~= split_lines(text).1
            + more);
    }
}

/// A line without a line break, put after a text that ends with a line break
/// or is empty and ended by a line break of its own, is one more line.
pub proof fn lemma_split_takes_line(text: Seq<char>, line: Seq<char>)
    requires
        no_line_break(line),
        split_lines(text).1.len() == 0,
    ensures
        split_lines(text + line + seq!['\n']) == (split_lines(text).0.push(line), Seq::<char>::empty()),
{
    lemma_split_goes_on(text, line);
    let whole = text + line + seq!['\n'];
    assert(whole.drop_last() =~= text + line);
    assert(whole.last() == '\n');
    assert(split_lines(text).1 + line =~= line);
}

/// Taking apart the text made of lines without line breaks gives the lines
/// back, and nothing stands after the last line break.
pub proof fn lemma_split_inverts_join(lines: Seq<Seq<char>>)
    requires
        all_one_line(lines),
    ensures
        split_lines(join_lines(lines)) == (lines, Seq::<char>::empty()),
    decreases lines.len(),
{
    if lines.len() > 0 {
        assert(all_one_line(lines.drop_last())) by {
            assert forall|i: int| 0 <= i < lines.drop_last().len() implies no_line_break(
                #[trigger] lines.drop_last()[i],
            ) by {
                assert(lines.drop_last()[i] == lines[i]);
            }
        }
        lemma_split_inverts_join(lines.drop_last());
        lemma_split_takes_line(join_lines(lines.drop_last()), lines.last());
        assert(lines.drop_last().push(lines.last()) =~= lines);
    }
}

} // verus!
