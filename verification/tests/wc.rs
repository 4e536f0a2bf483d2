use mapreduce_rs::wc::{flag_letters, reduce, split_at_flags, split_to_words};
use mapreduce_rs::worker::KeyValue;

fn expected_words() -> Vec<&'static str> {
    vec![
        "almost",
        "no",
        "restrictions",
        "whatsoever",
        "You",
        "may",
        "copy",
        "it",
        "give",
        "it",
        "away",
        "or",
    ]
}

#[test]
fn wc_test_split_to_words() {
    let inp = "almost no restrictions whatsoever.  \
               You may copy it, give it away or";
    let get = split_to_words(inp.to_owned());
    let expect = expected_words();
    assert_eq!(&get, &expect);
}

#[test]
fn lib_test_split_to_words() {
    let inp = "almost no restrictions whatsoever.  \
               You may copy it, give it away or";
    let get = split_to_words(inp.to_owned());
    let expect = vec![
        "almost",
        "no",
        "restrictions",
        "whatsoever",
        "You",
        "may",
        "copy",
        "it",
        "give",
        "it",
        "away",
        "or",
    ];
    assert_eq!(&get, &expect);
}

#[test]
fn split_to_words_of_nothing() {
    assert_eq!(split_to_words(String::new()), Vec::<String>::new());
    assert_eq!(split_to_words(" ,.;  \n".to_owned()), Vec::<String>::new());
}

#[test]
fn split_to_words_keeps_a_last_word() {
    assert_eq!(split_to_words("a b a".to_owned()), vec!["a", "b", "a"]);
    assert_eq!(split_to_words("x1y".to_owned()), vec!["x", "y"]);
}

#[test]
fn split_to_words_takes_letters_of_any_script() {
    assert_eq!(split_to_words("caf\u{e9} \u{4e2d}\u{6587}-ok".to_owned()), vec![
        "caf\u{e9}",
        "\u{4e2d}\u{6587}",
        "ok"
    ]);
}

#[test]
fn map_emits_one_record_per_word() {
    let records = mapreduce_rs::wc::map("pg.txt".to_owned(), "a b a".to_owned());
    assert_eq!(records, vec![
        KeyValue::new("a".to_owned(), 1u8),
        KeyValue::new("b".to_owned(), 1u8),
        KeyValue::new("a".to_owned(), 1u8),
    ]);
}

#[test]
fn map_ignores_the_file_name() {
    let one = mapreduce_rs::wc::map("f1".to_owned(), "cat dog".to_owned());
    let other = mapreduce_rs::wc::map("another".to_owned(), "cat dog".to_owned());
    assert_eq!(one, other);
}

#[test]
fn reduce_counts_the_values() {
    assert_eq!(reduce("a", vec![1u8, 1, 1]), 3);
    assert_eq!(reduce("b", Vec::<u8>::new()), 0);
}

fn chars(text: &str) -> Vec<char> {
    text.chars().collect()
}

#[test]
fn split_at_flags_ends_a_word_at_each_character_without_flag() {
    let t = true;
    let f = false;
    assert_eq!(split_at_flags(&chars("ab-cd"), &vec![t, t, f, t, t]), vec!["ab", "cd"]);
    assert_eq!(split_at_flags(&chars("ab-cd"), &vec![t, t, t, t, t]), vec!["ab-cd"]);
    assert_eq!(split_at_flags(&chars("ab-cd"), &vec![f, f, f, f, f]), Vec::<String>::new());
    assert_eq!(split_at_flags(&chars("ab-cd"), &vec![f, t, f, f, t]), vec!["b", "d"]);
    assert_eq!(split_at_flags(&chars("--a--"), &vec![f, f, t, f, f]), vec!["a"]);
    assert_eq!(split_at_flags(&chars("a1b2"), &vec![f, t, f, t]), vec!["1", "2"]);
    assert_eq!(split_at_flags(&chars(""), &vec![]), Vec::<String>::new());
}

#[test]
fn split_at_flags_takes_a_missing_flag_for_no_letter() {
    assert_eq!(split_at_flags(&chars("abcd"), &vec![true, true]), vec!["ab"]);
    assert_eq!(split_at_flags(&chars("abcd"), &vec![]), Vec::<String>::new());
    assert_eq!(split_at_flags(&chars("ab"), &vec![true, true, true, true]), vec!["ab"]);
}

#[test]
fn flag_letters_tells_the_alphabetic_characters() {
    assert_eq!(flag_letters(&chars("a1 \u{e9}-Z")), vec![true, false, false, true, false, true]);
    assert_eq!(flag_letters(&chars("")), Vec::<bool>::new());
}
