use std::collections::HashMap;
use word_tools::frequency::{word_frequency, WordFrequency};
use word_tools::greet::{add, say_hello};
use word_tools::text::{
    char_vec, count_chars, count_lines, count_words, is_white_space_char, same_text, split_words,
};

const SAMPLES: [&str; 14] = [
    "",
    " ",
    "hello",
    "hello world",
    "  leading and trailing  ",
    "tabs\tand\nnewlines\r\nmixed",
    "a\n",
    "a\n\n",
    "\n",
    "a\r\nb\r\n",
    "no newline at end",
    "non\u{a0}breaking\u{3000}space\u{2028}sep",
    "über straße ÉCOLE",
    "x\u{85}y\u{200b}z",
];

#[test]
fn count_words_matches_split_whitespace() {
    for s in SAMPLES {
        assert_eq!(count_words(s), s.split_whitespace().count(), "{:?}", s);
    }
}

#[test]
fn split_words_matches_split_whitespace() {
    for s in SAMPLES {
        let expected: Vec<String> = s.split_whitespace().map(|w| w.to_string()).collect();
        assert_eq!(split_words(s), expected, "{:?}", s);
    }
}

#[test]
fn count_lines_matches_lines() {
    for s in SAMPLES {
        assert_eq!(count_lines(s), s.lines().count(), "{:?}", s);
    }
}

#[test]
fn count_chars_matches_chars() {
    for s in SAMPLES {
        assert_eq!(count_chars(s), s.chars().count(), "{:?}", s);
    }
}

#[test]
fn exact_counts() {
    assert_eq!(count_words("the quick  brown\tfox\n"), 4);
    assert_eq!(count_lines("one\ntwo\nthree"), 3);
    assert_eq!(count_lines("one\ntwo\nthree\n"), 3);
    assert_eq!(count_lines(""), 0);
    assert_eq!(count_chars("héllo"), 5);
}

#[test]
fn white_space_matches_std() {
    let mut c: u32 = 0;
    while c <= 0x10FFFF {
        if let Some(ch) = char::from_u32(c) {
            assert_eq!(is_white_space_char(ch), ch.is_whitespace(), "{:#x}", c);
        }
        c += 1;
    }
}

#[test]
fn char_vec_and_same_text() {
    assert_eq!(char_vec("añb"), vec!['a', 'ñ', 'b']);
    assert!(same_text("abc", "abc"));
    assert!(!same_text("abc", "abd"));
    assert!(!same_text("abc", "ab"));
    assert!(same_text("", ""));
}

#[test]
fn final_line_ending_adds_no_line() {
    assert_eq!(count_lines("a\nb"), count_lines("a\nb\n"));
    assert_eq!(count_lines("a\nb\r\n"), count_lines("a\nb\n"));
}

#[test]
fn no_lines_only_when_empty() {
    assert_eq!(count_lines(""), 0);
    assert_eq!(count_lines(" "), 1);
    assert_eq!(count_lines("\n"), 1);
}

#[test]
fn white_space_separates_words() {
    let a = "one two";
    let b = "three  four five";
    let joined = format!("{}\t{}", a, b);
    assert_eq!(count_words(&joined), count_words(a) + count_words(b));
    let mut expected = split_words(a);
    expected.extend(split_words(b));
    assert_eq!(split_words(&joined), expected);
}

#[test]
fn counts_bounded_by_chars() {
    for s in SAMPLES {
        assert!(count_words(s) <= count_chars(s));
        assert!(count_lines(s) <= count_chars(s));
    }
}

fn table_count(t: &WordFrequency, w: &str) -> Option<usize> {
    t.get(w)
}

#[test]
fn word_frequency_counts_lowercased_words() {
    let t = word_frequency("The cat and the CAT and THE dog");
    assert_eq!(t.len(), 4);
    assert_eq!(table_count(&t, "the"), Some(3));
    assert_eq!(table_count(&t, "cat"), Some(2));
    assert_eq!(table_count(&t, "and"), Some(2));
    assert_eq!(table_count(&t, "dog"), Some(1));
    assert_eq!(table_count(&t, "The"), None);
    assert_eq!(table_count(&t, "bird"), None);
}

#[test]
fn word_frequency_uses_unicode_lowercase() {
    let t = word_frequency("ÉCOLE école Straße STRASSE");
    assert_eq!(table_count(&t, "école"), Some(2));
    assert_eq!(table_count(&t, "straße"), Some(1));
    assert_eq!(table_count(&t, "strasse"), Some(1));
}

#[test]
fn word_frequency_matches_hash_map() {
    for s in SAMPLES {
        let mut expected: HashMap<String, usize> = HashMap::new();
        for w in s.split_whitespace() {
            *expected.entry(w.to_lowercase()).or_insert(0) += 1;
        }
        let t = word_frequency(s);
        assert_eq!(t.len(), expected.len());
        let mut seen: HashMap<String, usize> = HashMap::new();
        for i in 0..t.len() {
            seen.insert(t.word(i).clone(), t.count(i));
        }
        assert_eq!(seen, expected, "{:?}", s);
    }
}

#[test]
fn frequency_counts_add_up_to_word_count() {
    let s = "a b a c b a";
    let t = word_frequency(s);
    let total: usize = (0..t.len()).map(|i| t.count(i)).sum();
    assert_eq!(total, count_words(s));
    for i in 0..t.len() {
        assert!(t.count(i) >= 1);
    }
}

#[test]
fn tally_and_empty_table() {
    let t = WordFrequency::new();
    assert_eq!(t.len(), 0);
    assert_eq!(t.get("x"), None);
    let ws = vec!["x".to_string(), "y".to_string(), "x".to_string()];
    let t = WordFrequency::tally(&ws);
    assert_eq!(t.get("x"), Some(2));
    assert_eq!(t.get("y"), Some(1));
    assert_eq!(t.word(0), "x");
    assert_eq!(t.word(1), "y");
}

#[test]
fn add_sums() {
    assert_eq!(add(10, 20), 30);
    assert_eq!(add(-7, 3), -4);
    assert_eq!(add(i32::MAX, 0), i32::MAX);
}

#[test]
fn say_hello_greets() {
    assert_eq!(say_hello("World"), "Hello, World!");
    assert_eq!(say_hello(""), "Hello, !");
}

#[test]
fn from_pairs_builds_valid_tables() {
    let t = WordFrequency::from_pairs(
        vec!["a".to_string(), "b".to_string()],
        vec![2, 5],
    )
    .expect("valid pairs");
    assert_eq!(t.get("a"), Some(2));
    assert_eq!(t.get("b"), Some(5));
    assert_eq!(t.get("c"), None);
    assert_eq!(t.len(), 2);
}

#[test]
fn from_pairs_rejects_invalid_tables() {
    assert!(WordFrequency::from_pairs(vec!["a".to_string(), "a".to_string()], vec![1, 1]).is_none());
    assert!(WordFrequency::from_pairs(vec!["a".to_string()], vec![0]).is_none());
    assert!(WordFrequency::from_pairs(vec!["a".to_string()], vec![1, 2]).is_none());
    assert!(WordFrequency::from_pairs(vec![], vec![]).is_some());
}

#[test]
fn many_distinct_words() {
    let mut text = String::new();
    for i in 0..2000 {
        text.push_str(&format!("w{} W{} ", i % 500, i % 500));
    }
    let t = word_frequency(&text);
    assert_eq!(t.len(), 500);
    assert_eq!(t.get("w7"), Some(8));
    assert_eq!(t.get("w499"), Some(8));
}
