//! Tokenizing, term processing, number reading and edit distances.

use minirust_search::text::{
    chars_of, common_prefix_chars, default_process_term, default_tokenize, is_ascii_punctuation, is_whitespace, parse_u32,
    same_text, split_list,
};
use minirust_search::RadixTree;

#[test]
fn tokenize_splits_on_whitespace_and_punctuation() {
    assert_eq!(default_tokenize("Hello, world!  foo-bar"), vec!["Hello", "world", "foo", "bar"]);
    assert_eq!(default_tokenize(""), Vec::<String>::new());
    assert_eq!(default_tokenize(" ,.; "), Vec::<String>::new());
    assert_eq!(default_tokenize("café\u{3000}日本語"), vec!["café", "日本語"]);
}

#[test]
fn process_term_lowercases() {
    assert_eq!(default_process_term("HeLLo"), "hello");
    assert_eq!(default_process_term("ÉCOLE"), "école");
    assert_eq!(default_process_term(""), "");
}

#[test]
fn whitespace_and_punctuation_agree_with_std() {
    for code in 0u32..=0x10FFFF {
        if let Some(c) = char::from_u32(code) {
            assert_eq!(is_whitespace(c), c.is_whitespace(), "{:?}", c);
            assert_eq!(is_ascii_punctuation(c), c.is_ascii_punctuation(), "{:?}", c);
        }
    }
}

#[test]
fn parse_u32_reads_like_from_str() {
    for s in ["0", "42", "+7", "007", "4294967295", "4294967296", "", "+", "-1", "1 ", " 1", "1a", "99999999999999999999"] {
        assert_eq!(parse_u32(s), s.parse::<u32>().ok(), "{:?}", s);
    }
}

#[test]
fn chars_and_common_prefix() {
    let a = chars_of("testing");
    let b = chars_of("xtester");
    assert_eq!(a.len(), 7);
    assert_eq!(common_prefix_chars(&a, &b, 1), 4);
    assert_eq!(common_prefix_chars(&a, &b, 0), 0);
}

fn distance(a: &str, q: &str) -> usize {
    let mut tree = RadixTree::new();
    tree.insert(a, ());
    let found = tree.fuzzy_search(q, 100);
    assert_eq!(found.len(), 1);
    found[0].2
}

#[test]
fn fuzzy_search_reports_edit_distances() {
    assert_eq!(distance("kitten", "sitting"), 3);
    assert_eq!(distance("hello", "hello"), 0);
    assert_eq!(distance("", "abc"), 3);
    assert_eq!(distance("flaw", "lawn"), 2);
    assert_eq!(distance("日本", "日本語"), 1);
}

#[test]
fn split_list_splits_on_commas_and_trims() {
    assert_eq!(split_list("title, text ,body"), vec!["title", "text", "body"]);
    assert_eq!(split_list(""), vec![""]);
    assert_eq!(split_list(" a,,b "), vec!["a", "", "b"]);
    for s in ["x", " \t y\u{3000}", ",", "a , b", "  "] {
        let expected: Vec<String> = s.split(',').map(|p| p.trim().to_string()).collect();
        assert_eq!(split_list(s), expected);
    }
}

#[test]
fn same_text_compares_characters() {
    assert!(same_text("and", "and"));
    assert!(!same_text("and", "and_not"));
    assert!(!same_text("", "a"));
    assert!(same_text("", ""));
}

#[test]
fn term_processing_ignores_ascii_case() {
    assert_eq!(default_process_term("HELLO"), default_process_term("hello"));
    assert_eq!(default_process_term("HeLLo, World!"), "hello, world!");
}
