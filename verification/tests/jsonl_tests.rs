//! Documents read from lines of JSON.

use minirust_search::jsonl::{document_of_line, document_of_members, is_blank, text_of_scalar, JsonScalar};

fn pairs(v: &[(&str, &str)]) -> Vec<(String, String)> {
    v.iter().map(|(a, b)| (a.to_string(), b.to_string())).collect()
}

#[test]
fn blank_lines_give_no_document() {
    assert_eq!(document_of_line(""), Ok(None));
    assert_eq!(document_of_line("  \t "), Ok(None));
    assert!(is_blank(" \u{a0}\n"));
    assert!(!is_blank("  x "));
}

#[test]
fn an_object_keeps_its_string_number_and_boolean_members() {
    let r = document_of_line(r#"{"id": 7, "title": "Hello", "ok": true, "no": false, "n": null, "xs": [1], "o": {"a": 1}, "f": 1.5}"#);
    // serde_json keeps object members in key order.
    assert_eq!(r, Ok(Some(pairs(&[("f", "1.5"), ("id", "7"), ("no", "false"), ("ok", "true"), ("title", "Hello")]))));
}

#[test]
fn json_that_is_not_an_object_gives_no_document() {
    assert_eq!(document_of_line("[1, 2]"), Ok(None));
    assert_eq!(document_of_line("\"text\""), Ok(None));
    assert_eq!(document_of_line("42"), Ok(None));
}

#[test]
fn a_line_that_is_not_json_is_an_error() {
    assert_eq!(document_of_line("{not json"), Err(()));
    assert_eq!(document_of_line("hello"), Err(()));
}

#[test]
fn members_become_fields_in_order() {
    let parsed = Some(Some(vec![
        ("b".to_string(), JsonScalar::Bool(false)),
        ("a".to_string(), JsonScalar::Other),
        ("c".to_string(), JsonScalar::Number("-3".to_string())),
        ("d".to_string(), JsonScalar::Text("x y".to_string())),
    ]));
    assert_eq!(document_of_members(parsed), Ok(Some(pairs(&[("b", "false"), ("c", "-3"), ("d", "x y")]))));
    assert_eq!(document_of_members(Some(None)), Ok(None));
    assert_eq!(document_of_members(None), Err(()));
    assert_eq!(text_of_scalar(&JsonScalar::Bool(true)), Some("true".to_string()));
    assert_eq!(text_of_scalar(&JsonScalar::Other), None);
}
