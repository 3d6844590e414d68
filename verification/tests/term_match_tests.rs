//! Matching query terms against the terms of a searchable map.

use minirust_search::term_match::{term_matches, MatchKind};
use minirust_search::SearchableMap;

fn map_of(terms: &[&str]) -> SearchableMap {
    let mut m = SearchableMap::new();
    for (i, t) in terms.iter().enumerate() {
        m.get_or_create(t).insert(0, std::collections::HashMap::from([(i as u32, 1)]));
    }
    m
}

fn kinds(m: &SearchableMap, q: &str, prefix: bool, fuzzy: Option<usize>) -> Vec<(String, MatchKind)> {
    let mut r: Vec<(String, MatchKind)> = term_matches(m, q, prefix, fuzzy).into_iter().map(|(t, _, k)| (t, k)).collect();
    r.sort_by(|a, b| a.0.cmp(&b.0));
    r
}

#[test]
fn exact_match_only_by_default() {
    let m = map_of(&["test", "testing", "best"]);
    assert_eq!(kinds(&m, "test", false, None), vec![("test".to_string(), MatchKind::Exact)]);
    assert_eq!(kinds(&m, "tes", false, None), vec![]);
}

#[test]
fn prefix_adds_longer_terms() {
    let m = map_of(&["test", "testing", "tested", "best"]);
    assert_eq!(
        kinds(&m, "test", true, None),
        vec![
            ("test".to_string(), MatchKind::Exact),
            ("tested".to_string(), MatchKind::Prefix),
            ("testing".to_string(), MatchKind::Prefix),
        ]
    );
    assert_eq!(kinds(&m, "zzz", true, None), vec![]);
}

#[test]
fn fuzzy_adds_near_terms_with_their_distance() {
    let m = map_of(&["hello", "hallo", "help", "world"]);
    assert_eq!(
        kinds(&m, "hello", false, Some(1)),
        vec![("hallo".to_string(), MatchKind::Fuzzy(1)), ("hello".to_string(), MatchKind::Exact)]
    );
    let r = term_matches(&m, "hello", true, Some(2));
    assert_eq!(r.len(), 3);
}
