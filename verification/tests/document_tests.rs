//! The document trait on string maps.

use minirust_search::document::Document;
use std::collections::HashMap;

#[test]
fn a_string_map_is_a_document() {
    let mut d: HashMap<String, String> = HashMap::new();
    d.insert("id".to_string(), "7".to_string());
    d.insert("title".to_string(), "Seven".to_string());
    assert_eq!(d.id(), "7");
    assert_eq!(d.field("title"), Some("Seven"));
    assert_eq!(d.field("body"), None);
    assert_eq!(d.stored_field("title"), Some("Seven".to_string()));
    assert_eq!(d.stored_field("body"), None);
    let empty: HashMap<String, String> = HashMap::new();
    assert_eq!(empty.id(), "");
}
