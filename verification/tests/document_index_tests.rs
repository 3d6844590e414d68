//! Document index tests: adding, discarding, vacuuming, restoring.

use minirust_search::document_index::DocumentIndex;
use minirust_search::postings::count_terms;
use minirust_search::saved::RestoreError;
use minirust_search::text::{default_process_term, default_tokenize};

fn terms(text: &str) -> Vec<String> {
    default_tokenize(text).iter().map(|t| default_process_term(t)).collect()
}

fn one_field(text: &str) -> Vec<Option<Vec<String>>> {
    vec![Some(terms(text))]
}

fn text_index() -> DocumentIndex {
    DocumentIndex::new(vec!["text".to_string()], vec![])
}

fn postings_of(ix: &DocumentIndex, term: &str) -> Vec<(u32, u32, u32)> {
    let mut out = Vec::new();
    if let Some(data) = ix.terms().get(term) {
        for (f, docs) in data {
            for (d, n) in docs {
                out.push((*f, *d, *n));
            }
        }
    }
    out.sort();
    out
}

#[test]
fn count_terms_counts_distinct_terms_in_order() {
    let ts: Vec<String> = ["b", "a", "", "b", "c", "b"].iter().map(|s| s.to_string()).collect();
    let counts = count_terms(&ts);
    assert_eq!(counts, vec![("b".to_string(), 3), ("a".to_string(), 1), ("c".to_string(), 1)]);
}

#[test]
fn add_assigns_short_ids_and_records_postings() {
    let mut ix = text_index();
    ix.add_document("1", &one_field("Hello world, hello!"), &vec![]);
    ix.add_document("2", &one_field("goodbye world"), &vec![]);
    assert_eq!(ix.document_count(), 2);
    assert_eq!(ix.term_count(), 3);
    assert_eq!(ix.next_id(), 2);
    assert_eq!(ix.short_id_of("1"), Some(0));
    assert_eq!(ix.short_id_of("2"), Some(1));
    assert_eq!(ix.short_id_of("3"), None);
    assert!(ix.has("2"));
    assert!(!ix.has("3"));
    assert_eq!(ix.document_id(1), Some(&"2".to_string()));
    assert_eq!(postings_of(&ix, "hello"), vec![(0, 0, 2)]);
    assert_eq!(postings_of(&ix, "world"), vec![(0, 0, 1), (0, 1, 1)]);
    assert_eq!(ix.field_length_row(0).map(|row| row[0]), Some(2));
    assert_eq!(ix.field_length_row(1).map(|row| row[0]), Some(2));
    assert_eq!(ix.field_length_row(0).map(|row| row.len()), Some(1));
    assert_eq!(ix.field_length_row(7), None);
}

#[test]
fn discard_cleans_immediately() {
    let mut ix = text_index();
    ix.add_document("1", &one_field("hello world"), &vec![]);
    ix.add_document("2", &one_field("goodbye world"), &vec![]);
    let initial_terms = ix.term_count();
    ix.discard("1");
    assert_eq!(ix.document_count(), 1);
    assert!(ix.term_count() < initial_terms);
    assert!(ix.terms().get("hello").is_none());
    assert_eq!(postings_of(&ix, "world"), vec![(0, 1, 1)]);
    assert_eq!(ix.dirt_count(), 0);
    assert!(!ix.has("1"));
}

#[test]
fn discard_preserves_shared_terms() {
    let mut ix = text_index();
    ix.add_document("1", &one_field("hello world"), &vec![]);
    ix.add_document("2", &one_field("hello universe"), &vec![]);
    ix.discard("1");
    assert_eq!(postings_of(&ix, "hello"), vec![(0, 1, 1)]);
}

#[test]
fn discard_of_unknown_id_changes_nothing() {
    let mut ix = text_index();
    ix.add_document("1", &one_field("hello"), &vec![]);
    ix.discard("9");
    assert_eq!(ix.document_count(), 1);
    assert_eq!(ix.term_count(), 1);
    assert_eq!(ix.dirt_count(), 0);
}

#[test]
fn add_then_discard_restores_the_postings() {
    let mut ix = text_index();
    ix.add_document("1", &one_field("alpha beta"), &vec![]);
    let before: Vec<_> = ["alpha", "beta", "gamma"].iter().map(|t| postings_of(&ix, t)).collect();
    let terms_before = ix.term_count();
    ix.add_document("2", &one_field("beta gamma gamma"), &vec![]);
    ix.discard("2");
    let after: Vec<_> = ["alpha", "beta", "gamma"].iter().map(|t| postings_of(&ix, t)).collect();
    assert_eq!(before, after);
    assert_eq!(ix.term_count(), terms_before);
}

#[test]
fn a_document_without_fields_has_no_reverse_entry_and_counts_as_dirt() {
    let mut ix = text_index();
    ix.add_document("1", &vec![None], &vec![]);
    assert_eq!(ix.document_count(), 1);
    ix.discard("1");
    assert_eq!(ix.document_count(), 0);
    assert_eq!(ix.dirt_count(), 1);
}

#[test]
fn vacuum_on_clean_index_is_noop() {
    let mut ix = text_index();
    ix.add_document("1", &one_field("hello world"), &vec![]);
    ix.discard("1");
    let terms_before = ix.term_count();
    ix.vacuum();
    assert_eq!(ix.term_count(), terms_before);
    assert_eq!(ix.dirt_count(), 0);
}

#[test]
fn vacuum_on_empty_index() {
    let mut ix = text_index();
    ix.vacuum();
    assert_eq!(ix.dirt_count(), 0);
    assert_eq!(ix.term_count(), 0);
}

#[test]
fn vacuum_drops_terms_of_documents_discarded_without_a_reverse_index() {
    let saved_docs = vec![("0".to_string(), "a".to_string()), ("1".to_string(), "b".to_string())];
    let saved_index = vec![
        ("shared".to_string(), vec![("0".to_string(), vec![("0".to_string(), 1), ("1".to_string(), 1)])]),
        ("only_a".to_string(), vec![("0".to_string(), vec![("0".to_string(), 2)])]),
    ];
    let mut ix = DocumentIndex::restore(vec!["text".to_string()], vec![], 2, 0, &saved_docs, &vec![], &vec![], &saved_index).unwrap();
    ix.discard("a");
    assert_eq!(ix.dirt_count(), 1);
    assert_eq!(ix.term_count(), 2);
    ix.vacuum();
    assert_eq!(ix.dirt_count(), 0);
    assert_eq!(ix.term_count(), 1);
    assert!(ix.terms().get("only_a").is_none());
    assert_eq!(postings_of(&ix, "shared"), vec![(0, 0, 1), (0, 1, 1)]);
}

#[test]
fn stored_fields_are_kept_per_document() {
    let mut ix = DocumentIndex::new(vec!["text".to_string()], vec!["title".to_string(), "url".to_string()]);
    ix.add_document("1", &one_field("hello"), &vec![Some("Hello".to_string()), None]);
    assert_eq!(ix.get_stored_fields("1"), Some(&vec![("title".to_string(), "Hello".to_string())]));
    assert_eq!(ix.get_stored_fields("2"), None);
    assert_eq!(ix.stored_fields_of(0), Some(&vec![("title".to_string(), "Hello".to_string())]));
    ix.discard("1");
    assert_eq!(ix.stored_fields_of(0), None);
}

#[test]
fn nothing_is_stored_without_store_fields() {
    let mut ix = text_index();
    ix.add_document("1", &one_field("hello"), &vec![]);
    assert_eq!(ix.get_stored_fields("1"), None);
}

#[test]
fn a_repeated_field_name_is_indexed_once_under_its_last_position() {
    let mut ix = DocumentIndex::new(vec!["a".to_string(), "b".to_string(), "a".to_string()], vec![]);
    ix.add_document("1", &vec![Some(terms("x y")), Some(terms("z")), Some(terms("x y"))], &vec![]);
    assert_eq!(ix.field_name(0), "");
    assert_eq!(ix.field_name(1), "b");
    assert_eq!(ix.field_name(2), "a");
    assert_eq!(ix.field_name(3), "");
    assert_eq!(ix.field_length_row(0).map(|row| row[0]), Some(0));
    assert_eq!(ix.field_length_row(0).map(|row| row[1]), Some(1));
    assert_eq!(ix.field_length_row(0).map(|row| row[2]), Some(2));
    assert_eq!(postings_of(&ix, "x"), vec![(2, 0, 1)]);
}

#[test]
fn field_length_totals_sum_over_documents() {
    let mut ix = DocumentIndex::new(vec!["title".to_string(), "text".to_string()], vec![]);
    ix.add_document("1", &vec![Some(terms("a b")), Some(terms("c"))], &vec![]);
    ix.add_document("2", &vec![None, Some(terms("c d e e"))], &vec![]);
    assert_eq!(ix.field_length_totals(), vec![2, 4]);
    ix.discard("1");
    assert_eq!(ix.field_length_totals(), vec![0, 3]);
}

#[test]
fn documents_are_listed_by_short_id() {
    let mut ix = text_index();
    ix.add_document("z", &one_field("a"), &vec![]);
    ix.add_document("y", &one_field("b"), &vec![]);
    ix.add_document("x", &one_field("c"), &vec![]);
    ix.discard("y");
    assert_eq!(ix.documents_in_order(), vec![(0, "z".to_string()), (2, "x".to_string())]);
}

#[test]
fn entries_export_every_row() {
    let mut ix = DocumentIndex::new(vec!["text".to_string()], vec!["text".to_string()]);
    ix.add_document("1", &one_field("a b"), &vec![Some("a b".to_string())]);
    ix.add_document("2", &one_field("c"), &vec![Some("c".to_string())]);
    let mut rows = ix.field_length_entries();
    rows.sort();
    assert_eq!(rows, vec![(0, vec![2]), (1, vec![1])]);
    let mut stored = ix.stored_entries();
    stored.sort();
    assert_eq!(stored, vec![(0, vec![("text".to_string(), "a b".to_string())]), (1, vec![("text".to_string(), "c".to_string())])]);
}

#[test]
fn restore_rebuilds_the_index() {
    let saved_docs = vec![("0".to_string(), "a".to_string()), ("+1".to_string(), "b".to_string())];
    let saved_rows = vec![("0".to_string(), vec![2]), ("1".to_string(), vec![1])];
    let saved_stored = vec![("1".to_string(), vec![("title".to_string(), "B".to_string())])];
    let saved_index = vec![
        ("hello".to_string(), vec![("0".to_string(), vec![("0".to_string(), 1)])]),
        ("world".to_string(), vec![("0".to_string(), vec![("0".to_string(), 1), ("1".to_string(), 3)])]),
    ];
    let ix = DocumentIndex::restore(vec!["text".to_string()], vec!["title".to_string()], 5, 2, &saved_docs, &saved_rows, &saved_stored, &saved_index)
        .unwrap();
    assert_eq!(ix.document_count(), 2);
    assert_eq!(ix.term_count(), 2);
    assert_eq!(ix.next_id(), 5);
    assert_eq!(ix.dirt_count(), 2);
    assert_eq!(ix.short_id_of("b"), Some(1));
    assert_eq!(ix.field_length_row(0).map(|row| row[0]), Some(2));
    assert_eq!(ix.get_stored_fields("b"), Some(&vec![("title".to_string(), "B".to_string())]));
    assert_eq!(postings_of(&ix, "world"), vec![(0, 0, 1), (0, 1, 3)]);
    assert_eq!(ix.fields(), &vec!["text".to_string()]);
    assert_eq!(ix.store_fields(), &vec!["title".to_string()]);
}

#[test]
fn restore_reports_each_kind_of_bad_key() {
    let fields = || vec!["text".to_string()];
    let bad_docs = vec![("x".to_string(), "a".to_string())];
    let r = DocumentIndex::restore(fields(), vec![], 0, 0, &bad_docs, &vec![], &vec![], &vec![]);
    assert_eq!(r.err(), Some(RestoreError::InvalidShortId));
    let bad_rows = vec![("-1".to_string(), vec![1])];
    let r = DocumentIndex::restore(fields(), vec![], 0, 0, &vec![], &bad_rows, &vec![], &vec![]);
    assert_eq!(r.err(), Some(RestoreError::InvalidShortId));
    let bad_stored = vec![("4294967296".to_string(), vec![])];
    let r = DocumentIndex::restore(fields(), vec![], 0, 0, &vec![], &vec![], &bad_stored, &vec![]);
    assert_eq!(r.err(), Some(RestoreError::InvalidShortId));
    let bad_field = vec![("t".to_string(), vec![("f".to_string(), vec![("0".to_string(), 1)])])];
    let r = DocumentIndex::restore(fields(), vec![], 0, 0, &vec![], &vec![], &vec![], &bad_field);
    assert_eq!(r.err(), Some(RestoreError::InvalidFieldId));
    let bad_doc = vec![
        ("t".to_string(), vec![("0".to_string(), vec![("".to_string(), 1)])]),
        ("u".to_string(), vec![("?".to_string(), vec![])]),
    ];
    let r = DocumentIndex::restore(fields(), vec![], 0, 0, &vec![], &vec![], &vec![], &bad_doc);
    assert_eq!(r.err(), Some(RestoreError::InvalidDocId));
    assert_eq!(RestoreError::InvalidShortId.message(), "invalid short id");
    assert_eq!(RestoreError::InvalidFieldId.message(), "invalid field id");
    assert_eq!(RestoreError::InvalidDocId.message(), "invalid doc id");
}

#[test]
fn restoring_the_saved_form_reads_the_index_back() {
    let mut ix = DocumentIndex::new(vec!["title".to_string(), "text".to_string()], vec!["title".to_string()]);
    ix.add_document("a", &vec![Some(terms("Hello there")), Some(terms("hello world"))], &vec![Some("Hello there".to_string())]);
    ix.add_document("b", &vec![None, Some(terms("goodbye world"))], &vec![None]);
    ix.add_document("c", &vec![Some(terms("third")), None], &vec![Some("third".to_string())]);
    ix.discard("b");
    let saved = ix.export();
    assert_eq!(saved.document_ids, vec![("0".to_string(), "a".to_string()), ("2".to_string(), "c".to_string())]);
    let back = DocumentIndex::restore(
        ix.fields().clone(),
        ix.store_fields().clone(),
        ix.next_id(),
        ix.dirt_count(),
        &saved.document_ids,
        &saved.field_length,
        &saved.stored_fields,
        &saved.index,
    )
    .unwrap();
    assert_eq!(back.documents_in_order(), ix.documents_in_order());
    assert_eq!(back.term_count(), ix.term_count());
    for t in ["hello", "there", "world", "third", "goodbye"] {
        assert_eq!(postings_of(&back, t), postings_of(&ix, t));
    }
    assert_eq!(back.get_stored_fields("a"), ix.get_stored_fields("a"));
    assert_eq!(back.get_stored_fields("c"), ix.get_stored_fields("c"));
    assert_eq!(back.field_length_row(2).map(|row| row[0]), Some(1));
    assert_eq!(back.short_id_of("c"), Some(2));
    assert_eq!(back.next_id(), 3);
}

#[test]
fn vacuum_and_export_cover_the_empty_term() {
    let saved_docs = vec![("0".to_string(), "a".to_string())];
    let saved_index = vec![
        ("".to_string(), vec![("0".to_string(), vec![("5".to_string(), 1)])]),
        ("kept".to_string(), vec![("0".to_string(), vec![("0".to_string(), 1)])]),
    ];
    let ix = DocumentIndex::restore(vec!["text".to_string()], vec![], 1, 0, &saved_docs, &vec![], &vec![], &saved_index).unwrap();
    assert_eq!(ix.export().index.len(), 2);
    let mut ix = ix;
    ix.vacuum();
    assert_eq!(ix.term_count(), 1);
    assert!(ix.terms().get("").is_none());
    assert_eq!(ix.export().index.len(), 1);
}

#[test]
fn export_writes_short_ids_in_decimal() {
    let mut ix = DocumentIndex::new(vec!["text".to_string()], vec![]);
    for i in 0..12u32 {
        let id = format!("d{}", i);
        ix.add_document(&id, &vec![Some(terms("x"))], &vec![]);
    }
    let saved = ix.export();
    assert_eq!(saved.document_ids.len(), 12);
    assert_eq!(saved.document_ids[0], ("0".to_string(), "d0".to_string()));
    assert_eq!(saved.document_ids[10], ("10".to_string(), "d10".to_string()));
    assert_eq!(saved.document_ids[11], ("11".to_string(), "d11".to_string()));
}
