# minirust_search

A small full-text search engine whose data structures and bookkeeping are verified
with Verus.

- `src/radix_tree.rs`: a radix tree from string keys to values, with prefix views and
  fuzzy (edit-distance) search; its view is a `Map<Seq<char>, T>`.
- `src/searchable_map.rs`: the term map of the index, a radix tree from terms to
  postings (field id -> short document id -> frequency).
- `src/text.rs`: the default tokenizer and term processing, edit distance, decimal
  numbers, comma-separated lists.
- `src/document_index.rs`: documents, short ids, field lengths, stored fields, postings
  and the reverse index that lets a document be discarded; vacuuming; saving and
  restoring.
- `src/postings.rs`: what adding, discarding and vacuuming do to the postings, and the
  laws that relate them.
- `src/saved.rs`: the saved form of an index, what restoring it reads back, and the law
  that restoring a saved index gives it back.
- `src/term_match.rs`: which terms of the index match a query term (exactly, by prefix,
  or within an edit distance).
- `src/query.rs`: queries and how per-query result lists are combined.
- `src/document.rs`: the document trait.
- `app/`: the search engine proper (BM25+ scoring in floating point, user callbacks,
  JSON through serde) and the command-line program.
