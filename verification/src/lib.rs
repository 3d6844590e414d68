//! A full-text search library built on a verified radix tree.

use vstd::prelude::*;

pub mod document;
pub mod document_index;
pub mod jsonl;
pub mod postings;
pub mod query;
pub mod radix_tree;
pub mod saved;
pub mod searchable_map;
pub mod term_match;
pub mod text;

pub use radix_tree::{PrefixView, RadixTree, RadixTreeIter};
pub use searchable_map::{FieldTermData, SearchableMap};

verus! {

} // verus!
