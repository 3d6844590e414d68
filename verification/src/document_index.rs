use vstd::prelude::*;

use std::collections::BTreeMap;
use std::collections::HashMap;

use crate::postings::{
    add_postings, clean_postings, deep_postings, document_terms, field_length_row, field_terms_view, has_indexed_field,
    has_live_posting, holds_live_document, index_terms, indexed_terms, is_last_position, keys_of_map, law_add_keeps_postings_recorded, law_add_keeps_tidy,
    law_discard_keeps_tidy, law_discard_removes_document, law_vacuum_of_consistent_postings_is_noop,
    lemma_clean_step, lemma_distinct_terms, lemma_postings_next_field, lemma_total_terms_prefix, mentions, postings_recorded,
    postings_tidy, postings_upto, recorded_upto, string_set, strings_view, strip_document, term_view, terms_upto,
    total_terms, vacuum_postings, without_doc,
};
use crate::radix_tree::{keys_of, pairs_view, RadixTree};
use crate::saved::{
    copy_pairs, copy_row, export_fields, index_error, keys_parse, lists_fields, listing, restore_documents,
    restore_postings, restore_rows, restore_stored, restored_map, restored_postings, restored_short_ids, saved_documents_view,
    saved_index_view, saved_rows_view, saved_stored_view, documents_view, rows_view, stored_view, RestoreError, SavedIndex,
};
use crate::searchable_map::SearchableMap;
use crate::text::{decimal_digits, decimal_text};
use vstd::std_specs::cmp::OrdSpec;
use vstd::std_specs::iter::IteratorSpec;

verus! {

broadcast use {
    vstd::std_specs::hash::group_hash_axioms,
    vstd::std_specs::btree::group_btree_axioms,
    vstd::laws_cmp::group_laws_cmp,
    vstd::string::group_string_axioms,
};

/// A sequence of string pairs seen as pairs of character sequences.
pub open spec fn pairs_of(v: Seq<(String, String)>) -> Seq<(Seq<char>, Seq<char>)> {
    v.map_values(|p: (String, String)| (p.0@, p.1@))
}

/// The (field name, value) pairs stored for a document: each stored field that the document has.
pub open spec fn stored_pairs(names: Seq<Seq<char>>, values: Seq<Option<Seq<char>>>) -> Seq<(Seq<char>, Seq<char>)>
    decreases names.len(),
{
    if names.len() == 0 || values.len() == 0 {
        Seq::empty()
    } else {
        let prev = stored_pairs(names.drop_last(), values.drop_last());
        match values.last() {
            Some(v) => prev.push((names.last(), v)),
            None => prev,
        }
    }
}

/// Optional strings seen as optional character sequences.
pub open spec fn optional_strings_view(v: Seq<Option<String>>) -> Seq<Option<Seq<char>>> {
    v.map_values(|o: Option<String>| match o {
        Some(x) => Some(x@),
        None => None,
    })
}

/// Returns true if position `i` is the last position of its name in `names`.
fn last_position(names: &Vec<String>, i: usize) -> (r: bool)
    requires
        i < names@.len(),
    ensures
        r == is_last_position(strings_view(names@), i as int),
{
    let n = names.len();
    let mut j: usize = i + 1;
    while j < n
        invariant
            n == names@.len(),
            i < j <= n,
            forall|x: int| i < x < j ==> names@[x]@ != names@[i as int]@,
        decreases n - j,
    {
        if names[j] == names[i] {
            assert(strings_view(names@)[j as int] == strings_view(names@)[i as int]);
            return false;
        }
        j = j + 1;
    }
    true
}

/// The (name, value) pairs for the stored fields that have a value.
fn collect_stored(names: &Vec<String>, values: &Vec<Option<String>>) -> (r: Vec<(String, String)>)
    requires
        names@.len() == values@.len(),
    ensures
        pairs_of(r@) == stored_pairs(strings_view(names@), optional_strings_view(values@)),
{
    let ghost ns = strings_view(names@);
    let ghost vs = optional_strings_view(values@);
    let mut out: Vec<(String, String)> = Vec::new();
    let mut k: usize = 0;
    while k < names.len()
        invariant
            names@.len() == values@.len(),
            ns == strings_view(names@),
            vs == optional_strings_view(values@),
            k <= names@.len(),
            pairs_of(out@) == stored_pairs(ns.take(k as int), vs.take(k as int)),
        decreases names@.len() - k,
    {
        assert(ns.take(k + 1).drop_last() =~= ns.take(k as int));
        assert(vs.take(k + 1).drop_last() =~= vs.take(k as int));
        match &values[k] {
            Some(v) => {
                out.push((names[k].clone(), v.clone()));
                assert(pairs_of(out@) =~= stored_pairs(ns.take(k as int), vs.take(k as int)).push((ns[k as int], v@)));
            },
            None => {},
        }
        k = k + 1;
    }
    assert(ns.take(names@.len() as int) =~= ns);
    assert(vs.take(names@.len() as int) =~= vs);
    out
}

/// The ids are strictly increasing.
pub open spec fn increasing(q: Seq<u32>) -> bool {
    forall|i: int, j: int| 0 <= i < j < q.len() ==> q[i] < q[j]
}

proof fn lemma_increasing_unique(a: Seq<u32>, b: Seq<u32>)
    requires
        increasing(a),
        increasing(b),
        a.to_set() == b.to_set(),
    ensures
        a == b,
    decreases a.len(),
{
    if a.len() == 0 {
        if b.len() > 0 {
            assert(b.to_set().contains(b[0]));
        }
        assert(a =~= b);
    } else if b.len() == 0 {
        assert(a.to_set().contains(a[0]));
    } else {
        assert(b.to_set().contains(a[0]));
        assert(a.to_set().contains(b[0]));
        let i = choose|i: int| 0 <= i < a.len() && a[i] == b[0];
        let j = choose|j: int| 0 <= j < b.len() && b[j] == a[0];
        assert(a[0] == b[0]);
        let ra = a.drop_first();
        let rb = b.drop_first();
        assert forall|x: u32| #[trigger] ra.to_set().contains(x) <==> rb.to_set().contains(x) by {
            if ra.to_set().contains(x) {
                let k = choose|k: int| 0 <= k < ra.len() && ra[k] == x;
                assert(a[k + 1] == x);
                assert(a.to_set().contains(x));
                let m = choose|m: int| 0 <= m < b.len() && b[m] == x;
                assert(m != 0);
                assert(rb[m - 1] == x);
            }
            if rb.to_set().contains(x) {
                let k = choose|k: int| 0 <= k < rb.len() && rb[k] == x;
                assert(b[k + 1] == x);
                assert(b.to_set().contains(x));
                let m = choose|m: int| 0 <= m < a.len() && a[m] == x;
                assert(m != 0);
                assert(ra[m - 1] == x);
            }
        }
        assert(ra.to_set() =~= rb.to_set());
        lemma_increasing_unique(ra, rb);
        assert(a =~= seq![a[0]] + ra);
        assert(b =~= seq![b[0]] + rb);
    }
}

proof fn lemma_increasing_keys(kk: Seq<u32>)
    requires
        vstd::std_specs::btree::increasing_seq(kk),
    ensures
        increasing(kk),
{
    assert forall|i: int, j: int| 0 <= i < j < kk.len() implies kk[i] < kk[j] by {
        assert(kk[i].cmp_spec(&kk[j]) is Less);
    }
}

/// The sum of field `f`'s lengths over the documents `ids`, counting a document without a
/// recorded length for `f` as 0.
pub open spec fn length_total(table: Map<u32, Seq<u32>>, ids: Seq<u32>, f: int) -> nat
    decreases ids.len(),
{
    if ids.len() == 0 {
        0
    } else {
        length_total(table, ids.drop_last(), f) + if table.contains_key(ids.last()) && 0 <= f < table[ids.last()].len() {
            table[ids.last()][f] as nat
        } else {
            0nat
        }
    }
}

proof fn lemma_length_total_prefix(table: Map<u32, Seq<u32>>, ids: Seq<u32>, j: int, f: int)
    requires
        0 <= j <= ids.len(),
    ensures
        length_total(table, ids.take(j), f) <= length_total(table, ids, f),
    decreases ids.len(),
{
    if j < ids.len() {
        lemma_length_total_prefix(table, ids.drop_last(), j, f);
        assert(ids.drop_last().take(j) =~= ids.take(j));
    } else {
        assert(ids.take(j) =~= ids);
    }
}

/// The index of a search engine: documents, their fields, and the postings of their terms,
/// together with a reverse index from each document to the terms it contributed.
pub struct DocumentIndex {
    fields: Vec<String>,
    store_fields: Vec<String>,
    index: SearchableMap,
    document_ids: BTreeMap<u32, String>,
    id_to_short: RadixTree<u32>,
    field_lengths: HashMap<u32, Vec<u32>>,
    stored_fields: HashMap<u32, Vec<(String, String)>>,
    next_id: u32,
    dirt_count: u32,
    doc_terms: HashMap<u32, Vec<String>>,
}

impl DocumentIndex {
    /// The sizes and structures of the index are within their limits.
    pub closed spec fn wf(self) -> bool {
        &&& self.index.wf()
        &&& self.id_to_short.wf()
        &&& self.fields@.len() < u32::MAX
        &&& forall|k: u32| #[trigger] self.doc_terms@.contains_key(k) ==> k < self.next_id
    }

    /// Names of the indexed fields, in order.
    pub closed spec fn field_names(self) -> Seq<Seq<char>> {
        strings_view(self.fields@)
    }

    /// Names of the stored fields, in order.
    pub closed spec fn store_field_names(self) -> Seq<Seq<char>> {
        strings_view(self.store_fields@)
    }

    /// Document short id -> document id.
    pub closed spec fn documents(self) -> Map<u32, Seq<char>> {
        Map::new(|s: u32| self.document_ids@.contains_key(s), |s: u32| self.document_ids@[s]@)
    }

    /// Document id -> short id.
    pub closed spec fn short_ids(self) -> Map<Seq<char>, u32> {
        self.id_to_short@
    }

    /// The term postings.
    pub closed spec fn postings(self) -> Map<Seq<char>, Map<u32, Map<u32, u32>>> {
        deep_postings(self.index@)
    }

    /// Short id -> the set of terms the document contributed.
    pub closed spec fn reverse_index(self) -> Map<u32, Set<Seq<char>>> {
        Map::new(|s: u32| self.doc_terms@.contains_key(s), |s: u32| self.doc_terms@[s]@.map_values(|t: String| t@).to_set())
    }

    /// Short id -> number of distinct terms in each field.
    pub closed spec fn field_length_table(self) -> Map<u32, Seq<u32>> {
        Map::new(|s: u32| self.field_lengths@.contains_key(s), |s: u32| self.field_lengths@[s]@)
    }

    /// Short id -> the (field name, value) pairs stored for the document.
    pub closed spec fn stored(self) -> Map<u32, Seq<(Seq<char>, Seq<char>)>> {
        Map::new(|s: u32| self.stored_fields@.contains_key(s), |s: u32| pairs_of(self.stored_fields@[s]@))
    }

    /// The short id the next added document receives.
    pub closed spec fn next_short_id(self) -> u32 {
        self.next_id
    }

    /// The number of discarded documents whose terms could not be cleaned up.
    pub closed spec fn dirt(self) -> u32 {
        self.dirt_count
    }

    /// The tables agree: ids and short ids correspond one to one, short ids are below the
    /// next short id, every reverse-index entry is an indexed document's, every posting is
    /// recorded in the reverse index, and the postings are tidy. Then discarding a document
    /// takes all of its postings out.
    pub open spec fn consistent(self) -> bool {
        &&& forall|id: Seq<char>| #[trigger] self.short_ids().contains_key(id) ==> {
            &&& self.documents().contains_key(self.short_ids()[id])
            &&& self.documents()[self.short_ids()[id]] == id
        }
        &&& forall|s: u32| #[trigger] self.documents().contains_key(s) ==> {
            &&& s < self.next_short_id()
            &&& self.short_ids().contains_key(self.documents()[s])
            &&& self.short_ids()[self.documents()[s]] == s
        }
        &&& forall|s: u32| #[trigger] self.reverse_index().contains_key(s) ==> self.documents().contains_key(s)
        &&& postings_recorded(self.postings(), self.reverse_index())
        &&& postings_tidy(self.postings())
        &&& !self.postings().contains_key(Seq::empty())
    }

    /// Creates an empty index over `fields`, storing the values of `store_fields`.
    pub fn new(fields: Vec<String>, store_fields: Vec<String>) -> (r: Self)
        requires
            fields@.len() < u32::MAX,
        ensures
            r.wf(),
            r.field_names() == strings_view(fields@),
            r.store_field_names() == strings_view(store_fields@),
            r.documents() == Map::<u32, Seq<char>>::empty(),
            r.short_ids() == Map::<Seq<char>, u32>::empty(),
            r.postings() == Map::<Seq<char>, Map<u32, Map<u32, u32>>>::empty(),
            r.reverse_index() == Map::<u32, Set<Seq<char>>>::empty(),
            r.field_length_table() == Map::<u32, Seq<u32>>::empty(),
            r.stored() == Map::<u32, Seq<(Seq<char>, Seq<char>)>>::empty(),
            r.next_short_id() == 0,
            r.dirt() == 0,
            r.consistent(),
    {
        let r = DocumentIndex {
            fields,
            store_fields,
            index: SearchableMap::new(),
            document_ids: BTreeMap::new(),
            id_to_short: RadixTree::new(),
            field_lengths: HashMap::new(),
            stored_fields: HashMap::new(),
            next_id: 0,
            dirt_count: 0,
            doc_terms: HashMap::new(),
        };
        assert(r.documents() =~= Map::<u32, Seq<char>>::empty());
        assert(r.postings() =~= Map::<Seq<char>, Map<u32, Map<u32, u32>>>::empty());
        assert(r.reverse_index() =~= Map::<u32, Set<Seq<char>>>::empty());
        assert(r.field_length_table() =~= Map::<u32, Seq<u32>>::empty());
        assert(r.stored() =~= Map::<u32, Seq<(Seq<char>, Seq<char>)>>::empty());
        r
    }

    /// Rebuilds an index from its saved parts: the document ids, field lengths and stored
    /// fields keyed by short id, and the postings of each term keyed by field id and short id,
    /// every key as decimal text. Fails on the first key that does not read as a `u32`,
    /// checking the document ids, field lengths and stored fields before the postings. The
    /// restored index has no reverse index.
    pub fn restore(
        fields: Vec<String>,
        store_fields: Vec<String>,
        next_id: u32,
        dirt_count: u32,
        document_ids: &Vec<(String, String)>,
        field_length: &Vec<(String, Vec<u32>)>,
        stored_fields: &Vec<(String, Vec<(String, String)>)>,
        index: &Vec<(String, Vec<(String, Vec<(String, u32)>)>)>,
    ) -> (r: Result<Self, RestoreError>)
        requires
            fields@.len() < u32::MAX,
        ensures
            ({
                let short_id_error = !keys_parse(saved_documents_view(document_ids@)) || !keys_parse(saved_rows_view(field_length@))
                    || !keys_parse(saved_stored_view(stored_fields@));
                let ix = saved_index_view(index@);
                &&& r is Ok <==> !short_id_error && index_error(ix) is None
                &&& r matches Err(e) ==> e == if short_id_error { RestoreError::InvalidShortId } else { index_error(ix)->0 }
            }),
            r matches Ok(d) ==> {
                &&& d.wf()
                &&& d.field_names() == strings_view(fields@)
                &&& d.store_field_names() == strings_view(store_fields@)
                &&& d.documents() == restored_map(saved_documents_view(document_ids@))
                &&& d.short_ids() == restored_short_ids(saved_documents_view(document_ids@))
                &&& d.field_length_table() == restored_map(saved_rows_view(field_length@))
                &&& d.stored() == restored_map(saved_stored_view(stored_fields@))
                &&& d.postings() == restored_postings(saved_index_view(index@))
                &&& d.reverse_index() == Map::<u32, Set<Seq<char>>>::empty()
                &&& d.next_short_id() == next_id
                &&& d.dirt() == dirt_count
            },
    {
        let (docs, ids) = match restore_documents(document_ids) {
            Some(x) => x,
            None => return Err(RestoreError::InvalidShortId),
        };
        let rows = match restore_rows(field_length) {
            Some(x) => x,
            None => return Err(RestoreError::InvalidShortId),
        };
        let stored = match restore_stored(stored_fields) {
            Some(x) => x,
            None => return Err(RestoreError::InvalidShortId),
        };
        let postings = match restore_postings(index) {
            Ok(x) => x,
            Err(e) => return Err(e),
        };
        let r = DocumentIndex {
            fields,
            store_fields,
            index: postings,
            document_ids: docs,
            id_to_short: ids,
            field_lengths: rows,
            stored_fields: stored,
            next_id,
            dirt_count,
            doc_terms: HashMap::new(),
        };
        assert(r.documents() =~= documents_view(r.document_ids@));
        assert(r.field_length_table() =~= rows_view(r.field_lengths@));
        assert(r.stored() =~= stored_view(r.stored_fields@));
        assert(r.reverse_index() =~= Map::<u32, Set<Seq<char>>>::empty());
        Ok(r)
    }

    /// Returns true if a document with id `id` is indexed.
    pub fn has(&self, id: &str) -> (r: bool)
        ensures
            r == self.short_ids().contains_key(id@),
    {
        self.id_to_short.contains_key(id)
    }

    /// Number of indexed documents.
    pub fn document_count(&self) -> (r: usize)
        ensures
            r == self.documents().dom().len(),
    {
        assert(self.documents().dom() =~= self.document_ids@.dom());
        self.document_ids.len()
    }

    /// Number of document ids that map to a short id.
    pub fn id_count(&self) -> (r: usize)
        requires
            self.wf(),
        ensures
            r == self.short_ids().dom().len(),
    {
        self.id_to_short.len()
    }

    /// Number of indexed terms.
    pub fn term_count(&self) -> (r: usize)
        requires
            self.wf(),
        ensures
            r == self.postings().dom().len(),
    {
        assert(self.postings().dom() =~= self.index@.dom());
        self.index.len()
    }

    /// The number of discarded documents whose terms could not be cleaned up.
    pub fn dirt_count(&self) -> (r: u32)
        ensures
            r == self.dirt(),
    {
        self.dirt_count
    }

    /// Adds the document `doc_id`. `field_terms` holds, for each indexed field in order, the
    /// processed terms of the document's value for it, or `None` where the document lacks the
    /// field; empty terms are skipped. `stored_values` holds, for each stored field in order, the
    /// document's value, if any. The document gets the next short id; each distinct term of each
    /// field is recorded with its number of occurrences, each field with its number of distinct
    /// terms, and the document's terms are kept so that it can be discarded later.
    pub fn add_document(&mut self, doc_id: &str, field_terms: &Vec<Option<Vec<String>>>, stored_values: &Vec<Option<String>>)
        requires
            old(self).wf(),
            !old(self).short_ids().contains_key(doc_id@),
            old(self).next_short_id() < u32::MAX,
            old(self).short_ids().dom().len() < usize::MAX,
            field_terms@.len() == old(self).field_names().len(),
            stored_values@.len() == old(self).store_field_names().len(),
            forall|f: int| 0 <= f < field_terms@.len() ==> (#[trigger] field_terms@[f] matches Some(ts) ==> ts@.len() <= u32::MAX),
            old(self).postings().dom().len() + total_terms(field_terms_view(field_terms@)) < usize::MAX,
        ensures
            ({
                let s = old(self).next_short_id();
                let names = old(self).field_names();
                let fts = field_terms_view(field_terms@);
                &&& final(self).wf()
                &&& final(self).field_names() == names
                &&& final(self).store_field_names() == old(self).store_field_names()
                &&& final(self).next_short_id() == s + 1
                &&& final(self).documents() == old(self).documents().insert(s, doc_id@)
                &&& final(self).short_ids() == old(self).short_ids().insert(doc_id@, s)
                &&& final(self).field_length_table() == old(self).field_length_table().insert(s, field_length_row(names, fts))
                &&& final(self).stored() == if old(self).store_field_names().len() > 0 {
                    old(self).stored().insert(s, stored_pairs(old(self).store_field_names(), optional_strings_view(stored_values@)))
                } else {
                    old(self).stored()
                }
                &&& final(self).reverse_index() == if has_indexed_field(names, fts) {
                    old(self).reverse_index().insert(s, document_terms(names, fts))
                } else {
                    old(self).reverse_index()
                }
                &&& final(self).postings() == add_postings(old(self).postings(), s, names, fts)
                &&& final(self).dirt() == old(self).dirt()
            }),
            old(self).consistent() ==> final(self).consistent(),
    {
        let s = self.next_id;
        let ghost names = strings_view(self.fields@);
        let ghost fts = field_terms_view(field_terms@);
        let ghost p0 = deep_postings(self.index@);
        assert(p0.dom() =~= self.index@.dom());
        self.next_id = s + 1;
        self.document_ids.insert(s, doc_id.to_string());
        self.id_to_short.insert(doc_id, s);
        if self.store_fields.len() > 0 {
            let pairs = collect_stored(&self.store_fields, stored_values);
            self.stored_fields.insert(s, pairs);
        }
        let mut lengths: Vec<u32> = Vec::new();
        let mut doc_terms: Vec<String> = Vec::new();
        let mut has_field = false;
        let mut i: usize = 0;
        assert(terms_upto(names, fts, 0, Set::empty()) =~= Set::<Seq<char>>::empty());
        assert(strings_view(doc_terms@) =~= Seq::<Seq<char>>::empty());
        assert(string_set(doc_terms@) =~= Set::<Seq<char>>::empty());
        assert(postings_upto(p0, s, names, fts, 0, Set::empty()) =~= p0) by {
            assert forall|t: Seq<char>| #[trigger] p0.contains_key(t) implies postings_upto(p0, s, names, fts, 0, Set::empty())[t] == p0[t] by {
                assert(postings_upto(p0, s, names, fts, 0, Set::empty())[t] =~= p0[t]);
            }
        }
        proof {
            lemma_total_terms_prefix(fts, 0);
        }
        let ghost mid = *self;
        while i < self.fields.len()
            invariant
                self.index.wf(),
                self.document_ids == mid.document_ids,
                self.id_to_short == mid.id_to_short,
                self.stored_fields == mid.stored_fields,
                self.field_lengths == mid.field_lengths,
                self.doc_terms == mid.doc_terms,
                self.next_id == mid.next_id,
                self.dirt_count == mid.dirt_count,
                self.store_fields == mid.store_fields,
                self.fields == old(self).fields,
                names == strings_view(self.fields@),
                names.len() < u32::MAX,
                fts == field_terms_view(field_terms@),
                fts.len() == names.len(),
                forall|f: int| 0 <= f < field_terms@.len() ==> (#[trigger] field_terms@[f] matches Some(ts) ==> ts@.len() <= u32::MAX),
                p0.dom().len() + total_terms(fts) < usize::MAX,
                i <= names.len(),
                deep_postings(self.index@) == postings_upto(p0, s, names, fts, i as int, Set::empty()),
                string_set(doc_terms@) == terms_upto(names, fts, i as int, Set::empty()),
                lengths@ == field_length_row(names, fts).take(i as int),
                has_field == exists|f: int| 0 <= f < i && is_last_position(names, f) && #[trigger] fts[f] is Some,
                self.index@.dom().len() <= p0.dom().len() + total_terms(fts.take(i as int)),
            decreases names.len() - i,
        {
            proof {
                lemma_total_terms_prefix(fts, i as int);
                lemma_total_terms_prefix(fts, i as int + 1);
            }
            let mut len_i: u32 = 0;
            let last = last_position(&self.fields, i);
            if last && field_terms[i].is_some() {
                match &field_terms[i] {
                    Some(terms) => {
                        assert(fts[i as int] == Some(strings_view(terms@)));
                        has_field = true;
                        len_i = index_terms(&mut self.index, s, i as u32, terms, &mut doc_terms, Ghost(p0), Ghost(names), Ghost(fts));
                    },
                    None => {},
                }
            } else {
                proof {
                    assert(indexed_terms(names, fts, i as int) =~= Seq::<Seq<char>>::empty());
                    assert(indexed_terms(names, fts, i as int).to_set() =~= Set::<Seq<char>>::empty());
                    lemma_postings_next_field(p0, s, names, fts, i as int, Set::empty());
                }
            }
            lengths.push(len_i);
            assert(lengths@ =~= field_length_row(names, fts).take(i as int + 1));
            i = i + 1;
        }
        assert(lengths@ =~= field_length_row(names, fts));
        self.field_lengths.insert(s, lengths);
        if has_field {
            self.doc_terms.insert(s, doc_terms);
        }
        proof {
            assert(self.documents() =~= old(self).documents().insert(s, doc_id@));
            assert(self.field_length_table() =~= old(self).field_length_table().insert(s, field_length_row(names, fts)));
            assert(self.stored() =~= (if old(self).store_field_names().len() > 0 {
                old(self).stored().insert(s, stored_pairs(old(self).store_field_names(), optional_strings_view(stored_values@)))
            } else {
                old(self).stored()
            }));
            assert(self.reverse_index() =~= (if has_indexed_field(names, fts) {
                old(self).reverse_index().insert(s, document_terms(names, fts))
            } else {
                old(self).reverse_index()
            }));
            if old(self).consistent() {
                law_add_keeps_postings_recorded(p0, old(self).reverse_index(), s, names, fts);
                law_add_keeps_tidy(p0, s, names, fts);
                let n = names.len() as int;
                assert(!terms_upto(names, fts, n, Set::empty()).contains(Seq::empty())) by {
                    if terms_upto(names, fts, n, Set::empty()).contains(Seq::empty()) {
                        let f = choose|f: int| 0 <= f <= n && #[trigger] recorded_upto(names, fts, n, Set::empty(), Seq::empty(), f);
                        lemma_distinct_terms(fts[f]->0);
                    }
                }
            }
        }
    }

    /// Discards the document `id`, if it is indexed. Its terms are taken out of the postings
    /// through the reverse index, dropping the terms left without postings. A document without
    /// a reverse-index entry leaves its postings in place and counts as dirt.
    pub fn discard(&mut self, id: &str)
        requires
            old(self).wf(),
            old(self).short_ids().contains_key(id@) && !old(self).reverse_index().contains_key(old(self).short_ids()[id@])
                ==> old(self).dirt() < u32::MAX,
        ensures
            final(self).wf(),
            final(self).field_names() == old(self).field_names(),
            final(self).store_field_names() == old(self).store_field_names(),
            final(self).next_short_id() == old(self).next_short_id(),
            !old(self).short_ids().contains_key(id@) ==> {
                &&& final(self).short_ids() == old(self).short_ids()
                &&& final(self).documents() == old(self).documents()
                &&& final(self).field_length_table() == old(self).field_length_table()
                &&& final(self).stored() == old(self).stored()
                &&& final(self).reverse_index() == old(self).reverse_index()
                &&& final(self).postings() == old(self).postings()
                &&& final(self).dirt() == old(self).dirt()
            },
            old(self).short_ids().contains_key(id@) ==> {
                let s = old(self).short_ids()[id@];
                &&& final(self).short_ids() == old(self).short_ids().remove(id@)
                &&& final(self).documents() == old(self).documents().remove(s)
                &&& final(self).field_length_table() == old(self).field_length_table().remove(s)
                &&& final(self).stored() == old(self).stored().remove(s)
                &&& old(self).reverse_index().contains_key(s) ==> {
                    &&& final(self).reverse_index() == old(self).reverse_index().remove(s)
                    &&& final(self).postings() == clean_postings(old(self).postings(), s, old(self).reverse_index()[s])
                    &&& final(self).dirt() == old(self).dirt()
                }
                &&& !old(self).reverse_index().contains_key(s) ==> {
                    &&& final(self).reverse_index() == old(self).reverse_index()
                    &&& final(self).postings() == old(self).postings()
                    &&& final(self).dirt() == old(self).dirt() + 1
                }
                &&& old(self).consistent() ==> !mentions(final(self).postings(), s)
            },
            old(self).consistent() ==> final(self).consistent(),
    {
        let found = self.id_to_short.remove(id);
        match found {
            None => {},
            Some(s) => {
                self.document_ids.remove(&s);
                self.field_lengths.remove(&s);
                self.stored_fields.remove(&s);
                match self.doc_terms.remove(&s) {
                    Some(terms) => {
                        let ghost p0 = deep_postings(self.index@);
                        let ghost tv = strings_view(terms@);
                        assert(tv.take(0).to_set() =~= Set::<Seq<char>>::empty());
                        assert(clean_postings(p0, s, Set::empty()) =~= p0);
                        let ghost mid = *self;
                        let mut k: usize = 0;
                        while k < terms.len()
                            invariant
                                self.index.wf(),
                                self.document_ids == mid.document_ids,
                                self.id_to_short == mid.id_to_short,
                                self.stored_fields == mid.stored_fields,
                                self.field_lengths == mid.field_lengths,
                                self.doc_terms == mid.doc_terms,
                                self.next_id == mid.next_id,
                                self.dirt_count == mid.dirt_count,
                                self.store_fields == mid.store_fields,
                                self.fields == mid.fields,
                                tv == strings_view(terms@),
                                k <= terms@.len(),
                                deep_postings(self.index@) == clean_postings(p0, s, tv.take(k as int).to_set()),
                            decreases terms@.len() - k,
                        {
                            let term = terms[k].as_str();
                            let ghost before = deep_postings(self.index@);
                            proof {
                                lemma_clean_step(p0, s, tv.take(k as int).to_set(), term@);
                                assert(tv.take(k as int + 1) =~= tv.take(k as int).push(term@));
                                tv.take(k as int).lemma_push_to_set_commute(term@);
                            }
                            let mut now_empty = false;
                            match self.index.get_mut(term) {
                                Some(data) => {
                                    strip_document(data, s);
                                    now_empty = data.is_empty();
                                    assert(now_empty == without_doc(before[term@], s).is_empty()) by {
                                        assert(term_view(*data).dom() =~= data@.dom());
                                    }
                                },
                                None => {},
                            }
                            if now_empty {
                                self.index.remove(term);
                                assert(deep_postings(self.index@) =~= before.remove(term@));
                            } else {
                                assert(deep_postings(self.index@) =~= (if before.contains_key(term@) {
                                    before.insert(term@, without_doc(before[term@], s))
                                } else {
                                    before
                                }));
                            }
                            k = k + 1;
                        }
                        assert(tv.take(terms@.len() as int) =~= tv);
                    },
                    None => {
                        self.dirt_count = self.dirt_count + 1;
                    },
                }
            },
        }
        proof {
            if old(self).short_ids().contains_key(id@) {
                let s = old(self).short_ids()[id@];
                assert(self.documents() =~= old(self).documents().remove(s));
                assert(self.field_length_table() =~= old(self).field_length_table().remove(s));
                assert(self.stored() =~= old(self).stored().remove(s));
                assert(self.reverse_index() =~= (if old(self).reverse_index().contains_key(s) {
                    old(self).reverse_index().remove(s)
                } else {
                    old(self).reverse_index()
                }));
                if old(self).consistent() {
                    if old(self).reverse_index().contains_key(s) {
                        law_discard_removes_document(old(self).postings(), old(self).reverse_index(), s);
                        law_discard_keeps_tidy(old(self).postings(), s, old(self).reverse_index()[s]);
                    }
                    assert forall|id2: Seq<char>| #[trigger] self.short_ids().contains_key(id2) implies {
                        &&& self.documents().contains_key(self.short_ids()[id2])
                        &&& self.documents()[self.short_ids()[id2]] == id2
                    } by {
                        assert(old(self).short_ids().contains_key(id2));
                        assert(old(self).documents()[old(self).short_ids()[id2]] == id2);
                    }
                    assert forall|s2: u32| #[trigger] self.documents().contains_key(s2) implies {
                        &&& s2 < self.next_short_id()
                        &&& self.short_ids().contains_key(self.documents()[s2])
                        &&& self.short_ids()[self.documents()[s2]] == s2
                    } by {
                        assert(old(self).documents().contains_key(s2));
                        assert(old(self).short_ids()[old(self).documents()[s2]] == s2);
                    }
                    assert(forall|s2: u32| #[trigger] self.reverse_index().contains_key(s2) ==> self.documents().contains_key(s2));
                    assert(postings_recorded(self.postings(), self.reverse_index()));
                    assert(postings_tidy(self.postings()));
                }
            } else {
                assert(self.short_ids() =~= old(self).short_ids());
                assert(self.documents() =~= old(self).documents());
                assert(self.reverse_index() =~= old(self).reverse_index());
                assert(self.postings() =~= old(self).postings());
            }
        }
    }

    /// Drops every term whose postings hold no indexed document, and resets the dirt
    /// count.
    pub fn vacuum(&mut self)
        requires
            old(self).wf(),
        ensures
            final(self).wf(),
            final(self).field_names() == old(self).field_names(),
            final(self).store_field_names() == old(self).store_field_names(),
            final(self).next_short_id() == old(self).next_short_id(),
            final(self).short_ids() == old(self).short_ids(),
            final(self).documents() == old(self).documents(),
            final(self).field_length_table() == old(self).field_length_table(),
            final(self).stored() == old(self).stored(),
            final(self).reverse_index() == old(self).reverse_index(),
            final(self).postings() == vacuum_postings(old(self).postings(), old(self).documents().dom()),
            final(self).dirt() == 0,
            old(self).consistent() ==> final(self).consistent() && final(self).postings() == old(self).postings(),
    {
        let ghost p0 = self.index@;
        let ghost live = self.document_ids@.dom();
        let ghost dead = Set::new(|t: Seq<char>| p0.contains_key(t) && !has_live_posting(term_view(p0[t]), live));
        let mut dead_terms: Vec<String> = Vec::new();
        {
            let entries = self.index.iter();
            let ghost be = self.index.entries();
            proof {
                self.index.lemma_entries_match_view();
                assert(dead_terms@ =~= Seq::<String>::empty());
                assert(strings_view(dead_terms@).to_set() =~= Set::<Seq<char>>::empty());
            }
            let mut k: usize = 0;
            while k < entries.len()
                invariant
                    pairs_view(entries@) == be,
                    k <= entries@.len(),
                    string_set(dead_terms@) == Set::new(|t: Seq<char>| exists|j: int| 0 <= j < k && #[trigger] be[j].0 == t && !has_live_posting(term_view(be[j].1), live)),
                    live == self.document_ids@.dom(),
                decreases entries@.len() - k,
            {
                let ghost before = dead_terms@;
                assert(be[k as int] == (entries@[k as int].0@, *entries@[k as int].1));
                if !holds_live_document(entries[k].1, &self.document_ids) {
                    dead_terms.push(entries[k].0.clone());
                    assert(strings_view(dead_terms@) =~= strings_view(before).push(be[k as int].0));
                    proof {
                        strings_view(before).lemma_push_to_set_commute(be[k as int].0);
                    }
                }
                assert(string_set(dead_terms@) =~= Set::new(|t: Seq<char>| exists|j: int| 0 <= j < k + 1 && #[trigger] be[j].0 == t && !has_live_posting(term_view(be[j].1), live))) by {
                    assert forall|t: Seq<char>| (exists|j: int| 0 <= j < k + 1 && #[trigger] be[j].0 == t && !has_live_posting(term_view(be[j].1), live))
                        implies string_set(dead_terms@).contains(t) by {
                        let j = choose|j: int| 0 <= j < k + 1 && #[trigger] be[j].0 == t && !has_live_posting(term_view(be[j].1), live);
                        if j < k {
                            assert(string_set(before).contains(t));
                        }
                    }
                }
                k = k + 1;
            }
            proof {
                let es = self.index.entries();
                assert forall|t: Seq<char>| #[trigger] string_set(dead_terms@).contains(t) <==> dead.contains(t) by {
                    if string_set(dead_terms@).contains(t) {
                        let j = choose|j: int| 0 <= j < be.len() && #[trigger] be[j].0 == t && !has_live_posting(term_view(be[j].1), live);
                        assert(keys_of(es)[j] == t);
                        assert(keys_of(es).to_set().contains(t));
                    }
                    if dead.contains(t) {
                        assert(keys_of(es).to_set().contains(t));
                        let n = choose|n: int| 0 <= n < keys_of(es).len() && keys_of(es)[n] == t;
                        assert(be[n] == es[n]);
                    }
                }
            }
        }
        let ghost mid = *self;
        let mut k: usize = 0;
        assert(strings_view(dead_terms@).take(0).to_set() =~= Set::<Seq<char>>::empty());
        assert(p0.remove_keys(Set::empty()) =~= p0);
        while k < dead_terms.len()
            invariant
                self.index.wf(),
                self.document_ids == mid.document_ids,
                self.id_to_short == mid.id_to_short,
                self.stored_fields == mid.stored_fields,
                self.field_lengths == mid.field_lengths,
                self.doc_terms == mid.doc_terms,
                self.next_id == mid.next_id,
                self.dirt_count == mid.dirt_count,
                self.store_fields == mid.store_fields,
                self.fields == mid.fields,
                k <= dead_terms@.len(),
                self.index@ == p0.remove_keys(strings_view(dead_terms@).take(k as int).to_set()),
            decreases dead_terms@.len() - k,
        {
            let ghost done = strings_view(dead_terms@).take(k as int);
            self.index.remove(dead_terms[k].as_str());
            proof {
                assert(strings_view(dead_terms@).take(k as int + 1) =~= done.push(dead_terms@[k as int]@));
                done.lemma_push_to_set_commute(dead_terms@[k as int]@);
                assert(self.index@ =~= p0.remove_keys(done.to_set().insert(dead_terms@[k as int]@)));
            }
            k = k + 1;
        }
        self.dirt_count = 0;
        proof {
            assert(strings_view(dead_terms@).take(dead_terms@.len() as int) =~= strings_view(dead_terms@));
            assert(self.documents().dom() =~= live);
            assert(deep_postings(self.index@) =~= vacuum_postings(deep_postings(p0), live));
            if old(self).consistent() {
                assert forall|s: u32| #[trigger] old(self).reverse_index().contains_key(s) implies live.contains(s) by {
                    assert(old(self).documents().contains_key(s));
                }
                law_vacuum_of_consistent_postings_is_noop(deep_postings(p0), old(self).reverse_index(), live);
                assert(self.postings() == old(self).postings());
                assert(self.short_ids() == old(self).short_ids());
                assert(self.documents() =~= old(self).documents());
                assert(self.reverse_index() =~= old(self).reverse_index());
            }
        }
    }

    /// The term postings, as a searchable map.
    pub fn terms(&self) -> (r: &SearchableMap)
        ensures
            self.wf() ==> r.wf(),
            deep_postings(r@) == self.postings(),
    {
        &self.index
    }

    /// The names of the indexed fields, in order.
    pub fn fields(&self) -> (r: &Vec<String>)
        ensures
            strings_view(r@) == self.field_names(),
            self.wf() ==> r@.len() < u32::MAX,
    {
        &self.fields
    }

    /// The names of the stored fields, in order.
    pub fn store_fields(&self) -> (r: &Vec<String>)
        ensures
            strings_view(r@) == self.store_field_names(),
    {
        &self.store_fields
    }

    /// Returns true if the document `id` is indexed and its terms are in the reverse index.
    pub fn is_recorded(&self, id: &str) -> (r: bool)
        ensures
            r == (self.short_ids().contains_key(id@) && self.reverse_index().contains_key(self.short_ids()[id@])),
    {
        match self.id_to_short.get(id) {
            Some(s) => self.doc_terms.contains_key(s),
            None => false,
        }
    }

    /// The short id of the document `id`, if it is indexed.
    pub fn short_id_of(&self, id: &str) -> (r: Option<u32>)
        ensures
            r == if self.short_ids().contains_key(id@) { Some(self.short_ids()[id@]) } else { None },
    {
        match self.id_to_short.get(id) {
            Some(s) => Some(*s),
            None => None,
        }
    }

    /// The id of the document with short id `s`, if there is one.
    pub fn document_id(&self, s: u32) -> (r: Option<&String>)
        ensures
            r is Some <==> self.documents().contains_key(s),
            r matches Some(x) ==> x@ == self.documents()[s],
    {
        self.document_ids.get(&s)
    }

    /// The (field name, value) pairs stored for the document with short id `s`, if any.
    pub fn stored_fields_of(&self, s: u32) -> (r: Option<&Vec<(String, String)>>)
        ensures
            r is Some <==> self.stored().contains_key(s),
            r matches Some(v) ==> pairs_of(v@) == self.stored()[s],
    {
        self.stored_fields.get(&s)
    }

    /// The (field name, value) pairs stored for the document `id`, if it is indexed and has any.
    pub fn get_stored_fields(&self, id: &str) -> (r: Option<&Vec<(String, String)>>)
        ensures
            r is Some <==> (self.short_ids().contains_key(id@) && self.stored().contains_key(self.short_ids()[id@])),
            r matches Some(v) ==> pairs_of(v@) == self.stored()[self.short_ids()[id@]],
    {
        match self.id_to_short.get(id) {
            Some(s) => self.stored_fields.get(s),
            None => None,
        }
    }

    /// The numbers of distinct terms of each field of the document with short id `s`, if
    /// recorded.
    pub fn field_length_row(&self, s: u32) -> (r: Option<&Vec<u32>>)
        ensures
            r matches Some(row) ==> self.field_length_table().contains_key(s) && row@ == self.field_length_table()[s],
            r is None ==> !self.field_length_table().contains_key(s),
    {
        self.field_lengths.get(&s)
    }

    /// The name of field id `f`: the name whose last position is `f`, or the empty string.
    pub fn field_name(&self, f: u32) -> (r: String)
        ensures
            r@ == if is_last_position(self.field_names(), f as int) { self.field_names()[f as int] } else { Seq::empty() },
    {
        if (f as usize) < self.fields.len() && last_position(&self.fields, f as usize) {
            self.fields[f as usize].clone()
        } else {
            String::new()
        }
    }

    /// The terms, in the order the term map is walked.
    pub closed spec fn term_order(self) -> Seq<Seq<char>> {
        keys_of(self.index.entries())
    }

    /// The short ids of the indexed documents, in increasing order.
    pub closed spec fn document_order(self) -> Seq<u32> {
        choose|q: Seq<u32>| increasing(q) && q.to_set() == self.documents().dom()
    }

    /// The indexed documents as (short id, id) pairs, in increasing order of short id.
    pub fn documents_in_order(&self) -> (r: Vec<(u32, String)>)
        ensures
            r@.map_values(|e: (u32, String)| e.0) == self.document_order(),
            increasing(self.document_order()),
            self.document_order().to_set() == self.documents().dom(),
            forall|i: int| 0 <= i < r@.len() ==> self.documents()[(#[trigger] r@[i]).0] == r@[i].1@,
    {
        let ghost kv = vstd::std_specs::btree::spec_btree_map_iter(&self.document_ids).remaining();
        let mut out: Vec<(u32, String)> = Vec::new();
        for e in it: self.document_ids.iter()
            invariant
                it.seq() == kv,
                out@.len() == it.index(),
                forall|i: int| 0 <= i < it.index() ==> (#[trigger] out@[i]).0 == *kv[i].0 && out@[i].1@ == (*kv[i].1)@,
        {
            out.push((*e.0, e.1.clone()));
        }
        proof {
            let ks = out@.map_values(|e: (u32, String)| e.0);
            let kk = kv.map_values(|kv: (&u32, &String)| *kv.0);
            assert(ks =~= kk);
            assert(increasing(ks)) by {
                lemma_increasing_keys(kk);
            }
            assert forall|x: u32| #[trigger] ks.to_set().contains(x) <==> self.documents().dom().contains(x) by {
                if ks.to_set().contains(x) {
                    let i = choose|i: int| 0 <= i < ks.len() && ks[i] == x;
                    assert(self.document_ids@.contains_key(*kv[i].0));
                }
                if self.documents().dom().contains(x) {
                    assert(kv.contains((&x, &self.document_ids@[x])));
                    let i = choose|i: int| 0 <= i < kv.len() && kv[i] == (&x, &self.document_ids@[x]);
                    assert(ks[i] == x);
                }
            }
            assert(ks.to_set() =~= self.documents().dom());
            let q = self.document_order();
            assert(increasing(q) && q.to_set() == self.documents().dom());
            lemma_increasing_unique(ks, q);
            assert forall|i: int| 0 <= i < out@.len() implies self.documents()[(#[trigger] out@[i]).0] == out@[i].1@ by {
                assert(self.document_ids@.contains_key(*kv[i].0));
            }
        }
        out
    }

    /// For each field id, the sum of the field's lengths over the indexed documents.
    pub fn field_length_totals(&self) -> (r: Vec<u64>)
        requires
            forall|d: u32| #[trigger] self.documents().contains_key(d) && self.field_length_table().contains_key(d)
                ==> self.field_length_table()[d].len() <= self.field_names().len(),
            forall|f: int| 0 <= f < self.field_names().len() ==> #[trigger] length_total(self.field_length_table(), self.document_order(), f) <= u64::MAX,
        ensures
            r@.len() == self.field_names().len(),
            forall|f: int| 0 <= f < r@.len() ==> #[trigger] r@[f] == length_total(self.field_length_table(), self.document_order(), f),
    {
        let docs = self.documents_in_order();
        let ghost ids = docs@.map_values(|e: (u32, String)| e.0);
        let ghost table = self.field_length_table();
        let n = self.fields.len();
        let mut totals: Vec<u64> = Vec::new();
        let mut f: usize = 0;
        while f < n
            invariant
                n == self.fields@.len(),
                f <= n,
                totals@.len() == f,
                forall|x: int| 0 <= x < f ==> totals@[x] == 0,
            decreases n - f,
        {
            totals.push(0);
            f = f + 1;
        }
        let mut j: usize = 0;
        while j < docs.len()
            invariant
                n == self.fields@.len(),
                n == self.field_names().len(),
                ids == docs@.map_values(|e: (u32, String)| e.0),
                ids == self.document_order(),
                ids.to_set() == self.documents().dom(),
                table == self.field_length_table(),
                j <= docs@.len(),
                totals@.len() == n,
                forall|x: int| 0 <= x < n ==> #[trigger] totals@[x] == length_total(table, ids.take(j as int), x),
                forall|i: int| 0 <= i < docs@.len() ==> self.documents()[(#[trigger] docs@[i]).0] == docs@[i].1@,
                forall|d: u32| #[trigger] self.documents().contains_key(d) && table.contains_key(d) ==> table[d].len() <= n,
                forall|x: int| 0 <= x < n ==> #[trigger] length_total(table, ids, x) <= u64::MAX,
            decreases docs@.len() - j,
        {
            let d = docs[j].0;
            let ghost prev = ids.take(j as int);
            assert(ids.take(j + 1).drop_last() =~= prev);
            assert(ids.take(j + 1).last() == d);
            assert(self.documents().contains_key(d)) by {
                assert(ids[j as int] == d);
                assert(ids.to_set().contains(d));
            }
            match self.field_lengths.get(&d) {
                Some(row) => {
                    let mut i: usize = 0;
                    while i < row.len()
                        invariant
                            row@ == table[d],
                            table.contains_key(d),
                            row@.len() <= n,
                            totals@.len() == n,
                            i <= row@.len(),
                            ids.take(j + 1).drop_last() == prev,
                            ids.take(j + 1).last() == d,
                            forall|x: int| 0 <= x < n ==> #[trigger] length_total(table, ids, x) <= u64::MAX,
                            forall|x: int| 0 <= x < n ==> #[trigger] totals@[x] == length_total(table, prev, x) + if x < i { row@[x] as nat } else { 0nat },
                            0 <= j < ids.len(),
                        decreases row@.len() - i,
                    {
                        proof {
                            lemma_length_total_prefix(table, ids, j + 1, i as int);
                        }
                        let v = totals[i] + row[i] as u64;
                        totals.set(i, v);
                        i = i + 1;
                    }
                },
                None => {},
            }
            j = j + 1;
        }
        assert(ids.take(docs@.len() as int) =~= ids);
        totals
    }

    /// Every recorded row of field lengths, as (short id, lengths), each short id once.
    pub fn field_length_entries(&self) -> (r: Vec<(u32, Vec<u32>)>)
        ensures
            r@.map_values(|e: (u32, Vec<u32>)| e.0).no_duplicates(),
            r@.map_values(|e: (u32, Vec<u32>)| e.0).to_set() == self.field_length_table().dom(),
            forall|i: int| 0 <= i < r@.len() ==> (#[trigger] r@[i]).1@ == self.field_length_table()[r@[i].0],
    {
        let ks = keys_of_map(&self.field_lengths);
        let mut out: Vec<(u32, Vec<u32>)> = Vec::new();
        let mut i: usize = 0;
        while i < ks.len()
            invariant
                ks@.to_set() == self.field_lengths@.dom(),
                ks@.no_duplicates(),
                i <= ks@.len(),
                out@.len() == i,
                out@.map_values(|e: (u32, Vec<u32>)| e.0) == ks@.take(i as int),
                forall|x: int| 0 <= x < out@.len() ==> (#[trigger] out@[x]).1@ == self.field_length_table()[out@[x].0],
            decreases ks@.len() - i,
        {
            let k = ks[i];
            assert(ks@.to_set().contains(k)) by {
                assert(ks@.contains(k));
            }
            let row = copy_row(self.field_lengths.get(&k).unwrap());
            out.push((k, row));
            assert(out@.map_values(|e: (u32, Vec<u32>)| e.0) =~= ks@.take(i + 1));
            i = i + 1;
        }
        assert(ks@.take(ks@.len() as int) =~= ks@);
        assert(self.field_length_table().dom() =~= self.field_lengths@.dom());
        out
    }

    /// Every document's stored fields, as (short id, (field name, value) pairs), each short
    /// id once.
    pub fn stored_entries(&self) -> (r: Vec<(u32, Vec<(String, String)>)>)
        ensures
            r@.map_values(|e: (u32, Vec<(String, String)>)| e.0).no_duplicates(),
            r@.map_values(|e: (u32, Vec<(String, String)>)| e.0).to_set() == self.stored().dom(),
            forall|i: int| 0 <= i < r@.len() ==> pairs_of((#[trigger] r@[i]).1@) == self.stored()[r@[i].0],
    {
        let ks = keys_of_map(&self.stored_fields);
        let mut out: Vec<(u32, Vec<(String, String)>)> = Vec::new();
        let mut i: usize = 0;
        while i < ks.len()
            invariant
                ks@.to_set() == self.stored_fields@.dom(),
                ks@.no_duplicates(),
                i <= ks@.len(),
                out@.len() == i,
                out@.map_values(|e: (u32, Vec<(String, String)>)| e.0) == ks@.take(i as int),
                forall|x: int| 0 <= x < out@.len() ==> pairs_of((#[trigger] out@[x]).1@) == self.stored()[out@[x].0],
            decreases ks@.len() - i,
        {
            let k = ks[i];
            assert(ks@.to_set().contains(k)) by {
                assert(ks@.contains(k));
            }
            let pairs = copy_pairs(self.stored_fields.get(&k).unwrap());
            out.push((k, pairs));
            assert(out@.map_values(|e: (u32, Vec<(String, String)>)| e.0) =~= ks@.take(i + 1));
            i = i + 1;
        }
        assert(ks@.take(ks@.len() as int) =~= ks@);
        assert(self.stored().dom() =~= self.stored_fields@.dom());
        out
    }

    /// The saved form of the index.
    pub fn export(&self) -> (r: SavedIndex)
        requires
            self.wf(),
        ensures
            r.is_saved_form_of(*self),
    {
        let docs = self.documents_in_order();
        let ghost order = self.document_order();
        let mut document_ids: Vec<(String, String)> = Vec::new();
        let mut i: usize = 0;
        while i < docs.len()
            invariant
                docs@.map_values(|e: (u32, String)| e.0) == order,
                forall|x: int| 0 <= x < docs@.len() ==> self.documents()[(#[trigger] docs@[x]).0] == docs@[x].1@,
                i <= docs@.len(),
                document_ids@.len() == i,
                forall|x: int| 0 <= x < i ==> (#[trigger] saved_documents_view(document_ids@)[x]).0 == decimal_digits(order[x] as nat)
                    && saved_documents_view(document_ids@)[x].1 == self.documents()[order[x]],
            decreases docs@.len() - i,
        {
            let ghost before = document_ids@;
            let key = decimal_text(docs[i].0);
            assert(order[i as int] == docs@[i as int].0);
            document_ids.push((key, docs[i].1.clone()));
            assert forall|x: int| 0 <= x < i + 1 implies (#[trigger] saved_documents_view(document_ids@)[x]).0 == decimal_digits(order[x] as nat)
                && saved_documents_view(document_ids@)[x].1 == self.documents()[order[x]] by {
                if x < i {
                    assert(document_ids@[x] == before[x]);
                    assert(saved_documents_view(before)[x] == saved_documents_view(document_ids@)[x]);
                }
            }
            i = i + 1;
        }
        proof {
            assert(order.no_duplicates()) by {
                assert forall|a: int, b: int| 0 <= a < order.len() && 0 <= b < order.len() && a != b implies order[a] != order[b] by {
                    if a < b {
                        assert(order[a] < order[b]);
                    } else {
                        assert(order[b] < order[a]);
                    }
                }
            }
        }
        let rows = self.field_length_entries();
        let mut field_length: Vec<(String, Vec<u32>)> = Vec::new();
        let mut i: usize = 0;
        let ghost rks = rows@.map_values(|e: (u32, Vec<u32>)| e.0);
        while i < rows.len()
            invariant
                rks == rows@.map_values(|e: (u32, Vec<u32>)| e.0),
                forall|x: int| 0 <= x < rows@.len() ==> (#[trigger] rows@[x]).1@ == self.field_length_table()[rows@[x].0],
                i <= rows@.len(),
                field_length@.len() == i,
                forall|x: int| 0 <= x < i ==> (#[trigger] saved_rows_view(field_length@)[x]).0 == decimal_digits(rks[x] as nat)
                    && saved_rows_view(field_length@)[x].1 == self.field_length_table()[rks[x]],
            decreases rows@.len() - i,
        {
            let ghost before = field_length@;
            let key = decimal_text(rows[i].0);
            let row = copy_row(&rows[i].1);
            field_length.push((key, row));
            assert forall|x: int| 0 <= x < i + 1 implies (#[trigger] saved_rows_view(field_length@)[x]).0 == decimal_digits(rks[x] as nat)
                && saved_rows_view(field_length@)[x].1 == self.field_length_table()[rks[x]] by {
                if x < i {
                    assert(field_length@[x] == before[x]);
                    assert(saved_rows_view(before)[x] == saved_rows_view(field_length@)[x]);
                }
            }
            i = i + 1;
        }
        assert(listing(saved_rows_view(field_length@), rks, self.field_length_table()));
        let stored = self.stored_entries();
        let mut stored_fields: Vec<(String, Vec<(String, String)>)> = Vec::new();
        let mut i: usize = 0;
        let ghost sks = stored@.map_values(|e: (u32, Vec<(String, String)>)| e.0);
        while i < stored.len()
            invariant
                sks == stored@.map_values(|e: (u32, Vec<(String, String)>)| e.0),
                forall|x: int| 0 <= x < stored@.len() ==> pairs_of((#[trigger] stored@[x]).1@) == self.stored()[stored@[x].0],
                i <= stored@.len(),
                stored_fields@.len() == i,
                forall|x: int| 0 <= x < i ==> (#[trigger] saved_stored_view(stored_fields@)[x]).0 == decimal_digits(sks[x] as nat)
                    && saved_stored_view(stored_fields@)[x].1 == self.stored()[sks[x]],
            decreases stored@.len() - i,
        {
            let ghost before = stored_fields@;
            let key = decimal_text(stored[i].0);
            let pairs = copy_pairs(&stored[i].1);
            stored_fields.push((key, pairs));
            assert forall|x: int| 0 <= x < i + 1 implies (#[trigger] saved_stored_view(stored_fields@)[x]).0 == decimal_digits(sks[x] as nat)
                && saved_stored_view(stored_fields@)[x].1 == self.stored()[sks[x]] by {
                if x < i {
                    assert(stored_fields@[x] == before[x]);
                    assert(saved_stored_view(before)[x] == saved_stored_view(stored_fields@)[x]);
                }
            }
            i = i + 1;
        }
        assert(listing(saved_stored_view(stored_fields@), sks, self.stored()));
        let entries = self.index.iter();
        let ghost be = self.index.entries();
        proof {
            self.index.lemma_entries_match_view();
        }
        let mut index: Vec<(String, Vec<(String, Vec<(String, u32)>)>)> = Vec::new();
        let mut i: usize = 0;
        while i < entries.len()
            invariant
                pairs_view(entries@) == be,
                i <= entries@.len(),
                index@.len() == i,
                forall|x: int| 0 <= x < i ==> (#[trigger] saved_index_view(index@)[x]).0 == be[x].0
                    && lists_fields(saved_index_view(index@)[x].1, term_view(be[x].1)),
            decreases entries@.len() - i,
        {
            let ghost before = index@;
            let fields = export_fields(entries[i].1);
            let term = entries[i].0.clone();
            assert(be[i as int] == (entries@[i as int].0@, *entries@[i as int].1));
            index.push((term, fields));
            assert forall|x: int| 0 <= x < i + 1 implies (#[trigger] saved_index_view(index@)[x]).0 == be[x].0
                && lists_fields(saved_index_view(index@)[x].1, term_view(be[x].1)) by {
                if x < i {
                    assert(index@[x] == before[x]);
                    assert(saved_index_view(before)[x] == saved_index_view(index@)[x]);
                }
            }
            i = i + 1;
        }
        let r = SavedIndex { document_ids, field_length, stored_fields, index };
        proof {
            let ix = saved_index_view(r.index@);
            let es = self.index.entries();
            assert(ix.map_values(|e: (Seq<char>, Seq<(Seq<char>, Seq<(Seq<char>, u32)>)>)| e.0) =~= self.term_order());
            assert forall|x: int, y: int| 0 <= x < y < ix.len() implies (#[trigger] ix[x]).0 != (#[trigger] ix[y]).0 by {
                assert(keys_of(es)[x] != keys_of(es)[y]);
            }
            assert forall|x: int| 0 <= x < ix.len() implies self.postings().contains_key((#[trigger] ix[x]).0)
                && lists_fields(ix[x].1, self.postings()[ix[x].0]) by {
                assert(keys_of(es)[x] == be[x].0);
                assert(keys_of(es).to_set().contains(be[x].0));
                assert(self.index@[es[x].0] == es[x].1);
            }
            assert forall|t: Seq<char>| #[trigger] self.postings().contains_key(t) implies exists|x: int| 0 <= x < ix.len() && #[trigger] ix[x].0 == t by {
                assert(keys_of(es).to_set().contains(t));
                let n = choose|n: int| 0 <= n < keys_of(es).len() && keys_of(es)[n] == t;
                assert(ix[n].0 == t);
            }
        }
        r
    }

    /// The short id the next added document receives.
    pub fn next_id(&self) -> (r: u32)
        ensures
            r == self.next_short_id(),
    {
        self.next_id
    }
}

} // verus!
