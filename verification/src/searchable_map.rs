use vstd::prelude::*;

use std::collections::HashMap;

use crate::radix_tree::{fuzzy_matches, keys_of, keys_sorted, pairs_view, starts_with, triples_view, PrefixView, RadixTree};

verus! {

/// Term frequency data: field id -> (document id -> frequency).
pub type FieldTermData = HashMap<u32, HashMap<u32, u32>>;

/// A searchable map from terms to their frequency data, built on a radix tree.
#[derive(Debug)]
pub struct SearchableMap {
    tree: RadixTree<FieldTermData>,
}

impl View for SearchableMap {
    type V = Map<Seq<char>, FieldTermData>;

    /// The data stored for each term.
    closed spec fn view(&self) -> Map<Seq<char>, FieldTermData> {
        self.tree@
    }
}

impl SearchableMap {
    /// The map is well formed and its size and term lengths fit in a `usize`.
    pub closed spec fn wf(self) -> bool {
        self.tree.wf()
    }

    /// Every (term, data) entry, in the order the underlying tree visits them.
    pub closed spec fn entries(self) -> Seq<(Seq<char>, FieldTermData)> {
        self.tree.entries()
    }

    /// Walking the map visits each stored term exactly once, with its data.
    pub proof fn lemma_entries_match_view(self)
        requires
            self.wf(),
        ensures
            keys_of(self.entries()).no_duplicates(),
            self@.dom() == keys_of(self.entries()).to_set(),
            self@.dom().finite(),
            self@.dom().len() == self.entries().len(),
            forall|n: int| 0 <= n < self.entries().len() ==> self@[#[trigger] self.entries()[n].0] == self.entries()[n].1,
    {
        self.tree.lemma_entries_match_view();
    }

    /// A fuzzy search with distance 0 finds the query's own entry and nothing else.
    pub proof fn law_fuzzy_zero_is_exact(self, q: Seq<char>)
        requires
            self.wf(),
        ensures
            fuzzy_matches(self.entries(), q, 0) == if self@.contains_key(q) {
                seq![(q, self@[q], 0nat)]
            } else {
                Seq::<(Seq<char>, FieldTermData, nat)>::empty()
            },
    {
        self.tree.law_fuzzy_zero_is_exact(q);
    }

    /// Walking the map visits the terms in increasing dictionary order.
    pub proof fn law_entries_sorted(self)
        requires
            self.wf(),
        ensures
            keys_sorted(keys_of(self.entries())),
    {
        self.tree.law_entries_sorted();
    }

    /// The entries under the empty prefix are all the entries.
    pub proof fn law_empty_prefix_is_everything(self)
        ensures
            self.entries().filter(starts_with(Seq::<char>::empty())) == self.entries(),
    {
        self.tree.law_empty_prefix_is_everything();
    }

    /// Creates a new empty searchable map.
    pub fn new() -> (r: Self)
        ensures
            r.wf(),
            r@ == Map::<Seq<char>, FieldTermData>::empty(),
    {
        SearchableMap { tree: RadixTree::new() }
    }

    /// Returns true if the map is empty.
    pub fn is_empty(&self) -> (r: bool)
        requires
            self.wf(),
        ensures
            r == (self@.dom().len() == 0),
    {
        self.tree.is_empty()
    }

    /// Returns the number of terms in the map.
    pub fn len(&self) -> (r: usize)
        requires
            self.wf(),
        ensures
            r == self@.dom().len(),
    {
        self.tree.len()
    }

    /// Gets the data for `term`, creating empty data when the term is new.
    pub fn get_or_create(&mut self, term: &str) -> (r: &mut FieldTermData)
        requires
            old(self).wf(),
            old(self)@.dom().contains(term@) || old(self)@.dom().len() < usize::MAX,
        ensures
            old(self)@.dom().contains(term@) ==> *r == old(self)@[term@],
            !old(self)@.dom().contains(term@) ==> r@ == Map::<u32, HashMap<u32, u32>>::empty(),
            final(self).wf(),
            final(self)@ == old(self)@.insert(term@, *final(r)),
    {
        if self.tree.get(term).is_none() {
            self.tree.insert(term, HashMap::new());
        }
        self.tree.get_mut(term).unwrap()
    }

    /// Gets the data for `term` if it exists.
    pub fn get(&self, term: &str) -> (r: Option<&FieldTermData>)
        ensures
            r is None <==> !self@.dom().contains(term@),
            r matches Some(x) ==> self@.dom().contains(term@) && *x == self@[term@],
    {
        self.tree.get(term)
    }

    /// Gets mutable data for `term` if it exists.
    pub fn get_mut(&mut self, term: &str) -> (r: Option<&mut FieldTermData>)
        requires
            old(self).wf(),
        ensures
            r is None <==> !old(self)@.dom().contains(term@),
            r is None ==> *final(self) == *old(self),
            r is Some ==> old(self)@.dom().contains(term@) && *r.unwrap() == old(self)@[term@],
            r is Some ==> final(self).wf(),
            r is Some ==> final(self)@ == old(self)@.insert(term@, *final(r.unwrap())),
    {
        self.tree.get_mut(term)
    }

    /// Removes `term` from the map, returning its data.
    pub fn remove(&mut self, term: &str) -> (r: Option<FieldTermData>)
        requires
            old(self).wf(),
        ensures
            final(self).wf(),
            final(self)@ == old(self)@.remove(term@),
            r == if old(self)@.dom().contains(term@) { Some(old(self)@[term@]) } else { None },
    {
        self.tree.remove(term)
    }

    /// Returns true if the map contains `term`.
    pub fn contains_term(&self, term: &str) -> (r: bool)
        ensures
            r == self@.dom().contains(term@),
    {
        self.tree.contains_key(term)
    }

    /// Returns every (term, data) pair, in the order of `entries`.
    pub fn iter(&self) -> (r: Vec<(String, &FieldTermData)>)
        ensures
            pairs_view(r@) == self.entries(),
    {
        self.tree.iter()
    }

    /// Returns a view of the terms that start with `prefix`,
    /// or `None` when `prefix` is not empty and no term starts with it.
    pub fn at_prefix(&self, prefix: &str) -> (r: Option<PrefixView<'_, FieldTermData>>)
        requires
            self.wf(),
        ensures
            r is None <==> (prefix@.len() > 0 && self.entries().filter(starts_with(prefix@)).len() == 0),
            r matches Some(v) ==> v.entries() == self.entries().filter(starts_with(prefix@)),
    {
        self.tree.at_prefix(prefix)
    }

    /// Returns every term within `max_distance` edits of `query`, with its data and distance.
    pub fn fuzzy_search(&self, query: &str, max_distance: usize) -> (r: Vec<(String, &FieldTermData, usize)>)
        requires
            self.wf(),
            query@.len() < usize::MAX,
        ensures
            triples_view(r@) == fuzzy_matches(self.entries(), query@, max_distance as nat),
    {
        self.tree.fuzzy_search(query, max_distance)
    }
}

impl Clone for SearchableMap {
    /// A map with the same terms and the same postings.
    fn clone(&self) -> (r: Self)
        ensures
            self.wf() ==> r.wf(),
            r@.dom() == self@.dom(),
            forall|t: Seq<char>| #[trigger] r@.contains_key(t) ==> r@[t]@ == self@[t]@,
    {
        let tree = self.tree.clone();
        SearchableMap { tree }
    }
}

impl Default for SearchableMap {
    /// An empty map.
    fn default() -> (r: Self)
        ensures
            r.wf(),
            r@ == Map::<Seq<char>, FieldTermData>::empty(),
    {
        Self::new()
    }
}

} // verus!
