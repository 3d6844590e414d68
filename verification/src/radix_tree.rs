use vstd::prelude::*;

use crate::text::{
    chars_of, common_prefix_chars, dp_row_matches, edit_distance, lemma_edit_distance_zero, lemma_row_lower_bound_extend,
    next_dp_row,
};

verus! {

/// The entries `es`, each key preceded by `p`.
pub open spec fn prefixed<T>(p: Seq<char>, es: Seq<(Seq<char>, T)>) -> Seq<(Seq<char>, T)> {
    es.map_values(|e: (Seq<char>, T)| (p + e.0, e.1))
}

/// The keys of the entries `es`, in order.
pub open spec fn keys_of<T>(es: Seq<(Seq<char>, T)>) -> Seq<Seq<char>> {
    es.map_values(|e: (Seq<char>, T)| e.0)
}

/// Membership in a concatenation.
pub proof fn lemma_contains_concat<A>(a: Seq<A>, b: Seq<A>, x: A)
    ensures
        (a + b).contains(x) <==> (a.contains(x) || b.contains(x)),
{
    if (a + b).contains(x) {
        let n = choose|n: int| 0 <= n < (a + b).len() && (a + b)[n] == x;
        if n < a.len() {
            assert(a[n] == x);
        } else {
            assert(b[n - a.len()] == x);
        }
    }
    if a.contains(x) {
        let n = choose|n: int| 0 <= n < a.len() && a[n] == x;
        assert((a + b)[n] == x);
    }
    if b.contains(x) {
        let n = choose|n: int| 0 <= n < b.len() && b[n] == x;
        assert((a + b)[a.len() + n] == x);
    }
}

/// Keys of a concatenation are distinct when each part's keys are and no key occurs in both.
pub proof fn lemma_keys_concat_distinct<T>(a: Seq<(Seq<char>, T)>, b: Seq<(Seq<char>, T)>)
    requires
        keys_of(a).no_duplicates(),
        keys_of(b).no_duplicates(),
        forall|x: int, y: int| 0 <= x < a.len() && 0 <= y < b.len() ==> a[x].0 != b[y].0,
    ensures
        keys_of(a + b).no_duplicates(),
{
    let ks = keys_of(a + b);
    assert forall|x: int, y: int| 0 <= x < ks.len() && 0 <= y < ks.len() && x != y implies ks[x] != ks[y] by {
        if x < a.len() && y < a.len() {
            assert(keys_of(a)[x] == ks[x] && keys_of(a)[y] == ks[y]);
        } else if x >= a.len() && y >= a.len() {
            assert(keys_of(b)[x - a.len()] == ks[x] && keys_of(b)[y - a.len()] == ks[y]);
        } else if x < a.len() {
            assert((a + b)[y] == b[y - a.len()]);
        } else {
            assert((a + b)[x] == b[x - a.len()]);
        }
    }
}

/// The entries that a vector of (key, reference) pairs holds, as keys and values.
pub open spec fn pairs_view<'a, T>(v: Seq<(String, &'a T)>) -> Seq<(Seq<char>, T)> {
    v.map_values(|e: (String, &'a T)| (e.0@, *e.1))
}

/// Prefixing distributes over concatenation.
pub proof fn lemma_prefixed_add<T>(p: Seq<char>, a: Seq<(Seq<char>, T)>, b: Seq<(Seq<char>, T)>)
    ensures
        prefixed(p, a + b) == prefixed(p, a) + prefixed(p, b),
{
    assert(prefixed(p, a + b) =~= prefixed(p, a) + prefixed(p, b));
}

/// Prefixing twice is prefixing by the concatenation.
pub proof fn lemma_prefixed_prefixed<T>(p: Seq<char>, l: Seq<char>, a: Seq<(Seq<char>, T)>)
    ensures
        prefixed(p, prefixed(l, a)) == prefixed(p + l, a),
{
    assert forall|n: int| 0 <= n < a.len() implies prefixed(p, prefixed(l, a))[n] == prefixed(p + l, a)[n] by {
        assert(p + (l + a[n].0) =~= (p + l) + a[n].0);
    }
    assert(prefixed(p, prefixed(l, a)) =~= prefixed(p + l, a));
}

/// Whether an entry's key starts with `p`.
pub open spec fn starts_with<T>(p: Seq<char>) -> spec_fn((Seq<char>, T)) -> bool {
    |e: (Seq<char>, T)| p.is_prefix_of(e.0)
}

/// Filtering keeps nothing when no key starts with `p`.
pub proof fn lemma_filter_none<T>(es: Seq<(Seq<char>, T)>, p: Seq<char>)
    requires
        forall|n: int| 0 <= n < es.len() ==> !p.is_prefix_of(#[trigger] es[n].0),
    ensures
        es.filter(starts_with(p)) == Seq::<(Seq<char>, T)>::empty(),
    decreases es.len(),
{
    reveal(Seq::filter);
    if es.len() > 0 {
        lemma_filter_none(es.drop_last(), p);
        assert(!p.is_prefix_of(es[es.len() - 1].0));
    }
}

/// Filtering keeps everything when every key starts with `p`.
pub proof fn lemma_filter_all<T>(es: Seq<(Seq<char>, T)>, p: Seq<char>)
    requires
        forall|n: int| 0 <= n < es.len() ==> p.is_prefix_of(#[trigger] es[n].0),
    ensures
        es.filter(starts_with(p)) == es,
    decreases es.len(),
{
    reveal(Seq::filter);
    if es.len() > 0 {
        lemma_filter_all(es.drop_last(), p);
        assert(p.is_prefix_of(es[es.len() - 1].0));
        assert(es.drop_last().push(es.last()) =~= es);
    }
}

/// Filtering entries with distinct keys leaves entries with distinct keys.
pub proof fn lemma_filter_keys_distinct<T>(es: Seq<(Seq<char>, T)>, p: Seq<char>)
    requires
        keys_of(es).no_duplicates(),
    ensures
        keys_of(es.filter(starts_with(p))).no_duplicates(),
    decreases es.len(),
{
    reveal(Seq::filter);
    if es.len() > 0 {
        let d = es.drop_last();
        let last = es[es.len() - 1];
        assert forall|i: int, j: int| 0 <= i < j < keys_of(d).len() implies keys_of(d)[i] != keys_of(d)[j] by {
            assert(keys_of(d)[i] == keys_of(es)[i]);
            assert(keys_of(d)[j] == keys_of(es)[j]);
        }
        lemma_filter_keys_distinct(d, p);
        let sub = d.filter(starts_with(p));
        if p.is_prefix_of(last.0) {
            let fs = sub.push(last);
            assert(es.filter(starts_with(p)) == fs);
            assert forall|i: int, j: int| 0 <= i < j < keys_of(fs).len() implies keys_of(fs)[i] != keys_of(fs)[j] by {
                if j == sub.len() {
                    assert(sub.contains(sub[i]));
                    d.lemma_filter_contains_rev(starts_with(p), sub[i]);
                    let n = choose|n: int| 0 <= n < d.len() && d[n] == sub[i];
                    assert(keys_of(es)[n] == sub[i].0);
                    assert(keys_of(es)[es.len() - 1] == last.0);
                } else {
                    assert(keys_of(fs)[i] == keys_of(sub)[i]);
                    assert(keys_of(fs)[j] == keys_of(sub)[j]);
                }
            }
        }
    }
}

/// Filtering prefixed entries by a longer prefix filters the unprefixed entries by the remainder.
pub proof fn lemma_filter_prefixed<T>(l: Seq<char>, es: Seq<(Seq<char>, T)>, r: Seq<char>)
    requires
        l.is_prefix_of(r),
    ensures
        prefixed(l, es).filter(starts_with(r)) == prefixed(l, es.filter(starts_with(r.skip(l.len() as int)))),
    decreases es.len(),
{
    reveal(Seq::filter);
    let rr = r.skip(l.len() as int);
    if es.len() > 0 {
        lemma_filter_prefixed(l, es.drop_last(), r);
        assert(prefixed(l, es).drop_last() =~= prefixed(l, es.drop_last()));
        let e = es.last();
        assert(prefixed(l, es).last() == (l + e.0, e.1));
        assert(r.is_prefix_of(l + e.0) <==> rr.is_prefix_of(e.0)) by {
            if r.is_prefix_of(l + e.0) {
                assert(rr =~= e.0.subrange(0, rr.len() as int));
            }
            if rr.is_prefix_of(e.0) {
                assert(r =~= l + rr);
                assert forall|j: int| 0 <= j < r.len() implies r[j] == (l + e.0)[j] by {
                    if j >= l.len() {
                        assert(rr[j - l.len()] == e.0[j - l.len()]);
                    }
                }
                assert(r =~= (l + e.0).subrange(0, r.len() as int));
            }
        }
        if rr.is_prefix_of(e.0) {
            assert(prefixed(l, es.filter(starts_with(rr))) =~= prefixed(l, es.drop_last().filter(starts_with(rr))).push((l + e.0, e.1)));
        } else {
            assert(prefixed(l, es.filter(starts_with(rr))) == prefixed(l, es.drop_last().filter(starts_with(rr))));
        }
    } else {
        assert(prefixed(l, es) =~= es.filter(starts_with(rr)));
        assert(prefixed(l, es.filter(starts_with(rr))) =~= Seq::<(Seq<char>, T)>::empty());
    }
}

/// Whether an entry's key is within `max` edits of `q`.
pub open spec fn within_distance<T>(q: Seq<char>, max: nat) -> spec_fn((Seq<char>, T)) -> bool {
    |e: (Seq<char>, T)| edit_distance(e.0, q) <= max
}

/// An entry together with the edit distance of its key to `q`.
pub open spec fn with_distance<T>(q: Seq<char>) -> spec_fn((Seq<char>, T)) -> (Seq<char>, T, nat) {
    |e: (Seq<char>, T)| (e.0, e.1, edit_distance(e.0, q))
}

/// The entries of `es` whose key is within `max` edits of `q`, in order, each with its distance.
pub open spec fn fuzzy_matches<T>(es: Seq<(Seq<char>, T)>, q: Seq<char>, max: nat) -> Seq<(Seq<char>, T, nat)> {
    es.filter(within_distance(q, max)).map_values(with_distance(q))
}

/// The (key, value, distance) triples that a result vector holds.
pub open spec fn triples_view<'a, T>(v: Seq<(String, &'a T, usize)>) -> Seq<(Seq<char>, T, nat)> {
    v.map_values(|e: (String, &'a T, usize)| (e.0@, *e.1, e.2 as nat))
}

/// Fuzzy matching distributes over concatenation.
pub proof fn lemma_fuzzy_matches_add<T>(a: Seq<(Seq<char>, T)>, b: Seq<(Seq<char>, T)>, q: Seq<char>, max: nat)
    ensures
        fuzzy_matches(a + b, q, max) == fuzzy_matches(a, q, max) + fuzzy_matches(b, q, max),
{
    Seq::filter_distributes_over_add(a, b, within_distance::<T>(q, max));
    assert(fuzzy_matches(a + b, q, max) =~= fuzzy_matches(a, q, max) + fuzzy_matches(b, q, max));
}

/// No entry matches when every key is farther than `max` from `q`.
pub proof fn lemma_fuzzy_matches_none<T>(es: Seq<(Seq<char>, T)>, q: Seq<char>, max: nat)
    requires
        forall|n: int| 0 <= n < es.len() ==> edit_distance(#[trigger] es[n].0, q) > max,
    ensures
        fuzzy_matches(es, q, max) == Seq::<(Seq<char>, T, nat)>::empty(),
    decreases es.len(),
{
    reveal(Seq::filter);
    if es.len() > 0 {
        lemma_fuzzy_matches_none(es.drop_last(), q, max);
        assert(edit_distance(es[es.len() - 1].0, q) > max);
        assert(es.filter(within_distance(q, max)) == es.drop_last().filter(within_distance(q, max)));
    }
    assert(fuzzy_matches(es, q, max) =~= Seq::<(Seq<char>, T, nat)>::empty());
}

/// With distance 0, fuzzy matching among entries with distinct keys finds exactly the entry
/// whose key is `q`, if there is one.
pub proof fn lemma_fuzzy_matches_zero<T>(es: Seq<(Seq<char>, T)>, q: Seq<char>)
    requires
        keys_of(es).no_duplicates(),
    ensures
        forall|n: int| 0 <= n < es.len() && #[trigger] es[n].0 == q ==> fuzzy_matches(es, q, 0) == seq![(q, es[n].1, 0nat)],
        !keys_of(es).contains(q) ==> fuzzy_matches(es, q, 0) == Seq::<(Seq<char>, T, nat)>::empty(),
    decreases es.len(),
{
    reveal(Seq::filter);
    if es.len() > 0 {
        let init = es.drop_last();
        let last = es.last();
        assert(keys_of(init).no_duplicates()) by {
            assert forall|i: int, j: int| 0 <= i < j < keys_of(init).len() implies keys_of(init)[i] != keys_of(init)[j] by {
                assert(keys_of(es)[i] == keys_of(init)[i]);
                assert(keys_of(es)[j] == keys_of(init)[j]);
            }
        }
        lemma_fuzzy_matches_zero(init, q);
        lemma_edit_distance_zero(last.0, q);
        assert(es =~= init.push(last));
        if last.0 == q {
            assert(!keys_of(init).contains(q)) by {
                if keys_of(init).contains(q) {
                    let i = choose|i: int| 0 <= i < keys_of(init).len() && keys_of(init)[i] == q;
                    assert(keys_of(es)[i] == keys_of(es)[es.len() - 1]);
                }
            }
            assert(es.filter(within_distance(q, 0)) == init.filter(within_distance(q, 0)).push(last));
            assert(keys_of(es)[es.len() - 1] == q);
            assert forall|n: int| 0 <= n < es.len() && #[trigger] es[n].0 == q implies fuzzy_matches(es, q, 0) == seq![(q, es[n].1, 0nat)] by {
                if n < es.len() - 1 {
                    assert(keys_of(es)[n] == keys_of(es)[es.len() - 1]);
                }
                assert(fuzzy_matches(es, q, 0) =~= seq![(q, last.1, 0nat)]);
            }
        } else {
            assert(es.filter(within_distance(q, 0)) == init.filter(within_distance(q, 0)));
            assert(fuzzy_matches(es, q, 0) == fuzzy_matches(init, q, 0));
            assert forall|n: int| 0 <= n < es.len() && #[trigger] es[n].0 == q implies fuzzy_matches(es, q, 0) == seq![(q, es[n].1, 0nat)] by {
                assert(init[n] == es[n]);
            }
            if !keys_of(es).contains(q) {
                assert(!keys_of(init).contains(q)) by {
                    if keys_of(init).contains(q) {
                        let i = choose|i: int| 0 <= i < keys_of(init).len() && keys_of(init)[i] == q;
                        assert(keys_of(es)[i] == q);
                    }
                }
            }
        }
    } else {
        assert(fuzzy_matches(es, q, 0) =~= Seq::<(Seq<char>, T, nat)>::empty());
    }
}

/// `a` comes before `b` in dictionary order of characters: `a` is a proper prefix of `b`,
/// or at the first position where they differ `a` has the smaller character.
pub open spec fn key_less(a: Seq<char>, b: Seq<char>) -> bool {
    exists|k: int|
        0 <= k <= a.len() && k <= b.len() && #[trigger] a.take(k) == b.take(k) && ((k == a.len() && k < b.len()) || (k < a.len()
            && k < b.len() && a[k] < b[k]))
}

/// The keys are in increasing dictionary order.
pub open spec fn keys_sorted(ks: Seq<Seq<char>>) -> bool {
    forall|i: int, j: int| 0 <= i < j < ks.len() ==> key_less(#[trigger] ks[i], #[trigger] ks[j])
}

proof fn lemma_key_less_prefixed(p: Seq<char>, a: Seq<char>, b: Seq<char>)
    requires
        key_less(a, b),
    ensures
        key_less(p + a, p + b),
{
    let k = choose|k: int|
        0 <= k <= a.len() && k <= b.len() && #[trigger] a.take(k) == b.take(k) && ((k == a.len() && k < b.len()) || (k < a.len()
            && k < b.len() && a[k] < b[k]));
    let k2 = k + p.len();
    assert((p + a).take(k2) =~= p + a.take(k));
    assert((p + b).take(k2) =~= p + b.take(k));
    if k < a.len() && k < b.len() {
        assert((p + a)[k2] == a[k]);
        assert((p + b)[k2] == b[k]);
    }
}

proof fn lemma_key_less_first(a: Seq<char>, b: Seq<char>)
    requires
        (a.len() == 0 && b.len() > 0) || (a.len() > 0 && b.len() > 0 && a[0] < b[0]),
    ensures
        key_less(a, b),
{
    assert(a.take(0) =~= b.take(0));
}

proof fn lemma_sorted_prefixed<T>(p: Seq<char>, es: Seq<(Seq<char>, T)>)
    requires
        keys_sorted(keys_of(es)),
    ensures
        keys_sorted(keys_of(prefixed(p, es))),
{
    let ks = keys_of(prefixed(p, es));
    assert forall|i: int, j: int| 0 <= i < j < ks.len() implies key_less(#[trigger] ks[i], #[trigger] ks[j]) by {
        assert(key_less(keys_of(es)[i], keys_of(es)[j]));
        lemma_key_less_prefixed(p, es[i].0, es[j].0);
    }
}

proof fn lemma_sorted_concat<T>(a: Seq<(Seq<char>, T)>, b: Seq<(Seq<char>, T)>)
    requires
        keys_sorted(keys_of(a)),
        keys_sorted(keys_of(b)),
        forall|x: int, y: int| 0 <= x < a.len() && 0 <= y < b.len() ==> key_less(#[trigger] a[x].0, #[trigger] b[y].0),
    ensures
        keys_sorted(keys_of(a + b)),
{
    let ks = keys_of(a + b);
    assert forall|i: int, j: int| 0 <= i < j < ks.len() implies key_less(#[trigger] ks[i], #[trigger] ks[j]) by {
        if j < a.len() {
            assert(keys_of(a)[i] == ks[i] && keys_of(a)[j] == ks[j]);
        } else if i >= a.len() {
            assert(keys_of(b)[i - a.len()] == ks[i] && keys_of(b)[j - a.len()] == ks[j]);
        } else {
            assert((a + b)[i] == a[i]);
            assert((a + b)[j] == b[j - a.len()]);
        }
    }
}

/// A radix tree (compressed prefix tree) mapping string keys to values.
#[derive(Debug)]
pub struct RadixTree<T> {
    value: Option<T>,
    children: Vec<(String, RadixTree<T>)>,
}

impl<T> View for RadixTree<T> {
    type V = Map<Seq<char>, T>;

    /// The map from keys to values that the tree stores.
    closed spec fn view(&self) -> Map<Seq<char>, T> {
        Map::new(|k: Seq<char>| self.lookup(k) is Some, |k: Seq<char>| self.lookup(k)->0)
    }
}

impl<T> RadixTree<T> {
    /// The value stored at `key`, found by descending along the first edge that prefixes it.
    spec fn lookup(self, key: Seq<char>) -> Option<T>
        decreases self, self.children@.len() + 1,
    {
        if key.len() == 0 {
            self.value
        } else {
            self.lookup_from(key, 0)
        }
    }

    spec fn lookup_from(self, key: Seq<char>, i: int) -> Option<T>
        decreases self, self.children@.len() - i,
    {
        if i < 0 || i >= self.children@.len() {
            None
        } else if self.children@[i].0@.is_prefix_of(key) {
            self.children@[i].1.lookup(key.skip(self.children@[i].0@.len() as int))
        } else {
            self.lookup_from(key, i + 1)
        }
    }

    /// The entry stored at the node itself, if any.
    spec fn own_entry(self) -> Seq<(Seq<char>, T)> {
        match self.value {
            Some(v) => seq![(Seq::<char>::empty(), v)],
            None => Seq::empty(),
        }
    }

    /// All entries below and at this node, in depth-first order with edges in order.
    spec fn entries_rec(self) -> Seq<(Seq<char>, T)>
        decreases self, self.children@.len() + 1,
    {
        self.own_entry() + self.entries_from(0)
    }

    spec fn entries_from(self, i: int) -> Seq<(Seq<char>, T)>
        decreases self, self.children@.len() - i,
    {
        if i < 0 || i >= self.children@.len() {
            Seq::empty()
        } else {
            prefixed(self.children@[i].0@, self.children@[i].1.entries_rec()) + self.entries_from(i + 1)
        }
    }

    /// Shape of the tree: edges are non-empty, ordered by their (distinct) first character,
    /// and every node below the root holds a value or branches into at least two edges.
    spec fn wf_rec(self) -> bool
        decreases self,
    {
        &&& forall|i: int| 0 <= i < self.children@.len() ==> (#[trigger] self.children@[i]).0@.len() > 0
        &&& forall|i: int, j: int|
            0 <= i < j < self.children@.len() ==> (#[trigger] self.children@[i]).0@[0] < (#[trigger] self.children@[j]).0@[0]
        &&& forall|i: int| 0 <= i < self.children@.len() ==> (#[trigger] self.children@[i]).1.wf_rec()
        &&& forall|i: int|
            0 <= i < self.children@.len() ==> ((#[trigger] self.children@[i]).1.value is Some
                || self.children@[i].1.children@.len() >= 2)
    }

    proof fn lemma_lookup_from_at(self, key: Seq<char>, i: int, j: int)
        requires
            self.wf_rec(),
            0 <= i <= j < self.children@.len(),
            self.children@[j].0@.is_prefix_of(key),
        ensures
            self.lookup_from(key, i) == self.children@[j].1.lookup(key.skip(self.children@[j].0@.len() as int)),
        decreases j - i,
    {
        if i < j {
            let li = self.children@[i].0@;
            let lj = self.children@[j].0@;
            assert(li[0] < lj[0]);
            assert(lj[0] == key[0]);
            assert(!li.is_prefix_of(key)) by {
                if li.is_prefix_of(key) {
                    assert(li[0] == key[0]);
                }
            }
            self.lemma_lookup_from_at(key, i + 1, j);
        }
    }

    proof fn lemma_lookup_from_none(self, key: Seq<char>, i: int)
        requires
            0 <= i,
            forall|j: int| i <= j < self.children@.len() ==> !(#[trigger] self.children@[j]).0@.is_prefix_of(key),
        ensures
            self.lookup_from(key, i) is None,
        decreases self.children@.len() - i,
    {
        if i < self.children@.len() {
            self.lemma_lookup_from_none(key, i + 1);
        }
    }

    proof fn lemma_entries_from_contains(self, i: int, k: Seq<char>, v: T)
        requires
            0 <= i,
        ensures
            self.entries_from(i).contains((k, v)) <==> exists|j: int|
                i <= j < self.children@.len() && (#[trigger] self.children@[j]).0@.is_prefix_of(k)
                    && self.children@[j].1.entries_rec().contains(
                    (k.skip(self.children@[j].0@.len() as int), v),
                ),
        decreases self.children@.len() - i,
    {
        if i < self.children@.len() {
            self.lemma_entries_from_contains(i + 1, k, v);
            let l = self.children@[i].0@;
            let es = self.children@[i].1.entries_rec();
            let block = prefixed(l, es);
            let rest = self.entries_from(i + 1);
            assert(self.entries_from(i) == block + rest);
            if block.contains((k, v)) {
                let n = choose|n: int| 0 <= n < block.len() && block[n] == (k, v);
                assert(l.is_prefix_of(k));
                assert(k.skip(l.len() as int) =~= es[n].0);
                assert(es[n] == (k.skip(l.len() as int), v));
                assert(es.contains((k.skip(l.len() as int), v)));
            }
            if l.is_prefix_of(k) && es.contains((k.skip(l.len() as int), v)) {
                let n = choose|n: int| 0 <= n < es.len() && es[n] == (k.skip(l.len() as int), v);
                assert(l + k.skip(l.len() as int) =~= k);
                assert(block[n] == (k, v));
            }
            if (self.entries_from(i).contains((k, v))) {
                let n = choose|n: int| 0 <= n < self.entries_from(i).len() && self.entries_from(i)[n] == (k, v);
                if n < block.len() {
                    assert(block.contains((k, v)));
                } else {
                    assert(rest[n - block.len()] == (k, v));
                    assert(rest.contains((k, v)));
                }
            }
            if block.contains((k, v)) {
                let n = choose|n: int| 0 <= n < block.len() && block[n] == (k, v);
                assert(self.entries_from(i)[n] == (k, v));
            }
            if rest.contains((k, v)) {
                let n = choose|n: int| 0 <= n < rest.len() && rest[n] == (k, v);
                assert(self.entries_from(i)[block.len() + n] == (k, v));
            }
        }
    }
    proof fn lemma_lookup_entries(self, k: Seq<char>, v: T)
        requires
            self.wf_rec(),
        ensures
            (self.lookup(k) == Some(v)) <==> self.entries_rec().contains((k, v)),
        decreases self,
    {
        let own = self.own_entry();
        let rest = self.entries_from(0);
        lemma_contains_concat(own, rest, (k, v));
        self.lemma_entries_from_contains(0, k, v);
        if k.len() == 0 {
            if rest.contains((k, v)) {
                let j = choose|j: int|
                    0 <= j < self.children@.len() && (#[trigger] self.children@[j]).0@.is_prefix_of(k)
                        && self.children@[j].1.entries_rec().contains(
                        (k.skip(self.children@[j].0@.len() as int), v),
                    );
                assert(self.children@[j].0@.len() > 0);
            }
            assert(k =~= Seq::<char>::empty());
            if own.contains((k, v)) {
                assert(own[0] == (k, v));
            }
            if self.value == Some(v) {
                assert(own[0] == (k, v));
            }
        } else {
            assert(!own.contains((k, v))) by {
                if own.contains((k, v)) {
                    assert(own[0] == (k, v));
                }
            }
            if exists|j: int| 0 <= j < self.children@.len() && (#[trigger] self.children@[j]).0@.is_prefix_of(k) {
                let j = choose|j: int| 0 <= j < self.children@.len() && (#[trigger] self.children@[j]).0@.is_prefix_of(k);
                let lj = self.children@[j].0@;
                let cj = self.children@[j].1;
                self.lemma_lookup_from_at(k, 0, j);
                cj.lemma_lookup_entries(k.skip(lj.len() as int), v);
                assert forall|j2: int|
                    0 <= j2 < self.children@.len() && (#[trigger] self.children@[j2]).0@.is_prefix_of(k) implies j2 == j by {
                    let l2 = self.children@[j2].0@;
                    assert(l2[0] == k[0]);
                    assert(lj[0] == k[0]);
                    if j2 < j {
                        assert(l2[0] < lj[0]);
                    } else if j < j2 {
                        assert(lj[0] < l2[0]);
                    }
                }
            } else {
                self.lemma_lookup_from_none(k, 0);
            }
        }
    }
    proof fn lemma_keys_distinct(self)
        requires
            self.wf_rec(),
        ensures
            keys_of(self.entries_rec()).no_duplicates(),
        decreases self, self.children@.len() + 1,
    {
        let own = self.own_entry();
        let rest = self.entries_from(0);
        self.lemma_keys_from_distinct(0);
        assert forall|x: int, y: int| 0 <= x < own.len() && 0 <= y < rest.len() implies own[x].0 != rest[y].0 by {
            self.lemma_entries_from_contains(0, rest[y].0, rest[y].1);
            assert(rest.contains(rest[y]));
            let j = choose|j: int|
                0 <= j < self.children@.len() && (#[trigger] self.children@[j]).0@.is_prefix_of(rest[y].0)
                    && self.children@[j].1.entries_rec().contains(
                    (rest[y].0.skip(self.children@[j].0@.len() as int), rest[y].1),
                );
            assert(self.children@[j].0@.len() > 0);
        }
        lemma_keys_concat_distinct(own, rest);
    }

    proof fn lemma_keys_from_distinct(self, i: int)
        requires
            self.wf_rec(),
            0 <= i,
        ensures
            keys_of(self.entries_from(i)).no_duplicates(),
        decreases self, self.children@.len() - i,
    {
        if i < self.children@.len() {
            let l = self.children@[i].0@;
            let c = self.children@[i].1;
            let es = c.entries_rec();
            let block = prefixed(l, es);
            let rest = self.entries_from(i + 1);
            c.lemma_keys_distinct();
            self.lemma_keys_from_distinct(i + 1);
            assert forall|x: int, y: int| 0 <= x < block.len() && 0 <= y < block.len() && x != y implies keys_of(block)[x] != keys_of(block)[y] by {
                assert(keys_of(es)[x] != keys_of(es)[y]);
                if keys_of(block)[x] == keys_of(block)[y] {
                    assert(keys_of(block)[x].skip(l.len() as int) =~= keys_of(es)[x]);
                    assert(keys_of(block)[y].skip(l.len() as int) =~= keys_of(es)[y]);
                }
            }
            assert forall|x: int, y: int| 0 <= x < block.len() && 0 <= y < rest.len() implies block[x].0 != rest[y].0 by {
                self.lemma_entries_from_contains(i + 1, rest[y].0, rest[y].1);
                assert(rest.contains(rest[y]));
                let j = choose|j: int|
                    i + 1 <= j < self.children@.len() && (#[trigger] self.children@[j]).0@.is_prefix_of(rest[y].0)
                        && self.children@[j].1.entries_rec().contains(
                        (rest[y].0.skip(self.children@[j].0@.len() as int), rest[y].1),
                    );
                assert(l[0] < self.children@[j].0@[0]);
                assert(block[x].0[0] == l[0]);
                assert(rest[y].0[0] == self.children@[j].0@[0]);
            }
            lemma_keys_concat_distinct(block, rest);
        }
    }

    proof fn lemma_nonempty(self)
        requires
            self.wf_rec(),
            self.value is Some || self.children@.len() > 0,
        ensures
            self.entries_rec().len() > 0,
        decreases self,
    {
        if self.value is None {
            let c = self.children@[0].1;
            c.lemma_nonempty();
            assert(self.entries_from(0).len() >= prefixed(self.children@[0].0@, c.entries_rec()).len());
        }
    }

    /// The view's domain is the set of keys of `entries_rec`, and it has one element per entry.
    proof fn lemma_view_entries(self)
        requires
            self.wf_rec(),
        ensures
            self@.dom() == keys_of(self.entries_rec()).to_set(),
            self@.dom().finite(),
            self@.dom().len() == self.entries_rec().len(),
            forall|n: int| 0 <= n < self.entries_rec().len() ==> self@[#[trigger] self.entries_rec()[n].0] == self.entries_rec()[n].1,
    {
        let es = self.entries_rec();
        let ks = keys_of(es);
        assert forall|k: Seq<char>| self@.dom().contains(k) <==> ks.to_set().contains(k) by {
            if self@.dom().contains(k) {
                let v = self.lookup(k)->0;
                self.lemma_lookup_entries(k, v);
                let n = choose|n: int| 0 <= n < es.len() && es[n] == (k, v);
                assert(ks[n] == k);
            }
            if ks.to_set().contains(k) {
                let n = choose|n: int| 0 <= n < ks.len() && ks[n] == k;
                self.lemma_lookup_entries(k, es[n].1);
                assert(es.contains(es[n]));
            }
        }
        assert(self@.dom() =~= ks.to_set());
        self.lemma_keys_distinct();
        ks.unique_seq_to_set();
        assert forall|n: int| 0 <= n < es.len() implies self@[#[trigger] es[n].0] == es[n].1 by {
            self.lemma_lookup_entries(es[n].0, es[n].1);
            assert(es.contains(es[n]));
        }
    }
}

impl<T> RadixTree<T> {
    proof fn lemma_entries_sorted(self)
        requires
            self.wf_rec(),
        ensures
            keys_sorted(keys_of(self.entries_rec())),
        decreases self, self.children@.len() + 1,
    {
        self.lemma_entries_from_sorted(0);
        let own = self.own_entry();
        let rest = self.entries_from(0);
        assert(keys_sorted(keys_of(own)));
        assert forall|x: int, y: int| 0 <= x < own.len() && 0 <= y < rest.len() implies key_less(#[trigger] own[x].0, #[trigger] rest[y].0) by {
            self.lemma_entries_from_contains(0, rest[y].0, rest[y].1);
            assert(rest.contains(rest[y]));
            let j = choose|j: int|
                0 <= j < self.children@.len() && (#[trigger] self.children@[j]).0@.is_prefix_of(rest[y].0)
                    && self.children@[j].1.entries_rec().contains((rest[y].0.skip(self.children@[j].0@.len() as int), rest[y].1));
            assert(self.children@[j].0@.len() > 0);
            lemma_key_less_first(own[x].0, rest[y].0);
        }
        lemma_sorted_concat(own, rest);
    }

    proof fn lemma_entries_from_sorted(self, i: int)
        requires
            self.wf_rec(),
            0 <= i,
        ensures
            keys_sorted(keys_of(self.entries_from(i))),
        decreases self, self.children@.len() - i,
    {
        if i < self.children@.len() {
            let l = self.children@[i].0@;
            let c = self.children@[i].1;
            let block = prefixed(l, c.entries_rec());
            let rest = self.entries_from(i + 1);
            c.lemma_entries_sorted();
            lemma_sorted_prefixed(l, c.entries_rec());
            self.lemma_entries_from_sorted(i + 1);
            assert forall|x: int, y: int| 0 <= x < block.len() && 0 <= y < rest.len() implies key_less(#[trigger] block[x].0, #[trigger] rest[y].0) by {
                self.lemma_entries_from_contains(i + 1, rest[y].0, rest[y].1);
                assert(rest.contains(rest[y]));
                let j = choose|j: int|
                    i + 1 <= j < self.children@.len() && (#[trigger] self.children@[j]).0@.is_prefix_of(rest[y].0)
                        && self.children@[j].1.entries_rec().contains((rest[y].0.skip(self.children@[j].0@.len() as int), rest[y].1));
                assert(self.children@[j].0@.len() > 0);
                assert(l.len() > 0);
                assert(block[x].0[0] == l[0]);
                assert(rest[y].0[0] == self.children@[j].0@[0]);
                lemma_key_less_first(block[x].0, rest[y].0);
            }
            lemma_sorted_concat(block, rest);
        } else {
            assert(keys_of(self.entries_from(i)) =~= Seq::<Seq<char>>::empty());
        }
    }

    /// The tree is well formed (edges are non-empty and start with distinct characters, and
    /// every node below the root holds a value or branches into at least two edges) and its
    /// size and key lengths fit in a `usize`.
    pub closed spec fn wf(self) -> bool {
        &&& self.wf_rec()
        &&& self@.dom().len() <= usize::MAX
        &&& forall|k: Seq<char>| #[trigger] self@.dom().contains(k) ==> k.len() <= usize::MAX
    }

    /// Every entry of the tree, in depth-first order with edges taken in order of their first character.
    pub closed spec fn entries(self) -> Seq<(Seq<char>, T)> {
        self.entries_rec()
    }

    /// Walking the tree visits each stored key exactly once, with its value: the keys of
    /// `entries` are distinct, they are the keys of the view, and each comes with the value the
    /// view holds for it.
    pub proof fn lemma_entries_match_view(self)
        requires
            self.wf(),
        ensures
            keys_of(self.entries()).no_duplicates(),
            self@.dom() == keys_of(self.entries()).to_set(),
            self@.dom().finite(),
            self@.dom().len() == self.entries().len(),
            forall|n: int| 0 <= n < self.entries().len() ==> self@[#[trigger] self.entries()[n].0] == self.entries()[n].1,
    {
        self.lemma_keys_distinct();
        self.lemma_view_entries();
    }

    /// A fuzzy search with distance 0 finds the query's own entry and nothing else.
    pub proof fn law_fuzzy_zero_is_exact(self, q: Seq<char>)
        requires
            self.wf(),
        ensures
            fuzzy_matches(self.entries(), q, 0) == if self@.contains_key(q) {
                seq![(q, self@[q], 0nat)]
            } else {
                Seq::<(Seq<char>, T, nat)>::empty()
            },
    {
        let es = self.entries();
        self.lemma_entries_match_view();
        lemma_fuzzy_matches_zero(es, q);
        if self@.contains_key(q) {
            assert(keys_of(es).to_set().contains(q));
            let n = choose|n: int| 0 <= n < keys_of(es).len() && keys_of(es)[n] == q;
            assert(es[n].0 == q);
        } else {
            assert(!keys_of(es).contains(q)) by {
                if keys_of(es).contains(q) {
                    assert(keys_of(es).to_set().contains(q));
                }
            }
        }
    }

    /// Walking the tree visits the keys in increasing dictionary order.
    pub proof fn law_entries_sorted(self)
        requires
            self.wf(),
        ensures
            keys_sorted(keys_of(self.entries())),
    {
        self.lemma_entries_sorted();
    }

    /// The entries under a prefix are exactly the stored entries whose key starts with it:
    /// each such key once, with its value, and nothing else.
    pub proof fn law_prefix_entries(self, p: Seq<char>)
        requires
            self.wf(),
        ensures
            keys_of(self.entries().filter(starts_with(p))).no_duplicates(),
            forall|e: (Seq<char>, T)| #[trigger] self.entries().filter(starts_with(p)).contains(e)
                <==> (self@.contains_key(e.0) && self@[e.0] == e.1 && p.is_prefix_of(e.0)),
    {
        let es = self.entries();
        let fs = es.filter(starts_with(p));
        self.lemma_entries_match_view();
        assert forall|e: (Seq<char>, T)| #[trigger] fs.contains(e) <==> (self@.contains_key(e.0) && self@[e.0] == e.1 && p.is_prefix_of(e.0)) by {
            if fs.contains(e) {
                es.lemma_filter_contains_rev(starts_with(p), e);
                let n = choose|n: int| 0 <= n < es.len() && es[n] == e;
                assert(keys_of(es)[n] == e.0);
                assert(keys_of(es).to_set().contains(e.0));
                let m = choose|m: int| 0 <= m < fs.len() && fs[m] == e;
                es.lemma_filter_pred(starts_with(p), m);
            }
            if self@.contains_key(e.0) && self@[e.0] == e.1 && p.is_prefix_of(e.0) {
                assert(keys_of(es).to_set().contains(e.0));
                let n = choose|n: int| 0 <= n < keys_of(es).len() && keys_of(es)[n] == e.0;
                assert(es[n] == e);
                es.lemma_filter_contains(starts_with(p), n);
            }
        }
        lemma_filter_keys_distinct(es, p);
    }

    /// Removing a key that an insert has just added to a tree that lacked it returns the
    /// inserted value and leaves the tree holding what it held before the insert: over the
    /// views that `insert` and `remove` state their effect in, `remove` hands back `Some(v)`
    /// and the map, its keys and its size are those from before.
    pub proof fn law_remove_undoes_insert(before: Map<Seq<char>, T>, k: Seq<char>, v: T)
        requires
            before.dom().finite(),
            !before.contains_key(k),
        ensures
            ({
                let mid = before.insert(k, v);
                &&& (if mid.dom().contains(k) { Some(mid[k]) } else { None }) == Some(v)
                &&& mid.remove(k) == before
                &&& mid.remove(k).dom().len() == before.dom().len()
            }),
    {
        assert(before.insert(k, v).remove(k) =~= before);
    }

    /// The entries under the empty prefix are all the entries.
    pub proof fn law_empty_prefix_is_everything(self)
        ensures
            self.entries().filter(starts_with(Seq::<char>::empty())) == self.entries(),
    {
        let es = self.entries();
        assert forall|n: int| 0 <= n < es.len() implies Seq::<char>::empty().is_prefix_of(#[trigger] es[n].0) by {
            assert(es[n].0.subrange(0, 0) =~= Seq::<char>::empty());
        }
        lemma_filter_all(es, Seq::<char>::empty());
    }

    /// Creates a new empty radix tree.
    pub fn new() -> (r: Self)
        ensures
            r.wf(),
            r@ == Map::<Seq<char>, T>::empty(),
    {
        let r = RadixTree { value: None, children: Vec::new() };
        assert(r@ =~= Map::<Seq<char>, T>::empty());
        r
    }

    /// Returns true if the tree contains no entries.
    pub fn is_empty(&self) -> (r: bool)
        requires
            self.wf(),
        ensures
            r == (self@.dom().len() == 0),
    {
        proof {
            self.lemma_view_entries();
            if self.children@.len() > 0 {
                self.children@[0].1.lemma_nonempty();
                assert(self.entries_from(0).len() >= prefixed(self.children@[0].0@, self.children@[0].1.entries_rec()).len());
            }
        }
        self.value.is_none() && self.children.len() == 0
    }

    fn count(&self) -> (r: usize)
        requires
            self.wf_rec(),
            self.entries_rec().len() <= usize::MAX,
        ensures
            r == self.entries_rec().len(),
        decreases self,
    {
        let mut n: usize = if self.value.is_some() { 1 } else { 0 };
        let mut i: usize = 0;
        while i < self.children.len()
            invariant
                self.wf_rec(),
                self.entries_rec().len() <= usize::MAX,
                i <= self.children@.len(),
                n + self.entries_from(i as int).len() == self.entries_rec().len(),
            decreases self.children@.len() - i,
        {
            let child = &self.children[i].1;
            assert(self.entries_from(i as int) == prefixed(self.children@[i as int].0@, child.entries_rec())
                + self.entries_from(i + 1));
            let c = child.count();
            n = n + c;
            i = i + 1;
        }
        n
    }

    /// Returns the number of entries in the tree.
    pub fn len(&self) -> (r: usize)
        requires
            self.wf(),
        ensures
            r == self@.dom().len(),
    {
        proof {
            self.lemma_view_entries();
        }
        self.count()
    }

    fn get_at(&self, key: &Vec<char>, pos: usize) -> (r: Option<&T>)
        requires
            pos <= key@.len(),
        ensures
            r is None <==> self.lookup(key@.skip(pos as int)) is None,
            r matches Some(x) ==> self.lookup(key@.skip(pos as int)) == Some(*x),
        decreases self,
    {
        let ghost k = key@.skip(pos as int);
        if pos == key.len() {
            assert(k.len() == 0);
            return self.value.as_ref();
        }
        let mut i: usize = 0;
        while i < self.children.len()
            invariant
                pos < key@.len(),
                k == key@.skip(pos as int),
                i <= self.children@.len(),
                self.lookup(k) == self.lookup_from(k, i as int),
            decreases self.children@.len() - i,
        {
            let edge = chars_of(self.children[i].0.as_str());
            let common = common_prefix_chars(&edge, key, pos);
            let ghost l = self.children@[i as int].0@;
            if common == edge.len() {
                assert(l.is_prefix_of(k)) by {
                    assert(l =~= k.subrange(0, l.len() as int));
                }
                assert(k.skip(l.len() as int) =~= key@.skip(pos + common));
                assert(self.lookup_from(k, i as int) == self.children@[i as int].1.lookup(k.skip(l.len() as int)));
                if common == key.len() - pos {
                    assert(k.skip(l.len() as int).len() == 0);
                    return self.children[i].1.value.as_ref();
                }
                return self.children[i].1.get_at(key, pos + common);
            }
            assert(!l.is_prefix_of(k)) by {
                if l.is_prefix_of(k) {
                    assert(l[common as int] == k[common as int]);
                }
            }
            i = i + 1;
        }
        None
    }

    /// Gets a reference to the value stored at `key`.
    pub fn get(&self, key: &str) -> (r: Option<&T>)
        ensures
            r is None <==> !self@.dom().contains(key@),
            r matches Some(x) ==> self@.dom().contains(key@) && *x == self@[key@],
    {
        let k = chars_of(key);
        assert(k@.skip(0) =~= k@);
        self.get_at(&k, 0)
    }

    /// Returns true if the tree contains `key`.
    pub fn contains_key(&self, key: &str) -> (r: bool)
        ensures
            r == self@.dom().contains(key@),
    {
        self.get(key).is_some()
    }
    /// Under `wf_rec`, the lookup of a non-empty key goes through the unique edge that prefixes it.
    proof fn lemma_lookup_nonempty(self, k: Seq<char>)
        requires
            self.wf_rec(),
            k.len() > 0,
        ensures
            (exists|j: int| 0 <= j < self.children@.len() && (#[trigger] self.children@[j]).0@.is_prefix_of(k))
                ==> {
                let j = choose|j: int| 0 <= j < self.children@.len() && (#[trigger] self.children@[j]).0@.is_prefix_of(k);
                self.lookup(k) == self.children@[j].1.lookup(k.skip(self.children@[j].0@.len() as int))
            },
            !(exists|j: int| 0 <= j < self.children@.len() && (#[trigger] self.children@[j]).0@.is_prefix_of(k))
                ==> self.lookup(k) is None,
    {
        if exists|j: int| 0 <= j < self.children@.len() && (#[trigger] self.children@[j]).0@.is_prefix_of(k) {
            let j = choose|j: int| 0 <= j < self.children@.len() && (#[trigger] self.children@[j]).0@.is_prefix_of(k);
            self.lemma_lookup_from_at(k, 0, j);
        } else {
            self.lemma_lookup_from_none(k, 0);
        }
    }

    /// Two edges of a well-formed node that both prefix a key are the same edge.
    proof fn lemma_unique_edge(self, k: Seq<char>, i: int, j: int)
        requires
            self.wf_rec(),
            0 <= i < self.children@.len(),
            0 <= j < self.children@.len(),
            self.children@[i].0@.is_prefix_of(k),
            self.children@[j].0@.is_prefix_of(k),
        ensures
            i == j,
    {
        assert(self.children@[i].0@[0] == k[0]);
        assert(self.children@[j].0@[0] == k[0]);
        if i < j {
            assert(self.children@[i].0@[0] < self.children@[j].0@[0]);
        } else if j < i {
            assert(self.children@[j].0@[0] < self.children@[i].0@[0]);
        }
    }

    /// `f` is `self` with the value at `k` replaced by `m`, keeping the tree's shape.
    spec fn mut_post(self, f: Self, k: Seq<char>, m: T) -> bool {
        &&& f.wf_rec()
        &&& (f.value is Some) == (self.value is Some)
        &&& f.children@.len() == self.children@.len()
        &&& forall|j: int| 0 <= j < self.children@.len() ==> (#[trigger] f.children@[j]).0 == self.children@[j].0
        &&& forall|q: Seq<char>| #[trigger] f.lookup(q) == if q == k { Some(m) } else { self.lookup(q) }
    }

    proof fn lemma_lookup_from_same_children(self, other: Self, q: Seq<char>, i: int)
        requires
            self.children == other.children,
        ensures
            self.lookup_from(q, i) == other.lookup_from(q, i),
        decreases self.children@.len() - i,
    {
        if 0 <= i < self.children@.len() {
            self.lemma_lookup_from_same_children(other, q, i + 1);
        }
    }

    proof fn lemma_mut_post_view(self, k: Seq<char>)
        requires
            self.wf(),
            self@.dom().contains(k),
        ensures
            forall|f: Self, m: T| #[trigger] self.mut_post(f, k, m) ==> f.wf() && f@ == self@.insert(k, m),
    {
        assert forall|f: Self, m: T| #[trigger] self.mut_post(f, k, m) implies f.wf() && f@ == self@.insert(k, m) by {
            assert(f@ =~= self@.insert(k, m));
            assert(f@.dom() =~= self@.dom());
        }
    }

    proof fn lemma_mut_post_root(self)
        requires
            self.wf_rec(),
            self.value is Some,
        ensures
            forall|f: Self, m: T|
                f.value == Some(m) && f.children == self.children ==> #[trigger] self.mut_post(f, Seq::<char>::empty(), m),
    {
        assert forall|f: Self, m: T|
            f.value == Some(m) && f.children == self.children implies #[trigger] self.mut_post(f, Seq::<char>::empty(), m) by {
            assert forall|q: Seq<char>| #[trigger] f.lookup(q) == if q == Seq::<char>::empty() { Some(m) } else { self.lookup(q) } by {
                if q.len() == 0 {
                    assert(q =~= Seq::<char>::empty());
                } else {
                    f.lemma_lookup_from_same_children(self, q, 0);
                }
            }
        }
    }

    proof fn lemma_mut_post_child(self, i: int, k0: Seq<char>)
        requires
            self.wf_rec(),
            0 <= i < self.children@.len(),
            self.children@[i].0@.is_prefix_of(k0),
        ensures
            forall|f: Self, m: T|
                f.value == self.value && f.children@.len() == self.children@.len()
                && (forall|j: int| 0 <= j < self.children@.len() && j != i ==> f.children@[j] == self.children@[j])
                && f.children@[i].0 == self.children@[i].0
                && self.children@[i].1.mut_post(f.children@[i].1, k0.skip(self.children@[i].0@.len() as int), m)
                ==> #[trigger] self.mut_post(f, k0, m),
    {
        let l = self.children@[i].0@;
        let rest = k0.skip(l.len() as int);
        assert forall|f: Self, m: T|
            f.value == self.value && f.children@.len() == self.children@.len()
            && (forall|j: int| 0 <= j < self.children@.len() && j != i ==> f.children@[j] == self.children@[j])
            && f.children@[i].0 == self.children@[i].0
            && self.children@[i].1.mut_post(f.children@[i].1, rest, m)
            implies #[trigger] self.mut_post(f, k0, m) by {
            assert(f.wf_rec()) by {
                assert forall|j: int| 0 <= j < f.children@.len() implies (#[trigger] f.children@[j]).1.wf_rec() by {
                    if j != i {
                        assert(f.children@[j] == self.children@[j]);
                    }
                }
                assert forall|j: int| 0 <= j < f.children@.len() implies ((#[trigger] f.children@[j]).1.value is Some
                    || f.children@[j].1.children@.len() > 0) by {
                    if j != i {
                        assert(f.children@[j] == self.children@[j]);
                    }
                }
                assert forall|a: int, b: int| 0 <= a < b < f.children@.len() implies (#[trigger] f.children@[a]).0@[0] < (#[trigger] f.children@[b]).0@[0] by {
                    assert(f.children@[a].0 == self.children@[a].0);
                    assert(f.children@[b].0 == self.children@[b].0);
                }
                assert forall|a: int| 0 <= a < f.children@.len() implies (#[trigger] f.children@[a]).0@.len() > 0 by {
                    assert(f.children@[a].0 == self.children@[a].0);
                }
            }
            assert forall|j: int| 0 <= j < self.children@.len() implies (#[trigger] f.children@[j]).0 == self.children@[j].0 by {
                if j != i {
                    assert(f.children@[j] == self.children@[j]);
                }
            }
            assert forall|k: Seq<char>| #[trigger] f.lookup(k) == if k == k0 { Some(m) } else { self.lookup(k) } by {
                if k.len() > 0 {
                    f.lemma_lookup_nonempty(k);
                    self.lemma_lookup_nonempty(k);
                    if l.is_prefix_of(k) {
                        assert(f.children@[i].0@.is_prefix_of(k));
                        if exists|j: int| 0 <= j < f.children@.len() && (#[trigger] f.children@[j]).0@.is_prefix_of(k) {
                            let j = choose|j: int| 0 <= j < f.children@.len() && (#[trigger] f.children@[j]).0@.is_prefix_of(k);
                            f.lemma_unique_edge(k, i, j);
                        }
                        if exists|j: int| 0 <= j < self.children@.len() && (#[trigger] self.children@[j]).0@.is_prefix_of(k) {
                            let j = choose|j: int| 0 <= j < self.children@.len() && (#[trigger] self.children@[j]).0@.is_prefix_of(k);
                            self.lemma_unique_edge(k, i, j);
                        }
                        let kr = k.skip(l.len() as int);
                        assert(f.children@[i].1.lookup(kr) == if kr == rest { Some(m) } else { self.children@[i].1.lookup(kr) });
                        if k == k0 {
                            assert(kr == rest);
                        } else {
                            assert(kr != rest) by {
                                if kr == rest {
                                    assert(k =~= l + kr);
                                    assert(k0 =~= l + rest);
                                }
                            }
                        }
                    } else {
                        assert(k != k0);
                        if exists|j: int| 0 <= j < f.children@.len() && (#[trigger] f.children@[j]).0@.is_prefix_of(k) {
                            let j = choose|j: int| 0 <= j < f.children@.len() && (#[trigger] f.children@[j]).0@.is_prefix_of(k);
                            assert(j != i);
                            assert(f.children@[j] == self.children@[j]);
                            assert(self.children@[j].0@.is_prefix_of(k));
                            if exists|j2: int| 0 <= j2 < self.children@.len() && (#[trigger] self.children@[j2]).0@.is_prefix_of(k) {
                                let j2 = choose|j2: int| 0 <= j2 < self.children@.len() && (#[trigger] self.children@[j2]).0@.is_prefix_of(k);
                                self.lemma_unique_edge(k, j, j2);
                            }
                        } else {
                            assert forall|j: int| 0 <= j < self.children@.len() implies !(#[trigger] self.children@[j]).0@.is_prefix_of(k) by {
                                if j != i {
                                    assert(f.children@[j] == self.children@[j]);
                                    assert(!f.children@[j].0@.is_prefix_of(k));
                                }
                            }
                        }
                    }
                } else {
                    assert(k != k0);
                }
            }
        }
    }

    fn get_mut_at(&mut self, key: &Vec<char>, pos: usize) -> (r: &mut T)
        requires
            old(self).wf_rec(),
            pos <= key@.len(),
            old(self).lookup(key@.skip(pos as int)) is Some,
        ensures
            old(self).lookup(key@.skip(pos as int)) == Some(*r),
            old(self).mut_post(*final(self), key@.skip(pos as int), *final(r)),
        decreases *old(self),
    {
        let ghost k0 = key@.skip(pos as int);
        let klen = key.len();
        if pos == klen {
            assert(k0 =~= Seq::<char>::empty());
            proof {
                self.lemma_mut_post_root();
            }
            return self.value.as_mut().unwrap();
        }
        proof {
            self.lemma_lookup_nonempty(k0);
        }
        let mut i: usize = 0;
        while i < self.children.len()
            invariant
                *self == *old(self),
                self.wf_rec(),
                pos < key@.len(),
                k0 == key@.skip(pos as int),
                i <= self.children@.len(),
                self.lookup(k0) is Some,
                klen == key@.len(),
                self.lookup(k0) == self.lookup_from(k0, i as int),
            decreases self.children@.len() - i,
        {
            let edge = chars_of(self.children[i].0.as_str());
            let common = common_prefix_chars(&edge, key, pos);
            let ghost l = self.children@[i as int].0@;
            if common == edge.len() {
                assert(l.is_prefix_of(k0)) by {
                    assert(l =~= k0.subrange(0, l.len() as int));
                }
                assert(k0.skip(l.len() as int) =~= key@.skip(pos + common));
                assert(self.lookup_from(k0, i as int) == self.children@[i as int].1.lookup(k0.skip(l.len() as int)));
                proof {
                    self.lemma_mut_post_child(i as int, k0);
                }
                let entry = &mut self.children[i];
                return entry.1.get_mut_at(key, pos + common);
            }
            assert(!l.is_prefix_of(k0)) by {
                if l.is_prefix_of(k0) {
                    assert(l[common as int] == k0[common as int]);
                }
            }
            i = i + 1;
        }
        proof {
            assert(self.lookup_from(k0, i as int) is None);
        }
        unreached()
    }

    /// Gets a mutable reference to the value stored at `key`.
    pub fn get_mut(&mut self, key: &str) -> (r: Option<&mut T>)
        requires
            old(self).wf(),
        ensures
            r is None <==> !old(self)@.dom().contains(key@),
            r is None ==> *final(self) == *old(self),
            r is Some ==> old(self)@.dom().contains(key@) && *r.unwrap() == old(self)@[key@],
            r is Some ==> final(self).wf(),
            r is Some ==> final(self)@ == old(self)@.insert(key@, *final(r.unwrap())),
    {
        let k = chars_of(key);
        assert(k@.skip(0) =~= k@);
        if self.get_at(&k, 0).is_none() {
            return None;
        }
        proof {
            old(self).lemma_mut_post_view(key@);
        }
        let r = self.get_mut_at(&k, 0);
        Some(r)
    }
    /// What a node's lookup of `q` finds through the edge `l` leading to `c`.
    spec fn edge_lookup(l: Seq<char>, c: Self, q: Seq<char>) -> Option<T> {
        if l.is_prefix_of(q) {
            c.lookup(q.skip(l.len() as int))
        } else {
            None
        }
    }

    /// Under `wf_rec`, a non-empty key is looked up through the edge that shares its first character.
    proof fn lemma_lookup_first(self, q: Seq<char>, j: int)
        requires
            self.wf_rec(),
            q.len() > 0,
            0 <= j < self.children@.len(),
            self.children@[j].0@[0] == q[0],
        ensures
            self.lookup(q) == Self::edge_lookup(self.children@[j].0@, self.children@[j].1, q),
    {
        self.lemma_lookup_nonempty(q);
        if exists|j2: int| 0 <= j2 < self.children@.len() && (#[trigger] self.children@[j2]).0@.is_prefix_of(q) {
            let j2 = choose|j2: int| 0 <= j2 < self.children@.len() && (#[trigger] self.children@[j2]).0@.is_prefix_of(q);
            assert(self.children@[j2].0@[0] == q[0]);
            if j2 < j {
                assert(self.children@[j2].0@[0] < self.children@[j].0@[0]);
            } else if j < j2 {
                assert(self.children@[j].0@[0] < self.children@[j2].0@[0]);
            }
        }
    }

    /// Under `wf_rec`, a non-empty key whose first character starts no edge is absent.
    proof fn lemma_lookup_no_first(self, q: Seq<char>)
        requires
            self.wf_rec(),
            q.len() > 0,
            forall|j: int| 0 <= j < self.children@.len() ==> (#[trigger] self.children@[j]).0@[0] != q[0],
        ensures
            self.lookup(q) is None,
    {
        self.lemma_lookup_nonempty(q);
        if exists|j2: int| 0 <= j2 < self.children@.len() && (#[trigger] self.children@[j2]).0@.is_prefix_of(q) {
            let j2 = choose|j2: int| 0 <= j2 < self.children@.len() && (#[trigger] self.children@[j2]).0@.is_prefix_of(q);
            assert(self.children@[j2].0@[0] == q[0]);
        }
    }

    /// A key with a first character other than that of the replaced edge is looked up as before.
    proof fn lemma_lookup_other_update(self, new: Self, i: int, q: Seq<char>)
        requires
            self.wf_rec(),
            new.wf_rec(),
            0 <= i < self.children@.len(),
            new.children@ == self.children@.update(i, new.children@[i]),
            new.children@[i].0@[0] == self.children@[i].0@[0],
            q.len() > 0,
            q[0] != self.children@[i].0@[0],
        ensures
            new.lookup(q) == self.lookup(q),
    {
        if exists|j: int| 0 <= j < self.children@.len() && (#[trigger] self.children@[j]).0@[0] == q[0] {
            let j = choose|j: int| 0 <= j < self.children@.len() && (#[trigger] self.children@[j]).0@[0] == q[0];
            assert(j != i);
            assert(new.children@[j] == self.children@[j]);
            self.lemma_lookup_first(q, j);
            new.lemma_lookup_first(q, j);
        } else {
            self.lemma_lookup_no_first(q);
            assert forall|j: int| 0 <= j < new.children@.len() implies (#[trigger] new.children@[j]).0@[0] != q[0] by {
                if j != i {
                    assert(new.children@[j] == self.children@[j]);
                }
            }
            new.lemma_lookup_no_first(q);
        }
    }

    /// A key with a first character other than that of an added edge is looked up as before.
    proof fn lemma_lookup_other_insert(self, new: Self, p: int, q: Seq<char>)
        requires
            self.wf_rec(),
            new.wf_rec(),
            0 <= p <= self.children@.len(),
            new.children@ == self.children@.insert(p, new.children@[p]),
            q.len() > 0,
            q[0] != new.children@[p].0@[0],
        ensures
            new.lookup(q) == self.lookup(q),
    {
        if exists|j: int| 0 <= j < self.children@.len() && (#[trigger] self.children@[j]).0@[0] == q[0] {
            let j = choose|j: int| 0 <= j < self.children@.len() && (#[trigger] self.children@[j]).0@[0] == q[0];
            let j2 = if j < p { j } else { j + 1 };
            assert(new.children@[j2] == self.children@[j]);
            self.lemma_lookup_first(q, j);
            new.lemma_lookup_first(q, j2);
        } else {
            self.lemma_lookup_no_first(q);
            assert forall|j: int| 0 <= j < new.children@.len() implies (#[trigger] new.children@[j]).0@[0] != q[0] by {
                if j < p {
                    assert(new.children@[j] == self.children@[j]);
                } else if j > p {
                    assert(new.children@[j] == self.children@[j - 1]);
                }
            }
            new.lemma_lookup_no_first(q);
        }
    }
    /// Replacing edge `i` by one with the same first character keeps the node well formed.
    proof fn lemma_update_wf(self, new: Self, i: int)
        requires
            self.wf_rec(),
            0 <= i < self.children@.len(),
            new.children@ == self.children@.update(i, new.children@[i]),
            new.children@[i].0@.len() > 0,
            new.children@[i].0@[0] == self.children@[i].0@[0],
            new.children@[i].1.wf_rec(),
            new.children@[i].1.value is Some || new.children@[i].1.children@.len() >= 2,
        ensures
            new.wf_rec(),
    {
        assert forall|a: int, b: int| 0 <= a < b < new.children@.len() implies (#[trigger] new.children@[a]).0@[0] < (#[trigger] new.children@[b]).0@[0] by {
            assert(self.children@[a].0@[0] < self.children@[b].0@[0]);
        }
    }

    /// Replacing edge `i` changes exactly the lookups that go through it, as `edge_lookup` says.
    proof fn lemma_update_lookup(self, new: Self, i: int, kk: Seq<char>, v: Option<T>)
        requires
            self.wf_rec(),
            new.wf_rec(),
            0 <= i < self.children@.len(),
            new.value == self.value,
            new.children@ == self.children@.update(i, new.children@[i]),
            new.children@[i].0@[0] == self.children@[i].0@[0],
            kk.len() > 0,
            kk[0] == self.children@[i].0@[0],
            forall|q: Seq<char>| q.len() > 0 && q[0] == kk[0] ==> #[trigger] Self::edge_lookup(new.children@[i].0@, new.children@[i].1, q)
                == if q == kk { v } else { Self::edge_lookup(self.children@[i].0@, self.children@[i].1, q) },
        ensures
            forall|q: Seq<char>| #[trigger] new.lookup(q) == if q == kk { v } else { self.lookup(q) },
    {
        assert forall|q: Seq<char>| #[trigger] new.lookup(q) == if q == kk { v } else { self.lookup(q) } by {
            if q.len() == 0 {
                assert(q != kk);
            } else if q[0] != kk[0] {
                assert(q != kk);
                self.lemma_lookup_other_update(new, i, q);
            } else {
                self.lemma_lookup_first(q, i);
                new.lemma_lookup_first(q, i);
                assert(Self::edge_lookup(new.children@[i].0@, new.children@[i].1, q)
                == if q == kk { v } else { Self::edge_lookup(self.children@[i].0@, self.children@[i].1, q) });
            }
        }
    }

    /// A node with one value and no edges.
    proof fn lemma_leaf_lookup(self, q: Seq<char>)
        requires
            self.children@.len() == 0,
        ensures
            self.lookup(q) == if q.len() == 0 { self.value } else { None },
    {
    }

    fn find_edge(&self, key: &Vec<char>, pos: usize) -> (r: (usize, usize, Vec<char>))
        requires
            self.wf_rec(),
            pos < key@.len(),
        ensures
            r.0 <= self.children@.len(),
            r.0 == self.children@.len() ==> forall|j: int|
                0 <= j < self.children@.len() ==> (#[trigger] self.children@[j]).0@[0] != key@[pos as int],
            r.0 < self.children@.len() ==> {
                let l = self.children@[r.0 as int].0@;
                &&& r.2@ == l
                &&& l[0] == key@[pos as int]
                &&& 0 < r.1 <= l.len()
                &&& pos + r.1 <= key@.len()
                &&& l.take(r.1 as int) == key@.subrange(pos as int, pos + r.1)
                &&& (r.1 < l.len() && pos + r.1 < key@.len() ==> l[r.1 as int] != key@[pos + r.1])
            },
    {
        let mut i: usize = 0;
        while i < self.children.len()
            invariant
                self.wf_rec(),
                pos < key@.len(),
                i <= self.children@.len(),
                forall|j: int| 0 <= j < i ==> (#[trigger] self.children@[j]).0@[0] != key@[pos as int],
            decreases self.children@.len() - i,
        {
            let edge = chars_of(self.children[i].0.as_str());
            let common = common_prefix_chars(&edge, key, pos);
            if common > 0 {
                assert(edge@.take(common as int)[0] == key@.subrange(pos as int, pos + common)[0]);
                return (i, common, edge);
            }
            assert(self.children@[i as int].0@.len() > 0);
            i = i + 1;
        }
        (i, 0, Vec::new())
    }

    fn insert_at(&mut self, key_str: &str, key: &Vec<char>, pos: usize, value: T) -> (r: Option<T>)
        requires
            old(self).wf_rec(),
            key_str@ == key@,
            pos <= key@.len(),
        ensures
            final(self).wf_rec(),
            final(self).value is Some || final(self).children@.len() > 0,
            old(self).value is Some ==> final(self).value is Some,
            final(self).children@.len() >= old(self).children@.len(),
            r == old(self).lookup(key@.skip(pos as int)),
            forall|q: Seq<char>| #[trigger] final(self).lookup(q) == if q == key@.skip(pos as int) {
                Some(value)
            } else {
                old(self).lookup(q)
            },
        decreases *old(self),
    {
        let ghost kk = key@.skip(pos as int);
        let ghost old_self = *self;
        let klen = key.len();
        if pos == klen {
            let prev = self.value.take();
            self.value = Some(value);
            proof {
                assert forall|q: Seq<char>| #[trigger] self.lookup(q) == if q == kk { Some(value) } else { old_self.lookup(q) } by {
                    if q.len() == 0 {
                        assert(q =~= kk);
                    } else {
                        self.lemma_lookup_from_same_children(old_self, q, 0);
                        assert(q != kk);
                    }
                }
            }
            return prev;
        }
        let (i, common, edge) = self.find_edge(key, pos);
        let ghost c0 = key@[pos as int];
        assert(kk[0] == c0);
        if i == self.children.len() {
            let mut p: usize = 0;
            while p < self.children.len() && self.children[p].0.as_str().get_char(0) < key[pos]
                invariant
                    *self == old_self,
                    self.wf_rec(),
                    pos < key@.len(),
                    p <= self.children@.len(),
                    forall|j: int| 0 <= j < p ==> (#[trigger] self.children@[j]).0@[0] < key@[pos as int],
                decreases self.children@.len() - p,
            {
                p = p + 1;
            }
            let label = String::from_str(key_str.substring_char(pos, klen));
            let leaf = RadixTree { value: Some(value), children: Vec::new() };
            let ghost leaf_g = leaf;
            self.children.insert(p, (label, leaf));
            proof {
                assert(label@ =~= kk);
                let new = *self;
                assert(new.children@[p as int] == (label, leaf_g));
                assert forall|a: int, b: int| 0 <= a < b < new.children@.len() implies (#[trigger] new.children@[a]).0@[0] < (#[trigger] new.children@[b]).0@[0] by {
                    if b < p {
                        assert(old_self.children@[a].0@[0] < old_self.children@[b].0@[0]);
                    } else if b == p {
                    } else if a < p {
                        assert(old_self.children@[b - 1].0@[0] != c0);
                    } else if a == p {
                        assert(old_self.children@[b - 1].0@[0] != c0);
                        assert(!(old_self.children@[b - 1].0@[0] < c0) || b - 1 < p);
                        if p < old_self.children@.len() {
                            assert(!(old_self.children@[p as int].0@[0] < c0));
                            if b - 1 > p {
                                assert(old_self.children@[p as int].0@[0] < old_self.children@[b - 1].0@[0]);
                            }
                        }
                    } else {
                        assert(old_self.children@[a - 1].0@[0] < old_self.children@[b - 1].0@[0]);
                    }
                }
                assert forall|j: int| 0 <= j < new.children@.len() implies (#[trigger] new.children@[j]).1.wf_rec()
                    && (new.children@[j].1.value is Some || new.children@[j].1.children@.len() > 0)
                    && new.children@[j].0@.len() > 0 by {
                    if j < p {
                        assert(new.children@[j] == old_self.children@[j]);
                    } else if j > p {
                        assert(new.children@[j] == old_self.children@[j - 1]);
                    }
                }
                assert(new.wf_rec());
                assert forall|q: Seq<char>| #[trigger] new.lookup(q) == if q == kk { Some(value) } else { old_self.lookup(q) } by {
                    if q.len() == 0 {
                        assert(q != kk);
                        new.lemma_lookup_from_same_children(new, q, 0);
                    } else if q[0] != c0 {
                        assert(q != kk);
                        old_self.lemma_lookup_other_insert(new, p as int, q);
                    } else {
                        new.lemma_lookup_first(q, p as int);
                        old_self.lemma_lookup_no_first(q);
                        leaf_g.lemma_leaf_lookup(q.skip(kk.len() as int));
                        if kk.is_prefix_of(q) && q.skip(kk.len() as int).len() == 0 {
                            assert(q =~= kk);
                        }
                    }
                }
                old_self.lemma_lookup_no_first(kk);
            }
            return None;
        }
        let ghost l = old_self.children@[i as int].0@;
        let ghost c = old_self.children@[i as int].1;
        proof {
            old_self.lemma_lookup_first(kk, i as int);
        }
        let elen = edge.len();
        let (label, mut child) = self.children.remove(i);
        assert(child == c);
        if common == elen && common == klen - pos {
            assert(l =~= kk);
            let prev = child.value.take();
            child.value = Some(value);
            let ghost child_g = child;
            self.children.insert(i, (label, child));
            proof {
                let new = *self;
                assert(new.children@ =~= old_self.children@.update(i as int, new.children@[i as int]));
                assert(child_g.children == c.children);
                assert(old_self.children@[i as int].1.wf_rec());
                assert(c.wf_rec());
                assert(child_g.wf_rec());
                old_self.lemma_update_wf(new, i as int);
                assert forall|q: Seq<char>| q.len() > 0 && q[0] == kk[0] implies #[trigger] Self::edge_lookup(new.children@[i as int].0@, new.children@[i as int].1, q)
                    == if q == kk { Some(value) } else { Self::edge_lookup(l, c, q) } by {
                    if l.is_prefix_of(q) {
                        let rest = q.skip(l.len() as int);
                        if rest.len() == 0 {
                            assert(q =~= kk);
                        } else {
                            assert(q != kk);
                            child_g.lemma_lookup_from_same_children(c, rest, 0);
                        }
                    } else {
                        assert(q != kk);
                    }
                }
                old_self.lemma_update_lookup(new, i as int, kk, Some(value));
                assert(kk.skip(l.len() as int).len() == 0);
            }
            return prev;
        } else if common == elen {
            assert(l.is_prefix_of(kk)) by {
                assert(l =~= kk.subrange(0, l.len() as int));
            }
            assert(kk.skip(l.len() as int) =~= key@.skip(pos + common));
            let prev = child.insert_at(key_str, key, pos + common, value);
            let ghost child_g = child;
            self.children.insert(i, (label, child));
            proof {
                let new = *self;
                assert(new.children@ =~= old_self.children@.update(i as int, new.children@[i as int]));
                old_self.lemma_update_wf(new, i as int);
                let krest = kk.skip(l.len() as int);
                assert forall|q: Seq<char>| q.len() > 0 && q[0] == kk[0] implies #[trigger] Self::edge_lookup(new.children@[i as int].0@, new.children@[i as int].1, q)
                    == if q == kk { Some(value) } else { Self::edge_lookup(l, c, q) } by {
                    if l.is_prefix_of(q) {
                        let rest = q.skip(l.len() as int);
                        assert(child_g.lookup(rest) == if rest == krest { Some(value) } else { c.lookup(rest) });
                        if q == kk {
                        } else {
                            assert(rest != krest) by {
                                if rest == krest {
                                    assert(q =~= l + rest);
                                    assert(kk =~= l + krest);
                                }
                            }
                        }
                    } else {
                        assert(q != kk);
                    }
                }
                old_self.lemma_update_lookup(new, i as int, kk, Some(value));
            }
            return prev;
        } else if common == klen - pos {
            let suffix = String::from_str(label.as_str().substring_char(common, elen));
            let prefix_label = String::from_str(key_str.substring_char(pos, klen));
            let ghost suf = suffix@;
            let mut children: Vec<(String, RadixTree<T>)> = Vec::new();
            children.push((suffix, child));
            let node = RadixTree { value: Some(value), children };
            let ghost node_g = node;
            self.children.insert(i, (prefix_label, node));
            proof {
                assert(prefix_label@ =~= kk);
                assert(l =~= kk + suf);
                let new = *self;
                assert(new.children@ =~= old_self.children@.update(i as int, new.children@[i as int]));
                assert(node_g.children@[0] == (suffix, c));
                assert(node_g.wf_rec());
                old_self.lemma_update_wf(new, i as int);
                assert forall|q: Seq<char>| q.len() > 0 && q[0] == kk[0] implies #[trigger] Self::edge_lookup(kk, node_g, q)
                    == if q == kk { Some(value) } else { Self::edge_lookup(l, c, q) } by {
                    if kk.is_prefix_of(q) {
                        let rest = q.skip(kk.len() as int);
                        if rest.len() == 0 {
                            assert(q =~= kk);
                        } else {
                            assert(q != kk);
                            node_g.lemma_lookup_nonempty(rest);
                            if suf.is_prefix_of(rest) {
                                assert(l.is_prefix_of(q)) by {
                                    assert(l =~= q.subrange(0, l.len() as int));
                                }
                                assert(q.skip(l.len() as int) =~= rest.skip(suf.len() as int));
                                assert(node_g.children@[0].0@.is_prefix_of(rest));
                            } else {
                                assert(!l.is_prefix_of(q)) by {
                                    if l.is_prefix_of(q) {
                                        assert(suf =~= rest.subrange(0, suf.len() as int));
                                    }
                                }
                            }
                        }
                    } else {
                        assert(q != kk);
                        assert(!l.is_prefix_of(q)) by {
                            if l.is_prefix_of(q) {
                                assert(kk =~= q.subrange(0, kk.len() as int));
                            }
                        }
                    }
                }
                old_self.lemma_update_lookup(new, i as int, kk, Some(value));
                assert(!l.is_prefix_of(kk));
            }
            return None;
        } else {
            let prefix_label = String::from_str(label.as_str().substring_char(0, common));
            let edge_suffix = String::from_str(label.as_str().substring_char(common, elen));
            let key_suffix = String::from_str(key_str.substring_char(pos + common, klen));
            let leaf = RadixTree { value: Some(value), children: Vec::new() };
            let ghost leaf_g = leaf;
            let ghost pfx = prefix_label@;
            let ghost esuf = edge_suffix@;
            let ghost ksuf = key_suffix@;
            let mut children: Vec<(String, RadixTree<T>)> = Vec::new();
            let e_first = edge[common];
            let k_first = key[pos + common];
            let ghost e_entry = (edge_suffix, child);
            let ghost k_entry = (key_suffix, leaf);
            if e_first < k_first {
                children.push((edge_suffix, child));
                children.push((key_suffix, leaf));
            } else {
                children.push((key_suffix, leaf));
                children.push((edge_suffix, child));
            }
            let node = RadixTree { value: None, children };
            let ghost node_g = node;
            self.children.insert(i, (prefix_label, node));
            proof {
                assert(l =~= pfx + esuf);
                assert(kk =~= pfx + ksuf);
                assert(esuf[0] == e_first && ksuf[0] == k_first);
                assert(e_first != k_first);
                let new = *self;
                assert(new.children@ =~= old_self.children@.update(i as int, new.children@[i as int]));
                let (ei, ki) = if e_first < k_first { (0int, 1int) } else { (1int, 0int) };
                assert(node_g.children@[ei] == e_entry);
                assert(node_g.children@[ki] == k_entry);
                assert(node_g.children@.len() == 2);
                assert(esuf.len() > 0 && ksuf.len() > 0);
                assert(c.wf_rec() && (c.value is Some || c.children@.len() > 0));
                assert(leaf_g.wf_rec());
                assert(node_g.children@[0].0@[0] < node_g.children@[1].0@[0]);
                assert(node_g.wf_rec());
                assert(pfx[0] == l[0]);
                old_self.lemma_update_wf(new, i as int);
                assert forall|q: Seq<char>| q.len() > 0 && q[0] == kk[0] implies #[trigger] Self::edge_lookup(pfx, node_g, q)
                    == if q == kk { Some(value) } else { Self::edge_lookup(l, c, q) } by {
                    if pfx.is_prefix_of(q) {
                        let rest = q.skip(pfx.len() as int);
                        if rest.len() == 0 {
                            assert(q != kk);
                            assert(!l.is_prefix_of(q));
                        } else if rest[0] == esuf[0] {
                            node_g.lemma_lookup_first(rest, ei);
                            assert(q != kk) by {
                                if q == kk {
                                    assert(rest =~= ksuf);
                                }
                            }
                            if esuf.is_prefix_of(rest) {
                                assert(l.is_prefix_of(q)) by {
                                    assert(l =~= q.subrange(0, l.len() as int));
                                }
                                assert(q.skip(l.len() as int) =~= rest.skip(esuf.len() as int));
                            } else {
                                assert(!l.is_prefix_of(q)) by {
                                    if l.is_prefix_of(q) {
                                        assert(esuf =~= rest.subrange(0, esuf.len() as int));
                                    }
                                }
                            }
                        } else if rest[0] == ksuf[0] {
                            node_g.lemma_lookup_first(rest, ki);
                            assert(!l.is_prefix_of(q)) by {
                                if l.is_prefix_of(q) {
                                    assert(l[pfx.len() as int] == q[pfx.len() as int]);
                                }
                            }
                            leaf_g.lemma_leaf_lookup(rest.skip(ksuf.len() as int));
                            if ksuf.is_prefix_of(rest) {
                                if rest.skip(ksuf.len() as int).len() == 0 {
                                    assert(rest =~= ksuf);
                                    assert(q =~= pfx + rest);
                                } else {
                                    assert(q != kk);
                                }
                            } else {
                                assert(q != kk) by {
                                    if q == kk {
                                        assert(rest =~= ksuf);
                                    }
                                }
                            }
                        } else {
                            node_g.lemma_lookup_no_first(rest);
                            assert(q != kk) by {
                                if q == kk {
                                    assert(rest =~= ksuf);
                                }
                            }
                            assert(!l.is_prefix_of(q)) by {
                                if l.is_prefix_of(q) {
                                    assert(l[pfx.len() as int] == q[pfx.len() as int]);
                                }
                            }
                        }
                    } else {
                        assert(q != kk) by {
                            if q == kk {
                                assert(pfx =~= q.subrange(0, pfx.len() as int));
                            }
                        }
                        assert(!l.is_prefix_of(q)) by {
                            if l.is_prefix_of(q) {
                                assert(pfx =~= q.subrange(0, pfx.len() as int));
                            }
                        }
                    }
                }
                old_self.lemma_update_lookup(new, i as int, kk, Some(value));
                assert(!l.is_prefix_of(kk)) by {
                    if l.is_prefix_of(kk) {
                        assert(l[common as int] == kk[common as int]);
                    }
                }
            }
            return None;
        }
    }

    /// Inserts `value` at `key`, returning the value previously stored there.
    pub fn insert(&mut self, key: &str, value: T) -> (r: Option<T>)
        requires
            old(self).wf(),
            old(self)@.dom().contains(key@) || old(self)@.dom().len() < usize::MAX,
        ensures
            final(self).wf(),
            final(self)@ == old(self)@.insert(key@, value),
            r == if old(self)@.dom().contains(key@) { Some(old(self)@[key@]) } else { None },
    {
        let k = chars_of(key);
        let _klen = k.len();
        assert(k@.skip(0) =~= k@);
        let r = self.insert_at(key, &k, 0, value);
        proof {
            assert(self@ =~= old(self)@.insert(key@, value));
            old(self).lemma_view_entries();
            assert(self@.dom() =~= old(self)@.dom().insert(key@));
        }
        r
    }
    /// A well-formed node holding a value or an edge stores some entry.
    proof fn lemma_has_entry(self)
        requires
            self.wf_rec(),
            self.value is Some || self.children@.len() > 0,
        ensures
            exists|q: Seq<char>| #[trigger] self.lookup(q) is Some,
    {
        self.lemma_nonempty();
        let e = self.entries_rec()[0];
        self.lemma_lookup_entries(e.0, e.1);
        assert(self.entries_rec().contains(e));
        assert(self.lookup(e.0) is Some);
    }

    #[verifier::rlimit(40)]
    fn remove_at(&mut self, key: &Vec<char>, pos: usize) -> (r: Option<T>)
        requires
            old(self).wf_rec(),
            pos <= key@.len(),
        ensures
            final(self).wf_rec(),
            r is None ==> (final(self).value is Some <==> old(self).value is Some),
            r is None ==> final(self).children@.len() == old(self).children@.len(),
            r == old(self).lookup(key@.skip(pos as int)),
            forall|q: Seq<char>| #[trigger] final(self).lookup(q) == if q == key@.skip(pos as int) {
                None
            } else {
                old(self).lookup(q)
            },
        decreases *old(self),
    {
        let ghost kk = key@.skip(pos as int);
        let ghost old_self = *self;
        let klen = key.len();
        if pos == klen {
            let prev = self.value.take();
            proof {
                assert forall|q: Seq<char>| #[trigger] self.lookup(q) == if q == kk { None } else { old_self.lookup(q) } by {
                    if q.len() == 0 {
                        assert(q =~= kk);
                    } else {
                        self.lemma_lookup_from_same_children(old_self, q, 0);
                        assert(q != kk);
                    }
                }
            }
            return prev;
        }
        let (i, common, edge) = self.find_edge(key, pos);
        let ghost c0 = key@[pos as int];
        assert(kk[0] == c0);
        if i == self.children.len() || common < edge.len() {
            proof {
                if i == self.children@.len() {
                    old_self.lemma_lookup_no_first(kk);
                } else {
                    old_self.lemma_lookup_first(kk, i as int);
                    let l = old_self.children@[i as int].0@;
                    assert(!l.is_prefix_of(kk)) by {
                        if l.is_prefix_of(kk) {
                            assert(l[common as int] == kk[common as int]);
                        }
                    }
                }
            }
            return None;
        }
        let elen = edge.len();
        let ghost l = old_self.children@[i as int].0@;
        let ghost c = old_self.children@[i as int].1;
        assert(l.is_prefix_of(kk)) by {
            assert(l =~= kk.subrange(0, l.len() as int));
        }
        let ghost krest = kk.skip(l.len() as int);
        proof {
            old_self.lemma_lookup_first(kk, i as int);
            assert(old_self.children@[i as int].1.wf_rec());
        }
        let (label, mut child) = self.children.remove(i);
        assert(child == c);
        let result = if elen == klen - pos {
            let res = child.value.take();
            proof {
                assert(krest.len() == 0);
                assert forall|q: Seq<char>| #[trigger] child.lookup(q) == if q == krest { None } else { c.lookup(q) } by {
                    if q.len() == 0 {
                        assert(q =~= krest);
                    } else {
                        child.lemma_lookup_from_same_children(c, q, 0);
                        assert(q != krest);
                    }
                }
                assert(child.children == c.children);
            }
            res
        } else {
            assert(krest =~= key@.skip(pos + elen));
            child.remove_at(key, pos + elen)
        };
        assert(forall|q: Seq<char>| #[trigger] child.lookup(q) == if q == krest { None } else { c.lookup(q) });
        assert(child.wf_rec());
        let ghost child_g = child;
        // What the edge now leads to, seen from this node.
        assert forall|q: Seq<char>| q.len() > 0 && q[0] == kk[0] implies #[trigger] Self::edge_lookup(l, child_g, q)
            == if q == kk { None } else { Self::edge_lookup(l, c, q) } by {
            if l.is_prefix_of(q) {
                let rest = q.skip(l.len() as int);
                if q == kk {
                } else {
                    assert(rest != krest) by {
                        if rest == krest {
                            assert(q =~= l + rest);
                            assert(kk =~= l + krest);
                        }
                    }
                }
            } else {
                assert(q != kk);
            }
        }
        if result.is_none() {
            proof {
                c.lemma_has_entry();
                let q0 = choose|q: Seq<char>| #[trigger] c.lookup(q) is Some;
                assert(child_g.lookup(q0) is Some);
                if child_g.value is None && child_g.children@.len() == 0 {
                    child_g.lemma_leaf_lookup(q0);
                }
            }
            self.children.insert(i, (label, child));
            proof {
                let new = *self;
                assert(new.children@ =~= old_self.children@.update(i as int, new.children@[i as int]));
                old_self.lemma_update_wf(new, i as int);
                old_self.lemma_update_lookup(new, i as int, kk, None);
            }
            return None;
        }
        if child.value.is_none() && child.children.len() == 0 {
            proof {
                let new = *self;
                assert(old_self.children@ =~= new.children@.insert(i as int, old_self.children@[i as int]));
                assert(new.wf_rec()) by {
                    assert forall|a: int, b: int| 0 <= a < b < new.children@.len() implies (#[trigger] new.children@[a]).0@[0] < (#[trigger] new.children@[b]).0@[0] by {
                        let a2 = if a < i { a } else { a + 1 };
                        let b2 = if b < i { b } else { b + 1 };
                        assert(new.children@[a] == old_self.children@[a2]);
                        assert(new.children@[b] == old_self.children@[b2]);
                        assert(old_self.children@[a2].0@[0] < old_self.children@[b2].0@[0]);
                    }
                    assert forall|j: int| 0 <= j < new.children@.len() implies (#[trigger] new.children@[j]).1.wf_rec()
                        && (new.children@[j].1.value is Some || new.children@[j].1.children@.len() > 0)
                        && new.children@[j].0@.len() > 0 by {
                        let j2 = if j < i { j } else { j + 1 };
                        assert(new.children@[j] == old_self.children@[j2]);
                    }
                }
                assert forall|q: Seq<char>| #[trigger] new.lookup(q) == if q == kk { None } else { old_self.lookup(q) } by {
                    if q.len() == 0 {
                        assert(q != kk);
                        new.lemma_lookup_from_same_children(new, q, 0);
                        old_self.lemma_lookup_from_same_children(old_self, q, 0);
                        assert(new.value == old_self.value);
                    } else if q[0] != c0 {
                        assert(q != kk);
                        new.lemma_lookup_other_insert(old_self, i as int, q);
                    } else {
                        old_self.lemma_lookup_first(q, i as int);
                        assert forall|j: int| 0 <= j < new.children@.len() implies (#[trigger] new.children@[j]).0@[0] != q[0] by {
                            let j2 = if j < i { j } else { j + 1 };
                            assert(new.children@[j] == old_self.children@[j2]);
                            if j2 < i {
                                assert(old_self.children@[j2].0@[0] < old_self.children@[i as int].0@[0]);
                            } else {
                                assert(old_self.children@[i as int].0@[0] < old_self.children@[j2].0@[0]);
                            }
                        }
                        new.lemma_lookup_no_first(q);
                        assert(Self::edge_lookup(l, child_g, q) == if q == kk { None } else { Self::edge_lookup(l, c, q) });
                        if l.is_prefix_of(q) {
                            child_g.lemma_leaf_lookup(q.skip(l.len() as int));
                        }
                    }
                }
            }
            return result;
        }
        if child.value.is_none() && child.children.len() == 1 {
            let (gl, g) = child.children.remove(0);
            let merged = label.concat(gl.as_str());
            let ghost gl_g = gl@;
            let ghost g_g = g;
            self.children.insert(i, (merged, g));
            proof {
                assert(child_g.children@[0] == (gl, g_g));
                assert(g_g.wf_rec());
                assert(gl_g.len() > 0);
                assert(merged@ =~= l + gl_g);
                let new = *self;
                assert(new.children@ =~= old_self.children@.update(i as int, new.children@[i as int]));
                assert(new.children@[i as int].0@[0] == l[0]);
                old_self.lemma_update_wf(new, i as int);
                assert forall|q: Seq<char>| q.len() > 0 && q[0] == kk[0] implies #[trigger] Self::edge_lookup(l + gl_g, g_g, q)
                    == Self::edge_lookup(l, child_g, q) by {
                    if l.is_prefix_of(q) {
                        let rest = q.skip(l.len() as int);
                        if rest.len() == 0 {
                            assert(!(l + gl_g).is_prefix_of(q));
                        } else {
                            child_g.lemma_lookup_nonempty(rest);
                            if gl_g.is_prefix_of(rest) {
                                assert(child_g.children@[0].0@.is_prefix_of(rest));
                                assert((l + gl_g).is_prefix_of(q)) by {
                                    assert(l + gl_g =~= q.subrange(0, (l.len() + gl_g.len()) as int));
                                }
                                assert(q.skip((l.len() + gl_g.len()) as int) =~= rest.skip(gl_g.len() as int));
                            } else {
                                assert(!(l + gl_g).is_prefix_of(q)) by {
                                    if (l + gl_g).is_prefix_of(q) {
                                        assert forall|j: int| 0 <= j < gl_g.len() implies gl_g[j] == rest[j] by {
                                            assert((l + gl_g)[l.len() + j] == q[l.len() + j]);
                                        }
                                        assert(gl_g =~= rest.subrange(0, gl_g.len() as int));
                                    }
                                }
                            }
                        }
                    } else {
                        assert(!(l + gl_g).is_prefix_of(q)) by {
                            if (l + gl_g).is_prefix_of(q) {
                                assert(l =~= q.subrange(0, l.len() as int));
                            }
                        }
                    }
                }
                old_self.lemma_update_lookup(new, i as int, kk, None);
            }
            return result;
        }
        self.children.insert(i, (label, child));
        proof {
            let new = *self;
            assert(new.children@ =~= old_self.children@.update(i as int, new.children@[i as int]));
            old_self.lemma_update_wf(new, i as int);
            old_self.lemma_update_lookup(new, i as int, kk, None);
        }
        result
    }

    /// Removes `key` from the tree, returning the value that was stored there.
    pub fn remove(&mut self, key: &str) -> (r: Option<T>)
        requires
            old(self).wf(),
        ensures
            final(self).wf(),
            final(self)@ == old(self)@.remove(key@),
            r == if old(self)@.dom().contains(key@) { Some(old(self)@[key@]) } else { None },
    {
        let k = chars_of(key);
        assert(k@.skip(0) =~= k@);
        let r = self.remove_at(&k, 0);
        proof {
            assert(self@ =~= old(self)@.remove(key@));
            old(self).lemma_view_entries();
            assert(self@.dom() =~= old(self)@.dom().remove(key@));
        }
        r
    }
    /// Appends the entries below this node (not its own), keys preceded by `prefix`.
    fn collect_branches<'a>(&'a self, prefix: &String, out: &mut Vec<(String, &'a T)>)
        ensures
            pairs_view(final(out)@) == pairs_view(old(out)@) + prefixed(prefix@, self.entries_from(0)),
        decreases self,
    {
        let ghost out0 = pairs_view(out@);
        let mut i: usize = 0;
        while i < self.children.len()
            invariant
                i <= self.children@.len(),
                pairs_view(out@) + prefixed(prefix@, self.entries_from(i as int)) == out0 + prefixed(prefix@, self.entries_from(0)),
            decreases self.children@.len() - i,
        {
            let child = &self.children[i].1;
            let mut key = prefix.clone();
            key.append(self.children[i].0.as_str());
            let ghost l = self.children@[i as int].0@;
            let ghost before = pairs_view(out@);
            proof {
                lemma_prefixed_add(prefix@, prefixed(l, child.entries_rec()), self.entries_from(i + 1));
                lemma_prefixed_prefixed(prefix@, l, child.entries_rec());
                lemma_prefixed_add(key@, child.own_entry(), child.entries_from(0));
            }
            match &child.value {
                Some(v) => {
                    out.push((key.clone(), v));
                    assert(pairs_view(out@) =~= before + prefixed(key@, child.own_entry()));
                },
                None => {
                    assert(prefixed(key@, child.own_entry()) =~= Seq::<(Seq<char>, T)>::empty());
                    assert(pairs_view(out@) =~= before + prefixed(key@, child.own_entry()));
                },
            }
            child.collect_branches(&key, out);
            assert(pairs_view(out@) + prefixed(prefix@, self.entries_from(i + 1)) =~= out0 + prefixed(prefix@, self.entries_from(0)));
            i = i + 1;
        }
        assert(prefixed(prefix@, self.entries_from(i as int)) =~= Seq::<(Seq<char>, T)>::empty());
        assert(pairs_view(out@) =~= out0 + prefixed(prefix@, self.entries_from(0)));
    }

    /// Returns every (key, value) pair, the empty key included, in the order of `entries`.
    pub fn iter(&self) -> (r: Vec<(String, &T)>)
        ensures
            pairs_view(r@) == self.entries(),
    {
        let mut out: Vec<(String, &T)> = Vec::new();
        let prefix = String::new();
        match &self.value {
            Some(v) => {
                out.push((String::new(), v));
            },
            None => {},
        }
        assert(pairs_view(out@) =~= self.own_entry());
        self.collect_branches(&prefix, &mut out);
        proof {
            assert forall|n: int| 0 <= n < self.entries_from(0).len() implies prefixed(prefix@, self.entries_from(0))[n] == self.entries_from(0)[n] by {
                assert(prefix@ + self.entries_from(0)[n].0 =~= self.entries_from(0)[n].0);
            }
            assert(prefixed(prefix@, self.entries_from(0)) =~= self.entries_from(0));
        }
        out
    }
    /// The entries reached through edge `i`, keys preceded by its label.
    spec fn block(self, i: int) -> Seq<(Seq<char>, T)> {
        prefixed(self.children@[i].0@, self.children@[i].1.entries_rec())
    }

    /// No key below an edge whose first character differs from `r`'s starts with `r`.
    proof fn lemma_block_filter_other(self, i: int, r: Seq<char>)
        requires
            self.wf_rec(),
            0 <= i < self.children@.len(),
            r.len() > 0,
            self.children@[i].0@[0] != r[0],
        ensures
            self.block(i).filter(starts_with(r)) == Seq::<(Seq<char>, T)>::empty(),
    {
        let b = self.block(i);
        assert forall|n: int| 0 <= n < b.len() implies !r.is_prefix_of(#[trigger] b[n].0) by {
            assert(b[n].0[0] == self.children@[i].0@[0]);
        }
        lemma_filter_none(b, r);
    }

    proof fn lemma_filter_from(self, j: int, i: int, r: Seq<char>)
        requires
            self.wf_rec(),
            0 <= j,
            0 <= i < self.children@.len(),
            r.len() > 0,
            self.children@[i].0@[0] == r[0],
        ensures
            self.entries_from(j).filter(starts_with(r)) == if j <= i { self.block(i).filter(starts_with(r)) } else {
                Seq::<(Seq<char>, T)>::empty()
            },
        decreases self.children@.len() - j,
    {
        if j < self.children@.len() {
            self.lemma_filter_from(j + 1, i, r);
            Seq::filter_distributes_over_add(self.block(j), self.entries_from(j + 1), starts_with(r));
            assert(self.entries_from(j) == self.block(j) + self.entries_from(j + 1));
            if j != i {
                if j < i {
                    assert(self.children@[j].0@[0] < self.children@[i].0@[0]);
                } else {
                    assert(self.children@[i].0@[0] < self.children@[j].0@[0]);
                }
                self.lemma_block_filter_other(j, r);
            }
            assert(Seq::<(Seq<char>, T)>::empty() + self.block(i).filter(starts_with(r)) =~= self.block(i).filter(starts_with(r)));
            assert(self.block(i).filter(starts_with(r)) + Seq::<(Seq<char>, T)>::empty() =~= self.block(i).filter(starts_with(r)));
            assert(Seq::<(Seq<char>, T)>::empty() + Seq::<(Seq<char>, T)>::empty() =~= Seq::<(Seq<char>, T)>::empty());
        } else {
            reveal(Seq::filter);
        }
    }

    proof fn lemma_filter_from_none(self, j: int, r: Seq<char>)
        requires
            0 <= j,
            forall|k: int| j <= k < self.children@.len() ==> (#[trigger] self.block(k)).filter(starts_with(r)).len() == 0,
        ensures
            self.entries_from(j).filter(starts_with(r)).len() == 0,
        decreases self.children@.len() - j,
    {
        if j < self.children@.len() {
            self.lemma_filter_from_none(j + 1, r);
            Seq::filter_distributes_over_add(self.block(j), self.entries_from(j + 1), starts_with(r));
            assert(self.entries_from(j) == self.block(j) + self.entries_from(j + 1));
            assert(self.block(j).filter(starts_with(r)).len() == 0);
        } else {
            reveal(Seq::filter);
        }
    }

    /// Entries of the whole node that start with a non-empty `r` whose first character begins edge `i`.
    proof fn lemma_filter_node(self, i: int, r: Seq<char>)
        requires
            self.wf_rec(),
            0 <= i < self.children@.len(),
            r.len() > 0,
            self.children@[i].0@[0] == r[0],
        ensures
            self.entries_rec().filter(starts_with(r)) == self.block(i).filter(starts_with(r)),
    {
        self.lemma_filter_from(0, i, r);
        Seq::filter_distributes_over_add(self.own_entry(), self.entries_from(0), starts_with(r));
        lemma_filter_none(self.own_entry(), r);
        assert(Seq::<(Seq<char>, T)>::empty() + self.block(i).filter(starts_with(r)) =~= self.block(i).filter(starts_with(r)));
    }

    proof fn lemma_prefix_descend(self, i: int, rest: Seq<char>)
        requires
            self.wf_rec(),
            0 <= i < self.children@.len(),
            rest.len() > 0,
            self.children@[i].0@.take(self.children@[i].0@.len() as int) == rest.subrange(0, self.children@[i].0@.len() as int),
            self.children@[i].0@.len() <= rest.len(),
        ensures
            ({
                let l = self.children@[i].0@;
                let c = self.children@[i].1;
                let cf = c.entries_rec().filter(starts_with(rest.skip(l.len() as int)));
                &&& self.entries_rec().filter(starts_with(rest)) == prefixed(l, cf)
                &&& rest.skip(l.len() as int).len() == 0 ==> cf.len() > 0
            }),
    {
        let l = self.children@[i].0@;
        let c = self.children@[i].1;
        assert(l.is_prefix_of(rest)) by {
            assert(l =~= rest.subrange(0, l.len() as int));
        }
        assert(l[0] == rest[0]);
        self.lemma_filter_node(i, rest);
        lemma_filter_prefixed(l, c.entries_rec(), rest);
        let er = rest.skip(l.len() as int);
        if er.len() == 0 {
            let ce = c.entries_rec();
            assert forall|n: int| 0 <= n < ce.len() implies er.is_prefix_of(#[trigger] ce[n].0) by {
                assert(er =~= ce[n].0.subrange(0, 0));
            }
            lemma_filter_all(ce, er);
            c.lemma_nonempty();
        }
    }

    proof fn lemma_prefix_within(self, i: int, rest: Seq<char>)
        requires
            self.wf_rec(),
            0 <= i < self.children@.len(),
            rest.len() > 0,
            rest.len() < self.children@[i].0@.len(),
            self.children@[i].0@.take(rest.len() as int) == rest,
        ensures
            self.entries_rec().filter(starts_with(rest)) == self.block(i),
            self.block(i).len() > 0,
    {
        let l = self.children@[i].0@;
        let c = self.children@[i].1;
        assert(l[0] == rest[0]) by {
            assert(l.take(rest.len() as int)[0] == l[0]);
        }
        self.lemma_filter_node(i, rest);
        let b = self.block(i);
        assert forall|n: int| 0 <= n < b.len() implies rest.is_prefix_of(#[trigger] b[n].0) by {
            assert(rest =~= b[n].0.subrange(0, rest.len() as int));
        }
        lemma_filter_all(b, rest);
        c.lemma_nonempty();
    }

    proof fn lemma_prefix_diverge(self, i: int, rest: Seq<char>, common: int)
        requires
            0 <= i < self.children@.len(),
            0 <= common < self.children@[i].0@.len(),
            common < rest.len(),
            self.children@[i].0@[common] != rest[common],
        ensures
            self.block(i).filter(starts_with(rest)).len() == 0,
    {
        let l = self.children@[i].0@;
        let b = self.block(i);
        assert forall|n: int| 0 <= n < b.len() implies !rest.is_prefix_of(#[trigger] b[n].0) by {
            if rest.is_prefix_of(b[n].0) {
                assert(b[n].0[common] == l[common]);
                assert(rest[common] == b[n].0[common]);
            }
        }
        lemma_filter_none(b, rest);
    }

    fn at_prefix_internal<'a>(&'a self, prefix: &Vec<char>, pos: usize, accumulated: String) -> (r: Option<PrefixView<'a, T>>)
        requires
            self.wf_rec(),
            pos <= prefix@.len(),
        ensures
            r is None <==> (prefix@.skip(pos as int).len() > 0
                && self.entries_rec().filter(starts_with(prefix@.skip(pos as int))).len() == 0),
            r matches Some(v) ==> v.entries() == prefixed(accumulated@, self.entries_rec().filter(starts_with(prefix@.skip(pos as int)))),
        decreases self,
    {
        let ghost rest = prefix@.skip(pos as int);
        let plen = prefix.len();
        if pos == plen {
            proof {
                assert forall|n: int| 0 <= n < self.entries_rec().len() implies rest.is_prefix_of(#[trigger] self.entries_rec()[n].0) by {
                    assert(rest =~= self.entries_rec()[n].0.subrange(0, 0));
                }
                lemma_filter_all(self.entries_rec(), rest);
            }
            return Some(PrefixView { node: self, key_prefix: accumulated });
        }
        let mut i: usize = 0;
        while i < self.children.len()
            invariant
                self.wf_rec(),
                pos < prefix@.len(),
                plen == prefix@.len(),
                rest == prefix@.skip(pos as int),
                i <= self.children@.len(),
                forall|k: int| 0 <= k < i ==> (#[trigger] self.block(k)).filter(starts_with(rest)).len() == 0,
            decreases self.children@.len() - i,
        {
            let edge = chars_of(self.children[i].0.as_str());
            let common = common_prefix_chars(&edge, prefix, pos);
            let ghost l = self.children@[i as int].0@;
            let ghost c = self.children@[i as int].1;
            if common == 0 {
                proof {
                    assert(l.len() > 0);
                    assert(l[0] != rest[0]);
                    self.lemma_block_filter_other(i as int, rest);
                }
                i = i + 1;
                continue;
            }
            assert(l.take(common as int)[0] == rest[0]);
            assert(rest.subrange(0, common as int) =~= prefix@.subrange(pos as int, pos + common));
            if common == edge.len() {
                let mut new_acc = accumulated.clone();
                new_acc.append(self.children[i].0.as_str());
                proof {
                    self.lemma_prefix_descend(i as int, rest);
                    assert(rest.skip(l.len() as int) =~= prefix@.skip(pos + common));
                    lemma_prefixed_prefixed(accumulated@, l, c.entries_rec().filter(starts_with(rest.skip(l.len() as int))));
                }
                return self.children[i].1.at_prefix_internal(prefix, pos + common, new_acc);
            } else if common == plen - pos {
                let mut new_acc = accumulated.clone();
                new_acc.append(self.children[i].0.as_str());
                proof {
                    assert(rest =~= rest.subrange(0, common as int));
                    self.lemma_prefix_within(i as int, rest);
                    lemma_prefixed_prefixed(accumulated@, l, c.entries_rec());
                }
                return Some(PrefixView { node: &self.children[i].1, key_prefix: new_acc });
            }
            proof {
                self.lemma_prefix_diverge(i as int, rest, common as int);
            }
            i = i + 1;
        }
        proof {
            self.lemma_filter_from_none(0, rest);
            Seq::filter_distributes_over_add(self.own_entry(), self.entries_from(0), starts_with(rest));
            lemma_filter_none(self.own_entry(), rest);
        }
        None
    }

    /// Returns a view of the entries whose key starts with `prefix`,
    /// or `None` when `prefix` is not empty and no key starts with it.
    pub fn at_prefix(&self, prefix: &str) -> (r: Option<PrefixView<'_, T>>)
        requires
            self.wf(),
        ensures
            r is None <==> (prefix@.len() > 0 && self.entries().filter(starts_with(prefix@)).len() == 0),
            r matches Some(v) ==> v.entries() == self.entries().filter(starts_with(prefix@)),
    {
        let p = chars_of(prefix);
        assert(p@.skip(0) =~= p@);
        let r = self.at_prefix_internal(&p, 0, String::new());
        proof {
            let es = self.entries_rec().filter(starts_with(prefix@));
            assert forall|n: int| 0 <= n < es.len() implies prefixed(Seq::<char>::empty(), es)[n] == es[n] by {
                assert(Seq::<char>::empty() + es[n].0 =~= es[n].0);
            }
            assert(prefixed(Seq::<char>::empty(), es) =~= es);
        }
        r
    }
}

/// A walk over the entries of a radix tree, in tree order.
pub struct RadixTreeIter<'a, T> {
    items: Vec<(String, &'a T)>,
    pos: usize,
}

impl<'a, T> RadixTreeIter<'a, T> {
    #[verifier::type_invariant]
    spec fn inv(self) -> bool {
        self.pos <= self.items@.len()
    }

    /// The entries still to come.
    pub closed spec fn remaining(self) -> Seq<(Seq<char>, T)> {
        pairs_view(self.items@).skip(self.pos as int)
    }

    /// Starts a walk over all the entries of `tree`.
    pub fn new(tree: &'a RadixTree<T>) -> (r: Self)
        ensures
            r.remaining() == tree.entries(),
    {
        let items = tree.iter();
        assert(pairs_view(items@).skip(0) =~= pairs_view(items@));
        RadixTreeIter { items, pos: 0 }
    }

    /// The next entry, if any.
    pub fn next(&mut self) -> (r: Option<(String, &'a T)>)
        ensures
            match r {
                Some(e) => old(self).remaining().len() > 0 && (e.0@, *e.1) == old(self).remaining()[0]
                    && final(self).remaining() == old(self).remaining().drop_first(),
                None => old(self).remaining().len() == 0 && final(self).remaining() == old(self).remaining(),
            },
    {
        proof {
            use_type_invariant(&*self);
        }
        if self.pos < self.items.len() {
            let e = (self.items[self.pos].0.clone(), self.items[self.pos].1);
            self.pos = self.pos + 1;
            assert(self.remaining() =~= old(self).remaining().drop_first());
            Some(e)
        } else {
            None
        }
    }
}

/// A view of the entries of a radix tree below a prefix.
pub struct PrefixView<'a, T> {
    node: &'a RadixTree<T>,
    key_prefix: String,
}

impl<'a, T> PrefixView<'a, T> {
    /// The entries of the view, with their full keys, in tree order.
    pub closed spec fn entries(self) -> Seq<(Seq<char>, T)> {
        prefixed(self.key_prefix@, self.node.entries_rec())
    }

    /// Returns the entries in this prefix subtree, in tree order.
    pub fn iter(&self) -> (r: Vec<(String, &'a T)>)
        ensures
            pairs_view(r@) == self.entries(),
    {
        let mut out: Vec<(String, &'a T)> = Vec::new();
        let prefix = self.key_prefix.clone();
        let node: &'a RadixTree<T> = self.node;
        match &node.value {
            Some(v) => {
                out.push((prefix.clone(), v));
            },
            None => {},
        }
        assert(pairs_view(out@) =~= prefixed(prefix@, node.own_entry()));
        node.collect_branches(&prefix, &mut out);
        proof {
            lemma_prefixed_add(prefix@, node.own_entry(), node.entries_from(0));
        }
        out
    }
}

impl<T> RadixTree<T> {
    /// Each entry of edge `i`'s child appears, with the label before its key, among the node's entries.
    proof fn lemma_block_in_entries(self, i: int, n: int)
        requires
            0 <= i < self.children@.len(),
            0 <= n < self.children@[i].1.entries_rec().len(),
        ensures
            self.entries_rec().contains((self.children@[i].0@ + self.children@[i].1.entries_rec()[n].0, self.children@[i].1.entries_rec()[n].1)),
    {
        let l = self.children@[i].0@;
        let e = self.children@[i].1.entries_rec()[n];
        let k = l + e.0;
        self.lemma_entries_from_contains(0, k, e.1);
        assert(l.is_prefix_of(k)) by {
            assert(l =~= k.subrange(0, l.len() as int));
        }
        assert(k.skip(l.len() as int) =~= e.0);
        assert(self.children@[i].1.entries_rec().contains(e));
        lemma_contains_concat(self.own_entry(), self.entries_from(0), (k, e.1));
    }

    fn fuzzy_internal<'a>(
        &'a self,
        query: &Vec<char>,
        max_distance: usize,
        current_key: String,
        prev_row: Vec<usize>,
        results: &mut Vec<(String, &'a T, usize)>,
    )
        requires
            self.wf_rec(),
            query@.len() < usize::MAX,
            dp_row_matches(prev_row@, current_key@, query@),
            forall|n: int| 0 <= n < self.entries_rec().len() ==> current_key@.len() + (#[trigger] self.entries_rec()[n]).0.len() <= usize::MAX,
        ensures
            triples_view(final(results)@) == triples_view(old(results)@)
                + fuzzy_matches(prefixed(current_key@, self.entries_rec()), query@, max_distance as nat),
        decreases self,
    {
        let qlen = query.len();
        let ghost ck = current_key@;
        let ghost q = query@;
        let ghost maxd = max_distance as nat;
        let ghost res0 = triples_view(results@);
        assert(q.take(qlen as int) =~= q);
        match &self.value {
            Some(v) => {
                let d = prev_row[qlen];
                if d <= max_distance {
                    results.push((current_key.clone(), v, d));
                }
                proof {
                    let own = prefixed(ck, self.own_entry());
                    assert(own =~= seq![(ck, *v)]);
                    reveal(Seq::filter);
                    assert(own.drop_last() =~= Seq::<(Seq<char>, T)>::empty());
                    assert(own.drop_last().filter(within_distance(q, maxd)) =~= Seq::<(Seq<char>, T)>::empty());
                    assert(d == edit_distance(ck, q));
                    assert(own.last() == (ck, *v));
                    if d <= max_distance {
                        assert(own.filter(within_distance(q, maxd)) =~= seq![(ck, *v)]);
                        assert(fuzzy_matches(own, q, maxd) =~= seq![(ck, *v, d as nat)]);
                    } else {
                        assert(own.filter(within_distance(q, maxd)) =~= Seq::<(Seq<char>, T)>::empty());
                        assert(fuzzy_matches(own, q, maxd) =~= Seq::<(Seq<char>, T, nat)>::empty());
                    }
                    assert(triples_view(results@) =~= res0 + fuzzy_matches(own, q, maxd));
                }
            },
            None => {
                proof {
                    reveal(Seq::filter);
                    assert(prefixed(ck, self.own_entry()) =~= Seq::<(Seq<char>, T)>::empty());
                    assert(triples_view(results@) =~= res0 + fuzzy_matches(prefixed(ck, self.own_entry()), q, maxd));
                }
            },
        }
        proof {
            lemma_prefixed_add(ck, self.own_entry(), self.entries_from(0));
            lemma_fuzzy_matches_add(prefixed(ck, self.own_entry()), prefixed(ck, self.entries_from(0)), q, maxd);
        }
        let ghost total = res0 + fuzzy_matches(prefixed(ck, self.entries_rec()), q, maxd);
        let mut i: usize = 0;
        while i < self.children.len()
            invariant
                self.wf_rec(),
                qlen == q.len(),
                q == query@,
                q.len() < usize::MAX,
                ck == current_key@,
                maxd == max_distance as nat,
                dp_row_matches(prev_row@, ck, q),
                forall|n: int| 0 <= n < self.entries_rec().len() ==> ck.len() + (#[trigger] self.entries_rec()[n]).0.len() <= usize::MAX,
                i <= self.children@.len(),
                triples_view(results@) + fuzzy_matches(prefixed(ck, self.entries_from(i as int)), q, maxd) == total,
            decreases self.children@.len() - i,
        {
            let ghost l = self.children@[i as int].0@;
            let child = &self.children[i].1;
            let ghost ce = child.entries_rec();
            proof {
                lemma_prefixed_add(ck, self.block(i as int), self.entries_from(i + 1));
                lemma_fuzzy_matches_add(prefixed(ck, self.block(i as int)), prefixed(ck, self.entries_from(i + 1)), q, maxd);
                lemma_prefixed_prefixed(ck, l, ce);
                child.lemma_nonempty();
                self.lemma_block_in_entries(i as int, 0);
                let e0 = ce[0];
                let n0 = choose|n: int| 0 <= n < self.entries_rec().len() && self.entries_rec()[n] == (l + e0.0, e0.1);
                assert(ck.len() + self.entries_rec()[n0].0.len() <= usize::MAX);
            }
            let edge = chars_of(self.children[i].0.as_str());
            let mut row = prev_row.clone();
            assert(row@ == prev_row@);
            let mut min_in_row: usize = usize::MAX;
            let mut k: usize = 0;
            assert(ck + l.take(0) =~= ck);
            while k < edge.len()
                invariant
                    edge@ == l,
                    l.len() > 0,
                    k <= l.len(),
                    q == query@,
                    q.len() < usize::MAX,
                    ck.len() + l.len() <= usize::MAX,
                    dp_row_matches(row@, ck + l.take(k as int), q),
                    k >= 1 ==> forall|j: int| 0 <= j <= q.len() ==> min_in_row <= #[trigger] row@[j],
                decreases l.len() - k,
            {
                let (nr, m) = next_dp_row(&row, edge[k], query, Ghost(ck + l.take(k as int)));
                assert((ck + l.take(k as int)).push(l[k as int]) =~= ck + l.take(k + 1));
                row = nr;
                min_in_row = m;
                k = k + 1;
            }
            assert(l.take(l.len() as int) =~= l);
            assert(ck + l.take(l.len() as int) =~= ck + l);
            assert(forall|j: int| 0 <= j <= q.len() ==> min_in_row <= #[trigger] row@[j]);
            assert forall|j: int| 0 <= j <= q.len() implies (min_in_row as nat) <= #[trigger] edit_distance(ck + l, q.take(j)) by {
                assert(min_in_row <= row@[j]);
                assert(row@[j] == edit_distance(ck + l.take(l.len() as int), q.take(j)));
            }
            if min_in_row <= max_distance {
                let mut new_key = current_key.clone();
                new_key.append(self.children[i].0.as_str());
                proof {
                    assert forall|n: int| 0 <= n < ce.len() implies new_key@.len() + (#[trigger] ce[n]).0.len() <= usize::MAX by {
                        self.lemma_block_in_entries(i as int, n);
                        let m = choose|m: int| 0 <= m < self.entries_rec().len() && self.entries_rec()[m] == (l + ce[n].0, ce[n].1);
                        assert(ck.len() + self.entries_rec()[m].0.len() <= usize::MAX);
                    }
                }
                child.fuzzy_internal(query, max_distance, new_key, row, results);
            } else {
                proof {
                    let b = prefixed(ck + l, ce);
                    assert forall|n: int| 0 <= n < b.len() implies edit_distance(#[trigger] b[n].0, q) > maxd by {
                        lemma_row_lower_bound_extend(ck + l, ce[n].0, q, min_in_row as nat);
                        assert(b[n].0 =~= (ck + l) + ce[n].0);
                    }
                    lemma_fuzzy_matches_none(b, q, maxd);
                }
            }
            assert(triples_view(results@) + fuzzy_matches(prefixed(ck, self.entries_from(i + 1)), q, maxd) =~= total);
            i = i + 1;
        }
        assert(prefixed(ck, self.entries_from(i as int)) =~= Seq::<(Seq<char>, T)>::empty());
        reveal(Seq::filter);
        assert(fuzzy_matches(prefixed(ck, self.entries_from(i as int)), q, maxd) =~= Seq::<(Seq<char>, T, nat)>::empty());
        assert(triples_view(results@) =~= total);
    }

    /// Returns every entry whose key is within `max_distance` edits of `query`, in the order
    /// of `entries`, each with its edit distance.
    pub fn fuzzy_search(&self, query: &str, max_distance: usize) -> (r: Vec<(String, &T, usize)>)
        requires
            self.wf(),
            query@.len() < usize::MAX,
        ensures
            triples_view(r@) == fuzzy_matches(self.entries(), query@, max_distance as nat),
    {
        let q = chars_of(query);
        let qlen = q.len();
        let mut row: Vec<usize> = Vec::new();
        let mut j: usize = 0;
        while j <= qlen
            invariant
                qlen == q@.len(),
                qlen < usize::MAX,
                j <= qlen + 1,
                row@.len() == j,
                forall|k: int| 0 <= k < j ==> #[trigger] row@[k] == edit_distance(Seq::<char>::empty(), q@.take(k)),
            decreases qlen + 1 - j,
        {
            row.push(j);
            j = j + 1;
        }
        let mut results: Vec<(String, &T, usize)> = Vec::new();
        proof {
            self.lemma_view_entries();
            assert forall|n: int| 0 <= n < self.entries_rec().len() implies Seq::<char>::empty().len() + (#[trigger] self.entries_rec()[n]).0.len() <= usize::MAX by {
                assert(self@.dom().contains(self.entries_rec()[n].0)) by {
                    assert(keys_of(self.entries_rec())[n] == self.entries_rec()[n].0);
                }
            }
        }
        self.fuzzy_internal(&q, max_distance, String::new(), row, &mut results);
        proof {
            let es = self.entries_rec();
            assert forall|n: int| 0 <= n < es.len() implies prefixed(Seq::<char>::empty(), es)[n] == es[n] by {
                assert(Seq::<char>::empty() + es[n].0 =~= es[n].0);
            }
            assert(prefixed(Seq::<char>::empty(), es) =~= es);
            assert(triples_view(Seq::<(String, &T, usize)>::empty()) =~= Seq::<(Seq<char>, T, nat)>::empty());
            assert(triples_view(results@) =~= fuzzy_matches(es, q@, max_distance as nat));
        }
        results
    }
}

impl<T: Clone> RadixTree<T> {
    /// `other` has the shape of `self`, with the same edges and each value a clone.
    spec fn clone_of(self, other: Self) -> bool
        decreases self,
    {
        &&& match (self.value, other.value) {
            (Some(a), Some(b)) => cloned::<T>(a, b),
            (None, None) => true,
            _ => false,
        }
        &&& self.children@.len() == other.children@.len()
        &&& forall|i: int| 0 <= i < self.children@.len() ==> (#[trigger] self.children@[i]).0@ == other.children@[i].0@
        &&& forall|i: int| 0 <= i < self.children@.len() ==> (#[trigger] self.children@[i]).1.clone_of(other.children@[i].1)
    }

    proof fn lemma_clone_lookup(self, other: Self, key: Seq<char>)
        requires
            self.clone_of(other),
        ensures
            self.lookup(key) is Some <==> other.lookup(key) is Some,
            self.lookup(key) is Some ==> cloned::<T>(self.lookup(key)->0, other.lookup(key)->0),
        decreases self, self.children@.len() + 1,
    {
        if key.len() > 0 {
            self.lemma_clone_lookup_from(other, key, 0);
        }
    }

    proof fn lemma_clone_lookup_from(self, other: Self, key: Seq<char>, i: int)
        requires
            self.clone_of(other),
            0 <= i,
        ensures
            self.lookup_from(key, i) is Some <==> other.lookup_from(key, i) is Some,
            self.lookup_from(key, i) is Some ==> cloned::<T>(self.lookup_from(key, i)->0, other.lookup_from(key, i)->0),
        decreases self, self.children@.len() - i,
    {
        if i < self.children@.len() {
            assert(self.children@[i].0@ == other.children@[i].0@);
            if self.children@[i].0@.is_prefix_of(key) {
                self.children@[i].1.lemma_clone_lookup(other.children@[i].1, key.skip(self.children@[i].0@.len() as int));
            } else {
                self.lemma_clone_lookup_from(other, key, i + 1);
            }
        }
    }

    proof fn lemma_clone_wf(self, other: Self)
        requires
            self.clone_of(other),
            self.wf_rec(),
        ensures
            other.wf_rec(),
        decreases self,
    {
        assert forall|i: int| 0 <= i < other.children@.len() implies (#[trigger] other.children@[i]).1.wf_rec() by {
            assert(self.children@[i].1.clone_of(other.children@[i].1));
            self.children@[i].1.lemma_clone_wf(other.children@[i].1);
        }
        assert forall|i: int| 0 <= i < other.children@.len() implies ((#[trigger] other.children@[i]).1.value is Some
            || other.children@[i].1.children@.len() >= 2) by {
            assert(self.children@[i].1.clone_of(other.children@[i].1));
        }
        assert forall|i: int, j: int| 0 <= i < j < other.children@.len() implies (#[trigger] other.children@[i]).0@[0]
            < (#[trigger] other.children@[j]).0@[0] by {
            assert(self.children@[i].0@ == other.children@[i].0@);
            assert(self.children@[j].0@ == other.children@[j].0@);
        }
        assert forall|i: int| 0 <= i < other.children@.len() implies (#[trigger] other.children@[i]).0@.len() > 0 by {
            assert(self.children@[i].0@ == other.children@[i].0@);
        }
    }

    fn clone_tree(&self) -> (r: Self)
        ensures
            self.clone_of(r),
        decreases self,
    {
        let value = match &self.value {
            Some(v) => Some(v.clone()),
            None => None,
        };
        let mut children: Vec<(String, RadixTree<T>)> = Vec::new();
        let mut i: usize = 0;
        while i < self.children.len()
            invariant
                i <= self.children@.len(),
                children@.len() == i,
                forall|j: int| 0 <= j < i ==> (#[trigger] self.children@[j]).0@ == children@[j].0@,
                forall|j: int| 0 <= j < i ==> (#[trigger] self.children@[j]).1.clone_of(children@[j].1),
            decreases self.children@.len() - i,
        {
            proof {
                assert(decreases_to!(*self => self.children));
                assert(decreases_to!(self.children => self.children@));
                assert(decreases_to!(self.children@ => self.children@[i as int]));
                assert(decreases_to!(self.children@[i as int] => self.children@[i as int].1));
            }
            let c = self.children[i].1.clone_tree();
            let e = self.children[i].0.clone();
            children.push((e, c));
            i = i + 1;
        }
        RadixTree { value, children }
    }
}

impl<T: Clone> Clone for RadixTree<T> {
    /// A tree with the same keys, each value a clone.
    fn clone(&self) -> (r: Self)
        ensures
            self.wf() ==> r.wf(),
            r@.dom() == self@.dom(),
            forall|k: Seq<char>| #[trigger] r@.contains_key(k) ==> cloned::<T>(self@[k], r@[k]),
    {
        let r = self.clone_tree();
        proof {
            assert forall|k: Seq<char>| #[trigger] r@.dom().contains(k) <==> self@.dom().contains(k) by {
                self.lemma_clone_lookup(r, k);
            }
            assert(r@.dom() =~= self@.dom());
            assert forall|k: Seq<char>| #[trigger] r@.contains_key(k) implies cloned::<T>(self@[k], r@[k]) by {
                self.lemma_clone_lookup(r, k);
            }
            if self.wf() {
                self.lemma_clone_wf(r);
            }
        }
        r
    }
}

impl<T> Default for RadixTree<T> {
    /// An empty tree.
    fn default() -> (r: Self)
        ensures
            r.wf(),
            r@ == Map::<Seq<char>, T>::empty(),
    {
        Self::new()
    }
}

} // verus!
