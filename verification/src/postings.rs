use vstd::prelude::*;

use std::collections::BTreeMap;
use std::collections::HashMap;

use crate::searchable_map::{FieldTermData, SearchableMap};
use vstd::std_specs::iter::IteratorSpec;

verus! {

broadcast use {
    vstd::std_specs::hash::group_hash_axioms,
    vstd::std_specs::btree::group_btree_axioms,
    vstd::laws_cmp::group_laws_cmp,
    vstd::string::group_string_axioms,
};

/// Postings seen as plain maps: term -> field id -> document short id -> frequency.
pub open spec fn deep_postings(m: Map<Seq<char>, FieldTermData>) -> Map<Seq<char>, Map<u32, Map<u32, u32>>> {
    Map::new(
        |t: Seq<char>| m.contains_key(t),
        |t: Seq<char>| Map::new(|f: u32| m[t]@.contains_key(f), |f: u32| m[t]@[f]@),
    )
}

/// How often `t` occurs in `ts`.
pub open spec fn occurrences(ts: Seq<Seq<char>>, t: Seq<char>) -> nat
    decreases ts.len(),
{
    if ts.len() == 0 {
        0
    } else {
        occurrences(ts.drop_last(), t) + if ts.last() == t { 1nat } else { 0nat }
    }
}

/// The distinct non-empty terms of `ts`, in order of first occurrence.
pub open spec fn distinct_terms(ts: Seq<Seq<char>>) -> Seq<Seq<char>>
    decreases ts.len(),
{
    if ts.len() == 0 {
        Seq::empty()
    } else {
        let prev = distinct_terms(ts.drop_last());
        let t = ts.last();
        if t.len() == 0 || prev.contains(t) { prev } else { prev.push(t) }
    }
}

/// The terms that a vector of strings holds.
pub open spec fn strings_view(v: Seq<String>) -> Seq<Seq<char>> {
    v.map_values(|t: String| t@)
}

pub(crate) proof fn lemma_distinct_terms(ts: Seq<Seq<char>>)
    ensures
        distinct_terms(ts).len() <= ts.len(),
        distinct_terms(ts).no_duplicates(),
        forall|t: Seq<char>| #[trigger] distinct_terms(ts).contains(t) <==> (t.len() > 0 && ts.contains(t)),
        forall|t: Seq<char>| #[trigger] occurrences(ts, t) > 0 <==> ts.contains(t),
        forall|t: Seq<char>| #[trigger] occurrences(ts, t) <= ts.len(),
    decreases ts.len(),
{
    if ts.len() > 0 {
        let prev = ts.drop_last();
        lemma_distinct_terms(prev);
        assert(ts =~= prev.push(ts.last()));
        assert forall|t: Seq<char>| #[trigger] ts.contains(t) <==> (prev.contains(t) || t == ts.last()) by {
            if ts.contains(t) {
                let j = choose|j: int| 0 <= j < ts.len() && ts[j] == t;
                if j < prev.len() {
                    assert(prev[j] == t);
                }
            }
            if prev.contains(t) {
                let j = choose|j: int| 0 <= j < prev.len() && prev[j] == t;
                assert(ts[j] == t);
            }
            if t == ts.last() {
                assert(ts[ts.len() - 1] == t);
            }
        }
        assert forall|t: Seq<char>| #[trigger] occurrences(ts, t) > 0 <==> ts.contains(t) by {
            assert(occurrences(ts, t) == occurrences(prev, t) + if ts.last() == t { 1nat } else { 0nat });
            assert(occurrences(prev, t) > 0 <==> prev.contains(t));
        }
        assert forall|t: Seq<char>| #[trigger] occurrences(ts, t) <= ts.len() by {
            assert(occurrences(ts, t) == occurrences(prev, t) + if ts.last() == t { 1nat } else { 0nat });
            assert(occurrences(prev, t) <= prev.len());
        }
        let d = distinct_terms(prev);
        if !(ts.last().len() == 0 || d.contains(ts.last())) {
            assert forall|t: Seq<char>| #[trigger] d.push(ts.last()).contains(t) <==> (d.contains(t) || t == ts.last()) by {
                if d.push(ts.last()).contains(t) {
                    let j = choose|j: int| 0 <= j < d.len() + 1 && d.push(ts.last())[j] == t;
                    if j < d.len() {
                        assert(d[j] == t);
                    }
                }
                if d.contains(t) {
                    let j = choose|j: int| 0 <= j < d.len() && d[j] == t;
                    assert(d.push(ts.last())[j] == t);
                }
                if t == ts.last() {
                    assert(d.push(ts.last())[d.len() as int] == t);
                }
            }
        }
    }
}

/// Returns each distinct non-empty term of `terms` with how often it occurs, in order of first occurrence.
pub fn count_terms(terms: &Vec<String>) -> (r: Vec<(String, u32)>)
    requires
        terms@.len() <= u32::MAX,
    ensures
        r@.map_values(|e: (String, u32)| e.0@) == distinct_terms(strings_view(terms@)),
        forall|k: int| 0 <= k < r@.len() ==> (#[trigger] r@[k]).1 == occurrences(strings_view(terms@), r@[k].0@),
{
    let ghost ts = strings_view(terms@);
    let mut out: Vec<(String, u32)> = Vec::new();
    let mut j: usize = 0;
    while j < terms.len()
        invariant
            ts == strings_view(terms@),
            terms@.len() <= u32::MAX,
            j <= terms@.len(),
            out@.map_values(|e: (String, u32)| e.0@) == distinct_terms(ts.take(j as int)),
            forall|k: int| 0 <= k < out@.len() ==> (#[trigger] out@[k]).1 == occurrences(ts.take(j as int), out@[k].0@),
        decreases terms@.len() - j,
    {
        let term = &terms[j];
        let ghost tj = ts.take(j as int);
        let ghost tj1 = ts.take(j + 1);
        assert(tj1.drop_last() =~= tj);
        assert(tj1.last() == term@);
        proof {
            lemma_distinct_terms(tj);
            lemma_distinct_terms(tj1);
        }
        let ghost keys = out@.map_values(|e: (String, u32)| e.0@);
        let mut k: usize = 0;
        while k < out.len()
            invariant
                keys == out@.map_values(|e: (String, u32)| e.0@),
                k <= out@.len(),
                forall|x: int| 0 <= x < k ==> out@[x].0@ != term@,
            ensures
                k <= out@.len(),
                forall|x: int| 0 <= x < k ==> out@[x].0@ != term@,
                k < out@.len() ==> out@[k as int].0@ == term@,
            decreases out@.len() - k,
        {
            if out[k].0 == *term {
                break;
            }
            k = k + 1;
        }
        let ghost before = out@;
        if term.as_str().is_empty() {
            assert(occurrences(tj1, term@) == occurrences(tj, term@) + 1);
            assert forall|x: int| 0 <= x < out@.len() implies (#[trigger] out@[x]).1 == occurrences(tj1, out@[x].0@) by {
                assert(keys[x].len() > 0) by {
                    assert(distinct_terms(tj).contains(keys[x]));
                }
            }
        } else if k < out.len() {
            assert(keys[k as int] == term@);
            assert(distinct_terms(tj).contains(term@));
            assert(occurrences(tj, term@) <= tj.len());
            let entry = out.remove(k);
            let c = entry.1 + 1;
            out.insert(k, (entry.0, c));
            assert(out@ =~= before.update(k as int, (before[k as int].0, c)));
            assert(out@.map_values(|e: (String, u32)| e.0@) =~= keys);
            assert forall|x: int| 0 <= x < out@.len() implies (#[trigger] out@[x]).1 == occurrences(tj1, out@[x].0@) by {
                assert(occurrences(tj1, out@[x].0@) == occurrences(tj, out@[x].0@) + if term@ == out@[x].0@ { 1nat } else { 0nat });
                if x != k {
                    assert(out@[x] == before[x]);
                    assert(keys[x] == before[x].0@);
                    assert(keys[x] != keys[k as int]) by {
                        assert(distinct_terms(tj).no_duplicates());
                    }
                }
            }
        } else {
            assert(!distinct_terms(tj).contains(term@)) by {
                if distinct_terms(tj).contains(term@) {
                    let x = choose|x: int| 0 <= x < keys.len() && keys[x] == term@;
                    assert(before[x].0@ == term@);
                }
            }
            assert(!tj.contains(term@));
            assert(occurrences(tj, term@) == 0);
            out.push((term.clone(), 1));
            assert(out@.map_values(|e: (String, u32)| e.0@) =~= keys.push(term@));
        }
        j = j + 1;
    }
    assert(ts.take(terms@.len() as int) =~= ts);
    out
}

/// The keys of `m`, each once.
pub(crate) fn keys_of_map<V>(m: &HashMap<u32, V>) -> (r: Vec<u32>)
    ensures
        r@.to_set() == m@.dom(),
        r@.no_duplicates(),
{
    let ghost ks = vstd::std_specs::hash::spec_keys_iter(m).remaining();
    let mut out: Vec<u32> = Vec::new();
    for k in it: m.keys()
        invariant
            it.seq() == ks,
            out@ == it.seq().take(it.index()).unref(),
    {
        out.push(*k);
        assert(out@ =~= it.seq().take(it.index() + 1).unref());
    }
    assert(out@ =~= ks.unref());
    out
}

/// The postings of one term seen as a plain map: field id -> document short id -> frequency.
pub open spec fn term_view(d: FieldTermData) -> Map<u32, Map<u32, u32>> {
    Map::new(|f: u32| d@.contains_key(f), |f: u32| d@[f]@)
}

/// `v` with frequency `n` recorded for document `s` in field `f`.
pub open spec fn with_posting(v: Map<u32, Map<u32, u32>>, f: u32, s: u32, n: u32) -> Map<u32, Map<u32, u32>> {
    v.insert(f, (if v.contains_key(f) { v[f] } else { Map::empty() }).insert(s, n))
}

/// `v` with document `s` taken out of every field, and the fields left without documents dropped.
pub open spec fn without_doc(v: Map<u32, Map<u32, u32>>, s: u32) -> Map<u32, Map<u32, u32>> {
    Map::new(|f: u32| v.contains_key(f) && !v[f].remove(s).is_empty(), |f: u32| v[f].remove(s))
}

/// Records frequency `freq` of document `s` in field `fid` of `data`.
pub(crate) fn record_posting(data: &mut FieldTermData, fid: u32, s: u32, freq: u32)
    ensures
        term_view(*final(data)) == with_posting(term_view(*old(data)), fid, s, freq),
{
    let mut docs = match data.remove(&fid) {
        Some(d) => d,
        None => HashMap::new(),
    };
    docs.insert(s, freq);
    data.insert(fid, docs);
    assert(term_view(*data) =~= with_posting(term_view(*old(data)), fid, s, freq));
}

/// Takes document `s` out of every field of `data`, dropping the fields it leaves empty.
pub(crate) fn strip_document(data: &mut FieldTermData, s: u32)
    ensures
        term_view(*final(data)) == without_doc(term_view(*old(data)), s),
{
    let ghost v0 = term_view(*data);
    let fids = keys_of_map(data);
    let mut i: usize = 0;
    while i < fids.len()
        invariant
            0 <= i <= fids@.len(),
            fids@.to_set() == old(data)@.dom(),
            fids@.no_duplicates(),
            v0 == term_view(*old(data)),
            forall|f: u32| #[trigger] term_view(*data).contains_key(f) <==> (v0.contains_key(f) && (fids@.take(i as int).contains(f) ==> !v0[f].remove(s).is_empty())),
            forall|f: u32| #[trigger] term_view(*data).contains_key(f) ==> term_view(*data)[f] == if fids@.take(i as int).contains(f) { v0[f].remove(s) } else { v0[f] },
        decreases fids@.len() - i,
    {
        let fid = fids[i];
        assert(fids@.take(i as int + 1) =~= fids@.take(i as int).push(fid));
        assert(!fids@.take(i as int).contains(fid)) by {
            if fids@.take(i as int).contains(fid) {
                let j = choose|j: int| 0 <= j < i && fids@.take(i as int)[j] == fid;
                assert(fids@[j] == fids@[i as int]);
            }
        }
        assert(fids@.to_set().contains(fid)) by {
            assert(fids@.contains(fid));
        }
        let ghost before = term_view(*data);
        assert(v0.contains_key(fid));
        assert(before.contains_key(fid));
        assert(before[fid] == v0[fid]);
        if let Some(mut docs) = data.remove(&fid) {
            docs.remove(&s);
            if !docs.is_empty() {
                data.insert(fid, docs);
                assert(term_view(*data) =~= before.insert(fid, v0[fid].remove(s)));
            } else {
                assert(term_view(*data) =~= before.remove(fid));
            }
        } else {
            assert(term_view(*data) =~= before);
        }
        assert forall|f: u32| #[trigger] fids@.take(i as int + 1).contains(f) <==> (fids@.take(i as int).contains(f) || f == fid) by {
            if fids@.take(i as int + 1).contains(f) && f != fid {
                let j = choose|j: int| 0 <= j < i + 1 && #[trigger] fids@.take(i as int + 1)[j] == f;
                assert(fids@.take(i as int)[j] == f);
            }
            if fids@.take(i as int).contains(f) {
                let j = choose|j: int| 0 <= j < i && fids@.take(i as int)[j] == f;
                assert(fids@.take(i as int + 1)[j] == f);
            }
            if f == fid {
                assert(fids@.take(i as int + 1)[i as int] == f);
            }
        }
        assert forall|f: u32| #[trigger] term_view(*data).contains_key(f) <==> (v0.contains_key(f) && (fids@.take(i as int + 1).contains(f) ==> !v0[f].remove(s).is_empty())) by {
            if f != fid {
                assert(term_view(*data).contains_key(f) == before.contains_key(f));
            }
        }
        i = i + 1;
    }
    assert(fids@.take(fids@.len() as int) =~= fids@);
    assert forall|f: u32| #[trigger] v0.contains_key(f) implies fids@.contains(f) by {
        assert(fids@.to_set().contains(f));
    }
    assert(term_view(*data) =~= without_doc(v0, s));
}

/// The processed terms handed in for each field, as character sequences; `None` where the
/// document lacks the field.
pub open spec fn field_terms_view(v: Seq<Option<Vec<String>>>) -> Seq<Option<Seq<Seq<char>>>> {
    v.map_values(|o: Option<Vec<String>>| match o {
        Some(ts) => Some(strings_view(ts@)),
        None => None,
    })
}

/// Position `f` is the last position of its field name. A name listed twice has one field id,
/// that of its last position, and only that position is indexed.
pub open spec fn is_last_position(names: Seq<Seq<char>>, f: int) -> bool {
    &&& 0 <= f < names.len()
    &&& forall|j: int| f < j < names.len() ==> names[j] != names[f]
}

/// The distinct terms a document contributes under field id `f`.
pub open spec fn indexed_terms(names: Seq<Seq<char>>, fts: Seq<Option<Seq<Seq<char>>>>, f: int) -> Seq<Seq<char>> {
    if is_last_position(names, f) && fts[f] is Some {
        distinct_terms(fts[f]->0)
    } else {
        Seq::empty()
    }
}

/// The number of distinct terms of each field of a document, by field id.
pub open spec fn field_length_row(names: Seq<Seq<char>>, fts: Seq<Option<Seq<Seq<char>>>>) -> Seq<u32> {
    Seq::new(names.len(), |f: int| indexed_terms(names, fts, f).len() as u32)
}

/// The document has at least one indexed field.
pub open spec fn has_indexed_field(names: Seq<Seq<char>>, fts: Seq<Option<Seq<Seq<char>>>>) -> bool {
    exists|f: int| is_last_position(names, f) && #[trigger] fts[f] is Some
}

/// Term `t` is recorded for the document under field id `f`, counting only the fields before
/// position `i` and, at position `i`, the terms in `done`.
pub open spec fn recorded_upto(
    names: Seq<Seq<char>>,
    fts: Seq<Option<Seq<Seq<char>>>>,
    i: int,
    done: Set<Seq<char>>,
    t: Seq<char>,
    f: int,
) -> bool {
    &&& indexed_terms(names, fts, f).contains(t)
    &&& (f < i || (f == i && done.contains(t)))
}

/// The terms recorded for the document, as in `recorded_upto`.
pub open spec fn terms_upto(names: Seq<Seq<char>>, fts: Seq<Option<Seq<Seq<char>>>>, i: int, done: Set<Seq<char>>) -> Set<Seq<char>> {
    Set::new(|t: Seq<char>| exists|f: int| 0 <= f <= i && #[trigger] recorded_upto(names, fts, i, done, t, f))
}

/// Postings `p` with the document `s` recorded as in `recorded_upto`: each recorded term maps,
/// in its field, the document to the number of times the term occurs there.
pub open spec fn postings_upto(
    p: Map<Seq<char>, Map<u32, Map<u32, u32>>>,
    s: u32,
    names: Seq<Seq<char>>,
    fts: Seq<Option<Seq<Seq<char>>>>,
    i: int,
    done: Set<Seq<char>>,
) -> Map<Seq<char>, Map<u32, Map<u32, u32>>> {
    Map::new(
        |t: Seq<char>| p.contains_key(t) || terms_upto(names, fts, i, done).contains(t),
        |t: Seq<char>| {
            let base = if p.contains_key(t) { p[t] } else { Map::empty() };
            Map::new(
                |f: u32| base.contains_key(f) || recorded_upto(names, fts, i, done, t, f as int),
                |f: u32| if recorded_upto(names, fts, i, done, t, f as int) {
                    (if base.contains_key(f) { base[f] } else { Map::empty() }).insert(s, occurrences(fts[f as int]->0, t) as u32)
                } else {
                    base[f]
                },
            )
        },
    )
}

/// The terms a document contributes, over all its fields.
pub open spec fn document_terms(names: Seq<Seq<char>>, fts: Seq<Option<Seq<Seq<char>>>>) -> Set<Seq<char>> {
    terms_upto(names, fts, names.len() as int, Set::empty())
}

/// Postings `p` after adding the document `s` whose fields hold the terms `fts`.
pub open spec fn add_postings(
    p: Map<Seq<char>, Map<u32, Map<u32, u32>>>,
    s: u32,
    names: Seq<Seq<char>>,
    fts: Seq<Option<Seq<Seq<char>>>>,
) -> Map<Seq<char>, Map<u32, Map<u32, u32>>> {
    postings_upto(p, s, names, fts, names.len() as int, Set::empty())
}

/// The number of terms handed in over all fields.
pub open spec fn total_terms(fts: Seq<Option<Seq<Seq<char>>>>) -> nat
    decreases fts.len(),
{
    if fts.len() == 0 {
        0
    } else {
        total_terms(fts.drop_last()) + match fts.last() {
            Some(ts) => ts.len(),
            None => 0,
        }
    }
}

pub(crate) proof fn lemma_postings_step(
    p: Map<Seq<char>, Map<u32, Map<u32, u32>>>,
    s: u32,
    names: Seq<Seq<char>>,
    fts: Seq<Option<Seq<Seq<char>>>>,
    i: int,
    done: Set<Seq<char>>,
    t: Seq<char>,
)
    requires
        0 <= i < names.len() <= u32::MAX,
        indexed_terms(names, fts, i).contains(t),
        !done.contains(t),
    ensures
        ({
            let q = postings_upto(p, s, names, fts, i, done);
            postings_upto(p, s, names, fts, i, done.insert(t)) == q.insert(
                t,
                with_posting(if q.contains_key(t) { q[t] } else { Map::empty() }, i as u32, s, occurrences(fts[i]->0, t) as u32),
            )
        }),
        terms_upto(names, fts, i, done.insert(t)) == terms_upto(names, fts, i, done).insert(t),
{
    let d2 = done.insert(t);
    let q = postings_upto(p, s, names, fts, i, done);
    let q2 = postings_upto(p, s, names, fts, i, d2);
    assert(recorded_upto(names, fts, i, d2, t, i));
    assert forall|u: Seq<char>| #[trigger] terms_upto(names, fts, i, d2).contains(u) <==> terms_upto(names, fts, i, done).insert(t).contains(u) by {
        if terms_upto(names, fts, i, d2).contains(u) && u != t {
            let f = choose|f: int| 0 <= f <= i && #[trigger] recorded_upto(names, fts, i, d2, u, f);
            assert(recorded_upto(names, fts, i, done, u, f));
        }
        if terms_upto(names, fts, i, done).contains(u) {
            let f = choose|f: int| 0 <= f <= i && #[trigger] recorded_upto(names, fts, i, done, u, f);
            assert(recorded_upto(names, fts, i, d2, u, f));
        }
    }
    assert(terms_upto(names, fts, i, d2) =~= terms_upto(names, fts, i, done).insert(t));
    let target = q.insert(t, with_posting(if q.contains_key(t) { q[t] } else { Map::empty() }, i as u32, s, occurrences(fts[i]->0, t) as u32));
    assert forall|u: Seq<char>| #[trigger] q2.contains_key(u) implies q2[u] == target[u] by {
        if u == t {
            let base = if p.contains_key(t) { p[t] } else { Map::<u32, Map<u32, u32>>::empty() };
            let qt = if q.contains_key(t) { q[t] } else { Map::<u32, Map<u32, u32>>::empty() };
            assert forall|f: u32| #[trigger] qt.contains_key(f) <==> (base.contains_key(f) || recorded_upto(names, fts, i, done, t, f as int)) by {}
            assert forall|f: u32| #[trigger] qt.contains_key(f) implies qt[f] == if recorded_upto(names, fts, i, done, t, f as int) {
                (if base.contains_key(f) { base[f] } else { Map::empty() }).insert(s, occurrences(fts[f as int]->0, t) as u32)
            } else {
                base[f]
            } by {}
            assert(!recorded_upto(names, fts, i, done, t, i));
            assert forall|f: u32| #[trigger] q2[u].contains_key(f) <==> target[u].contains_key(f) by {}
            assert forall|f: u32| #[trigger] q2[u].contains_key(f) implies q2[u][f] == target[u][f] by {
                if f as int == i {
                    assert(q2[u][f] =~= target[u][f]);
                }
            }
            assert(q2[u] =~= target[u]);
        } else {
            assert forall|f: u32| recorded_upto(names, fts, i, d2, u, f as int) == recorded_upto(names, fts, i, done, u, f as int) by {}
            assert(q2[u] =~~= q[u]);
        }
    }
    assert(q2 =~= target);
}

pub(crate) proof fn lemma_postings_next_field(
    p: Map<Seq<char>, Map<u32, Map<u32, u32>>>,
    s: u32,
    names: Seq<Seq<char>>,
    fts: Seq<Option<Seq<Seq<char>>>>,
    i: int,
    done: Set<Seq<char>>,
)
    requires
        0 <= i < names.len(),
        done == indexed_terms(names, fts, i).to_set(),
    ensures
        postings_upto(p, s, names, fts, i, done) == postings_upto(p, s, names, fts, i + 1, Set::empty()),
        terms_upto(names, fts, i, done) == terms_upto(names, fts, i + 1, Set::empty()),
{
    assert forall|t: Seq<char>, f: int| recorded_upto(names, fts, i, done, t, f) == recorded_upto(names, fts, i + 1, Set::empty(), t, f) by {
        if f == i && indexed_terms(names, fts, i).contains(t) {
            assert(done.contains(t));
        }
    }
    assert forall|t: Seq<char>| #[trigger] terms_upto(names, fts, i, done).contains(t) <==> terms_upto(names, fts, i + 1, Set::empty()).contains(t) by {
        if terms_upto(names, fts, i, done).contains(t) {
            let f = choose|f: int| 0 <= f <= i && #[trigger] recorded_upto(names, fts, i, done, t, f);
            assert(recorded_upto(names, fts, i + 1, Set::empty(), t, f));
        }
        if terms_upto(names, fts, i + 1, Set::empty()).contains(t) {
            let f = choose|f: int| 0 <= f <= i + 1 && #[trigger] recorded_upto(names, fts, i + 1, Set::empty(), t, f);
            assert(recorded_upto(names, fts, i, done, t, f));
        }
    }
    assert(terms_upto(names, fts, i, done) =~= terms_upto(names, fts, i + 1, Set::empty()));
    let q = postings_upto(p, s, names, fts, i, done);
    let q2 = postings_upto(p, s, names, fts, i + 1, Set::empty());
    assert forall|t: Seq<char>| #[trigger] q.contains_key(t) implies q[t] == q2[t] by {
        assert(q[t] =~~= q2[t]);
    }
    assert(q =~= q2);
}

/// The terms of a vector of strings, as a set.
pub open spec fn string_set(v: Seq<String>) -> Set<Seq<char>> {
    strings_view(v).to_set()
}

/// Records document `s` in `index` for the terms of the field at position `fid`, and appends
/// those terms to `doc_terms`. Returns the number of distinct terms.
pub(crate) fn index_terms(
    index: &mut SearchableMap,
    s: u32,
    fid: u32,
    terms: &Vec<String>,
    doc_terms: &mut Vec<String>,
    Ghost(p0): Ghost<Map<Seq<char>, Map<u32, Map<u32, u32>>>>,
    Ghost(names): Ghost<Seq<Seq<char>>>,
    Ghost(fts): Ghost<Seq<Option<Seq<Seq<char>>>>>,
) -> (count: u32)
    requires
        old(index).wf(),
        names.len() <= u32::MAX,
        is_last_position(names, fid as int),
        fts.len() == names.len(),
        fts[fid as int] == Some(strings_view(terms@)),
        terms@.len() <= u32::MAX,
        deep_postings(old(index)@) == postings_upto(p0, s, names, fts, fid as int, Set::empty()),
        string_set(old(doc_terms)@) == terms_upto(names, fts, fid as int, Set::empty()),
        old(index)@.dom().len() + terms@.len() < usize::MAX,
    ensures
        final(index).wf(),
        deep_postings(final(index)@) == postings_upto(p0, s, names, fts, fid + 1, Set::empty()),
        string_set(final(doc_terms)@) == terms_upto(names, fts, fid + 1, Set::empty()),
        final(index)@.dom().len() <= old(index)@.dom().len() + terms@.len(),
        count == indexed_terms(names, fts, fid as int).len(),
{
    let counts = count_terms(terms);
    let ghost ks = distinct_terms(strings_view(terms@));
    proof {
        lemma_distinct_terms(strings_view(terms@));
        assert(indexed_terms(names, fts, fid as int) == ks);
    }
    let mut k: usize = 0;
    assert(ks.take(0).to_set() =~= Set::<Seq<char>>::empty());
    while k < counts.len()
        invariant
            index.wf(),
            names.len() <= u32::MAX,
            is_last_position(names, fid as int),
            fts[fid as int] == Some(strings_view(terms@)),
            ks == distinct_terms(strings_view(terms@)),
            ks.no_duplicates(),
            ks.len() <= terms@.len(),
            indexed_terms(names, fts, fid as int) == ks,
            counts@.map_values(|e: (String, u32)| e.0@) == ks,
            forall|j: int| 0 <= j < counts@.len() ==> (#[trigger] counts@[j]).1 == occurrences(strings_view(terms@), counts@[j].0@),
            k <= counts@.len(),
            deep_postings(index@) == postings_upto(p0, s, names, fts, fid as int, ks.take(k as int).to_set()),
            string_set(doc_terms@) == terms_upto(names, fts, fid as int, ks.take(k as int).to_set()),
            index@.dom().len() <= old(index)@.dom().len() + k,
            old(index)@.dom().len() + terms@.len() < usize::MAX,
        decreases counts@.len() - k,
    {
        let term = &counts[k].0;
        let freq = counts[k].1;
        let ghost t = term@;
        let ghost done = ks.take(k as int).to_set();
        let ghost before = index@;
        assert(ks[k as int] == t);
        assert(!done.contains(t)) by {
            if done.contains(t) {
                assert(ks.take(k as int).contains(t));
                let j = choose|j: int| 0 <= j < k && #[trigger] ks.take(k as int)[j] == t;
                assert(ks[j] == ks[k as int]);
            }
        }
        assert(ks.take(k as int + 1).to_set() =~= done.insert(t)) by {
            assert(ks.take(k as int + 1) =~= ks.take(k as int).push(t));
            ks.take(k as int).lemma_push_to_set_commute(t);
        }
        assert(indexed_terms(names, fts, fid as int).contains(t)) by {
            assert(ks[k as int] == t);
        }
        proof {
            lemma_postings_step(p0, s, names, fts, fid as int, done, t);
        }
        proof {
            index.lemma_entries_match_view();
        }
        let ghost q = deep_postings(before);
        let ghost qt = if q.contains_key(t) { q[t] } else { Map::<u32, Map<u32, u32>>::empty() };
        let data = index.get_or_create(term.as_str());
        assert(term_view(*data) =~= qt);
        record_posting(data, fid, s, freq);
        assert(deep_postings(index@) =~= deep_postings(before).insert(t, term_view(index@[t])));
        let ghost dt_before = doc_terms@;
        doc_terms.push(term.clone());
        assert(strings_view(doc_terms@) =~= strings_view(dt_before).push(t));
        proof {
            strings_view(dt_before).lemma_push_to_set_commute(t);
        }
        k = k + 1;
    }
    proof {
        assert(ks.take(ks.len() as int) =~= ks);
        lemma_postings_next_field(p0, s, names, fts, fid as int, ks.to_set());
    }
    counts.len() as u32
}

pub(crate) proof fn lemma_total_terms_prefix(fts: Seq<Option<Seq<Seq<char>>>>, i: int)
    requires
        0 <= i <= fts.len(),
    ensures
        total_terms(fts.take(i)) <= total_terms(fts),
        i < fts.len() ==> total_terms(fts.take(i + 1)) == total_terms(fts.take(i)) + match fts[i] {
            Some(ts) => ts.len(),
            None => 0,
        },
    decreases fts.len(),
{
    if i < fts.len() {
        assert(fts.take(i + 1).drop_last() =~= fts.take(i));
        lemma_total_terms_prefix(fts.drop_last(), i);
        assert(fts.drop_last().take(i) =~= fts.take(i));
    } else {
        assert(fts.take(i) =~= fts);
    }
}

/// Postings `p` after document `s` is taken out of the postings of each term in `terms`;
/// a term left without postings is dropped.
pub open spec fn clean_postings(
    p: Map<Seq<char>, Map<u32, Map<u32, u32>>>,
    s: u32,
    terms: Set<Seq<char>>,
) -> Map<Seq<char>, Map<u32, Map<u32, u32>>> {
    Map::new(
        |t: Seq<char>| p.contains_key(t) && (terms.contains(t) ==> !without_doc(p[t], s).is_empty()),
        |t: Seq<char>| if terms.contains(t) { without_doc(p[t], s) } else { p[t] },
    )
}

pub(crate) proof fn lemma_without_doc_twice(v: Map<u32, Map<u32, u32>>, s: u32)
    ensures
        without_doc(without_doc(v, s), s) == without_doc(v, s),
{
    let w = without_doc(v, s);
    assert forall|f: u32| #[trigger] w.contains_key(f) implies w[f].remove(s) == w[f] by {
        assert(w[f].remove(s) =~= w[f]);
    }
    assert(without_doc(w, s) =~= w);
}

pub(crate) proof fn lemma_clean_step(p: Map<Seq<char>, Map<u32, Map<u32, u32>>>, s: u32, done: Set<Seq<char>>, t: Seq<char>)
    ensures
        ({
            let q = clean_postings(p, s, done);
            clean_postings(p, s, done.insert(t)) == if q.contains_key(t) {
                if without_doc(q[t], s).is_empty() {
                    q.remove(t)
                } else {
                    q.insert(t, without_doc(q[t], s))
                }
            } else {
                q
            }
        }),
{
    let q = clean_postings(p, s, done);
    let q2 = clean_postings(p, s, done.insert(t));
    if done.contains(t) {
        if p.contains_key(t) {
            lemma_without_doc_twice(p[t], s);
        }
        assert(done.insert(t) =~= done);
        if q.contains_key(t) {
            assert(q.insert(t, without_doc(q[t], s)) =~= q);
        }
    } else {
        if q.contains_key(t) {
            if without_doc(q[t], s).is_empty() {
                assert(q2 =~= q.remove(t));
            } else {
                assert(q2 =~= q.insert(t, without_doc(q[t], s)));
            }
        } else {
            assert(q2 =~= q);
        }
    }
}

/// Some field of `v` holds a document of `live`.
pub open spec fn has_live_posting(v: Map<u32, Map<u32, u32>>, live: Set<u32>) -> bool {
    exists|f: u32, d: u32| v.contains_key(f) && #[trigger] v[f].contains_key(d) && live.contains(d)
}

/// Postings `p` without the terms that hold no document of `live`.
pub open spec fn vacuum_postings(p: Map<Seq<char>, Map<u32, Map<u32, u32>>>, live: Set<u32>) -> Map<Seq<char>, Map<u32, Map<u32, u32>>> {
    Map::new(|t: Seq<char>| p.contains_key(t) && has_live_posting(p[t], live), |t: Seq<char>| p[t])
}

/// Returns true if some field of `data` holds a document of `docs`.
pub(crate) fn holds_live_document(data: &FieldTermData, docs: &BTreeMap<u32, String>) -> (r: bool)
    ensures
        r == has_live_posting(term_view(*data), docs@.dom()),
{
    let fids = keys_of_map(data);
    let mut i: usize = 0;
    while i < fids.len()
        invariant
            fids@.to_set() == data@.dom(),
            i <= fids@.len(),
            forall|x: int, d: u32| 0 <= x < i && #[trigger] data@[fids@[x]]@.contains_key(d) ==> !docs@.dom().contains(d),
        decreases fids@.len() - i,
    {
        let fid = fids[i];
        assert(fids@.to_set().contains(fid)) by {
            assert(fids@.contains(fid));
        }
        let docs_of_field = data.get(&fid).unwrap();
        let ds = keys_of_map(docs_of_field);
        let mut j: usize = 0;
        while j < ds.len()
            invariant
                ds@.to_set() == docs_of_field@.dom(),
                data@.dom().contains(fid),
                data@[fid] == *docs_of_field,
                j <= ds@.len(),
                forall|y: int| 0 <= y < j ==> !docs@.dom().contains(#[trigger] ds@[y]),
            decreases ds@.len() - j,
        {
            if docs.contains_key(&ds[j]) {
                assert(ds@.to_set().contains(ds@[j as int]));
                assert(data@.dom().contains(fid));
                assert(term_view(*data)[fid].contains_key(ds@[j as int]));
                return true;
            }
            j = j + 1;
        }
        assert forall|d: u32| #[trigger] docs_of_field@.contains_key(d) implies !docs@.dom().contains(d) by {
            assert(ds@.to_set().contains(d));
            let y = choose|y: int| 0 <= y < ds@.len() && ds@[y] == d;
        }
        i = i + 1;
    }
    assert forall|f: u32, d: u32| term_view(*data).contains_key(f) && #[trigger] term_view(*data)[f].contains_key(d) implies !docs@.dom().contains(d) by {
        assert(fids@.to_set().contains(f));
        let x = choose|x: int| 0 <= x < fids@.len() && fids@[x] == f;
        assert(data@[fids@[x]]@.contains_key(d));
    }
    false
}

/// Some posting holds document `d`.
pub open spec fn mentions(p: Map<Seq<char>, Map<u32, Map<u32, u32>>>, d: u32) -> bool {
    exists|t: Seq<char>, f: u32| p.contains_key(t) && p[t].contains_key(f) && #[trigger] p[t][f].contains_key(d)
}

/// Every posting's document has a reverse-index entry that lists the posting's term.
pub open spec fn postings_recorded(p: Map<Seq<char>, Map<u32, Map<u32, u32>>>, rev: Map<u32, Set<Seq<char>>>) -> bool {
    forall|t: Seq<char>, f: u32, d: u32|
        p.contains_key(t) && p[t].contains_key(f) && #[trigger] p[t][f].contains_key(d) ==> rev.contains_key(d) && rev[d].contains(t)
}

/// Every term has postings in some field, and every field of a term has postings.
pub open spec fn postings_tidy(p: Map<Seq<char>, Map<u32, Map<u32, u32>>>) -> bool {
    forall|t: Seq<char>| #[trigger] p.contains_key(t) ==> !p[t].is_empty() && forall|f: u32| #[trigger] p[t].contains_key(f) ==> !p[t][f].is_empty()
}

pub(crate) proof fn lemma_recorded_upto_field(names: Seq<Seq<char>>, fts: Seq<Option<Seq<Seq<char>>>>, t: Seq<char>, f: int)
    requires
        0 <= f < names.len(),
        recorded_upto(names, fts, names.len() as int, Set::empty(), t, f),
    ensures
        document_terms(names, fts).contains(t),
        is_last_position(names, f),
        fts[f] is Some,
{
    assert(recorded_upto(names, fts, names.len() as int, Set::empty(), t, f));
}

/// Adding a document whose short id has no reverse-index entry keeps every posting recorded,
/// once the document's terms are recorded under its short id.
pub proof fn law_add_keeps_postings_recorded(
    p: Map<Seq<char>, Map<u32, Map<u32, u32>>>,
    rev: Map<u32, Set<Seq<char>>>,
    s: u32,
    names: Seq<Seq<char>>,
    fts: Seq<Option<Seq<Seq<char>>>>,
)
    requires
        postings_recorded(p, rev),
        !rev.contains_key(s),
        names.len() <= u32::MAX,
    ensures
        postings_recorded(
            add_postings(p, s, names, fts),
            if has_indexed_field(names, fts) { rev.insert(s, document_terms(names, fts)) } else { rev },
        ),
{
    let q = add_postings(p, s, names, fts);
    let n = names.len() as int;
    let rev2 = if has_indexed_field(names, fts) { rev.insert(s, document_terms(names, fts)) } else { rev };
    assert forall|t: Seq<char>, f: u32, d: u32| q.contains_key(t) && q[t].contains_key(f) && #[trigger] q[t][f].contains_key(d)
        implies rev2.contains_key(d) && rev2[d].contains(t) by {
        if recorded_upto(names, fts, n, Set::empty(), t, f as int) {
            lemma_recorded_upto_field(names, fts, t, f as int);
            assert(has_indexed_field(names, fts));
            if d != s {
                assert(p.contains_key(t) && p[t].contains_key(f) && p[t][f].contains_key(d));
            }
        } else {
            assert(p.contains_key(t) && p[t].contains_key(f) && p[t][f].contains_key(d));
            assert(rev.contains_key(d));
        }
    }
}

/// Discarding a recorded document keeps every other posting recorded and leaves no posting
/// that holds the document.
pub proof fn law_discard_removes_document(p: Map<Seq<char>, Map<u32, Map<u32, u32>>>, rev: Map<u32, Set<Seq<char>>>, s: u32)
    requires
        postings_recorded(p, rev),
        rev.contains_key(s),
    ensures
        postings_recorded(clean_postings(p, s, rev[s]), rev.remove(s)),
        !mentions(clean_postings(p, s, rev[s]), s),
{
    let q = clean_postings(p, s, rev[s]);
    assert forall|t: Seq<char>, f: u32, d: u32| q.contains_key(t) && q[t].contains_key(f) && #[trigger] q[t][f].contains_key(d)
        implies d != s && rev.remove(s).contains_key(d) && rev.remove(s)[d].contains(t) by {
        assert(p[t].contains_key(f) && p[t][f].contains_key(d));
    }
}

/// Adding a document, then discarding it, gives back tidy postings that held no posting of
/// its short id.
pub proof fn law_discard_undoes_add(
    p: Map<Seq<char>, Map<u32, Map<u32, u32>>>,
    s: u32,
    names: Seq<Seq<char>>,
    fts: Seq<Option<Seq<Seq<char>>>>,
)
    requires
        postings_tidy(p),
        !mentions(p, s),
        names.len() <= u32::MAX,
    ensures
        clean_postings(add_postings(p, s, names, fts), s, document_terms(names, fts)) == p,
{
    let n = names.len() as int;
    let q = add_postings(p, s, names, fts);
    let dt = document_terms(names, fts);
    let c = clean_postings(q, s, dt);
    assert forall|t: Seq<char>| #[trigger] p.contains_key(t) implies c.contains_key(t) && c[t] == p[t] by {
        if dt.contains(t) {
            let w = without_doc(q[t], s);
            assert forall|f: u32| #[trigger] w.contains_key(f) <==> p[t].contains_key(f) by {
                if p[t].contains_key(f) {
                    assert(!p[t][f].contains_key(s));
                    let x = choose|x: u32| #[trigger] p[t][f].contains_key(x);
                    assert(q[t][f].remove(s).contains_key(x));
                }
                if w.contains_key(f) && !p[t].contains_key(f) {
                    assert(q[t][f].remove(s) =~= Map::<u32, u32>::empty());
                }
            }
            assert forall|f: u32| #[trigger] w.contains_key(f) implies w[f] == p[t][f] by {
                assert(!p[t][f].contains_key(s));
                assert(q[t][f].remove(s) =~= p[t][f]);
            }
            assert(w =~= p[t]);
        }
    }
    assert forall|t: Seq<char>| #[trigger] c.contains_key(t) implies p.contains_key(t) by {
        if !p.contains_key(t) {
            let w = without_doc(q[t], s);
            assert forall|f: u32| !#[trigger] w.contains_key(f) by {
                if q[t].contains_key(f) {
                    assert(q[t][f].remove(s) =~= Map::<u32, u32>::empty());
                }
            }
            assert(w.dom() =~= Set::<u32>::empty());
        }
    }
    assert(c =~= p);
}

/// Adding a document keeps the postings tidy.
pub proof fn law_add_keeps_tidy(p: Map<Seq<char>, Map<u32, Map<u32, u32>>>, s: u32, names: Seq<Seq<char>>, fts: Seq<Option<Seq<Seq<char>>>>)
    requires
        postings_tidy(p),
        names.len() <= u32::MAX,
    ensures
        postings_tidy(add_postings(p, s, names, fts)),
{
    let q = add_postings(p, s, names, fts);
    let n = names.len() as int;
    assert forall|t: Seq<char>| #[trigger] q.contains_key(t) implies !q[t].is_empty() && forall|f: u32| #[trigger] q[t].contains_key(f) ==> !q[t][f].is_empty() by {
        if p.contains_key(t) {
            let f0 = choose|f: u32| #[trigger] p[t].contains_key(f);
            assert(q[t].contains_key(f0));
        } else {
            let f0 = choose|f: int| 0 <= f <= n && #[trigger] recorded_upto(names, fts, n, Set::empty(), t, f);
            assert(q[t].contains_key(f0 as u32));
        }
        assert forall|f: u32| #[trigger] q[t].contains_key(f) implies !q[t][f].is_empty() by {
            if recorded_upto(names, fts, n, Set::empty(), t, f as int) {
                assert(q[t][f].contains_key(s));
            } else {
                let d = choose|d: u32| #[trigger] p[t][f].contains_key(d);
                assert(q[t][f].contains_key(d));
            }
        }
    }
}

/// Taking a document out of the postings of some terms keeps the postings tidy.
pub proof fn law_discard_keeps_tidy(p: Map<Seq<char>, Map<u32, Map<u32, u32>>>, s: u32, terms: Set<Seq<char>>)
    requires
        postings_tidy(p),
    ensures
        postings_tidy(clean_postings(p, s, terms)),
{
}

/// Vacuuming postings that are tidy and recorded, whose reverse-index entries all belong to
/// live documents, changes nothing.
pub proof fn law_vacuum_of_consistent_postings_is_noop(
    p: Map<Seq<char>, Map<u32, Map<u32, u32>>>,
    rev: Map<u32, Set<Seq<char>>>,
    live: Set<u32>,
)
    requires
        postings_tidy(p),
        postings_recorded(p, rev),
        forall|s: u32| #[trigger] rev.contains_key(s) ==> live.contains(s),
    ensures
        vacuum_postings(p, live) == p,
{
    assert forall|t: Seq<char>| #[trigger] p.contains_key(t) implies has_live_posting(p[t], live) by {
        let f = choose|f: u32| #[trigger] p[t].contains_key(f);
        let d = choose|d: u32| #[trigger] p[t][f].contains_key(d);
        assert(rev.contains_key(d));
    }
    assert(vacuum_postings(p, live) =~= p);
}

} // verus!
