use vstd::prelude::*;

use crate::radix_tree::{fuzzy_matches, pairs_view, starts_with, triples_view};
use crate::searchable_map::{FieldTermData, SearchableMap};

verus! {

/// How a term of the index matches a query term.
#[derive(Debug, Clone, Copy, PartialEq, Eq)]
pub enum MatchKind {
    /// The term is the query term.
    Exact,
    /// The term extends the query term.
    Prefix,
    /// The term is the given positive number of edits away from the query term.
    Fuzzy(usize),
}

/// The (term, postings, kind) triples that a result vector holds.
pub open spec fn matches_view<'a>(v: Seq<(String, &'a FieldTermData, MatchKind)>) -> Seq<(Seq<char>, FieldTermData, MatchKind)> {
    v.map_values(|e: (String, &'a FieldTermData, MatchKind)| (e.0@, *e.1, e.2))
}

/// The exact match of `q`, if the map holds it.
pub open spec fn exact_part(m: Map<Seq<char>, FieldTermData>, q: Seq<char>) -> Seq<(Seq<char>, FieldTermData, MatchKind)> {
    if m.contains_key(q) {
        seq![(q, m[q], MatchKind::Exact)]
    } else {
        Seq::empty()
    }
}

/// Whether an entry's key differs from `q`.
pub open spec fn other_than(q: Seq<char>) -> spec_fn((Seq<char>, FieldTermData)) -> bool {
    |e: (Seq<char>, FieldTermData)| e.0 != q
}

/// An entry as a prefix match.
pub open spec fn as_prefix_match() -> spec_fn((Seq<char>, FieldTermData)) -> (Seq<char>, FieldTermData, MatchKind) {
    |e: (Seq<char>, FieldTermData)| (e.0, e.1, MatchKind::Prefix)
}

/// The entries whose key extends `q`, in order, as prefix matches.
pub open spec fn prefix_part(es: Seq<(Seq<char>, FieldTermData)>, q: Seq<char>) -> Seq<(Seq<char>, FieldTermData, MatchKind)> {
    es.filter(starts_with(q)).filter(other_than(q)).map_values(as_prefix_match())
}

/// Whether a fuzzy match is at a positive distance.
pub open spec fn at_positive_distance() -> spec_fn((Seq<char>, FieldTermData, nat)) -> bool {
    |t: (Seq<char>, FieldTermData, nat)| t.2 > 0
}

/// A fuzzy match with its distance.
pub open spec fn as_fuzzy_match() -> spec_fn((Seq<char>, FieldTermData, nat)) -> (Seq<char>, FieldTermData, MatchKind) {
    |t: (Seq<char>, FieldTermData, nat)| (t.0, t.1, MatchKind::Fuzzy(t.2 as usize))
}

/// The entries within `max` edits of `q` but not equal to it, in order, as fuzzy matches.
pub open spec fn fuzzy_part(es: Seq<(Seq<char>, FieldTermData)>, q: Seq<char>, max: nat) -> Seq<(Seq<char>, FieldTermData, MatchKind)> {
    fuzzy_matches(es, q, max).filter(at_positive_distance()).map_values(as_fuzzy_match())
}

proof fn lemma_filter_push<A>(s: Seq<A>, x: A, p: spec_fn(A) -> bool)
    ensures
        s.push(x).filter(p) == if p(x) { s.filter(p).push(x) } else { s.filter(p) },
{
    reveal(Seq::filter);
    assert(s.push(x).drop_last() =~= s);
}

/// The terms of `index` that match `query`: the exact match, then, when `prefix` is set, the
/// longer terms that start with it, then, when `fuzzy` gives a distance, the other terms within
/// that many edits, each with its distance.
pub fn term_matches<'a>(index: &'a SearchableMap, query: &str, prefix: bool, fuzzy: Option<usize>) -> (r: Vec<(String, &'a FieldTermData, MatchKind)>)
    requires
        index.wf(),
        fuzzy is Some ==> query@.len() < usize::MAX,
    ensures
        matches_view(r@) == exact_part(index@, query@) + (if prefix {
            prefix_part(index.entries(), query@)
        } else {
            Seq::empty()
        }) + (match fuzzy {
            Some(m) => fuzzy_part(index.entries(), query@, m as nat),
            None => Seq::empty(),
        }),
{
    let mut out: Vec<(String, &'a FieldTermData, MatchKind)> = Vec::new();
    let q = query.to_string();
    match index.get(query) {
        Some(d) => {
            out.push((query.to_string(), d, MatchKind::Exact));
        },
        None => {},
    }
    assert(matches_view(out@) =~= exact_part(index@, query@));
    let ghost after_exact = matches_view(out@);
    if prefix {
        match index.at_prefix(query) {
            Some(view) => {
                let es = view.iter();
                let ghost pv = pairs_view(es@);
                let mut i: usize = 0;
                assert(pv.take(0) =~= Seq::<(Seq<char>, FieldTermData)>::empty());
                while i < es.len()
                    invariant
                        q@ == query@,
                        pv == pairs_view(es@),
                        i <= es@.len(),
                        matches_view(out@) == after_exact + pv.take(i as int).filter(other_than(query@)).map_values(as_prefix_match()),
                    decreases es@.len() - i,
                {
                    let ghost before = out@;
                    proof {
                        assert(pv.take(i + 1) =~= pv.take(i as int).push(pv[i as int]));
                        lemma_filter_push(pv.take(i as int), pv[i as int], other_than(query@));
                    }
                    let ghost old_f = pv.take(i as int).filter(other_than(query@));
                    if es[i].0 != q {
                        out.push((es[i].0.clone(), es[i].1, MatchKind::Prefix));
                        assert(matches_view(out@) =~= matches_view(before).push(as_prefix_match()(pv[i as int])));
                        assert(old_f.push(pv[i as int]).map_values(as_prefix_match()) =~= old_f.map_values(as_prefix_match()).push(as_prefix_match()(pv[i as int])));
                    }
                    assert(matches_view(out@) =~= after_exact + pv.take(i + 1).filter(other_than(query@)).map_values(as_prefix_match()));
                    i = i + 1;
                }
                assert(pv.take(es@.len() as int) =~= pv);
            },
            None => {
                assert(index.entries().filter(starts_with(query@)) =~= Seq::<(Seq<char>, FieldTermData)>::empty());
                assert(prefix_part(index.entries(), query@) =~= Seq::<(Seq<char>, FieldTermData, MatchKind)>::empty());
                assert(matches_view(out@) =~= after_exact + prefix_part(index.entries(), query@));
            },
        }
    }
    let ghost after_prefix = matches_view(out@);
    match fuzzy {
        Some(m) => {
            let fs = index.fuzzy_search(query, m);
            let ghost tv = triples_view(fs@);
            let mut i: usize = 0;
            assert(tv.take(0) =~= Seq::<(Seq<char>, FieldTermData, nat)>::empty());
            while i < fs.len()
                invariant
                    tv == triples_view(fs@),
                    i <= fs@.len(),
                    matches_view(out@) == after_prefix + tv.take(i as int).filter(at_positive_distance()).map_values(as_fuzzy_match()),
                decreases fs@.len() - i,
            {
                proof {
                    assert(tv.take(i + 1) =~= tv.take(i as int).push(tv[i as int]));
                    lemma_filter_push(tv.take(i as int), tv[i as int], at_positive_distance());
                }
                let ghost before = out@;
                let ghost old_f = tv.take(i as int).filter(at_positive_distance());
                if fs[i].2 > 0 {
                    out.push((fs[i].0.clone(), fs[i].1, MatchKind::Fuzzy(fs[i].2)));
                    assert(matches_view(out@) =~= matches_view(before).push(as_fuzzy_match()(tv[i as int])));
                    assert(old_f.push(tv[i as int]).map_values(as_fuzzy_match()) =~= old_f.map_values(as_fuzzy_match()).push(as_fuzzy_match()(tv[i as int])));
                }
                assert(matches_view(out@) =~= after_prefix + tv.take(i + 1).filter(at_positive_distance()).map_values(as_fuzzy_match()));
                i = i + 1;
            }
            assert(tv.take(fs@.len() as int) =~= tv);
        },
        None => {
            assert(matches_view(out@) =~= after_prefix + Seq::<(Seq<char>, FieldTermData, MatchKind)>::empty());
        },
    }
    if !prefix {
        assert(after_prefix =~= after_exact + Seq::<(Seq<char>, FieldTermData, MatchKind)>::empty());
    }
    out
}

} // verus!
