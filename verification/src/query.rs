use vstd::prelude::*;

use crate::text::same_text;

verus! {

/// How the results of several queries are combined.
#[derive(Debug, Clone, Copy, PartialEq, Eq)]
pub enum CombineWith {
    /// A document matches when any query matches it.
    Or,
    /// A document matches when every query matches it.
    And,
    /// A document matches when the first query with results matches it and no other query does.
    AndNot,
}

impl Default for CombineWith {
    /// `Or`.
    fn default() -> (r: Self)
        ensures
            r == CombineWith::Or,
    {
        CombineWith::Or
    }
}

impl CombineWith {
    /// The combination named `name`: "and" or "and_not"; any other name means `Or`.
    pub fn from_name(name: &str) -> (r: CombineWith)
        ensures
            r == if name@ == "and"@ {
                CombineWith::And
            } else if name@ == "and_not"@ {
                CombineWith::AndNot
            } else {
                CombineWith::Or
            },
    {
        if same_text(name, "and") {
            CombineWith::And
        } else if same_text(name, "and_not") {
            CombineWith::AndNot
        } else {
            CombineWith::Or
        }
    }
}

/// A query: a term, a combination of queries, or every document.
#[derive(Debug)]
pub enum Query {
    /// A simple term query.
    Term(String),
    /// Several queries combined.
    Combined { combine_with: CombineWith, queries: Vec<Query> },
    /// Match all documents.
    Wildcard,
}

/// `a` and `b` are the same query: the same terms, combined the same way.
pub open spec fn same_query(a: Query, b: Query) -> bool
    decreases a,
{
    match (a, b) {
        (Query::Term(x), Query::Term(y)) => x@ == y@,
        (Query::Combined { combine_with: ma, queries: qa }, Query::Combined { combine_with: mb, queries: qb }) => {
            &&& ma == mb
            &&& qa@.len() == qb@.len()
            &&& forall|i: int| 0 <= i < qa@.len() ==> same_query(#[trigger] qa@[i], qb@[i])
        },
        (Query::Wildcard, Query::Wildcard) => true,
        _ => false,
    }
}

impl Query {
    fn copy(&self) -> (r: Query)
        ensures
            same_query(*self, r),
        decreases self,
    {
        match self {
            Query::Term(t) => Query::Term(t.clone()),
            Query::Combined { combine_with, queries } => {
                let mut out: Vec<Query> = Vec::new();
                let mut i: usize = 0;
                while i < queries.len()
                    invariant
                        *self == (Query::Combined { combine_with: *combine_with, queries: *queries }),
                        i <= queries@.len(),
                        out@.len() == i,
                        forall|j: int| 0 <= j < i ==> same_query(#[trigger] queries@[j], out@[j]),
                    decreases queries@.len() - i,
                {
                    proof {
                        assert(self->queries == *queries);
                        assert(decreases_to!(*self => self->queries));
                        assert(decreases_to!(*queries => queries@));
                        assert(decreases_to!(queries@ => queries@[i as int]));
                    }
                    let c = queries[i].copy();
                    out.push(c);
                    i = i + 1;
                }
                Query::Combined { combine_with: *combine_with, queries: out }
            },
            Query::Wildcard => Query::Wildcard,
        }
    }
}

impl Clone for Query {
    /// The same query.
    fn clone(&self) -> (r: Self)
        ensures
            same_query(*self, r),
    {
        self.copy()
    }
}

/// The indices `k < n` whose result list contains `d`, in increasing order.
pub open spec fn indices_containing(subs: Seq<Seq<u32>>, d: u32, n: int) -> Seq<usize>
    decreases n,
{
    if n <= 0 {
        Seq::empty()
    } else if subs[n - 1].contains(d) {
        indices_containing(subs, d, n - 1).push((n - 1) as usize)
    } else {
        indices_containing(subs, d, n - 1)
    }
}

/// The first result list that is not empty, if any.
pub open spec fn first_nonempty(subs: Seq<Seq<u32>>) -> Option<int> {
    if exists|k: int| 0 <= k < subs.len() && subs[k].len() > 0 {
        Some(choose|k: int| 0 <= k < subs.len() && subs[k].len() > 0 && forall|j: int| 0 <= j < k ==> subs[j].len() == 0)
    } else {
        None
    }
}

/// Whether document `d` is in the combination of the result lists `subs`.
pub open spec fn survives(subs: Seq<Seq<u32>>, mode: CombineWith, d: u32) -> bool {
    match mode {
        CombineWith::Or => exists|k: int| 0 <= k < subs.len() && subs[k].contains(d),
        CombineWith::And => subs.len() > 0 && forall|k: int| 0 <= k < subs.len() ==> subs[k].contains(d),
        CombineWith::AndNot => match first_nonempty(subs) {
            Some(k0) => subs[k0].contains(d) && forall|k: int| k0 < k < subs.len() ==> !subs[k].contains(d),
            None => false,
        },
    }
}

/// The result lists whose data a surviving document `d` takes, in order.
pub open spec fn contributing(subs: Seq<Seq<u32>>, mode: CombineWith, d: u32) -> Seq<usize> {
    match mode {
        CombineWith::Or => indices_containing(subs, d, subs.len() as int),
        CombineWith::And => Seq::new(subs.len(), |k: int| k as usize),
        CombineWith::AndNot => match first_nonempty(subs) {
            Some(k0) => seq![k0 as usize],
            None => Seq::empty(),
        },
    }
}

/// The document lists that a vector of vectors holds.
pub open spec fn lists_view(subs: Seq<Vec<u32>>) -> Seq<Seq<u32>> {
    subs.map_values(|v: Vec<u32>| v@)
}

/// Whether some entry of `r` is for document `d`.
pub open spec fn has_doc(r: Seq<(u32, Vec<usize>)>, d: u32) -> bool {
    exists|a: int| 0 <= a < r.len() && r[a].0 == d
}

/// Whether one of the first `k` lists contains `d`.
pub open spec fn in_some(ss: Seq<Seq<u32>>, d: u32, k: int) -> bool {
    exists|j: int| 0 <= j < k && ss[j].contains(d)
}

/// Whether each of the first `k` lists contains `d`.
pub open spec fn in_all(ss: Seq<Seq<u32>>, d: u32, k: int) -> bool {
    forall|j: int| 0 <= j < k ==> ss[j].contains(d)
}

/// Whether the documents of `r` are distinct.
pub open spec fn docs_distinct(r: Seq<(u32, Vec<usize>)>) -> bool {
    forall|a: int, b: int| 0 <= a < r.len() && 0 <= b < r.len() && a != b ==> r[a].0 != r[b].0
}

proof fn lemma_first_nonempty(subs: Seq<Seq<u32>>, k0: int)
    requires
        0 <= k0 < subs.len(),
        subs[k0].len() > 0,
        forall|j: int| 0 <= j < k0 ==> subs[j].len() == 0,
    ensures
        first_nonempty(subs) == Some(k0),
{
    let k = choose|k: int| 0 <= k < subs.len() && subs[k].len() > 0 && forall|j: int| 0 <= j < k ==> subs[j].len() == 0;
    if k < k0 {
        assert(subs[k].len() == 0);
    }
    if k0 < k {
        assert(subs[k0].len() == 0);
    }
}

fn position_of(r: &Vec<(u32, Vec<usize>)>, d: u32) -> (p: usize)
    ensures
        p <= r@.len(),
        p < r@.len() ==> r@[p as int].0 == d,
        p == r@.len() ==> forall|a: int| 0 <= a < r@.len() ==> r@[a].0 != d,
{
    let mut p: usize = 0;
    while p < r.len()
        invariant
            p <= r@.len(),
            forall|a: int| 0 <= a < p ==> r@[a].0 != d,
        decreases r@.len() - p,
    {
        if r[p].0 == d {
            return p;
        }
        p = p + 1;
    }
    p
}

fn list_contains(v: &Vec<u32>, d: u32) -> (b: bool)
    ensures
        b == v@.contains(d),
{
    let mut i: usize = 0;
    while i < v.len()
        invariant
            i <= v@.len(),
            forall|a: int| 0 <= a < i ==> v@[a] != d,
        decreases v@.len() - i,
    {
        if v[i] == d {
            return true;
        }
        i = i + 1;
    }
    false
}

proof fn lemma_has_doc_push(before: Seq<(u32, Vec<usize>)>, e: (u32, Vec<usize>))
    ensures
        forall|d: u32| #[trigger] has_doc(before, d) ==> has_doc(before.push(e), d),
        has_doc(before.push(e), e.0),
{
    assert forall|d: u32| #[trigger] has_doc(before, d) implies has_doc(before.push(e), d) by {
        let a = choose|a: int| 0 <= a < before.len() && before[a].0 == d;
        assert(before.push(e)[a] == before[a]);
    }
    assert(before.push(e)[before.len() as int] == e);
}

fn indices_with(subs: &Vec<Vec<u32>>, d: u32) -> (r: Vec<usize>)
    ensures
        r@ == indices_containing(lists_view(subs@), d, subs@.len() as int),
{
    let ghost ss = lists_view(subs@);
    let mut r: Vec<usize> = Vec::new();
    let mut k: usize = 0;
    while k < subs.len()
        invariant
            ss == lists_view(subs@),
            k <= subs@.len(),
            r@ == indices_containing(ss, d, k as int),
        decreases subs@.len() - k,
    {
        if list_contains(&subs[k], d) {
            r.push(k);
        }
        k = k + 1;
    }
    r
}

fn in_every(subs: &Vec<Vec<u32>>, d: u32) -> (b: bool)
    ensures
        b == in_all(lists_view(subs@), d, subs@.len() as int),
{
    let ghost ss = lists_view(subs@);
    let mut k: usize = 0;
    while k < subs.len()
        invariant
            ss == lists_view(subs@),
            k <= subs@.len(),
            in_all(ss, d, k as int),
        decreases subs@.len() - k,
    {
        assert(ss[k as int] == subs@[k as int]@);
        if !list_contains(&subs[k], d) {
            return false;
        }
        k = k + 1;
    }
    true
}

fn in_none_after(subs: &Vec<Vec<u32>>, d: u32, k0: usize) -> (b: bool)
    requires
        k0 < subs@.len(),
    ensures
        b == forall|k: int| k0 < k < subs@.len() ==> !lists_view(subs@)[k].contains(d),
{
    let ghost ss = lists_view(subs@);
    let n = subs.len();
    let mut k: usize = k0 + 1;
    while k < subs.len()
        invariant
            ss == lists_view(subs@),
            k0 < k <= subs@.len(),
            forall|j: int| k0 < j < k ==> !ss[j].contains(d),
        decreases subs@.len() - k,
    {
        assert(ss[k as int] == subs@[k as int]@);
        if list_contains(&subs[k], d) {
            return false;
        }
        k = k + 1;
    }
    true
}

fn all_indices(n: usize) -> (r: Vec<usize>)
    ensures
        r@ == Seq::new(n as nat, |x: int| x as usize),
{
    let mut ks: Vec<usize> = Vec::new();
    let mut j: usize = 0;
    while j < n
        invariant
            j <= n,
            ks@ == Seq::new(j as nat, |x: int| x as usize),
        decreases n - j,
    {
        ks.push(j);
        j = j + 1;
        assert(ks@ =~= Seq::new(j as nat, |x: int| x as usize));
    }
    ks
}

fn combine_or(subs: &Vec<Vec<u32>>) -> (r: Vec<(u32, Vec<usize>)>)
    ensures
        docs_distinct(r@),
        forall|a: int| 0 <= a < r@.len() ==> in_some(lists_view(subs@), (#[trigger] r@[a]).0, subs@.len() as int)
            && r@[a].1@ == indices_containing(lists_view(subs@), r@[a].0, subs@.len() as int),
        forall|d: u32| #[trigger] in_some(lists_view(subs@), d, subs@.len() as int) ==> has_doc(r@, d),
{
    let ghost ss = lists_view(subs@);
    let n = subs.len();
    let mut out: Vec<(u32, Vec<usize>)> = Vec::new();
    let mut k: usize = 0;
    while k < n
        invariant
            n == subs@.len(),
            ss == lists_view(subs@),
            k <= n,
            docs_distinct(out@),
            forall|a: int| 0 <= a < out@.len() ==> in_some(ss, (#[trigger] out@[a]).0, n as int)
                && out@[a].1@ == indices_containing(ss, out@[a].0, n as int),
            forall|d: u32| #[trigger] in_some(ss, d, k as int) ==> has_doc(out@, d),
        decreases n - k,
    {
        let sub = &subs[k];
        assert(sub@ == ss[k as int]);
        let mut i: usize = 0;
        while i < sub.len()
            invariant
                n == subs@.len(),
                ss == lists_view(subs@),
                k < n,
                sub@ == ss[k as int],
                i <= sub@.len(),
                docs_distinct(out@),
                forall|a: int| 0 <= a < out@.len() ==> in_some(ss, (#[trigger] out@[a]).0, n as int)
                    && out@[a].1@ == indices_containing(ss, out@[a].0, n as int),
                forall|d: u32| #[trigger] in_some(ss, d, k as int) ==> has_doc(out@, d),
                forall|d: u32| #[trigger] sub@.take(i as int).contains(d) ==> has_doc(out@, d),
            decreases sub@.len() - i,
        {
            let d = sub[i];
            assert(sub@.take(i + 1) =~= sub@.take(i as int).push(d));
            let p = position_of(&out, d);
            if p == out.len() {
                let ks = indices_with(subs, d);
                assert(ss[k as int].contains(d)) by {
                    assert(sub@[i as int] == d);
                }
                assert(in_some(ss, d, n as int));
                let ghost before = out@;
                proof {
                    lemma_has_doc_push(before, (d, ks));
                }
                out.push((d, ks));
            }
            assert(has_doc(out@, d));
            proof {
                assert forall|d2: u32| #[trigger] sub@.take(i + 1).contains(d2) implies has_doc(out@, d2) by {
                    if d2 != d {
                        let j = choose|j: int| 0 <= j < i + 1 && #[trigger] sub@.take(i + 1)[j] == d2;
                        assert(sub@.take(i as int)[j] == d2);
                        assert(sub@.take(i as int).contains(d2));
                    }
                }
            }
            i = i + 1;
        }
        proof {
            assert(sub@.take(sub@.len() as int) =~= sub@);
            assert forall|d: u32| #[trigger] in_some(ss, d, k + 1) implies has_doc(out@, d) by {
                if !in_some(ss, d, k as int) {
                    let j = choose|j: int| 0 <= j < k + 1 && ss[j].contains(d);
                    assert(j == k);
                    assert(sub@.take(sub@.len() as int).contains(d));
                }
            }
        }
        k = k + 1;
    }
    out
}

fn combine_from_one(subs: &Vec<Vec<u32>>, k0: usize, and: bool) -> (r: Vec<(u32, Vec<usize>)>)
    requires
        k0 < subs@.len(),
        and ==> k0 == 0,
    ensures
        docs_distinct(r@),
        forall|a: int| 0 <= a < r@.len() ==> lists_view(subs@)[k0 as int].contains((#[trigger] r@[a]).0)
            && (and ==> in_all(lists_view(subs@), r@[a].0, subs@.len() as int))
            && (!and ==> forall|k: int| k0 < k < subs@.len() ==> !lists_view(subs@)[k].contains(r@[a].0))
            && r@[a].1@ == if and { Seq::new(subs@.len(), |x: int| x as usize) } else { seq![k0] },
        forall|d: u32| #[trigger] lists_view(subs@)[k0 as int].contains(d)
            && (and ==> in_all(lists_view(subs@), d, subs@.len() as int))
            && (!and ==> forall|k: int| k0 < k < subs@.len() ==> !lists_view(subs@)[k].contains(d))
            ==> has_doc(r@, d),
{
    let ghost ss = lists_view(subs@);
    let n = subs.len();
    let mut out: Vec<(u32, Vec<usize>)> = Vec::new();
    let sub = &subs[k0];
    assert(sub@ == ss[k0 as int]);
    let mut i: usize = 0;
    while i < sub.len()
        invariant
            n == subs@.len(),
            ss == lists_view(subs@),
            k0 < n,
            and ==> k0 == 0,
            sub@ == ss[k0 as int],
            i <= sub@.len(),
            docs_distinct(out@),
            forall|a: int| 0 <= a < out@.len() ==> ss[k0 as int].contains((#[trigger] out@[a]).0)
                && (and ==> in_all(ss, out@[a].0, n as int))
                && (!and ==> forall|k: int| k0 < k < n ==> !ss[k].contains(out@[a].0))
                && out@[a].1@ == if and { Seq::new(n as nat, |x: int| x as usize) } else { seq![k0] },
            forall|d: u32| #[trigger] sub@.take(i as int).contains(d)
                && (and ==> in_all(ss, d, n as int))
                && (!and ==> forall|k: int| k0 < k < n ==> !ss[k].contains(d))
                ==> has_doc(out@, d),
        decreases sub@.len() - i,
    {
        let d = sub[i];
        assert(sub@.take(i + 1) =~= sub@.take(i as int).push(d));
        assert(ss[k0 as int].contains(d)) by {
            assert(sub@[i as int] == d);
        }
        let p = position_of(&out, d);
        if p == out.len() {
            let keep = if and { in_every(subs, d) } else { in_none_after(subs, d, k0) };
            if keep {
                let ks = if and { all_indices(n) } else {
                    let mut ks: Vec<usize> = Vec::new();
                    ks.push(k0);
                    assert(ks@ =~= seq![k0]);
                    ks
                };
                let ghost before = out@;
                proof {
                    lemma_has_doc_push(before, (d, ks));
                }
                out.push((d, ks));
            }
        } else {
            assert(has_doc(out@, d));
        }
        proof {
            assert forall|d2: u32| #[trigger] sub@.take(i + 1).contains(d2)
                && (and ==> in_all(ss, d2, n as int))
                && (!and ==> forall|k: int| k0 < k < n ==> !ss[k].contains(d2))
                implies has_doc(out@, d2) by {
                if d2 != d {
                    let j = choose|j: int| 0 <= j < i + 1 && #[trigger] sub@.take(i + 1)[j] == d2;
                    assert(sub@.take(i as int)[j] == d2);
                    assert(sub@.take(i as int).contains(d2));
                }
            }
        }
        i = i + 1;
    }
    assert(sub@.take(sub@.len() as int) =~= sub@);
    out
}

/// Combines per-query result lists (each a list of distinct document ids) into the
/// documents that match the combination, each with the lists whose data it takes.
/// Empty lists are dropped first unless `mode` is `And`.
pub fn combine_results(subs: &Vec<Vec<u32>>, mode: CombineWith) -> (r: Vec<(u32, Vec<usize>)>)
    ensures
        docs_distinct(r@),
        forall|a: int| 0 <= a < r@.len() ==> survives(lists_view(subs@), mode, (#[trigger] r@[a]).0)
            && r@[a].1@ == contributing(lists_view(subs@), mode, r@[a].0),
        forall|d: u32| #[trigger] survives(lists_view(subs@), mode, d) ==> has_doc(r@, d),
{
    let ghost ss = lists_view(subs@);
    let n = subs.len();
    match mode {
        CombineWith::Or => {
            let r = combine_or(subs);
            proof {
                assert forall|d: u32| #[trigger] survives(ss, mode, d) implies has_doc(r@, d) by {
                    assert(in_some(ss, d, n as int));
                }
            }
            r
        },
        CombineWith::And => {
            if n == 0 {
                return Vec::new();
            }
            let r = combine_from_one(subs, 0, true);
            proof {
                assert forall|d: u32| #[trigger] survives(ss, mode, d) implies has_doc(r@, d) by {
                    assert(ss[0].contains(d));
                }
            }
            r
        },
        CombineWith::AndNot => {
            let mut k0: usize = 0;
            while k0 < n && subs[k0].len() == 0
                invariant
                    n == subs@.len(),
                    ss == lists_view(subs@),
                    k0 <= n,
                    forall|j: int| 0 <= j < k0 ==> ss[j].len() == 0,
                decreases n - k0,
            {
                assert(ss[k0 as int] == subs@[k0 as int]@);
                k0 = k0 + 1;
            }
            if k0 == n {
                assert(!(exists|k: int| 0 <= k < ss.len() && ss[k].len() > 0));
                return Vec::new();
            }
            assert(ss[k0 as int] == subs@[k0 as int]@);
            proof {
                lemma_first_nonempty(ss, k0 as int);
            }
            combine_from_one(subs, k0, false)
        },
    }
}

} // verus!
