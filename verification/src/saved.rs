use vstd::prelude::*;

use std::collections::BTreeMap;
use std::collections::HashMap;

use crate::document_index::{increasing, pairs_of, DocumentIndex};
use crate::postings::{deep_postings, keys_of_map, term_view};
use crate::radix_tree::RadixTree;
use crate::searchable_map::{FieldTermData, SearchableMap};
use crate::text::{decimal_digits, decimal_text, lemma_decimal_round_trip, parse_u32, parsed_u32};

verus! {

broadcast use {
    vstd::std_specs::hash::group_hash_axioms,
    vstd::std_specs::btree::group_btree_axioms,
    vstd::laws_cmp::group_laws_cmp,
    vstd::string::group_string_axioms,
};

/// Why a saved index could not be restored.
#[derive(Debug, Clone, Copy, PartialEq, Eq)]
pub enum RestoreError {
    /// A document short id is not a `u32`.
    InvalidShortId,
    /// A field id in the postings is not a `u32`.
    InvalidFieldId,
    /// A document short id in the postings is not a `u32`.
    InvalidDocId,
}

impl RestoreError {
    /// The error's message.
    pub fn message(&self) -> (r: String)
        ensures
            r@ == match *self {
                RestoreError::InvalidShortId => "invalid short id"@,
                RestoreError::InvalidFieldId => "invalid field id"@,
                RestoreError::InvalidDocId => "invalid doc id"@,
            },
    {
        match self {
            RestoreError::InvalidShortId => "invalid short id".to_string(),
            RestoreError::InvalidFieldId => "invalid field id".to_string(),
            RestoreError::InvalidDocId => "invalid doc id".to_string(),
        }
    }
}

/// Saved document ids: (short id text, document id).
pub open spec fn saved_documents_view(v: Seq<(String, String)>) -> Seq<(Seq<char>, Seq<char>)> {
    pairs_of(v)
}

/// Saved field lengths: (short id text, lengths).
pub open spec fn saved_rows_view(v: Seq<(String, Vec<u32>)>) -> Seq<(Seq<char>, Seq<u32>)> {
    v.map_values(|e: (String, Vec<u32>)| (e.0@, e.1@))
}

/// Saved stored fields: (short id text, (field name, value) pairs).
pub open spec fn saved_stored_view(v: Seq<(String, Vec<(String, String)>)>) -> Seq<(Seq<char>, Seq<(Seq<char>, Seq<char>)>)> {
    v.map_values(|e: (String, Vec<(String, String)>)| (e.0@, pairs_of(e.1@)))
}

/// Saved postings of one field: (short id text, frequency).
pub open spec fn saved_docs_view(v: Seq<(String, u32)>) -> Seq<(Seq<char>, u32)> {
    v.map_values(|e: (String, u32)| (e.0@, e.1))
}

/// Saved postings of one term: (field id text, postings of the field).
pub open spec fn saved_fields_view(v: Seq<(String, Vec<(String, u32)>)>) -> Seq<(Seq<char>, Seq<(Seq<char>, u32)>)> {
    v.map_values(|e: (String, Vec<(String, u32)>)| (e.0@, saved_docs_view(e.1@)))
}

/// Saved postings: (term, postings of the term).
pub open spec fn saved_index_view(
    v: Seq<(String, Vec<(String, Vec<(String, u32)>)>)>,
) -> Seq<(Seq<char>, Seq<(Seq<char>, Seq<(Seq<char>, u32)>)>)> {
    v.map_values(|e: (String, Vec<(String, Vec<(String, u32)>)>)| (e.0@, saved_fields_view(e.1@)))
}

/// Every key reads as a `u32`.
pub open spec fn keys_parse<V>(ps: Seq<(Seq<char>, V)>) -> bool {
    forall|i: int| 0 <= i < ps.len() ==> (#[trigger] parsed_u32(ps[i].0)) is Some
}

/// The map that keyed entries restore: each key read as a `u32`, a later entry replacing an
/// earlier one with the same key.
pub open spec fn restored_map<V>(ps: Seq<(Seq<char>, V)>) -> Map<u32, V>
    decreases ps.len(),
{
    if ps.len() == 0 {
        Map::empty()
    } else {
        restored_map(ps.drop_last()).insert(parsed_u32(ps.last().0)->0, ps.last().1)
    }
}

/// The map from document id to short id that saved document ids restore, a later entry
/// replacing an earlier one.
pub open spec fn restored_short_ids(ps: Seq<(Seq<char>, Seq<char>)>) -> Map<Seq<char>, u32>
    decreases ps.len(),
{
    if ps.len() == 0 {
        Map::empty()
    } else {
        restored_short_ids(ps.drop_last()).insert(ps.last().1, parsed_u32(ps.last().0)->0)
    }
}

/// `m` with the saved postings `ds` of one field added, a later entry replacing an earlier one.
pub open spec fn merge_docs(m: Map<u32, u32>, ds: Seq<(Seq<char>, u32)>) -> Map<u32, u32>
    decreases ds.len(),
{
    if ds.len() == 0 {
        m
    } else {
        merge_docs(m, ds.drop_last()).insert(parsed_u32(ds.last().0)->0, ds.last().1)
    }
}

/// `v` with the saved postings of one field added to that field.
pub open spec fn merge_field(v: Map<u32, Map<u32, u32>>, e: (Seq<char>, Seq<(Seq<char>, u32)>)) -> Map<u32, Map<u32, u32>> {
    let f = parsed_u32(e.0)->0;
    v.insert(f, merge_docs(if v.contains_key(f) { v[f] } else { Map::empty() }, e.1))
}

/// `v` with the saved postings of one term added, field by field.
pub open spec fn merge_fields(v: Map<u32, Map<u32, u32>>, fs: Seq<(Seq<char>, Seq<(Seq<char>, u32)>)>) -> Map<u32, Map<u32, u32>>
    decreases fs.len(),
{
    if fs.len() == 0 {
        v
    } else {
        merge_field(merge_fields(v, fs.drop_last()), fs.last())
    }
}

/// The postings that saved postings restore, term by term; the entries of a term listed twice
/// are merged.
pub open spec fn restored_postings(ix: Seq<(Seq<char>, Seq<(Seq<char>, Seq<(Seq<char>, u32)>)>)>) -> Map<Seq<char>, Map<u32, Map<u32, u32>>>
    decreases ix.len(),
{
    if ix.len() == 0 {
        Map::empty()
    } else {
        let p = restored_postings(ix.drop_last());
        let t = ix.last().0;
        p.insert(t, merge_fields(if p.contains_key(t) { p[t] } else { Map::empty() }, ix.last().1))
    }
}

/// The first key of the saved postings of one term, in order, that does not read as a
/// `u32`: a field id is read before the short ids of its postings.
pub open spec fn fields_error(fs: Seq<(Seq<char>, Seq<(Seq<char>, u32)>)>) -> Option<RestoreError>
    decreases fs.len(),
{
    if fs.len() == 0 {
        None
    } else if fields_error(fs.drop_last()) is Some {
        fields_error(fs.drop_last())
    } else if parsed_u32(fs.last().0) is None {
        Some(RestoreError::InvalidFieldId)
    } else if !keys_parse(fs.last().1) {
        Some(RestoreError::InvalidDocId)
    } else {
        None
    }
}

/// The first error in saved postings, term by term.
pub open spec fn index_error(ix: Seq<(Seq<char>, Seq<(Seq<char>, Seq<(Seq<char>, u32)>)>)>) -> Option<RestoreError>
    decreases ix.len(),
{
    if ix.len() == 0 {
        None
    } else if index_error(ix.drop_last()) is Some {
        index_error(ix.drop_last())
    } else {
        fields_error(ix.last().1)
    }
}

pub(crate) proof fn lemma_fields_error_prefix(fs: Seq<(Seq<char>, Seq<(Seq<char>, u32)>)>, j: int)
    requires
        0 <= j <= fs.len(),
        fields_error(fs.take(j)) is Some,
    ensures
        fields_error(fs) == fields_error(fs.take(j)),
    decreases fs.len(),
{
    if j < fs.len() {
        assert(fs.drop_last().take(j) =~= fs.take(j));
        lemma_fields_error_prefix(fs.drop_last(), j);
    } else {
        assert(fs.take(j) =~= fs);
    }
}

pub(crate) proof fn lemma_index_error_prefix(ix: Seq<(Seq<char>, Seq<(Seq<char>, Seq<(Seq<char>, u32)>)>)>, i: int)
    requires
        0 <= i <= ix.len(),
        index_error(ix.take(i)) is Some,
    ensures
        index_error(ix) == index_error(ix.take(i)),
    decreases ix.len(),
{
    if i < ix.len() {
        assert(ix.drop_last().take(i) =~= ix.take(i));
        lemma_index_error_prefix(ix.drop_last(), i);
    } else {
        assert(ix.take(i) =~= ix);
    }
}

/// A copy of `v`.
pub(crate) fn copy_row(v: &Vec<u32>) -> (r: Vec<u32>)
    ensures
        r@ == v@,
{
    let mut out: Vec<u32> = Vec::new();
    let mut i: usize = 0;
    while i < v.len()
        invariant
            i <= v@.len(),
            out@ == v@.take(i as int),
        decreases v@.len() - i,
    {
        out.push(v[i]);
        assert(out@ =~= v@.take(i + 1));
        i = i + 1;
    }
    assert(v@.take(v@.len() as int) =~= v@);
    out
}

/// A copy of the pairs `v`.
pub(crate) fn copy_pairs(v: &Vec<(String, String)>) -> (r: Vec<(String, String)>)
    ensures
        pairs_of(r@) == pairs_of(v@),
{
    let mut out: Vec<(String, String)> = Vec::new();
    let mut i: usize = 0;
    while i < v.len()
        invariant
            i <= v@.len(),
            out@.len() == i,
            pairs_of(out@) == pairs_of(v@).take(i as int),
        decreases v@.len() - i,
    {
        let a = v[i].0.clone();
        let b = v[i].1.clone();
        let ghost before = out@;
        out.push((a, b));
        assert(out@ == before.push((a, b)));
        assert(pairs_of(out@) =~= pairs_of(v@).take(i + 1)) by {
            assert forall|x: int| 0 <= x < i + 1 implies pairs_of(out@)[x] == pairs_of(v@).take(i + 1)[x] by {
                if x < i {
                    assert(out@[x] == before[x]);
                    assert(pairs_of(before)[x] == pairs_of(v@).take(i as int)[x]);
                }
            }
        }
        i = i + 1;
    }
    assert(pairs_of(v@).take(v@.len() as int) =~= pairs_of(v@));
    out
}

/// Document ids seen as character sequences.
pub open spec fn documents_view(m: Map<u32, String>) -> Map<u32, Seq<char>> {
    Map::new(|s: u32| m.contains_key(s), |s: u32| m[s]@)
}

/// Restores the document ids: short id -> id, and id -> short id. `None` if a short id
/// does not read as a `u32`.
pub(crate) fn restore_documents(saved: &Vec<(String, String)>) -> (r: Option<(BTreeMap<u32, String>, RadixTree<u32>)>)
    ensures
        r is Some <==> keys_parse(saved_documents_view(saved@)),
        r matches Some((m, t)) ==> {
            &&& documents_view(m@) == restored_map(saved_documents_view(saved@))
            &&& t.wf()
            &&& t@ == restored_short_ids(saved_documents_view(saved@))
        },
{
    let ghost sv = saved_documents_view(saved@);
    let mut docs: BTreeMap<u32, String> = BTreeMap::new();
    let mut ids: RadixTree<u32> = RadixTree::new();
    let mut i: usize = 0;
    assert(documents_view(docs@) =~= restored_map(sv.take(0)));
    assert(ids@ =~= restored_short_ids(sv.take(0)));
    while i < saved.len()
        invariant
            sv == saved_documents_view(saved@),
            i <= saved@.len(),
            keys_parse(sv.take(i as int)),
            documents_view(docs@) == restored_map(sv.take(i as int)),
            ids.wf(),
            ids@ == restored_short_ids(sv.take(i as int)),
            ids@.dom().len() <= i,
        decreases saved@.len() - i,
    {
        let ghost prev = sv.take(i as int);
        assert(sv.take(i + 1).drop_last() =~= prev);
        assert(sv.take(i + 1).last() == sv[i as int]);
        proof {
            ids.lemma_entries_match_view();
        }
        match parse_u32(saved[i].0.as_str()) {
            Some(s) => {
                docs.insert(s, saved[i].1.clone());
                ids.insert(saved[i].1.as_str(), s);
                assert(documents_view(docs@) =~= restored_map(sv.take(i + 1)));
                assert(keys_parse(sv.take(i + 1))) by {
                    assert forall|x: int| 0 <= x < i + 1 implies (#[trigger] parsed_u32(sv.take(i + 1)[x].0)) is Some by {
                        if x < i {
                            assert(sv.take(i + 1)[x] == prev[x]);
                        }
                    }
                }
            },
            None => {
                assert(parsed_u32(sv[i as int].0) is None);
                return None;
            },
        }
        i = i + 1;
    }
    assert(sv.take(saved@.len() as int) =~= sv);
    Some((docs, ids))
}

/// Short-id keyed rows seen as sequences.
pub open spec fn rows_view(m: Map<u32, Vec<u32>>) -> Map<u32, Seq<u32>> {
    Map::new(|s: u32| m.contains_key(s), |s: u32| m[s]@)
}

/// Restores the field lengths. `None` if a short id does not read as a `u32`.
pub(crate) fn restore_rows(saved: &Vec<(String, Vec<u32>)>) -> (r: Option<HashMap<u32, Vec<u32>>>)
    ensures
        r is Some <==> keys_parse(saved_rows_view(saved@)),
        r matches Some(m) ==> rows_view(m@) == restored_map(saved_rows_view(saved@)),
{
    let ghost sv = saved_rows_view(saved@);
    let mut rows: HashMap<u32, Vec<u32>> = HashMap::new();
    let mut i: usize = 0;
    assert(rows_view(rows@) =~= restored_map(sv.take(0)));
    while i < saved.len()
        invariant
            sv == saved_rows_view(saved@),
            i <= saved@.len(),
            keys_parse(sv.take(i as int)),
            rows_view(rows@) == restored_map(sv.take(i as int)),
        decreases saved@.len() - i,
    {
        let ghost prev = sv.take(i as int);
        assert(sv.take(i + 1).drop_last() =~= prev);
        assert(sv.take(i + 1).last() == sv[i as int]);
        match parse_u32(saved[i].0.as_str()) {
            Some(s) => {
                rows.insert(s, copy_row(&saved[i].1));
                assert(rows_view(rows@) =~= restored_map(sv.take(i + 1)));
                assert(keys_parse(sv.take(i + 1))) by {
                    assert forall|x: int| 0 <= x < i + 1 implies (#[trigger] parsed_u32(sv.take(i + 1)[x].0)) is Some by {
                        if x < i {
                            assert(sv.take(i + 1)[x] == prev[x]);
                        }
                    }
                }
            },
            None => {
                assert(parsed_u32(sv[i as int].0) is None);
                return None;
            },
        }
        i = i + 1;
    }
    assert(sv.take(saved@.len() as int) =~= sv);
    Some(rows)
}

/// Short-id keyed stored pairs seen as sequences.
pub open spec fn stored_view(m: Map<u32, Vec<(String, String)>>) -> Map<u32, Seq<(Seq<char>, Seq<char>)>> {
    Map::new(|s: u32| m.contains_key(s), |s: u32| pairs_of(m[s]@))
}

/// Restores the stored fields. `None` if a short id does not read as a `u32`.
pub(crate) fn restore_stored(saved: &Vec<(String, Vec<(String, String)>)>) -> (r: Option<HashMap<u32, Vec<(String, String)>>>)
    ensures
        r is Some <==> keys_parse(saved_stored_view(saved@)),
        r matches Some(m) ==> stored_view(m@) == restored_map(saved_stored_view(saved@)),
{
    let ghost sv = saved_stored_view(saved@);
    let mut stored: HashMap<u32, Vec<(String, String)>> = HashMap::new();
    let mut i: usize = 0;
    assert(stored_view(stored@) =~= restored_map(sv.take(0)));
    while i < saved.len()
        invariant
            sv == saved_stored_view(saved@),
            i <= saved@.len(),
            keys_parse(sv.take(i as int)),
            stored_view(stored@) == restored_map(sv.take(i as int)),
        decreases saved@.len() - i,
    {
        let ghost prev = sv.take(i as int);
        assert(sv.take(i + 1).drop_last() =~= prev);
        assert(sv.take(i + 1).last() == sv[i as int]);
        match parse_u32(saved[i].0.as_str()) {
            Some(s) => {
                stored.insert(s, copy_pairs(&saved[i].1));
                assert(stored_view(stored@) =~= restored_map(sv.take(i + 1)));
                assert(keys_parse(sv.take(i + 1))) by {
                    assert forall|x: int| 0 <= x < i + 1 implies (#[trigger] parsed_u32(sv.take(i + 1)[x].0)) is Some by {
                        if x < i {
                            assert(sv.take(i + 1)[x] == prev[x]);
                        }
                    }
                }
            },
            None => {
                assert(parsed_u32(sv[i as int].0) is None);
                return None;
            },
        }
        i = i + 1;
    }
    assert(sv.take(saved@.len() as int) =~= sv);
    Some(stored)
}

/// Adds the saved postings `fields` of one term to `data`.
pub(crate) fn merge_saved_fields(data: &mut FieldTermData, fields: &Vec<(String, Vec<(String, u32)>)>) -> (r: Result<(), RestoreError>)
    ensures
        r is Ok <==> fields_error(saved_fields_view(fields@)) is None,
        r matches Err(e) ==> fields_error(saved_fields_view(fields@)) == Some(e),
        r is Ok ==> term_view(*final(data)) == merge_fields(term_view(*old(data)), saved_fields_view(fields@)),
{
    let ghost fv = saved_fields_view(fields@);
    let ghost v0 = term_view(*data);
    let mut j: usize = 0;
    assert(fv.take(0) =~= Seq::<(Seq<char>, Seq<(Seq<char>, u32)>)>::empty());
    while j < fields.len()
        invariant
            fv == saved_fields_view(fields@),
            v0 == term_view(*old(data)),
            j <= fields@.len(),
            fields_error(fv.take(j as int)) is None,
            term_view(*data) == merge_fields(v0, fv.take(j as int)),
        decreases fields@.len() - j,
    {
        let ghost prev = fv.take(j as int);
        assert(fv.take(j + 1).drop_last() =~= prev);
        assert(fv.take(j + 1).last() == fv[j as int]);
        let ds = &fields[j].1;
        let ghost dv = saved_docs_view(ds@);
        assert(fv[j as int] == (fields@[j as int].0@, dv));
        let fid = match parse_u32(fields[j].0.as_str()) {
            Some(f) => f,
            None => {
                proof {
                    lemma_fields_error_prefix(fv, j + 1);
                }
                return Err(RestoreError::InvalidFieldId);
            },
        };
        let ghost cur = term_view(*data);
        let ghost base = if cur.contains_key(fid) { cur[fid] } else { Map::<u32, u32>::empty() };
        let mut docs = match data.remove(&fid) {
            Some(d) => d,
            None => HashMap::new(),
        };
        assert(docs@ == base);
        let mut k: usize = 0;
        assert(dv.take(0) =~= Seq::<(Seq<char>, u32)>::empty());
        while k < ds.len()
            invariant
                dv == saved_docs_view(ds@),
                fv == saved_fields_view(fields@),
                j < fields@.len(),
                fields_error(fv.take(j as int)) is None,
                fv.take(j + 1).drop_last() == fv.take(j as int),
                fv.take(j + 1).last() == fv[j as int],
                fv[j as int] == (fields@[j as int].0@, dv),
                parsed_u32(fv[j as int].0) == Some(fid),
                k <= ds@.len(),
                keys_parse(dv.take(k as int)),
                docs@ == merge_docs(base, dv.take(k as int)),
            decreases ds@.len() - k,
        {
            let ghost dprev = dv.take(k as int);
            assert(dv.take(k + 1).drop_last() =~= dprev);
            assert(dv.take(k + 1).last() == dv[k as int]);
            match parse_u32(ds[k].0.as_str()) {
                Some(d) => {
                    docs.insert(d, ds[k].1);
                    assert(keys_parse(dv.take(k + 1))) by {
                        assert forall|x: int| 0 <= x < k + 1 implies (#[trigger] parsed_u32(dv.take(k + 1)[x].0)) is Some by {
                            if x < k {
                                assert(dv.take(k + 1)[x] == dprev[x]);
                            }
                        }
                    }
                },
                None => {
                    proof {
                        assert(!keys_parse(dv)) by {
                            assert(parsed_u32(dv[k as int].0) is None);
                        }
                        lemma_fields_error_prefix(fv, j + 1);
                    }
                    return Err(RestoreError::InvalidDocId);
                },
            }
            k = k + 1;
        }
        assert(dv.take(ds@.len() as int) =~= dv);
        data.insert(fid, docs);
        assert(term_view(*data) =~= merge_fields(v0, fv.take(j + 1)));
        j = j + 1;
    }
    assert(fv.take(fields@.len() as int) =~= fv);
    Ok(())
}

/// Restores the postings, term by term.
pub(crate) fn restore_postings(saved: &Vec<(String, Vec<(String, Vec<(String, u32)>)>)>) -> (r: Result<SearchableMap, RestoreError>)
    ensures
        r is Ok <==> index_error(saved_index_view(saved@)) is None,
        r matches Err(e) ==> index_error(saved_index_view(saved@)) == Some(e),
        r matches Ok(m) ==> m.wf() && deep_postings(m@) == restored_postings(saved_index_view(saved@)),
{
    let ghost ix = saved_index_view(saved@);
    let mut index = SearchableMap::new();
    let mut i: usize = 0;
    assert(ix.take(0) =~= Seq::<(Seq<char>, Seq<(Seq<char>, Seq<(Seq<char>, u32)>)>)>::empty());
    assert(deep_postings(index@) =~= restored_postings(ix.take(0)));
    while i < saved.len()
        invariant
            index.wf(),
            ix == saved_index_view(saved@),
            i <= saved@.len(),
            index_error(ix.take(i as int)) is None,
            deep_postings(index@) == restored_postings(ix.take(i as int)),
            index@.dom().len() <= i,
        decreases saved@.len() - i,
    {
        let ghost prev = ix.take(i as int);
        assert(ix.take(i + 1).drop_last() =~= prev);
        assert(ix.take(i + 1).last() == ix[i as int]);
        let term = saved[i].0.as_str();
        assert(ix[i as int] == (term@, saved_fields_view(saved[i as int].1@)));
        let ghost q = deep_postings(index@);
        let ghost qt = if q.contains_key(term@) { q[term@] } else { Map::<u32, Map<u32, u32>>::empty() };
        proof {
            index.lemma_entries_match_view();
        }
        let ghost before = index@;
        let data = index.get_or_create(term);
        assert(term_view(*data) =~= qt);
        match merge_saved_fields(data, &saved[i].1) {
            Ok(()) => {},
            Err(e) => {
                proof {
                    lemma_index_error_prefix(ix, i + 1);
                }
                return Err(e);
            },
        }
        assert(deep_postings(index@) =~= q.insert(term@, term_view(index@[term@])));
        i = i + 1;
    }
    assert(ix.take(saved@.len() as int) =~= ix);
    Ok(index)
}

/// `ps` lists the entries of `m` in the order of the keys `ks`, each key once and written as
/// decimal text.
pub open spec fn listing<V>(ps: Seq<(Seq<char>, V)>, ks: Seq<u32>, m: Map<u32, V>) -> bool {
    &&& ps.len() == ks.len()
    &&& ks.no_duplicates()
    &&& ks.to_set() == m.dom()
    &&& forall|i: int| 0 <= i < ps.len() ==> (#[trigger] ps[i]).0 == decimal_digits(ks[i] as nat) && ps[i].1 == m[ks[i]]
}

/// `ps` lists the entries of `m`, in some order, each key once and written as decimal text.
pub open spec fn lists_map<V>(ps: Seq<(Seq<char>, V)>, m: Map<u32, V>) -> bool {
    exists|ks: Seq<u32>| listing(ps, ks, m)
}

/// `fs` lists the fields of `v` in the order of `ks`, each field id once as decimal text,
/// each with a listing of its postings.
pub open spec fn field_listing(fs: Seq<(Seq<char>, Seq<(Seq<char>, u32)>)>, ks: Seq<u32>, v: Map<u32, Map<u32, u32>>) -> bool {
    &&& fs.len() == ks.len()
    &&& ks.no_duplicates()
    &&& ks.to_set() == v.dom()
    &&& forall|i: int| 0 <= i < fs.len() ==> (#[trigger] fs[i]).0 == decimal_digits(ks[i] as nat) && lists_map(fs[i].1, v[ks[i]])
}

/// `fs` lists the fields of `v`, in some order, as `field_listing` says.
pub open spec fn lists_fields(fs: Seq<(Seq<char>, Seq<(Seq<char>, u32)>)>, v: Map<u32, Map<u32, u32>>) -> bool {
    exists|ks: Seq<u32>| field_listing(fs, ks, v)
}

/// `ix` lists the postings of every term of `p` once, with a listing of its fields.
pub open spec fn lists_postings(ix: Seq<(Seq<char>, Seq<(Seq<char>, Seq<(Seq<char>, u32)>)>)>, p: Map<Seq<char>, Map<u32, Map<u32, u32>>>) -> bool {
    &&& forall|i: int, j: int| 0 <= i < j < ix.len() ==> (#[trigger] ix[i]).0 != (#[trigger] ix[j]).0
    &&& forall|i: int| 0 <= i < ix.len() ==> p.contains_key((#[trigger] ix[i]).0) && lists_fields(ix[i].1, p[ix[i].0])
    &&& forall|t: Seq<char>| #[trigger] p.contains_key(t) ==> exists|i: int| 0 <= i < ix.len() && #[trigger] ix[i].0 == t
}

pub(crate) proof fn lemma_restored_map_listing<V>(ps: Seq<(Seq<char>, V)>, ks: Seq<u32>, m: Map<u32, V>)
    requires
        listing(ps, ks, m),
    ensures
        keys_parse(ps),
        restored_map(ps) == m,
    decreases ps.len(),
{
    if ps.len() == 0 {
        assert(m.dom() =~= Set::<u32>::empty()) by {
            assert forall|k: u32| !m.dom().contains(k) by {
                if m.dom().contains(k) {
                    assert(ks.to_set().contains(k));
                }
            }
        }
        assert(restored_map(ps) =~= m);
    } else {
        let k = ks.last();
        let ps2 = ps.drop_last();
        let ks2 = ks.drop_last();
        let m2 = m.remove(k);
        assert(ps[ps.len() - 1] == ps.last());
        assert(ks.to_set().contains(k)) by {
            assert(ks[ks.len() - 1] == k);
        }
        assert(listing(ps2, ks2, m2)) by {
            assert forall|x: u32| #[trigger] ks2.to_set().contains(x) <==> m2.dom().contains(x) by {
                if ks2.to_set().contains(x) {
                    let i = choose|i: int| 0 <= i < ks2.len() && ks2[i] == x;
                    assert(ks[i] == x);
                    assert(ks.to_set().contains(x));
                    assert(x != k);
                }
                if m2.dom().contains(x) {
                    assert(ks.to_set().contains(x));
                    let i = choose|i: int| 0 <= i < ks.len() && ks[i] == x;
                    assert(i != ks.len() - 1);
                    assert(ks2[i] == x);
                }
            }
            assert(ks2.to_set() =~= m2.dom());
            assert forall|i: int| 0 <= i < ps2.len() implies (#[trigger] ps2[i]).0 == decimal_digits(ks2[i] as nat) && ps2[i].1 == m2[ks2[i]] by {
                assert(ps[i] == ps2[i]);
                assert(ks[i] != k);
            }
        }
        lemma_restored_map_listing(ps2, ks2, m2);
        lemma_decimal_round_trip(k);
        assert(restored_map(ps) =~= m);
        assert(keys_parse(ps)) by {
            assert forall|i: int| 0 <= i < ps.len() implies (#[trigger] parsed_u32(ps[i].0)) is Some by {
                lemma_decimal_round_trip(ks[i]);
            }
        }
    }
}

pub(crate) proof fn lemma_merge_docs_listing(ds: Seq<(Seq<char>, u32)>, ks: Seq<u32>, m: Map<u32, u32>)
    requires
        listing(ds, ks, m),
    ensures
        keys_parse(ds),
        merge_docs(Map::empty(), ds) == m,
    decreases ds.len(),
{
    lemma_restored_map_listing(ds, ks, m);
    lemma_merge_docs_is_restored_map(ds);
}

pub(crate) proof fn lemma_merge_docs_is_restored_map(ds: Seq<(Seq<char>, u32)>)
    ensures
        merge_docs(Map::empty(), ds) == restored_map(ds),
    decreases ds.len(),
{
    if ds.len() > 0 {
        lemma_merge_docs_is_restored_map(ds.drop_last());
    }
}

pub(crate) proof fn lemma_merge_fields_listing(fs: Seq<(Seq<char>, Seq<(Seq<char>, u32)>)>, ks: Seq<u32>, v: Map<u32, Map<u32, u32>>)
    requires
        field_listing(fs, ks, v),
    ensures
        fields_error(fs) is None,
        merge_fields(Map::empty(), fs) == v,
    decreases fs.len(),
{
    if fs.len() == 0 {
        assert(v.dom() =~= Set::<u32>::empty()) by {
            assert forall|k: u32| !v.dom().contains(k) by {
                if v.dom().contains(k) {
                    assert(ks.to_set().contains(k));
                }
            }
        }
        assert(merge_fields(Map::empty(), fs) =~= v);
    } else {
        let k = ks.last();
        let fs2 = fs.drop_last();
        let ks2 = ks.drop_last();
        let v2 = v.remove(k);
        assert(fs[fs.len() - 1] == fs.last());
        assert(ks.to_set().contains(k)) by {
            assert(ks[ks.len() - 1] == k);
        }
        assert(field_listing(fs2, ks2, v2)) by {
            assert forall|x: u32| #[trigger] ks2.to_set().contains(x) <==> v2.dom().contains(x) by {
                if ks2.to_set().contains(x) {
                    let i = choose|i: int| 0 <= i < ks2.len() && ks2[i] == x;
                    assert(ks[i] == x);
                    assert(ks.to_set().contains(x));
                    assert(x != k);
                }
                if v2.dom().contains(x) {
                    assert(ks.to_set().contains(x));
                    let i = choose|i: int| 0 <= i < ks.len() && ks[i] == x;
                    assert(i != ks.len() - 1);
                    assert(ks2[i] == x);
                }
            }
            assert(ks2.to_set() =~= v2.dom());
            assert forall|i: int| 0 <= i < fs2.len() implies (#[trigger] fs2[i]).0 == decimal_digits(ks2[i] as nat) && lists_map(fs2[i].1, v2[ks2[i]]) by {
                assert(fs[i] == fs2[i]);
                assert(ks[i] != k);
            }
        }
        lemma_merge_fields_listing(fs2, ks2, v2);
        lemma_decimal_round_trip(k);
        let e = fs.last();
        assert(lists_map(e.1, v[k]));
        let dks = choose|dks: Seq<u32>| listing(e.1, dks, v[k]);
        lemma_merge_docs_listing(e.1, dks, v[k]);
        assert(!v2.contains_key(k));
        assert(merge_fields(Map::empty(), fs) =~= v);
    }
}

pub(crate) proof fn lemma_restored_postings_listing(ix: Seq<(Seq<char>, Seq<(Seq<char>, Seq<(Seq<char>, u32)>)>)>, p: Map<Seq<char>, Map<u32, Map<u32, u32>>>)
    requires
        forall|i: int, j: int| 0 <= i < j < ix.len() ==> (#[trigger] ix[i]).0 != (#[trigger] ix[j]).0,
        forall|i: int| 0 <= i < ix.len() ==> p.contains_key((#[trigger] ix[i]).0) && lists_fields(ix[i].1, p[ix[i].0]),
    ensures
        index_error(ix) is None,
        forall|t: Seq<char>| #[trigger] restored_postings(ix).contains_key(t) <==> exists|i: int| 0 <= i < ix.len() && #[trigger] ix[i].0 == t,
        forall|t: Seq<char>| #[trigger] restored_postings(ix).contains_key(t) ==> restored_postings(ix)[t] == p[t],
    decreases ix.len(),
{
    if ix.len() > 0 {
        let ix2 = ix.drop_last();
        let e = ix.last();
        assert(ix[ix.len() - 1] == e);
        assert forall|i: int, j: int| 0 <= i < j < ix2.len() implies (#[trigger] ix2[i]).0 != (#[trigger] ix2[j]).0 by {
            assert(ix[i] == ix2[i] && ix[j] == ix2[j]);
        }
        assert forall|i: int| 0 <= i < ix2.len() implies p.contains_key((#[trigger] ix2[i]).0) && lists_fields(ix2[i].1, p[ix2[i].0]) by {
            assert(ix[i] == ix2[i]);
        }
        lemma_restored_postings_listing(ix2, p);
        let q = restored_postings(ix2);
        assert(!q.contains_key(e.0)) by {
            if q.contains_key(e.0) {
                let i = choose|i: int| 0 <= i < ix2.len() && #[trigger] ix2[i].0 == e.0;
                assert(ix[i] == ix2[i]);
            }
        }
        assert(lists_fields(e.1, p[e.0]));
        let fks = choose|fks: Seq<u32>| field_listing(e.1, fks, p[e.0]);
        lemma_merge_fields_listing(e.1, fks, p[e.0]);
        assert forall|t: Seq<char>| #[trigger] restored_postings(ix).contains_key(t) <==> exists|i: int| 0 <= i < ix.len() && #[trigger] ix[i].0 == t by {
            if restored_postings(ix).contains_key(t) && t != e.0 {
                let i = choose|i: int| 0 <= i < ix2.len() && #[trigger] ix2[i].0 == t;
                assert(ix[i] == ix2[i]);
            }
            if exists|i: int| 0 <= i < ix.len() && #[trigger] ix[i].0 == t {
                let i = choose|i: int| 0 <= i < ix.len() && #[trigger] ix[i].0 == t;
                if i < ix.len() - 1 {
                    assert(ix2[i] == ix[i]);
                }
            }
        }
    }
}

/// The saved form of an index: the document ids, field lengths and stored fields keyed by
/// short id, and the postings of each term keyed by field id and short id, every key written
/// as decimal text.
pub struct SavedIndex {
    /// (short id, document id), in increasing order of short id.
    pub document_ids: Vec<(String, String)>,
    /// (short id, number of distinct terms of each field).
    pub field_length: Vec<(String, Vec<u32>)>,
    /// (short id, (field name, value) pairs).
    pub stored_fields: Vec<(String, Vec<(String, String)>)>,
    /// (term, (field id, (short id, frequency))).
    pub index: Vec<(String, Vec<(String, Vec<(String, u32)>)>)>,
}

/// Lists the postings of one field: (short id as decimal text, frequency).
pub(crate) fn export_docs(m: &HashMap<u32, u32>) -> (r: Vec<(String, u32)>)
    ensures
        lists_map(saved_docs_view(r@), m@),
{
    let ks = keys_of_map(m);
    let mut out: Vec<(String, u32)> = Vec::new();
    let mut i: usize = 0;
    while i < ks.len()
        invariant
            ks@.to_set() == m@.dom(),
            ks@.no_duplicates(),
            i <= ks@.len(),
            out@.len() == i,
            forall|x: int| 0 <= x < i ==> (#[trigger] saved_docs_view(out@)[x]).0 == decimal_digits(ks@[x] as nat)
                && saved_docs_view(out@)[x].1 == m@[ks@[x]],
        decreases ks@.len() - i,
    {
        let k = ks[i];
        assert(ks@.to_set().contains(k)) by {
            assert(ks@.contains(k));
        }
        let n = *m.get(&k).unwrap();
        let ghost before = out@;
        let key = decimal_text(k);
        out.push((key, n));
        assert forall|x: int| 0 <= x < i + 1 implies (#[trigger] saved_docs_view(out@)[x]).0 == decimal_digits(ks@[x] as nat)
            && saved_docs_view(out@)[x].1 == m@[ks@[x]] by {
            if x < i {
                assert(out@[x] == before[x]);
                assert(saved_docs_view(before)[x] == saved_docs_view(out@)[x]);
            }
        }
        i = i + 1;
    }
    assert(listing(saved_docs_view(out@), ks@, m@));
    out
}

/// Lists the fields of one term: (field id as decimal text, postings of the field).
pub(crate) fn export_fields(data: &FieldTermData) -> (r: Vec<(String, Vec<(String, u32)>)>)
    ensures
        lists_fields(saved_fields_view(r@), term_view(*data)),
{
    let ks = keys_of_map(data);
    let mut out: Vec<(String, Vec<(String, u32)>)> = Vec::new();
    let mut i: usize = 0;
    while i < ks.len()
        invariant
            ks@.to_set() == data@.dom(),
            ks@.no_duplicates(),
            i <= ks@.len(),
            out@.len() == i,
            forall|x: int| 0 <= x < i ==> (#[trigger] saved_fields_view(out@)[x]).0 == decimal_digits(ks@[x] as nat)
                && lists_map(saved_fields_view(out@)[x].1, term_view(*data)[ks@[x]]),
        decreases ks@.len() - i,
    {
        let k = ks[i];
        assert(ks@.to_set().contains(k)) by {
            assert(ks@.contains(k));
        }
        let docs = export_docs(data.get(&k).unwrap());
        assert(term_view(*data)[k] == data@[k]@);
        let ghost before = out@;
        let key = decimal_text(k);
        out.push((key, docs));
        assert(saved_fields_view(out@)[i as int] == (key@, saved_docs_view(docs@)));
        assert forall|x: int| 0 <= x < i + 1 implies (#[trigger] saved_fields_view(out@)[x]).0 == decimal_digits(ks@[x] as nat)
            && lists_map(saved_fields_view(out@)[x].1, term_view(*data)[ks@[x]]) by {
            if x < i {
                assert(out@[x] == before[x]);
                assert(saved_fields_view(before)[x] == saved_fields_view(out@)[x]);
            }
        }
        i = i + 1;
    }
    assert(ks@.to_set() =~= term_view(*data).dom());
    assert(field_listing(saved_fields_view(out@), ks@, term_view(*data)));
    out
}

impl SavedIndex {
    /// This is the saved form of `ix`: its documents in increasing order of short id, and
    /// listings of its field lengths, its stored fields and the postings of all its terms,
    /// terms in the order `ix.term_order()`.
    pub open spec fn is_saved_form_of(self, ix: DocumentIndex) -> bool {
        &&& increasing(ix.document_order())
        &&& listing(saved_documents_view(self.document_ids@), ix.document_order(), ix.documents())
        &&& lists_map(saved_rows_view(self.field_length@), ix.field_length_table())
        &&& lists_map(saved_stored_view(self.stored_fields@), ix.stored())
        &&& saved_index_view(self.index@).map_values(|e: (Seq<char>, Seq<(Seq<char>, Seq<(Seq<char>, u32)>)>)| e.0) == ix.term_order()
        &&& lists_postings(saved_index_view(self.index@), ix.postings())
    }

    /// This lists what `ix` holds, each list in any order: its documents, field lengths and
    /// stored fields each once by short id written in decimal, and the postings of each of its
    /// terms once, each field once, each document of a field once.
    pub open spec fn lists_contents_of(self, ix: DocumentIndex) -> bool {
        &&& lists_map(saved_documents_view(self.document_ids@), ix.documents())
        &&& lists_map(saved_rows_view(self.field_length@), ix.field_length_table())
        &&& lists_map(saved_stored_view(self.stored_fields@), ix.stored())
        &&& lists_postings(saved_index_view(self.index@), ix.postings())
    }
}

/// The saved form of an index lists its contents.
pub proof fn lemma_saved_form_lists_contents(ix: DocumentIndex, saved: SavedIndex)
    requires
        saved.is_saved_form_of(ix),
    ensures
        saved.lists_contents_of(ix),
{
}

pub(crate) proof fn lemma_restored_short_ids_listing(ps: Seq<(Seq<char>, Seq<char>)>, ks: Seq<u32>, d: Map<u32, Seq<char>>)
    requires
        listing(ps, ks, d),
        forall|a: u32, b: u32| #[trigger] d.contains_key(a) && #[trigger] d.contains_key(b) && d[a] == d[b] ==> a == b,
    ensures
        forall|id: Seq<char>| #[trigger] restored_short_ids(ps).contains_key(id) ==> exists|k: u32| #[trigger] d.contains_key(k) && d[k] == id,
        forall|k: u32| #[trigger] d.contains_key(k) ==> restored_short_ids(ps).contains_key(d[k]) && restored_short_ids(ps)[d[k]] == k,
    decreases ps.len(),
{
    if ps.len() == 0 {
        assert forall|k: u32| !(#[trigger] d.contains_key(k)) by {
            if d.contains_key(k) {
                assert(ks.to_set().contains(k));
            }
        }
    } else {
        let k = ks.last();
        let ps2 = ps.drop_last();
        let ks2 = ks.drop_last();
        let d2 = d.remove(k);
        assert(ps[ps.len() - 1] == ps.last());
        assert(ks.to_set().contains(k)) by {
            assert(ks[ks.len() - 1] == k);
        }
        assert(listing(ps2, ks2, d2)) by {
            assert forall|x: u32| #[trigger] ks2.to_set().contains(x) <==> d2.dom().contains(x) by {
                if ks2.to_set().contains(x) {
                    let i = choose|i: int| 0 <= i < ks2.len() && ks2[i] == x;
                    assert(ks[i] == x);
                    assert(ks.to_set().contains(x));
                    assert(x != k);
                }
                if d2.dom().contains(x) {
                    assert(ks.to_set().contains(x));
                    let i = choose|i: int| 0 <= i < ks.len() && ks[i] == x;
                    assert(i != ks.len() - 1);
                    assert(ks2[i] == x);
                }
            }
            assert(ks2.to_set() =~= d2.dom());
            assert forall|i: int| 0 <= i < ps2.len() implies (#[trigger] ps2[i]).0 == decimal_digits(ks2[i] as nat) && ps2[i].1 == d2[ks2[i]] by {
                assert(ps[i] == ps2[i]);
                assert(ks[i] != k);
            }
        }
        lemma_restored_short_ids_listing(ps2, ks2, d2);
        lemma_decimal_round_trip(k);
        let r = restored_short_ids(ps);
        let r2 = restored_short_ids(ps2);
        assert(r == r2.insert(d[k], k));
        assert forall|id: Seq<char>| #[trigger] r.contains_key(id) implies exists|k2: u32| #[trigger] d.contains_key(k2) && d[k2] == id by {
            if id != d[k] {
                let k2 = choose|k2: u32| #[trigger] d2.contains_key(k2) && d2[k2] == id;
                assert(d.contains_key(k2));
            }
        }
        assert forall|k2: u32| #[trigger] d.contains_key(k2) implies r.contains_key(d[k2]) && r[d[k2]] == k2 by {
            if k2 != k {
                assert(d2.contains_key(k2));
                assert(d[k2] != d[k]);
            }
        }
    }
}

/// Restoring saved lists of what a consistent index holds, in whatever order each list
/// comes (its saved form, or any reordering of it), reads back its documents, its ids, its
/// field lengths, its stored fields and its postings: every key reads as a number, so
/// `restore` succeeds, and what it restores is what was saved.
pub proof fn law_restore_reads_back_saved_form(ix: DocumentIndex, saved: SavedIndex)
    requires
        ix.consistent(),
        saved.lists_contents_of(ix),
    ensures
        keys_parse(saved_documents_view(saved.document_ids@)),
        keys_parse(saved_rows_view(saved.field_length@)),
        keys_parse(saved_stored_view(saved.stored_fields@)),
        index_error(saved_index_view(saved.index@)) is None,
        restored_map(saved_documents_view(saved.document_ids@)) == ix.documents(),
        restored_short_ids(saved_documents_view(saved.document_ids@)) == ix.short_ids(),
        restored_map(saved_rows_view(saved.field_length@)) == ix.field_length_table(),
        restored_map(saved_stored_view(saved.stored_fields@)) == ix.stored(),
        restored_postings(saved_index_view(saved.index@)) == ix.postings(),
{
    let dv = saved_documents_view(saved.document_ids@);
    let dks = choose|ks: Seq<u32>| listing(dv, ks, ix.documents());
    lemma_restored_map_listing(dv, dks, ix.documents());
    let rv = saved_rows_view(saved.field_length@);
    let rks = choose|ks: Seq<u32>| listing(rv, ks, ix.field_length_table());
    lemma_restored_map_listing(rv, rks, ix.field_length_table());
    let sv = saved_stored_view(saved.stored_fields@);
    let sks = choose|ks: Seq<u32>| listing(sv, ks, ix.stored());
    lemma_restored_map_listing(sv, sks, ix.stored());
    let d = ix.documents();
    assert forall|a: u32, b: u32| #[trigger] d.contains_key(a) && #[trigger] d.contains_key(b) && d[a] == d[b] implies a == b by {
        assert(ix.short_ids()[d[a]] == a);
        assert(ix.short_ids()[d[b]] == b);
    }
    lemma_restored_short_ids_listing(dv, dks, d);
    let r = restored_short_ids(dv);
    assert forall|id: Seq<char>| #[trigger] r.contains_key(id) <==> ix.short_ids().contains_key(id) by {
        if r.contains_key(id) {
            let k = choose|k: u32| #[trigger] d.contains_key(k) && d[k] == id;
        }
        if ix.short_ids().contains_key(id) {
            assert(d.contains_key(ix.short_ids()[id]));
        }
    }
    assert forall|id: Seq<char>| #[trigger] r.contains_key(id) implies r[id] == ix.short_ids()[id] by {
        let k = choose|k: u32| #[trigger] d.contains_key(k) && d[k] == id;
        assert(ix.short_ids()[d[k]] == k);
    }
    assert(r =~= ix.short_ids());
    let xv = saved_index_view(saved.index@);
    lemma_restored_postings_listing(xv, ix.postings());
    let q = restored_postings(xv);
    assert(q =~= ix.postings());
}

} // verus!
