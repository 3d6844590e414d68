//! Documents read from lines of JSON: one object per line, its string, number and boolean
//! members taken as the document's fields.

use vstd::prelude::*;

use serde_json::Value;

use crate::radix_tree::keys_of;
use crate::text::{all_digits, chars_of, decimal_value, is_whitespace, trimmed, trim_end, trim_start, spec_is_whitespace};

verus! {

broadcast use vstd::string::group_string_axioms;

/// A member value of a JSON object, as far as a document cares: a string, the text of a
/// number, a boolean, or anything else.
pub enum JsonScalar {
    Text(String),
    Number(String),
    Bool(bool),
    Other,
}

/// A member value seen as characters.
pub enum JsonScalarView {
    Text(Seq<char>),
    Number(Seq<char>),
    Bool(bool),
    Other,
}

impl View for JsonScalar {
    type V = JsonScalarView;

    open spec fn view(&self) -> JsonScalarView {
        match self {
            JsonScalar::Text(s) => JsonScalarView::Text(s@),
            JsonScalar::Number(s) => JsonScalarView::Number(s@),
            JsonScalar::Bool(b) => JsonScalarView::Bool(*b),
            JsonScalar::Other => JsonScalarView::Other,
        }
    }
}

/// What a line of text holds as JSON: `None` if it is not JSON, `Some(None)` if it is JSON
/// but not an object, else the object's members in the order `serde_json` keeps them.
pub uninterp spec fn json_members(line: Seq<char>) -> Option<Option<Seq<(Seq<char>, JsonScalarView)>>>;

/// Parsed members seen as characters.
pub open spec fn members_view(r: Option<Option<Vec<(String, JsonScalar)>>>) -> Option<Option<Seq<(Seq<char>, JsonScalarView)>>> {
    match r {
        None => None,
        Some(None) => Some(None),
        Some(Some(v)) => Some(Some(v@.map_values(|e: (String, JsonScalar)| (e.0@, e.1@)))),
    }
}

/// Text that a JSON string can hold with no escape but for quotes and backslashes: no
/// control character.
pub open spec fn plain_json_text(t: Seq<char>) -> bool {
    forall|i: int| 0 <= i < t.len() ==> (#[trigger] t[i] as u32) >= 0x20
}

/// How a JSON string writes the character `c`: a quote or a backslash after a backslash,
/// any other character as it is.
pub open spec fn escaped_char(c: char) -> Seq<char> {
    if c == '"' || c == '\\' {
        seq!['\\', c]
    } else {
        seq![c]
    }
}

/// How a JSON string writes the text `t`, character by character.
pub open spec fn escaped(t: Seq<char>) -> Seq<char>
    decreases t.len(),
{
    if t.len() == 0 {
        Seq::empty()
    } else {
        escaped(t.drop_last()) + escaped_char(t.last())
    }
}

/// The JSON string for `t`: its escaped text between double quotes.
pub open spec fn quoted(t: Seq<char>) -> Seq<char> {
    seq!['"'] + escaped(t) + seq!['"']
}

/// A member value that `scalar_json` writes: text without control characters, a whole
/// number from 0 to `u64::MAX` in decimal without leading zeros, a boolean, or null
/// (`Other`).
pub open spec fn writable_scalar(v: JsonScalarView) -> bool {
    match v {
        JsonScalarView::Text(t) => plain_json_text(t),
        JsonScalarView::Number(d) => d.len() > 0 && all_digits(d) && (d.len() == 1 || d[0] != '0')
            && decimal_value(d) <= u64::MAX,
        JsonScalarView::Bool(_) => true,
        JsonScalarView::Other => true,
    }
}

/// How JSON writes a member value.
pub open spec fn scalar_json(v: JsonScalarView) -> Seq<char> {
    match v {
        JsonScalarView::Text(t) => quoted(t),
        JsonScalarView::Number(d) => d,
        JsonScalarView::Bool(b) => if b { seq!['t', 'r', 'u', 'e'] } else { seq!['f', 'a', 'l', 's', 'e'] },
        JsonScalarView::Other => seq!['n', 'u', 'l', 'l'],
    }
}

/// A space if `spaced`, else nothing.
pub open spec fn gap(spaced: bool) -> Seq<char> {
    if spaced { seq![' '] } else { Seq::empty() }
}

/// How JSON writes one member: its quoted name, a colon (and a space if `spaced`), its value.
pub open spec fn member_json(e: (Seq<char>, JsonScalarView), spaced: bool) -> Seq<char> {
    quoted(e.0) + seq![':'] + gap(spaced) + scalar_json(e.1)
}

/// The members written one after another, separated by commas (each followed by a space if
/// `spaced`).
pub open spec fn members_json(ms: Seq<(Seq<char>, JsonScalarView)>, spaced: bool) -> Seq<char>
    decreases ms.len(),
{
    if ms.len() == 0 {
        Seq::empty()
    } else if ms.len() == 1 {
        member_json(ms[0], spaced)
    } else {
        members_json(ms.drop_last(), spaced) + seq![','] + gap(spaced) + member_json(ms.last(), spaced)
    }
}

/// The JSON object with members `ms`, written on one line: `{"name":value,...}`, or with a
/// space after each colon and comma if `spaced`: `{"name": value, ...}`.
pub open spec fn object_line(ms: Seq<(Seq<char>, JsonScalarView)>, spaced: bool) -> Seq<char> {
    seq!['{'] + members_json(ms, spaced) + seq!['}']
}

/// Members that `object_line` writes as a JSON object: names without control characters,
/// each once, and values as `writable_scalar` allows.
pub open spec fn writable_object(ms: Seq<(Seq<char>, JsonScalarView)>) -> bool {
    &&& forall|i: int| 0 <= i < ms.len() ==> plain_json_text((#[trigger] ms[i]).0) && writable_scalar(ms[i].1)
    &&& keys_of(ms).no_duplicates()
}

/// `a` and `b` hold the same entries, each key once.
pub open spec fn same_entries<V>(a: Seq<(Seq<char>, V)>, b: Seq<(Seq<char>, V)>) -> bool {
    &&& keys_of(a).no_duplicates()
    &&& keys_of(b).no_duplicates()
    &&& forall|e: (Seq<char>, V)| #[trigger] a.contains(e) <==> b.contains(e)
}

/// `parsed` is what a line that writes an object as `object_line` does holds: an object with
/// exactly the members written there.
pub open spec fn reads_written_object(line: Seq<char>, parsed: Option<Option<Seq<(Seq<char>, JsonScalarView)>>>) -> bool {
    forall|ms: Seq<(Seq<char>, JsonScalarView)>, spaced: bool| writable_object(ms) && line == #[trigger] object_line(ms, spaced)
        ==> (parsed matches Some(Some(v)) && same_entries(v, ms))
}

/// Calls `serde_json::from_str::<Value>` on `line` and takes an object's members apart: a
/// string as its text, a number as its `Display` text, a boolean as itself, anything else
/// (null, array, object) as `Other`. The result is named `json_members` of the line. An
/// object's names are distinct (its map keeps one entry per name), and a line that writes an
/// object as `object_line` does (quotes and backslashes escaped, no control characters)
/// gives exactly the members written there: each string's decoded text in full, each
/// number's digits, each boolean, and null as `Other`. The order of the members is
/// `serde_json`'s own and is left unsaid, as is what other lines give.
#[verifier::external_body]
fn parse_json_members(line: &str) -> (r: Option<Option<Vec<(String, JsonScalar)>>>)
    ensures
        members_view(r) == json_members(line@),
        members_view(r) matches Some(Some(v)) ==> keys_of(v).no_duplicates(),
        reads_written_object(line@, members_view(r)),
{
    let obj = match serde_json::from_str::<Value>(line) {
        Err(_) => return None,
        Ok(Value::Object(obj)) => obj,
        Ok(_) => return Some(None),
    };
    let mut out = Vec::new();
    for (k, v) in obj {
        out.push((k, match v {
            Value::String(s) => JsonScalar::Text(s),
            Value::Number(n) => JsonScalar::Number(n.to_string()),
            Value::Bool(b) => JsonScalar::Bool(b),
            _ => JsonScalar::Other,
        }));
    }
    Some(Some(out))
}

/// The text a document takes from a member value: a string as it is, a number's text,
/// `true` or `false` for a boolean; nothing for any other value.
pub open spec fn scalar_text(v: JsonScalarView) -> Option<Seq<char>> {
    match v {
        JsonScalarView::Text(t) => Some(t),
        JsonScalarView::Number(t) => Some(t),
        JsonScalarView::Bool(b) => Some(if b { seq!['t', 'r', 'u', 'e'] } else { seq!['f', 'a', 'l', 's', 'e'] }),
        JsonScalarView::Other => None,
    }
}

/// The (name, text) fields that an object's members give, in order; members with no text
/// are dropped.
pub open spec fn keep_scalars(m: Seq<(Seq<char>, JsonScalarView)>) -> Seq<(Seq<char>, Seq<char>)>
    decreases m.len(),
{
    if m.len() == 0 {
        Seq::empty()
    } else {
        let p = keep_scalars(m.drop_last());
        match scalar_text(m.last().1) {
            Some(t) => p.push((m.last().0, t)),
            None => p,
        }
    }
}

/// The document of a JSON value: none for a value that is not an object, else the fields
/// of its members.
pub open spec fn object_fields(m: Option<Seq<(Seq<char>, JsonScalarView)>>) -> Option<Seq<(Seq<char>, Seq<char>)>> {
    match m {
        None => None,
        Some(ms) => Some(keep_scalars(ms)),
    }
}

/// Fields seen as characters.
pub open spec fn fields_view(v: Seq<(String, String)>) -> Seq<(Seq<char>, Seq<char>)> {
    v.map_values(|e: (String, String)| (e.0@, e.1@))
}

/// A line's outcome seen as characters.
pub open spec fn doc_view(r: Result<Option<Vec<(String, String)>>, ()>) -> Result<Option<Seq<(Seq<char>, Seq<char>)>>, ()> {
    match r {
        Err(()) => Err(()),
        Ok(None) => Ok(None),
        Ok(Some(v)) => Ok(Some(fields_view(v@))),
    }
}

/// The text of a member value, as `scalar_text` says.
pub fn text_of_scalar(v: &JsonScalar) -> (r: Option<String>)
    ensures
        r matches Some(t) ==> scalar_text(v@) == Some(t@),
        r is None ==> scalar_text(v@) is None,
{
    match v {
        JsonScalar::Text(s) => Some(s.clone()),
        JsonScalar::Number(s) => Some(s.clone()),
        JsonScalar::Bool(b) => {
            if *b {
                let t = "true";
                proof {
                    reveal_strlit("true");
                }
                let r = String::from_str(t);
                assert(r@ =~= seq!['t', 'r', 'u', 'e']);
                Some(r)
            } else {
                let f = "false";
                proof {
                    reveal_strlit("false");
                }
                let r = String::from_str(f);
                assert(r@ =~= seq!['f', 'a', 'l', 's', 'e']);
                Some(r)
            }
        },
        JsonScalar::Other => None,
    }
}

/// The document that parsed JSON gives: an error for text that is not JSON, no document for
/// a value that is not an object, else the fields of the object's string, number and
/// boolean members, in order.
pub fn document_of_members(parsed: Option<Option<Vec<(String, JsonScalar)>>>) -> (r: Result<Option<Vec<(String, String)>>, ()>)
    ensures
        doc_view(r) == match members_view(parsed) {
            None => Err(()),
            Some(m) => Ok(object_fields(m)),
        },
{
    match parsed {
        None => Err(()),
        Some(None) => Ok(None),
        Some(Some(ms)) => {
            let ghost mv = ms@.map_values(|e: (String, JsonScalar)| (e.0@, e.1@));
            let mut out: Vec<(String, String)> = Vec::new();
            let mut i: usize = 0;
            while i < ms.len()
                invariant
                    i <= ms@.len(),
                    mv == ms@.map_values(|e: (String, JsonScalar)| (e.0@, e.1@)),
                    fields_view(out@) == keep_scalars(mv.take(i as int)),
                decreases ms@.len() - i,
            {
                let ghost before = out@;
                assert(mv.take(i + 1).drop_last() =~= mv.take(i as int));
                assert(mv.take(i + 1).last() == (ms@[i as int].0@, ms@[i as int].1@));
                match text_of_scalar(&ms[i].1) {
                    Some(t) => {
                        let k = ms[i].0.clone();
                        out.push((k, t));
                        assert(fields_view(out@) =~= fields_view(before).push((ms@[i as int].0@, t@)));
                    },
                    None => {},
                }
                i = i + 1;
            }
            assert(mv.take(ms@.len() as int) =~= mv);
            Ok(Some(out))
        },
    }
}

/// Whether `line` holds only white space, so that trimming leaves nothing.
pub fn is_blank(line: &str) -> (r: bool)
    ensures
        r == (trimmed(line@).len() == 0),
{
    let cs = chars_of(line);
    let mut i: usize = 0;
    while i < cs.len()
        invariant
            cs@ == line@,
            i <= cs@.len(),
            forall|x: int| 0 <= x < i ==> spec_is_whitespace(#[trigger] cs@[x]),
        decreases cs@.len() - i,
    {
        if !is_whitespace(cs[i]) {
            proof {
                lemma_trimmed_keeps(line@, i as int);
            }
            return false;
        }
        i = i + 1;
    }
    proof {
        lemma_all_blank(line@);
    }
    true
}

proof fn lemma_trim_end_all_blank(s: Seq<char>)
    requires
        forall|x: int| 0 <= x < s.len() ==> spec_is_whitespace(#[trigger] s[x]),
    ensures
        trim_end(s).len() == 0,
    decreases s.len(),
{
    if s.len() > 0 {
        assert(spec_is_whitespace(s[s.len() - 1]));
        lemma_trim_end_all_blank(s.drop_last());
    }
}

proof fn lemma_all_blank(s: Seq<char>)
    requires
        forall|x: int| 0 <= x < s.len() ==> spec_is_whitespace(#[trigger] s[x]),
    ensures
        trimmed(s).len() == 0,
{
    lemma_trim_end_all_blank(s);
}

/// Trimming the end keeps a character that is not white space where it was.
proof fn lemma_trim_end_keeps(s: Seq<char>, i: int)
    requires
        0 <= i < s.len(),
        !spec_is_whitespace(s[i]),
    ensures
        trim_end(s).len() > i,
        trim_end(s)[i] == s[i],
    decreases s.len(),
{
    if spec_is_whitespace(s.last()) {
        assert(i < s.len() - 1);
        lemma_trim_end_keeps(s.drop_last(), i);
    }
}

/// Trimming the start of a sequence that still holds a character that is not white space
/// leaves something.
proof fn lemma_trim_start_keeps(s: Seq<char>, i: int)
    requires
        0 <= i < s.len(),
        !spec_is_whitespace(s[i]),
    ensures
        trim_start(s).len() > 0,
    decreases s.len(),
{
    if spec_is_whitespace(s[0]) {
        assert(i > 0);
        assert(s.drop_first()[i - 1] == s[i]);
        lemma_trim_start_keeps(s.drop_first(), i - 1);
    }
}

proof fn lemma_trimmed_keeps(s: Seq<char>, i: int)
    requires
        0 <= i < s.len(),
        !spec_is_whitespace(s[i]),
    ensures
        trimmed(s).len() > 0,
{
    lemma_trim_end_keeps(s, i);
    lemma_trim_start_keeps(trim_end(s), i);
}

/// The fields that an object's members give are exactly the members that have a text, each
/// with its name and its text in full: a string's whole text, a number's digits, `true` or
/// `false`. Names that are distinct among the members stay distinct among the fields.
pub proof fn law_fields_are_member_texts(m: Seq<(Seq<char>, JsonScalarView)>)
    ensures
        forall|e: (Seq<char>, Seq<char>)| #[trigger] keep_scalars(m).contains(e)
            <==> exists|i: int| 0 <= i < m.len() && (#[trigger] m[i]).0 == e.0 && scalar_text(m[i].1) == Some(e.1),
        keys_of(m).no_duplicates() ==> keys_of(keep_scalars(m)).no_duplicates(),
    decreases m.len(),
{
    if m.len() > 0 {
        let d = m.drop_last();
        let p = keep_scalars(d);
        law_fields_are_member_texts(d);
        assert forall|e: (Seq<char>, Seq<char>)| #[trigger] keep_scalars(m).contains(e)
            <==> exists|i: int| 0 <= i < m.len() && (#[trigger] m[i]).0 == e.0 && scalar_text(m[i].1) == Some(e.1) by {
            if keep_scalars(m).contains(e) {
                let n = choose|n: int| 0 <= n < keep_scalars(m).len() && keep_scalars(m)[n] == e;
                if n < p.len() {
                    assert(p[n] == e);
                    assert(p.contains(e));
                    let i = choose|i: int| 0 <= i < d.len() && (#[trigger] d[i]).0 == e.0 && scalar_text(d[i].1) == Some(e.1);
                    assert(m[i] == d[i]);
                } else {
                    assert(m[m.len() - 1] == m.last());
                }
            }
            if exists|i: int| 0 <= i < m.len() && (#[trigger] m[i]).0 == e.0 && scalar_text(m[i].1) == Some(e.1) {
                let i = choose|i: int| 0 <= i < m.len() && (#[trigger] m[i]).0 == e.0 && scalar_text(m[i].1) == Some(e.1);
                if i < m.len() - 1 {
                    assert(d[i] == m[i]);
                    assert(p.contains(e));
                    let n = choose|n: int| 0 <= n < p.len() && p[n] == e;
                    assert(keep_scalars(m)[n] == e);
                } else {
                    assert(keep_scalars(m) == p.push((m.last().0, scalar_text(m.last().1)->0)));
                    assert(keep_scalars(m)[p.len() as int] == e);
                }
            }
        }
        if keys_of(m).no_duplicates() {
            assert(keys_of(d).no_duplicates()) by {
                assert forall|i: int, j: int| 0 <= i < j < keys_of(d).len() implies keys_of(d)[i] != keys_of(d)[j] by {
                    assert(keys_of(d)[i] == keys_of(m)[i]);
                    assert(keys_of(d)[j] == keys_of(m)[j]);
                }
            }
            if scalar_text(m.last().1) is Some {
                let f = keep_scalars(m);
                assert(f == p.push((m.last().0, scalar_text(m.last().1)->0)));
                assert forall|i: int, j: int| 0 <= i < j < keys_of(f).len() implies keys_of(f)[i] != keys_of(f)[j] by {
                    if j == p.len() {
                        assert(p.contains(p[i]));
                        let k = choose|k: int| 0 <= k < d.len() && (#[trigger] d[k]).0 == p[i].0 && scalar_text(d[k].1) == Some(p[i].1);
                        assert(keys_of(m)[k] == d[k].0);
                        assert(keys_of(m)[m.len() - 1] == m.last().0);
                    } else {
                        assert(keys_of(f)[i] == keys_of(p)[i]);
                        assert(keys_of(f)[j] == keys_of(p)[j]);
                    }
                }
            }
        }
    }
}

/// Fields that members holding the same entries give hold the same entries.
proof fn lemma_same_members_same_fields(v: Seq<(Seq<char>, JsonScalarView)>, ms: Seq<(Seq<char>, JsonScalarView)>)
    requires
        same_entries(v, ms),
    ensures
        same_entries(keep_scalars(v), keep_scalars(ms)),
{
    law_fields_are_member_texts(v);
    law_fields_are_member_texts(ms);
    assert forall|e: (Seq<char>, Seq<char>)| #[trigger] keep_scalars(v).contains(e) <==> keep_scalars(ms).contains(e) by {
        if keep_scalars(v).contains(e) {
            let i = choose|i: int| 0 <= i < v.len() && (#[trigger] v[i]).0 == e.0 && scalar_text(v[i].1) == Some(e.1);
            assert(v.contains(v[i]));
            assert(ms.contains(v[i]));
            let j = choose|j: int| 0 <= j < ms.len() && ms[j] == v[i];
            assert(ms[j].0 == e.0);
        }
        if keep_scalars(ms).contains(e) {
            let i = choose|i: int| 0 <= i < ms.len() && (#[trigger] ms[i]).0 == e.0 && scalar_text(ms[i].1) == Some(e.1);
            assert(ms.contains(ms[i]));
            assert(v.contains(ms[i]));
            let j = choose|j: int| 0 <= j < v.len() && v[j] == ms[i];
            assert(v[j].0 == e.0);
        }
    }
}

/// The document on one line of JSON input: no document for a blank line or a value that is
/// not an object, an error for a line that is not JSON, else the fields of the object's
/// string, number and boolean members. A line that writes an object as `object_line` does
/// gives a document holding exactly the written members that have a text, each with its
/// full text.
pub fn document_of_line(line: &str) -> (r: Result<Option<Vec<(String, String)>>, ()>)
    ensures
        trimmed(line@).len() == 0 ==> doc_view(r) == Ok::<Option<Seq<(Seq<char>, Seq<char>)>>, ()>(None),
        trimmed(line@).len() > 0 ==> doc_view(r) == match json_members(line@) {
            None => Err(()),
            Some(m) => Ok(object_fields(m)),
        },
        forall|ms: Seq<(Seq<char>, JsonScalarView)>, spaced: bool| writable_object(ms) && line@ == #[trigger] object_line(ms, spaced)
            ==> (doc_view(r) matches Ok(Some(f)) && same_entries(f, keep_scalars(ms))),
{
    if is_blank(line) {
        proof {
            assert forall|ms: Seq<(Seq<char>, JsonScalarView)>, spaced: bool| writable_object(ms) && line@ == #[trigger] object_line(ms, spaced) implies false by {
                assert(line@[0] == '{');
                lemma_trimmed_keeps(line@, 0);
            }
        }
        return Ok(None);
    }
    let parsed = parse_json_members(line);
    let r = document_of_members(parsed);
    proof {
        assert forall|ms: Seq<(Seq<char>, JsonScalarView)>, spaced: bool| writable_object(ms) && line@ == #[trigger] object_line(ms, spaced)
            implies (doc_view(r) matches Ok(Some(f)) && same_entries(f, keep_scalars(ms))) by {
            let v = members_view(parsed)->0->0;
            lemma_same_members_same_fields(v, ms);
        }
    }
    r
}

} // verus!
