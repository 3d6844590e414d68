use vstd::prelude::*;

use std::collections::HashMap;

verus! {

broadcast use vstd::string::group_string_axioms;

/// The value that a map with string keys holds under the key whose characters are `k`, as
/// characters, if it has such a key.
pub open spec fn text_lookup(m: Map<String, String>, k: Seq<char>) -> Option<Seq<char>> {
    if exists|key: String| #[trigger] m.contains_key(key) && key@ == k {
        Some(m[choose|key: String| #[trigger] m.contains_key(key) && key@ == k]@)
    } else {
        None
    }
}

/// Calls `HashMap::get` with a `&str` key on a map with `String` keys: it finds the entry
/// whose key has the characters of `k`, if there is one (a `String` compares and hashes as
/// the `str` it holds).
#[verifier::external_body]
fn get_text<'a>(m: &'a HashMap<String, String>, k: &str) -> (r: Option<&'a String>)
    ensures
        match r {
            Some(v) => text_lookup(m@, k@) == Some(v@),
            None => text_lookup(m@, k@) is None,
        },
{
    m.get(k)
}

/// A document that can be indexed: an id, and a value for each of its fields.
pub trait Document {
    /// The document's id, as characters.
    spec fn id_view(&self) -> Seq<char>;

    /// The value of field `name`, as characters, if the document has the field.
    spec fn field_view(&self, name: Seq<char>) -> Option<Seq<char>>;

    /// The document's id.
    fn id(&self) -> (r: &str)
        ensures
            r@ == self.id_view(),
    ;

    /// The value of field `name`, if the document has it.
    fn field(&self, name: &str) -> (r: Option<&str>)
        ensures
            match r {
                Some(v) => self.field_view(name@) == Some(v@),
                None => self.field_view(name@) is None,
            },
    ;

    /// The value to store for field `name`: by default, the field's value.
    fn stored_field(&self, name: &str) -> (r: Option<String>)
        default_ensures
            match r {
                Some(v) => self.field_view(name@) == Some(v@),
                None => self.field_view(name@) is None,
            },
    {
        match self.field(name) {
            Some(v) => Some(v.to_string()),
            None => None,
        }
    }
}

impl Document for HashMap<String, String> {
    /// The value under the key "id", or nothing.
    open spec fn id_view(&self) -> Seq<char> {
        match text_lookup(self@, "id"@) {
            Some(v) => v,
            None => Seq::empty(),
        }
    }

    /// The value under the key `name`.
    open spec fn field_view(&self, name: Seq<char>) -> Option<Seq<char>> {
        text_lookup(self@, name)
    }

    /// The value of the field "id", or the empty string.
    fn id(&self) -> (r: &str) {
        match get_text(self, "id") {
            Some(v) => v.as_str(),
            None => {
                proof {
                    reveal_strlit("");
                }
                ""
            },
        }
    }

    /// The value stored under `name`.
    fn field(&self, name: &str) -> (r: Option<&str>) {
        match get_text(self, name) {
            Some(v) => Some(v.as_str()),
            None => None,
        }
    }
}

} // verus!
