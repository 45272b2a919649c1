//! JSON values as trees of plain data, read from text by `serde_json`.

use crate::text::str_eq;
use vstd::prelude::*;

verus! {

/// A JSON value: its rendering as compact JSON text, and what it holds.

pub struct Json {
    /// The value written as compact JSON text.
    pub text: String,
    /// The value itself.
    pub kind: JsonKind,
}

/// What a JSON value holds. A number is held by its text alone; the entries
/// of an object stand in the order of the map they were read into.

pub enum JsonKind {
    Null,
    Bool(bool),
    Number,
    Str(String),
    Array(Vec<Json>),
    Object(Vec<(String, Json)>),
}

/// Whether `i` is the first entry with this key.
pub open spec fn is_first_member(entries: Seq<(String, Json)>, key: Seq<char>, i: int) -> bool {
    &&& 0 <= i < entries.len()
    &&& entries[i].0@ == key
    &&& forall|j: int| 0 <= j < i ==> (#[trigger] entries[j]).0@ != key
}

/// Whether some entry has this key.
pub open spec fn has_member(entries: Seq<(String, Json)>, key: Seq<char>) -> bool {
    exists|i: int| is_first_member(entries, key, i)
}

/// The first entry with a key is the one that `is_first_member` admits.
pub proof fn lemma_first_member_unique(entries: Seq<(String, Json)>, key: Seq<char>, i: int)
    requires
        is_first_member(entries, key, i),
    ensures
        has_member(entries, key),
        (choose|k: int| is_first_member(entries, key, k)) == i,
{
    let k = choose|k: int| is_first_member(entries, key, k);
    assert(is_first_member(entries, key, k));
    if k < i {
        assert(entries[k].0@ != key);
    } else if i < k {
        assert(entries[i].0@ != key);
    }
}

impl Json {
    /// The entries of an object; none for any other value.
    pub open spec fn entries(self) -> Seq<(String, Json)> {
        match self.kind {
            JsonKind::Object(entries) => entries@,
            _ => Seq::empty(),
        }
    }

    /// Whether this is an object with an entry under `key`.
    pub open spec fn has(self, key: Seq<char>) -> bool {
        has_member(self.entries(), key)
    }

    /// The value under `key` in an object (arbitrary where there is none).
    pub open spec fn at(self, key: Seq<char>) -> Json {
        self.entries()[choose|i: int| is_first_member(self.entries(), key, i)].1
    }

    /// The value under `key`, if this is an object that has one.
    pub fn get(&self, key: &str) -> (r: Option<&Json>)
        ensures
            r is Some == self.has(key@),
            r matches Some(v) ==> *v == self.at(key@),
    {
        match &self.kind {
            JsonKind::Object(entries) => {
                let mut i: usize = 0;
                while i < entries.len()
                    invariant
                        i <= entries.len(),
                        entries@ == self.entries(),
                        forall|j: int| 0 <= j < i ==> (#[trigger] entries@[j]).0@ != key@,
                    decreases entries.len() - i,
                {
                    if str_eq(entries[i].0.as_str(), key) {
                        proof {
                            lemma_first_member_unique(entries@, key@, i as int);
                        }
                        return Some(&entries[i].1);
                    }
                    i += 1;
                }
                assert(!has_member(entries@, key@));
                None
            },
            _ => {
                assert(!has_member(self.entries(), key@));
                None
            },
        }
    }
}

/// The value type of `serde_json`, opaque to the verifier.
#[verifier::external_type_specification]
#[verifier::external_body]
pub struct ExJsonValue(serde_json::Value);

/// The error type of `serde_json`, opaque to the verifier.
#[verifier::external_type_specification]
#[verifier::external_body]
pub struct ExJsonError(serde_json::Error);

/// What `serde_json::from_str` reads from a text: the value as a tree, each
/// node with its rendering by `serde_json`, or `None` where the text is
/// refused.
pub uninterp spec fn parsed(text: Seq<char>) -> Option<Json>;

/// Copies a `serde_json::Value` into a tree, variant by variant: each node
/// with the text that `serde_json` writes for it, an object's entries in the
/// order in which its map hands them out.
#[verifier::external_body]
fn tree_of(value: &serde_json::Value) -> Json {
    let kind = match value {
        serde_json::Value::Null => JsonKind::Null,
        serde_json::Value::Bool(b) => JsonKind::Bool(*b),
        serde_json::Value::Number(_) => JsonKind::Number,
        serde_json::Value::String(s) => JsonKind::Str(s.clone()),
        serde_json::Value::Array(items) => JsonKind::Array(items.iter().map(tree_of).collect()),
        serde_json::Value::Object(map) => JsonKind::Object(
            map.iter().map(|(k, v)| (k.clone(), tree_of(v))).collect(),
        ),
    };
    Json { text: value.to_string(), kind }
}

/// Reads a text with `serde_json::from_str`. The result depends on the text
/// alone: it is `parsed` of it.
#[verifier::external_body]
fn read_tree(text: &str) -> (r: Result<Json, serde_json::Error>)
    ensures
        match r {
            Ok(tree) => parsed(text@) == Some(tree),
            Err(_) => parsed(text@) is None,
        },
{
    match serde_json::from_str::<serde_json::Value>(text) {
        Ok(value) => Ok(tree_of(&value)),
        Err(error) => Err(error),
    }
}

/// Reads a JSON text into a tree: `Some` exactly where `serde_json` accepts
/// the text.
pub fn parse_json(text: &str) -> (r: Option<Json>)
    ensures
        r == parsed(text@),
{
    match read_tree(text) {
        Ok(tree) => Some(tree),
        Err(_) => None,
    }
}

} // verus!
