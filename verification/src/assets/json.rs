//! JSON documents as plain values.

use vstd::prelude::*;
use crate::text::str_eq;

verus! {

/// A JSON document. An object lists its members, each key once.
#[derive(Debug)]
pub enum Json {
    Null,
    Bool(bool),
    /// A number, rendered anew from the value that was read: `1.50` is `1.5`.
    Number(String),
    Str(String),
    Array(Vec<Json>),
    Object(Vec<(String, Json)>),
}

/// The model of a JSON document.
pub enum JsonTree {
    Null,
    Bool(bool),
    Number(Seq<char>),
    Str(Seq<char>),
    Array(Seq<JsonTree>),
    Object(Seq<(Seq<char>, JsonTree)>),
}

/// The document that `j` holds.
pub open spec fn tree_of(j: Json) -> JsonTree
    decreases j,
{
    match j {
        Json::Null => JsonTree::Null,
        Json::Bool(b) => JsonTree::Bool(b),
        Json::Number(n) => JsonTree::Number(n@),
        Json::Str(s) => JsonTree::Str(s@),
        Json::Array(items) => JsonTree::Array(
            Seq::new(
                items@.len(),
                |i: int|
                    if 0 <= i < items@.len() {
                        tree_of(items@[i])
                    } else {
                        JsonTree::Null
                    },
            ),
        ),
        Json::Object(members) => JsonTree::Object(
            Seq::new(
                members@.len(),
                |i: int|
                    if 0 <= i < members@.len() {
                        (members@[i].0@, tree_of(members@[i].1))
                    } else {
                        (Seq::empty(), JsonTree::Null)
                    },
            ),
        ),
    }
}

impl View for Json {
    type V = JsonTree;

    open spec fn view(&self) -> JsonTree {
        tree_of(*self)
    }
}

/// `serde_json::Value`, a parsed document as the parser has it.
#[verifier::external_type_specification]
#[verifier::external_body]
pub struct ExValue(serde_json::Value);

/// `serde_json::Error`, what the parser has against a text.
#[verifier::external_type_specification]
#[verifier::external_body]
pub struct ExJsonError(serde_json::Error);

/// The document that a parsed value holds.
pub uninterp spec fn value_tree(v: serde_json::Value) -> JsonTree;

/// The document that a text holds, if it is JSON.
pub uninterp spec fn parsed_json(text: Seq<char>) -> Option<JsonTree>;

/// `serde_json::from_str`, into a `serde_json::Value`: the document that `text`
/// holds, or an error if it is not JSON. Which texts are JSON, and what they
/// hold, is left to the parser.
#[verifier::external_body]
fn parse_value(text: &str) -> (r: Result<serde_json::Value, serde_json::Error>)
    ensures
        match r {
            Ok(v) => parsed_json(text@) == Some(value_tree(v)),
            Err(_) => parsed_json(text@) is None,
        },
{
    serde_json::from_str::<serde_json::Value>(text)
}

/// The variants of `serde_json::Value`, one for one, with the items of an array
/// and the members of an object in the order in which the value lists them.
#[verifier::external_body]
fn from_value(v: serde_json::Value) -> (r: Json)
    ensures
        r@ == value_tree(v),
{
    match v {
        serde_json::Value::Null => Json::Null,
        serde_json::Value::Bool(b) => Json::Bool(b),
        serde_json::Value::Number(n) => Json::Number(n.to_string()),
        serde_json::Value::String(s) => Json::Str(s),
        serde_json::Value::Array(items) => Json::Array(items.into_iter().map(from_value).collect()),
        serde_json::Value::Object(members) => Json::Object(
            members.into_iter().map(|(k, m)| (k, from_value(m))).collect(),
        ),
    }
}

/// The JSON document in `text`.
pub fn parse_json(text: &str) -> (r: Option<Json>)
    ensures
        match r {
            Some(j) => parsed_json(text@) == Some(j@),
            None => parsed_json(text@) is None,
        },
{
    match parse_value(text) {
        Ok(v) => Some(from_value(v)),
        Err(_) => None,
    }
}

// ---- looking into a document ----

/// Where key `key` stands among `members`, from `i` on.
pub open spec fn member_index(members: Seq<(Seq<char>, JsonTree)>, key: Seq<char>, i: int) -> Option<
    int,
>
    decreases members.len() - i,
{
    if 0 <= i < members.len() {
        if members[i].0 == key {
            Some(i)
        } else {
            member_index(members, key, i + 1)
        }
    } else {
        None
    }
}

/// The member `key` of an object; `None` for anything else.
pub open spec fn tree_get(t: JsonTree, key: Seq<char>) -> Option<JsonTree> {
    match t {
        JsonTree::Object(members) => match member_index(members, key, 0) {
            Some(i) => Some(members[i].1),
            None => None,
        },
        _ => None,
    }
}

/// The text of a string; `None` for anything else.
pub open spec fn tree_str(t: JsonTree) -> Option<Seq<char>> {
    match t {
        JsonTree::Str(s) => Some(s),
        _ => None,
    }
}

/// What `member_index` finds has the key and is in range.
pub proof fn lemma_member_index(members: Seq<(Seq<char>, JsonTree)>, key: Seq<char>, i: int)
    requires
        0 <= i,
    ensures
        member_index(members, key, i) matches Some(k) ==> i <= k < members.len() && members[k].0
            == key,
    decreases members.len() - i,
{
    if i < members.len() && members[i].0 != key {
        lemma_member_index(members, key, i + 1);
    }
}

/// The member `key` of an object.
pub fn get<'a>(j: &'a Json, key: &str) -> (r: Option<&'a Json>)
    ensures
        match r {
            Some(v) => tree_get(j@, key@) == Some(v@) && decreases_to!(*j => *v),
            None => tree_get(j@, key@) is None,
        },
{
    match j {
        Json::Object(members) => {
            let ghost ms = j@->Object_0;
            let mut i: usize = 0;
            while i < members.len()
                invariant
                    0 <= i <= members@.len(),
                    *j == Json::Object(*members),
                    j@ == JsonTree::Object(ms),
                    ms.len() == members@.len(),
                    forall|k: int|
                        0 <= k < ms.len() ==> #[trigger] ms[k] == (
                            members@[k].0@,
                            members@[k].1@,
                        ),
                    member_index(ms, key@, i as int) == member_index(ms, key@, 0),
                decreases members@.len() - i,
            {
                assert(ms[i as int] == (members@[i as int].0@, members@[i as int].1@));
                if str_eq(members[i].0.as_str(), key) {
                    return Some(&members[i].1);
                }
                i = i + 1;
            }
            None
        },
        _ => None,
    }
}

} // verus!
