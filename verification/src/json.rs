//! JSON, as the local services answer in it. Texts are parsed by `serde_json`; what they
//! hold is read off here.
use crate::num::{Num, INFINITY_BITS};
use vstd::prelude::*;
use vstd::string::*;

verus! {

#[verifier::external_type_specification]
#[verifier::external_body]
pub struct ExValue(serde_json::Value);

/// What a JSON value holds. A number is held as the double that it is read as.
pub enum Json {
    Null,
    Bool(bool),
    Number(Num),
    Text(Seq<char>),
    Array(Seq<Json>),
    Object(Map<Seq<char>, Json>),
}

/// What a `serde_json::Value` holds.
pub uninterp spec fn json_tree(v: serde_json::Value) -> Json;

/// What `serde_json::from_str` makes of a text; nothing where the text is no JSON.
pub uninterp spec fn text_tree(text: Seq<char>) -> Option<Json>;

/// What `serde_json::from_slice` makes of bytes; nothing where they are no JSON.
pub uninterp spec fn bytes_tree(bytes: Seq<u8>) -> Option<Json>;

/// The member of an object under a key. A value that is no object has no members.
pub open spec fn member_of(j: Json, key: Seq<char>) -> Option<Json> {
    match j {
        Json::Object(members) => if members.contains_key(key) {
            Some(members[key])
        } else {
            None
        },
        _ => None,
    }
}

/// The member under a key, of a value that may be missing.
pub open spec fn member_in(j: Option<Json>, key: Seq<char>) -> Option<Json> {
    match j {
        Some(j) => member_of(j, key),
        None => None,
    }
}

/// The number that a value is, if it is there and is one.
pub open spec fn number_in(j: Option<Json>) -> Option<Num> {
    match j {
        Some(Json::Number(n)) => Some(n),
        _ => None,
    }
}

/// The text that a value is, if it is there and is one.
pub open spec fn text_in(j: Option<Json>) -> Option<Seq<char>> {
    match j {
        Some(Json::Text(s)) => Some(s),
        _ => None,
    }
}

/// The items of an array. A value that is no array has none.
pub open spec fn items_of(j: Json) -> Option<Seq<Json>> {
    match j {
        Json::Array(items) => Some(items),
        _ => None,
    }
}

/// What a value holds, if it is there.
pub open spec fn tree_in(v: Option<&serde_json::Value>) -> Option<Json> {
    match v {
        Some(v) => Some(json_tree(*v)),
        None => None,
    }
}

/// What the values of a list hold.
pub open spec fn trees(vs: Seq<serde_json::Value>) -> Seq<Json> {
    vs.map_values(|v: serde_json::Value| json_tree(v))
}

/// What a text that may be missing says.
pub open spec fn text_of(s: Option<String>) -> Option<Seq<char>> {
    match s {
        Some(s) => Some(s@),
        None => None,
    }
}

// ---------------------------------------------------------------- serde_json

/// Calls `serde_json::from_str`. What it makes of a text depends on the text alone; the
/// error that it gives for a text that is no JSON is dropped.
#[verifier::external_body]
pub(crate) fn parse_text(text: &str) -> (r: Option<serde_json::Value>)
    ensures
        match r {
            Some(v) => text_tree(text@) == Some(json_tree(v)),
            None => text_tree(text@) is None,
        },
{
    serde_json::from_str::<serde_json::Value>(text).ok()
}

/// Calls `serde_json::from_slice`. What it makes of bytes depends on the bytes alone;
/// the error that it gives for bytes that are no JSON is dropped.
#[verifier::external_body]
pub(crate) fn parse_bytes(bytes: &[u8]) -> (r: Option<serde_json::Value>)
    ensures
        match r {
            Some(v) => bytes_tree(bytes@) == Some(json_tree(v)),
            None => bytes_tree(bytes@) is None,
        },
{
    serde_json::from_slice::<serde_json::Value>(bytes).ok()
}

/// Calls `serde_json::Value::get` with a key: the member of an object under the key, and
/// nothing for a value that is no object or has no such member.
#[verifier::external_body]
pub(crate) fn member<'a>(v: &'a serde_json::Value, key: &str) -> (r: Option<&'a serde_json::Value>)
    ensures
        tree_in(r) == member_of(json_tree(*v), key@),
{
    v.get(key)
}

/// Calls `serde_json::Value::as_f64`: the double that a number is read as, which is
/// finite, and nothing for a value that is no number.
#[verifier::external_body]
pub(crate) fn as_number(v: &serde_json::Value) -> (r: Option<Num>)
    ensures
        r == number_in(Some(json_tree(*v))),
        r matches Some(n) ==> n.magnitude() < INFINITY_BITS,
{
    match v.as_f64() {
        Some(x) => Some(Num { bits: x.to_bits() }),
        None => None,
    }
}

/// Calls `serde_json::Value::as_str`: the text that a string says, and nothing for a
/// value that is no string.
#[verifier::external_body]
pub(crate) fn as_text<'a>(v: &'a serde_json::Value) -> (r: Option<&'a str>)
    ensures
        match r {
            Some(s) => text_in(Some(json_tree(*v))) == Some(s@),
            None => text_in(Some(json_tree(*v))) is None,
        },
{
    v.as_str()
}

/// Calls `serde_json::Value::as_array`: the items of an array, and nothing for a value
/// that is no array.
#[verifier::external_body]
pub(crate) fn as_items<'a>(v: &'a serde_json::Value) -> (r: Option<&'a Vec<serde_json::Value>>)
    ensures
        match r {
            Some(items) => items_of(json_tree(*v)) == Some(trees(items@)),
            None => items_of(json_tree(*v)) is None,
        },
{
    v.as_array()
}

/// Calls `serde_json::Value::is_null`: whether a value is null.
#[verifier::external_body]
pub(crate) fn is_null(v: &serde_json::Value) -> (r: bool)
    ensures
        r == (json_tree(*v) is Null),
{
    v.is_null()
}

// ---------------------------------------------------------------- reading

/// The member under a key, of a value that may be missing.
pub fn inner<'a>(v: Option<&'a serde_json::Value>, key: &str) -> (r: Option<&'a serde_json::Value>)
    ensures
        tree_in(r) == member_in(tree_in(v), key@),
{
    match v {
        Some(v) => member(v, key),
        None => None,
    }
}

/// The number that a value is, if it is there and is one.
pub fn number(v: Option<&serde_json::Value>) -> (r: Option<Num>)
    ensures
        r == number_in(tree_in(v)),
        r matches Some(n) ==> n.magnitude() < INFINITY_BITS,
{
    match v {
        Some(v) => as_number(v),
        None => None,
    }
}

/// The text that a value is, if it is there and is one.
pub fn text(v: Option<&serde_json::Value>) -> (r: Option<String>)
    ensures
        text_of(r) == text_in(tree_in(v)),
{
    match v {
        Some(v) => match as_text(v) {
            Some(s) => Some(s.to_owned()),
            None => None,
        },
        None => None,
    }
}

/// The number under a key.
pub fn number_at(v: &serde_json::Value, key: &str) -> (r: Option<Num>)
    ensures
        r == number_in(member_of(json_tree(*v), key@)),
        r matches Some(n) ==> n.magnitude() < INFINITY_BITS,
{
    number(member(v, key))
}

/// The text under a key.
pub fn text_at(v: &serde_json::Value, key: &str) -> (r: Option<String>)
    ensures
        text_of(r) == text_in(member_of(json_tree(*v), key@)),
{
    text(member(v, key))
}

} // verus!
