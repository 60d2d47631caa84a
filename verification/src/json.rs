//! JSON documents, as `serde_json` holds them.

use vstd::prelude::*;

verus! {

/// A JSON document held by `serde_json`.
#[verifier::external_type_specification]
#[verifier::external_body]
pub struct ExValue(serde_json::Value);

/// What a JSON document says. Of the numbers only the natural ones are told apart.
pub enum Json {
    Null,
    Bool(bool),
    Nat(nat),
    OtherNumber,
    Text(Seq<char>),
    List(Seq<Json>),
    Object(Map<Seq<char>, Json>),
}

/// What a `serde_json` document holds.
pub uninterp spec fn json_of(v: serde_json::Value) -> Json;

/// What `serde_json` reads out of a text, or nothing where it is no JSON document.
pub uninterp spec fn parsed(s: Seq<char>) -> Option<Json>;

/// What a list of documents holds.
pub open spec fn jsons(v: Seq<serde_json::Value>) -> Seq<Json> {
    v.map_values(|x: serde_json::Value| json_of(x))
}

/// The member of an object under `key`; other documents have no members.
pub open spec fn member(j: Json, key: Seq<char>) -> Option<Json> {
    match j {
        Json::Object(m) => if m.dom().contains(key) {
            Some(m[key])
        } else {
            None
        },
        _ => None,
    }
}

/// The text that a document is, if it is one.
pub open spec fn as_text(j: Option<Json>) -> Option<Seq<char>> {
    match j {
        Some(Json::Text(s)) => Some(s),
        _ => None,
    }
}

/// The list that a document is, if it is one.
pub open spec fn as_list(j: Option<Json>) -> Option<Seq<Json>> {
    match j {
        Some(Json::List(l)) => Some(l),
        _ => None,
    }
}

/// `serde_json::from_str` into a `Value`: fails or gives the document that the text
/// stands for, by the text alone.
#[verifier::external_body]
pub(crate) fn parse(s: &str) -> (r: Option<serde_json::Value>)
    ensures
        match r {
            Some(v) => parsed(s@) == Some(json_of(v)),
            None => parsed(s@) is None,
        },
{
    serde_json::from_str(s).ok()
}

/// `Value::get` with a string: the member under that key, where the document is an
/// object that has one.
#[verifier::external_body]
pub(crate) fn get<'a>(v: &'a serde_json::Value, key: &str) -> (r: Option<&'a serde_json::Value>)
    ensures
        match r {
            Some(m) => member(json_of(*v), key@) == Some(json_of(*m)),
            None => member(json_of(*v), key@) is None,
        },
{
    v.get(key)
}

/// `Value::as_str`: the text, where the document is one.
#[verifier::external_body]
pub(crate) fn str_of(v: &serde_json::Value) -> (r: Option<&str>)
    ensures
        match r {
            Some(s) => as_text(Some(json_of(*v))) == Some(s@),
            None => as_text(Some(json_of(*v))) is None,
        },
{
    v.as_str()
}

/// `Value::as_array`: the list, where the document is one.
#[verifier::external_body]
pub(crate) fn list_of(v: &serde_json::Value) -> (r: Option<&Vec<serde_json::Value>>)
    ensures
        match r {
            Some(l) => as_list(Some(json_of(*v))) == Some(jsons(l@)),
            None => as_list(Some(json_of(*v))) is None,
        },
{
    v.as_array()
}

/// `Value::from` of a string: the document that is this text.
#[verifier::external_body]
pub(crate) fn text(s: &str) -> (r: serde_json::Value)
    ensures
        json_of(r) == Json::Text(s@),
{
    serde_json::Value::from(s)
}

/// `Value::from` of an unsigned number: the document that is this number.
#[verifier::external_body]
pub(crate) fn number(n: u64) -> (r: serde_json::Value)
    ensures
        json_of(r) == Json::Nat(n as nat),
{
    serde_json::Value::from(n)
}

/// `Value::from` of a truth value: the document that is this truth value.
#[verifier::external_body]
pub(crate) fn boolean(b: bool) -> (r: serde_json::Value)
    ensures
        json_of(r) == Json::Bool(b),
{
    serde_json::Value::from(b)
}

/// `Value::from` of a list: the document that is the list of these documents.
#[verifier::external_body]
pub(crate) fn list(v: Vec<serde_json::Value>) -> (r: serde_json::Value)
    ensures
        json_of(r) == Json::List(jsons(v@)),
{
    serde_json::Value::from(v)
}

/// `Value::from` of `serde_json::Map::new`: the object without members.
#[verifier::external_body]
pub(crate) fn object() -> (r: serde_json::Value)
    ensures
        json_of(r) == Json::Object(Map::empty()),
{
    serde_json::Value::from(serde_json::Map::new())
}

/// `Map::insert` on the members of an object: puts `member` under `key`, in place
/// of what was there. On a document that is no object, `Value::as_object_mut` gives
/// nothing to put it into.
#[verifier::external_body]
pub(crate) fn put(v: &mut serde_json::Value, key: &str, member: serde_json::Value)
    requires
        json_of(*old(v)) is Object,
    ensures
        json_of(*final(v)) == Json::Object(json_of(*old(v))->Object_0.insert(key@, json_of(member))),
{
    v.as_object_mut().map(|m| m.insert(key.to_string(), member));
}

} // verus!
