//! JSON values as flow payloads carry them. The values themselves are
//! `serde_json::Value`s; this module gives them a mathematical model and the
//! few operations on them that the flow logic needs.
use vstd::prelude::*;

verus! {

/// The mathematical model of a JSON value. A number is kept by its text;
/// an object maps each key to its value (serde_json keeps objects in a
/// `BTreeMap`, so keys are unique).
pub enum JsonModel {
    Null,
    Bool(bool),
    Number(Seq<char>),
    Str(Seq<char>),
    Array(Seq<JsonModel>),
    Object(Map<Seq<char>, JsonModel>),
}

/// The variant of a JSON value.
#[derive(Clone, Copy, PartialEq, Eq, Structural, Debug)]
pub enum JsonKind {
    Null,
    Bool,
    Number,
    Str,
    Array,
    Object,
}

pub open spec fn kind_of(m: JsonModel) -> JsonKind {
    match m {
        JsonModel::Null => JsonKind::Null,
        JsonModel::Bool(_) => JsonKind::Bool,
        JsonModel::Number(_) => JsonKind::Number,
        JsonModel::Str(_) => JsonKind::Str,
        JsonModel::Array(_) => JsonKind::Array,
        JsonModel::Object(_) => JsonKind::Object,
    }
}

#[verifier::external_type_specification]
#[verifier::external_body]
pub struct ExJsonValue(serde_json::Value);

/// What a `serde_json::Value` holds.
pub uninterp spec fn json_view(v: serde_json::Value) -> JsonModel;

/// What `serde_json::from_str::<serde_json::Value>` gives for a text (`None` on a syntax error).
pub uninterp spec fn parse_json(text: Seq<char>) -> Option<JsonModel>;

/// The compact text that `Value::to_string` writes for a value.
pub uninterp spec fn json_text(m: JsonModel) -> Seq<char>;

/// `Value::eq` on two values.
pub uninterp spec fn json_equal(a: JsonModel, b: JsonModel) -> bool;

/// `serde_json::from_str::<Value>`: parses a JSON text; `None` where the text is not JSON.
#[verifier::external_body]
pub(crate) fn json_parse(text: &str) -> (r: Option<serde_json::Value>)
    ensures
        r is Some <==> parse_json(text@) is Some,
        r is Some ==> json_view(r->0) == parse_json(text@)->0,
{
    serde_json::from_str::<serde_json::Value>(text).ok()
}

/// `Value::to_string`: the compact JSON text of a value.
#[verifier::external_body]
pub(crate) fn json_to_string(v: &serde_json::Value) -> (r: String)
    ensures
        r@ == json_text(json_view(*v)),
{
    v.to_string()
}

/// `Value::eq`. Values with the same model are equal (serde_json derives the
/// comparison field by field).
#[verifier::external_body]
pub(crate) fn json_eq(a: &serde_json::Value, b: &serde_json::Value) -> (r: bool)
    ensures
        r == json_equal(json_view(*a), json_view(*b)),
        json_view(*a) == json_view(*b) ==> r,
{
    a == b
}

/// `Value::clone`: a copy with the same contents.
#[verifier::external_body]
pub(crate) fn json_clone(v: &serde_json::Value) -> (r: serde_json::Value)
    ensures
        json_view(r) == json_view(*v),
{
    v.clone()
}

/// Which variant a value is.
#[verifier::external_body]
pub(crate) fn json_kind(v: &serde_json::Value) -> (k: JsonKind)
    ensures
        k == kind_of(json_view(*v)),
{
    match v {
        serde_json::Value::Null => JsonKind::Null,
        serde_json::Value::Bool(_) => JsonKind::Bool,
        serde_json::Value::Number(_) => JsonKind::Number,
        serde_json::Value::String(_) => JsonKind::Str,
        serde_json::Value::Array(_) => JsonKind::Array,
        serde_json::Value::Object(_) => JsonKind::Object,
    }
}

/// `Value::as_str`: the text of a string value.
#[verifier::external_body]
pub(crate) fn json_as_str(v: &serde_json::Value) -> (r: Option<&str>)
    ensures
        r is Some <==> json_view(*v) is Str,
        r is Some ==> json_view(*v) == JsonModel::Str(r->0@),
{
    v.as_str()
}

/// `Value::as_array`: the items of an array value.
#[verifier::external_body]
pub(crate) fn json_as_array(v: &serde_json::Value) -> (r: Option<&Vec<serde_json::Value>>)
    ensures
        r is Some <==> json_view(*v) is Array,
        r is Some ==> json_view(*v) == JsonModel::Array(
            r->0@.map_values(|x: serde_json::Value| json_view(x)),
        ),
{
    v.as_array()
}

/// The keys of an object value (`Map::keys`), each once; `None` for other values.
#[verifier::external_body]
pub(crate) fn json_object_keys(v: &serde_json::Value) -> (r: Option<Vec<String>>)
    ensures
        r is Some <==> json_view(*v) is Object,
        r is Some ==> {
            &&& r->0@.map_values(|k: String| k@).no_duplicates()
            &&& r->0@.map_values(|k: String| k@).to_set() == json_view(*v)->Object_0.dom()
        },
{
    v.as_object().map(|m| m.keys().cloned().collect())
}

/// `Value::get` with a key: the member of an object; `None` for a missing key or another variant.
#[verifier::external_body]
pub(crate) fn json_get<'a>(v: &'a serde_json::Value, key: &str) -> (r: Option<&'a serde_json::Value>)
    ensures
        match json_view(*v) {
            JsonModel::Object(m) => {
                &&& (r is Some <==> m.dom().contains(key@))
                &&& r is Some ==> json_view(*r->0) == m[key@]
            },
            _ => r is None,
        },
{
    v.get(key)
}

/// `Map::insert` on an object value; other variants stay as they are.
#[verifier::external_body]
pub(crate) fn json_insert(v: &mut serde_json::Value, key: String, item: serde_json::Value)
    ensures
        match json_view(*old(v)) {
            JsonModel::Object(m) => json_view(*final(v)) == JsonModel::Object(
                m.insert(key@, json_view(item)),
            ),
            _ => json_view(*final(v)) == json_view(*old(v)),
        },
{
    if let serde_json::Value::Object(m) = v {
        m.insert(key, item);
    }
}

/// `Value::Object(Map::new())`: the empty object.
#[verifier::external_body]
pub(crate) fn json_empty_object() -> (r: serde_json::Value)
    ensures
        json_view(r) == JsonModel::Object(Map::empty()),
{
    serde_json::Value::Object(serde_json::Map::new())
}

/// `Value::String`: a string value.
#[verifier::external_body]
pub(crate) fn json_string(s: String) -> (r: serde_json::Value)
    ensures
        json_view(r) == JsonModel::Str(s@),
{
    serde_json::Value::String(s)
}

/// `Value::Array`: an array value of the given items.
#[verifier::external_body]
pub(crate) fn json_array(items: Vec<serde_json::Value>) -> (r: serde_json::Value)
    ensures
        json_view(r) == JsonModel::Array(items@.map_values(|x: serde_json::Value| json_view(x))),
{
    serde_json::Value::Array(items)
}

/// `Value::Null`.
#[verifier::external_body]
pub(crate) fn json_null() -> (r: serde_json::Value)
    ensures
        json_view(r) == JsonModel::Null,
{
    serde_json::Value::Null
}

} // verus!
