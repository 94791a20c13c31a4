//! The JSON values that the structured format is made of. The values and
//! their text come from `serde_json`; this module says what each call used
//! here builds, over a tree that stands for a value.

use vstd::prelude::*;

verus! {

/// The tree that a JSON value stands for, as far as this library builds
/// values: numbers without sign or fraction, strings, arrays and objects.
pub enum JsonModel {
    Number(nat),
    Text(Seq<char>),
    List(Seq<JsonModel>),
    Object(Map<Seq<char>, JsonModel>),
}

/// `serde_json::Value`, carried through as an opaque value.
#[verifier::external_type_specification]
#[verifier::external_body]
pub struct ExValue(serde_json::Value);

/// `serde_json::Map`, the members of a JSON object, carried through as an
/// opaque value.
#[verifier::external_type_specification]
#[verifier::external_body]
#[verifier::reject_recursive_types(K)]
#[verifier::reject_recursive_types(V)]
pub struct ExMap<K, V>(serde_json::Map<K, V>);

/// `serde_json::Error`, carried through as an opaque value.
#[verifier::external_type_specification]
#[verifier::external_body]
pub struct ExError(serde_json::Error);

/// The tree that the value `v` stands for.
pub uninterp spec fn json_value(v: serde_json::Value) -> JsonModel;

/// The members that the map `m` holds, each key with the tree of its value.
pub uninterp spec fn json_members(m: serde_json::Map<String, serde_json::Value>) -> Map<
    Seq<char>,
    JsonModel,
>;

/// The pretty-printed text that `serde_json::to_vec_pretty` writes for a
/// value that stands for the tree `doc`.
pub uninterp spec fn json_pretty(doc: JsonModel) -> Seq<u8>;

/// `serde_json::Value::String`: the value is the string `s`.
#[verifier::external_body]
pub(crate) fn json_text(s: String) -> (v: serde_json::Value)
    ensures
        json_value(v) == JsonModel::Text(s@),
{
    serde_json::Value::String(s)
}

/// `serde_json::Value::from` for `u64`: the value is the number `n`.
#[verifier::external_body]
pub(crate) fn json_number(n: u64) -> (v: serde_json::Value)
    ensures
        json_value(v) == JsonModel::Number(n as nat),
{
    serde_json::Value::from(n)
}

/// `serde_json::Value::Array`: the value is the array of `items`, in their
/// order.
#[verifier::external_body]
pub(crate) fn json_list(items: Vec<serde_json::Value>) -> (v: serde_json::Value)
    ensures
        json_value(v) == JsonModel::List(items@.map_values(|x: serde_json::Value| json_value(x))),
{
    serde_json::Value::Array(items)
}

/// `serde_json::Map::new`: the new map has no member.
#[verifier::external_body]
pub(crate) fn json_map_new() -> (m: serde_json::Map<String, serde_json::Value>)
    ensures
        json_members(m).dom() == Set::<Seq<char>>::empty(),
{
    serde_json::Map::new()
}

/// `serde_json::Map::insert`: afterwards the map holds `value` under `key`,
/// in place of what it held under that key before, and its other members
/// as before.
#[verifier::external_body]
pub(crate) fn json_map_insert(
    m: &mut serde_json::Map<String, serde_json::Value>,
    key: String,
    value: serde_json::Value,
)
    ensures
        json_members(*final(m)) == json_members(*old(m)).insert(key@, json_value(value)),
{
    m.insert(key, value);
}

/// `serde_json::Value::Object`: the value is the object with the members
/// of `m`.
#[verifier::external_body]
pub(crate) fn json_object(m: serde_json::Map<String, serde_json::Value>) -> (v: serde_json::Value)
    ensures
        json_value(v) == JsonModel::Object(json_members(m)),
{
    serde_json::Value::Object(m)
}

/// `serde_json::to_vec_pretty` on a value: it succeeds, and the bytes are
/// the pretty-printed text of the value's tree. It writes into a byte
/// vector, which takes whatever is appended; the only errors on the way
/// of a value are those of the writer, a value raises none of its own,
/// and the keys of its objects are strings. The map behind an object
/// keeps its members sorted by key, so the text depends on the tree alone.
#[verifier::external_body]
pub(crate) fn json_pretty_bytes(v: &serde_json::Value) -> (r: Result<Vec<u8>, serde_json::Error>)
    ensures
        r is Ok,
        r->Ok_0@ == json_pretty(json_value(*v)),
{
    serde_json::to_vec_pretty(v)
}

/// The `Display` text of a `serde_json::Error`. Nothing is claimed of it.
#[verifier::external_body]
pub(crate) fn json_error_text(e: &serde_json::Error) -> String {
    format!("{}", e)
}

} // verus!
