use vstd::prelude::*;

verus! {

/// A JSON value as the library reads it. Numbers carry no value: nothing here reads one.
/// The members of an object come in the order of their keys.
pub enum Json {
    Null,
    Bool(bool),
    Number,
    Text(String),
    Array(Vec<Json>),
    Object(Vec<(String, Json)>),
}

/// The value of `serde_json`'s JSON type, declared so that a signature can name it.
#[verifier::external_type_specification]
#[verifier::external_body]
pub struct ExJsonValue(serde_json::Value);

/// The JSON value that `serde_json` reads from the bytes `data`, if they are JSON.
pub uninterp spec fn json_of(data: Seq<u8>) -> Option<Json>;

/// Parses the bytes with `serde_json::from_slice` into a `serde_json::Value` and converts it
/// one for one into a [`Json`]. The contract claims only that the result is `json_of` of the
/// bytes, a function of them alone: `serde_json` gives an error, never a panic, on bytes that
/// are not JSON or nest too deep, and without its `preserve_order` feature an object's
/// members come in key order. How JSON text is read, `serde_json` decides; no clause states
/// it.
#[verifier::external_body]
pub(crate) fn parse_json(data: &[u8]) -> (r: Option<Json>)
    ensures
        r == json_of(data@),
{
    match serde_json::from_slice::<serde_json::Value>(data) {
        Ok(value) => Some(json_from_value(&value)),
        Err(_) => None,
    }
}

/// Converts a `serde_json::Value` into a [`Json`], variant for variant; the one step of
/// `parse_json` that needs recursion. Nothing is claimed of it: `parse_json` states what the
/// whole conversion gives.
#[verifier::external_body]
fn json_from_value(value: &serde_json::Value) -> Json {
    match value {
        serde_json::Value::Null => Json::Null,
        serde_json::Value::Bool(b) => Json::Bool(*b),
        serde_json::Value::Number(_) => Json::Number,
        serde_json::Value::String(s) => Json::Text(s.clone()),
        serde_json::Value::Array(items) => Json::Array(items.iter().map(json_from_value).collect()),
        serde_json::Value::Object(members) => Json::Object(
            members.iter().map(|(k, v)| (k.clone(), json_from_value(v))).collect(),
        ),
    }
}

} // verus!
