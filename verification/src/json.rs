//! The trusted boundary to the JSON parser.  Every item here only moves a
//! value across the boundary; nothing is promised about what a document
//! holds, and everything the engine concludes is proved downstream from
//! plain values these wrappers hand back.

use vstd::prelude::*;

verus! {

#[verifier::external_type_specification]
#[verifier::external_body]
pub struct ExValue(serde_json::Value);

/// Relies on `serde_json::from_str::<Value>`: parse one JSON document,
/// `None` when the text is not valid JSON.
#[verifier::external_body]
pub fn parse_json(s: &str) -> (r: Option<serde_json::Value>) {
    serde_json::from_str::<serde_json::Value>(s).ok()
}

/// Relies on `serde_json::Value::get`: the value under a key of an object,
/// `None` for other value kinds or a missing key.
#[verifier::external_body]
pub fn json_get<'a>(v: &'a serde_json::Value, key: &str) -> (r: Option<&'a serde_json::Value>) {
    v.get(key)
}

/// Relies on `serde_json::Value::as_str`: the text of a JSON string value.
#[verifier::external_body]
pub fn json_str(v: &serde_json::Value) -> (r: Option<String>) {
    v.as_str().map(|s| s.to_string())
}

/// Relies on `serde_json::Value::as_array`: the elements of a JSON array.
#[verifier::external_body]
pub fn json_array<'a>(v: &'a serde_json::Value) -> (r: Option<&'a Vec<serde_json::Value>>) {
    v.as_array()
}

/// Relies on `serde_json::Value::as_number` and `Number`'s `Display`: the
/// decimal text of a JSON number value.
#[verifier::external_body]
pub fn json_number_string(v: &serde_json::Value) -> (r: Option<String>) {
    v.as_number().map(|n| n.to_string())
}

} // verus!
