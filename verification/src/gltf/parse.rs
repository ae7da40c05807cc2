//! Reading node extras: the text a scene exporter attaches to a glTF node,
//! read as JSON by `serde_json`.
use vstd::prelude::*;

use crate::gltf::{model, well_ordered, Json, JsonModel, JsonNumber};

verus! {

/// A JSON value as `serde_json` parses it
#[verifier::external_type_specification]
#[verifier::external_body]
pub struct ExJsonValue(serde_json::Value);

/// The JSON value `serde_json` reads `text` as; none where `text` is not
/// JSON
pub uninterp spec fn json_text_value(text: Seq<char>) -> Option<JsonModel>;

/// Reads node extras as JSON, with `serde_json::from_str`, and takes the
/// parsed `serde_json::Value` over one for one (see `json_of_value`).
///
/// Claimed of the call: the result is the value `json_text_value` names for
/// the text, and none exactly where `serde_json` refuses the text. Its
/// objects hold their members in the order of their keys' bytes, each key
/// once, as `serde_json::Map` does when it is backed by a `BTreeMap` (this
/// crate does not turn on `serde_json`'s `preserve_order` feature). What
/// the parser accepts is not stated here.
#[verifier::external_body]
pub fn parse_extras(text: &str) -> (r: Option<Json>)
    ensures
        match json_text_value(text@) {
            Some(v) => r is Some && model(r->0) == v && well_ordered(v),
            None => r is None,
        },
{
    match serde_json::from_str::<serde_json::Value>(text) {
        Ok(value) => Some(json_of_value(value)),
        Err(_) => None,
    }
}

/// Takes a parsed `serde_json::Value` over one for one: each variant into
/// the variant of the same name, a number into the form it is held in
/// (non-negative integer, negative integer, or other), object members in
/// the map's order. Called only by `parse_extras`, whose contract covers
/// the parse and this conversion together; nothing is stated of it alone.
#[verifier::external_body]
fn json_of_value(value: serde_json::Value) -> Json {
    match value {
        serde_json::Value::Null => Json::Null,
        serde_json::Value::Bool(b) => Json::Bool(b),
        serde_json::Value::Number(n) => Json::Number(match (n.as_u64(), n.as_i64()) {
            (Some(u), _) => JsonNumber::Unsigned(u),
            (None, Some(i)) => JsonNumber::Negative(i),
            (None, None) => JsonNumber::Other(n.to_string()),
        }),
        serde_json::Value::String(s) => Json::Text(s),
        serde_json::Value::Array(a) => Json::Array(a.into_iter().map(json_of_value).collect()),
        serde_json::Value::Object(m) => Json::Object(m.into_iter().map(|(k, x)| (k, json_of_value(x))).collect()),
    }
}

} // verus!
