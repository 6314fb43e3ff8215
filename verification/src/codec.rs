use vstd::prelude::*;

use crate::json::{well_formed, Json, JsonValue};

verus! {

#[verifier::external_type_specification]
#[verifier::external_body]
pub struct ExJsonDocument(serde_json::Value);

#[verifier::external_type_specification]
#[verifier::external_body]
pub struct ExJsonError(serde_json::Error);

#[verifier::external_type_specification]
#[verifier::external_body]
pub struct ExYamlError(serde_norway::Error);

#[verifier::external_type_specification]
#[verifier::external_body]
pub struct ExIoError(std::io::Error);

/// What `serde_json::from_str::<serde_json::Value>` makes of a text: the
/// document, or `None` where it reports an error.
pub uninterp spec fn json_document(text: Seq<char>) -> Option<Json>;

/// What `serde_norway::from_str::<serde_json::Value>` makes of a YAML text:
/// the document, or `None` where it reports an error.
pub uninterp spec fn yaml_document(text: Seq<char>) -> Option<Json>;

/// The compact JSON text that `serde_json` writes for a value (the `Display`
/// of `serde_json::Value`).
pub uninterp spec fn json_text(v: Json) -> Seq<char>;

/// Turns a `serde_json::Value` into the library's value, member for member;
/// a number keeps the text that `serde_json` writes for it. Nothing is claimed
/// of it: it only serves the bodies of the wrappers below.
#[verifier::external_body]
fn value_from_outside(v: serde_json::Value) -> JsonValue {
    match v {
        serde_json::Value::Null => JsonValue::Null,
        serde_json::Value::Bool(b) => JsonValue::Bool(b),
        serde_json::Value::Number(n) => JsonValue::Number(n.to_string()),
        serde_json::Value::String(s) => JsonValue::String(s),
        serde_json::Value::Array(a) => JsonValue::Array(a.into_iter().map(value_from_outside).collect()),
        serde_json::Value::Object(m) => JsonValue::Object(
            m.into_iter().map(|(k, x)| (k, value_from_outside(x))).collect(),
        ),
    }
}

/// Turns the library's value into a `serde_json::Value`, member for member;
/// a number text that `serde_json` cannot read stays a string. Nothing is
/// claimed of it: it only serves the body of `json_to_text`.
#[verifier::external_body]
fn value_to_outside(v: &JsonValue) -> serde_json::Value {
    match v {
        JsonValue::Null => serde_json::Value::Null,
        JsonValue::Bool(b) => serde_json::Value::Bool(*b),
        JsonValue::Number(t) => match t.parse::<serde_json::Number>() {
            Ok(n) => serde_json::Value::Number(n),
            Err(_) => serde_json::Value::String(t.clone()),
        },
        JsonValue::String(s) => serde_json::Value::String(s.clone()),
        JsonValue::Array(a) => serde_json::Value::Array(a.iter().map(value_to_outside).collect()),
        JsonValue::Object(es) => serde_json::Value::Object(
            es.iter().map(|(k, x)| (k.clone(), value_to_outside(x))).collect(),
        ),
    }
}

/// Calls `serde_json::from_str::<serde_json::Value>`. Claimed: the result is
/// the function `json_document` of the text, and `Err` exactly where that
/// gives `None`; a document is well-formed, since a `serde_json::Map` holds
/// each key once. Nothing is claimed of the error.
#[verifier::external_body]
pub(crate) fn json_from_str(text: &str) -> (r: Result<JsonValue, serde_json::Error>)
    ensures
        match r {
            Ok(v) => json_document(text@) == Some(v@) && well_formed(v@),
            Err(_) => json_document(text@) is None,
        },
{
    match serde_json::from_str::<serde_json::Value>(text) {
        Ok(v) => Ok(value_from_outside(v)),
        Err(e) => Err(e),
    }
}

/// Calls `serde_norway::from_str::<serde_json::Value>`. Claimed: the result
/// is the function `yaml_document` of the text, and `Err` exactly where that
/// gives `None`; a document is well-formed, since a `serde_json::Map` holds
/// each key once. Nothing is claimed of the error.
#[verifier::external_body]
pub(crate) fn yaml_from_str(text: &str) -> (r: Result<JsonValue, serde_norway::Error>)
    ensures
        match r {
            Ok(v) => yaml_document(text@) == Some(v@) && well_formed(v@),
            Err(_) => yaml_document(text@) is None,
        },
{
    match serde_norway::from_str::<serde_json::Value>(text) {
        Ok(v) => Ok(value_from_outside(v)),
        Err(e) => Err(e),
    }
}

/// Calls `Display` of `serde_json::Value` (compact JSON). Claimed: the text
/// is the function `json_text` of the value.
#[verifier::external_body]
pub(crate) fn json_to_text(v: &JsonValue) -> (r: String)
    ensures
        r@ == json_text(v@),
{
    value_to_outside(v).to_string()
}

/// Calls `Display` of `serde_json::Error`. Nothing is claimed of the text.
#[verifier::external_body]
pub(crate) fn json_error_text(e: &serde_json::Error) -> String {
    e.to_string()
}

/// Calls `Display` of `serde_norway::Error`. Nothing is claimed of the text.
#[verifier::external_body]
pub(crate) fn yaml_error_text(e: &serde_norway::Error) -> String {
    e.to_string()
}

/// Calls `Display` of `std::io::Error`. Nothing is claimed of the text.
#[verifier::external_body]
pub(crate) fn io_error_text(e: &std::io::Error) -> String {
    e.to_string()
}

} // verus!
