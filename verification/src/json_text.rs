use vstd::prelude::*;
use crate::json::{Json, JsonV};

verus! {

#[verifier::external_type_specification]
#[verifier::external_body]
pub struct ExJsonValue(serde_json::Value);

/// What `serde_json::from_slice` reads from bytes: a JSON value, or none when the bytes are
/// not one JSON document.
pub uninterp spec fn json_parse(b: Seq<u8>) -> Option<JsonV>;

/// The text `serde_json` writes for a JSON value (compact, object members in key order).
pub uninterp spec fn json_render(j: JsonV) -> Seq<char>;

/// One `serde_json::Value` as the library's `Json`, variant for variant (numbers keep
/// their text). Only the two wrappers below use it; it stands apart because a tree is
/// converted by recursion.
#[verifier::external_body]
fn json_from_value(v: serde_json::Value) -> Json {
    match v {
        serde_json::Value::Null => Json::Null,
        serde_json::Value::Bool(b) => Json::Bool(b),
        serde_json::Value::Number(n) => Json::Number(n.to_string()),
        serde_json::Value::String(s) => Json::Str(s),
        serde_json::Value::Array(a) => Json::Array(a.into_iter().map(json_from_value).collect()),
        serde_json::Value::Object(m) => Json::Object(m.into_iter().map(|(k, x)| (k, json_from_value(x))).collect()),
    }
}

/// One library `Json` as a `serde_json::Value`, variant for variant; of two members with
/// one key the first is kept, as in the value's view. Only `render_json` uses it.
#[verifier::external_body]
fn value_from_json(j: &Json) -> serde_json::Value {
    match j {
        Json::Null => serde_json::Value::Null,
        Json::Bool(b) => serde_json::Value::Bool(*b),
        Json::Number(t) => t.parse::<serde_json::Number>().map(serde_json::Value::Number).unwrap_or(serde_json::Value::Null),
        Json::Str(s) => serde_json::Value::String(s.clone()),
        Json::Array(a) => serde_json::Value::Array(a.iter().map(value_from_json).collect()),
        Json::Object(m) => serde_json::Value::Object(m.iter().rev().map(|(k, x)| (k.clone(), value_from_json(x))).collect()),
    }
}

/// Parses bytes as JSON with `serde_json::from_slice`. Its result is named by
/// [`json_parse`]; the text of the error is not stated.
#[verifier::external_body]
pub fn parse_json(b: &[u8]) -> (r: Result<Json, String>)
    ensures
        match r {
            Ok(j) => json_parse(b@) == Some(j@),
            Err(_) => json_parse(b@) is None,
        },
{
    match serde_json::from_slice::<serde_json::Value>(b) {
        Ok(v) => Ok(json_from_value(v)),
        Err(e) => Err(e.to_string()),
    }
}

/// Writes a JSON value as text with `serde_json`'s `to_string`. Its result is named by
/// [`json_render`].
#[verifier::external_body]
pub fn render_json(j: &Json) -> (s: String)
    ensures
        s@ == json_render(j@),
{
    value_from_json(j).to_string()
}

} // verus!
