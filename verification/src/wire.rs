//! The calls into the JSON crate.
//!
//! What `serde_json` reads and writes is not proved here. The functions below say
//! what is relied on.

use serde_json::{Number, Value};
use vstd::prelude::*;

use crate::json::{Json, JsonView};

verus! {

/// A JSON value of the JSON crate, opaque here.
#[verifier::external_type_specification]
#[verifier::external_body]
pub struct ExValue(Value);

/// An error of the JSON crate, opaque here.
#[verifier::external_type_specification]
#[verifier::external_body]
pub struct ExError(serde_json::Error);

/// What `serde_json::from_str` reads from a text; `None` where it reports an error.
pub uninterp spec fn parsed(text: Seq<char>) -> Option<JsonView>;

/// What a value of the JSON crate holds.
pub uninterp spec fn held(value: Value) -> JsonView;

/// The compact text that a value of the JSON crate is written as.
pub uninterp spec fn written(value: Value) -> Seq<char>;

/// The compact text that a JSON value is written as.
pub uninterp spec fn serialized(json: JsonView) -> Seq<char>;

/// `serde_json::from_str`, into a `serde_json::Value`. Whether it reads the text, and
/// what it reads, depends on the text alone.
#[verifier::external_body]
fn parse_value(text: &str) -> (value: Result<Value, serde_json::Error>)
    ensures
        match value {
            Ok(value) => parsed(text@) == Some(held(value)),
            Err(_) => parsed(text@) is None,
        },
{
    serde_json::from_str(text)
}

/// The variants of `serde_json::Value`, one for one: this is what a value holds. A
/// number that `Number::as_u64` or `Number::as_i64` gives is an integer, and any
/// other one is the text that `Number` is displayed as.
#[verifier::external_body]
fn json_of(value: Value) -> (json: Json)
    ensures
        json@ == held(value),
{
    match value {
        Value::Null => Json::Null,
        Value::Bool(b) => Json::Bool(b),
        Value::Number(n) => match (n.as_u64(), n.as_i64()) {
            (Some(n), _) => Json::Unsigned(n),
            (None, Some(n)) => Json::Negative(n),
            (None, None) => Json::Decimal(n.to_string()),
        },
        Value::String(text) => Json::Text(text),
        Value::Array(items) => Json::Array(items.into_iter().map(json_of).collect()),
        Value::Object(fields) => Json::Object(fields.into_iter().map(|(name, value)| (name, json_of(value))).collect()),
    }
}

/// Whether a value is an object with none but text fields.
pub open spec fn holds_texts(json: JsonView) -> bool {
    json is Object && forall|name: Seq<char>| #[trigger]
        json->Object_0.dom().contains(name) ==> json->Object_0[name] is Text
}

/// The variants of `serde_json::Value`, one for one, from a `Json`. A `Decimal` is
/// read by `str::parse` and `serde_json::Number::from_f64`; one that they do not
/// take becomes null.
///
/// What the value writes depends on the content of the `Json` alone: a `Map` of
/// `serde_json` keeps the last of several fields of one name, and orders them by
/// name. Where the content is an object of texts, `serde_json::from_str` gives it
/// back from what is written.
#[verifier::external_body]
fn value_of(json: &Json) -> (value: Value)
    ensures
        written(value) == serialized(json@),
        holds_texts(json@) ==> parsed(written(value)) == Some(json@),
{
    match json {
        Json::Null => Value::Null,
        Json::Bool(b) => Value::Bool(*b),
        Json::Unsigned(n) => Value::from(*n),
        Json::Negative(n) => Value::from(*n),
        Json::Decimal(text) => text.parse().ok().and_then(Number::from_f64)
            .map_or(Value::Null, Value::Number),
        Json::Text(text) => Value::String(text.clone()),
        Json::Array(items) => Value::Array(items.iter().map(value_of).collect()),
        Json::Object(fields) => Value::Object(
            fields.iter().map(|(name, value)| (name.clone(), value_of(value))).collect(),
        ),
    }
}

/// `serde_json::Value` by its `Display`: the compact text, which depends on the value
/// alone.
#[verifier::external_body]
fn value_text(value: &Value) -> (text: String)
    ensures
        text@ == written(*value),
{
    value.to_string()
}

/// Reads a JSON text; `None` where it is none.
pub fn parse(text: &str) -> (json: Option<Json>)
    ensures
        match json {
            Some(json) => parsed(text@) == Some(json@),
            None => parsed(text@) is None,
        },
{
    match parse_value(text) {
        Ok(value) => Some(json_of(value)),
        Err(_) => None,
    }
}

/// The compact text of a JSON value.
pub fn text_of(json: &Json) -> (text: String)
    ensures
        text@ == serialized(json@),
        holds_texts(json@) ==> parsed(text@) == Some(json@),
{
    value_text(&value_of(json))
}

} // verus!
