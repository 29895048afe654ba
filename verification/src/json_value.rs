//! JSON documents as trees, read by way of serde_json.

use crate::crawl_laws::names_distinct;
use serde_json::{Error, Value};
use vstd::prelude::*;

verus! {

/// A JSON document as a tree of typed nodes.
///
/// A number holds the integer that it stands for, where it stands for one
/// that fits `i64`, and nothing otherwise. An object holds its members in the
/// order in which the document gives them.
#[derive(Debug, PartialEq, Eq)]
pub enum JsonValue {
    Null,
    Bool(bool),
    Number(Option<i64>),
    String(String),
    Array(Vec<JsonValue>),
    Object(Vec<(String, JsonValue)>),
}

/// Why a text could not be read as a JSON document.
#[derive(Clone, Debug, PartialEq, Eq)]
pub struct JsonError {
    pub message: String,
}

/// serde_json's `Value`: a document as serde_json holds it. It is carried from
/// the reader to the conversion and not looked into.
#[verifier::external_type_specification]
#[verifier::external_body]
pub struct ExValue(Value);

/// serde_json's `Error`: why serde_json could not read a text. It is carried
/// from the reader to `error_message` and not looked into.
#[verifier::external_type_specification]
#[verifier::external_body]
pub struct ExError(Error);

/// The tree that a `serde_json::Value` holds.
pub uninterp spec fn tree_of(value: Value) -> JsonValue;

/// The document that serde_json reads from `text`, where it reads one.
pub uninterp spec fn parsed_json(text: Seq<char>) -> Option<JsonValue>;

/// Reads `text` as one JSON document.
///
/// Calls `serde_json::from_str` for a `serde_json::Value`. The contract names
/// the result, which depends on `text` alone, and claims nothing else.
#[verifier::external_body]
fn read_value(text: &str) -> (outcome: Result<Value, Error>)
    ensures
        outcome is Ok <==> parsed_json(text@) is Some,
        outcome matches Ok(value) ==> parsed_json(text@) == Some(tree_of(value)),
{
    serde_json::from_str::<Value>(text)
}

/// The tree that `value` holds, as a value of this library.
///
/// Moves each variant of `serde_json::Value` into the variant of the same
/// name, a number through `serde_json::Number::as_i64` and the members of an
/// object in the order in which `serde_json::Map` hands them out. The contract
/// names the result after `value`, and claims of it that no object has two
/// members of one name, since a `serde_json::Map` holds one value for a key.
#[verifier::external_body]
fn from_serde(value: Value) -> (tree: JsonValue)
    ensures
        tree == tree_of(value),
        names_distinct(tree),
{
    match value {
        Value::Null => JsonValue::Null,
        Value::Bool(flag) => JsonValue::Bool(flag),
        Value::Number(number) => JsonValue::Number(number.as_i64()),
        Value::String(text) => JsonValue::String(text),
        Value::Array(items) => JsonValue::Array(items.into_iter().map(from_serde).collect()),
        Value::Object(members) => JsonValue::Object(
            members.into_iter().map(|(name, member)| (name, from_serde(member))).collect(),
        ),
    }
}

/// What `error` says, as serde_json words it.
///
/// Calls `to_string` on a `serde_json::Error`. Nothing is claimed of the text.
#[verifier::external_body]
fn error_message(error: &Error) -> (message: String) {
    error.to_string()
}

/// Reads `text` as one JSON document. A number stands for an integer where it
/// is written without a fraction and without an exponent.
pub fn parse_json(text: &str) -> (outcome: Result<JsonValue, JsonError>)
    ensures
        outcome is Ok <==> parsed_json(text@) is Some,
        outcome matches Ok(tree) ==> parsed_json(text@) == Some(tree) && names_distinct(tree),
{
    match read_value(text) {
        Ok(value) => Ok(from_serde(value)),
        Err(error) => Err(JsonError { message: error_message(&error) }),
    }
}

} // verus!
