//! Values of JSON, as `serde_json` reads them.

use serde_json::Value;
use vstd::prelude::*;

verus! {

/// A value of the `serde_json` crate: what it holds is told by the names below.
#[verifier::external_type_specification]
#[verifier::external_body]
pub struct ExValue(Value);

/// The value that a text spells, or why it spells none.
pub uninterp spec fn text_value(text: Seq<char>) -> Result<Value, Seq<char>>;

/// The value that the bytes of a document spell, or why they spell none.
pub uninterp spec fn bytes_value(document: Seq<u8>) -> Result<Value, Seq<char>>;

/// What an object holds under its keys; `None` for any other value.
pub uninterp spec fn members(value: Value) -> Option<Map<Seq<char>, Value>>;

/// What a list holds; `None` for any other value.
pub uninterp spec fn items(value: Value) -> Option<Seq<Value>>;

/// The text of a string; `None` for any other value.
pub uninterp spec fn text_of(value: Value) -> Option<Seq<char>>;

/// The number that a value is, if it is a whole one that `u64` holds.
pub uninterp spec fn number_of(value: Value) -> Option<u64>;

/// The truth value that a value is, if it is one.
pub uninterp spec fn flag_of(value: Value) -> Option<bool>;

/// Whether a value is `null`.
pub uninterp spec fn null(value: Value) -> bool;

/// What an object holds under a key; `None` where it holds nothing there, or the
/// value is no object.
pub open spec fn field(value: Value, key: Seq<char>) -> Option<Value> {
    match members(value) {
        Some(held) => held.get(key),
        None => None,
    }
}

/// `serde_json::from_str` into a value.
#[verifier::external_body]
pub(crate) fn parse_text(text: &str) -> (r: Result<Value, String>)
    ensures
        match (r, text_value(text@)) {
            (Ok(value), Ok(s)) => value == s,
            (Err(e), Err(s)) => e@ == s,
            _ => false,
        },
{
    serde_json::from_str(text).map_err(|e| e.to_string())
}

/// `serde_json::from_slice` into a value.
#[verifier::external_body]
pub(crate) fn parse_bytes(document: &Vec<u8>) -> (r: Result<Value, String>)
    ensures
        match (r, bytes_value(document@)) {
            (Ok(value), Ok(s)) => value == s,
            (Err(e), Err(s)) => e@ == s,
            _ => false,
        },
{
    serde_json::from_slice(document).map_err(|e| e.to_string())
}

/// `serde_json::Value::get` with a key: what an object holds under it.
#[verifier::external_body]
pub(crate) fn get<'a>(value: &'a Value, key: &str) -> (r: Option<&'a Value>)
    ensures
        match r {
            Some(held) => field(*value, key@) == Some(*held),
            None => field(*value, key@) is None,
        },
{
    value.get(key)
}

/// `serde_json::Value::as_object`, and its `serde_json::Map::keys`: the keys of
/// an object, each once.
#[verifier::external_body]
pub(crate) fn keys(value: &Value) -> (r: Option<Vec<String>>)
    ensures
        match r {
            Some(keys) => {
                &&& members(*value) is Some
                &&& forall|i: int|
                    0 <= i < keys@.len() ==> members(*value)->0.contains_key((#[trigger] keys@[i])@)
                &&& forall|key: Seq<char>| #[trigger]
                    members(*value)->0.contains_key(key) ==> exists|i: int|
                        0 <= i < keys@.len() && (#[trigger] keys@[i])@ == key
                &&& forall|i: int, j: int|
                    0 <= i < j < keys@.len() ==> (#[trigger] keys@[i])@ != (#[trigger] keys@[j])@
            },
            None => members(*value) is None,
        },
{
    value.as_object().map(|held| held.keys().cloned().collect())
}

/// `serde_json::Value::as_array`: what a list holds.
#[verifier::external_body]
pub(crate) fn list<'a>(value: &'a Value) -> (r: Option<&'a Vec<Value>>)
    ensures
        match r {
            Some(held) => items(*value) == Some(held@),
            None => items(*value) is None,
        },
{
    value.as_array()
}

/// `serde_json::Value::as_str`: the text of a string.
#[verifier::external_body]
pub(crate) fn text<'a>(value: &'a Value) -> (r: Option<&'a str>)
    ensures
        match r {
            Some(text) => text_of(*value) == Some(text@),
            None => text_of(*value) is None,
        },
{
    value.as_str()
}

/// `serde_json::Value::as_u64`: the whole number that a value is.
#[verifier::external_body]
pub(crate) fn number(value: &Value) -> (r: Option<u64>)
    ensures
        r == number_of(*value),
{
    value.as_u64()
}

/// `serde_json::Value::as_bool`: the truth value that a value is.
#[verifier::external_body]
pub(crate) fn flag(value: &Value) -> (r: Option<bool>)
    ensures
        r == flag_of(*value),
{
    value.as_bool()
}

/// `serde_json::Value::is_null`.
#[verifier::external_body]
pub(crate) fn is_null(value: &Value) -> (r: bool)
    ensures
        r == null(*value),
{
    value.is_null()
}

} // verus!
