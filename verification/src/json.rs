//! JSON values of `serde_json`, and what they hold.

use serde_json::Value;
use vstd::prelude::*;

verus! {

/// What a JSON value holds. An integer and a floating-point number are told
/// apart, as `serde_json` does; a floating-point number is given by its bits.
pub enum Json {
    Null,
    Bool(bool),
    Number(int),
    Float(u64),
    Text(Seq<char>),
    Array(Seq<Json>),
    Object(Map<Seq<char>, Json>),
}

/// The JSON value of `serde_json`.
#[verifier::external_type_specification]
#[verifier::external_body]
pub struct ExValue(serde_json::Value);

/// The JSON object of `serde_json`: a map from texts to values.
#[verifier::external_type_specification]
#[verifier::external_body]
#[verifier::reject_recursive_types(K)]
#[verifier::reject_recursive_types(V)]
pub struct ExMap<K, V>(serde_json::Map<K, V>);

/// What a `serde_json::Value` holds.
pub uninterp spec fn json(value: serde_json::Value) -> Json;

/// What a `serde_json::Map` holds.
pub uninterp spec fn entries(object: serde_json::Map<String, serde_json::Value>) -> Map<
    Seq<char>,
    Json,
>;

/// What `serde_json::from_slice` reads from a byte string, where it is JSON.
pub uninterp spec fn parse_json(bytes: Seq<u8>) -> Option<Json>;

/// What `serde_json::to_vec` writes for a value.
pub uninterp spec fn json_bytes(value: Json) -> Seq<u8>;

/// The contents of an object without fields.
pub open spec fn no_entries() -> Map<Seq<char>, Json> {
    Map::empty()
}

/// Whether a value is neither a floating-point number nor a list nor an object.
pub open spec fn is_scalar(value: Json) -> bool {
    match value {
        Json::Null => true,
        Json::Bool(_) => true,
        Json::Number(_) => true,
        Json::Text(_) => true,
        _ => false,
    }
}

/// Whether a value is an object of scalars.
pub open spec fn is_flat(value: Json) -> bool {
    match value {
        Json::Object(fields) => forall|name: Seq<char>|
            fields.contains_key(name) ==> is_scalar(#[trigger] fields[name]),
        _ => false,
    }
}

/// The text at a field of a value, where the value is an object and has a text
/// there.
pub open spec fn text_field(value: Json, name: Seq<char>) -> Option<Seq<char>> {
    match value {
        Json::Object(fields) => if fields.contains_key(name) {
            match fields[name] {
                Json::Text(text) => Some(text),
                _ => None,
            }
        } else {
            None
        },
        _ => None,
    }
}

/// Calls `serde_json::Map::new`: an object without fields.
#[verifier::external_body]
pub(crate) fn new_object() -> (object: serde_json::Map<String, Value>)
    ensures
        entries(object) == no_entries(),
{
    serde_json::Map::new()
}

/// Calls `serde_json::Map::insert`: the field is there afterwards with the new
/// value, whether or not it was there before.
#[verifier::external_body]
pub(crate) fn insert(object: &mut serde_json::Map<String, Value>, name: String, value: Value)
    ensures
        entries(*final(object)) == entries(*old(object)).insert(name@, json(value)),
{
    object.insert(name, value);
}

/// Calls `serde_json::Map::remove`: the field is gone afterwards, and its value
/// comes back where there was one.
#[verifier::external_body]
pub(crate) fn remove(object: &mut serde_json::Map<String, Value>, name: &str) -> (value: Option<
    Value,
>)
    ensures
        entries(*final(object)) == entries(*old(object)).remove(name@),
        match value {
            Some(value) => entries(*old(object)).contains_key(name@) && json(value) == entries(
                *old(object),
            )[name@],
            None => !entries(*old(object)).contains_key(name@),
        },
{
    object.remove(name)
}

/// Calls `serde_json::Map::contains_key`.
#[verifier::external_body]
pub(crate) fn contains_key(object: &serde_json::Map<String, Value>, name: &str) -> (found: bool)
    ensures
        found == entries(*object).contains_key(name@),
{
    object.contains_key(name)
}

/// Calls `extend` of `serde_json::Map`: every field of the second object is in
/// the first one afterwards, in place of one of the same name.
#[verifier::external_body]
pub(crate) fn extend(
    object: &mut serde_json::Map<String, Value>,
    more: serde_json::Map<String, Value>,
)
    ensures
        entries(*final(object)) == entries(*old(object)).union_prefer_right(entries(more)),
{
    object.extend(more);
}

/// Calls `clone` of `serde_json::Map`.
#[verifier::external_body]
pub(crate) fn clone_object(object: &serde_json::Map<String, Value>) -> (copy: serde_json::Map<
    String,
    Value,
>)
    ensures
        entries(copy) == entries(*object),
{
    object.clone()
}

/// Calls `serde_json::Value::as_object`.
#[verifier::external_body]
pub(crate) fn as_object(value: &Value) -> (object: Option<&serde_json::Map<String, Value>>)
    ensures
        match object {
            Some(object) => json(*value) == Json::Object(entries(*object)),
            None => !(json(*value) is Object),
        },
{
    value.as_object()
}

/// Calls `serde_json::Value::as_str`.
#[verifier::external_body]
pub(crate) fn as_text(value: &Value) -> (text: Option<&str>)
    ensures
        match text {
            Some(text) => json(*value) == Json::Text(text@),
            None => !(json(*value) is Text),
        },
{
    value.as_str()
}

/// Calls `serde_json::Value::get` with a text: the field of that name, where the
/// value is an object and has it.
#[verifier::external_body]
pub(crate) fn get<'a>(value: &'a Value, name: &str) -> (field: Option<&'a Value>)
    ensures
        match field {
            Some(field) => json(*value) is Object && json(*value)->Object_0.contains_key(name@)
                && json(*field) == json(*value)->Object_0[name@],
            None => !(json(*value) is Object && json(*value)->Object_0.contains_key(name@)),
        },
{
    value.get(name)
}

/// Makes a `serde_json::Value::Null`.
#[verifier::external_body]
pub(crate) fn null_value() -> (value: Value)
    ensures
        json(value) == Json::Null,
{
    serde_json::Value::Null
}

/// Makes a `serde_json::Value::Bool`.
#[verifier::external_body]
pub(crate) fn flag_value(flag: bool) -> (value: Value)
    ensures
        json(value) == Json::Bool(flag),
{
    serde_json::Value::Bool(flag)
}

/// Calls `serde_json::Value::from` on an unsigned number.
#[verifier::external_body]
pub(crate) fn number_value(number: u64) -> (value: Value)
    ensures
        json(value) == Json::Number(number as int),
{
    serde_json::Value::from(number)
}

/// Makes a `serde_json::Value::String`.
#[verifier::external_body]
pub(crate) fn text_value(text: String) -> (value: Value)
    ensures
        json(value) == Json::Text(text@),
{
    serde_json::Value::String(text)
}

/// Makes a `serde_json::Value::Object`.
#[verifier::external_body]
pub(crate) fn object_value(object: serde_json::Map<String, Value>) -> (value: Value)
    ensures
        json(value) == Json::Object(entries(object)),
{
    serde_json::Value::Object(object)
}

/// Calls `serde_json::from_slice` for a `serde_json::Value`.
#[verifier::external_body]
pub(crate) fn parse(bytes: &[u8]) -> (value: Option<Value>)
    ensures
        match value {
            Some(value) => parse_json(bytes@) == Some(json(value)),
            None => parse_json(bytes@) is None,
        },
{
    serde_json::from_slice(bytes).ok()
}

/// Calls `serde_json::to_vec` on a `serde_json::Value`, which writes into memory
/// and has texts for its keys, and so does not fail. An object keeps its fields
/// sorted by name, so that the result depends on what the value holds alone. The
/// result is one line:
/// the compact form has no line feed of its own and escapes those within a text.
/// It is not empty, and an object of scalars is read back from it as it was.
/// Nothing is claimed of reading back a floating-point number or a nested value.
#[verifier::external_body]
pub(crate) fn encode(value: &Value) -> (bytes: Result<Vec<u8>, String>)
    ensures
        match bytes {
            Ok(bytes) => {
                &&& bytes@ == json_bytes(json(*value))
                &&& bytes@.len() > 0
                &&& !bytes@.contains(10u8)
                &&& is_flat(json(*value)) ==> parse_json(bytes@) == Some(json(*value))
            },
            Err(_) => false,
        },
{
    serde_json::to_vec(value).map_err(|error| error.to_string())
}

} // verus!
