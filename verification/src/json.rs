//! JSON values of `serde_json`, and what they hold.
//!
//! A [`Value`] is opaque. [`json_of`] names what it holds, and each function
//! here says over that name what one operation of `serde_json` does.

use crate::float::is_wide_finite;
use serde_json::Value;
use vstd::prelude::*;

verus! {

/// `serde_json::Value`.
#[verifier::external_type_specification]
#[verifier::external_body]
pub struct ExValue(serde_json::Value);

/// A JSON number in the form in which it is kept: an integer from zero up, an
/// integer below zero, or the encoding of a finite binary64 number.
pub enum JsonNumber {
    Unsigned(u64),
    Negative(i64),
    Float(u64),
}

/// What a JSON value holds.
pub enum Json {
    Null,
    Bool(bool),
    Number(JsonNumber),
    Text(Seq<char>),
    Array(Seq<Json>),
    Object(Map<Seq<char>, Json>),
}

/// What a `serde_json::Value` holds.
pub uninterp spec fn json_of(value: Value) -> Json;

/// What `serde_json::from_slice` makes of some bytes: a JSON value, or the text
/// of the error.
pub uninterp spec fn parsed_json(bytes: Seq<u8>) -> Result<Json, Seq<char>>;

/// The bytes that `serde_json::to_vec` writes for a JSON value.
pub uninterp spec fn json_bytes(json: Json) -> Seq<u8>;

/// The encoding of what `serde_json::Value::as_f64` returns for a number.
pub uninterp spec fn number_bits(number: JsonNumber) -> u64;

/// The member of an object under a key.
pub open spec fn field(j: Json, key: Seq<char>) -> Option<Json> {
    match j {
        Json::Object(m) => if m.contains_key(key) {
            Some(m[key])
        } else {
            None
        },
        _ => None,
    }
}

/// The item of an array at a place.
pub open spec fn element(j: Json, place: int) -> Option<Json> {
    match j {
        Json::Array(s) => if 0 <= place < s.len() {
            Some(s[place])
        } else {
            None
        },
        _ => None,
    }
}

/// The truth value that a JSON value is.
pub open spec fn truth(j: Json) -> Option<bool> {
    match j {
        Json::Bool(b) => Some(b),
        _ => None,
    }
}

/// The binary64 encoding of the number that a JSON value is.
pub open spec fn bits_of(j: Json) -> Option<u64> {
    match j {
        Json::Number(n) => Some(number_bits(n)),
        _ => None,
    }
}

/// An object without the member under a key. Anything else stays as it is.
pub open spec fn without(j: Json, key: Seq<char>) -> Json {
    match j {
        Json::Object(m) => Json::Object(m.remove(key)),
        _ => j,
    }
}

/// An object with a member under a key. Anything else stays as it is.
pub open spec fn with(j: Json, key: Seq<char>, member: Json) -> Json {
    match j {
        Json::Object(m) => Json::Object(m.insert(key, member)),
        _ => j,
    }
}

/// What some JSON values hold.
pub open spec fn jsons_of(s: Seq<Value>) -> Seq<Json> {
    s.map_values(|v: Value| json_of(v))
}

/// One key stands before another: it is a proper prefix of it, or its character
/// is the smaller one at the first place where they differ.
pub open spec fn key_before(a: Seq<char>, b: Seq<char>) -> bool {
    exists|i: int|
        #![trigger a.take(i), b.take(i)]
        {
            &&& 0 <= i <= a.len()
            &&& i < b.len()
            &&& a.take(i) == b.take(i)
            &&& (i == a.len() || a[i] < b[i])
        }
}

/// `keys` are the keys of `m`, in order.
pub open spec fn lists_keys(m: Map<Seq<char>, Json>, keys: Seq<Seq<char>>) -> bool {
    &&& forall|k: Seq<char>| #[trigger] m.contains_key(k) <==> keys.contains(k)
    &&& forall|i: int, j: int|
        #![trigger keys[i], keys[j]]
        0 <= i < j < keys.len() ==> key_before(keys[i], keys[j])
}

/// `serde_json::from_slice` into a `Value`: the value that the bytes spell, or
/// the text of the error. The outcome depends on the bytes alone.
#[verifier::external_body]
pub(crate) fn parse_json(bytes: &[u8]) -> (r: Result<Value, String>)
    ensures
        match r {
            Ok(v) => (parsed_json(bytes@) == Ok::<Json, Seq<char>>(json_of(v))),
            Err(e) => (parsed_json(bytes@) == Err::<Json, Seq<char>>(e@)),
        },
{
    serde_json::from_slice(bytes).map_err(|e| e.to_string())
}

/// `serde_json::to_vec` on a `Value`: the bytes that spell it. They depend on what
/// the value holds alone, and writing them does not fail. That reading them gives
/// the value back is left unsaid, since the last digit of a number that is kept as
/// binary64 can change.
#[verifier::external_body]
pub(crate) fn write_json(value: &Value) -> (r: Vec<u8>)
    ensures
        r@ == json_bytes(json_of(*value)),
{
    serde_json::to_vec(value).expect("a JSON value is written to memory")
}

/// `serde_json::Value::get` with a key: the member under it, where the value is
/// an object that has one.
#[verifier::external_body]
pub(crate) fn member<'a>(value: &'a Value, key: &str) -> (r: Option<&'a Value>)
    ensures
        match r {
            Some(v) => (field(json_of(*value), key@) == Some(json_of(*v))),
            None => (field(json_of(*value), key@) is None),
        },
{
    value.get(key)
}

/// `serde_json::Value::get` with an index: the item at it, where the value is an
/// array that is long enough.
#[verifier::external_body]
pub(crate) fn item<'a>(value: &'a Value, place: usize) -> (r: Option<&'a Value>)
    ensures
        match r {
            Some(v) => (element(json_of(*value), place as int) == Some(json_of(*v))),
            None => (element(json_of(*value), place as int) is None),
        },
{
    value.get(place)
}

/// `serde_json::Value::as_bool`: the truth value, where the value is one.
#[verifier::external_body]
pub(crate) fn as_bool(value: &Value) -> (r: Option<bool>)
    ensures
        r == truth(json_of(*value)),
{
    value.as_bool()
}

/// `serde_json::Value::is_null`.
#[verifier::external_body]
pub(crate) fn is_null(value: &Value) -> (r: bool)
    ensures
        r == (json_of(*value) is Null),
{
    value.is_null()
}

/// `serde_json::Value::as_f64`: the number, where the value is one. A number
/// that is kept as binary64 comes back as it is; an integer is converted. What
/// comes back is finite.
#[verifier::external_body]
pub(crate) fn as_wide_bits(value: &Value) -> (r: Option<u64>)
    ensures
        match json_of(*value) {
            Json::Number(n) => r == Some(number_bits(n)) && (n matches JsonNumber::Float(b) ==> r
                == Some(b)),
            _ => r is None,
        },
        r matches Some(b) ==> is_wide_finite(b),
{
    value.as_f64().map(|x| x.to_bits())
}

/// `serde_json::Value::as_array`: the items in order, where the value is an
/// array.
#[verifier::external_body]
pub(crate) fn as_array(value: &Value) -> (r: Option<&Vec<Value>>)
    ensures
        match r {
            Some(items) => (json_of(*value) == Json::Array(jsons_of(items@))),
            None => !(json_of(*value) is Array),
        },
{
    value.as_array()
}

/// `serde_json::Map::values` on `serde_json::Value::as_object`: the members in
/// the order of their keys, where the value is an object.
#[verifier::external_body]
pub(crate) fn object_values<'a>(value: &'a Value) -> (r: Option<Vec<&'a Value>>)
    ensures
        match r {
            Some(members) => exists|m: Map<Seq<char>, Json>, keys: Seq<Seq<char>>|
                #![trigger lists_keys(m, keys)]
                {
                    &&& json_of(*value) == Json::Object(m)
                    &&& lists_keys(m, keys)
                    &&& members@.len() == keys.len()
                    &&& forall|i: int|
                        #![trigger members@[i]]
                        0 <= i < keys.len() ==> json_of(*members@[i]) == m[keys[i]]
                },
            None => !(json_of(*value) is Object),
        },
{
    value.as_object().map(|m| m.values().collect())
}

/// `serde_json::Map::remove` on `serde_json::Value::as_object_mut`: an object
/// loses the member under the key.
#[verifier::external_body]
pub(crate) fn remove_member(value: &mut Value, key: &str)
    ensures
        json_of(*final(value)) == without(json_of(*old(value)), key@),
{
    if let Some(m) = value.as_object_mut() {
        m.remove(key);
    }
}

/// `serde_json::Map::insert` on `serde_json::Value::as_object_mut`: an object
/// gains the member under the key, in place of one that was there.
#[verifier::external_body]
pub(crate) fn insert_member(value: &mut Value, key: &str, member: Value)
    ensures
        json_of(*final(value)) == with(json_of(*old(value)), key@, json_of(member)),
{
    if let Some(m) = value.as_object_mut() {
        m.insert(key.to_string(), member);
    }
}

/// `serde_json::Value::Null`.
#[verifier::external_body]
pub(crate) fn null_value() -> (r: Value)
    ensures
        json_of(r) == Json::Null,
{
    Value::Null
}

/// `serde_json::Value::from` on a `bool`.
#[verifier::external_body]
pub(crate) fn bool_value(b: bool) -> (r: Value)
    ensures
        json_of(r) == Json::Bool(b),
{
    Value::from(b)
}

/// `serde_json::Value::from` on a `u64`: an integer from zero up.
#[verifier::external_body]
pub(crate) fn count_value(n: u64) -> (r: Value)
    ensures
        json_of(r) == Json::Number(JsonNumber::Unsigned(n)),
{
    Value::from(n)
}

/// `serde_json::Value::from` on a `&str`.
#[verifier::external_body]
pub(crate) fn text_value(text: &str) -> (r: Value)
    ensures
        json_of(r) == Json::Text(text@),
{
    Value::from(text)
}

/// `serde_json::Value::from` on a `Vec<Value>`: an array of the items, in order.
#[verifier::external_body]
pub(crate) fn array_value(items: Vec<Value>) -> (r: Value)
    ensures
        json_of(r) == Json::Array(jsons_of(items@)),
{
    Value::from(items)
}

/// `serde_json::Map::new`, as a `serde_json::Value`: an object without members.
#[verifier::external_body]
pub(crate) fn empty_object() -> (r: Value)
    ensures
        (json_of(r) == Json::Object(Map::<Seq<char>, Json>::empty())),
{
    Value::Object(serde_json::Map::new())
}

} // verus!
