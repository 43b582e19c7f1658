//! JSON documents, as far as reading a resource needs them.

use serde_json::Value;
use vstd::prelude::*;

verus! {

/// What a JSON value holds. The members of an object stand in the order in
/// which the object hands them out.
pub ghost enum JsonValue {
    Null,
    Bool(bool),
    /// A number written without fraction or exponent.
    Integer(int),
    /// Any other number.
    Fraction,
    Text(Seq<char>),
    Array(Seq<JsonValue>),
    Object(Seq<(Seq<char>, JsonValue)>),
}

/// `serde_json::Value`, held as it is; what it holds is known by
/// `json_model` alone.
#[verifier::external_type_specification]
#[verifier::external_body]
pub struct ExJsonValue(serde_json::Value);

/// What a parsed document holds.
pub uninterp spec fn json_model(value: Value) -> JsonValue;

/// What a text holds when read as one JSON document, if it is one.
pub uninterp spec fn json_text(text: Seq<char>) -> Option<JsonValue>;

/// Whether `j` is an object with a member named `key`.
pub open spec fn has_member(j: JsonValue, key: Seq<char>) -> bool {
    j is Object && exists|i: int|
        0 <= i < j->Object_0.len() && (#[trigger] j->Object_0[i]).0 == key
}

/// The member of the object `j` named `key`.
pub open spec fn member_of(j: JsonValue, key: Seq<char>) -> JsonValue {
    let i = choose|i: int| 0 <= i < j->Object_0.len() && (#[trigger] j->Object_0[i]).0 == key;
    j->Object_0[i].1
}

/// Whether `got` are the members `want`, one for one.
pub open spec fn members_are(got: Seq<(&String, &Value)>, want: Seq<(Seq<char>, JsonValue)>) -> bool {
    got.len() == want.len() && forall|i: int|
        0 <= i < got.len() ==> (#[trigger] got[i]).0@ == want[i].0 && json_model(*got[i].1)
            == want[i].1
}

/// Whether `got` are the items `want`, one for one.
pub open spec fn items_are(got: Seq<&Value>, want: Seq<JsonValue>) -> bool {
    got.len() == want.len() && forall|i: int|
        0 <= i < got.len() ==> json_model(*#[trigger] got[i]) == want[i]
}

/// Calls `serde_json::from_str` for a `Value`, which gives the document
/// that the text holds, or fails where the text is not one JSON document.
#[verifier::external_body]
pub(crate) fn json_from_str(text: &str) -> (r: Option<Value>)
    ensures
        match r {
            Some(v) => json_text(text@) == Some(json_model(v)),
            None => json_text(text@) is None,
        },
{
    serde_json::from_str(text).ok()
}

/// Calls `Value::as_object` and walks the map it gives: the members of an
/// object in the map's order, nothing for a value of another kind.
#[verifier::external_body]
pub(crate) fn json_members<'a>(value: &'a Value) -> (r: Option<Vec<(&'a String, &'a Value)>>)
    ensures
        match r {
            Some(v) => json_model(*value) is Object && members_are(
                v@,
                json_model(*value)->Object_0,
            ),
            None => !(json_model(*value) is Object),
        },
{
    value.as_object().map(|m| m.iter().collect())
}

/// Calls `Value::as_array`: the items of an array in their order, nothing
/// for a value of another kind.
#[verifier::external_body]
pub(crate) fn json_items<'a>(value: &'a Value) -> (r: Option<Vec<&'a Value>>)
    ensures
        match r {
            Some(v) => json_model(*value) is Array && items_are(v@, json_model(*value)->Array_0),
            None => !(json_model(*value) is Array),
        },
{
    value.as_array().map(|a| a.iter().collect())
}

/// Calls `Value::get` with a name: the member of that name where the value
/// is an object that has one, nothing otherwise.
#[verifier::external_body]
pub(crate) fn json_get<'a>(value: &'a Value, key: &str) -> (r: Option<&'a Value>)
    ensures
        match r {
            Some(v) => has_member(json_model(*value), key@) && json_model(*v) == member_of(
                json_model(*value),
                key@,
            ),
            None => !has_member(json_model(*value), key@),
        },
{
    value.get(key)
}

/// Calls `Value::as_i64`: the number where the value is an integer that
/// fits in 64 bits with sign, nothing otherwise.
#[verifier::external_body]
pub(crate) fn json_i64(value: &Value) -> (r: Option<i64>)
    ensures
        match r {
            Some(n) => json_model(*value) == JsonValue::Integer(n as int),
            None => !(json_model(*value) is Integer && i64::MIN <= json_model(
                *value,
            )->Integer_0 <= i64::MAX),
        },
{
    value.as_i64()
}

} // verus!
