//! Reading JSON values of `serde_json`.

use vstd::prelude::*;

verus! {

/// What a JSON value holds.
pub enum Json {
    Null,
    Bool(bool),
    /// A number that is held as an integer of at most 64 bits without a sign: 1, not 1.0.
    Unsigned(u64),
    /// Any other number.
    Number,
    Text(Seq<char>),
    Array(Seq<Json>),
    Object(Map<Seq<char>, Json>),
}

/// A value of `serde_json`.
#[verifier::external_type_specification]
#[verifier::external_body]
pub struct ExJsonValue(serde_json::Value);

/// What a value of `serde_json` holds.
pub uninterp spec fn json_contents(value: serde_json::Value) -> Json;

/// `serde_json::Value::get` with a text as the index: the member of that name of an
/// object, or nothing if the value is no object or has no such member.
#[verifier::external_body]
pub(crate) fn member<'a>(value: &'a serde_json::Value, name: &str) -> (found: Option<
    &'a serde_json::Value,
>)
    ensures
        match (json_contents(*value), found) {
            (Json::Object(members), Some(inner)) => members.contains_key(name@) && json_contents(
                *inner,
            ) == members[name@],
            (Json::Object(members), None) => !members.contains_key(name@),
            (_, found) => found is None,
        },
{
    value.get(name)
}

/// `serde_json::Value::as_str`: the text of a string, nothing for any other value.
#[verifier::external_body]
pub(crate) fn text<'a>(value: &'a serde_json::Value) -> (found: Option<&'a str>)
    ensures
        match (json_contents(*value), found) {
            (Json::Text(held), Some(read)) => read@ == held,
            (Json::Text(_), None) => false,
            (_, found) => found is None,
        },
{
    value.as_str()
}

/// `serde_json::Value::as_u64`: the number where it is held as an integer of at most 64
/// bits without a sign, nothing for any other value.
#[verifier::external_body]
pub(crate) fn unsigned(value: &serde_json::Value) -> (found: Option<u64>)
    ensures
        found == match json_contents(*value) {
            Json::Unsigned(held) => Some(held),
            _ => None,
        },
{
    value.as_u64()
}

/// The member of a value with the given name.
pub open spec fn member_of(value: Json, name: Seq<char>) -> Option<Json> {
    match value {
        Json::Object(members) => if members.contains_key(name) {
            Some(members[name])
        } else {
            None
        },
        _ => None,
    }
}

/// The text of a member of a value.
pub open spec fn text_member(value: Json, name: Seq<char>) -> Option<Seq<char>> {
    match member_of(value, name) {
        Some(Json::Text(held)) => Some(held),
        _ => None,
    }
}

/// The natural number of a member of a value.
pub open spec fn unsigned_member(value: Json, name: Seq<char>) -> Option<u64> {
    match member_of(value, name) {
        Some(Json::Unsigned(held)) => Some(held),
        _ => None,
    }
}

/// A member is read exactly from an object that has it; its text or its number is read
/// exactly if it is one.
pub proof fn law_members(value: Json, name: Seq<char>, held: Seq<char>, number: u64)
    ensures
        member_of(value, name) is Some <==> value is Object && value->Object_0.contains_key(name),
        member_of(value, name) is Some ==> member_of(value, name)->0 == value->Object_0[name],
        text_member(value, name) == Some(held) <==> member_of(value, name) == Some(
            Json::Text(held),
        ),
        unsigned_member(value, name) == Some(number) <==> member_of(value, name) == Some(
            Json::Unsigned(number),
        ),
{
}

} // verus!
