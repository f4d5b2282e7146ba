//! JSON values, as the `serde_json` crate parses, holds and renders them.

use crate::num::Num;
use vstd::prelude::*;

verus! {

/// A value of `serde_json`, opaque but for what `content` names.
#[verifier::external_type_specification]
#[verifier::external_body]
pub struct ExValue(serde_json::Value);

/// A JSON number: a whole number, or a binary64 number.
pub enum JsonNumber {
    Whole(int),
    Real(Num),
}

/// What a JSON value holds.
pub enum Json {
    Null,
    Flag(bool),
    Number(JsonNumber),
    Text(Seq<char>),
    List(Seq<Json>),
    Members(Map<Seq<char>, Json>),
}

/// What a value of `serde_json` holds.
pub uninterp spec fn content(value: serde_json::Value) -> Json;

/// What `serde_json::from_str` makes of a text: what the value holds, or the text of its error.
pub uninterp spec fn parsed(text: Seq<char>) -> Result<Json, Seq<char>>;

/// The compact text that `serde_json` writes for a value.
pub uninterp spec fn rendered(value: Json) -> Seq<char>;

impl Json {
    /// The member of that name, of an object that has one.
    pub open spec fn member(self, key: Seq<char>) -> Option<Json> {
        match self {
            Json::Members(members) => if members.contains_key(key) {
                Some(members[key])
            } else {
                None
            },
            _ => None,
        }
    }

    /// The text of a string.
    pub open spec fn text(self) -> Option<Seq<char>> {
        match self {
            Json::Text(text) => Some(text),
            _ => None,
        }
    }

    /// The value of a boolean.
    pub open spec fn flag(self) -> Option<bool> {
        match self {
            Json::Flag(flag) => Some(flag),
            _ => None,
        }
    }

    /// A whole number that fits 64 signed bits.
    pub open spec fn integer(self) -> Option<i64> {
        match self {
            Json::Number(JsonNumber::Whole(n)) => if i64::MIN <= n <= i64::MAX {
                Some(n as i64)
            } else {
                None
            },
            _ => None,
        }
    }

    /// A number, whole numbers rounded to the nearest binary64 number.
    pub open spec fn number(self) -> Option<Num> {
        match self {
            Json::Number(JsonNumber::Whole(n)) => if n < 0 {
                Some(Num::spec_from_int(n as i64))
            } else {
                Some(Num::spec_from_count(n as u64))
            },
            Json::Number(JsonNumber::Real(x)) => Some(x),
            _ => None,
        }
    }

    /// The items of an array.
    pub open spec fn list(self) -> Option<Seq<Json>> {
        match self {
            Json::List(items) => Some(items),
            _ => None,
        }
    }
}

/// What an optional reference to a value holds.
pub open spec fn optional_content(value: Option<&serde_json::Value>) -> Option<Json> {
    match value {
        Some(v) => Some(content(*v)),
        None => None,
    }
}

/// A text that is no JSON, and what is wrong with it.
#[derive(Debug)]
pub struct Unreadable {
    pub message: String,
}

/// `serde_json::from_str::<Value>`, and `to_string` of its error: the value that the text spells,
/// or what is wrong with it. Both are named by the text alone.
#[verifier::external_body]
fn from_text(text: &str) -> (r: Result<serde_json::Value, String>)
    ensures
        match r {
            Ok(value) => parsed(text@) == Ok::<Json, Seq<char>>(content(value)),
            Err(message) => parsed(text@) == Err::<Json, Seq<char>>(message@),
        },
{
    serde_json::from_str(text).map_err(|error: serde_json::Error| error.to_string())
}

/// The value that a text spells.
pub fn parse(text: &str) -> (r: Result<serde_json::Value, Unreadable>)
    ensures
        match r {
            Ok(value) => parsed(text@) == Ok::<Json, Seq<char>>(content(value)),
            Err(error) => parsed(text@) == Err::<Json, Seq<char>>(error.message@),
        },
{
    match from_text(text) {
        Ok(value) => Ok(value),
        Err(message) => Err(Unreadable { message }),
    }
}

/// `Value::get` with a text: the member of that name, of an object that has one.
#[verifier::external_body]
pub(crate) fn member<'a>(value: &'a serde_json::Value, key: &str) -> (r: Option<
    &'a serde_json::Value,
>)
    ensures
        optional_content(r) == content(*value).member(key@),
{
    value.get(key)
}

/// `Value::as_str`: the text of a string.
#[verifier::external_body]
pub(crate) fn text_of(value: &serde_json::Value) -> (r: Option<&str>)
    ensures
        match r {
            Some(text) => content(*value).text() == Some(text@),
            None => content(*value).text() is None,
        },
{
    value.as_str()
}

/// `Value::as_bool`: the value of a boolean.
#[verifier::external_body]
pub(crate) fn flag_of(value: &serde_json::Value) -> (r: Option<bool>)
    ensures
        r == content(*value).flag(),
{
    value.as_bool()
}

/// `Value::as_i64`: a whole number that fits 64 signed bits.
#[verifier::external_body]
pub(crate) fn integer_of(value: &serde_json::Value) -> (r: Option<i64>)
    ensures
        r == content(*value).integer(),
{
    value.as_i64()
}

/// `Value::as_f64`: a number as the nearest binary64 number, here by its bits.
#[verifier::external_body]
pub(crate) fn number_of(value: &serde_json::Value) -> (r: Option<Num>)
    ensures
        r == content(*value).number(),
{
    value.as_f64().map(|x| Num { bits: x.to_bits() })
}

/// `Value::as_array`: the items of an array, in order.
#[verifier::external_body]
pub(crate) fn list_of(value: &serde_json::Value) -> (r: Option<&Vec<serde_json::Value>>)
    ensures
        match r {
            Some(items) => content(*value).list() == Some(
                Seq::new(items@.len(), |i: int| content(items@[i])),
            ),
            None => content(*value).list() is None,
        },
{
    value.as_array()
}

/// `Value`'s `to_string`: its compact text, named by what the value holds.
#[verifier::external_body]
pub(crate) fn render(value: &serde_json::Value) -> (r: String)
    ensures
        r@ == rendered(content(*value)),
{
    value.to_string()
}

/// `Value::is_null`: whether a value is null.
#[verifier::external_body]
pub(crate) fn is_null(value: &serde_json::Value) -> (r: bool)
    ensures
        r == (content(*value) is Null),
{
    value.is_null()
}

/// `Value::is_number`: whether a value is a number.
#[verifier::external_body]
pub(crate) fn is_number(value: &serde_json::Value) -> (r: bool)
    ensures
        r == (content(*value) is Number),
{
    value.is_number()
}

/// `serde_json::Value::Null`: the value that holds nothing.
#[verifier::external_body]
pub(crate) fn null() -> (r: serde_json::Value)
    ensures
        content(r) == Json::Null,
{
    serde_json::Value::Null
}

/// The members of an object, of names and values.
pub open spec fn members_of(pairs: Seq<(Seq<char>, Json)>) -> Map<Seq<char>, Json>
    decreases pairs.len(),
{
    if pairs.len() == 0 {
        Map::empty()
    } else {
        members_of(pairs.drop_last()).insert(pairs.last().0, pairs.last().1)
    }
}

/// Names with what the values beside them hold.
pub open spec fn member_contents(members: Seq<(&'static str, serde_json::Value)>) -> Seq<
    (Seq<char>, Json),
> {
    Seq::new(members.len(), |i: int| (members[i].0@, content(members[i].1)))
}

/// `Value::from` of a text: the string.
#[verifier::external_body]
pub(crate) fn string(text: &str) -> (r: serde_json::Value)
    ensures
        content(r) == Json::Text(text@),
{
    serde_json::Value::from(text)
}

/// `Value::from` of a whole number.
#[verifier::external_body]
pub(crate) fn whole(n: i64) -> (r: serde_json::Value)
    ensures
        content(r) == Json::Number(JsonNumber::Whole(n as int)),
{
    serde_json::Value::from(n)
}

/// `Value::from` of values: the array with these items, in order.
#[verifier::external_body]
pub(crate) fn array(items: Vec<serde_json::Value>) -> (r: serde_json::Value)
    ensures
        content(r) == Json::List(Seq::new(items@.len(), |i: int| content(items@[i]))),
{
    serde_json::Value::from(items)
}

/// `Value::from_iter` of pairs of names and values: the object with these members. Claimed where
/// no name occurs twice.
#[verifier::external_body]
pub(crate) fn object(members: Vec<(&'static str, serde_json::Value)>) -> (r: serde_json::Value)
    requires
        forall|i: int, j: int|
            0 <= i < j < members@.len() ==> (#[trigger] members@[i]).0@ != (
            #[trigger] members@[j]).0@,
    ensures
        content(r) == Json::Members(members_of(member_contents(members@))),
{
    members.into_iter().collect()
}

} // verus!
