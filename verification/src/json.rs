//! A JSON document model holding what the provider logic reads, and the
//! parse into it.

use vstd::prelude::*;

verus! {

/// A JSON value. Numbers are held without their value: nothing here reads
/// one. Object members keep the order and the keys of the parsed map, in
/// which every key occurs once.
pub enum JsonValue {
    Null,
    Bool(bool),
    Number,
    Text(String),
    Array(Vec<JsonValue>),
    Object(Vec<(String, JsonValue)>),
}

/// `serde_json::Value`, the parser's document type.
#[verifier::external_type_specification]
#[verifier::external_body]
pub struct ExSerdeJsonValue(serde_json::Value);

/// `serde_json::Error`, the parser's error type.
#[verifier::external_type_specification]
#[verifier::external_body]
pub struct ExSerdeJsonError(serde_json::Error);

/// The document that `serde_json::from_slice` reads from `bytes`, if the
/// bytes are a JSON document.
pub uninterp spec fn parsed_json(bytes: Seq<u8>) -> Option<JsonValue>;

/// Converts a parsed `serde_json::Value` into the model one for one:
/// variant by variant, array items and object members in their order.
#[verifier::external_body]
fn json_from_serde(value: serde_json::Value) -> JsonValue {
    match value {
        serde_json::Value::Null => JsonValue::Null,
        serde_json::Value::Bool(b) => JsonValue::Bool(b),
        serde_json::Value::Number(_) => JsonValue::Number,
        serde_json::Value::String(s) => JsonValue::Text(s),
        serde_json::Value::Array(items) => JsonValue::Array(items.into_iter().map(json_from_serde).collect()),
        serde_json::Value::Object(map) => JsonValue::Object(map.into_iter().map(|(k, v)| (k, json_from_serde(v))).collect()),
    }
}

/// `serde_json::from_slice::<serde_json::Value>`: the document in `bytes`,
/// or the parser's error. The contract claims that the result depends on
/// the bytes alone; it does not say which document a text denotes, nor
/// which error is reported.
#[verifier::external_body]
pub(crate) fn parse_json(bytes: &[u8]) -> (result: Result<JsonValue, serde_json::Error>)
    ensures
        match result {
            Ok(value) => parsed_json(bytes@) == Some(value),
            Err(_) => parsed_json(bytes@) is None,
        },
{
    serde_json::from_slice::<serde_json::Value>(bytes).map(json_from_serde)
}

/// The value of the first member named `key` among `members`.
pub open spec fn member_in(members: Seq<(String, JsonValue)>, key: Seq<char>) -> Option<JsonValue>
    decreases members.len(),
{
    if members.len() == 0 {
        None
    } else if members[0].0@ == key {
        Some(members[0].1)
    } else {
        member_in(members.drop_first(), key)
    }
}

/// `value[key]` for an object; nothing for any other value.
pub open spec fn member(value: JsonValue, key: Seq<char>) -> Option<JsonValue> {
    match value {
        JsonValue::Object(members) => member_in(members@, key),
        _ => None,
    }
}

/// `member` through an optional value.
pub open spec fn member_of(value: Option<JsonValue>, key: Seq<char>) -> Option<JsonValue> {
    match value {
        Some(v) => member(v, key),
        None => None,
    }
}

/// The text of a string value.
pub open spec fn text_of(value: Option<JsonValue>) -> Option<Seq<char>> {
    match value {
        Some(JsonValue::Text(s)) => Some(s@),
        _ => None,
    }
}

/// The items of an array value.
pub open spec fn items_of(value: Option<JsonValue>) -> Option<Seq<JsonValue>> {
    match value {
        Some(JsonValue::Array(items)) => Some(items@),
        _ => None,
    }
}

/// The truth value of a boolean value.
pub open spec fn bool_of(value: Option<JsonValue>) -> Option<bool> {
    match value {
        Some(JsonValue::Bool(b)) => Some(b),
        _ => None,
    }
}

impl JsonValue {
    /// The member named `key` of an object (`Value::get` with a string
    /// index).
    pub fn get(&self, key: &str) -> (found: Option<&JsonValue>)
        ensures
            match found {
                Some(v) => member(*self, key@) == Some(*v),
                None => member(*self, key@) is None,
            },
    {
        match self {
            JsonValue::Object(members) => {
                let wanted: String = key.to_owned();
                let mut i: usize = 0;
                assert(members@.skip(0) =~= members@);
                assert(member(*self, key@) == member_in(members@, key@));
                while i < members.len()
                    invariant
                        i <= members.len(),
                        member(*self, key@) == member_in(members@, key@),
                        wanted@ == key@,
                        member_in(members@, key@) == member_in(members@.skip(i as int), key@),
                    decreases members.len() - i,
                {
                    assert(members@.skip(i as int)[0] == members@[i as int]);
                    let entry: &(String, JsonValue) = &members[i];
                    if entry.0 == wanted {
                        assert(member_in(members@.skip(i as int), key@) == Some(entry.1));
                        return Some(&entry.1);
                    }
                    assert(members@.skip(i as int).drop_first() =~= members@.skip(i + 1));
                    i = i + 1;
                }
                None
            },
            _ => None,
        }
    }

    /// The text of a string value (`Value::as_str`).
    pub fn as_str(&self) -> (text: Option<&str>)
        ensures
            match text {
                Some(t) => text_of(Some(*self)) == Some(t@),
                None => text_of(Some(*self)) is None,
            },
    {
        match self {
            JsonValue::Text(s) => Some(s.as_str()),
            _ => None,
        }
    }

    /// The items of an array value (`Value::as_array`).
    pub fn as_array(&self) -> (items: Option<&Vec<JsonValue>>)
        ensures
            match items {
                Some(v) => items_of(Some(*self)) == Some(v@),
                None => items_of(Some(*self)) is None,
            },
    {
        match self {
            JsonValue::Array(items) => Some(items),
            _ => None,
        }
    }

    /// The truth value of a boolean value (`Value::as_bool`).
    pub fn as_bool(&self) -> (b: Option<bool>)
        ensures
            b == bool_of(Some(*self)),
    {
        match self {
            JsonValue::Bool(b) => Some(*b),
            _ => None,
        }
    }
}

} // verus!
