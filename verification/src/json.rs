//! A plain model of parsed JSON documents.
//!
//! Values come from `serde_json` parses of document text. Every number,
//! string, array and object also carries `text`: its compact JSON
//! rendering, which is what `Value::to_string` gives for that value.

use vstd::prelude::*;
use serde_json::Value;

use crate::text::{parse_u64, parse_u64_spec, text_copy, text_eq, trim, trim_spec};

verus! {

/// One key and its value inside a JSON object.
pub struct JsonMember {
    pub key: String,
    pub value: JsonValue,
}

/// A JSON value.
pub enum JsonValue {
    Null,
    Bool(bool),
    /// A number: its rendering, and its value when it is a non-negative
    /// integer that fits in a `u64` (`Value::as_u64`).
    Number { text: String, as_u64: Option<u64> },
    Text { value: String, text: String },
    Array { items: Vec<JsonValue>, text: String },
    /// An object: its members in map order.
    Object { members: Vec<JsonMember>, text: String },
}

#[verifier::external_type_specification]
#[verifier::external_body]
pub struct ExJsonDocument(Value);

/// Names what `serde_json::from_str::<serde_json::Value>` gives for a text,
/// in the library's model: the value, or serde_json's error message.
pub uninterp spec fn json_document(text: Seq<char>) -> Result<JsonValue, String>;

/// Converts a `serde_json::Value` into the library's model, member by
/// member, each value with its compact JSON (`to_string`).
#[verifier::external_body]
fn json_model(value: &Value) -> JsonValue {
    let text = value.to_string();
    match value {
        Value::Null => JsonValue::Null,
        Value::Bool(b) => JsonValue::Bool(*b),
        Value::Number(n) => JsonValue::Number { text, as_u64: n.as_u64() },
        Value::String(s) => JsonValue::Text { value: s.clone(), text },
        Value::Array(items) => JsonValue::Array { items: items.iter().map(json_model).collect(), text },
        Value::Object(map) => {
            let members = map.iter().map(|(key, item)| JsonMember { key: key.clone(), value: json_model(item) });
            JsonValue::Object { members: members.collect(), text }
        },
    }
}

/// `serde_json::from_str::<serde_json::Value>` on the text, its error as
/// its message: the text's document.
#[verifier::external_body]
pub(crate) fn parse_json_text(text: &str) -> (r: Result<JsonValue, String>)
    ensures
        r == json_document(text@),
{
    serde_json::from_str::<Value>(text).map(|value| json_model(&value)).map_err(|error| error.to_string())
}

pub open spec fn true_text() -> Seq<char> {
    seq!['t', 'r', 'u', 'e']
}

pub open spec fn false_text() -> Seq<char> {
    seq!['f', 'a', 'l', 's', 'e']
}

/// What `value_to_text` gives: a string's own characters, nothing for null,
/// and the JSON rendering of anything else.
pub open spec fn value_text_spec(value: JsonValue) -> Seq<char> {
    match value {
        JsonValue::Text { value, .. } => value@,
        JsonValue::Null => Seq::empty(),
        JsonValue::Bool(b) => if b {
            true_text()
        } else {
            false_text()
        },
        JsonValue::Number { text, .. } => text@,
        JsonValue::Array { text, .. } => text@,
        JsonValue::Object { text, .. } => text@,
    }
}

/// The number of items of an array or object, 0 for null or a missing value,
/// and 1 for any other value.
pub open spec fn collection_len_spec(value: Option<JsonValue>) -> nat {
    match value {
        Some(JsonValue::Array { items, .. }) => items@.len(),
        Some(JsonValue::Object { members, .. }) => members@.len(),
        Some(JsonValue::Null) | None => 0,
        Some(_) => 1,
    }
}

/// Whether a value is present and not null.
pub open spec fn has_value_spec(value: Option<JsonValue>) -> bool {
    match value {
        None | Some(JsonValue::Null) => false,
        _ => true,
    }
}

/// `Value::get` with a string key: the member's value for an object.
pub open spec fn get_spec(value: JsonValue, key: Seq<char>) -> Option<JsonValue> {
    match value {
        JsonValue::Object { members, .. } => match first_member(members@, key) {
            Some(i) => Some(members@[i].value),
            None => None,
        },
        _ => None,
    }
}

/// The position of the first member with the given key.
pub open spec fn first_member(members: Seq<JsonMember>, key: Seq<char>) -> Option<int>
    decreases members.len(),
{
    if members.len() == 0 {
        None
    } else if members.last().key@ == key && first_member(members.drop_last(), key) is None {
        Some(members.len() - 1)
    } else {
        first_member(members.drop_last(), key)
    }
}

/// `Value::as_str`.
pub open spec fn as_str_spec(value: JsonValue) -> Option<Seq<char>> {
    match value {
        JsonValue::Text { value, .. } => Some(value@),
        _ => None,
    }
}

/// `Value::as_u64`.
pub open spec fn as_u64_spec(value: JsonValue) -> Option<u64> {
    match value {
        JsonValue::Number { as_u64, .. } => as_u64,
        _ => None,
    }
}

pub fn value_to_text(value: &JsonValue) -> (r: String)
    ensures
        r@ == value_text_spec(*value),
{
    match value {
        JsonValue::Text { value, .. } => text_copy(value.as_str()),
        JsonValue::Null => String::new(),
        JsonValue::Bool(b) => {
            let mut s = String::new();
            if *b {
                s.push('t');
                s.push('r');
                s.push('u');
                s.push('e');
            } else {
                s.push('f');
                s.push('a');
                s.push('l');
                s.push('s');
                s.push('e');
            }
            assert(s@ =~= value_text_spec(*value));
            s
        },
        JsonValue::Number { text, .. } => text_copy(text.as_str()),
        JsonValue::Array { text, .. } => text_copy(text.as_str()),
        JsonValue::Object { text, .. } => text_copy(text.as_str()),
    }
}

pub fn collection_len(value: Option<&JsonValue>) -> (r: usize)
    ensures
        r == collection_len_spec(opt_deref(value)),
{
    match value {
        Some(JsonValue::Array { items, .. }) => items.len(),
        Some(JsonValue::Object { members, .. }) => members.len(),
        Some(JsonValue::Null) | None => 0,
        Some(_) => 1,
    }
}

pub fn has_value(value: Option<&JsonValue>) -> (r: bool)
    ensures
        r == has_value_spec(opt_deref(value)),
{
    match value {
        None | Some(JsonValue::Null) => false,
        _ => true,
    }
}

/// Copies an optional reference into an optional value, for specifications.
pub open spec fn opt_deref(value: Option<&JsonValue>) -> Option<JsonValue> {
    match value {
        Some(v) => Some(*v),
        None => None,
    }
}

/// `Value::get` with a string key.
pub fn get<'a>(value: &'a JsonValue, key: &str) -> (r: Option<&'a JsonValue>)
    ensures
        opt_deref(r) == get_spec(*value, key@),
{
    match value {
        JsonValue::Object { members, .. } => {
            let mut i: usize = 0;
            while i < members.len()
                invariant
                    i <= members.len(),
                    *value is Object,
                    value->Object_members == *members,
                    first_member(members@.take(i as int), key@) is None,
                decreases members.len() - i,
            {
                proof {
                    assert(members@.take(i + 1).drop_last() =~= members@.take(i as int));
                }
                if text_eq(members[i].key.as_str(), key) {
                    proof {
                        lemma_first_member_prefix(members@, key@, i as int);
                    }
                    let r = Some(&members[i].value);
                    assert(opt_deref(r) == Some(members@[i as int].value));
                    return r;
                }
                i = i + 1;
            }
            assert(members@.take(members.len() as int) =~= members@);
            None
        },
        _ => None,
    }
}

/// Once a member with the key is found at `i` after none before, it is the first.
proof fn lemma_first_member_prefix(members: Seq<JsonMember>, key: Seq<char>, i: int)
    requires
        0 <= i < members.len(),
        members[i].key@ == key,
        first_member(members.take(i), key) is None,
    ensures
        first_member(members, key) == Some(i),
    decreases members.len() - i,
{
    if i == members.len() - 1 {
        assert(members.drop_last() =~= members.take(i));
    } else {
        assert(members.drop_last().take(i) =~= members.take(i));
        lemma_first_member_prefix(members.drop_last(), key, i);
    }
}

/// `Value::as_str`.
pub fn as_str(value: &JsonValue) -> (r: Option<&String>)
    ensures
        match r {
            Some(s) => as_str_spec(*value) == Some(s@),
            None => as_str_spec(*value) is None,
        },
{
    match value {
        JsonValue::Text { value, .. } => Some(value),
        _ => None,
    }
}

/// `Value::as_u64`.
pub fn as_u64(value: &JsonValue) -> (r: Option<u64>)
    ensures
        r == as_u64_spec(*value),
{
    match value {
        JsonValue::Number { as_u64, .. } => *as_u64,
        _ => None,
    }
}

/// A count from JSON: an integer, or a string holding one.
pub open spec fn value_to_u64_spec(value: JsonValue) -> Option<u64> {
    match as_u64_spec(value) {
        Some(n) => Some(n),
        None => match as_str_spec(value) {
            Some(text) => parse_u64_spec(trim_spec(text)),
            None => None,
        },
    }
}

/// A count from JSON: an integer, or a string holding one.
pub fn value_to_u64(value: &JsonValue) -> (r: Option<u64>)
    ensures
        r == value_to_u64_spec(*value),
{
    match as_u64(value) {
        Some(n) => Some(n),
        None => match as_str(value) {
            Some(text) => {
                let trimmed = trim(text.as_str());
                parse_u64(trimmed.as_str())
            },
            None => None,
        },
    }
}

} // verus!
