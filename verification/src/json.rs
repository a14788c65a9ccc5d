//! A JSON document tree, as the validators and redactors read it.
//!
//! Numbers keep what distinguishes them: a non-negative integer, a negative integer, or any
//! other number by its text. The entries of an object have distinct keys.
use vstd::prelude::*;
use serde_json::Value;
use crate::text::{hex_char, str_eq};

verus! {

#[derive(Debug, Clone, PartialEq, Eq)]
pub enum JsonNumber {
    PosInt(u64),
    NegInt(i64),
    Float(String),
}

#[derive(Debug, PartialEq, Eq)]
pub enum JsonValue {
    Null,
    Bool(bool),
    Number(JsonNumber),
    Str(String),
    Array(Vec<JsonValue>),
    Object(Vec<(String, JsonValue)>),
}

/// The value of the first entry named `key`.
pub open spec fn entry_value(entries: Seq<(String, JsonValue)>, key: Seq<char>) -> Option<JsonValue> {
    if exists|i: int| 0 <= i < entries.len() && (#[trigger] entries[i]).0@ == key {
        Some(entries[first_key_index(entries, key)].1)
    } else {
        None
    }
}

/// The position of the first entry named `key`, if there is one.
pub open spec fn first_key_index(entries: Seq<(String, JsonValue)>, key: Seq<char>) -> int {
    choose|i: int|
        0 <= i < entries.len() && (#[trigger] entries[i]).0@ == key && forall|j: int|
            0 <= j < i ==> (#[trigger] entries[j]).0@ != key
}

/// The member `key` of an object, as `serde_json::Value::get` gives it; nothing for any other
/// value.
pub open spec fn member(v: JsonValue, key: Seq<char>) -> Option<JsonValue> {
    match v {
        JsonValue::Object(entries) => entry_value(entries@, key),
        _ => None,
    }
}

/// The text of a string value.
pub open spec fn text_of(v: JsonValue) -> Option<Seq<char>> {
    match v {
        JsonValue::Str(s) => Some(s@),
        _ => None,
    }
}

pub proof fn lemma_first_key_index(entries: Seq<(String, JsonValue)>, key: Seq<char>, i: int)
    requires
        0 <= i < entries.len(),
        entries[i].0@ == key,
        forall|j: int| 0 <= j < i ==> (#[trigger] entries[j]).0@ != key,
    ensures
        first_key_index(entries, key) == i,
        entry_value(entries, key) == Some(entries[i].1),
{
    let k = first_key_index(entries, key);
    assert(0 <= k < entries.len() && entries[k].0@ == key && forall|j: int|
        0 <= j < k ==> (#[trigger] entries[j]).0@ != key);
    if k < i {
        assert(entries[k].0@ != key);
    }
    if i < k {
        assert(entries[i].0@ != key);
    }
}

impl JsonValue {
    /// The member `key` of an object.
    pub fn get(&self, key: &str) -> (r: Option<&JsonValue>)
        ensures
            match member(*self, key@) {
                Some(v) => r matches Some(x) && *x == v,
                None => r is None,
            },
    {
        match self {
            JsonValue::Object(entries) => {
                let mut i: usize = 0;
                while i < entries.len()
                    invariant
                        member(*self, key@) == entry_value(entries@, key@),
                        i <= entries.len(),
                        forall|j: int| 0 <= j < i ==> (#[trigger] entries@[j]).0@ != key@,
                    decreases entries.len() - i,
                {
                    if str_eq(entries[i].0.as_str(), key) {
                        proof {
                            lemma_first_key_index(entries@, key@, i as int);
                        }
                        let found = &entries[i].1;
                        assert(*found == entries@[i as int].1);

                        return Some(found);
                    }
                    i = i + 1;
                }
                None
            },
            _ => None,
        }
    }

    /// The text of a string value.
    pub fn as_str(&self) -> (r: Option<&str>)
        ensures
            match text_of(*self) {
                Some(t) => r matches Some(s) && s@ == t,
                None => r is None,
            },
    {
        match self {
            JsonValue::Str(s) => Some(s.as_str()),
            _ => None,
        }
    }

    /// The elements of an array value.
    pub fn as_array(&self) -> (r: Option<&Vec<JsonValue>>)
        ensures
            match *self {
                JsonValue::Array(items) => r == Some(&items),
                _ => r is None,
            },
    {
        match self {
            JsonValue::Array(items) => Some(items),
            _ => None,
        }
    }
}

/// How a JSON string writes the character `c`: `"` and `\` behind a backslash, the control
/// characters below U+0020 as `\b`, `\t`, `\n`, `\f`, `\r` or `\u00XX` (lower-case hex),
/// every other character as itself.
pub open spec fn escaped_char(c: char) -> Seq<char> {
    let v = c as u32;
    if c == '"' {
        seq!['\\', '"']
    } else if c == '\\' {
        seq!['\\', '\\']
    } else if v == 8 {
        seq!['\\', 'b']
    } else if v == 9 {
        seq!['\\', 't']
    } else if v == 10 {
        seq!['\\', 'n']
    } else if v == 12 {
        seq!['\\', 'f']
    } else if v == 13 {
        seq!['\\', 'r']
    } else if v < 0x20 {
        seq!['\\', 'u', '0', '0', hex_char((v / 16) as nat), hex_char((v % 16) as nat)]
    } else {
        seq![c]
    }
}

/// The characters of `s`, each escaped.
pub open spec fn escaped(s: Seq<char>) -> Seq<char>
    decreases s.len(),
{
    if s.len() == 0 {
        Seq::empty()
    } else {
        escaped(s.drop_last()) + escaped_char(s.last())
    }
}

/// `s` as a JSON string literal.
pub open spec fn json_quoted(s: Seq<char>) -> Seq<char> {
    seq!['"'] + escaped(s) + seq!['"']
}

/// `serde_json::to_string` on a `str`: the string in double quotes, with `"`, `\` and the
/// control characters below U+0020 escaped as `escaped_char` states (serde_json's `ESCAPE`
/// table and `write_char_escape`). Writing a `str` into a `Vec` cannot fail.
#[verifier::external_body]
pub(crate) fn json_quote(s: &str) -> (r: String)
    ensures
        r@ == json_quoted(s@),
{
    serde_json::to_string(s).unwrap_or_default()
}


/// The tree of a JSON document, as `serde_json::from_slice` reads it into a
/// `serde_json::Value`; nothing when the bytes are not one JSON document.
pub uninterp spec fn json_document(bytes: Seq<u8>) -> Option<JsonValue>;

/// `serde_json::from_slice::<serde_json::Value>`, its value taken over node for node into
/// the library's tree.
#[verifier::external_body]
pub(crate) fn parse_json(bytes: &[u8]) -> (r: Option<JsonValue>)
    ensures
        r == json_document(bytes@),
{
    serde_json::from_slice::<serde_json::Value>(bytes).ok().map(|v| tree_of(&v))
}

/// Takes a `serde_json::Value` over into the library's tree, variant for variant: a number
/// by the variant serde_json stores it in (`u64`, `i64`, or otherwise its text), an object's
/// members in the order serde_json keeps them.
#[verifier::external_body]
fn tree_of(value: &Value) -> JsonValue {
    match value {
        Value::Null => JsonValue::Null,
        Value::Bool(b) => JsonValue::Bool(*b),
        Value::Number(n) => JsonValue::Number(match (n.as_u64(), n.as_i64()) {
            (Some(u), _) => JsonNumber::PosInt(u),
            (None, Some(i)) => JsonNumber::NegInt(i),
            (None, None) => JsonNumber::Float(n.to_string()),
        }),
        Value::String(t) => JsonValue::Str(t.clone()),
        Value::Array(items) => JsonValue::Array(items.iter().map(tree_of).collect()),
        Value::Object(map) => JsonValue::Object(map.iter().map(|(k, v)| (k.clone(), tree_of(v))).collect()),
    }
}

/// Takes the library's tree over into a `serde_json::Value`, variant for variant: a number
/// given by its text becomes the number serde_json reads from that text (`null` when it reads
/// none), and an object's members go into a `serde_json::Map`, where a later member replaces
/// an earlier one of the same name.
#[verifier::external_body]
pub(crate) fn value_of(tree: &JsonValue) -> Value {
    match tree {
        JsonValue::Null => Value::Null,
        JsonValue::Bool(b) => Value::Bool(*b),
        JsonValue::Number(JsonNumber::PosInt(u)) => Value::from(*u),
        JsonValue::Number(JsonNumber::NegInt(i)) => Value::from(*i),
        JsonValue::Number(JsonNumber::Float(t)) => t.parse::<serde_json::Number>().map(Value::Number).unwrap_or(Value::Null),
        JsonValue::Str(t) => Value::String(t.clone()),
        JsonValue::Array(items) => Value::Array(items.iter().map(value_of).collect()),
        JsonValue::Object(entries) => Value::Object(entries.iter().map(|(k, v)| (k.clone(), value_of(v))).collect()),
    }
}

} // verus!
