//! JSON documents as plain values, read with `serde_json`.
use vstd::prelude::*;

verus! {

/// `serde_json::Value`, only carried from the parser to the conversion.
#[verifier::external_type_specification]
#[verifier::external_body]
pub struct ExSerdeJsonValue(serde_json::Value);

/// What a JSON number answers to `as_u64` and `as_i64`.
#[derive(Debug, Clone, Copy, PartialEq, Eq, Structural)]
pub struct JsonNumber {
    pub as_u64: Option<u64>,
    pub as_i64: Option<i64>,
}

/// A JSON value. An object keeps its entries in the order in which the
/// parser lists them; its keys are distinct.
#[derive(Debug)]
pub enum JsonValue {
    Null,
    Bool(bool),
    Number(JsonNumber),
    String(String),
    Array(Vec<JsonValue>),
    Object(Vec<(String, JsonValue)>),
}

/// The document that `serde_json::from_slice::<serde_json::Value>` reads
/// from `bytes`, or its error message.
pub uninterp spec fn json_document(bytes: Seq<u8>) -> Result<JsonValue, Seq<char>>;

/// `serde_json::Value` to `JsonValue`, variant by variant.
#[verifier::external_body]
fn json_from_serde(v: serde_json::Value) -> JsonValue {
    match v {
        serde_json::Value::Null => JsonValue::Null,
        serde_json::Value::Bool(b) => JsonValue::Bool(b),
        serde_json::Value::Number(n) => JsonValue::Number(
            JsonNumber { as_u64: n.as_u64(), as_i64: n.as_i64() },
        ),
        serde_json::Value::String(s) => JsonValue::String(s),
        serde_json::Value::Array(a) => JsonValue::Array(a.into_iter().map(json_from_serde).collect()),
        serde_json::Value::Object(m) => JsonValue::Object(
            m.into_iter().map(|(k, v)| (k, json_from_serde(v))).collect(),
        ),
    }
}

/// Reads a JSON document with `serde_json::from_slice`; an error is
/// reported by its message.
#[verifier::external_body]
pub(crate) fn parse_json(data: &[u8]) -> (r: Result<JsonValue, String>)
    ensures
        match r {
            Ok(v) => json_document(data@) == Ok::<JsonValue, Seq<char>>(v),
            Err(m) => json_document(data@) == Err::<JsonValue, Seq<char>>(m@),
        },
{
    match serde_json::from_slice::<serde_json::Value>(data) {
        Ok(v) => Ok(json_from_serde(v)),
        Err(e) => Err(e.to_string()),
    }
}

/// The value of the first entry of `entries[i..]` with key `key`.
pub open spec fn entry_value(entries: Seq<(String, JsonValue)>, key: Seq<char>, i: int) -> Option<
    JsonValue,
>
    decreases entries.len() - i,
{
    if i < 0 || i >= entries.len() {
        None
    } else if entries[i].0@ == key {
        Some(entries[i].1)
    } else {
        entry_value(entries, key, i + 1)
    }
}

/// `value[key]`: the entry's value for an object holding the key, else null.
pub open spec fn index(v: JsonValue, key: Seq<char>) -> JsonValue {
    match v {
        JsonValue::Object(m) => match entry_value(m@, key, 0) {
            Some(x) => x,
            None => JsonValue::Null,
        },
        _ => JsonValue::Null,
    }
}

/// `Value::as_str`.
pub open spec fn as_str(v: JsonValue) -> Option<Seq<char>> {
    match v {
        JsonValue::String(s) => Some(s@),
        _ => None,
    }
}

/// `Value::as_array`.
pub open spec fn as_array(v: JsonValue) -> Option<Seq<JsonValue>> {
    match v {
        JsonValue::Array(a) => Some(a@),
        _ => None,
    }
}

impl JsonValue {
    /// `self[key]`, with `None` standing for null.
    pub fn get(&self, key: &String) -> (r: Option<&JsonValue>)
        ensures
            match r {
                Some(x) => index(*self, key@) == *x && (*self matches JsonValue::Object(m)
                    && entry_value(m@, key@, 0) == Some(*x)),
                None => index(*self, key@) == JsonValue::Null && !(*self matches JsonValue::Object(
                    m,
                ) && entry_value(m@, key@, 0) is Some),
            },
    {
        match self {
            JsonValue::Object(m) => {
                let mut i: usize = 0;
                while i < m.len()
                    invariant
                        i <= m@.len(),
                        *self == JsonValue::Object(*m),
                        entry_value(m@, key@, 0) == entry_value(m@, key@, i as int),
                    decreases m.len() - i,
                {
                    if m[i].0 == *key {
                        return Some(&m[i].1);
                    }
                    i = i + 1;
                }
                None
            },
            _ => None,
        }
    }

    /// `Value::as_str`.
    pub fn as_str(&self) -> (r: Option<&String>)
        ensures
            match r {
                Some(s) => as_str(*self) == Some(s@),
                None => as_str(*self) is None,
            },
    {
        match self {
            JsonValue::String(s) => Some(s),
            _ => None,
        }
    }

    /// `Value::as_array`.
    pub fn as_array(&self) -> (r: Option<&Vec<JsonValue>>)
        ensures
            match r {
                Some(a) => as_array(*self) == Some(a@),
                None => as_array(*self) is None,
            },
    {
        match self {
            JsonValue::Array(a) => Some(a),
            _ => None,
        }
    }
}

} // verus!
