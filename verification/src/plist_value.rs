//! Property lists as plain values, read with the `plist` crate.
use vstd::prelude::*;

verus! {

/// `plist::Value`, only carried from the parser to the conversion.
#[verifier::external_type_specification]
#[verifier::external_body]
pub struct ExPlistValue(plist::Value);

/// A property-list value. A dictionary keeps its entries in the order in
/// which the parser lists them; its keys are distinct. Values that nothing
/// here reads keep only their kind.
#[derive(Debug)]
pub enum PlistValue {
    Array(Vec<PlistValue>),
    Dictionary(Vec<(String, PlistValue)>),
    Boolean(bool),
    Data,
    Date,
    Real,
    /// An integer, with its value when it fits in a `u64`.
    Integer(Option<u64>),
    String(String),
    Uid,
    Other,
}

/// The value that `plist::Value::from_reader` reads from `bytes`, or its
/// error message.
pub uninterp spec fn plist_document(bytes: Seq<u8>) -> Result<PlistValue, Seq<char>>;

/// `plist::Value` to `PlistValue`, variant by variant.
#[verifier::external_body]
fn plist_from_value(v: plist::Value) -> PlistValue {
    match v {
        plist::Value::Array(a) => PlistValue::Array(a.into_iter().map(plist_from_value).collect()),
        plist::Value::Dictionary(d) => PlistValue::Dictionary(
            d.into_iter().map(|(k, v)| (k, plist_from_value(v))).collect(),
        ),
        plist::Value::Boolean(b) => PlistValue::Boolean(b),
        plist::Value::Data(_) => PlistValue::Data,
        plist::Value::Date(_) => PlistValue::Date,
        plist::Value::Real(_) => PlistValue::Real,
        plist::Value::Integer(i) => PlistValue::Integer(i.as_unsigned()),
        plist::Value::String(s) => PlistValue::String(s),
        plist::Value::Uid(_) => PlistValue::Uid,
        _ => PlistValue::Other,
    }
}

/// Reads a property list of any encoding with `plist::Value::from_reader`;
/// an error is reported by its message.
#[verifier::external_body]
pub(crate) fn parse_plist(data: &[u8]) -> (r: Result<PlistValue, String>)
    ensures
        match r {
            Ok(v) => plist_document(data@) == Ok::<PlistValue, Seq<char>>(v),
            Err(m) => plist_document(data@) == Err::<PlistValue, Seq<char>>(m@),
        },
{
    match plist::Value::from_reader(std::io::Cursor::new(data)) {
        Ok(v) => Ok(plist_from_value(v)),
        Err(e) => Err(e.to_string()),
    }
}

/// The value of the first entry of `entries[i..]` with key `key`.
pub open spec fn dict_value(entries: Seq<(String, PlistValue)>, key: Seq<char>, i: int) -> Option<
    PlistValue,
>
    decreases entries.len() - i,
{
    if i < 0 || i >= entries.len() {
        None
    } else if entries[i].0@ == key {
        Some(entries[i].1)
    } else {
        dict_value(entries, key, i + 1)
    }
}

/// `Value::as_dictionary`.
pub open spec fn as_dictionary(v: PlistValue) -> Option<Seq<(String, PlistValue)>> {
    match v {
        PlistValue::Dictionary(d) => Some(d@),
        _ => None,
    }
}

/// `Value::as_array`.
pub open spec fn as_array(v: PlistValue) -> Option<Seq<PlistValue>> {
    match v {
        PlistValue::Array(a) => Some(a@),
        _ => None,
    }
}

/// `Value::as_string`.
pub open spec fn as_string(v: PlistValue) -> Option<Seq<char>> {
    match v {
        PlistValue::String(s) => Some(s@),
        _ => None,
    }
}

/// `Value::as_unsigned_integer`.
pub open spec fn as_unsigned_integer(v: PlistValue) -> Option<u64> {
    match v {
        PlistValue::Integer(u) => u,
        _ => None,
    }
}

/// `Dictionary::get`.
pub fn dict_get<'a>(d: &'a Vec<(String, PlistValue)>, key: &String) -> (r: Option<&'a PlistValue>)
    ensures
        match r {
            Some(x) => dict_value(d@, key@, 0) == Some(*x),
            None => dict_value(d@, key@, 0) is None,
        },
{
    let mut i: usize = 0;
    while i < d.len()
        invariant
            i <= d@.len(),
            dict_value(d@, key@, 0) == dict_value(d@, key@, i as int),
        decreases d.len() - i,
    {
        if d[i].0 == *key {
            return Some(&d[i].1);
        }
        i = i + 1;
    }
    None
}

} // verus!
