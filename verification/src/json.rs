//! JSON documents, read and written by `serde_json`.
//!
//! The client reads a response body as a `serde_json::Value` and looks into it through the
//! accessors of that type. To the proofs such a value is opaque; what it holds is known
//! under the name `json_of`, as a `Json`, and what `serde_json` makes of a run of bytes under
//! the name `json_read`: a document, or the reason why there is none. What this module states of the two is taken on trust from
//! `serde_json`; the client's rules are proved from it.

use vstd::prelude::*;

verus! {

/// A JSON document, as far as the client tells documents apart: numbers are not told apart.
pub enum Json {
    Null,
    Bool(bool),
    Number,
    Text(Seq<char>),
    Array(Seq<Json>),
    Object(Map<Seq<char>, Json>),
}

/// `serde_json::Value`, a JSON document in memory. The proofs do not look into it.
#[verifier::external_type_specification]
#[verifier::external_body]
pub struct ExValue(serde_json::Value);

/// `serde_json::Error`, the reason why reading or writing a document failed. The proofs do
/// not look into it, and the library does not pass it on.
#[verifier::external_type_specification]
#[verifier::external_body]
pub struct ExJsonError(serde_json::Error);

/// The document that `value` holds.
pub uninterp spec fn json_of(value: serde_json::Value) -> Json;

/// What `serde_json` reads from `bytes`: the document that they spell, or, where they
/// spell none, the reason that it gives.
pub uninterp spec fn json_read(bytes: Seq<u8>) -> Result<Json, Seq<char>>;

/// What `serde_json` writes for the object whose single member `key` has the value `value`:
/// the bytes that spell it, or `None` if it refuses to write it.
pub uninterp spec fn json_member(key: Seq<char>, value: Json) -> Option<Seq<u8>>;

/// The value of a member that the library writes: a string, or a list of strings.
#[derive(Debug, PartialEq, Eq)]
pub enum Field {
    Text(String),
    List(Vec<String>),
}

impl View for Field {
    type V = Json;

    open spec fn view(&self) -> Json {
        match *self {
            Field::Text(text) => Json::Text(text@),
            Field::List(items) => Json::Array(
                items.deep_view().map_values(|item: Seq<char>| Json::Text(item)),
            ),
        }
    }
}

/// The document of each of `values`.
pub open spec fn json_of_each(values: Seq<serde_json::Value>) -> Seq<Json> {
    values.map_values(|v: serde_json::Value| json_of(v))
}

/// `serde_json::from_slice`, asked for a `Value`: it reads `bytes` as one JSON document and
/// fails where they are not one. The error is handed on as the text that it displays.
/// Both the document and that text depend on the bytes alone.
#[verifier::external_body]
pub(crate) fn read_value(bytes: &[u8]) -> (read: Result<serde_json::Value, String>)
    ensures
        match read {
            Ok(value) => json_read(bytes@) == Ok::<Json, Seq<char>>(json_of(value)),
            Err(reason) => json_read(bytes@) == Err::<Json, Seq<char>>(reason@),
        },
{
    match serde_json::from_slice::<serde_json::Value>(bytes) {
        Ok(value) => Ok(value),
        Err(error) => Err(error.to_string()),
    }
}

/// `Value::as_array` gives the elements of an array, and `None` for any other value.
pub assume_specification[ serde_json::Value::as_array ](value: &serde_json::Value) -> (items:
    Option<&Vec<serde_json::Value>>)
    ensures
        match items {
            Some(list) => json_of(*value) == Json::Array(json_of_each(list@)),
            None => !(json_of(*value) is Array),
        },
;

/// `Value::as_str` gives the text of a string, and `None` for any other value.
pub assume_specification[ serde_json::Value::as_str ](value: &serde_json::Value) -> (text: Option<
    &str,
>)
    ensures
        match text {
            Some(s) => json_of(*value) == Json::Text(s@),
            None => !(json_of(*value) is Text),
        },
;

/// `Value::get` with a string index gives the member of an object that has the key `key`,
/// and `None` where the value is no object or has no such member.
#[verifier::external_body]
pub(crate) fn member<'a>(value: &'a serde_json::Value, key: &str) -> (found: Option<
    &'a serde_json::Value,
>)
    ensures
        match found {
            Some(inner) => {
                &&& json_of(*value) matches Json::Object(members)
                &&& members.contains_key(key@)
                &&& members[key@] == json_of(*inner)
            },
            None => !(json_of(*value) matches Json::Object(members) && members.contains_key(key@)),
        },
{
    value.get(key)
}

/// `serde_json::to_vec` of the object whose single member `key` has the value `field`, a
/// string or an array of strings. Whether it writes the object, and with which bytes,
/// depends on the key and the value alone. That it always does is not claimed here.
#[verifier::external_body]
pub(crate) fn write_member(key: &str, field: &Field) -> (written: Result<
    Vec<u8>,
    serde_json::Error,
>)
    ensures
        match written {
            Ok(bytes) => json_member(key@, field@) == Some(bytes@),
            Err(_) => json_member(key@, field@) is None,
        },
{
    let value = match field {
        Field::Text(text) => serde_json::Value::String(text.clone()),
        Field::List(items) => serde_json::Value::Array(
            items.iter().map(|item| serde_json::Value::String(item.clone())).collect(),
        ),
    };
    let mut members = serde_json::Map::new();
    members.insert(key.to_owned(), value);
    serde_json::to_vec(&serde_json::Value::Object(members))
}

/// The bytes that were written, or `None` if writing failed.
pub fn written_bytes(written: Result<Vec<u8>, serde_json::Error>) -> (bytes: Option<Vec<u8>>)
    ensures
        match written {
            Ok(all) => bytes == Some(all),
            Err(_) => bytes is None,
        },
{
    match written {
        Ok(all) => Some(all),
        Err(_) => None,
    }
}

} // verus!
