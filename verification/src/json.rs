//! Reading JSON documents.
use serde_json::Value;
use vstd::prelude::*;

verus! {

/// A parsed JSON value.
#[verifier::external_type_specification]
#[verifier::external_body]
pub struct ExValue(Value);

/// Why a text is not a JSON document.
#[verifier::external_type_specification]
#[verifier::external_body]
pub struct ExJsonError(serde_json::Error);

/// What a JSON value holds, as far as load documents are read.
pub enum JsonTree {
    /// A number that is an integer within the range of `i64`.
    Integer(i64),
    Array(Seq<JsonTree>),
    Object(Map<Seq<char>, JsonTree>),
    /// Anything else.
    Other,
}

/// What a parsed value holds.
pub uninterp spec fn json_tree(value: Value) -> JsonTree;

/// What the JSON document in `bytes` holds; `None` where they are no document.
pub uninterp spec fn json_document(bytes: Seq<u8>) -> Option<JsonTree>;

/// `serde_json::from_slice`, into a `Value`: the document in the bytes, or an
/// error where they are not one JSON document.
#[verifier::external_body]
pub(crate) fn parse_json(bytes: &[u8]) -> (r: Result<Value, serde_json::Error>)
    ensures
        r is Ok <==> json_document(bytes@) is Some,
        r matches Ok(value) ==> json_document(bytes@) == Some(json_tree(value)),
{
    serde_json::from_slice::<Value>(bytes)
}

/// `Value::get` with a text index: the member of an object under that key;
/// nothing where there is none, or where the value is no object.
#[verifier::external_body]
pub(crate) fn json_member<'a>(value: &'a Value, key: &str) -> (r: Option<&'a Value>)
    ensures
        match json_tree(*value) {
            JsonTree::Object(members) => {
                &&& r is Some <==> members.contains_key(key@)
                &&& r matches Some(member) ==> json_tree(*member) == members[key@]
            },
            _ => r is None,
        },
{
    value.get(key)
}

/// `Value::as_array`: the elements of an array, in order; nothing for any other
/// value.
#[verifier::external_body]
pub(crate) fn json_elements<'a>(value: &'a Value) -> (r: Option<&'a Vec<Value>>)
    ensures
        match json_tree(*value) {
            JsonTree::Array(elements) => r matches Some(values) && values@.len() == elements.len()
                && forall|i: int|
                0 <= i < elements.len() ==> json_tree(#[trigger] values@[i]) == elements[i],
            _ => r is None,
        },
{
    value.as_array()
}

/// `Value::as_i64`: the number, where the value is an integer within the range
/// of `i64`; nothing for any other value.
#[verifier::external_body]
pub(crate) fn json_integer(value: &Value) -> (r: Option<i64>)
    ensures
        r == (match json_tree(*value) {
            JsonTree::Integer(number) => Some(number),
            _ => None::<i64>,
        }),
{
    value.as_i64()
}

impl JsonTree {
    /// The member under `key`.
    pub open spec fn member(self, key: Seq<char>) -> Option<JsonTree> {
        match self {
            JsonTree::Object(members) => if members.contains_key(key) {
                Some(members[key])
            } else {
                None
            },
            _ => None,
        }
    }

    /// The integer under `key`.
    pub open spec fn integer_at(self, key: Seq<char>) -> Option<i64> {
        match self.member(key) {
            Some(JsonTree::Integer(number)) => Some(number),
            _ => None,
        }
    }
}

/// The integer under `key`.
pub(crate) fn integer_member(value: &Value, key: &str) -> (r: Option<i64>)
    ensures
        r == json_tree(*value).integer_at(key@),
{
    match json_member(value, key) {
        Some(member) => json_integer(member),
        None => None,
    }
}

} // verus!
