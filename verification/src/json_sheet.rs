use json::JsonValue;
use vstd::prelude::*;

use crate::error::JesdError;

verus! {

/// `json::JsonValue`, a parsed JSON document.
#[verifier::external_type_specification]
#[verifier::external_body]
pub struct ExJsonValue(JsonValue);

/// `json::Error`, why a text is not a JSON document.
#[verifier::external_type_specification]
#[verifier::external_body]
pub struct ExJsonError(json::Error);

/// The text is a JSON document that `json::parse` accepts.
pub uninterp spec fn json_accepts(source: Seq<char>) -> bool;

/// `json::parse`. Claimed: whether it succeeds depends on the text alone.
/// Which document it gives, and which error, is not stated.
#[verifier::external_body]
fn json_parse(source: &str) -> (r: Result<JsonValue, json::Error>)
    ensures
        r is Ok <==> json_accepts(source@),
{
    json::parse(source)
}

/// A field sheet held as a parsed JSON document.
pub struct JsonSheet {
    json_obj: JsonValue,
}

impl JsonSheet {
    /// Parses the text of a field sheet as JSON.
    pub fn new(content: &str) -> (r: Result<JsonSheet, JesdError>)
        ensures
            r is Ok <==> json_accepts(content@),
            r matches Err(e) ==> e == JesdError::InvalidJson,
    {
        match json_parse(content) {
            Ok(json_obj) => Ok(JsonSheet { json_obj }),
            Err(_) => Err(JesdError::InvalidJson),
        }
    }
}

} // verus!
