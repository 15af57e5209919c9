//! Trusted boundary: every call into an outside crate, and the few std
//! operations vstd gives no specification for, stands here behind a
//! contract that the rest of the library is verified against.

use vstd::prelude::*;
use crate::json::Json;

verus! {

/// Relies on std's `String::push`: appends exactly one character.
#[verifier::external_body]
pub(crate) fn push_char(s: &mut String, c: char)
    ensures
        final(s)@ == old(s)@.push(c),
{
    s.push(c)
}

#[verifier::external_type_specification]
#[verifier::external_body]
pub struct ExValue(serde_json::Value);

/// What a byte sequence parses to as a JSON document: `None` for a
/// malformed document, otherwise the document in the library's own shape.
/// serde_json's parser computes it from the bytes alone.
pub uninterp spec fn json_of(bytes: Seq<u8>) -> Option<Json>;

/// Relies on serde_json::Value: carries one parsed document over into the
/// library's own document shape, variant by variant. A number outside the
/// `i64` range is carried as `Null`.
#[verifier::external_body]
fn json_from_value(v: serde_json::Value) -> Json {
    match v {
        serde_json::Value::Null => Json::Null,
        serde_json::Value::Bool(b) => Json::Bool(b),
        serde_json::Value::Number(n) => match n.as_i64() {
            Some(i) => Json::Int(i),
            None => Json::Null,
        },
        serde_json::Value::String(s) => Json::Str(s),
        serde_json::Value::Array(a) => Json::Arr(a.into_iter().map(json_from_value).collect()),
        serde_json::Value::Object(m) => Json::Obj(
            m.into_iter().map(|(k, x)| (k, json_from_value(x))).collect(),
        ),
    }
}

/// Relies on serde_json::from_slice: parses one JSON document. The result
/// depends on the bytes alone and is named `json_of`.
#[verifier::external_body]
pub(crate) fn parse_json(bytes: &[u8]) -> (r: Option<Json>)
    ensures
        r == json_of(bytes@),
{
    match serde_json::from_slice::<serde_json::Value>(bytes) {
        Ok(v) => Some(json_from_value(v)),
        Err(_) => None,
    }
}

/// Whether a string is a well-formed absolute URL; reqwest's URL parser
/// (the url crate) decides, from the characters alone.
pub uninterp spec fn is_absolute_url(s: Seq<char>) -> bool;

/// Relies on reqwest::Url::parse (url::Url::parse): whether parsing
/// succeeds depends on the input string alone.
#[verifier::external_body]
pub(crate) fn parses_as_url(s: &str) -> (r: bool)
    ensures
        r == is_absolute_url(s@),
{
    reqwest::Url::parse(s).is_ok()
}

/// The lower-cased form of a string, as std's Unicode case folding
/// computes it from the characters alone.
pub uninterp spec fn lower_of(s: Seq<char>) -> Seq<char>;

/// Relies on std's `str::to_lowercase`: Unicode lower-casing, a function
/// of the characters alone. Each character maps to one or more lower-case
/// characters, so only the empty string folds to the empty string.
#[verifier::external_body]
pub(crate) fn to_lowercase(s: &str) -> (r: String)
    ensures
        r@ == lower_of(s@),
        s@.len() == 0 ==> r@.len() == 0,
        s@.len() > 0 ==> r@.len() > 0,
{
    s.to_lowercase()
}

/// The title-cased form of a string, as convert_case computes it from the
/// characters alone.
pub uninterp spec fn title_of(s: Seq<char>) -> Seq<char>;

/// Relies on convert_case's `Casing::to_case` with `Case::Title`.
#[verifier::external_body]
pub(crate) fn to_title(s: &str) -> (r: String)
    ensures
        r@ == title_of(s@),
{
    convert_case::Casing::to_case(&s, convert_case::Case::Title)
}

} // verus!
