//! JSON values, which the crate stores and hands back without looking inside
//! them, and the JSON texts in which lists of tags and property maps are
//! written down.

use crate::text_map::{as_map, distinct_keys};
use vstd::prelude::*;

verus! {

/// `serde_json::Value`: any JSON value.
#[verifier::external_type_specification]
#[verifier::external_body]
pub struct ExJsonValue(serde_json::Value);

/// `serde_json::Error`: why a text could not be read or a value not be
/// written.
#[verifier::external_type_specification]
#[verifier::external_body]
pub struct ExJsonError(serde_json::Error);

/// Calls `Clone::clone` of `serde_json::Value`, which yields an equal value.
#[verifier::external_body]
pub(crate) fn copy_json(value: &serde_json::Value) -> (copy: serde_json::Value)
    ensures
        copy == *value,
{
    value.clone()
}

/// The JSON string that holds the text.
pub uninterp spec fn json_string(text: Seq<char>) -> serde_json::Value;

/// Builds `serde_json::Value::String` from the text.
#[verifier::external_body]
pub(crate) fn json_text(text: &str) -> (value: serde_json::Value)
    ensures
        value == json_string(text@),
{
    serde_json::Value::String(text.to_string())
}

/// The JSON text that `serde_json::to_string` writes for a list of texts.
pub uninterp spec fn json_of_texts(texts: Seq<Seq<char>>) -> Seq<char>;

/// The JSON text that `serde_json::to_string` writes for an object with the
/// given members.
pub uninterp spec fn json_of_properties(properties: Map<Seq<char>, serde_json::Value>) -> Seq<char>;

/// The list of texts that `serde_json::from_str` reads from a JSON text;
/// none where the text is no JSON array of strings.
pub uninterp spec fn texts_of_json(text: Seq<char>) -> Option<Seq<Seq<char>>>;

/// The members of the object that `serde_json::from_str` reads from a JSON
/// text; none where the text is no JSON object.
pub uninterp spec fn properties_of_json(text: Seq<char>) -> Option<
    Map<Seq<char>, serde_json::Value>,
>;

/// Calls `serde_json::to_string` on a list of texts. Writing fails only for
/// a value that refuses to be written or for a map whose keys are no
/// strings; a list of texts is neither, so that it succeeds, and the text
/// depends on the list alone.
#[verifier::external_body]
pub(crate) fn texts_to_json(texts: &Vec<String>) -> (r: Result<String, serde_json::Error>)
    ensures
        r is Ok,
        r matches Ok(text) ==> text@ == json_of_texts(texts.deep_view()),
{
    serde_json::to_string(texts)
}

/// Puts the entries into a `serde_json::Map`, which keeps its keys in
/// ascending order, and calls `serde_json::to_string` on the object. Every
/// JSON value can be written and the keys are strings, so that it succeeds,
/// and the text depends on the members alone.
#[verifier::external_body]
pub(crate) fn members_to_json(entries: &Vec<(String, serde_json::Value)>) -> (r: Result<
    String,
    serde_json::Error,
>)
    requires
        distinct_keys(entries@),
    ensures
        r is Ok,
        r matches Ok(text) ==> text@ == json_of_properties(as_map(entries@)),
{
    let mut object = serde_json::Map::new();
    for (key, value) in entries {
        object.insert(key.clone(), value.clone());
    }
    serde_json::to_string(&serde_json::Value::Object(object))
}

/// Calls `serde_json::from_str` for a list of texts.
#[verifier::external_body]
pub(crate) fn texts_from_json(text: &str) -> (r: Result<Vec<String>, serde_json::Error>)
    ensures
        match r {
            Ok(texts) => texts_of_json(text@) == Some(texts.deep_view()),
            Err(_) => texts_of_json(text@) is None,
        },
{
    serde_json::from_str::<Vec<String>>(text)
}

/// Calls `serde_json::from_str` for an object and lists its members, each
/// key once.
#[verifier::external_body]
pub(crate) fn members_from_json(text: &str) -> (r: Result<
    Vec<(String, serde_json::Value)>,
    serde_json::Error,
>)
    ensures
        match r {
            Ok(entries) => distinct_keys(entries@) && properties_of_json(text@) == Some(
                as_map(entries@),
            ),
            Err(_) => properties_of_json(text@) is None,
        },
{
    let object = serde_json::from_str::<serde_json::Map<String, serde_json::Value>>(text)?;
    Ok(object.into_iter().collect())
}

/// Renders a `serde_json::Error` with its `Display` impl.
#[verifier::external_body]
pub(crate) fn json_error_text(error: &serde_json::Error) -> (text: String) {
    error.to_string()
}

} // verus!
