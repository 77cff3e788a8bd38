//! Reading the list of official levels, which is a JSON array of strings.
//! The `serde_json` crate decodes it.
use vstd::prelude::*;

verus! {

/// The error of the `serde_json` crate.  Nothing is read from it: a text
/// that does not decode is no list, whatever the reason.
#[verifier::external_type_specification]
#[verifier::external_body]
pub struct ExJsonError(serde_json::Error);

/// The strings that `serde_json::from_str` decodes from a text as a
/// `Vec<String>`, or `None` where it reports an error: the text is no JSON
/// array of strings.
pub uninterp spec fn json_string_list(text: Seq<char>) -> Option<Seq<Seq<char>>>;

/// `serde_json::from_str` at the type `Vec<String>`.  The decoder depends
/// on the text alone; the contract only names what it returns.
#[verifier::external_body]
fn decode_string_list(text: &str) -> (r: Result<Vec<String>, serde_json::Error>)
    ensures
        r is Ok <==> json_string_list(text@) is Some,
        r matches Ok(list) ==> json_string_list(text@) == Some(list.deep_view()),
{
    serde_json::from_str::<Vec<String>>(text)
}

/// The official levels that a JSON text lists, in its order: the base file
/// names.  `None` where the text is no JSON array of strings; the run then
/// goes on without official levels.
pub fn official_levels_from_json(text: &str) -> (r: Option<Vec<String>>)
    ensures
        r is Some <==> json_string_list(text@) is Some,
        r matches Some(list) ==> json_string_list(text@) == Some(list.deep_view()),
{
    match decode_string_list(text) {
        Ok(list) => Some(list),
        Err(_) => None,
    }
}

} // verus!
