//! The text handed back to the caller of a lookup.
use vstd::prelude::*;
use crate::ecosystem::FetchError;
use crate::ordering::{DEFAULT_LIMIT, newest_first, views};
use crate::registry::finish_lookup;

verus! {

/// The JSON text of an array of strings.
pub uninterp spec fn json_string_array(items: Seq<Seq<char>>) -> Seq<char>;

/// Relies on `serde_json::to_string`: a list of strings is written as a JSON
/// array of string literals, a text that depends on the strings alone.
#[verifier::external_body]
fn encode_string_array(items: &Vec<String>) -> (r: String)
    ensures
        r@ == json_string_array(views(items@)),
{
    serde_json::to_string(items).unwrap_or_default()
}

/// Answers a lookup as text: the JSON array of the fetched versions newest
/// first, at most `limit` of them (`DEFAULT_LIMIT` where none is named); a
/// failed fetch passes through.
pub fn lookup_response(fetched: Result<Vec<String>, FetchError>, limit: Option<usize>) -> (r: Result<
    String,
    FetchError,
>)
    ensures
        fetched is Err ==> (r matches Err(e) && e == fetched->Err_0),
        fetched is Ok ==> (r matches Ok(text) && text@ == json_string_array(
            newest_first(
                views(fetched->Ok_0@),
                (match limit {
                    Some(l) => l,
                    None => DEFAULT_LIMIT,
                }) as nat,
            ),
        )),
{
    match finish_lookup(fetched, limit) {
        Ok(versions) => Ok(encode_string_array(&versions)),
        Err(e) => Err(e),
    }
}

} // verus!
