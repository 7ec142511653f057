//! Decisions the HTTP handlers make from their query parameters.

use vstd::prelude::*;
pub use vstd::hash_map::StringHashMap;

use crate::text::{ascii_lower, text_equal, trim};
use crate::util::{is_falsey_word, truthy};

verus! {

broadcast use vstd::hash_map::group_hash_map_axioms;

/// Whether the query parameter `key` is present and holds exactly `value`.
pub open spec fn param_is(params: Map<Seq<char>, String>, key: Seq<char>, value: Seq<char>) -> bool {
    params.contains_key(key) && params[key]@ == value
}

/// Requested layout dimensionality: 3 for an explicit `dims=3`, and 2 for anything else, so a
/// malformed parameter degrades to the cheaper layout rather than to a surprise.
pub fn dimensions_param(params: &StringHashMap<String>) -> (d: u8)
    ensures
        d == (if param_is(params@, "dims"@, "3"@) {
            3u8
        } else {
            2u8
        }),
{
    match params.get("dims") {
        Some(v) => if text_equal(v.as_str(), "3") {
            3
        } else {
            2
        },
        None => 2,
    }
}

/// Whether the request asks for a fresh fetch: a `refresh` parameter that [`truthy`] reads as
/// "on", so it takes the spellings `GRAPH_COMPRESSION` takes. Absent means no.
pub fn refresh_param(params: &StringHashMap<String>) -> (force: bool)
    ensures
        force == (params@.contains_key("refresh"@) && !is_falsey_word(
            ascii_lower(trim(params@["refresh"@]@)),
        )),
{
    match params.get("refresh") {
        Some(v) => truthy(v.as_str()),
        None => false,
    }
}

} // verus!
