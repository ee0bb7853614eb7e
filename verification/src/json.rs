//! The JSON encoding used by the set-read response: a list of strings is
//! sent as a JSON array of its members.

use vstd::prelude::*;

verus! {

/// The JSON array whose members are the given strings, in order, as UTF-8
/// bytes. The exact byte shape is serde_json's; it depends on the strings
/// alone.
pub uninterp spec fn json_of_strings(elems: Seq<Seq<char>>) -> Seq<u8>;

/// Relies on serde_json::to_vec: serialising a vector of strings yields the
/// JSON array of its members and cannot fail.
#[verifier::external_body]
pub fn json_encode_strings(v: &Vec<String>) -> (r: Vec<u8>)
    ensures
        r@ == json_of_strings(v.deep_view()),
{
    // writing strings into an in-memory buffer has no failure case
    serde_json::to_vec(v).unwrap()
}

} // verus!
