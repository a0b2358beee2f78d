//! Small text utilities shared by the path grammar and the flattener:
//! building a `String` from characters and decoding UTF-8 bytes.

use vstd::prelude::*;
use vstd::string::StringSliceAdditionalSpecFns;

verus! {

/// Relies on `String`'s `FromIterator<char>`: collecting characters yields
/// the string of exactly those characters, in order.
#[verifier::external_body]
pub(crate) fn chars_to_string(cs: &Vec<char>) -> (r: String)
    ensures
        r@ == cs@,
{
    cs.iter().collect()
}

/// Relies on `std::str::from_utf8`: it returns `Ok` exactly when the bytes
/// are valid UTF-8, the returned slice is backed by exactly those bytes,
/// and it is empty exactly when the input is empty.
#[verifier::external_body]
fn try_str_from_utf8(bytes: &[u8]) -> (r: Option<&str>)
    ensures
        r is Some <==> vstd::utf8::valid_utf8(bytes@),
        r is Some ==> r.unwrap().spec_bytes() == bytes@,
        r is Some ==> (r.unwrap()@.len() == 0 <==> bytes@.len() == 0),
{
    std::str::from_utf8(bytes).ok()
}

/// Decodes bytes as UTF-8, keeping only non-empty results.
pub fn from_utf8(bytes: &[u8]) -> (r: Option<&str>)
    ensures
        r is Some <==> vstd::utf8::valid_utf8(bytes@) && bytes@.len() > 0,
        r is Some ==> r.unwrap().spec_bytes() == bytes@,
{
    match try_str_from_utf8(bytes) {
        Some(s) => {
            if s.is_empty() {
                None
            } else {
                Some(s)
            }
        },
        None => None,
    }
}

} // verus!
