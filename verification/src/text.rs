//! Text helpers shared by the wire codec and the id generators.

use vstd::prelude::*;

verus! {

/// Relies on `String::from_utf8`: ASCII bytes are valid UTF-8 and decode
/// to themselves, one character per byte.
#[verifier::external_body]
pub fn from_ascii_bytes(v: Vec<u8>) -> (r: String)
    requires
        forall|i: int| 0 <= i < v@.len() ==> v@[i] < 128,
    ensures
        r@.len() == v@.len(),
        forall|i: int| 0 <= i < v@.len() ==> r@[i] == v@[i] as char,
{
    match String::from_utf8(v) {
        Ok(s) => s,
        Err(_) => String::new(),
    }
}

/// An owned copy of a borrowed string.
pub fn owned_str(s: &str) -> (r: String)
    ensures
        r@ == s@,
{
    let mut out = String::new();
    out.append(s);
    out
}

} // verus!
