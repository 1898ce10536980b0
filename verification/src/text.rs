//! Byte-to-text conversion for the parsers and formatters, which work on
//! raw bytes.

use vstd::prelude::*;

verus! {

/// Relies on `String::from_utf8`: a sequence of ASCII bytes decodes to
/// exactly those characters, one per byte.
#[verifier::external_body]
pub fn ascii_to_string(v: Vec<u8>) -> (r: String)
    requires
        forall|i: int| 0 <= i < v@.len() ==> v@[i] < 128,
    ensures
        r@.len() == v@.len(),
        forall|i: int| 0 <= i < v@.len() ==> r@[i] == v@[i] as char,
{
    String::from_utf8(v).unwrap_or_default()
}

} // verus!
