//! Overwriting secret-bearing buffers before they are released.

use vstd::prelude::*;
use zeroize::Zeroize;

verus! {

/// Relies on `zeroize::Zeroize` for `Vec<u8>`: every byte up to the
/// vector's capacity is overwritten with zeros and the length is set
/// to 0.
#[verifier::external_body]
pub(crate) fn wipe_bytes(v: &mut Vec<u8>)
    ensures
        final(v)@.len() == 0,
{
    v.zeroize();
}

/// Relies on `zeroize::Zeroize` for `String`: the backing bytes are
/// overwritten with zeros and the string is emptied.
#[verifier::external_body]
pub(crate) fn wipe_string(s: &mut String)
    ensures
        final(s)@.len() == 0,
{
    s.zeroize();
}

} // verus!
