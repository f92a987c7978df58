//! Conversion between strings and their UTF-8 bytes.

use crate::errors::VaultError;
use vstd::prelude::*;
use vstd::utf8::{decode_utf8, valid_utf8};

verus! {

/// Turn bytes back into the string they encode.
///
/// Relies on `String::from_utf8`: it succeeds exactly on valid UTF-8 and
/// returns the string whose encoding is the input, matching vstd's model
/// of strings as sequences of characters.
#[verifier::external_body]
pub(crate) fn bytes_to_string(v: Vec<u8>) -> (r: Result<String, VaultError>)
    ensures
        r is Ok <==> valid_utf8(v@),
        r matches Ok(s) ==> s@ == decode_utf8(v@),
        r matches Err(e) ==> e == VaultError::VaultCorrupt,
{
    String::from_utf8(v).map_err(|_| VaultError::VaultCorrupt)
}

} // verus!
