//! Authenticated encryption of byte payloads.
//!
//! The cipher is AES-256-GCM from the aes-gcm crate: one fresh 96-bit
//! nonce per encryption, empty associated data, and a 16-byte tag appended
//! to the ciphertext.

use crate::errors::VaultError;
use aes_gcm::aead::{Aead, AeadCore, KeyInit, OsRng};
use aes_gcm::Aes256Gcm;
use vstd::prelude::*;

verus! {

/// The ciphertext-with-tag that AES-256-GCM produces for a 32-byte key, a
/// 12-byte nonce and a plaintext of at most 2^36 bytes.  Within that
/// domain it depends on those three values alone.
pub uninterp spec fn aes_gcm_seal(key: Seq<u8>, nonce: Seq<u8>, plaintext: Seq<u8>) -> Seq<u8>;

/// Encrypt `data` under `key` and `nonce`.
///
/// Relies on `Aes256Gcm::encrypt` (through the `Aead` trait): the result
/// is the plaintext's encryption followed by the 16-byte tag, a pure
/// function of key, nonce and plaintext, and the only failure is a
/// plaintext longer than 2^36 bytes.
#[verifier::external_body]
pub(crate) fn aead_seal(key: &[u8], nonce: &[u8], data: &[u8]) -> (r: Result<Vec<u8>, VaultError>)
    requires
        key@.len() == 32,
        nonce@.len() == 12,
    ensures
        r is Ok <==> data@.len() <= 0x10_0000_0000,
        r matches Ok(ct) ==> ct@ == aes_gcm_seal(key@, nonce@, data@) && ct@.len() == data@.len()
            + 16,
        r matches Err(e) ==> e == VaultError::AuthenticationError,
{
    let cipher = Aes256Gcm::new(key.into());
    cipher.encrypt(nonce.into(), data).map_err(|_| VaultError::AuthenticationError)
}

/// Decrypt and authenticate `ct` under `key` and `nonce`.
///
/// Relies on `Aes256Gcm::decrypt`: it inverts `encrypt` exactly — on the
/// encryption of some plaintext under the same key and nonce it returns
/// that plaintext, and on anything else the tag check fails (a forged
/// ciphertext passing the tag check is beyond the cipher's guarantees and
/// is not modelled).
#[verifier::external_body]
pub(crate) fn aead_open(key: &[u8], nonce: &[u8], ct: &[u8]) -> (r: Result<Vec<u8>, VaultError>)
    requires
        key@.len() == 32,
        nonce@.len() == 12,
    ensures
        r matches Ok(p) ==> p@.len() + 16 == ct@.len() && ct@ == aes_gcm_seal(key@, nonce@, p@)
            && p@.len() <= 0x10_0000_0000,
        r is Ok <== exists|m: Seq<u8>|
            m.len() <= 0x10_0000_0000 && ct@ == aes_gcm_seal(key@, nonce@, m),
        r matches Ok(p) ==> forall|m: Seq<u8>|
            m.len() <= 0x10_0000_0000 && ct@ == aes_gcm_seal(key@, nonce@, m) ==> p@ == m,
        r matches Err(e) ==> e == VaultError::AuthenticationError,
{
    let cipher = Aes256Gcm::new(key.into());
    cipher.decrypt(nonce.into(), ct).map_err(|_| VaultError::AuthenticationError)
}

/// Relies on `Aes256Gcm::generate_nonce` over `OsRng`: the operating
/// system's secure generator fills 12 bytes; nothing is assumed about the
/// values.
#[verifier::external_body]
fn generate_nonce() -> (r: Vec<u8>)
    ensures
        r@.len() == 12,
{
    Aes256Gcm::generate_nonce(&mut OsRng).to_vec()
}

/// A fresh 96-bit nonce from the secure generator.
///
/// Public so that the nonce source itself can be observed: every
/// encryption draws one of these, and distinct draws must collide only
/// with negligible probability.
pub fn fresh_nonce() -> (r: Vec<u8>)
    ensures
        r@.len() == 12,
{
    generate_nonce()
}

} // verus!
