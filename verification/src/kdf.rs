//! Key derivation and password verification.
//!
//! Both lean on the argon2 crate: a memory-hard hash turns the master
//! password and a salt into the symmetric key, and a second, independently
//! salted hash of the same password is kept as a self-describing string so
//! that a wrong password can be rejected before any decryption is tried.

use crate::errors::VaultError;
use aes_gcm::aead::OsRng;
use argon2::password_hash::rand_core::RngCore;
use argon2::password_hash::SaltString;
use argon2::{Argon2, PasswordHash, PasswordHasher, PasswordVerifier};
use vstd::prelude::*;
use vstd::utf8::encode_utf8;
use zeroize::Zeroize;

verus! {

/// The digest that the memory-hard hash produces, with its default cost
/// parameters, from a password and a raw key-derivation salt.  It depends
/// on those two values alone.
pub uninterp spec fn argon2_digest(password: Seq<char>, salt: Seq<u8>) -> Seq<u8>;

/// Whether a string parses as a self-describing password hash.
pub uninterp spec fn phc_parses(hash: Seq<char>) -> bool;

/// Whether verifying a password against a self-describing hash string
/// succeeds.  It depends on those two values alone.
pub uninterp spec fn phc_verifies(hash: Seq<char>, password: Seq<char>) -> bool;

/// The symmetric key derived from a password and a salt: the first 32
/// bytes of the memory-hard digest.
pub open spec fn derived_key(password: Seq<char>, salt: Seq<u8>) -> Seq<u8> {
    argon2_digest(password, salt).take(32)
}

/// The hash rejects passwords longer than 2^32 - 1 bytes; everything
/// shorter is accepted.
pub open spec fn password_ok(password: Seq<char>) -> bool {
    encode_utf8(password).len() <= 0xffff_ffff
}

/// 256 bits of symmetric key material, derived on demand and meant to be
/// erased as soon as the operation that needed it is done.
pub struct EncryptionKey {
    key: Vec<u8>,
}

impl View for EncryptionKey {
    type V = Seq<u8>;

    closed spec fn view(&self) -> Seq<u8> {
        self.key@
    }
}

impl EncryptionKey {
    /// A key is exactly 32 bytes until it is erased.
    pub open spec fn wf(&self) -> bool {
        self@.len() == 32
    }

    /// Relies on argon2: `SaltString::encode_b64` accepts up to 48 raw
    /// bytes, and `Argon2::hash_password` with the default parameters
    /// produces a 32-byte digest, a pure function of the password bytes
    /// and the salt, failing only on passwords longer than 2^32 - 1 bytes.
    #[verifier::external_body]
    fn argon2_raw(password: &str, salt: &[u8]) -> (r: Result<Vec<u8>, VaultError>)
        ensures
            r matches Ok(v) ==> v@ == argon2_digest(password@, salt@) && v@.len() == 32,
            salt@.len() == 32 ==> (r is Ok <==> password_ok(password@)),
            r matches Err(e) ==> e == VaultError::DerivationError,
    {
        let salt_string = SaltString::encode_b64(salt).map_err(|_| VaultError::DerivationError)?;
        let hashed = Argon2::default().hash_password(password.as_bytes(), &salt_string).map_err(
            |_| VaultError::DerivationError,
        )?;
        let out = hashed.hash.ok_or(VaultError::DerivationError)?;
        Ok(out.as_bytes().to_vec())
    }

    /// Derive the encryption key for `password` under `salt`.
    ///
    /// Returns `DerivationError` when the hash rejects its input or
    /// yields fewer than 32 bytes; with a 32-byte salt it succeeds for
    /// every password the hash accepts.
    pub fn derive_from_password(password: &str, salt: &[u8]) -> (r: Result<
        EncryptionKey,
        VaultError,
    >)
        ensures
            r matches Ok(k) ==> k.wf() && k@ == derived_key(password@, salt@),
            salt@.len() == 32 ==> (r is Ok <==> password_ok(password@)),
            r matches Err(e) ==> e == VaultError::DerivationError,
    {
        let mut digest = match Self::argon2_raw(password, salt) {
            Ok(v) => v,
            Err(e) => {
                return Err(e);
            },
        };
        if digest.len() < 32 {
            return Err(VaultError::DerivationError);
        }
        digest.truncate(32);
        Ok(EncryptionKey { key: digest })
    }

    /// A fresh 32-byte key-derivation salt.
    ///
    /// Relies on `OsRng::fill_bytes`: the operating system's secure
    /// generator fills the buffer; nothing is assumed about the values.
    #[verifier::external_body]
    pub fn generate_salt() -> (r: Vec<u8>)
        ensures
            r@.len() == 32,
    {
        let mut salt = [0u8; 32];
        OsRng.fill_bytes(&mut salt);
        salt.to_vec()
    }

    /// Check `password` against a stored self-describing hash.
    ///
    /// Relies on argon2: `PasswordHash::new` accepts exactly the
    /// well-formed hash strings, and `Argon2::verify_password` recomputes
    /// the digest with the salt and parameters embedded in the hash and
    /// compares, an outcome that depends on the two strings alone.
    /// A mismatch is the `false` result, never an error.
    #[verifier::external_body]
    pub fn verify_password(password: &str, hash: &str) -> (r: Result<bool, VaultError>)
        ensures
            r is Ok <==> phc_parses(hash@),
            r matches Ok(b) ==> b == phc_verifies(hash@, password@),
            r matches Err(e) ==> e == VaultError::DerivationError,
    {
        let parsed = PasswordHash::new(hash).map_err(|_| VaultError::DerivationError)?;
        Ok(Argon2::default().verify_password(password.as_bytes(), &parsed).is_ok())
    }

    /// Produce a fresh self-describing hash of `password` for storage.
    ///
    /// Relies on argon2: the hash is built over a freshly generated salt,
    /// so its value is not predictable, but whatever comes back parses,
    /// and verification accepts exactly the password it was built from
    /// (digest collisions between distinct passwords are beyond the
    /// guarantees of the hash and are not modelled).  Only passwords
    /// longer than 2^32 - 1 bytes are rejected.
    #[verifier::external_body]
    pub fn hash_password(password: &str) -> (r: Result<String, VaultError>)
        ensures
            r is Ok <==> password_ok(password@),
            r matches Ok(h) ==> phc_parses(h@) && (forall|q: Seq<char>|
                phc_verifies(h@, q) <==> q == password@),
            r matches Err(e) ==> e == VaultError::DerivationError,
    {
        let salt = SaltString::generate(&mut OsRng);
        let hashed = Argon2::default().hash_password(password.as_bytes(), &salt).map_err(
            |_| VaultError::DerivationError,
        )?;
        Ok(hashed.to_string())
    }

    /// The raw key bytes, for handing to the cipher.
    pub fn as_slice(&self) -> (r: &[u8])
        ensures
            r@ == self@,
    {
        self.key.as_slice()
    }

    /// Overwrite the key material with zeros and release it.
    ///
    /// Relies on `zeroize::Zeroize` for `Vec<u8>`: every byte up to the
    /// vector's capacity is zeroed and the length is set to 0.
    #[verifier::external_body]
    pub fn erase(&mut self)
        ensures
            final(self)@.len() == 0,
    {
        self.key.zeroize();
    }
}

} // verus!
