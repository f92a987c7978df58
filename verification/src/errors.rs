//! The error taxonomy of the vault.

use vstd::prelude::*;
use vstd::string::StringExecFns;

verus! {

/// Every way an operation of this crate, or of the storage layer around it,
/// can fail.  Each fallible function says in its contract exactly which of
/// these it returns, and when.
#[derive(Clone, Copy, Debug, PartialEq, Eq, Structural)]
pub enum VaultError {
    /// The vault file could not be read or written.
    Io,
    /// No vault exists where one was expected.
    NotFound,
    /// A vault already exists where a new one was to be created.
    AlreadyExists,
    /// The stored container, or the decrypted payload, is malformed.
    VaultCorrupt,
    /// The master password does not match the stored verification hash.
    WrongPassword,
    /// The ciphertext failed authentication: the cause may be either a wrong
    /// password or corrupted data, and the two cannot be told apart here.
    AuthenticationError,
    /// An entry for the service already exists; use update instead.
    DuplicateEntry,
    /// No entry for the service exists; update refuses to create one.
    MissingEntry,
    /// Key derivation or password hashing rejected its input.
    DerivationError,
}

impl VaultError {
    /// A human-readable description.  For `AuthenticationError` it states
    /// that a wrong password and corrupted data cannot be distinguished
    /// once the verification hash has been accepted.
    pub fn message(&self) -> (r: String)
        ensures
            self is AuthenticationError ==> r@
                == "decryption failed: wrong password or corrupted data"@,
            self is WrongPassword ==> r@ == "invalid master password"@,
    {
        match self {
            VaultError::Io => String::from_str("failed to read or write the vault file"),
            VaultError::NotFound => String::from_str("no vault found at the given path"),
            VaultError::AlreadyExists => String::from_str(
                "a vault already exists at the given path",
            ),
            VaultError::VaultCorrupt => String::from_str("the vault file is malformed"),
            VaultError::WrongPassword => String::from_str("invalid master password"),
            VaultError::AuthenticationError => String::from_str(
                "decryption failed: wrong password or corrupted data",
            ),
            VaultError::DuplicateEntry => String::from_str(
                "an entry for this service already exists",
            ),
            VaultError::MissingEntry => String::from_str("no entry for this service exists"),
            VaultError::DerivationError => String::from_str("key derivation failed"),
        }
    }
}

} // verus!
