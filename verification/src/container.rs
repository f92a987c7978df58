//! The on-disk container: salt, nonce, ciphertext and verification hash.
//!
//! `encrypt` bundles a fresh key-derivation salt, a fresh nonce, the
//! AEAD ciphertext of the payload, and an independently salted
//! verification hash of the password.  `decrypt` checks that hash first,
//! so a wrong password is reported before any decryption is attempted;
//! once the hash has been accepted, a tag failure can mean either a wrong
//! password or corrupted data, and the two cannot be told apart.
//! `to_bytes` and `from_bytes` frame the four fields as bytes and are
//! exact inverses of one another.

use crate::aead::{aead_open, aead_seal, aes_gcm_seal, fresh_nonce};
use crate::errors::VaultError;
use crate::kdf::{derived_key, password_ok, phc_parses, phc_verifies, EncryptionKey};
use crate::text::bytes_to_string;
use crate::wire::{append_frame, framed, prefix_at, read_frame};
use vstd::prelude::*;
use vstd::utf8::{
    decode_utf8, decode_utf8_encode_utf8, encode_utf8, encode_utf8_decode_utf8,
    encode_utf8_valid_utf8, valid_utf8,
};

verus! {

/// The on-disk unit: everything needed to recover the payload from the
/// master password alone.
#[derive(Debug)]
pub struct EncryptedData {
    /// The single-use 96-bit AEAD nonce.
    pub nonce: Vec<u8>,
    /// The AEAD output: payload encryption plus 16-byte tag.
    pub ciphertext: Vec<u8>,
    /// The 32-byte key-derivation salt.
    pub salt: Vec<u8>,
    /// The self-describing verification hash of the master password,
    /// salted independently of `salt`.
    pub password_hash: String,
}

/// `c` is a well-formed encryption of `plaintext` under `password`:
/// the salt and nonce have their nominal sizes, the ciphertext is the
/// AEAD sealing of the plaintext under the key derived from the password
/// and the salt, and the verification hash accepts exactly that password.
pub open spec fn is_encryption_of(
    c: EncryptedData,
    plaintext: Seq<u8>,
    password: Seq<char>,
) -> bool {
    &&& c.salt@.len() == 32
    &&& c.nonce@.len() == 12
    &&& plaintext.len() <= 0x10_0000_0000
    &&& password_ok(password)
    &&& c.ciphertext@ == aes_gcm_seal(derived_key(password, c.salt@), c.nonce@, plaintext)
    &&& phc_parses(c.password_hash@)
    &&& forall|q: Seq<char>| phc_verifies(c.password_hash@, q) <==> q == password
}

/// The byte framing of a container: salt, nonce, ciphertext, then the
/// UTF-8 bytes of the verification hash, each length-prefixed.
pub open spec fn container_bytes(c: EncryptedData) -> Seq<u8> {
    framed(c.salt@) + framed(c.nonce@) + framed(c.ciphertext@) + framed(
        encode_utf8(c.password_hash@),
    )
}

impl EncryptedData {
    /// Encrypt `data` under `password`.
    ///
    /// A fresh salt and nonce are drawn on every call, so no (key, nonce)
    /// pair is ever reused.  Fails with `DerivationError` when the hash
    /// rejects the password, and with `AuthenticationError` when the
    /// payload exceeds what the cipher accepts.
    pub fn encrypt(data: &[u8], password: &str) -> (r: Result<EncryptedData, VaultError>)
        ensures
            r matches Ok(c) ==> is_encryption_of(c, data@, password@) && c.ciphertext@.len()
                == data@.len() + 16,
            r is Ok <==> data@.len() <= 0x10_0000_0000 && password_ok(password@),
            r matches Err(e) ==> (e == VaultError::DerivationError && !password_ok(password@)) || (
            e == VaultError::AuthenticationError && data@.len() > 0x10_0000_0000),
    {
        let salt = EncryptionKey::generate_salt();
        let mut key = match EncryptionKey::derive_from_password(password, salt.as_slice()) {
            Ok(k) => k,
            Err(e) => {
                return Err(e);
            },
        };
        let nonce = fresh_nonce();
        let sealed = aead_seal(key.as_slice(), nonce.as_slice(), data);
        key.erase();
        let ciphertext = match sealed {
            Ok(ct) => ct,
            Err(e) => {
                return Err(e);
            },
        };
        let password_hash = match EncryptionKey::hash_password(password) {
            Ok(h) => h,
            Err(e) => {
                return Err(e);
            },
        };
        Ok(EncryptedData { nonce, ciphertext, salt, password_hash })
    }

    /// Decrypt the container with `password`.
    ///
    /// The verification hash is checked first: if it rejects the
    /// password, the result is `WrongPassword` and no decryption is
    /// attempted.  Once the hash has been accepted, a tag failure is
    /// `AuthenticationError` — a wrong password and corrupted data cannot
    /// be distinguished at that stage.  On the container that `encrypt`
    /// built from this password, the original payload comes back.
    pub fn decrypt(&self, password: &str) -> (r: Result<Vec<u8>, VaultError>)
        ensures
            r matches Ok(p) ==> ({
                &&& phc_parses(self.password_hash@)
                &&& phc_verifies(self.password_hash@, password@)
                &&& self.nonce@.len() == 12
                &&& self.ciphertext@ == aes_gcm_seal(
                    derived_key(password@, self.salt@),
                    self.nonce@,
                    p@,
                )
            }),
            forall|m: Seq<u8>|
                is_encryption_of(*self, m, password@) ==> (r matches Ok(p) && p@ == m),
            forall|m: Seq<u8>, other: Seq<char>|
                #[trigger] is_encryption_of(*self, m, other) && other != password@ ==> r == Err::<
                    Vec<u8>,
                    VaultError,
                >(VaultError::WrongPassword),
            phc_parses(self.password_hash@) && !phc_verifies(self.password_hash@, password@)
                ==> r == Err::<Vec<u8>, VaultError>(VaultError::WrongPassword),
            !phc_parses(self.password_hash@) ==> r == Err::<Vec<u8>, VaultError>(
                VaultError::DerivationError,
            ),
            r matches Err(e) ==> (e == VaultError::WrongPassword || e
                == VaultError::AuthenticationError || e == VaultError::DerivationError),
    {
        let accepted = match EncryptionKey::verify_password(
            password,
            self.password_hash.as_str(),
        ) {
            Ok(b) => b,
            Err(e) => {
                return Err(e);
            },
        };
        if !accepted {
            return Err(VaultError::WrongPassword);
        }
        let mut key = match EncryptionKey::derive_from_password(password, self.salt.as_slice()) {
            Ok(k) => k,
            Err(e) => {
                return Err(e);
            },
        };
        if self.nonce.len() != 12 {
            key.erase();
            return Err(VaultError::AuthenticationError);
        }
        let opened = aead_open(
            key.as_slice(),
            self.nonce.as_slice(),
            self.ciphertext.as_slice(),
        );
        key.erase();
        opened
    }

    /// Frame the container as bytes, exactly `container_bytes`.
    pub fn to_bytes(&self) -> (r: Vec<u8>)
        ensures
            r@ == container_bytes(*self),
    {
        let mut out: Vec<u8> = Vec::new();
        append_frame(&mut out, self.salt.as_slice());
        append_frame(&mut out, self.nonce.as_slice());
        append_frame(&mut out, self.ciphertext.as_slice());
        append_frame(&mut out, self.password_hash.as_str().as_bytes());
        proof {
            assert(out@ =~= container_bytes(*self));
        }
        out
    }

    /// Parse a container back from bytes.
    ///
    /// Succeeds exactly on the framings that `to_bytes` produces — in
    /// particular it inverts `to_bytes` — and reports everything else as
    /// `VaultCorrupt`.
    #[verifier::rlimit(50)]
    pub fn from_bytes(bytes: &[u8]) -> (r: Result<EncryptedData, VaultError>)
        ensures
            r matches Ok(c) ==> bytes@ == container_bytes(c),
            forall|c: EncryptedData|
                bytes@ == container_bytes(c) ==> (r matches Ok(d) && d.salt@ == c.salt@
                    && d.nonce@ == c.nonce@ && d.ciphertext@ == c.ciphertext@ && d.password_hash@
                    == c.password_hash@),
            r matches Err(e) ==> e == VaultError::VaultCorrupt,
    {
        let ghost gb = bytes@;
        let r0 = read_frame(bytes, 0);
        let (salt, i1) = match r0 {
            Some(p) => p,
            None => {
                proof {
                    assert forall|c: EncryptedData| gb == container_bytes(c) implies false by {
                        assert(prefix_at(gb, 0, framed(c.salt@))) by {
                            assert(gb.subrange(0, framed(c.salt@).len() as int) =~= framed(
                                c.salt@,
                            ));
                        }
                    }
                }
                return Err(VaultError::VaultCorrupt);
            },
        };
        proof {
            assert forall|c: EncryptedData| gb == container_bytes(c) implies prefix_at(
                gb,
                0,
                framed(c.salt@),
            ) && salt@ == c.salt@ && i1 == 8 + c.salt@.len() by {
                assert(gb.subrange(0, framed(c.salt@).len() as int) =~= framed(c.salt@));
            }
        }
        let r1 = read_frame(bytes, i1);
        let (nonce, i2) = match r1 {
            Some(p) => p,
            None => {
                proof {
                    assert forall|c: EncryptedData| gb == container_bytes(c) implies false by {
                        lemma_second_frame(gb, c);
                    }
                }
                return Err(VaultError::VaultCorrupt);
            },
        };
        proof {
            assert forall|c: EncryptedData| gb == container_bytes(c) implies nonce@ == c.nonce@
                && i2 == i1 + 8 + c.nonce@.len() by {
                lemma_second_frame(gb, c);
            }
        }
        let r2 = read_frame(bytes, i2);
        let (ciphertext, i3) = match r2 {
            Some(p) => p,
            None => {
                proof {
                    assert forall|c: EncryptedData| gb == container_bytes(c) implies false by {
                        lemma_third_frame(gb, c);
                    }
                }
                return Err(VaultError::VaultCorrupt);
            },
        };
        proof {
            assert forall|c: EncryptedData| gb == container_bytes(c) implies ciphertext@
                == c.ciphertext@ && i3 == i2 + 8 + c.ciphertext@.len() by {
                lemma_third_frame(gb, c);
            }
        }
        let r3 = read_frame(bytes, i3);
        let (hash_bytes, i4) = match r3 {
            Some(p) => p,
            None => {
                proof {
                    assert forall|c: EncryptedData| gb == container_bytes(c) implies false by {
                        lemma_fourth_frame(gb, c);
                    }
                }
                return Err(VaultError::VaultCorrupt);
            },
        };
        if i4 != bytes.len() {
            proof {
                assert forall|c: EncryptedData| gb == container_bytes(c) implies false by {
                    lemma_fourth_frame(gb, c);
                }
            }
            return Err(VaultError::VaultCorrupt);
        }
        proof {
            assert forall|c: EncryptedData| gb == container_bytes(c) implies hash_bytes@
                == encode_utf8(c.password_hash@) && valid_utf8(hash_bytes@) by {
                lemma_fourth_frame(gb, c);
                encode_utf8_valid_utf8(c.password_hash@);
            }
        }
        let ghost ghash = hash_bytes@;
        let password_hash = match bytes_to_string(hash_bytes) {
            Ok(s) => s,
            Err(_) => {
                proof {
                    assert forall|c: EncryptedData| gb == container_bytes(c) implies false by {
                        assert(valid_utf8(ghash));
                    }
                }
                return Err(VaultError::VaultCorrupt);
            },
        };
        let result = EncryptedData { nonce, ciphertext, salt, password_hash };
        proof {
            decode_utf8_encode_utf8(ghash);
            assert(gb =~= container_bytes(result));
            assert forall|c: EncryptedData| gb == container_bytes(c) implies result.password_hash@
                == c.password_hash@ by {
                encode_utf8_decode_utf8(c.password_hash@);
            }
        }
        Ok(result)
    }
}

/// In a container framing, the nonce frame starts right after the salt
/// frame.
proof fn lemma_second_frame(gb: Seq<u8>, c: EncryptedData)
    requires
        gb == container_bytes(c),
    ensures
        prefix_at(gb, 8 + c.salt@.len() as int, framed(c.nonce@)),
{
    let i1 = 8 + c.salt@.len() as int;
    assert(gb.subrange(i1, i1 + framed(c.nonce@).len() as int) =~= framed(c.nonce@));
}

/// In a container framing, the ciphertext frame starts right after the
/// nonce frame.
proof fn lemma_third_frame(gb: Seq<u8>, c: EncryptedData)
    requires
        gb == container_bytes(c),
    ensures
        prefix_at(gb, 16 + c.salt@.len() + c.nonce@.len() as int, framed(c.ciphertext@)),
{
    let i2 = 16 + c.salt@.len() + c.nonce@.len() as int;
    assert(gb.subrange(i2, i2 + framed(c.ciphertext@).len() as int) =~= framed(c.ciphertext@));
}

/// In a container framing, the hash frame is the final frame: it starts
/// right after the ciphertext frame and runs to the end.
proof fn lemma_fourth_frame(gb: Seq<u8>, c: EncryptedData)
    requires
        gb == container_bytes(c),
    ensures
        prefix_at(
            gb,
            24 + c.salt@.len() + c.nonce@.len() + c.ciphertext@.len() as int,
            framed(encode_utf8(c.password_hash@)),
        ),
        gb.len() == 32 + c.salt@.len() + c.nonce@.len() + c.ciphertext@.len() + encode_utf8(
            c.password_hash@,
        ).len(),
{
    let i3 = 24 + c.salt@.len() + c.nonce@.len() + c.ciphertext@.len() as int;
    assert(gb.subrange(i3, i3 + framed(encode_utf8(c.password_hash@)).len() as int) =~= framed(
        encode_utf8(c.password_hash@),
    ));
}

} // verus!
