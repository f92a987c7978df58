use rspass::aead::fresh_nonce;
use rspass::errors::VaultError;
use rspass::kdf::EncryptionKey;

#[test]
fn thousand_nonce_draws_are_distinct() {
    let mut nonces: Vec<Vec<u8>> = Vec::new();
    for _ in 0..1000 {
        let n = fresh_nonce();
        assert_eq!(n.len(), 12);
        nonces.push(n);
    }
    let mut sorted = nonces.clone();
    sorted.sort();
    for pair in sorted.windows(2) {
        assert_ne!(pair[0], pair[1]);
    }
}

#[test]
fn salts_are_fresh_and_sized() {
    let a = EncryptionKey::generate_salt();
    let b = EncryptionKey::generate_salt();
    assert_eq!(a.len(), 32);
    assert_eq!(b.len(), 32);
    assert_ne!(a, b);
}

#[test]
fn derivation_is_deterministic_in_password_and_salt() {
    let salt = EncryptionKey::generate_salt();
    let k1 = EncryptionKey::derive_from_password("hunter2", &salt);
    let k2 = EncryptionKey::derive_from_password("hunter2", &salt);
    assert_eq!(k1.unwrap().as_slice(), k2.unwrap().as_slice());
}

#[test]
fn different_salts_give_different_keys() {
    let s1 = EncryptionKey::generate_salt();
    let s2 = EncryptionKey::generate_salt();
    let k1 = EncryptionKey::derive_from_password("hunter2", &s1).unwrap();
    let k2 = EncryptionKey::derive_from_password("hunter2", &s2).unwrap();
    assert_ne!(k1.as_slice(), k2.as_slice());
}

#[test]
fn password_hash_verifies_its_own_password_only() {
    let hash = EncryptionKey::hash_password("hunter2").unwrap();
    assert!(EncryptionKey::verify_password("hunter2", &hash).unwrap());
    assert!(!EncryptionKey::verify_password("hunter3", &hash).unwrap());
}

#[test]
fn malformed_hash_string_is_a_derivation_error() {
    let err = EncryptionKey::verify_password("pw", "not a phc string").unwrap_err();
    assert_eq!(err, VaultError::DerivationError);
}
