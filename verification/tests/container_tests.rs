use rspass::container::EncryptedData;
use rspass::errors::VaultError;

#[test]
fn encrypt_then_decrypt_returns_payload() {
    let payload = b"service: github, secret: g1";
    let c = EncryptedData::encrypt(payload, "hunter2").unwrap();
    assert_eq!(c.salt.len(), 32);
    assert_eq!(c.nonce.len(), 12);
    assert_eq!(c.ciphertext.len(), payload.len() + 16);
    let back = c.decrypt("hunter2").unwrap();
    assert_eq!(back, payload.to_vec());
}

#[test]
fn wrong_password_is_rejected_before_decryption() {
    let c = EncryptedData::encrypt(b"payload", "first password").unwrap();
    let err = c.decrypt("second password").unwrap_err();
    assert_eq!(err, VaultError::WrongPassword);
}

#[test]
fn empty_payload_round_trips() {
    let c = EncryptedData::encrypt(b"", "pw").unwrap();
    assert_eq!(c.ciphertext.len(), 16);
    assert_eq!(c.decrypt("pw").unwrap(), Vec::<u8>::new());
}

#[test]
fn bit_flips_in_ciphertext_fail_authentication() {
    let c = EncryptedData::encrypt(b"do not tamper", "hunter2").unwrap();
    let mid = c.ciphertext.len() / 2;
    // every bit of a middle byte, and one bit of the first and last bytes
    let mut cases: Vec<(usize, u8)> = (0..8u8).map(|b| (mid, 1u8 << b)).collect();
    cases.push((0, 0x01));
    cases.push((c.ciphertext.len() - 1, 0x80));
    for (idx, mask) in cases {
        let mut tampered = EncryptedData {
            nonce: c.nonce.clone(),
            ciphertext: c.ciphertext.clone(),
            salt: c.salt.clone(),
            password_hash: c.password_hash.clone(),
        };
        tampered.ciphertext[idx] ^= mask;
        let err = tampered.decrypt("hunter2").unwrap_err();
        assert_eq!(err, VaultError::AuthenticationError);
    }
}

#[test]
fn authentication_error_names_both_causes() {
    let msg = VaultError::AuthenticationError.message();
    assert!(msg.contains("wrong password"));
    assert!(msg.contains("corrupted data"));
}

#[test]
fn container_bytes_round_trip_without_crypto() {
    let c = EncryptedData {
        nonce: vec![9u8; 12],
        ciphertext: vec![1, 2, 3, 4, 5],
        salt: vec![7u8; 32],
        password_hash: "$argon2id$v=19$m=19456,t=2,p=1$c29tZXNhbHQ$digest".to_string(),
    };
    let bytes = c.to_bytes();
    // the first frame is the 32-byte salt: its little-endian length leads
    assert_eq!(&bytes[..8], &[32, 0, 0, 0, 0, 0, 0, 0]);
    let d = EncryptedData::from_bytes(&bytes).unwrap();
    assert_eq!(d.nonce, c.nonce);
    assert_eq!(d.ciphertext, c.ciphertext);
    assert_eq!(d.salt, c.salt);
    assert_eq!(d.password_hash, c.password_hash);
}

#[test]
fn malformed_container_bytes_are_corrupt() {
    assert_eq!(
        EncryptedData::from_bytes(b"short").unwrap_err(),
        VaultError::VaultCorrupt
    );
    let c = EncryptedData {
        nonce: vec![0u8; 12],
        ciphertext: vec![0u8; 16],
        salt: vec![0u8; 32],
        password_hash: "x".to_string(),
    };
    let mut bytes = c.to_bytes();
    // trailing garbage must be refused
    bytes.push(0);
    assert_eq!(
        EncryptedData::from_bytes(&bytes).unwrap_err(),
        VaultError::VaultCorrupt
    );
}

#[test]
fn repeated_encryptions_draw_fresh_nonce_and_salt() {
    let a = EncryptedData::encrypt(b"same payload", "same password").unwrap();
    let b = EncryptedData::encrypt(b"same payload", "same password").unwrap();
    assert_ne!(a.nonce, b.nonce);
    assert_ne!(a.salt, b.salt);
    assert_ne!(a.ciphertext, b.ciphertext);
}
