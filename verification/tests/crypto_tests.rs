use memvault::crypto::CryptoManager;
use memvault::errors::CryptoError;

#[test]
fn encrypt_decrypt_round_trip() {
    let crypto = CryptoManager::new();
    let key = crypto.generate_key().unwrap();
    assert_eq!(key.len(), 32);
    let payload = b"the quick brown fox jumps over the lazy dog".to_vec();
    let blob = crypto.encrypt_data(&payload, &key).unwrap();
    assert_eq!(blob.len(), payload.len() + 12 + 16);
    let back = crypto.decrypt_data(&blob, &key).unwrap();
    assert_eq!(back, payload);
}

#[test]
fn encrypt_empty_round_trip() {
    let crypto = CryptoManager::new();
    let key = crypto.generate_key().unwrap();
    let blob = crypto.encrypt_data(&[], &key).unwrap();
    assert_eq!(blob.len(), 28);
    let back = crypto.decrypt_data(&blob, &key).unwrap();
    assert!(back.is_empty());
}

#[test]
fn tamper_nonce_fails_authentication() {
    let crypto = CryptoManager::new();
    let key = crypto.generate_key().unwrap();
    let mut blob = crypto.encrypt_data(b"payload", &key).unwrap();
    blob[0] ^= 0x01;
    assert_eq!(
        crypto.decrypt_data(&blob, &key),
        Err(CryptoError::AuthenticationFailed)
    );
}

#[test]
fn tamper_ciphertext_fails_authentication() {
    let crypto = CryptoManager::new();
    let key = crypto.generate_key().unwrap();
    let mut blob = crypto.encrypt_data(b"payload", &key).unwrap();
    let mid = 12 + 3;
    blob[mid] ^= 0x80;
    assert_eq!(
        crypto.decrypt_data(&blob, &key),
        Err(CryptoError::AuthenticationFailed)
    );
}

#[test]
fn tamper_tag_fails_authentication() {
    let crypto = CryptoManager::new();
    let key = crypto.generate_key().unwrap();
    let mut blob = crypto.encrypt_data(b"payload", &key).unwrap();
    let last = blob.len() - 1;
    blob[last] ^= 0x01;
    assert_eq!(
        crypto.decrypt_data(&blob, &key),
        Err(CryptoError::AuthenticationFailed)
    );
}

#[test]
fn wrong_key_fails_authentication() {
    let crypto = CryptoManager::new();
    let key = crypto.generate_key().unwrap();
    let other = crypto.generate_key().unwrap();
    let blob = crypto.encrypt_data(b"payload", &key).unwrap();
    assert_eq!(
        crypto.decrypt_data(&blob, &other),
        Err(CryptoError::AuthenticationFailed)
    );
}

#[test]
fn decrypt_short_blob_is_too_short() {
    let crypto = CryptoManager::new();
    let key = crypto.generate_key().unwrap();
    assert_eq!(
        crypto.decrypt_data(&[1, 2, 3], &key),
        Err(CryptoError::TooShort)
    );
}

#[test]
fn password_hash_verifies() {
    let crypto = CryptoManager::new();
    let hash = crypto.hash_password("correct-horse").unwrap();
    assert_eq!(crypto.verify_password("correct-horse", &hash), Ok(true));
}

#[test]
fn password_mismatch_is_false() {
    let crypto = CryptoManager::new();
    let hash = crypto.hash_password("correct-horse").unwrap();
    assert_eq!(crypto.verify_password("battery-staple", &hash), Ok(false));
}

#[test]
fn password_hashes_use_distinct_salts() {
    let crypto = CryptoManager::new();
    let first = crypto.hash_password("same-password").unwrap();
    let second = crypto.hash_password("same-password").unwrap();
    assert_ne!(first, second);
}

#[test]
fn malformed_hash_is_invalid_format() {
    let crypto = CryptoManager::new();
    assert_eq!(
        crypto.verify_password("anything", "not a phc hash"),
        Err(CryptoError::InvalidFormat)
    );
}

#[test]
fn derived_keys_are_deterministic() {
    let crypto = CryptoManager::new();
    let salt = crypto.generate_salt().unwrap();
    let first = crypto.derive_key("correct-horse", &salt).unwrap();
    let second = crypto.derive_key("correct-horse", &salt).unwrap();
    assert_eq!(first, second);
    assert_eq!(first.len(), 32);
}

#[test]
fn crypto_error_descriptions() {
    assert_eq!(
        CryptoError::TooShort.describe(),
        "encrypted data too short"
    );
    assert_eq!(
        CryptoError::AuthenticationFailed.describe(),
        "authentication failed"
    );
}
