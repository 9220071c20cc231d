use r_auth::crypto::Crypto;
use r_auth::error::AuthError;

// These tests run against the credential store the keyring crate provides in
// this configuration: an in-memory one, fresh per entry, so every test starts
// with no identity.

#[test]
fn fresh_engine_has_no_identity() {
    let c = Crypto::new().unwrap();
    assert_eq!(c.key_exists().unwrap(), false);
}

#[test]
fn initialize_creates_identity() {
    let mut c = Crypto::new().unwrap();
    c.init().unwrap();
    assert_eq!(c.key_exists().unwrap(), true);
}

#[test]
fn initialize_twice_fails_with_identity_already_exists() {
    let mut c = Crypto::new().unwrap();
    c.init().unwrap();
    let second = c.init();
    assert!(matches!(second, Err(AuthError::IdentityAlreadyExists)));
    // The identity is still in place.
    assert_eq!(c.key_exists().unwrap(), true);
}

#[test]
fn encrypt_without_identity_fails() {
    let c = Crypto::new().unwrap();
    assert!(matches!(c.encrypt(b"data"), Err(AuthError::IdentityMissing)));
}

#[test]
fn decrypt_without_identity_fails() {
    let c = Crypto::new().unwrap();
    assert!(matches!(c.decrypt(b"data"), Err(AuthError::IdentityMissing)));
}

#[test]
fn decrypt_inverts_encrypt() {
    let mut c = Crypto::new().unwrap();
    c.init().unwrap();
    let cases: Vec<Vec<u8>> = vec![
        b"".to_vec(),
        b"x".to_vec(),
        b"hello world".to_vec(),
        vec![0u8; 4096],
        (0u8..=255).collect(),
    ];
    for p in cases {
        let ct = c.encrypt(&p).unwrap();
        let back = c.decrypt(&ct).unwrap();
        assert_eq!(back, p);
    }
}

#[test]
fn encrypt_is_randomized_per_call() {
    let mut c = Crypto::new().unwrap();
    c.init().unwrap();
    let a = c.encrypt(b"same plaintext").unwrap();
    let b = c.encrypt(b"same plaintext").unwrap();
    assert_ne!(a, b);
}

#[test]
fn foreign_bytes_fail_with_decryption_failed() {
    let mut c = Crypto::new().unwrap();
    c.init().unwrap();
    assert!(matches!(
        c.decrypt(b"not an age ciphertext"),
        Err(AuthError::DecryptionFailed)
    ));
    assert!(matches!(c.decrypt(b""), Err(AuthError::DecryptionFailed)));
}

#[test]
fn tampered_ciphertext_is_rejected() {
    let mut c = Crypto::new().unwrap();
    c.init().unwrap();
    let mut ct = c.encrypt(b"integrity matters").unwrap();
    let last = ct.len() - 1;
    ct[last] ^= 0x01;
    assert!(matches!(c.decrypt(&ct), Err(AuthError::DecryptionFailed)));
}

#[test]
fn truncated_ciphertext_is_rejected() {
    let mut c = Crypto::new().unwrap();
    c.init().unwrap();
    let ct = c.encrypt(b"integrity matters").unwrap();
    let cut = &ct[..ct.len() / 2];
    assert!(matches!(c.decrypt(cut), Err(AuthError::DecryptionFailed)));
}

#[test]
fn ciphertext_of_another_identity_is_rejected() {
    let mut c1 = Crypto::new().unwrap();
    c1.init().unwrap();
    let mut c2 = Crypto::new().unwrap();
    c2.init().unwrap();
    let ct = c1.encrypt(b"for the first identity only").unwrap();
    assert!(matches!(c2.decrypt(&ct), Err(AuthError::DecryptionFailed)));
}

#[test]
fn reset_on_missing_entry_is_a_keyring_error() {
    // Deleting when the underlying store holds nothing is a store failure.
    let mut c = Crypto::new().unwrap();
    assert!(matches!(c.reset(), Err(AuthError::KeyringError(_))));
}
