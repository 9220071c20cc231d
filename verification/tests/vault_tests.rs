use r_auth::authenticator::TOTPAuthenticator;
use r_auth::crypto::Crypto;
use r_auth::error::AuthError;

const SECRET: &str = "GEZDGNBVGY3TQOJQGEZDGNBVGY3TQOJQ";

fn initialized_crypto() -> Crypto {
    let mut c = Crypto::new().unwrap();
    c.init().unwrap();
    c
}

#[test]
fn absent_file_is_an_empty_vault() {
    let v = TOTPAuthenticator::new(None, initialized_crypto()).unwrap();
    assert!(v.list_accounts().is_empty());
}

#[test]
fn zero_length_file_is_an_empty_vault() {
    let v = TOTPAuthenticator::new(Some(Vec::new()), initialized_crypto()).unwrap();
    assert!(v.list_accounts().is_empty());
}

#[test]
fn missing_identity_blocks_vault_operations() {
    let c = Crypto::new().unwrap();
    let r = TOTPAuthenticator::new(None, c);
    assert!(matches!(r, Err(AuthError::IdentityMissing)));
}

#[test]
fn garbage_file_is_corrupt_storage() {
    let r = TOTPAuthenticator::new(
        Some(b"this is not a ciphertext".to_vec()),
        initialized_crypto(),
    );
    assert!(matches!(r, Err(AuthError::CorruptStorage)));
}

#[test]
fn ciphertext_of_non_mapping_is_corrupt_storage() {
    let mut v = TOTPAuthenticator::new(None, initialized_crypto()).unwrap();
    v.add_account("a", Some(SECRET)).unwrap();
    let ct = v.crypto.encrypt(b"[1, 2, 3]").unwrap();
    let r = TOTPAuthenticator::new(Some(ct), v.crypto);
    assert!(matches!(r, Err(AuthError::CorruptStorage)));
}

#[test]
fn empty_name_is_rejected_and_nothing_changes() {
    let mut v = TOTPAuthenticator::new(None, initialized_crypto()).unwrap();
    let r = v.add_account("", Some(SECRET));
    assert!(matches!(r, Err(AuthError::EmptyName)));
    let r = v.add_account("   ", Some(SECRET));
    assert!(matches!(r, Err(AuthError::EmptyName)));
    assert!(v.list_accounts().is_empty());
}

#[test]
fn whitespace_only_names_are_rejected_like_trim() {
    // Everything str::trim removes counts as blank: ASCII controls and the
    // wider Unicode whitespace alike.
    let mut v = TOTPAuthenticator::new(None, initialized_crypto()).unwrap();
    for name in ["\u{000B}", "\u{000C}", "\u{00A0}", "\u{2003}\u{3000}", " \t\r\n\u{2028}"] {
        assert_eq!(name.trim(), "");
        let r = v.add_account(name, Some(SECRET));
        assert!(matches!(r, Err(AuthError::EmptyName)));
    }
    // A zero-width space is not whitespace; such a name is accepted.
    assert_ne!("\u{200B}".trim(), "");
    assert!(v.add_account("\u{200B}", Some(SECRET)).is_ok());
    assert_eq!(v.list_accounts().len(), 1);
}

#[test]
fn invalid_secret_is_rejected_and_account_is_absent() {
    let mut v = TOTPAuthenticator::new(None, initialized_crypto()).unwrap();
    let r = v.add_account("work", Some("not-base32!!"));
    assert!(matches!(r, Err(AuthError::InvalidEncoding)));
    assert!(v.list_accounts().is_empty());
    assert!(v.get_code("work").is_none());
}

#[test]
fn add_returns_secret_and_uri() {
    let mut v = TOTPAuthenticator::new(None, initialized_crypto()).unwrap();
    let (secret, uri) = v.add_account("work", Some(SECRET)).unwrap();
    assert_eq!(secret, SECRET);
    assert_eq!(
        uri,
        format!("otpauth://totp/work?secret={}&digits=6&period=30&issuer=CLI+Authenticator", SECRET)
    );
    assert_eq!(v.list_accounts(), vec!["work".to_string()]);
}

#[test]
fn add_generates_a_valid_secret_when_none_is_given() {
    let mut v = TOTPAuthenticator::new(None, initialized_crypto()).unwrap();
    let (secret, _uri) = v.add_account("auto", None).unwrap();
    // 20 random bytes Base32-encode to 32 characters, no padding.
    assert_eq!(secret.len(), 32);
    assert!(secret.bytes().all(|b| b.is_ascii_uppercase() || (b'2'..=b'7').contains(&b)));
    let decoded = base32::decode(base32::Alphabet::Rfc4648 { padding: true }, &secret).unwrap();
    assert_eq!(decoded.len(), 20);
    let code = v.get_code("auto").unwrap();
    assert_eq!(code.len(), 6);
    assert!(code.chars().all(|c| c.is_ascii_digit()));
}

#[test]
fn readding_a_name_replaces_its_secret() {
    let mut v = TOTPAuthenticator::new(None, initialized_crypto()).unwrap();
    v.add_account("dup", Some(SECRET)).unwrap();
    let (generated, _) = v.add_account("dup", None).unwrap();
    assert_eq!(v.list_accounts().len(), 1);
    assert_ne!(generated, SECRET);
}

#[test]
fn remove_absent_name_returns_false_and_changes_nothing() {
    let mut v = TOTPAuthenticator::new(None, initialized_crypto()).unwrap();
    v.add_account("keep", Some(SECRET)).unwrap();
    let before = v.save_accounts().unwrap();
    let before_plain = v.crypto.decrypt(&before).unwrap();

    assert_eq!(v.remove_account("never added"), false);

    let after = v.save_accounts().unwrap();
    let after_plain = v.crypto.decrypt(&after).unwrap();
    assert_eq!(before_plain, after_plain);
    assert_eq!(v.list_accounts(), vec!["keep".to_string()]);
}

#[test]
fn remove_present_name_returns_true() {
    let mut v = TOTPAuthenticator::new(None, initialized_crypto()).unwrap();
    v.add_account("gone", Some(SECRET)).unwrap();
    assert_eq!(v.remove_account("gone"), true);
    assert!(v.list_accounts().is_empty());
    assert!(v.get_code("gone").is_none());
}

#[test]
fn get_code_on_absent_name_is_none() {
    let v = TOTPAuthenticator::new(None, initialized_crypto()).unwrap();
    assert!(v.get_code("nobody").is_none());
}

#[test]
fn save_and_reload_round_trip() {
    let mut v = TOTPAuthenticator::new(None, initialized_crypto()).unwrap();
    v.add_account("alpha", Some(SECRET)).unwrap();
    v.add_account("beta", Some("JBSWY3DPEHPK3PXP")).unwrap();
    let ct = v.save_accounts().unwrap();

    let v2 = TOTPAuthenticator::new(Some(ct), v.crypto).unwrap();
    let mut names = v2.list_accounts();
    names.sort();
    assert_eq!(names, vec!["alpha".to_string(), "beta".to_string()]);
    assert!(v2.get_code("alpha").is_some());
    assert!(v2.get_code("beta").is_some());
}

#[test]
fn round_trip_keeps_names_that_need_escaping() {
    let mut v = TOTPAuthenticator::new(None, initialized_crypto()).unwrap();
    let odd = "he said \"hi\\there\"\tand\nleft";
    v.add_account(odd, Some(SECRET)).unwrap();
    v.add_account("émile's café", Some(SECRET)).unwrap();
    let ct = v.save_accounts().unwrap();

    let v2 = TOTPAuthenticator::new(Some(ct), v.crypto).unwrap();
    let names = v2.list_accounts();
    assert_eq!(names.len(), 2);
    assert!(names.contains(&odd.to_string()));
    assert!(names.contains(&"émile's café".to_string()));
    assert!(v2.get_code(odd).is_some());
}

#[test]
fn stored_document_is_readable_json_with_whitespace_tolerance() {
    // A document with whitespace between tokens, as other writers produce it,
    // loads the same mapping.
    let crypto = initialized_crypto();
    let doc = format!("{{\n  \"pretty\": \"{}\"\n}}\n", SECRET);
    let ct = crypto.encrypt(doc.as_bytes()).unwrap();
    let v = TOTPAuthenticator::new(Some(ct), crypto).unwrap();
    assert_eq!(v.list_accounts(), vec!["pretty".to_string()]);
    assert!(v.get_code("pretty").is_some());
}

#[test]
fn control_character_escapes_read_back() {
    let crypto = initialized_crypto();
    let doc = format!("{{\"tab\\u0009name\": \"{}\"}}", SECRET);
    let ct = crypto.encrypt(doc.as_bytes()).unwrap();
    let v = TOTPAuthenticator::new(Some(ct), crypto).unwrap();
    assert_eq!(v.list_accounts(), vec!["tab\tname".to_string()]);
}

#[test]
fn duplicate_keys_in_a_document_keep_the_last() {
    let crypto = initialized_crypto();
    let doc = format!(
        "{{\"twice\": \"{}\", \"twice\": \"JBSWY3DPEHPK3PXP\"}}",
        SECRET
    );
    let ct = crypto.encrypt(doc.as_bytes()).unwrap();
    let v = TOTPAuthenticator::new(Some(ct), crypto).unwrap();
    assert_eq!(v.list_accounts(), vec!["twice".to_string()]);
}
