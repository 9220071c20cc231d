use r_auth::totp::TOTP;

// The RFC 6238 test key: ASCII "12345678901234567890", Base32-encoded.
const RFC_SECRET: &str = "GEZDGNBVGY3TQOJQGEZDGNBVGY3TQOJQ";

#[test]
fn rfc6238_vector_t59() {
    let totp = TOTP::new(RFC_SECRET).unwrap();
    assert_eq!(totp.generate(59).unwrap(), "287082");
}

#[test]
fn rfc6238_vector_t1111111109() {
    let totp = TOTP::new(RFC_SECRET).unwrap();
    assert_eq!(totp.generate(1111111109).unwrap(), "081804");
}

#[test]
fn rfc6238_vector_t1234567890() {
    let totp = TOTP::new(RFC_SECRET).unwrap();
    assert_eq!(totp.generate(1234567890).unwrap(), "005924");
}

#[test]
fn code_is_six_zero_padded_digits() {
    let totp = TOTP::new(RFC_SECRET).unwrap();
    for &t in &[0u64, 59, 1111111109, 1234567890, 20000000000] {
        let code = totp.generate(t).unwrap();
        assert_eq!(code.len(), 6);
        assert!(code.chars().all(|c| c.is_ascii_digit()));
    }
}

#[test]
fn same_window_same_code_adjacent_differs() {
    let totp = TOTP::new(RFC_SECRET).unwrap();
    // 30..=59 is one window.
    assert_eq!(totp.generate(30).unwrap(), totp.generate(59).unwrap());
    assert_eq!(totp.generate(45).unwrap(), totp.generate(59).unwrap());
    assert_eq!(totp.generate(0).unwrap(), totp.generate(29).unwrap());
    // Sample adjacent windows: for this key they all differ.
    assert_ne!(totp.generate(29).unwrap(), totp.generate(30).unwrap());
    assert_ne!(totp.generate(59).unwrap(), totp.generate(60).unwrap());
    assert_ne!(
        totp.generate(1111111109).unwrap(),
        totp.generate(1111111110).unwrap()
    );
}

#[test]
fn invalid_base32_is_rejected() {
    assert!(TOTP::new("not-base32!!").is_err());
    assert!(TOTP::new("lowercase").is_err());
    assert!(TOTP::new("0189").is_err());
}

#[test]
fn empty_secret_decodes_to_empty_key() {
    // "" is valid Base32 for the empty byte string; the algorithm still runs.
    let totp = TOTP::new("").unwrap();
    let code = totp.generate(59).unwrap();
    assert_eq!(code.len(), 6);
}

#[test]
fn now_runs_on_a_working_clock() {
    let totp = TOTP::new(RFC_SECRET).unwrap();
    let code = totp.now().unwrap();
    assert_eq!(code.len(), 6);
    assert!(code.chars().all(|c| c.is_ascii_digit()));
}

#[test]
fn provisioning_uri_format() {
    let totp = TOTP::new("JBSWY3DPEHPK3PXP").unwrap();
    let uri = totp.provisioning_uri("Account Name", "CLI Authenticator");
    assert_eq!(
        uri,
        "otpauth://totp/Account+Name?secret=JBSWY3DPEHPK3PXP&digits=6&period=30&issuer=CLI+Authenticator"
    );
}

#[test]
fn provisioning_uri_escapes_padding() {
    // A 1-byte secret Base32-encodes with padding; '=' must be percent-encoded.
    let totp = TOTP::new("AA======").unwrap();
    let uri = totp.provisioning_uri("a&b", "x=y");
    assert_eq!(
        uri,
        "otpauth://totp/a%26b?secret=AA%3D%3D%3D%3D%3D%3D&digits=6&period=30&issuer=x%3Dy"
    );
}
