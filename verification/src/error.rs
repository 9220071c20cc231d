use vstd::prelude::*;

verus! {

/// The closed set of failures this library reports. Callers branch on the
/// variant, never on a message string.
#[derive(Debug)]
pub enum AuthError {
    /// An account name was empty (or only whitespace).
    EmptyName,
    /// A secret was not valid Base32 (RFC 4648, padded).
    InvalidEncoding,
    /// The system clock could not be read.
    ClockError,
    /// Initialization was requested while an encryption identity already exists.
    IdentityAlreadyExists,
    /// An operation that needs the encryption identity found none.
    IdentityMissing,
    /// Authenticated decryption failed: wrong identity, truncation, or tampering.
    DecryptionFailed,
    /// The vault file decrypted, but its contents are not a well-formed mapping.
    CorruptStorage,
    /// The credential store failed for a reason other than a missing entry.
    KeyringError(String),
}

impl AuthError {
    /// A short human-readable description, for display by callers.
    pub fn message(&self) -> String {
        match self {
            AuthError::EmptyName => String::from_str("account name cannot be empty"),
            AuthError::InvalidEncoding => String::from_str("secret is not valid Base32"),
            AuthError::ClockError => String::from_str("system clock could not be read"),
            AuthError::IdentityAlreadyExists => String::from_str(
                "encryption key already exists",
            ),
            AuthError::IdentityMissing => String::from_str(
                "encryption key not found; initialize first",
            ),
            AuthError::DecryptionFailed => String::from_str("decryption failed"),
            AuthError::CorruptStorage => String::from_str("stored vault data is malformed"),
            AuthError::KeyringError(m) => String::from_str(m.as_str()),
        }
    }
}

} // verus!
