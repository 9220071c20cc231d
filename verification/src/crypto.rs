use vstd::prelude::*;
use vstd::string::StringExecFns;

use secrecy::ExposeSecret;

use crate::error::AuthError;

verus! {

// ---------------------------------------------------------------------------
// Names for results of outside computations.
// ---------------------------------------------------------------------------

/// Whether a text parses as an age x25519 identity; a function of the text
/// alone.
pub uninterp spec fn age_identity_ok(identity: Seq<char>) -> bool;

/// What age authenticated decryption returns for an identity text and a
/// ciphertext: Some of the plaintext exactly when the ciphertext was produced
/// for that identity and is intact; a function of its arguments alone.
pub uninterp spec fn age_decrypt_of(identity: Seq<char>, ciphertext: Seq<u8>) -> Option<Seq<u8>>;

// ---------------------------------------------------------------------------
// Declarations of the outside types the credential store hands around.
// ---------------------------------------------------------------------------

#[verifier::external_type_specification]
#[verifier::external_body]
pub struct ExKeyringEntry(keyring::Entry);

#[verifier::external_type_specification]
#[verifier::external_body]
pub struct ExKeyringError(keyring::Error);

/// Relies on keyring::Entry::new: a handle on the store entry for a service
/// and user pair. Nothing is promised of the store's state.
pub assume_specification[ keyring::Entry::new ](service: &str, user: &str) -> Result<
    keyring::Entry,
    keyring::Error,
>;

/// Relies on keyring::Entry::get_password: the stored secret, or an error
/// (among them: no entry exists). The store is outside state, so nothing is
/// promised of the outcome.
pub assume_specification[ keyring::Entry::get_password ](entry: &keyring::Entry) -> Result<
    String,
    keyring::Error,
>;

/// Relies on keyring::Entry::set_password: stores the secret, or reports a
/// store failure.
pub assume_specification[ keyring::Entry::set_password ](
    entry: &keyring::Entry,
    password: &str,
) -> Result<(), keyring::Error>;

/// Relies on keyring::Entry::delete_credential: removes the entry, or reports
/// a store failure (among them: no entry exists).
pub assume_specification[ keyring::Entry::delete_credential ](entry: &keyring::Entry) -> Result<
    (),
    keyring::Error,
>;

// ---------------------------------------------------------------------------
// Trusted wrappers around age.
// ---------------------------------------------------------------------------

/// Relies on age::x25519::Identity::generate and to_string: a fresh identity,
/// serialized in the textual form that parsing accepts again.
#[verifier::external_body]
fn age_generate_identity() -> (r: String)
    ensures
        age_identity_ok(r@),
{
    age::x25519::Identity::generate().to_string().expose_secret().clone()
}

/// Relies on str::parse::<age::x25519::Identity>: whether the text is a
/// well-formed serialized identity.
#[verifier::external_body]
fn age_identity_check(identity: &str) -> (r: bool)
    ensures
        r == age_identity_ok(identity@),
{
    identity.parse::<age::x25519::Identity>().is_ok()
}

/// Relies on age::Encryptor::with_recipients and wrap_output, with the parsed
/// identity's public half as sole recipient: fails exactly when the identity
/// text does not parse (writing to an in-memory buffer cannot fail), and the
/// self-describing ciphertext — never empty, it always carries a header —
/// decrypts back to the plaintext under the same identity. Fresh ephemeral
/// randomness makes each ciphertext differ.
#[verifier::external_body]
fn age_encrypt(identity: &str, data: &[u8]) -> (r: Option<Vec<u8>>)
    ensures
        r is Some <==> age_identity_ok(identity@),
        r matches Some(ct) ==> age_decrypt_of(identity@, ct@) == Some(data@) && ct@.len() > 0,
{
    let key: age::x25519::Identity = match identity.parse() {
        Ok(k) => k,
        Err(_) => return None,
    };
    let encryptor = age::Encryptor::with_recipients(vec![Box::new(key.to_public())])?;
    let mut out = Vec::new();
    let mut writer = encryptor.wrap_output(&mut out).ok()?;
    std::io::Write::write_all(&mut writer, data).ok()?;
    writer.finish().ok()?;
    Some(out)
}

/// Relies on age::Decryptor with the parsed identity: authenticated
/// decryption, a pure function of identity text and ciphertext; any
/// truncation or bit-flip is detected and reported as None.
#[verifier::external_body]
fn age_decrypt(identity: &str, data: &[u8]) -> (r: Option<Vec<u8>>)
    ensures
        match r {
            Some(p) => age_decrypt_of(identity@, data@) == Some(p@),
            None => age_decrypt_of(identity@, data@) is None,
        },
{
    let key: age::x25519::Identity = match identity.parse() {
        Ok(k) => k,
        Err(_) => return None,
    };
    let decryptor = match age::Decryptor::new(data) {
        Ok(age::Decryptor::Recipients(d)) => d,
        _ => return None,
    };
    let mut out = Vec::new();
    let mut reader = decryptor.decrypt(std::iter::once(&key as &dyn age::Identity)).ok()?;
    std::io::Read::read_to_end(&mut reader, &mut out).ok()?;
    Some(out)
}

// ---------------------------------------------------------------------------
// The engine.
// ---------------------------------------------------------------------------

/// The encryption engine: one long-lived asymmetric identity, kept in the OS
/// credential store under a fixed (service, user) pair, with its lifecycle
/// state (absent or present) held explicitly.
///
/// Which store backs the entry is chosen by the keyring crate's cargo
/// features. With no platform store enabled, keyring falls back to its
/// in-process mock store: the identity then does not outlive the process, so
/// a vault sealed in one run cannot be opened in the next. Enable one of
/// keyring's platform stores for durable identities.
pub struct Crypto {
    key: Option<String>,
}

/// The decryption outcome that the identity state and the ciphertext
/// determine.
pub open spec fn spec_decrypt(key: Option<Seq<char>>, ciphertext: Seq<u8>) -> Result<
    Seq<u8>,
    AuthError,
> {
    match key {
        Option::None => Err(AuthError::IdentityMissing),
        Option::Some(k) => match age_decrypt_of(k, ciphertext) {
            Option::Some(p) => Ok(p),
            Option::None => Err(AuthError::DecryptionFailed),
        },
    }
}

/// What one initialization call may do to the identity state: create it where
/// none was, refuse where one is.
pub open spec fn init_transition(
    pre: Option<Seq<char>>,
    post: Option<Seq<char>>,
    r: Result<(), AuthError>,
) -> bool {
    match r {
        Ok(u) => pre is None && post is Some,
        Err(e) => match e {
            AuthError::IdentityAlreadyExists => pre is Some && post == pre,
            AuthError::KeyringError(m) => pre is None && post == pre,
            _ => false,
        },
    }
}

/// The fixed credential-store entry this library uses.
fn keyring_entry() -> Result<keyring::Entry, keyring::Error> {
    keyring::Entry::new("r-auth", "encryption_key")
}

impl Crypto {
    /// The identity state: the serialized identity, if one is present.
    pub closed spec fn key_state(&self) -> Option<Seq<char>> {
        match self.key {
            Option::Some(k) => Some(k@),
            Option::None => None,
        }
    }

    /// A present identity is always a parseable one.
    pub open spec fn wf(&self) -> bool {
        self.key_state() matches Some(k) ==> age_identity_ok(k)
    }

    /// Loads the identity state from the credential store: present when the
    /// entry holds a parseable identity, absent when the store has none. An
    /// entry that holds something unparseable is a store failure.
    pub fn new() -> (r: Result<Crypto, AuthError>)
        ensures
            r matches Ok(c) ==> c.wf(),
            r matches Err(e) ==> e matches AuthError::KeyringError(m),
    {
        let entry = match keyring_entry() {
            Ok(e) => e,
            Err(e) => {
                return Err(AuthError::KeyringError(e.to_string()));
            },
        };
        match entry.get_password() {
            Ok(k) => {
                if age_identity_check(k.as_str()) {
                    Ok(Crypto { key: Some(k) })
                } else {
                    Err(
                        AuthError::KeyringError(
                            String::from_str("stored encryption key is not a valid identity"),
                        ),
                    )
                }
            },
            Err(_) => Ok(Crypto { key: None }),
        }
    }

    /// Whether an identity is present.
    pub fn key_exists(&self) -> (r: Result<bool, AuthError>)
        ensures
            r matches Ok(b) && b == (self.key_state() is Some),
    {
        match &self.key {
            Some(k) => Ok(true),
            None => Ok(false),
        }
    }

    /// Creates the one identity: generates a fresh keypair and stores its
    /// serialized private form. Fails with IdentityAlreadyExists when called
    /// while an identity is present; this is the only path that creates key
    /// material.
    pub fn init(&mut self) -> (r: Result<(), AuthError>)
        requires
            old(self).wf(),
        ensures
            final(self).wf(),
            init_transition(old(self).key_state(), final(self).key_state(), r),
    {
        if self.key.is_some() {
            return Err(AuthError::IdentityAlreadyExists);
        }
        let entry = match keyring_entry() {
            Ok(e) => e,
            Err(e) => {
                return Err(AuthError::KeyringError(e.to_string()));
            },
        };
        let k = age_generate_identity();
        match entry.set_password(k.as_str()) {
            Ok(u) => {
                self.key = Some(k);
                Ok(())
            },
            Err(e) => Err(AuthError::KeyringError(e.to_string())),
        }
    }

    /// Authenticated encryption of a byte blob to the present identity. The
    /// ciphertext is self-describing and fresh randomness makes each call's
    /// output differ; what is promised is that it decrypts back to the
    /// plaintext under this identity.
    pub fn encrypt(&self, data: &[u8]) -> (r: Result<Vec<u8>, AuthError>)
        requires
            self.wf(),
        ensures
            match r {
                Ok(ct) => {
                    &&& self.key_state() matches Some(k)
                    &&& age_decrypt_of(k, ct@) == Some(data@)
                    &&& ct@.len() > 0
                },
                Err(e) => e is IdentityMissing && self.key_state() is None,
            },
    {
        match &self.key {
            Some(k) => match age_encrypt(k.as_str(), data) {
                Some(ct) => Ok(ct),
                None => vstd::pervasive::unreached(),
            },
            None => Err(AuthError::IdentityMissing),
        }
    }

    /// Authenticated decryption under the present identity: returns exactly
    /// what the identity state and ciphertext determine.
    pub fn decrypt(&self, data: &[u8]) -> (r: Result<Vec<u8>, AuthError>)
        requires
            self.wf(),
        ensures
            match r {
                Ok(p) => spec_decrypt(self.key_state(), data@) == Ok::<Seq<u8>, AuthError>(p@),
                Err(e) => spec_decrypt(self.key_state(), data@) == Err::<Seq<u8>, AuthError>(e),
            },
    {
        match &self.key {
            Some(k) => match age_decrypt(k.as_str(), data) {
                Some(p) => Ok(p),
                None => Err(AuthError::DecryptionFailed),
            },
            None => Err(AuthError::IdentityMissing),
        }
    }

    /// Deletes the credential-store entry; on success the identity is absent.
    pub fn reset(&mut self) -> (r: Result<(), AuthError>)
        requires
            old(self).wf(),
        ensures
            final(self).wf(),
            match r {
                Ok(u) => final(self).key_state() is None,
                Err(e) => e matches AuthError::KeyringError(_) && *final(self) == *old(self),
            },
    {
        let entry = match keyring_entry() {
            Ok(e) => e,
            Err(e) => {
                return Err(AuthError::KeyringError(e.to_string()));
            },
        };
        match entry.delete_credential() {
            Ok(u) => {
                self.key = None;
                Ok(())
            },
            Err(e) => Err(AuthError::KeyringError(e.to_string())),
        }
    }
}

// ---------------------------------------------------------------------------
// Laws.
// ---------------------------------------------------------------------------

/// Law: decrypting what encrypt produced under the same identity yields
/// exactly the original plaintext (encrypt only returns ciphertexts whose
/// decryption under its identity is the plaintext).
pub proof fn lemma_decrypt_inverts_encrypt(key: Seq<char>, plaintext: Seq<u8>, ciphertext: Seq<u8>)
    requires
        age_decrypt_of(key, ciphertext) == Some(plaintext),
    ensures
        spec_decrypt(Some(key), ciphertext) == Ok::<Seq<u8>, AuthError>(plaintext),
{
}

/// Law: a ciphertext that was not produced for the present identity — one
/// whose authenticated decryption yields nothing — fails with
/// DecryptionFailed, never with silently corrupted plaintext.
pub proof fn lemma_foreign_ciphertext_rejected(key: Seq<char>, ciphertext: Seq<u8>)
    requires
        age_decrypt_of(key, ciphertext) is None,
    ensures
        spec_decrypt(Some(key), ciphertext) == Err::<Seq<u8>, AuthError>(
            AuthError::DecryptionFailed,
        ),
{
}

/// Law: a second initialization without an intervening destroy fails with
/// IdentityAlreadyExists and leaves the identity state unchanged.
pub proof fn lemma_second_initialize_fails(
    k0: Option<Seq<char>>,
    k1: Option<Seq<char>>,
    r1: Result<(), AuthError>,
    k2: Option<Seq<char>>,
    r2: Result<(), AuthError>,
)
    requires
        init_transition(k0, k1, r1),
        r1 is Ok,
        init_transition(k1, k2, r2),
    ensures
        r2 matches Err(e) && e is IdentityAlreadyExists,
        k2 == k1,
{
}

} // verus!
