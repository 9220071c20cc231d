use vstd::prelude::*;
use vstd::string::StringExecFns;

use crate::error::AuthError;

verus! {

// ---------------------------------------------------------------------------
// Names for results of outside computations. Each is a pure function of its
// arguments; the trusted wrappers below say which outside call returns it.
// ---------------------------------------------------------------------------

/// What HMAC-SHA1 returns for a key and a message.
pub uninterp spec fn hmac_sha1_of(key: Seq<u8>, msg: Seq<u8>) -> Seq<u8>;

/// What Base32 (RFC 4648, padded) encoding returns for a byte string.
pub uninterp spec fn b32_encode_of(data: Seq<u8>) -> Seq<char>;

/// What Base32 (RFC 4648, padded) decoding returns for a text: None where
/// the decoder refuses the text, Some of the decoded bytes otherwise.
pub uninterp spec fn b32_decode_of(text: Seq<char>) -> Option<Seq<u8>>;

/// What application/x-www-form-urlencoded serialization returns for a byte
/// string (percent-encoding by URI query rules).
pub uninterp spec fn form_enc_of(data: Seq<u8>) -> Seq<char>;

// ---------------------------------------------------------------------------
// Trusted wrappers around the outside calls.
// ---------------------------------------------------------------------------

/// Relies on hmac::Hmac<sha1::Sha1> (new_from_slice accepts keys of any
/// length, so it never fails): the MAC of the message under the key, a
/// 20-byte SHA-1 output, a function of key and message alone.
#[verifier::external_body]
fn hmac_sha1(key: &[u8], msg: &[u8]) -> (r: Vec<u8>)
    ensures
        r@ == hmac_sha1_of(key@, msg@),
        r@.len() == 20,
{
    let mut mac = <hmac::Hmac<sha1::Sha1> as hmac::Mac>::new_from_slice(key)
        .expect("HMAC accepts keys of any length");
    hmac::Mac::update(&mut mac, msg);
    hmac::Mac::finalize(mac).into_bytes().to_vec()
}

/// Relies on base32::encode with Alphabet::Rfc4648 { padding: true }; the
/// crate's own tests show decode inverts encode for this alphabet.
#[verifier::external_body]
pub(crate) fn b32_encode(data: &[u8]) -> (r: String)
    ensures
        r@ == b32_encode_of(data@),
        b32_decode_of(r@) == Some(data@),
{
    base32::encode(base32::Alphabet::Rfc4648 { padding: true }, data)
}

/// Relies on base32::decode with Alphabet::Rfc4648 { padding: true }: Some of
/// the decoded bytes, or None where the decoder refuses the text (it refuses
/// non-ASCII text and characters outside its table, but is lenient about
/// where padding stands).
#[verifier::external_body]
pub(crate) fn b32_decode(text: &str) -> (r: Option<Vec<u8>>)
    ensures
        match r {
            Some(v) => b32_decode_of(text@) == Some(v@),
            None => b32_decode_of(text@) is None,
        },
{
    base32::decode(base32::Alphabet::Rfc4648 { padding: true }, text)
}

/// Relies on std::time::SystemTime::now and duration_since(UNIX_EPOCH):
/// Some of the seconds since the Unix epoch, or None when the clock reads
/// before the epoch. Nothing can be promised of the value.
#[verifier::external_body]
fn unix_time_now() -> (r: Option<u64>) {
    match std::time::SystemTime::now().duration_since(std::time::UNIX_EPOCH) {
        Ok(d) => Some(d.as_secs()),
        Err(_) => None,
    }
}

/// Relies on url::form_urlencoded::byte_serialize: the percent-encoding of a
/// byte string by URI query rules, a function of the bytes alone.
#[verifier::external_body]
fn form_encode(data: &[u8]) -> (r: String)
    ensures
        r@ == form_enc_of(data@),
{
    url::form_urlencoded::byte_serialize(data).collect()
}

// ---------------------------------------------------------------------------
// The algorithm itself, stated as spec functions.
// ---------------------------------------------------------------------------

/// The HOTP counter for a Unix timestamp with the fixed 30-second step.
pub open spec fn spec_counter(timestamp: u64) -> u64 {
    timestamp / 30
}

/// A 64-bit counter as 8 big-endian bytes (RFC 4226 section 5.1).
pub open spec fn spec_be_bytes(x: u64) -> Seq<u8> {
    seq![
        (x >> 56) as u8,
        (x >> 48) as u8,
        (x >> 40) as u8,
        (x >> 32) as u8,
        (x >> 24) as u8,
        (x >> 16) as u8,
        (x >> 8) as u8,
        x as u8,
    ]
}

/// RFC 4226 section 5.4 dynamic truncation: a 31-bit integer read big-endian
/// at the offset given by the low nibble of the digest's last byte.
pub open spec fn spec_truncate(digest: Seq<u8>) -> u32 {
    let offset = (digest[19] & 0x0f) as int;
    let b0 = (digest[offset] & 0x7f) as u32;
    let b1 = digest[offset + 1] as u32;
    let b2 = digest[offset + 2] as u32;
    let b3 = digest[offset + 3] as u32;
    (b0 << 24) | (b1 << 16) | (b2 << 8) | b3
}

/// The character for one decimal digit.
pub open spec fn spec_digit(d: u32) -> char {
    if d == 0 {
        '0'
    } else if d == 1 {
        '1'
    } else if d == 2 {
        '2'
    } else if d == 3 {
        '3'
    } else if d == 4 {
        '4'
    } else if d == 5 {
        '5'
    } else if d == 6 {
        '6'
    } else if d == 7 {
        '7'
    } else if d == 8 {
        '8'
    } else {
        '9'
    }
}

/// A code value rendered as exactly 6 decimal digits, zero-padded.
pub open spec fn spec_code_chars(value: u32) -> Seq<char> {
    seq![
        spec_digit((value / 100000) % 10),
        spec_digit((value / 10000) % 10),
        spec_digit((value / 1000) % 10),
        spec_digit((value / 100) % 10),
        spec_digit((value / 10) % 10),
        spec_digit(value % 10),
    ]
}

/// The 6-digit TOTP code for a secret and a Unix timestamp: HMAC-SHA1 of the
/// 8-byte big-endian counter, dynamically truncated, reduced modulo 10^6
/// (RFC 6238 section 4.2 with the RFC-default parameters).
pub open spec fn spec_code(secret: Seq<u8>, timestamp: u64) -> Seq<char> {
    spec_code_chars(
        spec_truncate(hmac_sha1_of(secret, spec_be_bytes(spec_counter(timestamp)))) % 1000000,
    )
}

// ---------------------------------------------------------------------------
// Executable code.
// ---------------------------------------------------------------------------

/// A counter as 8 big-endian bytes.
fn be_bytes(x: u64) -> (r: Vec<u8>)
    ensures
        r@ == spec_be_bytes(x),
{
    let mut v: Vec<u8> = Vec::new();
    v.push((x >> 56) as u8);
    v.push((x >> 48) as u8);
    v.push((x >> 40) as u8);
    v.push((x >> 32) as u8);
    v.push((x >> 24) as u8);
    v.push((x >> 16) as u8);
    v.push((x >> 8) as u8);
    v.push(x as u8);
    proof {
        assert(v@ =~= spec_be_bytes(x));
    }
    v
}

/// One decimal digit as a string slice.
fn digit_str(d: u32) -> (r: &'static str)
    requires
        d < 10,
    ensures
        r@ =~= seq![spec_digit(d)],
{
    proof {
        reveal_strlit("0");
        reveal_strlit("1");
        reveal_strlit("2");
        reveal_strlit("3");
        reveal_strlit("4");
        reveal_strlit("5");
        reveal_strlit("6");
        reveal_strlit("7");
        reveal_strlit("8");
        reveal_strlit("9");
    }
    match d {
        0 => "0",
        1 => "1",
        2 => "2",
        3 => "3",
        4 => "4",
        5 => "5",
        6 => "6",
        7 => "7",
        8 => "8",
        _ => "9",
    }
}

/// A code value rendered as exactly 6 decimal digits, zero-padded.
fn code_string(value: u32) -> (r: String)
    requires
        value < 1000000,
    ensures
        r@ == spec_code_chars(value),
{
    let mut s = String::new();
    s.append(digit_str((value / 100000) % 10));
    s.append(digit_str((value / 10000) % 10));
    s.append(digit_str((value / 1000) % 10));
    s.append(digit_str((value / 100) % 10));
    s.append(digit_str((value / 10) % 10));
    s.append(digit_str(value % 10));
    proof {
        assert(s@ =~= spec_code_chars(value));
    }
    s
}

/// The TOTP code generator of RFC 6238 with the RFC-default parameters:
/// 6 digits, 30-second time step, HMAC-SHA1.
pub struct TOTP {
    pub secret: Vec<u8>,
    pub digits: u32,
    pub interval: u64,
}

impl TOTP {
    /// The parameters this library fixes to the RFC defaults.
    pub open spec fn wf(&self) -> bool {
        self.digits == 6 && self.interval == 30
    }

    /// Decodes a Base32 (RFC 4648, padded) secret text.
    pub fn new(secret: &str) -> (r: Result<TOTP, AuthError>)
        ensures
            match r {
                Ok(t) => t.wf() && b32_decode_of(secret@) == Some(t.secret@),
                Err(e) => e is InvalidEncoding && b32_decode_of(secret@) is None,
            },
    {
        match b32_decode(secret) {
            Some(bytes) => Ok(TOTP { secret: bytes, digits: 6, interval: 30 }),
            None => Err(AuthError::InvalidEncoding),
        }
    }

    /// The code for a given Unix timestamp.
    pub fn generate(&self, timestamp: u64) -> (r: Result<String, AuthError>)
        requires
            self.wf(),
        ensures
            r matches Ok(code) && code@ == spec_code(self.secret@, timestamp),
    {
        let counter: u64 = timestamp / self.interval;
        let counter_bytes = be_bytes(counter);
        let digest = hmac_sha1(self.secret.as_slice(), counter_bytes.as_slice());
        let last: u8 = digest[19];
        proof {
            assert(last & 0x0f < 16) by (bit_vector);
        }
        let offset: usize = (last & 0x0f) as usize;
        let code: u32 = (((digest[offset] & 0x7f) as u32) << 24) | ((digest[offset + 1] as u32)
            << 16) | ((digest[offset + 2] as u32) << 8) | (digest[offset + 3] as u32);
        let value: u32 = code % 1000000;
        Ok(code_string(value))
    }

    /// The code for the current time; ClockError exactly when the system
    /// clock cannot be read.
    pub fn now(&self) -> (r: Result<String, AuthError>)
        requires
            self.wf(),
        ensures
            match r {
                Ok(code) => exists|t: u64| code@ == spec_code(self.secret@, t),
                Err(e) => e is ClockError,
            },
    {
        match unix_time_now() {
            Some(t) => {
                let code = match self.generate(t) {
                    Ok(c) => c,
                    Err(e) => {
                        return Err(e);
                    },
                };
                proof {
                    assert(code@ == spec_code(self.secret@, t));
                }
                Ok(code)
            },
            None => Err(AuthError::ClockError),
        }
    }

    /// The otpauth provisioning URI (Google key-URI format) for this secret:
    /// `otpauth://totp/<name>?secret=<Base32>&digits=6&period=30&issuer=<issuer>`
    /// with each variable part percent-encoded by URI query rules.
    pub fn provisioning_uri(&self, name: &str, issuer: &str) -> (r: String)
        ensures
            r@ == spec_uri(self.secret@, name@, issuer@),
    {
        let mut s = String::from_str("otpauth://totp/");
        let enc_name = form_encode(name.as_bytes());
        s.append(enc_name.as_str());
        s.append("?secret=");
        let b32 = b32_encode(self.secret.as_slice());
        let enc_secret = form_encode(b32.as_str().as_bytes());
        s.append(enc_secret.as_str());
        s.append("&digits=6&period=30&issuer=");
        let enc_issuer = form_encode(issuer.as_bytes());
        s.append(enc_issuer.as_str());
        proof {
            assert(s@ =~= spec_uri(self.secret@, name@, issuer@));
        }
        s
    }
}

/// The otpauth URI for a secret, account name and issuer.
pub open spec fn spec_uri(secret: Seq<u8>, name: Seq<char>, issuer: Seq<char>) -> Seq<char> {
    "otpauth://totp/"@ + form_enc_of(vstd::utf8::encode_utf8(name)) + "?secret="@ + form_enc_of(
        vstd::utf8::encode_utf8(b32_encode_of(secret)),
    ) + "&digits=6&period=30&issuer="@ + form_enc_of(vstd::utf8::encode_utf8(issuer))
}

/// Codes depend on the timestamp only through its 30-second window: two
/// timestamps in the same window always yield the same code.
pub proof fn lemma_same_window_same_code(secret: Seq<u8>, t1: u64, t2: u64)
    requires
        t1 / 30 == t2 / 30,
    ensures
        spec_code(secret, t1) == spec_code(secret, t2),
{
}

} // verus!
