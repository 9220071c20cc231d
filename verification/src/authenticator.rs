use vstd::prelude::*;
use vstd::string::StrSliceExecFns;
use vstd::string::StringExecFns;

use crate::crypto::{age_decrypt_of, Crypto};
use crate::error::AuthError;
use crate::storage::{
    bytes_entries, bytes_to_string, entries_view, json_doc, json_parse, lemma_parse_inverts_doc,
    pairs_view, parse_document, serialize_accounts, Account,
};
use crate::totp::{b32_decode_of, b32_encode, spec_code, spec_uri, TOTP};

verus! {

broadcast use vstd::utf8::encode_utf8_valid_utf8, vstd::utf8::encode_utf8_decode_utf8;

// ---------------------------------------------------------------------------
// The account mapping, modeled as a map from names to secret texts.
// ---------------------------------------------------------------------------

/// No two accounts share a name.
pub open spec fn names_unique(s: Seq<Account>) -> bool {
    forall|i: int, j: int| 0 <= i < j < s.len() ==> s[i].name@ != s[j].name@
}

/// The mapping a sequence of accounts denotes, later entries replacing
/// earlier ones of the same name.
pub open spec fn amap(s: Seq<Account>) -> Map<Seq<char>, Seq<char>>
    decreases s.len(),
{
    if s.len() == 0 {
        Map::empty()
    } else {
        amap(s.drop_last()).insert(s.last().name@, s.last().secret@)
    }
}

/// A name is in the mapping exactly when some account holds it.
pub proof fn lemma_amap_contains(s: Seq<Account>, n: Seq<char>)
    ensures
        amap(s).contains_key(n) <==> (exists|i: int| 0 <= i < s.len() && s[i].name@ == n),
    decreases s.len(),
{
    if s.len() > 0 {
        lemma_amap_contains(s.drop_last(), n);
        if s.last().name@ == n {
            assert(s[s.len() - 1].name@ == n);
        } else {
            if amap(s).contains_key(n) {
                let i = choose|i: int|
                    0 <= i < s.drop_last().len() && s.drop_last()[i].name@ == n;
                assert(s[i].name@ == n);
            }
            if exists|i: int| 0 <= i < s.len() && s[i].name@ == n {
                let i = choose|i: int| 0 <= i < s.len() && s[i].name@ == n;
                assert(i < s.len() - 1);
                assert(s.drop_last()[i].name@ == n);
            }
        }
    }
}

pub proof fn lemma_unique_drop_last(s: Seq<Account>)
    requires
        names_unique(s),
        s.len() > 0,
    ensures
        names_unique(s.drop_last()),
{
    assert forall|i: int, j: int|
        0 <= i < j < s.drop_last().len() implies s.drop_last()[i].name@
        != s.drop_last()[j].name@ by {
        assert(s.drop_last()[i] == s[i]);
        assert(s.drop_last()[j] == s[j]);
    }
}

/// With unique names, each account's entry is in the mapping.
pub proof fn lemma_amap_index(s: Seq<Account>, i: int)
    requires
        names_unique(s),
        0 <= i < s.len(),
    ensures
        amap(s).contains_key(s[i].name@),
        amap(s)[s[i].name@] == s[i].secret@,
    decreases s.len(),
{
    if i == s.len() - 1 {
    } else {
        lemma_unique_drop_last(s);
        assert(s.drop_last()[i] == s[i]);
        lemma_amap_index(s.drop_last(), i);
        assert(s.last().name@ != s[i].name@);
    }
}

pub proof fn lemma_unique_remove(s: Seq<Account>, idx: int)
    requires
        names_unique(s),
        0 <= idx < s.len(),
    ensures
        names_unique(s.remove(idx)),
{
    assert forall|i: int, j: int|
        0 <= i < j < s.remove(idx).len() implies s.remove(idx)[i].name@
        != s.remove(idx)[j].name@ by {
        if i < idx {
            assert(s.remove(idx)[i] == s[i]);
        } else {
            assert(s.remove(idx)[i] == s[i + 1]);
        }
        if j < idx {
            assert(s.remove(idx)[j] == s[j]);
        } else {
            assert(s.remove(idx)[j] == s[j + 1]);
        }
    }
}

/// With unique names, removing an account removes exactly its key.
pub proof fn lemma_amap_remove(s: Seq<Account>, idx: int)
    requires
        names_unique(s),
        0 <= idx < s.len(),
    ensures
        amap(s.remove(idx)) == amap(s).remove(s[idx].name@),
    decreases s.len(),
{
    if idx == s.len() - 1 {
        assert(s.remove(idx) =~= s.drop_last());
        lemma_unique_drop_last(s);
        lemma_amap_contains(s.drop_last(), s[idx].name@);
        if amap(s.drop_last()).contains_key(s[idx].name@) {
            let i = choose|i: int|
                0 <= i < s.drop_last().len() && s.drop_last()[i].name@ == s[idx].name@;
            assert(s[i].name@ == s[idx].name@);
            assert(false);
        }
        assert(amap(s).remove(s[idx].name@) =~= amap(s.drop_last()));
    } else {
        lemma_unique_drop_last(s);
        lemma_amap_remove(s.drop_last(), idx);
        assert(s.drop_last()[idx] == s[idx]);
        assert(s.remove(idx).drop_last() =~= s.drop_last().remove(idx));
        assert(s.remove(idx).last() == s.last());
        assert(s.last().name@ != s[idx].name@);
        assert(amap(s.remove(idx)) == amap(s.remove(idx).drop_last()).insert(
            s.remove(idx).last().name@,
            s.remove(idx).last().secret@,
        ));
        assert(amap(s.drop_last()).remove(s[idx].name@).insert(s.last().name@, s.last().secret@)
            =~= amap(s.drop_last()).insert(s.last().name@, s.last().secret@).remove(
            s[idx].name@,
        ));
    }
}

// ---------------------------------------------------------------------------
// Name blankness: an account name must hold something besides whitespace.
// ---------------------------------------------------------------------------

/// The characters with Unicode's White_Space property — the set a name is
/// trimmed of.
pub open spec fn is_ws_char(c: char) -> bool {
    ||| c == '\u{0009}'
    ||| c == '\u{000A}'
    ||| c == '\u{000B}'
    ||| c == '\u{000C}'
    ||| c == '\u{000D}'
    ||| c == '\u{0020}'
    ||| c == '\u{0085}'
    ||| c == '\u{00A0}'
    ||| c == '\u{1680}'
    ||| c == '\u{2000}'
    ||| c == '\u{2001}'
    ||| c == '\u{2002}'
    ||| c == '\u{2003}'
    ||| c == '\u{2004}'
    ||| c == '\u{2005}'
    ||| c == '\u{2006}'
    ||| c == '\u{2007}'
    ||| c == '\u{2008}'
    ||| c == '\u{2009}'
    ||| c == '\u{200A}'
    ||| c == '\u{2028}'
    ||| c == '\u{2029}'
    ||| c == '\u{202F}'
    ||| c == '\u{205F}'
    ||| c == '\u{3000}'
}

/// Whether one character is whitespace.
fn ws_char_exec(c: char) -> (r: bool)
    ensures
        r == is_ws_char(c),
{
    c == '\u{0009}' || c == '\u{000A}' || c == '\u{000B}' || c == '\u{000C}' || c == '\u{000D}'
        || c == '\u{0020}' || c == '\u{0085}' || c == '\u{00A0}' || c == '\u{1680}' || c
        == '\u{2000}' || c == '\u{2001}' || c == '\u{2002}' || c == '\u{2003}' || c == '\u{2004}'
        || c == '\u{2005}' || c == '\u{2006}' || c == '\u{2007}' || c == '\u{2008}' || c
        == '\u{2009}' || c == '\u{200A}' || c == '\u{2028}' || c == '\u{2029}' || c == '\u{202F}'
        || c == '\u{205F}' || c == '\u{3000}'
}

/// A name that is empty, or nothing but whitespace.
pub open spec fn is_blank(s: Seq<char>) -> bool {
    forall|i: int| 0 <= i < s.len() ==> is_ws_char(s[i])
}

fn blank_exec(s: &str) -> (r: bool)
    ensures
        r == is_blank(s@),
{
    let n = s.unicode_len();
    let mut i: usize = 0;
    while i < n
        invariant
            n == s@.len(),
            i <= n,
            forall|j: int| 0 <= j < i ==> is_ws_char(s@[j]),
        decreases n - i,
    {
        let c = s.get_char(i);
        if !ws_char_exec(c) {
            return false;
        }
        i = i + 1;
    }
    true
}

// ---------------------------------------------------------------------------
// Secret generation.
// ---------------------------------------------------------------------------

/// Relies on rand::thread_rng (a cryptographically secure generator) and
/// rand::RngCore::fill_bytes: 20 fresh random bytes — 160 bits. Nothing can
/// be promised of their values.
#[verifier::external_body]
fn random_bytes_20() -> (r: Vec<u8>)
    ensures
        r@.len() == 20,
{
    let mut bytes = [0u8; 20];
    rand::RngCore::fill_bytes(&mut rand::thread_rng(), &mut bytes);
    bytes.to_vec()
}

/// A generated secret: 160 random bits, Base32-encoded; it always decodes.
fn generate_secret() -> (r: String)
    ensures
        b32_decode_of(r@) matches Some(b) && b.len() == 20,
{
    let bytes = random_bytes_20();
    b32_encode(bytes.as_slice())
}

// ---------------------------------------------------------------------------
// The vault.
// ---------------------------------------------------------------------------

/// The file contents as the spec sees them: None for an absent file.
pub open spec fn contents_view(contents: Option<Vec<u8>>) -> Option<Seq<u8>> {
    match contents {
        Option::Some(c) => Some(c@),
        Option::None => None,
    }
}

/// Whether every parsed member is valid UTF-8 text.
pub open spec fn all_utf8(entries: Seq<(Seq<u8>, Seq<u8>)>) -> bool {
    forall|i: int|
        0 <= i < entries.len() ==> vstd::utf8::valid_utf8(entries[i].0)
            && vstd::utf8::valid_utf8(entries[i].1)
}

/// The mapping the parsed members denote, later members replacing earlier
/// ones of the same name.
pub open spec fn decoded_map(entries: Seq<(Seq<u8>, Seq<u8>)>) -> Map<Seq<char>, Seq<char>>
    decreases entries.len(),
{
    if entries.len() == 0 {
        Map::empty()
    } else {
        decoded_map(entries.drop_last()).insert(
            vstd::utf8::decode_utf8(entries.last().0),
            vstd::utf8::decode_utf8(entries.last().1),
        )
    }
}

/// What loading determines from the identity state and the file contents: an
/// absent or zero-length file is the empty vault, never an error; otherwise
/// the contents must decrypt, parse as a vault document, and hold text.
pub open spec fn load_outcome(key: Option<Seq<char>>, contents: Option<Seq<u8>>) -> Result<
    Map<Seq<char>, Seq<char>>,
    AuthError,
> {
    match key {
        Option::None => Err(AuthError::IdentityMissing),
        Option::Some(k) => match contents {
            Option::None => Ok(Map::empty()),
            Option::Some(c) => if c.len() == 0 {
                Ok(Map::empty())
            } else {
                match age_decrypt_of(k, c) {
                    Option::None => Err(AuthError::CorruptStorage),
                    Option::Some(pt) => match json_parse(pt) {
                        Option::None => Err(AuthError::CorruptStorage),
                        Option::Some(entries) => if all_utf8(entries) {
                            Ok(decoded_map(entries))
                        } else {
                            Err(AuthError::CorruptStorage)
                        },
                    },
                }
            },
        },
    }
}

/// A code that is current for some time under the secret a mapping holds.
pub open spec fn code_for(m: Map<Seq<char>, Seq<char>>, name: Seq<char>, code: Seq<char>) -> bool {
    &&& m.contains_key(name)
    &&& b32_decode_of(m[name]) is Some
    &&& exists|t: u64| code == spec_code(b32_decode_of(m[name])->0, t)
}

/// Finds the account holding a name.
fn find_account(accounts: &Vec<Account>, name: &String) -> (r: Option<usize>)
    ensures
        match r {
            Some(i) => i < accounts@.len() && accounts@[i as int].name@ == name@,
            None => forall|j: int| 0 <= j < accounts@.len() ==> accounts@[j].name@ != name@,
        },
{
    let mut i: usize = 0;
    while i < accounts.len()
        invariant
            i <= accounts@.len(),
            forall|j: int| 0 <= j < i ==> accounts@[j].name@ != name@,
        decreases accounts@.len() - i,
    {
        if accounts[i].name == *name {
            return Some(i);
        }
        i = i + 1;
    }
    None
}

/// Inserts an account, replacing the entry of the same name if one is there.
fn upsert(accounts: &mut Vec<Account>, name: String, secret: String)
    requires
        names_unique(old(accounts)@),
    ensures
        names_unique(final(accounts)@),
        amap(final(accounts)@) == amap(old(accounts)@).insert(name@, secret@),
{
    let ghost pre = accounts@;
    let idx_opt = find_account(accounts, &name);
    match idx_opt {
        Some(idx) => {
            proof {
                lemma_amap_remove(pre, idx as int);
                lemma_unique_remove(pre, idx as int);
            }
            accounts.remove(idx);
            let ghost removed = accounts@;
            accounts.push(Account { name, secret });
            proof {
                assert forall|j: int| 0 <= j < removed.len() implies removed[j].name@
                    != pre[idx as int].name@ by {
                    if j < idx {
                        assert(removed[j] == pre[j]);
                    } else {
                        assert(removed[j] == pre[j + 1]);
                    }
                }
                assert forall|i: int, j: int|
                    0 <= i < j < accounts@.len() implies accounts@[i].name@
                    != accounts@[j].name@ by {
                    if j < accounts@.len() - 1 {
                        assert(accounts@[i] == removed[i]);
                        assert(accounts@[j] == removed[j]);
                    } else {
                        assert(accounts@[i] == removed[i]);
                    }
                }
                assert(accounts@.drop_last() =~= removed);
                assert(amap(accounts@) =~= amap(pre).insert(
                    pre[idx as int].name@,
                    accounts@.last().secret@,
                ));
            }
        },
        None => {
            accounts.push(Account { name, secret });
            proof {
                assert forall|i: int, j: int|
                    0 <= i < j < accounts@.len() implies accounts@[i].name@
                    != accounts@[j].name@ by {
                    assert(accounts@[i] == pre[i]);
                    if j < accounts@.len() - 1 {
                        assert(accounts@[j] == pre[j]);
                    }
                }
                assert(accounts@.drop_last() =~= pre);
            }
        },
    }
}

/// The secret vault: the account mapping, bound to the engine that seals it.
/// The library only computes; the caller reads the backing file before `new`
/// and overwrites it with what `save_accounts` returns after each mutation.
pub struct TOTPAuthenticator {
    pub accounts: Vec<Account>,
    pub crypto: Crypto,
}

impl TOTPAuthenticator {
    /// The vault as a mapping from account names to secret texts.
    pub open spec fn map_view(&self) -> Map<Seq<char>, Seq<char>> {
        amap(self.accounts@)
    }

    pub open spec fn wf(&self) -> bool {
        names_unique(self.accounts@) && self.crypto.wf()
    }

    /// Builds the vault from what the backing file held: None when the file
    /// is absent, its bytes otherwise.
    #[verifier::loop_isolation(false)]
    pub fn new(contents: Option<Vec<u8>>, crypto: Crypto) -> (r: Result<
        TOTPAuthenticator,
        AuthError,
    >)
        requires
            crypto.wf(),
        ensures
            match r {
                Ok(v) => v.wf() && v.crypto == crypto && load_outcome(
                    crypto.key_state(),
                    contents_view(contents),
                ) == Ok::<Map<Seq<char>, Seq<char>>, AuthError>(v.map_view()),
                Err(e) => load_outcome(crypto.key_state(), contents_view(contents)) == Err::<
                    Map<Seq<char>, Seq<char>>,
                    AuthError,
                >(e),
            },
    {
        let present = match crypto.key_exists() {
            Ok(b) => b,
            Err(e) => vstd::pervasive::unreached(),
        };
        if !present {
            return Err(AuthError::IdentityMissing);
        }
        match contents {
            None => {
                let v = TOTPAuthenticator { accounts: Vec::new(), crypto };
                proof {
                    assert(v.map_view() =~= Map::<Seq<char>, Seq<char>>::empty());
                }
                Ok(v)
            },
            Some(c) => {
                if c.len() == 0 {
                    let v = TOTPAuthenticator { accounts: Vec::new(), crypto };
                    proof {
                        assert(v.map_view() =~= Map::<Seq<char>, Seq<char>>::empty());
                    }
                    return Ok(v);
                }
                let plaintext = match crypto.decrypt(c.as_slice()) {
                    Ok(p) => p,
                    Err(e) => {
                        return Err(AuthError::CorruptStorage);
                    },
                };
                let members = match parse_document(plaintext.as_slice()) {
                    Some(ms) => ms,
                    None => {
                        return Err(AuthError::CorruptStorage);
                    },
                };
                let ghost pv = pairs_view(members@);
                let mut rest = members;
                let mut accounts: Vec<Account> = Vec::new();
                let ghost mut done: int = 0;
                proof {
                    assert(pairs_view(rest@) =~= pv.skip(0));
                }
                while rest.len() > 0
                    invariant
                        0 <= done <= pv.len(),
                        rest@.len() == pv.len() - done,
                        pairs_view(rest@) =~= pv.skip(done),
                        names_unique(accounts@),
                        forall|j: int|
                            0 <= j < done ==> vstd::utf8::valid_utf8(pv[j].0)
                                && vstd::utf8::valid_utf8(pv[j].1),
                        amap(accounts@) == decoded_map(pv.take(done)),
                    decreases rest@.len(),
                {
                    let ghost prev = rest@;
                    let pair = rest.remove(0);
                    proof {
                        assert(pairs_view(prev)[0] == (pair.0@, pair.1@));
                        assert(pairs_view(prev)[0] == pv.skip(done)[0]);
                        assert(pv.skip(done)[0] == pv[done]);
                        assert forall|k: int| 0 <= k < rest@.len() implies pairs_view(rest@)[k]
                            == pv.skip(done + 1)[k] by {
                            assert(rest@[k] == prev[k + 1]);
                            assert(pairs_view(prev)[k + 1] == pv.skip(done)[k + 1]);
                        }
                        assert(pairs_view(rest@) =~= pv.skip(done + 1));
                    }
                    let name = match bytes_to_string(pair.0) {
                        Some(s) => s,
                        None => {
                            proof {
                                assert(!vstd::utf8::valid_utf8(pv[done].0));
                                assert(!all_utf8(pv));
                            }
                            return Err(AuthError::CorruptStorage);
                        },
                    };
                    let secret = match bytes_to_string(pair.1) {
                        Some(s) => s,
                        None => {
                            proof {
                                assert(!vstd::utf8::valid_utf8(pv[done].1));
                                assert(!all_utf8(pv));
                            }
                            return Err(AuthError::CorruptStorage);
                        },
                    };
                    proof {
                        assert(vstd::utf8::decode_utf8(pv[done].0) == name@);
                        assert(vstd::utf8::decode_utf8(pv[done].1) == secret@);
                    }
                    upsert(&mut accounts, name, secret);
                    proof {
                        assert(pv.take(done + 1).drop_last() =~= pv.take(done));
                        assert(pv.take(done + 1).last() == pv[done]);
                        done = done + 1;
                    }
                }
                proof {
                    assert(pv.take(pv.len() as int) =~= pv);
                }
                let v = TOTPAuthenticator { accounts, crypto };
                Ok(v)
            },
        }
    }

    /// Serializes the mapping and encrypts it: the bytes the backing file
    /// must hold for this vault state.
    pub fn save_accounts(&self) -> (r: Result<Vec<u8>, AuthError>)
        requires
            self.wf(),
        ensures
            match r {
                Ok(ct) => {
                    &&& self.crypto.key_state() matches Some(k)
                    &&& age_decrypt_of(k, ct@) == Some(json_doc(entries_view(self.accounts@)))
                    &&& ct@.len() > 0
                },
                Err(e) => e is IdentityMissing && self.crypto.key_state() is None,
            },
    {
        let doc = serialize_accounts(&self.accounts);
        self.crypto.encrypt(doc.as_slice())
    }

    /// Adds or replaces an account. With no secret text given, a fresh
    /// 160-bit (20-byte) random secret is generated and Base32-encoded, as
    /// the contract states of the returned text. The secret is
    /// fully validated — decoded, and probed for one code — before the
    /// mapping changes; on any failure the vault is untouched. Returns the
    /// secret text and a provisioning URI for the caller to display.
    pub fn add_account(&mut self, name: &str, secret: Option<&str>) -> (r: Result<
        (String, String),
        AuthError,
    >)
        requires
            old(self).wf(),
        ensures
            final(self).wf(),
            final(self).crypto == old(self).crypto,
            match r {
                Ok(p) => {
                    &&& !is_blank(name@)
                    &&& (secret matches Some(s) ==> p.0@ == s@)
                    &&& b32_decode_of(p.0@) matches Some(sb)
                    &&& (secret is None ==> sb.len() == 20)
                    &&& final(self).map_view() == old(self).map_view().insert(name@, p.0@)
                    &&& p.1@ == spec_uri(sb, name@, "CLI Authenticator"@)
                },
                Err(e) => *final(self) == *old(self) && match e {
                    AuthError::EmptyName => is_blank(name@),
                    AuthError::InvalidEncoding => {
                        &&& !is_blank(name@)
                        &&& secret matches Some(s)
                        &&& b32_decode_of(s@) is None
                    },
                    AuthError::ClockError => !is_blank(name@) && (secret matches Some(s)
                        ==> b32_decode_of(s@) is Some),
                    _ => false,
                },
            },
    {
        if blank_exec(name) {
            return Err(AuthError::EmptyName);
        }
        let stext: String = match secret {
            Some(s) => String::from_str(s),
            None => generate_secret(),
        };
        let totp = match TOTP::new(stext.as_str()) {
            Ok(t) => t,
            Err(e) => {
                return Err(e);
            },
        };
        match totp.now() {
            Ok(probe) => {},
            Err(e) => {
                return Err(AuthError::ClockError);
            },
        }
        let uri = totp.provisioning_uri(name, "CLI Authenticator");
        upsert(&mut self.accounts, String::from_str(name), stext.clone());
        Ok((stext, uri))
    }

    /// Removes the entry if present; returns whether anything was removed.
    /// A missing name is the normal "not found" case, not an error, and
    /// leaves the vault untouched.
    pub fn remove_account(&mut self, name: &str) -> (r: bool)
        requires
            old(self).wf(),
        ensures
            final(self).wf(),
            final(self).crypto == old(self).crypto,
            r == old(self).map_view().contains_key(name@),
            r ==> final(self).map_view() == old(self).map_view().remove(name@),
            !r ==> *final(self) == *old(self),
    {
        let name_s = String::from_str(name);
        let idx_opt = find_account(&self.accounts, &name_s);
        proof {
            lemma_amap_contains(self.accounts@, name@);
        }
        match idx_opt {
            Some(idx) => {
                proof {
                    lemma_amap_remove(self.accounts@, idx as int);
                    lemma_unique_remove(self.accounts@, idx as int);
                }
                self.accounts.remove(idx);
                true
            },
            None => false,
        }
    }

    /// The current code for an account: None when the name is absent, when
    /// its stored secret no longer decodes, or when the clock cannot be read
    /// — never an error.
    pub fn get_code(&self, name: &str) -> (r: Option<String>)
        requires
            self.wf(),
        ensures
            r matches Some(code) ==> code_for(self.map_view(), name@, code@),
            !self.map_view().contains_key(name@) ==> r is None,
    {
        let name_s = String::from_str(name);
        let idx_opt = find_account(&self.accounts, &name_s);
        proof {
            lemma_amap_contains(self.accounts@, name@);
        }
        let idx = match idx_opt {
            Some(i) => i,
            None => {
                return None;
            },
        };
        proof {
            lemma_amap_index(self.accounts@, idx as int);
        }
        let totp = match TOTP::new(self.accounts[idx].secret.as_str()) {
            Ok(t) => t,
            Err(e) => {
                return None;
            },
        };
        match totp.now() {
            Ok(code) => {
                proof {
                    assert(self.accounts@[idx as int].name@ == name@);
                    assert(self.map_view().contains_key(name@));
                    assert(self.map_view()[name@] == self.accounts@[idx as int].secret@);
                    assert(b32_decode_of(self.map_view()[name@]) == Some(totp.secret@));
                    assert(b32_decode_of(self.map_view()[name@])->0 == totp.secret@);
                    let t = choose|t: u64| code@ == spec_code(totp.secret@, t);
                    assert(code@ == spec_code(b32_decode_of(self.map_view()[name@])->0, t));
                    assert(code_for(self.map_view(), name@, code@));
                }
                Some(code)
            },
            Err(e) => None,
        }
    }

    /// All account names, in stored order: exactly the mapping's keys.
    pub fn list_accounts(&self) -> (r: Vec<String>)
        requires
            self.wf(),
        ensures
            r@.len() == self.accounts@.len(),
            forall|i: int| 0 <= i < r@.len() ==> r@[i]@ == self.accounts@[i].name@,
            forall|i: int| 0 <= i < r@.len() ==> self.map_view().contains_key(r@[i]@),
            forall|n: Seq<char>|
                self.map_view().contains_key(n) ==> exists|i: int|
                    0 <= i < r@.len() && r@[i]@ == n,
    {
        let mut names: Vec<String> = Vec::new();
        let mut i: usize = 0;
        while i < self.accounts.len()
            invariant
                i <= self.accounts@.len(),
                names@.len() == i,
                forall|j: int| 0 <= j < i ==> names@[j]@ == self.accounts@[j].name@,
            decreases self.accounts@.len() - i,
        {
            names.push(self.accounts[i].name.clone());
            i = i + 1;
        }
        proof {
            assert forall|j: int| 0 <= j < names@.len() implies self.map_view().contains_key(
                names@[j]@,
            ) by {
                lemma_amap_index(self.accounts@, j);
            }
            assert forall|n: Seq<char>| self.map_view().contains_key(n) implies (exists|j: int|
                0 <= j < names@.len() && names@[j]@ == n) by {
                lemma_amap_contains(self.accounts@, n);
                let j = choose|j: int|
                    0 <= j < self.accounts@.len() && self.accounts@[j].name@ == n;
                assert(names@[j]@ == n);
            }
        }
        names
    }
}

/// The writer's texts decode back to themselves, entry by entry.
proof fn lemma_decoded_map_of_encoded(s: Seq<Account>)
    ensures
        decoded_map(bytes_entries(entries_view(s))) == amap(s),
    decreases s.len(),
{
    if s.len() == 0 {
        assert(bytes_entries(entries_view(s)) =~= Seq::<(Seq<u8>, Seq<u8>)>::empty());
    } else {
        lemma_decoded_map_of_encoded(s.drop_last());
        let be = bytes_entries(entries_view(s));
        assert(be.drop_last() =~= bytes_entries(entries_view(s.drop_last())));
        assert(be.last() == (
            vstd::utf8::encode_utf8(s.last().name@),
            vstd::utf8::encode_utf8(s.last().secret@),
        ));
        assert(vstd::utf8::decode_utf8(vstd::utf8::encode_utf8(s.last().name@))
            == s.last().name@);
        assert(vstd::utf8::decode_utf8(vstd::utf8::encode_utf8(s.last().secret@))
            == s.last().secret@);
    }
}

/// Law: loading what save produced, under the identity that sealed it, yields
/// exactly the saved mapping. The premises are what save_accounts ensures of
/// every ciphertext it returns.
pub proof fn lemma_load_inverts_save(key: Seq<char>, ciphertext: Seq<u8>, accounts: Seq<Account>)
    requires
        names_unique(accounts),
        ciphertext.len() > 0,
        age_decrypt_of(key, ciphertext) == Some(json_doc(entries_view(accounts))),
    ensures
        load_outcome(Some(key), Some(ciphertext)) == Ok::<Map<Seq<char>, Seq<char>>, AuthError>(
            amap(accounts),
        ),
{
    lemma_parse_inverts_doc(entries_view(accounts));
    let be = bytes_entries(entries_view(accounts));
    assert forall|k: int|
        0 <= k < be.len() implies vstd::utf8::valid_utf8(be[k].0) && vstd::utf8::valid_utf8(
        be[k].1,
    ) by {
        assert(be[k] == (
            vstd::utf8::encode_utf8(entries_view(accounts)[k].0),
            vstd::utf8::encode_utf8(entries_view(accounts)[k].1),
        ));
    }
    lemma_decoded_map_of_encoded(accounts);
}

} // verus!
