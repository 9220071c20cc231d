use vstd::prelude::*;
use vstd::utf8::encode_utf8;

verus! {

// ---------------------------------------------------------------------------
// The vault's on-disk plaintext is one JSON object mapping account names to
// their Base32 secret texts. The writer below emits it compactly; the parser
// accepts the same grammar with whitespace between tokens, so documents
// written by other JSON writers read back as well.
// ---------------------------------------------------------------------------

/// One account: a name and its Base32 secret text.
pub struct Account {
    pub name: String,
    pub secret: String,
}

/// The texts of a sequence of accounts.
pub open spec fn entries_view(accounts: Seq<Account>) -> Seq<(Seq<char>, Seq<char>)> {
    accounts.map_values(|a: Account| (a.name@, a.secret@))
}

/// The lower-case hex digit for a value below 16.
pub open spec fn hex_digit(v: u8) -> u8 {
    if v < 10 {
        (48 + v) as u8
    } else {
        (87 + v) as u8
    }
}

/// One byte of string content, escaped as JSON requires: quote and backslash
/// get a backslash, control bytes become a \u00XX escape, the rest stands
/// verbatim.
pub open spec fn esc_byte(b: u8) -> Seq<u8> {
    if b == 34 {
        seq![92u8, 34u8]
    } else if b == 92 {
        seq![92u8, 92u8]
    } else if b < 32 {
        seq![92u8, 117u8, 48u8, 48u8, hex_digit(b / 16), hex_digit(b % 16)]
    } else {
        seq![b]
    }
}

/// A byte string escaped for the inside of a JSON string literal.
pub open spec fn esc_bytes(s: Seq<u8>) -> Seq<u8>
    decreases s.len(),
{
    if s.len() == 0 {
        Seq::empty()
    } else {
        esc_bytes(s.drop_last()) + esc_byte(s.last())
    }
}

/// One member of the object: "name":"secret", with both texts' UTF-8 bytes
/// escaped.
pub open spec fn entry_bytes(name: Seq<char>, secret: Seq<char>) -> Seq<u8> {
    seq![34u8] + esc_bytes(encode_utf8(name)) + seq![34u8, 58u8, 34u8] + esc_bytes(
        encode_utf8(secret),
    ) + seq![34u8]
}

/// The object's members, comma-separated, in the accounts' order.
pub open spec fn members_bytes(entries: Seq<(Seq<char>, Seq<char>)>) -> Seq<u8>
    decreases entries.len(),
{
    if entries.len() == 0 {
        Seq::empty()
    } else if entries.len() == 1 {
        entry_bytes(entries[0].0, entries[0].1)
    } else {
        members_bytes(entries.drop_last()) + seq![44u8] + entry_bytes(
            entries.last().0,
            entries.last().1,
        )
    }
}

/// The serialized vault document.
pub open spec fn json_doc(entries: Seq<(Seq<char>, Seq<char>)>) -> Seq<u8> {
    seq![123u8] + members_bytes(entries) + seq![125u8]
}

/// The lower-case hex digit for a value below 16.
fn hex_digit_exec(v: u8) -> (r: u8)
    requires
        v < 16,
    ensures
        r == hex_digit(v),
{
    if v < 10 {
        48 + v
    } else {
        87 + v
    }
}

/// Appends the escaped UTF-8 bytes of a text to the output.
fn push_escaped(out: &mut Vec<u8>, s: &str)
    ensures
        final(out)@ == old(out)@ + esc_bytes(encode_utf8(s@)),
{
    let bytes: &[u8] = s.as_bytes();
    let ghost target: Seq<u8> = encode_utf8(s@);
    let mut i: usize = 0;
    while i < bytes.len()
        invariant
            bytes@ == target,
            i <= bytes@.len(),
            out@ == old(out)@ + esc_bytes(target.take(i as int)),
        decreases bytes@.len() - i,
    {
        let b = bytes[i];
        if b == 34 {
            out.push(92);
            out.push(34);
        } else if b == 92 {
            out.push(92);
            out.push(92);
        } else if b < 32 {
            out.push(92);
            out.push(117);
            out.push(48);
            out.push(48);
            out.push(hex_digit_exec(b / 16));
            out.push(hex_digit_exec(b % 16));
        } else {
            out.push(b);
        }
        proof {
            assert(target.take(i + 1).drop_last() =~= target.take(i as int));
            assert(target.take(i + 1).last() == b);
            assert(out@ =~= old(out)@ + esc_bytes(target.take(i + 1)));
        }
        i = i + 1;
    }
    proof {
        assert(target.take(target.len() as int) =~= target);
    }
}

/// Appends a quoted, escaped string literal to the output.
fn push_quoted(out: &mut Vec<u8>, s: &str)
    ensures
        final(out)@ == old(out)@ + seq![34u8] + esc_bytes(encode_utf8(s@)) + seq![34u8],
{
    out.push(34);
    push_escaped(out, s);
    out.push(34);
}

/// Serializes accounts to the vault document, in their stored order.
pub fn serialize_accounts(accounts: &Vec<Account>) -> (r: Vec<u8>)
    ensures
        r@ == json_doc(entries_view(accounts@)),
{
    let ghost ev: Seq<(Seq<char>, Seq<char>)> = entries_view(accounts@);
    let mut out: Vec<u8> = Vec::new();
    out.push(123);
    let mut i: usize = 0;
    while i < accounts.len()
        invariant
            ev == entries_view(accounts@),
            i <= accounts@.len(),
            out@ == seq![123u8] + members_bytes(ev.take(i as int)),
        decreases accounts@.len() - i,
    {
        if i > 0 {
            out.push(44);
        }
        push_quoted(&mut out, accounts[i].name.as_str());
        out.push(58);
        push_quoted(&mut out, accounts[i].secret.as_str());
        proof {
            assert(ev.take(i + 1).drop_last() =~= ev.take(i as int));
            assert(ev.take(i + 1).last() == (accounts@[i as int].name@, accounts@[i as int].secret@));
            assert(out@ =~= seq![123u8] + members_bytes(ev.take(i + 1)));
        }
        i = i + 1;
    }
    out.push(125);
    proof {
        assert(ev.take(ev.len() as int) =~= ev);
        assert(out@ =~= json_doc(ev));
    }
    out
}

// ---------------------------------------------------------------------------
// The parser. Spec functions give the grammar; the executable parser returns
// exactly what they denote. Positions are byte indices into the document.
// ---------------------------------------------------------------------------

/// JSON insignificant whitespace.
pub open spec fn is_ws(b: u8) -> bool {
    b == 32 || b == 9 || b == 10 || b == 13
}

/// The first position at or after i that holds no whitespace.
pub open spec fn skip_ws(b: Seq<u8>, i: int) -> int
    decreases b.len() - i,
{
    if 0 <= i < b.len() && is_ws(b[i]) {
        skip_ws(b, i + 1)
    } else {
        i
    }
}

proof fn lemma_skip_ws(b: Seq<u8>, i: int)
    requires
        0 <= i <= b.len(),
    ensures
        i <= skip_ws(b, i) <= b.len(),
    decreases b.len() - i,
{
    if i < b.len() && is_ws(b[i]) {
        lemma_skip_ws(b, i + 1);
    }
}

/// The byte a one-character escape stands for, if the character is one of
/// JSON's simple escapes.
pub open spec fn unescape_simple(e: u8) -> Option<u8> {
    if e == 34 {
        Some(34u8)
    } else if e == 92 {
        Some(92u8)
    } else if e == 47 {
        Some(47u8)
    } else if e == 98 {
        Some(8u8)
    } else if e == 102 {
        Some(12u8)
    } else if e == 110 {
        Some(10u8)
    } else if e == 114 {
        Some(13u8)
    } else if e == 116 {
        Some(9u8)
    } else {
        None
    }
}

/// The value of one hex digit character.
pub open spec fn hex_val(c: u8) -> Option<u8> {
    if 48 <= c <= 57 {
        Some((c - 48) as u8)
    } else if 97 <= c <= 102 {
        Some((c - 87) as u8)
    } else if 65 <= c <= 70 {
        Some((c - 55) as u8)
    } else {
        None
    }
}

/// The value of the four hex digits at i, when all four are digits.
pub open spec fn hex4_val(b: Seq<u8>, i: int) -> Option<int> {
    if 0 <= i && i + 3 < b.len() {
        match hex_val(b[i]) {
            Option::Some(h0) => match hex_val(b[i + 1]) {
                Option::Some(h1) => match hex_val(b[i + 2]) {
                    Option::Some(h2) => match hex_val(b[i + 3]) {
                        Option::Some(h3) => Some(
                            4096 * (h0 as int) + 256 * (h1 as int) + 16 * (h2 as int) + (h3 as int),
                        ),
                        Option::None => None,
                    },
                    Option::None => None,
                },
                Option::None => None,
            },
            Option::None => None,
        }
    } else {
        None
    }
}

/// The content of a string literal, read from just after its opening quote:
/// the unescaped bytes and the position after the closing quote. A \uXXXX
/// escape is accepted for code points below 128 (the only ones this library's
/// writer, or a standard writer escaping control characters, produces);
/// unescaped control bytes are refused, as JSON requires.
pub open spec fn parse_string_body(b: Seq<u8>, i: int) -> Option<(Seq<u8>, int)>
    decreases b.len() - i,
{
    if !(0 <= i < b.len()) {
        None
    } else if b[i] == 34 {
        Some((Seq::empty(), i + 1))
    } else if b[i] == 92 {
        if i + 1 < b.len() {
            let e = b[i + 1];
            if e == 117 {
                if i + 5 < b.len() {
                    match hex4_val(b, i + 2) {
                        Option::Some(v) => if v < 128 {
                            match parse_string_body(b, i + 6) {
                                Option::Some(p) => Some((seq![v as u8] + p.0, p.1)),
                                Option::None => None,
                            }
                        } else {
                            None
                        },
                        Option::None => None,
                    }
                } else {
                    None
                }
            } else {
                match unescape_simple(e) {
                    Option::Some(u) => match parse_string_body(b, i + 2) {
                        Option::Some(p) => Some((seq![u] + p.0, p.1)),
                        Option::None => None,
                    },
                    Option::None => None,
                }
            }
        } else {
            None
        }
    } else if b[i] < 32 {
        None
    } else {
        match parse_string_body(b, i + 1) {
            Option::Some(p) => Some((seq![b[i]] + p.0, p.1)),
            Option::None => None,
        }
    }
}

proof fn lemma_parse_string_body_bounds(b: Seq<u8>, i: int)
    requires
        0 <= i,
    ensures
        parse_string_body(b, i) matches Some(p) ==> i < p.1 <= b.len(),
    decreases b.len() - i,
{
    if 0 <= i < b.len() {
        if b[i] == 34 {
        } else if b[i] == 92 {
            if i + 1 < b.len() {
                if b[i + 1] == 117 {
                    if i + 5 < b.len() {
                        lemma_parse_string_body_bounds(b, i + 6);
                    }
                } else {
                    lemma_parse_string_body_bounds(b, i + 2);
                }
            }
        } else if b[i] >= 32 {
            lemma_parse_string_body_bounds(b, i + 1);
        }
    }
}

/// One member: optional whitespace, a quoted name, optional whitespace, a
/// colon, optional whitespace, a quoted value. Returns the texts and the
/// position after the value's closing quote.
pub open spec fn parse_member(b: Seq<u8>, i: int) -> Option<((Seq<u8>, Seq<u8>), int)> {
    let i1 = skip_ws(b, i);
    if i1 < b.len() && b[i1] == 34 {
        match parse_string_body(b, i1 + 1) {
            Option::Some(n) => {
                let i3 = skip_ws(b, n.1);
                if i3 < b.len() && b[i3] == 58 {
                    let i4 = skip_ws(b, i3 + 1);
                    if i4 < b.len() && b[i4] == 34 {
                        match parse_string_body(b, i4 + 1) {
                            Option::Some(v) => Some(((n.0, v.0), v.1)),
                            Option::None => None,
                        }
                    } else {
                        None
                    }
                } else {
                    None
                }
            },
            Option::None => None,
        }
    } else {
        None
    }
}

proof fn lemma_parse_member_bounds(b: Seq<u8>, i: int)
    requires
        0 <= i <= b.len(),
    ensures
        parse_member(b, i) matches Some(p) ==> i < p.1 <= b.len(),
{
    lemma_skip_ws(b, i);
    let i1 = skip_ws(b, i);
    if i1 < b.len() && b[i1] == 34 {
        lemma_parse_string_body_bounds(b, i1 + 1);
        match parse_string_body(b, i1 + 1) {
            Option::Some(n) => {
                lemma_skip_ws(b, n.1);
                let i3 = skip_ws(b, n.1);
                if i3 < b.len() && b[i3] == 58 {
                    lemma_skip_ws(b, i3 + 1);
                    let i4 = skip_ws(b, i3 + 1);
                    if i4 < b.len() && b[i4] == 34 {
                        lemma_parse_string_body_bounds(b, i4 + 1);
                    }
                }
            },
            Option::None => {},
        }
    }
}

/// One or more members separated by commas, in document order.
pub open spec fn parse_members(b: Seq<u8>, i: int) -> Option<(Seq<(Seq<u8>, Seq<u8>)>, int)>
    decreases b.len() - i
        when 0 <= i <= b.len()
        via parse_members_dec
{
    match parse_member(b, i) {
        Option::Some(m) => {
            let j2 = skip_ws(b, m.1);
            if j2 < b.len() && b[j2] == 44 {
                match parse_members(b, j2 + 1) {
                    Option::Some(rest) => Some((seq![m.0] + rest.0, rest.1)),
                    Option::None => None,
                }
            } else {
                Some((seq![m.0], m.1))
            }
        },
        Option::None => None,
    }
}

#[via_fn]
proof fn parse_members_dec(b: Seq<u8>, i: int) {
    lemma_parse_member_bounds(b, i);
    match parse_member(b, i) {
        Option::Some(m) => {
            lemma_skip_ws(b, m.1);
        },
        Option::None => {},
    }
}

/// The whole document: one object of string members, nothing but whitespace
/// around and between its tokens.
pub open spec fn json_parse(b: Seq<u8>) -> Option<Seq<(Seq<u8>, Seq<u8>)>> {
    let i0 = skip_ws(b, 0);
    if i0 < b.len() && b[i0] == 123 {
        let i1 = skip_ws(b, i0 + 1);
        if i1 < b.len() && b[i1] == 125 {
            if skip_ws(b, i1 + 1) == b.len() {
                Some(Seq::empty())
            } else {
                None
            }
        } else {
            match parse_members(b, i0 + 1) {
                Option::Some(ms) => {
                    let j2 = skip_ws(b, ms.1);
                    if j2 < b.len() && b[j2] == 125 {
                        if skip_ws(b, j2 + 1) == b.len() {
                            Some(ms.0)
                        } else {
                            None
                        }
                    } else {
                        None
                    }
                },
                Option::None => None,
            }
        }
    } else {
        None
    }
}

// ---------------------------------------------------------------------------
// The executable parser.
// ---------------------------------------------------------------------------

/// The byte texts of parsed members.
pub open spec fn pairs_view(ms: Seq<(Vec<u8>, Vec<u8>)>) -> Seq<(Seq<u8>, Seq<u8>)> {
    ms.map_values(|p: (Vec<u8>, Vec<u8>)| (p.0@, p.1@))
}

fn skip_ws_exec(b: &[u8], i: usize) -> (r: usize)
    requires
        i <= b@.len(),
    ensures
        r == skip_ws(b@, i as int),
        i <= r <= b@.len(),
    decreases b@.len() - i,
{
    if i < b.len() {
        let c = b[i];
        if c == 32 || c == 9 || c == 10 || c == 13 {
            return skip_ws_exec(b, i + 1);
        }
    }
    i
}

fn hex_val_exec(c: u8) -> (r: Option<u8>)
    ensures
        r == hex_val(c),
{
    if 48 <= c && c <= 57 {
        Some(c - 48)
    } else if 97 <= c && c <= 102 {
        Some(c - 87)
    } else if 65 <= c && c <= 70 {
        Some(c - 55)
    } else {
        None
    }
}

fn unescape_simple_exec(e: u8) -> (r: Option<u8>)
    ensures
        r == unescape_simple(e),
{
    if e == 34 {
        Some(34)
    } else if e == 92 {
        Some(92)
    } else if e == 47 {
        Some(47)
    } else if e == 98 {
        Some(8)
    } else if e == 102 {
        Some(12)
    } else if e == 110 {
        Some(10)
    } else if e == 114 {
        Some(13)
    } else if e == 116 {
        Some(9)
    } else {
        None
    }
}

fn parse_string_body_exec(b: &[u8], i: usize) -> (r: Option<(Vec<u8>, usize)>)
    requires
        i <= b@.len(),
    ensures
        match r {
            Some(p) => parse_string_body(b@, i as int) == Some((p.0@, p.1 as int)) && i < p.1
                <= b@.len(),
            None => parse_string_body(b@, i as int) is None,
        },
    decreases b@.len() - i,
{
    if i >= b.len() {
        return None;
    }
    let c = b[i];
    if c == 34 {
        let empty: Vec<u8> = Vec::new();
        proof {
            assert(empty@ =~= Seq::<u8>::empty());
        }
        return Some((empty, i + 1));
    }
    if c == 92 {
        if b.len() - i < 2 {
            return None;
        }
        let e = b[i + 1];
        if e == 117 {
            if b.len() - i < 6 {
                return None;
            }
            let h0 = match hex_val_exec(b[i + 2]) {
                Some(h) => h,
                None => {
                    return None;
                },
            };
            let h1 = match hex_val_exec(b[i + 3]) {
                Some(h) => h,
                None => {
                    return None;
                },
            };
            let h2 = match hex_val_exec(b[i + 4]) {
                Some(h) => h,
                None => {
                    return None;
                },
            };
            let h3 = match hex_val_exec(b[i + 5]) {
                Some(h) => h,
                None => {
                    return None;
                },
            };
            let v: u32 = 4096 * (h0 as u32) + 256 * (h1 as u32) + 16 * (h2 as u32) + (h3 as u32);
            proof {
                assert(hex4_val(b@, i as int + 2) == Some(v as int));
            }
            if v < 128 {
                match parse_string_body_exec(b, i + 6) {
                    Some(p) => {
                        let mut content = p.0;
                        let ghost rest = content@;
                        content.insert(0, v as u8);
                        proof {
                            assert(content@ =~= seq![v as u8] + rest);
                        }
                        Some((content, p.1))
                    },
                    None => None,
                }
            } else {
                None
            }
        } else {
            let u = match unescape_simple_exec(e) {
                Some(u) => u,
                None => {
                    return None;
                },
            };
            match parse_string_body_exec(b, i + 2) {
                Some(p) => {
                    let mut content = p.0;
                    let ghost rest = content@;
                    content.insert(0, u);
                    proof {
                        assert(content@ =~= seq![u] + rest);
                    }
                    Some((content, p.1))
                },
                None => None,
            }
        }
    } else if c < 32 {
        None
    } else {
        match parse_string_body_exec(b, i + 1) {
            Some(p) => {
                let mut content = p.0;
                let ghost rest = content@;
                content.insert(0, c);
                proof {
                    assert(content@ =~= seq![c] + rest);
                }
                Some((content, p.1))
            },
            None => None,
        }
    }
}

fn parse_member_exec(b: &[u8], i: usize) -> (r: Option<((Vec<u8>, Vec<u8>), usize)>)
    requires
        i <= b@.len(),
    ensures
        match r {
            Some(p) => parse_member(b@, i as int) == Some((((p.0).0@, (p.0).1@), p.1 as int)) && i
                < p.1 <= b@.len(),
            None => parse_member(b@, i as int) is None,
        },
{
    let i1 = skip_ws_exec(b, i);
    if i1 >= b.len() {
        return None;
    }
    if b[i1] != 34 {
        return None;
    }
    let n = match parse_string_body_exec(b, i1 + 1) {
        Some(p) => p,
        None => {
            return None;
        },
    };
    let i3 = skip_ws_exec(b, n.1);
    if i3 >= b.len() {
        return None;
    }
    if b[i3] != 58 {
        return None;
    }
    let i4 = skip_ws_exec(b, i3 + 1);
    if i4 >= b.len() {
        return None;
    }
    if b[i4] != 34 {
        return None;
    }
    match parse_string_body_exec(b, i4 + 1) {
        Some(v) => Some(((n.0, v.0), v.1)),
        None => None,
    }
}

fn parse_members_exec(b: &[u8], i: usize) -> (r: Option<(Vec<(Vec<u8>, Vec<u8>)>, usize)>)
    requires
        i <= b@.len(),
    ensures
        match r {
            Some(p) => parse_members(b@, i as int) == Some((pairs_view(p.0@), p.1 as int)) && i
                < p.1 <= b@.len(),
            None => parse_members(b@, i as int) is None,
        },
    decreases b@.len() - i,
{
    let m = match parse_member_exec(b, i) {
        Some(m) => m,
        None => {
            return None;
        },
    };
    let j2 = skip_ws_exec(b, m.1);
    if j2 < b.len() {
        let c = b[j2];
        if c == 44 {
            return match parse_members_exec(b, j2 + 1) {
                Some(p) => {
                    let mut ms = p.0;
                    let ghost rest = ms@;
                    ms.insert(0, m.0);
                    proof {
                        assert(pairs_view(ms@) =~= seq![((m.0).0@, (m.0).1@)] + pairs_view(rest));
                    }
                    Some((ms, p.1))
                },
                None => None,
            };
        }
    }
    let mut ms: Vec<(Vec<u8>, Vec<u8>)> = Vec::new();
    ms.push(m.0);
    proof {
        assert(pairs_view(ms@) =~= seq![((ms@[0]).0@, (ms@[0]).1@)]);
    }
    Some((ms, m.1))
}

/// Parses a vault document: Some of its members (names and secrets as UTF-8
/// byte texts, in document order) exactly when the bytes are a well-formed
/// document, None otherwise.
pub fn parse_document(b: &[u8]) -> (r: Option<Vec<(Vec<u8>, Vec<u8>)>>)
    ensures
        match r {
            Some(ms) => json_parse(b@) == Some(pairs_view(ms@)),
            None => json_parse(b@) is None,
        },
{
    let i0 = skip_ws_exec(b, 0);
    if i0 >= b.len() {
        return None;
    }
    if b[i0] != 123 {
        return None;
    }
    let i1 = skip_ws_exec(b, i0 + 1);
    if i1 < b.len() && b[i1] == 125 {
        if skip_ws_exec(b, i1 + 1) == b.len() {
            let empty: Vec<(Vec<u8>, Vec<u8>)> = Vec::new();
            proof {
                assert(pairs_view(empty@) =~= Seq::<(Seq<u8>, Seq<u8>)>::empty());
            }
            return Some(empty);
        }
        return None;
    }
    match parse_members_exec(b, i0 + 1) {
        Some(p) => {
            let j2 = skip_ws_exec(b, p.1);
            if j2 < b.len() {
                if b[j2] == 125 {
                    if skip_ws_exec(b, j2 + 1) == b.len() {
                        return Some(p.0);
                    }
                }
            }
            None
        },
        None => None,
    }
}

// ---------------------------------------------------------------------------
// The parser inverts the writer.
// ---------------------------------------------------------------------------

/// Escaping can be unrolled from the front as well as from the back.
proof fn lemma_esc_bytes_first(s: Seq<u8>)
    requires
        s.len() > 0,
    ensures
        esc_bytes(s) == esc_byte(s.first()) + esc_bytes(s.drop_first()),
    decreases s.len(),
{
    if s.len() == 1 {
        assert(s.drop_last() =~= Seq::<u8>::empty());
        assert(s.drop_first() =~= Seq::<u8>::empty());
        assert(esc_byte(s.first()) + esc_bytes(s.drop_first()) =~= esc_byte(s.first()));
    } else {
        lemma_esc_bytes_first(s.drop_last());
        assert(s.drop_last().first() == s.first());
        assert(s.drop_last().drop_first() =~= s.drop_first().drop_last());
        assert(s.drop_first().last() == s.last());
        assert((esc_byte(s.first()) + esc_bytes(s.drop_first().drop_last())) + esc_byte(s.last())
            =~= esc_byte(s.first()) + (esc_bytes(s.drop_first().drop_last()) + esc_byte(
            s.last(),
        )));
    }
}

/// Reading a hex digit back gives the value it was written for.
proof fn lemma_hex_val_digit(v: u8)
    requires
        v < 16,
    ensures
        hex_val(hex_digit(v)) == Some(v),
{
}

/// The escaped form of a byte string, followed by a closing quote, parses
/// back to exactly that byte string.
proof fn lemma_parse_escaped_string(b: Seq<u8>, i: int, s: Seq<u8>)
    requires
        0 <= i,
        i + esc_bytes(s).len() + 1 <= b.len(),
        forall|k: int| 0 <= k < esc_bytes(s).len() ==> b[i + k] == esc_bytes(s)[k],
        b[i + esc_bytes(s).len()] == 34,
    ensures
        parse_string_body(b, i) == Some((s, i + esc_bytes(s).len() + 1)),
    decreases s.len(),
{
    if s.len() == 0 {
        assert(b[i] == 34);
    } else {
        lemma_esc_bytes_first(s);
        let c = s.first();
        let e0 = esc_byte(c);
        let rest = esc_bytes(s.drop_first());
        assert forall|k: int| 0 <= k < rest.len() implies b[(i + e0.len()) + k] == rest[k] by {
            assert(esc_bytes(s)[e0.len() + k] == rest[k]);
            assert(b[i + (e0.len() + k)] == esc_bytes(s)[e0.len() + k]);
        }
        assert(b[(i + e0.len()) + rest.len()] == 34);
        lemma_parse_escaped_string(b, i + e0.len() as int, s.drop_first());
        assert(seq![c] + s.drop_first() =~= s);
        if c == 34 {
            assert(b[i] == esc_bytes(s)[0] && b[i + 1] == esc_bytes(s)[1]);
            assert(b[i] == 92 && b[i + 1] == 34);
        } else if c == 92 {
            assert(b[i] == esc_bytes(s)[0] && b[i + 1] == esc_bytes(s)[1]);
            assert(b[i] == 92 && b[i + 1] == 92);
        } else if c < 32 {
            assert(b[i] == esc_bytes(s)[0] && b[i + 1] == esc_bytes(s)[1] && b[i + 2]
                == esc_bytes(s)[2] && b[i + 3] == esc_bytes(s)[3] && b[i + 4] == esc_bytes(s)[4]
                && b[i + 5] == esc_bytes(s)[5]);
            assert(b[i] == 92 && b[i + 1] == 117 && b[i + 2] == 48 && b[i + 3] == 48 && b[i + 4]
                == hex_digit(c / 16) && b[i + 5] == hex_digit(c % 16));
            lemma_hex_val_digit(c / 16);
            lemma_hex_val_digit(c % 16);
            assert(hex_val(48u8) == Some(0u8));
            assert(16 * ((c / 16) as int) + ((c % 16) as int) == c as int);
            assert(hex4_val(b, i + 2) == Some(c as int));
        } else {
            assert(b[i] == esc_bytes(s)[0]);
            assert(b[i] == c);
        }
    }
}

/// A serialized entry, in place in a document, parses back to the UTF-8
/// texts it was written from.
proof fn lemma_parse_entry(b: Seq<u8>, i: int, name: Seq<char>, secret: Seq<char>)
    requires
        0 <= i,
        i + entry_bytes(name, secret).len() <= b.len(),
        forall|k: int|
            0 <= k < entry_bytes(name, secret).len() ==> b[i + k] == entry_bytes(name, secret)[k],
    ensures
        parse_member(b, i) == Some(
            ((encode_utf8(name), encode_utf8(secret)), i + entry_bytes(name, secret).len()),
        ),
{
    let escn = esc_bytes(encode_utf8(name));
    let escs = esc_bytes(encode_utf8(secret));
    let nl = escn.len() as int;
    let sl = escs.len() as int;
    let entry = entry_bytes(name, secret);
    assert(entry.len() == nl + sl + 5);
    assert(entry[0] == 34);
    assert forall|k: int| 0 <= k < nl implies entry[1 + k] == escn[k] by {}
    assert(entry[1 + nl] == 34);
    assert(entry[2 + nl] == 58);
    assert(entry[3 + nl] == 34);
    assert forall|k: int| 0 <= k < sl implies entry[4 + nl + k] == escs[k] by {}
    assert(entry[4 + nl + sl] == 34);

    assert(b[i] == 34);
    assert(!is_ws(b[i]));
    assert(skip_ws(b, i) == i);
    assert forall|k: int| 0 <= k < nl implies b[(i + 1) + k] == escn[k] by {
        assert(b[i + (1 + k)] == entry[1 + k]);
    }
    assert(b[(i + 1) + nl] == 34);
    lemma_parse_escaped_string(b, i + 1, encode_utf8(name));
    assert(parse_string_body(b, i + 1) == Some((encode_utf8(name), i + nl + 2)));
    assert(b[i + nl + 2] == 58);
    assert(skip_ws(b, i + nl + 2) == i + nl + 2);
    assert(b[i + nl + 3] == 34);
    assert(skip_ws(b, i + nl + 3) == i + nl + 3);
    assert forall|k: int| 0 <= k < sl implies b[(i + nl + 4) + k] == escs[k] by {
        assert(b[i + (4 + nl + k)] == entry[4 + nl + k]);
    }
    assert(b[(i + nl + 4) + sl] == 34);
    lemma_parse_escaped_string(b, i + nl + 4, encode_utf8(secret));
    assert(parse_string_body(b, i + nl + 4) == Some((encode_utf8(secret), i + nl + sl + 5)));
}

/// The members' bytes can be unrolled from the front as well.
proof fn lemma_members_bytes_first(entries: Seq<(Seq<char>, Seq<char>)>)
    requires
        entries.len() > 1,
    ensures
        members_bytes(entries) == entry_bytes(entries[0].0, entries[0].1) + seq![44u8]
            + members_bytes(entries.drop_first()),
    decreases entries.len(),
{
    let e0 = entry_bytes(entries[0].0, entries[0].1);
    if entries.len() == 2 {
        assert(entries.drop_last().len() == 1);
        assert(entries.drop_last()[0] == entries[0]);
        assert(entries.drop_first().len() == 1);
        assert(entries.drop_first()[0] == entries[1]);
        assert(members_bytes(entries.drop_last()) == e0);
        assert(members_bytes(entries.drop_first()) == entry_bytes(entries[1].0, entries[1].1));
        assert(e0 + seq![44u8] + entry_bytes(entries.last().0, entries.last().1) =~= e0
            + seq![44u8] + members_bytes(entries.drop_first()));
    } else {
        lemma_members_bytes_first(entries.drop_last());
        assert(entries.drop_last()[0] == entries[0]);
        assert(entries.drop_last().drop_first() =~= entries.drop_first().drop_last());
        assert(entries.drop_first().last() == entries.last());
        assert(entries.drop_first().len() > 1);
        let tail = entries.drop_first();
        assert(members_bytes(tail) == members_bytes(tail.drop_last()) + seq![44u8] + entry_bytes(
            tail.last().0,
            tail.last().1,
        ));
        assert((e0 + seq![44u8] + members_bytes(entries.drop_first().drop_last())) + seq![44u8]
            + entry_bytes(entries.last().0, entries.last().1) =~= e0 + seq![44u8] + (members_bytes(
            tail.drop_last(),
        ) + seq![44u8] + entry_bytes(tail.last().0, tail.last().1)));
    }
}

/// The members a writer's texts parse back to: their UTF-8 encodings.
pub open spec fn bytes_entries(entries: Seq<(Seq<char>, Seq<char>)>) -> Seq<(Seq<u8>, Seq<u8>)> {
    entries.map_values(|e: (Seq<char>, Seq<char>)| (encode_utf8(e.0), encode_utf8(e.1)))
}

/// Serialized members, in place in a document and followed by a byte that is
/// neither whitespace nor a comma, parse back to their texts' encodings.
proof fn lemma_parse_members_of(b: Seq<u8>, i: int, entries: Seq<(Seq<char>, Seq<char>)>)
    requires
        entries.len() >= 1,
        0 <= i,
        i + members_bytes(entries).len() < b.len(),
        forall|k: int|
            0 <= k < members_bytes(entries).len() ==> b[i + k] == members_bytes(entries)[k],
        b[i + members_bytes(entries).len()] == 125,
    ensures
        parse_members(b, i) == Some((bytes_entries(entries), i + members_bytes(entries).len())),
    decreases entries.len(),
{
    let e0 = entry_bytes(entries[0].0, entries[0].1);
    if entries.len() == 1 {
        assert(entries[0] == (entries[0].0, entries[0].1));
        assert(members_bytes(entries) == e0);
        lemma_parse_entry(b, i, entries[0].0, entries[0].1);
        let j = i + e0.len() as int;
        assert(b[j] == 125);
        assert(skip_ws(b, j) == j);
        assert(seq![(encode_utf8(entries[0].0), encode_utf8(entries[0].1))] =~= bytes_entries(
            entries,
        ));
    } else {
        lemma_members_bytes_first(entries);
        let rest = members_bytes(entries.drop_first());
        assert(members_bytes(entries).len() == e0.len() + 1 + rest.len());
        assert forall|k: int| 0 <= k < e0.len() implies b[i + k] == e0[k] by {
            assert(members_bytes(entries)[k] == e0[k]);
        }
        lemma_parse_entry(b, i, entries[0].0, entries[0].1);
        let j = i + e0.len() as int;
        assert(members_bytes(entries)[e0.len() as int] == 44);
        assert(b[j] == 44);
        assert(skip_ws(b, j) == j);
        assert forall|k: int| 0 <= k < rest.len() implies b[(j + 1) + k] == rest[k] by {
            assert(members_bytes(entries)[e0.len() + 1 + k] == rest[k]);
            assert(b[i + (e0.len() + 1 + k)] == members_bytes(entries)[e0.len() + 1 + k]);
        }
        assert(b[(j + 1) + rest.len()] == 125);
        lemma_parse_members_of(b, j + 1, entries.drop_first());
        assert(seq![(encode_utf8(entries[0].0), encode_utf8(entries[0].1))] + bytes_entries(
            entries.drop_first(),
        ) =~= bytes_entries(entries));
    }
}

/// Law: parsing a document the writer produced yields exactly the written
/// mapping — the members' UTF-8 encodings, in their written order.
pub proof fn lemma_parse_inverts_doc(entries: Seq<(Seq<char>, Seq<char>)>)
    ensures
        json_parse(json_doc(entries)) == Some(bytes_entries(entries)),
{
    let b = json_doc(entries);
    assert(b[0] == 123);
    assert(skip_ws(b, 0) == 0);
    if entries.len() == 0 {
        assert(b =~= seq![123u8, 125u8]);
        assert(b[1] == 125);
        assert(skip_ws(b, 1) == 1);
        assert(skip_ws(b, 2) == 2);
        assert(bytes_entries(entries) =~= Seq::<(Seq<u8>, Seq<u8>)>::empty());
    } else {
        let ms = members_bytes(entries);
        assert forall|k: int| 0 <= k < ms.len() implies b[1 + k] == ms[k] by {}
        assert(b[1 + ms.len() as int] == 125);
        if entries.len() == 1 {
            assert(ms == entry_bytes(entries[0].0, entries[0].1));
            assert(ms[0] == 34);
        } else {
            lemma_members_bytes_first(entries);
            assert(ms[0] == entry_bytes(entries[0].0, entries[0].1)[0]);
            assert(ms[0] == 34);
        }
        assert(b[1] == 34);
        assert(skip_ws(b, 1) == 1);
        lemma_parse_members_of(b, 1, entries);
        let j = 1 + ms.len() as int;
        assert(b[j] == 125);
        assert(skip_ws(b, j) == j);
        assert(j + 1 == b.len());
        assert(skip_ws(b, j + 1) == j + 1);
    }
}

/// Relies on String::from_utf8: Some of the text whose UTF-8 encoding is the
/// bytes, None exactly when the bytes are not valid UTF-8.
#[verifier::external_body]
pub fn bytes_to_string(v: Vec<u8>) -> (r: Option<String>)
    ensures
        match r {
            Some(s) => encode_utf8(s@) == v@,
            None => !vstd::utf8::valid_utf8(v@),
        },
{
    String::from_utf8(v).ok()
}

} // verus!
