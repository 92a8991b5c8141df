//! The wire format of peer messages: a compact JSON object tagged by variant,
//! `{"Vote":{"Request":{"node_id":"n1"}}}`, with the fields of each variant in
//! a fixed order.
//!
//! Encoding is deterministic, and matches the compact output of a standard
//! JSON serializer: string characters are escaped as `\"`, `\\`, `\b`,
//! `\t`, `\n`, `\f`, `\r`, other control characters as `\u00xx` in lower
//! case hex, and all else is written as it is.
//!
//! A text decodes to a message exactly when it is that message's encoding;
//! anything else is a recoverable [`DecodeError`]. Decoding is therefore
//! stricter than a general JSON reader: texts that hold the same message in
//! another JSON spelling (with whitespace, with fields in another order, or
//! with an escape such as `\u0041` or `\/` where the canonical form writes
//! the character itself) are rejected. Every node encodes with [`encode`], so
//! a cluster exchanges canonical texts only.
use vstd::prelude::*;
use vstd::utf8::{decode_utf8, valid_utf8};
use crate::message::{
    Heartbeat, HeartbeatRequest, HeartbeatResponse, PeerInfo, PeerMessage, PublicEndpoints, Vote,
    VoteRequest, VoteResponse, WireMessage,
};

verus! {

/// Why a datagram is no peer message.
#[derive(Debug, Clone, Copy, PartialEq, Eq, Structural)]
pub enum DecodeError {
    /// The bytes are not UTF-8.
    InvalidUtf8,
    /// The text is not the encoding of any peer message.
    Malformed,
}

/// The hexadecimal digit of a value below 16, in lower case.
pub open spec fn hex_digit(d: u32) -> char {
    if d < 10 {
        (48 + d) as char
    } else {
        (87 + d) as char
    }
}

/// How one character of a string is written inside quotes.
pub open spec fn escape_char(c: char) -> Seq<char> {
    if c == '"' {
        seq!['\\', '"']
    } else if c == '\\' {
        seq!['\\', '\\']
    } else if c == '\n' {
        seq!['\\', 'n']
    } else if c == '\t' {
        seq!['\\', 't']
    } else if c == '\r' {
        seq!['\\', 'r']
    } else if c == '\x08' {
        seq!['\\', 'b']
    } else if c == '\x0c' {
        seq!['\\', 'f']
    } else if (c as u32) < 32 {
        seq!['\\', 'u', '0', '0', hex_digit((c as u32) / 16), hex_digit((c as u32) % 16)]
    } else {
        seq![c]
    }
}

/// The characters of a string, each escaped.
pub open spec fn escape(s: Seq<char>) -> Seq<char>
    decreases s.len(),
{
    if s.len() == 0 {
        Seq::empty()
    } else {
        escape_char(s[0]) + escape(s.skip(1))
    }
}

/// A string as a JSON string literal.
pub open spec fn quoted(s: Seq<char>) -> Seq<char> {
    seq!['"'] + escape(s) + seq!['"']
}

/// The decimal digit of a value below 10.
pub open spec fn decimal_digit(d: nat) -> char {
    ((48 + d) as u32) as char
}

/// A number in decimal, without leading zeros.
pub open spec fn decimal(n: nat) -> Seq<char>
    decreases n,
{
    if n < 10 {
        seq![decimal_digit(n)]
    } else {
        decimal(n / 10).push(decimal_digit(n % 10))
    }
}

/// The encoding of a message.
pub open spec fn message_text(m: WireMessage) -> Seq<char> {
    match m {
        WireMessage::HeartbeatRequest { node_id, address, public_address, tcp_port, ws_port } =>
            "{\"Heartbeat\":{\"Request\":{\"peer_info\":{\"node_id\":"@ + (quoted(node_id) + (
            ",\"address\":"@ + (quoted(address) + ("},\"public_endpoints\":{\"address\":"@ + (
            quoted(public_address) + (",\"tcp_port\":"@ + (decimal(tcp_port as nat) + (
            ",\"ws_port\":"@ + (decimal(ws_port as nat) + "}}}}"@))))))))),
        WireMessage::HeartbeatResponse { node_id } =>
            "{\"Heartbeat\":{\"Response\":{\"node_id\":"@ + (quoted(node_id) + "}}}"@),
        WireMessage::VoteRequest { node_id } =>
            "{\"Vote\":{\"Request\":{\"node_id\":"@ + (quoted(node_id) + "}}}"@),
        WireMessage::VoteResponse { node_id } =>
            "{\"Vote\":{\"Response\":{\"node_id\":"@ + (quoted(node_id) + "}}}"@),
    }
}

/// Whether a text is the encoding of some message.
pub open spec fn is_message_text(t: Seq<char>) -> bool {
    exists|m: WireMessage| message_text(m) == t
}

/// Relies on `String`'s `FromIterator<char>`: the string holds the characters in order.
#[verifier::external_body]
fn string_of_chars(chars: &Vec<char>) -> (r: String)
    ensures
        r@ == chars@,
{
    chars.iter().collect()
}

fn chars_of(s: &str) -> (r: Vec<char>)
    ensures
        r@ == s@,
{
    let mut r: Vec<char> = Vec::new();
    push_str(&mut r, s);
    r
}

/// Relies on `std::str::from_utf8`: it succeeds exactly on valid UTF-8, and
/// then holds the characters that the bytes encode.
#[verifier::external_body]
fn str_of_utf8(b: &[u8]) -> (r: Option<&str>)
    ensures
        r is Some <==> valid_utf8(b@),
        r matches Some(s) ==> s@ == decode_utf8(b@),
{
    std::str::from_utf8(b).ok()
}

fn ascii_char(v: u32) -> (c: char)
    requires
        v < 128,
    ensures
        c == v as char,
{
    (v as u8) as char
}

fn push_str(out: &mut Vec<char>, s: &str)
    ensures
        final(out)@ == old(out)@ + s@,
{
    let n = s.unicode_len();
    let mut i: usize = 0;
    while i < n
        invariant
            n == s@.len(),
            i <= n,
            out@ == old(out)@ + s@.subrange(0, i as int),
        decreases n - i,
    {
        let c = s.get_char(i);
        out.push(c);
        assert(s@.subrange(0, i + 1) =~= s@.subrange(0, i as int).push(c));
        i = i + 1;
    }
    assert(s@.subrange(0, n as int) =~= s@);
}

fn push_escaped_char(out: &mut Vec<char>, c: char)
    ensures
        final(out)@ == old(out)@ + escape_char(c),
{
    let v = c as u32;
    if c == '"' {
        out.push('\\');
        out.push('"');
    } else if c == '\\' {
        out.push('\\');
        out.push('\\');
    } else if c == '\n' {
        out.push('\\');
        out.push('n');
    } else if c == '\t' {
        out.push('\\');
        out.push('t');
    } else if c == '\r' {
        out.push('\\');
        out.push('r');
    } else if c == '\x08' {
        out.push('\\');
        out.push('b');
    } else if c == '\x0c' {
        out.push('\\');
        out.push('f');
    } else if v < 32 {
        let hi = v / 16;
        let lo = v % 16;
        out.push('\\');
        out.push('u');
        out.push('0');
        out.push('0');
        out.push(ascii_char(48 + hi));
        if lo < 10 {
            out.push(ascii_char(48 + lo));
        } else {
            out.push(ascii_char(87 + lo));
        }
    } else {
        out.push(c);
    }
    assert(final(out)@ =~= old(out)@ + escape_char(c));
}

proof fn lemma_escape_push(s: Seq<char>, c: char)
    ensures
        escape(s.push(c)) == escape(s) + escape_char(c),
    decreases s.len(),
{
    if s.len() == 0 {
        assert(s.push(c).skip(1) =~= Seq::<char>::empty());
        assert(escape(s.push(c)) =~= escape_char(c) + escape(Seq::<char>::empty()));
    } else {
        lemma_escape_push(s.skip(1), c);
        assert(s.push(c).skip(1) =~= s.skip(1).push(c));
        assert(s.push(c)[0] == s[0]);
        assert(escape(s.push(c)) =~= escape(s) + escape_char(c));
    }
}

fn push_quoted(out: &mut Vec<char>, s: &String)
    ensures
        final(out)@ == old(out)@ + quoted(s@),
{
    let chars = chars_of(s.as_str());
    out.push('"');
    let ghost start = out@;
    let mut i: usize = 0;
    while i < chars.len()
        invariant
            i <= chars@.len(),
            chars@ == s@,
            out@ == start + escape(chars@.subrange(0, i as int)),
        decreases chars@.len() - i,
    {
        proof {
            lemma_escape_push(chars@.subrange(0, i as int), chars@[i as int]);
            assert(chars@.subrange(0, i + 1) =~= chars@.subrange(0, i as int).push(chars@[i as int]));
        }
        push_escaped_char(out, chars[i]);
        i = i + 1;
    }
    out.push('"');
    assert(chars@.subrange(0, chars@.len() as int) =~= s@);
    assert(final(out)@ =~= old(out)@ + quoted(s@));
}

fn push_decimal(out: &mut Vec<char>, n: u16)
    ensures
        final(out)@ == old(out)@ + decimal(n as nat),
    decreases n,
{
    if n >= 10 {
        push_decimal(out, n / 10);
    }
    let d = (n % 10) as u32;
    out.push(ascii_char(48 + d));
    assert(final(out)@ =~= old(out)@ + decimal(n as nat));
}

/// Encodes a message.
pub fn encode(m: &PeerMessage) -> (r: String)
    ensures
        r@ == message_text(m@),
{
    let mut out: Vec<char> = Vec::new();
    match m {
        PeerMessage::Heartbeat(Heartbeat::Request(r)) => {
            push_str(&mut out, "{\"Heartbeat\":{\"Request\":{\"peer_info\":{\"node_id\":");
            push_quoted(&mut out, &r.peer_info.node_id);
            push_str(&mut out, ",\"address\":");
            push_quoted(&mut out, &r.peer_info.address);
            push_str(&mut out, "},\"public_endpoints\":{\"address\":");
            push_quoted(&mut out, &r.public_endpoints.address);
            push_str(&mut out, ",\"tcp_port\":");
            push_decimal(&mut out, r.public_endpoints.tcp_port);
            push_str(&mut out, ",\"ws_port\":");
            push_decimal(&mut out, r.public_endpoints.ws_port);
            push_str(&mut out, "}}}}");
        },
        PeerMessage::Heartbeat(Heartbeat::Response(r)) => {
            push_str(&mut out, "{\"Heartbeat\":{\"Response\":{\"node_id\":");
            push_quoted(&mut out, &r.node_id);
            push_str(&mut out, "}}}");
        },
        PeerMessage::Vote(Vote::Request(r)) => {
            push_str(&mut out, "{\"Vote\":{\"Request\":{\"node_id\":");
            push_quoted(&mut out, &r.node_id);
            push_str(&mut out, "}}}");
        },
        PeerMessage::Vote(Vote::Response(r)) => {
            push_str(&mut out, "{\"Vote\":{\"Response\":{\"node_id\":");
            push_quoted(&mut out, &r.node_id);
            push_str(&mut out, "}}}");
        },
    }
    assert(out@ =~= message_text(m@));
    string_of_chars(&out)
}

/// Whether `lit` stands in `t` at `i`.
fn has_at(t: &Vec<char>, i: usize, lit: &str) -> (r: Option<usize>)
    ensures
        r matches Some(j) ==> j == i + lit@.len() && j <= t@.len() && t@.subrange(i as int, j as int) == lit@,
        i + lit@.len() <= t@.len() && t@.subrange(i as int, i + lit@.len()) == lit@ ==> r == Some(
            (i + lit@.len()) as usize,
        ),
{
    let n = lit.unicode_len();
    let tl = t.len();
    if i > tl || n > tl - i {
        return None;
    }
    let mut k: usize = 0;
    while k < n
        invariant
            n == lit@.len(),
            tl == t@.len(),
            i + n <= t@.len(),
            k <= n,
            forall|m: int| 0 <= m < k ==> t@[i + m] == lit@[m],
        decreases n - k,
    {
        if t[i + k] != lit.get_char(k) {
            proof {
                assert(t@.subrange(i as int, i + n)[k as int] == t@[i + k]);
            }
            return None;
        }
        k = k + 1;
    }
    assert(t@.subrange(i as int, i + n) =~= lit@);
    Some(i + n)
}

/// The value of a hexadecimal digit in lower case.
fn hex_value(c: char) -> (r: Option<u32>)
    ensures
        r matches Some(v) ==> v < 16,
        forall|d: u32| d < 16 && c == hex_digit(d) ==> r == Some(d),
{
    broadcast use vstd::utf8::char_u32_cast;
    let v = c as u32;
    if 48 <= v && v <= 57 {
        Some(v - 48)
    } else if 97 <= v && v <= 102 {
        Some(v - 87)
    } else {
        None
    }
}

/// Whether a character is written as a backslash and more.
pub open spec fn is_escaped(c: char) -> bool {
    c == '"' || c == '\\' || (c as u32) < 32
}

/// Reads the escape sequence after a backslash at `i - 1`.
fn read_escape(t: &Vec<char>, i: usize, Ghost(c): Ghost<char>) -> (r: Option<(char, usize)>)
    requires
        0 < i < t@.len(),
    ensures
        r matches Some((e, j)) ==> i < j <= t@.len(),
        is_escaped(c) && i - 1 + escape_char(c).len() <= t@.len() && t@.subrange(
            i - 1,
            i - 1 + escape_char(c).len(),
        ) == escape_char(c) ==> r == Some((c, (i - 1 + escape_char(c).len()) as usize)),
{
    broadcast use vstd::utf8::char_u32_cast;
    let ghost ec = escape_char(c);
    let ghost h = is_escaped(c) && i - 1 + ec.len() <= t@.len() && t@.subrange(i - 1, i - 1 + ec.len()) == ec;
    proof {
        if h {
            assert(t@[i as int] == ec[1]);
        }
    }
    let tl = t.len();
    let e = t[i];
    if e == '"' || e == '\\' {
        Some((e, i + 1))
    } else if e == 'n' {
        Some(('\n', i + 1))
    } else if e == 't' {
        Some(('\t', i + 1))
    } else if e == 'r' {
        Some(('\r', i + 1))
    } else if e == 'b' {
        Some(('\x08', i + 1))
    } else if e == 'f' {
        Some(('\x0c', i + 1))
    } else if e == 'u' && tl - i >= 5 && t[i + 1] == '0' && t[i + 2] == '0' {
        proof {
            if h {
                assert(t@[i + 3] == ec[4]);
                assert(t@[i + 4] == ec[5]);
            }
        }
        match (hex_value(t[i + 3]), hex_value(t[i + 4])) {
            (Some(hi), Some(lo)) => {
                if hi < 2 {
                    let v = hi * 16 + lo;
                    proof {
                        if h {
                            assert(v == c as u32);
                        }
                    }
                    Some((ascii_char(v), i + 5))
                } else {
                    None
                }
            },
            _ => None,
        }
    } else {
        None
    }
}

proof fn lemma_escape_append(a: Seq<char>, b: Seq<char>)
    ensures
        escape(a + b) == escape(a) + escape(b),
    decreases a.len(),
{
    if a.len() == 0 {
        assert(a + b =~= b);
    } else {
        lemma_escape_append(a.skip(1), b);
        assert((a + b).skip(1) =~= a.skip(1) + b);
        assert((a + b)[0] == a[0]);
        assert(escape(a + b) =~= escape(a) + escape(b));
    }
}

proof fn lemma_escape_split(s: Seq<char>, p: int)
    requires
        0 <= p < s.len(),
    ensures
        escape(s.skip(p)) == escape_char(s[p]) + escape(s.skip(p + 1)),
{
    assert(s.skip(p).skip(1) =~= s.skip(p + 1));
    assert(s.skip(p)[0] == s[p]);
}

proof fn lemma_escape_char_shape(c: char)
    ensures
        escape_char(c).len() >= 1,
        is_escaped(c) ==> escape_char(c)[0] == '\\' && escape_char(c).len() >= 2,
        !is_escaped(c) ==> escape_char(c) == seq![c],
{
}

/// Where the reading of an encoded string stands after `p` of its characters.
proof fn lemma_string_step(t: Seq<char>, i: int, s: Seq<char>, p: int, k: int)
    requires
        0 <= i,
        i + quoted(s).len() <= t.len(),
        t.subrange(i, i + quoted(s).len()) == quoted(s),
        0 <= p <= s.len(),
        k == i + 1 + escape(s.take(p)).len(),
    ensures
        p == s.len() ==> k < t.len() && t[k] == '"' && s.take(p) == s && k + 1 == i + quoted(s).len(),
        p < s.len() ==> {
            let ec = escape_char(s[p]);
            &&& k + ec.len() < t.len()
            &&& t.subrange(k, k + ec.len()) == ec
            &&& t[k] == ec[0]
            &&& k + ec.len() == i + 1 + escape(s.take(p + 1)).len()
            &&& s.take(p + 1) == s.take(p).push(s[p])
        },
{
    let rest = s.skip(p);
    assert(s =~= s.take(p) + rest);
    lemma_escape_append(s.take(p), rest);
    let q = quoted(s);
    assert(q =~= seq!['"'] + escape(s.take(p)) + escape(rest) + seq!['"']);
    assert forall|m: int| 0 <= m < escape(rest).len() + 1 implies t[k + m] == (escape(rest)
        + seq!['"'])[m] by {
        assert(t[k + m] == t.subrange(i, i + q.len())[k + m - i]);
        assert(q[k + m - i] == (escape(rest) + seq!['"'])[m]);
    }
    if p == s.len() {
        assert(rest =~= Seq::<char>::empty());
        assert(s.take(p) =~= s);
        assert(t[k + 0] == (escape(rest) + seq!['"'])[0]);
    } else {
        lemma_escape_split(s, p);
        let ec = escape_char(s[p]);
        lemma_escape_char_shape(s[p]);
        assert(t.subrange(k, k + ec.len()) =~= ec) by {
            assert forall|m: int| 0 <= m < ec.len() implies t.subrange(k, k + ec.len())[m]
                == ec[m] by {
                assert(t[k + m] == (escape(rest) + seq!['"'])[m]);
            }
        }
        assert(t[k + 0] == (escape(rest) + seq!['"'])[0]);
        assert(s.take(p + 1) =~= s.take(p).push(s[p]));
        lemma_escape_push(s.take(p), s[p]);
    }
}

/// Reads a string literal that starts at `i`.
fn read_string(t: &Vec<char>, i: usize, Ghost(s): Ghost<Seq<char>>) -> (r: Option<(String, usize)>)
    ensures
        r matches Some((v, j)) ==> i <= j <= t@.len(),
        i + quoted(s).len() <= t@.len() && t@.subrange(i as int, i + quoted(s).len()) == quoted(s)
            ==> (r matches Some((v, j)) && v@ == s && j == i + quoted(s).len()),
{
    let ghost h = i + quoted(s).len() <= t@.len() && t@.subrange(i as int, i + quoted(s).len()) == quoted(s);
    proof {
        if h {
            assert(t@[i as int] == t@.subrange(i as int, i + quoted(s).len())[0]);
            assert(escape(s.take(0)) =~= Seq::<char>::empty()) by {
                assert(s.take(0) =~= Seq::<char>::empty());
            }
        }
    }
    if i >= t.len() || t[i] != '"' {
        return None;
    }
    let mut out: Vec<char> = Vec::new();
    let mut k: usize = i + 1;
    let ghost mut p: int = 0;
    proof {
        if h {
            assert(out@ =~= s.take(0));
        }
    }
    while k < t.len()
        invariant
            i < k <= t@.len(),
            h ==> 0 <= p <= s.len() && out@ == s.take(p) && k == i + 1 + escape(s.take(p)).len(),
            h == (i + quoted(s).len() <= t@.len() && t@.subrange(i as int, i + quoted(s).len()) == quoted(s)),
        decreases t@.len() - k,
    {
        proof {
            if h {
                lemma_string_step(t@, i as int, s, p, k as int);
                if p < s.len() {
                    lemma_escape_char_shape(s[p]);
                }
            }
        }
        let c = t[k];
        if c == '"' {
            return Some((string_of_chars(&out), k + 1));
        } else if c == '\\' {
            if k + 1 >= t.len() {
                return None;
            }
            match read_escape(t, k + 1, Ghost(if h && p < s.len() { s[p] } else { 'a' })) {
                Some((e, j)) => {
                    out.push(e);
                    proof {
                        if h {
                            p = p + 1;
                        }
                    }
                    k = j;
                },
                None => return None,
            }
        } else {
            out.push(c);
            proof {
                if h {
                    p = p + 1;
                }
            }
            k = k + 1;
        }
    }
    proof {
        if h {
            lemma_string_step(t@, i as int, s, p, k as int);
            if p < s.len() {
                lemma_escape_char_shape(s[p]);
            }
        }
    }
    None
}


proof fn lemma_hex_digit_injective(d1: u32, d2: u32)
    requires
        d1 < 16,
        d2 < 16,
        hex_digit(d1) == hex_digit(d2),
    ensures
        d1 == d2,
{
    assert(hex_digit(d1) as u32 == (if d1 < 10 { 48 + d1 } else { 87 + d1 }));
    assert(hex_digit(d2) as u32 == (if d2 < 10 { 48 + d2 } else { 87 + d2 }));
}

/// Two escaped characters that begin equal texts are equal.
proof fn lemma_escape_char_injective(a: char, b: char, x: Seq<char>, y: Seq<char>)
    requires
        escape_char(a) + x == escape_char(b) + y,
    ensures
        a == b,
        x == y,
{
    broadcast use vstd::utf8::char_u32_cast;
    let ea = escape_char(a);
    let eb = escape_char(b);
    lemma_escape_char_shape(a);
    lemma_escape_char_shape(b);
    assert((ea + x)[0] == ea[0]);
    assert((eb + y)[0] == eb[0]);
    if is_escaped(a) {
        assert((ea + x)[1] == ea[1]);
        assert((eb + y)[1] == eb[1]);
        if ea[1] == 'u' {
            assert((ea + x)[4] == ea[4] && (ea + x)[5] == ea[5]);
            assert((eb + y)[4] == eb[4] && (eb + y)[5] == eb[5]);
            lemma_hex_digit_injective((a as u32) / 16, (b as u32) / 16);
            lemma_hex_digit_injective((a as u32) % 16, (b as u32) % 16);
            assert(a as u32 == b as u32);
        }
    }
    assert(a == b);
    assert(x =~= (ea + x).skip(ea.len() as int));
    assert(y =~= (eb + y).skip(eb.len() as int));
}

/// Escaped strings, each closed by a quote, that begin equal texts are equal.
proof fn lemma_escape_injective(a: Seq<char>, b: Seq<char>, x: Seq<char>, y: Seq<char>)
    requires
        escape(a) + (seq!['"'] + x) == escape(b) + (seq!['"'] + y),
    ensures
        a == b,
        x == y,
    decreases a.len(),
{
    let u = escape(a) + (seq!['"'] + x);
    if a.len() == 0 {
        assert(u[0] == '"');
        if b.len() > 0 {
            lemma_escape_char_shape(b[0]);
            assert(escape(b) == escape_char(b[0]) + escape(b.skip(1)));
            assert(u[0] == escape_char(b[0])[0]);
        }
        assert(b =~= a);
        assert(x =~= u.skip(1));
        assert(y =~= u.skip(1));
    } else {
        if b.len() == 0 {
            lemma_escape_char_shape(a[0]);
            assert(u[0] == escape_char(a[0])[0]);
            assert(u[0] == '"');
        } else {
            let ra = escape(a.skip(1)) + (seq!['"'] + x);
            let rb = escape(b.skip(1)) + (seq!['"'] + y);
            assert(u =~= escape_char(a[0]) + ra);
            assert(u =~= escape_char(b[0]) + rb);
            lemma_escape_char_injective(a[0], b[0], ra, rb);
            lemma_escape_injective(a.skip(1), b.skip(1), x, y);
            assert(a =~= seq![a[0]] + a.skip(1));
            assert(b =~= seq![b[0]] + b.skip(1));
        }
    }
}

proof fn lemma_quoted_injective(a: Seq<char>, b: Seq<char>, x: Seq<char>, y: Seq<char>)
    requires
        quoted(a) + x == quoted(b) + y,
    ensures
        a == b,
        x == y,
{
    let u = quoted(a) + x;
    assert(u.skip(1) =~= escape(a) + (seq!['"'] + x));
    assert((quoted(b) + y).skip(1) =~= escape(b) + (seq!['"'] + y));
    lemma_escape_injective(a, b, x, y);
}

proof fn lemma_decimal_injective(n1: nat, n2: nat, x: Seq<char>, y: Seq<char>)
    requires
        decimal(n1) + x == decimal(n2) + y,
        x.len() > 0 && !is_digit(x[0]),
        y.len() > 0 && !is_digit(y[0]),
    ensures
        n1 == n2,
        x == y,
{
    let d1 = decimal(n1);
    let d2 = decimal(n2);
    lemma_decimal(n1);
    lemma_decimal(n2);
    let u = d1 + x;
    if d1.len() < d2.len() {
        assert(u[d1.len() as int] == x[0]);
        assert((d2 + y)[d1.len() as int] == d2[d1.len() as int]);
    }
    if d2.len() < d1.len() {
        assert((d2 + y)[d2.len() as int] == y[0]);
        assert(u[d2.len() as int] == d1[d2.len() as int]);
    }
    assert(d1 =~= u.subrange(0, d1.len() as int));
    assert(d2 =~= (d2 + y).subrange(0, d2.len() as int));
    assert(x =~= u.skip(d1.len() as int));
    assert(y =~= (d2 + y).skip(d2.len() as int));
}

proof fn lemma_literal_prefix(l: Seq<char>, x: Seq<char>, y: Seq<char>)
    requires
        l + x == l + y,
    ensures
        x == y,
{
    assert(x =~= (l + x).skip(l.len() as int));
    assert(y =~= (l + y).skip(l.len() as int));
}

/// Decoding the encoding of a message gives back that message, whatever its
/// strings and numbers hold: the encoding is a text that decodes, and the one
/// message whose encoding it is is `m` itself.
pub proof fn lemma_round_trip(m: WireMessage)
    ensures
        is_message_text(message_text(m)),
        forall|m2: WireMessage| message_text(m2) == message_text(m) ==> m2 == m,
{
    assert forall|m2: WireMessage| message_text(m2) == message_text(m) implies m2 == m by {
        lemma_message_text_injective(m2, m);
    }
}

/// Different messages have different encodings.
pub proof fn lemma_message_text_injective(m1: WireMessage, m2: WireMessage)
    requires
        message_text(m1) == message_text(m2),
    ensures
        m1 == m2,
{
    reveal_strlit("{\"Heartbeat\":{\"Request\":{\"peer_info\":{\"node_id\":");
    reveal_strlit("{\"Heartbeat\":{\"Response\":{\"node_id\":");
    reveal_strlit("{\"Vote\":{\"Request\":{\"node_id\":");
    reveal_strlit("{\"Vote\":{\"Response\":{\"node_id\":");
    reveal_strlit(",\"ws_port\":");
    reveal_strlit("}}}}");
    let t = message_text(m1);
    let lit1 = message_prefix(m1);
    let lit2 = message_prefix(m2);
    assert(t =~= lit1 + t.skip(lit1.len() as int));
    assert(t =~= lit2 + t.skip(lit2.len() as int));
    assert(t[2] == lit1[2] && t[2] == lit2[2]);
    assert(t[12] == lit1[12] && t[12] == lit2[12]);
    assert(t[17] == lit1[17] && t[17] == lit2[17]);
    assert(lit1 == lit2);
    match (m1, m2) {
        (
            WireMessage::HeartbeatRequest { node_id: a1, address: b1, public_address: c1, tcp_port: p1, ws_port: q1 },
            WireMessage::HeartbeatRequest { node_id: a2, address: b2, public_address: c2, tcp_port: p2, ws_port: q2 },
        ) => {
            let l2 = ",\"address\":"@;
            let l3 = "},\"public_endpoints\":{\"address\":"@;
            let l4 = ",\"tcp_port\":"@;
            let l5 = ",\"ws_port\":"@;
            let l6 = "}}}}"@;
            lemma_literal_prefix(lit1, quoted(a1) + (l2 + (quoted(b1) + (l3 + (quoted(c1) + (l4 + (decimal(p1 as nat) + (l5 + (decimal(q1 as nat) + l6)))))))),
                quoted(a2) + (l2 + (quoted(b2) + (l3 + (quoted(c2) + (l4 + (decimal(p2 as nat) + (l5 + (decimal(q2 as nat) + l6)))))))));
            lemma_quoted_injective(a1, a2, l2 + (quoted(b1) + (l3 + (quoted(c1) + (l4 + (decimal(p1 as nat) + (l5 + (decimal(q1 as nat) + l6))))))),
                l2 + (quoted(b2) + (l3 + (quoted(c2) + (l4 + (decimal(p2 as nat) + (l5 + (decimal(q2 as nat) + l6))))))));
            lemma_literal_prefix(l2, quoted(b1) + (l3 + (quoted(c1) + (l4 + (decimal(p1 as nat) + (l5 + (decimal(q1 as nat) + l6)))))),
                quoted(b2) + (l3 + (quoted(c2) + (l4 + (decimal(p2 as nat) + (l5 + (decimal(q2 as nat) + l6)))))));
            lemma_quoted_injective(b1, b2, l3 + (quoted(c1) + (l4 + (decimal(p1 as nat) + (l5 + (decimal(q1 as nat) + l6))))),
                l3 + (quoted(c2) + (l4 + (decimal(p2 as nat) + (l5 + (decimal(q2 as nat) + l6))))));
            lemma_literal_prefix(l3, quoted(c1) + (l4 + (decimal(p1 as nat) + (l5 + (decimal(q1 as nat) + l6)))),
                quoted(c2) + (l4 + (decimal(p2 as nat) + (l5 + (decimal(q2 as nat) + l6)))));
            lemma_quoted_injective(c1, c2, l4 + (decimal(p1 as nat) + (l5 + (decimal(q1 as nat) + l6))),
                l4 + (decimal(p2 as nat) + (l5 + (decimal(q2 as nat) + l6))));
            lemma_literal_prefix(l4, decimal(p1 as nat) + (l5 + (decimal(q1 as nat) + l6)),
                decimal(p2 as nat) + (l5 + (decimal(q2 as nat) + l6)));
            assert((l5 + (decimal(q1 as nat) + l6))[0] == l5[0]);
            assert((l5 + (decimal(q2 as nat) + l6))[0] == l5[0]);
            lemma_decimal_injective(p1 as nat, p2 as nat, l5 + (decimal(q1 as nat) + l6), l5 + (decimal(q2 as nat) + l6));
            lemma_literal_prefix(l5, decimal(q1 as nat) + l6, decimal(q2 as nat) + l6);
            lemma_decimal_injective(q1 as nat, q2 as nat, l6, l6);
        },
        (WireMessage::HeartbeatResponse { node_id: a1 }, WireMessage::HeartbeatResponse { node_id: a2 }) => {
            lemma_literal_prefix(lit1, quoted(a1) + "}}}"@, quoted(a2) + "}}}"@);
            lemma_quoted_injective(a1, a2, "}}}"@, "}}}"@);
        },
        (WireMessage::VoteRequest { node_id: a1 }, WireMessage::VoteRequest { node_id: a2 }) => {
            lemma_literal_prefix(lit1, quoted(a1) + "}}}"@, quoted(a2) + "}}}"@);
            lemma_quoted_injective(a1, a2, "}}}"@, "}}}"@);
        },
        (WireMessage::VoteResponse { node_id: a1 }, WireMessage::VoteResponse { node_id: a2 }) => {
            lemma_literal_prefix(lit1, quoted(a1) + "}}}"@, quoted(a2) + "}}}"@);
            lemma_quoted_injective(a1, a2, "}}}"@, "}}}"@);
        },
        _ => {},
    }
}

/// The text that opens the encoding of a message of this variant.
pub open spec fn message_prefix(m: WireMessage) -> Seq<char> {
    match m {
        WireMessage::HeartbeatRequest { .. } => "{\"Heartbeat\":{\"Request\":{\"peer_info\":{\"node_id\":"@,
        WireMessage::HeartbeatResponse { .. } => "{\"Heartbeat\":{\"Response\":{\"node_id\":"@,
        WireMessage::VoteRequest { .. } => "{\"Vote\":{\"Request\":{\"node_id\":"@,
        WireMessage::VoteResponse { .. } => "{\"Vote\":{\"Response\":{\"node_id\":"@,
    }
}

/// Whether a character is a decimal digit.
pub open spec fn is_digit(c: char) -> bool {
    48 <= (c as u32) <= 57
}

/// The number that a string of decimal digits denotes.
pub open spec fn digits_value(ds: Seq<char>) -> int
    decreases ds.len(),
{
    if ds.len() == 0 {
        0
    } else {
        digits_value(ds.drop_last()) * 10 + ((ds.last() as u32) - 48)
    }
}

proof fn lemma_decimal(n: nat)
    ensures
        digits_value(decimal(n)) == n,
        decimal(n).len() >= 1,
        forall|m: int| 0 <= m < decimal(n).len() ==> is_digit(#[trigger] decimal(n)[m]),
    decreases n,
{
    let d = (n % 10) as nat;
    let ds = decimal(n);
    assert((decimal_digit(d) as u32) == 48 + d);
    if n < 10 {
        assert(ds =~= seq![decimal_digit(d)]);
        assert(ds.drop_last() =~= Seq::<char>::empty());
        assert(digits_value(ds.drop_last()) == 0);
        assert(ds.last() == decimal_digit(d));
        assert(digits_value(ds) == digits_value(ds.drop_last()) * 10 + ((ds.last() as u32) - 48));
    } else {
        lemma_decimal(n / 10);
        assert(ds == decimal(n / 10).push(decimal_digit(d)));
        assert(ds.drop_last() =~= decimal(n / 10));
        assert(ds.last() == decimal_digit(d));
        assert(digits_value(ds) == digits_value(ds.drop_last()) * 10 + ((ds.last() as u32) - 48));
        assert(n == (n / 10) * 10 + n % 10);
        assert forall|m: int| 0 <= m < ds.len() implies is_digit(#[trigger] ds[m]) by {
            if m < decimal(n / 10).len() {
                assert(ds[m] == decimal(n / 10)[m]);
            }
        }
    }
}

proof fn lemma_digits_prefix(ds: Seq<char>, k: int)
    requires
        0 <= k <= ds.len(),
        forall|m: int| 0 <= m < ds.len() ==> is_digit(#[trigger] ds[m]),
    ensures
        0 <= digits_value(ds.take(k)) <= digits_value(ds),
    decreases ds.len(),
{
    if ds.len() > 0 {
        let init = ds.drop_last();
        assert forall|m: int| 0 <= m < init.len() implies is_digit(#[trigger] init[m]) by {
            assert(init[m] == ds[m]);
        }
        if k == ds.len() {
            assert(ds.take(k) =~= ds);
            lemma_digits_prefix(init, 0);
            assert(is_digit(ds[ds.len() - 1]));
        } else {
            assert(ds.take(k) =~= init.take(k));
            lemma_digits_prefix(init, k);
            lemma_digits_prefix(init, init.len() as int);
            assert(init.take(init.len() as int) =~= init);
            assert(is_digit(ds[ds.len() - 1]));
        }
    }
}

/// Whether the decimal form of `n` stands in `t` at `i`, followed by a non-digit.
pub open spec fn decimal_at(t: Seq<char>, i: int, n: u16) -> bool {
    let d = decimal(n as nat);
    &&& 0 <= i
    &&& i + d.len() < t.len()
    &&& t.subrange(i, i + d.len()) == d
    &&& !is_digit(t[i + d.len()])
}

/// Reads a number of decimal digits below 65536 that starts at `i`.
fn read_u16(t: &Vec<char>, i: usize, Ghost(n): Ghost<u16>) -> (r: Option<(u16, usize)>)
    ensures
        r matches Some((v, j)) ==> i <= j <= t@.len(),
        decimal_at(t@, i as int, n) ==> (r matches Some((v, j)) && v == n && j == i + decimal(
            n as nat,
        ).len()),
{
    let ghost d = decimal(n as nat);
    let ghost h = decimal_at(t@, i as int, n);
    proof {
        lemma_decimal(n as nat);
    }
    if i >= t.len() {
        return None;
    }
    let mut v: u32 = 0;
    let mut k: usize = i;
    while k < t.len() && 48 <= t[k] as u32 && t[k] as u32 <= 57
        invariant
            i <= k <= t@.len(),
            v <= 65535,
            h ==> k <= i + d.len() && v == digits_value(d.take(k - i)),
            h == decimal_at(t@, i as int, n),
            d == decimal(n as nat),
            forall|m: int| 0 <= m < d.len() ==> is_digit(#[trigger] d[m]),
            digits_value(d) == n,
        decreases t@.len() - k,
    {
        let ghost v0 = v;
        v = v * 10 + (t[k] as u32 - 48);
        assert(h ==> k < i + d.len() && v <= n && v == digits_value(d.take(k + 1 - i))) by {
            if h {
                if k == i + d.len() {
                    assert(false);
                }
                assert(t@[k as int] == t@.subrange(i as int, i + d.len())[k - i]);
                assert(d.take(k + 1 - i).drop_last() =~= d.take(k - i));
                assert(d.take(k + 1 - i).last() == d[k - i]);
                assert(digits_value(d.take(k + 1 - i)) == digits_value(d.take(k - i)) * 10 + ((d[k
                    - i] as u32) - 48));
                lemma_digits_prefix(d, k + 1 - i);
                assert(v == v0 * 10 + ((t@[k as int] as u32) - 48));
            }
        }
        if v > 65535 {
            assert(n <= 65535);
            assert(!h);
            return None;
        }
        k = k + 1;
    }
    proof {
        if h {
            if k < i + d.len() {
                assert(t@[k as int] == t@.subrange(i as int, i + d.len())[k - i]);
                assert(is_digit(d[k - i]));
            }
            assert(d.take(d.len() as int) =~= d);
        }
    }
    if k == i || k > t.len() {
        None
    } else {
        Some((v as u16, k))
    }
}

proof fn lemma_split(t: Seq<char>, a: Seq<char>, b: Seq<char>)
    requires
        a.len() + b.len() <= t.len(),
        t.subrange(0, (a.len() + b.len()) as int) == a + b,
    ensures
        t.subrange(0, a.len() as int) == a,
        t.subrange(a.len() as int, (a.len() + b.len()) as int) == b,
{
    let ab = t.subrange(0, (a.len() + b.len()) as int);
    assert(t.subrange(0, a.len() as int) =~= a) by {
        assert forall|m: int| 0 <= m < a.len() implies t.subrange(0, a.len() as int)[m] == a[m] by {
            assert(ab[m] == (a + b)[m]);
        }
    }
    assert(t.subrange(a.len() as int, (a.len() + b.len()) as int) =~= b) by {
        assert forall|m: int| 0 <= m < b.len() implies t.subrange(
            a.len() as int,
            (a.len() + b.len()) as int,
        )[m] == b[m] by {
            assert(ab[a.len() + m] == (a + b)[a.len() + m]);
        }
    }
}

proof fn lemma_whole(t: Seq<char>, a: Seq<char>, b: Seq<char>)
    requires
        t == a + b,
    ensures
        t.subrange(0, a.len() as int) == a,
        a.len() + b.len() == t.len(),
        b.len() > 0 ==> t[a.len() as int] == b[0],
{
    assert(t.subrange(0, a.len() as int) =~= a);
}

/// Where the pieces of an encoded message with a single identifier stand.
proof fn lemma_single_pieces(t: Seq<char>, lit: Seq<char>, n1: Seq<char>, end: Seq<char>)
    requires
        t == lit + (quoted(n1) + end),
    ensures
        lit.len() + quoted(n1).len() <= t.len(),
        t.subrange(0, lit.len() as int) == lit,
        t.subrange(lit.len() as int, (lit.len() + quoted(n1).len()) as int) == quoted(n1),
{
    assert(t =~= lit + quoted(n1) + end);
    lemma_whole(t, lit + quoted(n1), end);
    lemma_split(t, lit, quoted(n1));
}

/// Where the pieces of an encoded heartbeat request stand.
proof fn lemma_request_pieces(
    t: Seq<char>,
    l1: Seq<char>,
    q1: Seq<char>,
    l2: Seq<char>,
    q2: Seq<char>,
    l3: Seq<char>,
    q3: Seq<char>,
    l4: Seq<char>,
    d1: Seq<char>,
    l5: Seq<char>,
    d2: Seq<char>,
    l6: Seq<char>,
)
    requires
        t == l1 + (q1 + (l2 + (q2 + (l3 + (q3 + (l4 + (d1 + (l5 + (d2 + l6))))))))),
        l5.len() > 0,
        l6.len() > 0,
    ensures
        ({
            let o1 = l1.len() as int;
            let o2 = o1 + q1.len();
            let o3 = o2 + l2.len();
            let o4 = o3 + q2.len();
            let o5 = o4 + l3.len();
            let o6 = o5 + q3.len();
            let o7 = o6 + l4.len();
            let o8 = o7 + d1.len();
            let o9 = o8 + l5.len();
            let o10 = o9 + d2.len();
            &&& o10 < t.len()
            &&& t.subrange(0, o1) == l1
            &&& t.subrange(o1, o2) == q1
            &&& t.subrange(o2, o3) == l2
            &&& t.subrange(o3, o4) == q2
            &&& t.subrange(o4, o5) == l3
            &&& t.subrange(o5, o6) == q3
            &&& t.subrange(o6, o7) == l4
            &&& t.subrange(o7, o8) == d1
            &&& t.subrange(o8, o9) == l5
            &&& t.subrange(o9, o10) == d2
            &&& t[o8] == l5[0]
            &&& t[o10] == l6[0]
        }),
{
    let p1 = l1;
    let p2 = p1 + q1;
    let p3 = p2 + l2;
    let p4 = p3 + q2;
    let p5 = p4 + l3;
    let p6 = p5 + q3;
    let p7 = p6 + l4;
    let p8 = p7 + d1;
    let p9 = p8 + l5;
    let p10 = p9 + d2;
    assert(t =~= p10 + l6);
    lemma_whole(t, p10, l6);
    lemma_split(t, p9, d2);
    lemma_split(t, p8, l5);
    lemma_split(t, p7, d1);
    lemma_split(t, p6, l4);
    lemma_split(t, p5, q3);
    lemma_split(t, p4, l3);
    lemma_split(t, p3, q2);
    lemma_split(t, p2, l2);
    lemma_split(t, p1, q1);
    assert(t[p8.len() as int] == t.subrange(0, p9.len() as int)[p8.len() as int]);
}

proof fn lemma_differ(t: Seq<char>, a: Seq<char>, b: Seq<char>, k: int)
    requires
        0 <= k < a.len(),
        k < b.len(),
        a.len() <= t.len(),
        b.len() <= t.len(),
        t.subrange(0, a.len() as int) == a,
        t.subrange(0, b.len() as int) == b,
    ensures
        a[k] == b[k],
{
    assert(t.subrange(0, a.len() as int)[k] == t[k]);
    assert(t.subrange(0, b.len() as int)[k] == t[k]);
}

/// Reads the message whose encoding starts `t`, without checking that the
/// encoding is exactly `t`.
#[verifier::rlimit(50)]
fn read_message(t: &Vec<char>, Ghost(w): Ghost<WireMessage>) -> (r: Option<PeerMessage>)
    ensures
        message_text(w) == t@ ==> (r matches Some(m) && m@ == w),
{
    let l_hreq = "{\"Heartbeat\":{\"Request\":{\"peer_info\":{\"node_id\":";
    let l_hresp = "{\"Heartbeat\":{\"Response\":{\"node_id\":";
    let l_vreq = "{\"Vote\":{\"Request\":{\"node_id\":";
    let l_vresp = "{\"Vote\":{\"Response\":{\"node_id\":";
    let l_addr = ",\"address\":";
    let l_pub = "},\"public_endpoints\":{\"address\":";
    let l_tcp = ",\"tcp_port\":";
    let l_ws = ",\"ws_port\":";
    let ghost l_end4 = "}}}}"@;
    let ghost l_end3 = "}}}"@;
    let ghost h = message_text(w) == t@;
    let ghost (n1, a1, h1, tp, wp) = match w {
        WireMessage::HeartbeatRequest { node_id, address, public_address, tcp_port, ws_port } =>
            (node_id, address, public_address, tcp_port, ws_port),
        WireMessage::HeartbeatResponse { node_id } => (node_id, Seq::empty(), Seq::empty(), 0u16, 0u16),
        WireMessage::VoteRequest { node_id } => (node_id, Seq::empty(), Seq::empty(), 0u16, 0u16),
        WireMessage::VoteResponse { node_id } => (node_id, Seq::empty(), Seq::empty(), 0u16, 0u16),
    };
    let ghost lit = if w is HeartbeatResponse {
        l_hresp@
    } else if w is VoteRequest {
        l_vreq@
    } else if w is VoteResponse {
        l_vresp@
    } else {
        l_hreq@
    };
    proof {
        reveal_strlit("{\"Heartbeat\":{\"Request\":{\"peer_info\":{\"node_id\":");
        reveal_strlit("{\"Heartbeat\":{\"Response\":{\"node_id\":");
        reveal_strlit("{\"Vote\":{\"Request\":{\"node_id\":");
        reveal_strlit("{\"Vote\":{\"Response\":{\"node_id\":");
        reveal_strlit(",\"ws_port\":");
        reveal_strlit("}}}}");
        if h && w is HeartbeatRequest {
            lemma_decimal(tp as nat);
            lemma_decimal(wp as nat);
            lemma_request_pieces(
                t@,
                l_hreq@,
                quoted(n1),
                l_addr@,
                quoted(a1),
                l_pub@,
                quoted(h1),
                l_tcp@,
                decimal(tp as nat),
                l_ws@,
                decimal(wp as nat),
                l_end4,
            );
            assert(!is_digit(l_ws@[0]));
            assert(!is_digit(l_end4[0]));
            let o7 = l_hreq@.len() + quoted(n1).len() + l_addr@.len() + quoted(a1).len()
                + l_pub@.len() + quoted(h1).len() + l_tcp@.len();
            let o9 = o7 + decimal(tp as nat).len() + l_ws@.len();
            assert(decimal_at(t@, o7 as int, tp));
            assert(decimal_at(t@, o9 as int, wp));
        }
        if h && !(w is HeartbeatRequest) {
            lemma_single_pieces(t@, lit, n1, l_end3);
        }
    }
    match has_at(t, 0, l_hreq) {
        Some(i) => {
            proof {
                if h && !(w is HeartbeatRequest) {
                    let k: int = if w is HeartbeatResponse { 17 } else { 2 };
                    lemma_differ(t@, l_hreq@, lit, k);
                }
            }
            let (node_id, i) = read_string(t, i, Ghost(n1))?;
            let i = has_at(t, i, l_addr)?;
            let (address, i) = read_string(t, i, Ghost(a1))?;
            let i = has_at(t, i, l_pub)?;
            let (public_address, i) = read_string(t, i, Ghost(h1))?;
            let i = has_at(t, i, l_tcp)?;
            let (tcp_port, i) = read_u16(t, i, Ghost(tp))?;
            let i = has_at(t, i, l_ws)?;
            let (ws_port, _) = read_u16(t, i, Ghost(wp))?;
            Some(
                PeerMessage::Heartbeat(
                    Heartbeat::Request(
                        HeartbeatRequest {
                            peer_info: PeerInfo { node_id, address },
                            public_endpoints: PublicEndpoints {
                                address: public_address,
                                tcp_port,
                                ws_port,
                            },
                        },
                    ),
                ),
            )
        },
        None => match has_at(t, 0, l_hresp) {
            Some(i) => {
                proof {
                    if h && !(w is HeartbeatResponse) {
                        lemma_differ(t@, l_hresp@, lit, 2);
                    }
                }
                let (node_id, _) = read_string(t, i, Ghost(n1))?;
                Some(PeerMessage::Heartbeat(Heartbeat::Response(HeartbeatResponse { node_id })))
            },
            None => match has_at(t, 0, l_vreq) {
                Some(i) => {
                    proof {
                        if h && w is VoteResponse {
                            lemma_differ(t@, l_vreq@, lit, 12);
                        }
                    }
                    let (node_id, _) = read_string(t, i, Ghost(n1))?;
                    Some(PeerMessage::Vote(Vote::Request(VoteRequest { node_id })))
                },
                None => match has_at(t, 0, l_vresp) {
                    Some(i) => {
                        let (node_id, _) = read_string(t, i, Ghost(n1))?;
                        Some(PeerMessage::Vote(Vote::Response(VoteResponse { node_id })))
                    },
                    None => None,
                },
            },
        },
    }
}

fn same_chars(a: &Vec<char>, b: &Vec<char>) -> (r: bool)
    ensures
        r == (a@ == b@),
{
    if a.len() != b.len() {
        return false;
    }
    let mut i: usize = 0;
    while i < a.len()
        invariant
            a@.len() == b@.len(),
            i <= a@.len(),
            forall|k: int| 0 <= k < i ==> a@[k] == b@[k],
        decreases a@.len() - i,
    {
        if a[i] != b[i] {
            return false;
        }
        i = i + 1;
    }
    assert(a@ =~= b@);
    true
}

/// Decodes a text.
pub fn decode_text(text: &str) -> (r: Result<PeerMessage, DecodeError>)
    ensures
        r is Ok <==> is_message_text(text@),
        r matches Ok(m) ==> message_text(m@) == text@,
        forall|w: WireMessage| message_text(w) == text@ ==> (r matches Ok(m) && m@ == w),
        r matches Err(e) ==> e == DecodeError::Malformed,
{
    proof {
        assert forall|w1: WireMessage, w2: WireMessage|
            message_text(w1) == text@ && message_text(w2) == text@ implies w1 == w2 by {
            lemma_message_text_injective(w1, w2);
        }
    }
    let t = chars_of(text);
    let ghost w = choose|w: WireMessage| message_text(w) == text@;
    match read_message(&t, Ghost(w)) {
        Some(m) => {
            let back = encode(&m);
            let back_chars = chars_of(back.as_str());
            if same_chars(&back_chars, &t) {
                Ok(m)
            } else {
                Err(DecodeError::Malformed)
            }
        },
        None => Err(DecodeError::Malformed),
    }
}

/// Decodes the bytes of a datagram.
pub fn decode(bytes: &[u8]) -> (r: Result<PeerMessage, DecodeError>)
    ensures
        !valid_utf8(bytes@) <==> r == Err::<PeerMessage, DecodeError>(DecodeError::InvalidUtf8),
        r is Ok <==> valid_utf8(bytes@) && is_message_text(decode_utf8(bytes@)),
        r matches Ok(m) ==> message_text(m@) == decode_utf8(bytes@),
        forall|w: WireMessage|
            valid_utf8(bytes@) && message_text(w) == decode_utf8(bytes@) ==> (r matches Ok(m) && m@
                == w),
{
    match str_of_utf8(bytes) {
        Some(text) => decode_text(text),
        None => Err(DecodeError::InvalidUtf8),
    }
}

} // verus!
