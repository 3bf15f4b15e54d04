//! Percent-encoding of text in URLs, and queries.

use vstd::prelude::*;
use vstd::utf8;
use crate::bytes;
use crate::digits;
use crate::table;
use crate::text;

verus! {

/// The value of a byte as a hexadecimal digit.
pub open spec fn hex_value(c: u8) -> Option<nat> {
    digits::digit_of(c as char)
}

/// What percent-encoded bytes stand for. With `plus`, a plus sign stands for a blank. A percent
/// sign that two hexadecimal digits do not follow stands for itself.
pub open spec fn decoded(b: Seq<u8>, plus: bool) -> Seq<u8>
    decreases b.len(),
{
    if b.len() == 0 {
        Seq::empty()
    } else if b[0] == 0x25 && b.len() > 2 && hex_value(b[1]) is Some && hex_value(b[2]) is Some {
        seq![(hex_value(b[1])->0 * 16 + hex_value(b[2])->0) as u8] + decoded(b.skip(3), plus)
    } else if plus && b[0] == 0x2b {
        seq![0x20u8] + decoded(b.skip(1), plus)
    } else {
        seq![b[0]] + decoded(b.skip(1), plus)
    }
}

/// The value of a byte as a hexadecimal digit, where it is one.
fn hex(c: u8) -> (r: Option<u8>)
    ensures
        r is Some <==> hex_value(c) is Some,
        r matches Some(v) ==> hex_value(c) == Some(v as nat) && v < 16,
{
    match digits::digit(c as char, 16) {
        Some(d) => Some(d as u8),
        None => None,
    }
}

/// Decodes percent-encoded bytes.
fn decode(b: &Vec<u8>, plus: bool) -> (r: Vec<u8>)
    ensures
        r@ == decoded(b@, plus),
{
    let n = b.len();
    let mut out: Vec<u8> = Vec::new();
    let mut i: usize = 0;
    assert(b@.skip(0) =~= b@);
    while i < n
        invariant
            i <= n == b@.len(),
            decoded(b@, plus) == out@ + decoded(b@.skip(i as int), plus),
        decreases n - i,
    {
        let ghost was = out@;
        let ghost rest = b@.skip(i as int);
        let mut step: usize = 1;
        let mut byte: u8 = b[i];
        if b[i] == 0x25 && n - i > 2 {
            match (hex(b[i + 1]), hex(b[i + 2])) {
                (Some(h), Some(l)) => {
                    byte = h * 16 + l;
                    step = 3;
                },
                _ => {},
            }
        } else if plus && b[i] == 0x2b {
            byte = 0x20;
        }
        out.push(byte);
        i = i + step;
        proof {
            assert(rest.skip(step as int) =~= b@.skip(i as int));
            assert(out@ =~= was + seq![byte]);
            assert(decoded(rest, plus) =~= seq![byte] + decoded(b@.skip(i as int), plus));
            assert(was + (seq![byte] + decoded(b@.skip(i as int), plus)) =~= out@ + decoded(
                b@.skip(i as int),
                plus,
            ));
        }
    }
    assert(out@ + Seq::<u8>::empty() =~= out@);
    out
}

/// The text that percent-encoded text stands for, with plus signs for blanks.
pub open spec fn plain(s: Seq<char>) -> Seq<char> {
    bytes::text_of(decoded(utf8::encode_utf8(s), true))
}

/// Decodes percent-encoded text, with plus signs for blanks.
pub fn url_decode(s: &str) -> (r: String)
    ensures
        r@ == plain(s@),
{
    let b = bytes::bytes_of(s);
    let d = decode(&b, true);
    bytes::lossy(&d)
}

/// The name that a percent-encoded part of a path stands for; a plus sign stands for itself.
pub open spec fn plain_name(s: Seq<char>) -> Seq<char> {
    bytes::text_of(decoded(utf8::encode_utf8(s), false))
}

/// Decodes a percent-encoded name in a path.
pub fn url_decode_name(s: &str) -> (r: String)
    ensures
        r@ == plain_name(s@),
{
    let b = bytes::bytes_of(s);
    let d = decode(&b, false);
    bytes::lossy(&d)
}

/// Whether a byte stands for itself in an encoded name: letters, digits and `-_.~`.
pub open spec fn unreserved(c: u8) -> bool {
    ||| 0x41 <= c <= 0x5a
    ||| 0x61 <= c <= 0x7a
    ||| 0x30 <= c <= 0x39
    ||| c == 0x2d
    ||| c == 0x5f
    ||| c == 0x2e
    ||| c == 0x7e
}

/// The capital hexadecimal digit of a value below 16.
pub open spec fn capital_digit(d: nat) -> char {
    if d < 10 {
        ((48 + d) as u32) as char
    } else {
        ((55 + d) as u32) as char
    }
}

/// How a byte is written in an encoded name.
pub open spec fn escape(c: u8) -> Seq<char> {
    if unreserved(c) {
        seq![c as char]
    } else {
        seq!['%', capital_digit(c as nat / 16), capital_digit(c as nat % 16)]
    }
}

/// The bytes written one after another.
pub open spec fn escapes(b: Seq<u8>) -> Seq<char>
    decreases b.len(),
{
    if b.len() == 0 {
        Seq::empty()
    } else {
        escape(b[0]) + escapes(b.skip(1))
    }
}

/// The percent-encoded form of a text.
pub open spec fn encoded(s: Seq<char>) -> Seq<char> {
    escapes(utf8::encode_utf8(s))
}

/// The capital hexadecimal digit of a value below 16.
fn hex_digit(d: u8) -> (c: char)
    requires
        d < 16,
    ensures
        c == capital_digit(d as nat),
{
    if d < 10 {
        (48 + d) as char
    } else {
        (55 + d) as char
    }
}

/// Percent-encodes text for use in a path.
pub fn url_encode(s: &str) -> (r: String)
    ensures
        r@ == encoded(s@),
{
    let b = bytes::bytes_of(s);
    let n = b.len();
    let mut out = String::new();
    let mut i: usize = 0;
    assert(b@.skip(0) =~= b@);
    while i < n
        invariant
            i <= n == b@.len(),
            escapes(b@) == out@ + escapes(b@.skip(i as int)),
        decreases n - i,
    {
        let c = b[i];
        let ghost was = out@;
        if (0x41 <= c && c <= 0x5a) || (0x61 <= c && c <= 0x7a) || (0x30 <= c && c <= 0x39) || c
            == 0x2d || c == 0x5f || c == 0x2e || c == 0x7e {
            out.push(c as char);
        } else {
            out.push('%');
            out.push(hex_digit(c / 16));
            out.push(hex_digit(c % 16));
        }
        i = i + 1;
        proof {
            assert(out@ =~= was + escape(c));
            assert(b@.skip(i - 1).skip(1) =~= b@.skip(i as int));
            assert(was + (escape(c) + escapes(b@.skip(i as int))) =~= out@ + escapes(
                b@.skip(i as int),
            ));
        }
    }
    assert(out@ + Seq::<char>::empty() =~= out@);
    out
}

/// What a byte is written as is three ASCII characters at most, which decode to the byte.
proof fn lemma_escape(c: u8, rest: Seq<u8>, plus: bool)
    ensures
        utf8::is_ascii_chars(escape(c)),
        decoded(utf8::encode_utf8(escape(c)) + rest, plus) == seq![c] + decoded(rest, plus),
{
    let e = escape(c);
    assert(utf8::is_ascii_chars(e));
    utf8::is_ascii_chars_encode_utf8(e);
    let b = utf8::encode_utf8(e);
    let w = b + rest;
    assert(forall|i: int| 0 <= i < e.len() ==> #[trigger] b[i] == e[i] as u8);
    if unreserved(c) {
        assert(e[0] as u8 == c);
        assert(w.skip(1) =~= rest);
        assert(decoded(w, plus) =~= seq![c] + decoded(rest, plus));
    } else {
        let h = c as nat / 16;
        let l = c as nat % 16;
        assert(e[1] == capital_digit(h) && e[2] == capital_digit(l));
        assert(w[0] == 0x25);
        assert(w[1] == e[1] as u8);
        assert(w[2] == e[2] as u8);
        assert(hex_value(w[1]) == Some(h));
        assert(hex_value(w[2]) == Some(l));
        assert(w.skip(3) =~= rest);
        assert(h * 16 + l == c as nat);
    }
}

/// Encoded bytes are ASCII, and decode to the bytes.
proof fn lemma_escapes(b: Seq<u8>, plus: bool)
    ensures
        decoded(utf8::encode_utf8(escapes(b)), plus) == b,
    decreases b.len(),
{
    if b.len() == 0 {
        assert(utf8::encode_utf8(Seq::<char>::empty()) =~= Seq::<u8>::empty());
        assert(decoded(Seq::<u8>::empty(), plus) =~= b);
    } else {
        let t = b.skip(1);
        lemma_escapes(t, plus);
        bytes::lemma_encode_concat(escape(b[0]), escapes(t));
        lemma_escape(b[0], utf8::encode_utf8(escapes(t)), plus);
        assert(b =~= seq![b[0]] + t);
    }
}

/// Every text comes back from its percent-encoded form.
pub proof fn law_decode_undoes_encode(s: Seq<char>)
    ensures
        plain(encoded(s)) == s,
{
    lemma_escapes(utf8::encode_utf8(s), true);
    bytes::lemma_text_of_encoded(s);
}

/// Every name comes back from its percent-encoded form in a path.
pub proof fn law_name_decode_undoes_encode(s: Seq<char>)
    ensures
        plain_name(encoded(s)) == s,
{
    lemma_escapes(utf8::encode_utf8(s), false);
    bytes::lemma_text_of_encoded(s);
}

/// The name and the value that one part of a query gives, where it gives any.
pub open spec fn assignment(part: Seq<char>) -> Option<(Seq<char>, Seq<char>)> {
    let i = text::first_in(part, seq!['='], 0);
    if 0 <= i < part.len() {
        Some((plain(part.take(i)), plain(part.skip(i + 1))))
    } else if part.len() > 0 {
        Some((plain(part), Seq::empty()))
    } else {
        None
    }
}

/// The value that a query gives to the name `k`: that of the last part that names it.
pub open spec fn assigned(parts: Seq<Seq<char>>, k: Seq<char>) -> Option<Seq<char>>
    decreases parts.len(),
{
    if parts.len() == 0 {
        None
    } else {
        match assignment(parts.last()) {
            Some(a) if a.0 == k => Some(a.1),
            _ => assigned(parts.drop_last(), k),
        }
    }
}

/// The value of a name in a table of texts.
pub open spec fn text_at(t: Seq<(String, String)>, k: Seq<char>) -> Option<Seq<char>> {
    match table::lookup(t, k) {
        Some(v) => Some(v@),
        None => None,
    }
}

/// Reads the query of a URL as a table.
pub fn parse_query(q: &str) -> (r: Vec<(String, String)>)
    ensures
        table::distinct(r@),
        forall|k: Seq<char>| #[trigger]
            text_at(r@, k) == assigned(text::fields(q@, seq!['&']), k),
{
    proof {
        reveal_strlit("&");
        assert("&"@ =~= seq!['&']);
    }
    let parts = text::split(q, "&");
    let ghost ps = text::texts(parts@);
    let eq: Vec<char> = vec!['='];
    let mut out: Vec<(String, String)> = Vec::new();
    let mut i: usize = 0;
    while i < parts.len()
        invariant
            i <= parts@.len(),
            ps == text::texts(parts@),
            eq@ == seq!['='],
            table::distinct(out@),
            forall|k: Seq<char>| #[trigger] text_at(out@, k) == assigned(ps.take(i as int), k),
        decreases parts@.len() - i,
    {
        let ghost was = out@;
        let part = &parts[i];
        let cs = text::chars_of(part.as_str());
        let j = text::find_in(&cs, &eq, 0);
        let n = cs.len();
        let ghost head = ps.take(i as int);
        i = i + 1;
        assert(ps.take(i as int).drop_last() =~= head);
        assert(ps.take(i as int).last() == part@);
        if j < n {
            let k = url_decode(text::string_of(&cs, 0, j).as_str());
            let v = url_decode(text::string_of(&cs, j + 1, n).as_str());
            assert(part@.subrange(0, j as int) =~= part@.take(j as int));
            assert(part@.subrange(j + 1, n as int) =~= part@.skip(j + 1));
            table::set(&mut out, k.as_str(), v);
            proof {
                table::law_set(was, k@, v, out@);
            }
        } else if n > 0 {
            let k = url_decode(part.as_str());
            let v = String::new();
            table::set(&mut out, k.as_str(), v);
            proof {
                table::law_set(was, k@, v, out@);
            }
        }
        assert forall|k: Seq<char>| #[trigger]
            text_at(out@, k) == assigned(ps.take(i as int), k) by {
            assert(text_at(was, k) == assigned(head, k));
            if j < n || n > 0 {
                let a = assignment(part@)->0;
                if k != a.0 {
                    assert(table::lookup(out@, k) == table::lookup(was, k));
                }
            }
        }
    }
    assert(ps.take(i as int) =~= ps);
    out
}

} // verus!
