//! What was written as JSON reads back as the value that was written.

use vstd::prelude::*;
use vstd::utf8;
use crate::bytes;
use crate::digits;
use crate::json::{self, Json};
use crate::num;
use crate::numeral;
use crate::reader;
use crate::shortest;

verus! {

/// The value with negative zero as zero: the only difference that writing and reading makes.
pub open spec fn plain(v: Json) -> Json
    decreases v,
{
    match v {
        Json::Num(n) => Json::Num(
            if num::magnitude(n) == 0 {
                0
            } else {
                n
            },
        ),
        Json::Arr(a) => Json::Arr(
            Seq::new(
                a.len(),
                |i: int|
                    if 0 <= i < a.len() {
                        plain(a[i])
                    } else {
                        Json::Null
                    },
            ),
        ),
        Json::Obj(m) => Json::Obj(
            Seq::new(
                m.len(),
                |i: int|
                    if 0 <= i < m.len() {
                        (m[i].0, plain(m[i].1))
                    } else {
                        (Seq::empty(), Json::Null)
                    },
            ),
        ),
        _ => v,
    }
}

/// Whether all numbers are finite.
pub open spec fn finite(v: Json) -> bool
    decreases v,
{
    match v {
        Json::Num(n) => num::is_finite(n),
        Json::Arr(a) => forall|i: int| 0 <= i < a.len() ==> finite(#[trigger] a[i]),
        Json::Obj(m) => forall|i: int| 0 <= i < m.len() ==> finite((#[trigger] m[i]).1),
        _ => true,
    }
}

/// Whether the members of all objects are in order.
pub open spec fn ordered(v: Json) -> bool
    decreases v,
{
    match v {
        Json::Arr(a) => forall|i: int| 0 <= i < a.len() ==> ordered(#[trigger] a[i]),
        Json::Obj(m) => json::in_order(m) && forall|i: int|
            0 <= i < m.len() ==> ordered((#[trigger] m[i]).1),
        _ => true,
    }
}

/// Whether a value can be written and read back.
pub open spec fn tidy(v: Json) -> bool {
    finite(v) && ordered(v)
}

/// Whether an indentation is made of spaces.
pub open spec fn spaces(pad: Option<Seq<char>>) -> bool {
    pad matches Some(p) ==> forall|i: int| 0 <= i < p.len() ==> #[trigger] p[i] == ' '
}

// -------------------------------------------------------------- texts in bytes

/// Whether the bytes of the text `t` stand at position `i`.
pub open spec fn holds(b: Seq<u8>, i: int, t: Seq<char>) -> bool {
    let e = utf8::encode_utf8(t);
    0 <= i && i + e.len() <= b.len() && b.subrange(i, i + e.len()) == e
}

/// The number of bytes of a text.
pub open spec fn width(t: Seq<char>) -> int {
    utf8::encode_utf8(t).len() as int
}

pub proof fn lemma_holds_split(b: Seq<u8>, i: int, s: Seq<char>, t: Seq<char>)
    ensures
        holds(b, i, s + t) <==> holds(b, i, s) && holds(b, i + width(s), t),
        width(s + t) == width(s) + width(t),
{
    bytes::lemma_encode_concat(s, t);
    let x = utf8::encode_utf8(s);
    let y = utf8::encode_utf8(t);
    let z = x + y;
    if 0 <= i && i + z.len() <= b.len() {
        let w = b.subrange(i, i + z.len());
        assert(w.subrange(0, x.len() as int) =~= b.subrange(i, i + x.len()));
        assert(w.subrange(x.len() as int, z.len() as int) =~= b.subrange(
            i + x.len(),
            i + x.len() + y.len(),
        ));
        if holds(b, i, s + t) {
            assert(w == z);
            assert(z.subrange(0, x.len() as int) =~= x);
            assert(z.subrange(x.len() as int, z.len() as int) =~= y);
        }
        if b.subrange(i, i + x.len()) == x && b.subrange(i + x.len(), i + x.len() + y.len()) == y {
            assert(w =~= z);
        }
    }
}

/// Three texts in a row.
pub proof fn lemma_holds_split3(b: Seq<u8>, i: int, s: Seq<char>, t: Seq<char>, u: Seq<char>)
    ensures
        holds(b, i, s + t + u) <==> holds(b, i, s) && holds(b, i + width(s), t) && holds(
            b,
            i + width(s) + width(t),
            u,
        ),
        width(s + t + u) == width(s) + width(t) + width(u),
{
    lemma_holds_split(b, i, s + t, u);
    lemma_holds_split(b, i, s, t);
}

/// An ASCII character is one byte.
pub proof fn lemma_ascii(b: Seq<u8>, i: int, c: char)
    requires
        c <= '\u{7f}',
    ensures
        width(seq![c]) == 1,
        utf8::encode_utf8(seq![c]) == seq![c as u8],
        holds(b, i, seq![c]) <==> reader::at(b, i, c as u8),
{
    let s = seq![c];
    assert(utf8::is_ascii_chars(s));
    utf8::is_ascii_chars_encode_utf8(s);
    let e = utf8::encode_utf8(s);
    assert(s[0] as u8 == e[0]);
    assert(e =~= seq![c as u8]);
    if 0 <= i < b.len() {
        assert(b.subrange(i, i + 1)[0] == b[i]);
        if b[i] == c as u8 {
            assert(b.subrange(i, i + 1) =~= e);
        }
    }
}

/// A character beyond ASCII has no ASCII byte in its encoding.
pub proof fn lemma_high_bytes(c: char)
    requires
        c > '\u{7f}',
    ensures
        forall|k: int|
            0 <= k < width(seq![c]) ==> #[trigger] utf8::encode_utf8(seq![c])[k] >= 0x80,
{
    let s = seq![c];
    let u = c as u32;
    utf8::char_is_scalar(c);
    assert(s.drop_first() =~= Seq::<char>::empty());
    assert(utf8::encode_utf8(s.drop_first()) =~= Seq::<u8>::empty());
    assert(utf8::encode_utf8(s) =~= utf8::encode_scalar(u));
    assert(0xC0u8 | ((u >> 6) & 0x1F) as u8 >= 0x80) by (bit_vector);
    assert(0xE0u8 | ((u >> 12) & 0x0F) as u8 >= 0x80) by (bit_vector);
    assert(0xF0u8 | ((u >> 18) & 0x7) as u8 >= 0x80) by (bit_vector);
    assert(0x80u8 | (u & 0x3F) as u8 >= 0x80) by (bit_vector);
    assert(0x80u8 | ((u >> 6) & 0x3F) as u8 >= 0x80) by (bit_vector);
    assert(0x80u8 | ((u >> 12) & 0x3F) as u8 >= 0x80) by (bit_vector);
}

// -------------------------------------------------------------------- strings

/// A character between quotes; with `raw`, control characters stand for themselves.
pub open spec fn piece(c: char, raw: bool) -> Seq<char> {
    if raw && c != '"' && c != '\\' {
        seq![c]
    } else {
        json::escaped_char(c)
    }
}

/// The first `n` characters of `s` between quotes.
pub open spec fn pieces(s: Seq<char>, n: int, raw: bool) -> Seq<char>
    decreases n,
{
    if n <= 0 {
        Seq::empty()
    } else {
        pieces(s, n - 1, raw) + piece(s[n - 1], raw)
    }
}

/// `s` between quotes.
pub open spec fn spelled(s: Seq<char>, raw: bool) -> Seq<char> {
    seq!['"'] + pieces(s, s.len() as int, raw) + seq!['"']
}

pub proof fn lemma_quoted_is_spelled(s: Seq<char>, n: int)
    ensures
        pieces(s, n, false) == json::escaped(s, n),
        json::quoted(s) == spelled(s, false),
    decreases n,
{
    if n > 0 {
        lemma_quoted_is_spelled(s, n - 1);
    }
    if n != s.len() {
        lemma_escaped_same(s, s.len() as int);
    }
}

proof fn lemma_escaped_same(s: Seq<char>, n: int)
    ensures
        pieces(s, n, false) == json::escaped(s, n),
    decreases n,
{
    if n > 0 {
        lemma_escaped_same(s, n - 1);
    }
}

/// Bytes that are neither quote nor backslash are taken over.
pub proof fn lemma_raw_bytes(b: Seq<u8>, i: int, out: Seq<u8>, t: Seq<u8>, n: int)
    requires
        0 <= i,
        i + t.len() <= b.len(),
        b.subrange(i, i + t.len()) == t,
        0 <= n <= t.len(),
        forall|k: int| 0 <= k < t.len() ==> #[trigger] t[k] != '"' as u8 && t[k] != '\\' as u8,
    ensures
        reader::string_body(b, i, out) == reader::string_body(b, i + n, out + t.take(n)),
    decreases n,
{
    if n == 0 {
        assert(out + t.take(0) =~= out);
    } else {
        lemma_raw_bytes(b, i, out, t, n - 1);
        assert(b[i + n - 1] == t[n - 1]) by {
            assert(b.subrange(i, i + t.len())[n - 1] == b[i + n - 1]);
        }
        assert((out + t.take(n - 1)).push(t[n - 1]) =~= out + t.take(n));
    }
}

/// Reading one character of a string.
proof fn lemma_piece(b: Seq<u8>, i: int, out: Seq<u8>, c: char, raw: bool)
    requires
        holds(b, i, piece(c, raw)),
    ensures
        reader::string_body(b, i, out) == reader::string_body(
            b,
            i + width(piece(c, raw)),
            out + utf8::encode_utf8(seq![c]),
        ),
{
    let p = piece(c, raw);
    let e = utf8::encode_utf8(seq![c]);
    if p == seq![c] && c != '"' && c != '\\' {
        if c <= '\u{7f}' {
            lemma_ascii(b, i, c);
            assert(e[0] == c as u8);
        } else {
            lemma_high_bytes(c);
        }
        lemma_raw_bytes(b, i, out, e, e.len() as int);
        assert(e.take(e.len() as int) =~= e);
    } else {
        lemma_ascii(b, i, c);
        assert(out.push(c as u8) =~= out + e);
        let bs = seq!['\\'];
        lemma_ascii(b, i, '\\');
        let x = p[1];
        let rest = p.skip(1);
        assert(p =~= bs + rest);
        lemma_holds_split(b, i, bs, rest);
        if p.len() == 2 {
            assert(rest =~= seq![x]);
            lemma_ascii(b, i + 1, x);
            assert(reader::short_escape(x as u8) == c as u8);
        } else {
            let u = c as u32;
            let d1 = p[4];
            let d2 = p[5];
            assert(u < 0x20);
            assert(rest =~= seq!['u'] + seq!['0'] + seq!['0'] + seq![d1] + seq![d2]);
            lemma_ascii(b, i + 1, 'u');
            lemma_ascii(b, i + 2, '0');
            lemma_ascii(b, i + 3, '0');
            lemma_ascii(b, i + 4, d1);
            lemma_ascii(b, i + 5, d2);
            lemma_holds_split(b, i + 1, seq!['u'] + seq!['0'] + seq!['0'] + seq![d1], seq![d2]);
            lemma_holds_split(b, i + 1, seq!['u'] + seq!['0'] + seq!['0'], seq![d1]);
            lemma_holds_split(b, i + 1, seq!['u'] + seq!['0'], seq!['0']);
            lemma_holds_split(b, i + 1, seq!['u'], seq!['0']);
            let t = reader::latin(b.subrange(i + 2, i + 6));
            assert(t =~= seq!['0', '0', d1, d2]);
            lemma_hex(d1, d2, (u / 16) as nat, (u % 16) as nat);
            utf8::char_u32_cast(c, u);
            assert(reader::unicode_escape(b, i + 2) == c);
        }
    }
}

/// Two hexadecimal digits after two zeros.
proof fn lemma_hex(d1: char, d2: char, x: nat, y: nat)
    requires
        x < 2,
        y < 16,
        d1 == digits::digit_char(x),
        d2 == digits::digit_char(y),
    ensures
        digits::unsigned(seq!['0', '0', d1, d2], 16, u32::MAX as nat) == Some(16 * x + y),
{
    let t = seq!['0', '0', d1, d2];
    assert(digits::digit_of('0') == Some(0nat));
    assert(digits::digit_of(d1) == Some(x));
    assert(digits::digit_of(d2) == Some(y));
    assert(digits::unsigned_part(t) == t);
    reveal_with_fuel(digits::value, 5);
    assert(t.drop_last() =~= seq!['0', '0', d1]);
    assert(t.drop_last().drop_last() =~= seq!['0', '0']);
    assert(t.drop_last().drop_last().drop_last() =~= seq!['0']);
    assert(t.drop_last().drop_last().drop_last().drop_last() =~= Seq::<char>::empty());
    assert(digits::value(t, 16) == 16 * x + y);
}

proof fn lemma_pieces(b: Seq<u8>, i: int, s: Seq<char>, n: int, raw: bool)
    requires
        0 <= n <= s.len(),
        holds(b, i, pieces(s, n, raw)),
    ensures
        reader::string_body(b, i, Seq::empty()) == reader::string_body(
            b,
            i + width(pieces(s, n, raw)),
            utf8::encode_utf8(s.take(n)),
        ),
    decreases n,
{
    if n == 0 {
        assert(s.take(0) =~= Seq::<char>::empty());
        assert(utf8::encode_utf8(s.take(0)) =~= Seq::<u8>::empty());
        assert(utf8::encode_utf8(Seq::<char>::empty()).len() == 0);
    } else {
        let p = pieces(s, n - 1, raw);
        let c = s[n - 1];
        lemma_holds_split(b, i, p, piece(c, raw));
        lemma_pieces(b, i, s, n - 1, raw);
        lemma_piece(b, i + width(p), utf8::encode_utf8(s.take(n - 1)), c, raw);
        assert(s.take(n) =~= s.take(n - 1) + seq![c]);
        bytes::lemma_encode_concat(s.take(n - 1), seq![c]);
    }
}

/// A string that was written reads back.
pub proof fn lemma_string(b: Seq<u8>, i: int, s: Seq<char>, raw: bool)
    requires
        holds(b, i, spelled(s, raw)),
    ensures
        reader::string_at(b, i) == Ok::<(Seq<char>, int), Seq<char>>(
            (s, i + width(spelled(s, raw))),
        ),
{
    let q = seq!['"'];
    let t = pieces(s, s.len() as int, raw);
    lemma_holds_split3(b, i, q, t, q);
    lemma_ascii(b, i, '"');
    lemma_ascii(b, i + 1 + width(t), '"');
    lemma_pieces(b, i + 1, s, s.len() as int, raw);
    assert(s.take(s.len() as int) =~= s);
    bytes::lemma_text_of_encoded(s);
}

// -------------------------------------------------------------------- numbers

/// Whether a number would end at position `i`.
pub open spec fn ends(b: Seq<u8>, i: int) -> bool {
    i >= b.len() || !reader::is_num_byte(b[i])
}

pub proof fn lemma_num_end_is(b: Seq<u8>, i: int, j: int)
    requires
        0 <= i <= j <= b.len(),
        forall|k: int| i <= k < j ==> reader::is_num_byte(#[trigger] b[k]),
        ends(b, j),
    ensures
        reader::num_end(b, i) == j,
    decreases j - i,
{
    if i < j {
        lemma_num_end_is(b, i + 1, j);
    }
}

/// A text of digits, points and minus signs that writes a number is read as that number.
pub proof fn lemma_number_text(b: Seq<u8>, i: int, t: Seq<char>, x: u64)
    requires
        t.len() > 0,
        forall|k: int|
            0 <= k < t.len() ==> digits::is_digit(#[trigger] t[k], 10) || t[k] == '.' || t[k] == '-',
        numeral::number_text(t) == Some(x),
        holds(b, i, t),
        ends(b, i + width(t)),
    ensures
        reader::value_at(b, i) == Ok::<(Json, int), Seq<char>>((Json::Num(x), i + width(t))),
        width(t) > 0,
        b[i] == '-' as u8 || '0' as u8 <= b[i] <= '9' as u8 || b[i] == '.' as u8,
{
    let e = utf8::encode_utf8(t);
    assert(utf8::is_ascii_chars(t)) by {
        assert forall|k: int| 0 <= k < t.len() implies '\0' <= #[trigger] t[k] <= '\u{7f}' by {
            assert(digits::is_digit(t[k], 10) || t[k] == '.' || t[k] == '-');
        }
    }
    utf8::is_ascii_chars_encode_utf8(t);
    let j = i + e.len();
    assert forall|k: int| i <= k < j implies reader::is_num_byte(#[trigger] b[k]) by {
        assert(b.subrange(i, j)[k - i] == b[k]);
        assert(t[k - i] as u8 == e[k - i]);
        assert(digits::is_digit(t[k - i], 10) || t[k - i] == '.' || t[k - i] == '-');
    }
    lemma_num_end_is(b, i, j);
    assert(reader::latin(b.subrange(i, j)) =~= t) by {
        assert forall|k: int| 0 <= k < t.len() implies e[k] as char == #[trigger] t[k] by {
            assert(t[k] as u8 == e[k]);
            assert(digits::is_digit(t[k], 10) || t[k] == '.' || t[k] == '-');
        }
    }
    assert(b.subrange(i, j)[0] == b[i]);
    assert(t[0] as u8 == e[0]);
    assert(digits::is_digit(t[0], 10) || t[0] == '.' || t[0] == '-');
}

/// A number that was written reads back.
pub proof fn lemma_number(b: Seq<u8>, i: int, n: u64)
    requires
        num::is_finite(n),
        holds(b, i, shortest::shown(n)),
        ends(b, i + width(shortest::shown(n))),
    ensures
        reader::value_at(b, i) == Ok::<(Json, int), Seq<char>>(
            (plain(Json::Num(n)), i + width(shortest::shown(n))),
        ),
        b[i] == '-' as u8 || '0' as u8 <= b[i] <= '9' as u8 || b[i] == '.' as u8,
{
    shortest::law_shown_reads_back(n);
    lemma_number_text(
        b,
        i,
        shortest::shown(n),
        if num::magnitude(n) == 0 {
            0
        } else {
            n
        },
    );
}

// ---------------------------------------------------------------- white space

pub proof fn lemma_skip_is(b: Seq<u8>, i: int, j: int)
    requires
        0 <= i <= j <= b.len(),
        forall|k: int| i <= k < j ==> reader::is_ws(#[trigger] b[k]),
        j == b.len() || !reader::is_ws(b[j]),
    ensures
        reader::skip_ws(b, i) == j,
    decreases j - i,
{
    if i < j {
        lemma_skip_is(b, i + 1, j);
    }
}

/// What separates lines is skipped.
proof fn lemma_line(b: Seq<u8>, i: int, pad: Option<Seq<char>>)
    requires
        spaces(pad),
        holds(b, i, json::line(pad)),
        i + width(json::line(pad)) == b.len() || !reader::is_ws(b[i + width(json::line(pad))]),
    ensures
        reader::skip_ws(b, i) == i + width(json::line(pad)),
        width(json::line(pad)) > 0 ==> b[i] == '\n' as u8,
{
    let t = json::line(pad);
    let e = utf8::encode_utf8(t);
    assert(utf8::is_ascii_chars(t)) by {
        assert forall|k: int| 0 <= k < t.len() implies '\0' <= #[trigger] t[k] <= '\u{7f}' by {
            if k > 0 {
                assert(t[k] == pad->0[k - 1]);
            }
        }
    }
    utf8::is_ascii_chars_encode_utf8(t);
    assert forall|k: int| i <= k < i + e.len() implies reader::is_ws(#[trigger] b[k]) by {
        assert(b.subrange(i, i + e.len())[k - i] == b[k]);
        assert(t[k - i] as u8 == e[k - i]);
        if k > i {
            assert(t[k - i] == pad->0[k - i - 1]);
        }
    }
    lemma_skip_is(b, i, i + e.len());
    if e.len() > 0 {
        assert(b.subrange(i, i + e.len())[0] == b[i]);
        assert(t[0] as u8 == e[0]);
    }
}

/// What may stand at the start of a value.
pub open spec fn opens(c: u8) -> bool {
    !reader::is_ws(c) && c != ']' as u8 && c != '}' as u8 && c != ',' as u8
}

/// How a value that was written starts.
proof fn lemma_opens(b: Seq<u8>, i: int, v: Json, pad: Option<Seq<char>>)
    requires
        tidy(v),
        holds(b, i, json::render(v, pad)),
    ensures
        width(json::render(v, pad)) > 0,
        opens(b[i]),
{
    let t = json::render(v, pad);
    let e = utf8::encode_utf8(t);
    reveal_strlit("null");
    reveal_strlit("true");
    reveal_strlit("false");
    if let Json::Num(n) = v {
        shortest::law_shown_reads_back(n);
        assert(digits::is_digit(t[0], 10) || t[0] == '.' || t[0] == '-');
    }
    assert(t.len() > 0 && t[0] <= '\u{7f}');
    let h = seq![t[0]];
    assert(t =~= h + t.skip(1));
    lemma_holds_split(b, i, h, t.skip(1));
    lemma_ascii(b, i, t[0]);
}

// ------------------------------------------------------------------ the values

/// A word of the language.
pub proof fn lemma_word(b: Seq<u8>, i: int, t: Seq<char>, w: Seq<u8>)
    requires
        holds(b, i, t),
        utf8::is_ascii_chars(t),
        t.len() == w.len(),
        forall|k: int| 0 <= k < t.len() ==> #[trigger] t[k] as u8 == w[k],
    ensures
        i + w.len() <= b.len(),
        b.subrange(i, i + w.len()) == w,
        width(t) == w.len(),
        w.len() > 0 ==> b[i] == w[0],
{
    utf8::is_ascii_chars_encode_utf8(t);
    let e = utf8::encode_utf8(t);
    assert(e =~= w) by {
        assert forall|k: int| 0 <= k < w.len() implies e[k] == #[trigger] w[k] by {
            assert(t[k] as u8 == w[k]);
        }
    }
    if w.len() > 0 {
        assert(b.subrange(i, i + w.len())[0] == b[i]);
    }
}

/// A value that was written reads back, wherever it stands.
pub proof fn lemma_value(b: Seq<u8>, i: int, v: Json, pad: Option<Seq<char>>)
    requires
        tidy(v),
        spaces(pad),
        holds(b, i, json::render(v, pad)),
        ends(b, i + width(json::render(v, pad))),
    ensures
        reader::value_at(b, i) == Ok::<(Json, int), Seq<char>>(
            (plain(v), i + width(json::render(v, pad))),
        ),
    decreases v, 1nat, 0nat,
{
    let t = json::render(v, pad);
    match v {
        Json::Null => {
            reveal_strlit("null");
            let w = seq![('n' as u8), ('u' as u8), ('l' as u8), ('l' as u8)];
            lemma_word(b, i, t, w);
        },
        Json::Bool(x) => {
            reveal_strlit("true");
            reveal_strlit("false");
            let w = if x {
                seq![('t' as u8), ('r' as u8), ('u' as u8), ('e' as u8)]
            } else {
                seq![('f' as u8), ('a' as u8), ('l' as u8), ('s' as u8), ('e' as u8)]
            };
            lemma_word(b, i, t, w);
        },
        Json::Num(n) => {
            lemma_number(b, i, n);
        },
        Json::Str(s) => {
            lemma_quoted_is_spelled(s, s.len() as int);
            lemma_string(b, i, s, false);
        },
        Json::Arr(_) => {
            lemma_array(b, i, v, pad);
        },
        Json::Obj(_) => {
            lemma_object(b, i, v, pad);
        },
    }
}

#[verifier::spinoff_prover]
#[verifier::rlimit(40)]
proof fn lemma_array(b: Seq<u8>, i: int, v: Json, pad: Option<Seq<char>>)
    requires
        tidy(v),
        spaces(pad),
        v is Arr,
        holds(b, i, json::render(v, pad)),
        ends(b, i + width(json::render(v, pad))),
    ensures
        reader::value_at(b, i) == Ok::<(Json, int), Seq<char>>(
            (plain(v), i + width(json::render(v, pad))),
        ),
    decreases v, 0nat, 0nat,
{
    let t = json::render(v, pad);
    let a = v->Arr_0;
    let o = seq!['['];
    let c = seq![']'];
    lemma_ascii(b, i, '[');
    if a.len() == 0 {
        assert(t =~= o + c);
        lemma_holds_split(b, i, o, c);
        lemma_ascii(b, i + 1, ']');
        lemma_skip_is(b, i + 1, i + 1);
        assert(plain(v)->Arr_0 =~= Seq::<Json>::empty());
    } else {
        let dp = json::deeper(pad);
        let l = json::line(dp);
        let x = json::render_items(a, a.len(), dp);
        let m = json::line(pad);
        assert(t == o + l + x + m + c);
        lemma_holds_split(b, i, o + l + x + m, c);
        lemma_holds_split(b, i, o + l + x, m);
        lemma_holds_split3(b, i, o, l, x);
        let s = i + 1 + width(l);
        lemma_deeper(pad);
        lemma_ascii(b, s + width(x) + width(m), ']');
        lemma_items_prefix(b, s, a, 1, a.len(), dp);
        lemma_opens(b, s, a[0], dp);
        lemma_line(b, i + 1, dp);
        assert(Seq::<Json>::empty() =~= plain_items(a, 0));
        lemma_skip_is(b, s, s);
        lemma_items(b, s, s, a, 0, dp, pad);
        assert(plain(v)->Arr_0 =~= plain_items(a, a.len() as int));
    }
}

#[verifier::spinoff_prover]
#[verifier::rlimit(40)]
proof fn lemma_object(b: Seq<u8>, i: int, v: Json, pad: Option<Seq<char>>)
    requires
        tidy(v),
        spaces(pad),
        v is Obj,
        holds(b, i, json::render(v, pad)),
        ends(b, i + width(json::render(v, pad))),
    ensures
        reader::value_at(b, i) == Ok::<(Json, int), Seq<char>>(
            (plain(v), i + width(json::render(v, pad))),
        ),
    decreases v, 0nat, 0nat,
{
    let t = json::render(v, pad);
    let m = v->Obj_0;
    let o = seq!['{'];
    let c = seq!['}'];
    lemma_ascii(b, i, '{');
    if m.len() == 0 {
        assert(t =~= o + c);
        lemma_holds_split(b, i, o, c);
        lemma_ascii(b, i + 1, '}');
        lemma_skip_is(b, i + 1, i + 1);
        assert(plain(v)->Obj_0 =~= Seq::<(Seq<char>, Json)>::empty());
    } else {
        let dp = json::deeper(pad);
        let l = json::line(dp);
        let x = json::render_members(m, m.len(), dp);
        let n = json::line(pad);
        assert(t == o + l + x + n + c);
        lemma_holds_split(b, i, o + l + x + n, c);
        lemma_holds_split(b, i, o + l + x, n);
        lemma_holds_split3(b, i, o, l, x);
        let s = i + 1 + width(l);
        lemma_deeper(pad);
        lemma_ascii(b, s + width(x) + width(n), '}');
        lemma_members_prefix(b, s, m, 1, m.len(), dp);
        lemma_holds_split3(
            b,
            s,
            json::quoted(m[0].0),
            json::colon(dp),
            json::render(m[0].1, dp),
        );
        lemma_quote_opens(b, s, m[0].0);
        lemma_line(b, i + 1, dp);
        assert(Seq::<(Seq<char>, Json)>::empty() =~= plain_members(m, 0));
        lemma_skip_is(b, s, s);
        lemma_members(b, s, s, m, 0, dp, pad);
        assert(plain(v)->Obj_0 =~= plain_members(m, m.len() as int));
    }
}

proof fn lemma_deeper(pad: Option<Seq<char>>)
    requires
        spaces(pad),
    ensures
        spaces(json::deeper(pad)),
{
    if let Some(p) = pad {
        let q = p + seq![' ', ' '];
        assert forall|i: int| 0 <= i < q.len() implies #[trigger] q[i] == ' ' by {
            if i < p.len() {
                assert(q[i] == p[i]);
            }
        }
    }
}

/// The first `n` elements, with negative zero as zero.
pub open spec fn plain_items(a: Seq<Json>, n: int) -> Seq<Json> {
    Seq::new(n as nat, |i: int| plain(a[i]))
}

/// The first `n` members, with negative zero as zero.
pub open spec fn plain_members(m: Seq<(Seq<char>, Json)>, n: int) -> Seq<(Seq<char>, Json)> {
    Seq::new(n as nat, |i: int| (m[i].0, plain(m[i].1)))
}

/// The text of fewer elements stands at the start of that of more.
proof fn lemma_items_prefix(
    b: Seq<u8>,
    s: int,
    a: Seq<Json>,
    k: nat,
    n: nat,
    pad: Option<Seq<char>>,
)
    requires
        1 <= k <= n <= a.len(),
        holds(b, s, json::render_items(a, n, pad)),
    ensures
        holds(b, s, json::render_items(a, k, pad)),
        width(json::render_items(a, k, pad)) <= width(json::render_items(a, n, pad)),
    decreases n,
{
    if k < n {
        let x = json::render_items(a, (n - 1) as nat, pad);
        let c = seq![','];
        let l = json::line(pad);
        let r = json::render(a[n - 1], pad);
        lemma_holds_split(b, s, x + c + l, r);
        lemma_holds_split3(b, s, x, c, l);
        lemma_items_prefix(b, s, a, k, (n - 1) as nat, pad);
    }
}

/// Where element `k` starts, for elements whose text starts at `s`.
pub open spec fn item_start(s: int, a: Seq<Json>, k: nat, pad: Option<Seq<char>>) -> int {
    if k == 0 {
        s
    } else {
        s + width(json::render_items(a, k, pad)) + 1 + width(json::line(pad))
    }
}

/// The elements from the one at `k` on read back.
#[verifier::spinoff_prover]
#[verifier::rlimit(40)]
proof fn lemma_items(
    b: Seq<u8>,
    s: int,
    q: int,
    a: Seq<Json>,
    k: nat,
    pad: Option<Seq<char>>,
    outer: Option<Seq<char>>,
)
    requires
        k < a.len(),
        0 <= s,
        spaces(pad),
        spaces(outer),
        forall|i: int| 0 <= i < a.len() ==> tidy(#[trigger] a[i]),
        holds(b, s, json::render_items(a, a.len(), pad)),
        holds(b, s + width(json::render_items(a, a.len(), pad)), json::line(outer)),
        reader::at(
            b,
            s + width(json::render_items(a, a.len(), pad)) + width(json::line(outer)),
            ']' as u8,
        ),
        reader::skip_ws(b, q) == item_start(s, a, k, pad),
    ensures
        reader::items_at(b, q, plain_items(a, k as int)) == Ok::<(Json, int), Seq<char>>(
            (
                Json::Arr(plain_items(a, a.len() as int)),
                s + width(json::render_items(a, a.len(), pad)) + width(json::line(outer)) + 1,
            ),
        ),
    decreases a, 1nat, a.len() - k,
{
    let p = item_start(s, a, k, pad);
    let x = json::render_items(a, k, pad);
    let c = seq![','];
    let l = json::line(pad);
    let r = json::render(a[k as int], pad);
    lemma_items_prefix(b, s, a, k + 1, a.len(), pad);
    if k > 0 {
        lemma_holds_split(b, s, x + c + l, r);
        lemma_holds_split3(b, s, x, c, l);
        lemma_ascii(b, s + width(x), ',');
    }
    assert(tidy(a[k as int]));
    assert(holds(b, p, r));
    let f = p + width(r);
    assert(f == s + width(json::render_items(a, k + 1, pad)));
    lemma_opens(b, p, a[k as int], pad);
    if k + 1 < a.len() {
        let y = json::render_items(a, k + 1, pad);
        let r2 = json::render(a[k as int + 1], pad);
        lemma_items_prefix(b, s, a, k + 2, a.len(), pad);
        lemma_holds_split(b, s, y + c + l, r2);
        lemma_holds_split3(b, s, y, c, l);
        lemma_ascii(b, f, ',');
        lemma_value(b, p, a[k as int], pad);
        lemma_skip_is(b, f, f);
        assert(tidy(a[k as int + 1]));
        lemma_opens(b, f + 1 + width(l), a[k as int + 1], pad);
        lemma_line(b, f + 1, pad);
        lemma_items(b, s, f + 1, a, k + 1, pad, outer);
        assert(plain_items(a, k as int).push(plain(a[k as int])) =~= plain_items(a, k as int + 1));
    } else {
        let g = f + width(json::line(outer));
        lemma_line(b, f, outer);
        lemma_value(b, p, a[k as int], pad);
        assert(plain_items(a, k as int).push(plain(a[k as int])) =~= plain_items(
            a,
            a.len() as int,
        ));
    }
}

/// A quoted text starts with a quote.
proof fn lemma_quote_opens(b: Seq<u8>, i: int, s: Seq<char>)
    requires
        holds(b, i, json::quoted(s)),
    ensures
        reader::at(b, i, '"' as u8),
{
    let q = seq!['"'];
    lemma_holds_split3(b, i, q, json::escaped(s, s.len() as int), q);
    lemma_ascii(b, i, '"');
}

/// The text of fewer members stands at the start of that of more.
proof fn lemma_members_prefix(
    b: Seq<u8>,
    s: int,
    m: Seq<(Seq<char>, Json)>,
    k: nat,
    n: nat,
    pad: Option<Seq<char>>,
)
    requires
        1 <= k <= n <= m.len(),
        holds(b, s, json::render_members(m, n, pad)),
    ensures
        holds(b, s, json::render_members(m, k, pad)),
        width(json::render_members(m, k, pad)) <= width(json::render_members(m, n, pad)),
    decreases n,
{
    if k < n {
        let x = json::render_members(m, (n - 1) as nat, pad);
        let c = seq![','];
        let l = json::line(pad);
        let u = json::quoted(m[n - 1].0);
        let o = json::colon(pad);
        let r = json::render(m[n - 1].1, pad);
        lemma_holds_split(b, s, x + c + l + u + o, r);
        lemma_holds_split3(b, s, x + c + l, u, o);
        lemma_holds_split3(b, s, x, c, l);
        lemma_members_prefix(b, s, m, k, (n - 1) as nat, pad);
    }
}

/// Where member `k` starts, for members whose text starts at `s`.
pub open spec fn member_start(
    s: int,
    m: Seq<(Seq<char>, Json)>,
    k: nat,
    pad: Option<Seq<char>>,
) -> int {
    if k == 0 {
        s
    } else {
        s + width(json::render_members(m, k, pad)) + 1 + width(json::line(pad))
    }
}

/// A colon with the space after it.
proof fn lemma_colon(b: Seq<u8>, i: int, pad: Option<Seq<char>>)
    requires
        holds(b, i, json::colon(pad)),
        i + width(json::colon(pad)) < b.len(),
        opens(b[i + width(json::colon(pad))]),
    ensures
        reader::at(b, i, ':' as u8),
        reader::skip_ws(b, i) == i,
        reader::skip_ws(b, i + 1) == i + width(json::colon(pad)),
{
    lemma_ascii(b, i, ':');
    lemma_ascii(b, i + 1, ' ');
    match pad {
        None => {
            lemma_skip_is(b, i + 1, i + 1);
        },
        Some(_) => {
            assert(seq![':', ' '] =~= seq![':'] + seq![' ']);
            lemma_holds_split(b, i, seq![':'], seq![' ']);
            lemma_skip_is(b, i + 1, i + 2);
        },
    }
    lemma_skip_is(b, i, i);
}

/// Setting a member that comes after all others appends it.
pub proof fn lemma_put_last(m: Seq<(Seq<char>, Json)>, k: Seq<char>, v: Json, i: int)
    requires
        0 <= i <= m.len(),
        forall|j: int| 0 <= j < m.len() ==> json::before(#[trigger] m[j].0, k),
    ensures
        json::place(m, k, i) == m.len(),
        json::put(m, k, v) == m.push((k, v)),
    decreases m.len() - i,
{
    if i < m.len() {
        lemma_put_last(m, k, v, i + 1);
    }
    if i > 0 {
        lemma_put_last_from(m, k, 0);
    }
    assert(m.insert(m.len() as int, (k, v)) =~= m.push((k, v)));
}

proof fn lemma_put_last_from(m: Seq<(Seq<char>, Json)>, k: Seq<char>, i: int)
    requires
        0 <= i <= m.len(),
        forall|j: int| 0 <= j < m.len() ==> json::before(#[trigger] m[j].0, k),
    ensures
        json::place(m, k, i) == m.len(),
    decreases m.len() - i,
{
    if i < m.len() {
        lemma_put_last_from(m, k, i + 1);
    }
}

/// The members from the one at `k` on read back.
#[verifier::spinoff_prover]
#[verifier::rlimit(40)]
proof fn lemma_members(
    b: Seq<u8>,
    s: int,
    q: int,
    m: Seq<(Seq<char>, Json)>,
    k: nat,
    pad: Option<Seq<char>>,
    outer: Option<Seq<char>>,
)
    requires
        k < m.len(),
        0 <= s,
        spaces(pad),
        spaces(outer),
        json::in_order(m),
        forall|i: int| 0 <= i < m.len() ==> tidy((#[trigger] m[i]).1),
        holds(b, s, json::render_members(m, m.len(), pad)),
        holds(b, s + width(json::render_members(m, m.len(), pad)), json::line(outer)),
        reader::at(
            b,
            s + width(json::render_members(m, m.len(), pad)) + width(json::line(outer)),
            '}' as u8,
        ),
        reader::skip_ws(b, q) == member_start(s, m, k, pad),
    ensures
        reader::members_at(b, q, plain_members(m, k as int)) == Ok::<(Json, int), Seq<char>>(
            (
                Json::Obj(plain_members(m, m.len() as int)),
                s + width(json::render_members(m, m.len(), pad)) + width(json::line(outer)) + 1,
            ),
        ),
    decreases m, 1nat, m.len() - k,
{
    let p = member_start(s, m, k, pad);
    let x = json::render_members(m, k, pad);
    let c = seq![','];
    let l = json::line(pad);
    let name = m[k as int].0;
    let u = json::quoted(name);
    let o = json::colon(pad);
    let v = m[k as int].1;
    let r = json::render(v, pad);
    lemma_members_prefix(b, s, m, k + 1, m.len(), pad);
    if k > 0 {
        lemma_holds_split(b, s, x + c + l + u + o, r);
        lemma_holds_split3(b, s, x + c + l, u, o);
        lemma_holds_split3(b, s, x, c, l);
        lemma_ascii(b, s + width(x), ',');
    } else {
        lemma_holds_split3(b, s, u, o, r);
    }
    assert(tidy(m[k as int].1));
    assert(holds(b, p, u));
    let y = p + width(u);
    let w = y + width(o);
    let f = w + width(r);
    assert(f == s + width(json::render_members(m, k + 1, pad)));
    lemma_quoted_is_spelled(name, name.len() as int);
    lemma_string(b, p, name, false);
    lemma_opens(b, w, v, pad);
    lemma_colon(b, y, pad);
    let done = plain_members(m, k as int);
    assert forall|j: int| 0 <= j < done.len() implies json::before(#[trigger] done[j].0, name) by {
        assert(json::before(m[j].0, m[k as int].0));
    }
    lemma_put_last(done, name, plain(v), 0);
    assert(done.push((name, plain(v))) =~= plain_members(m, k as int + 1));
    if k + 1 < m.len() {
        let z = json::render_members(m, k + 1, pad);
        let u2 = json::quoted(m[k as int + 1].0);
        lemma_members_prefix(b, s, m, k + 2, m.len(), pad);
        lemma_holds_split(b, s, z + c + l + u2 + o, json::render(m[k as int + 1].1, pad));
        lemma_holds_split3(b, s, z + c + l, u2, o);
        lemma_holds_split3(b, s, z, c, l);
        lemma_ascii(b, f, ',');
        lemma_value(b, w, v, pad);
        lemma_skip_is(b, f, f);
        lemma_quote_opens(b, f + 1 + width(l), m[k as int + 1].0);
        lemma_line(b, f + 1, pad);
        lemma_members(b, s, f + 1, m, k + 1, pad, outer);
    } else {
        lemma_line(b, f, outer);
        lemma_value(b, w, v, pad);
    }
}

/// What was written as JSON, on one line or on many, reads back as the value that was written;
/// negative zero comes back as zero. Anything may follow that could not continue a number.
pub proof fn law_written_reads_back(v: Json, pad: Option<Seq<char>>, rest: Seq<char>)
    requires
        tidy(v),
        spaces(pad),
        rest.len() > 0 ==> rest[0] <= '\u{7f}' && !reader::is_num_byte(rest[0] as u8),
    ensures
        reader::meaning(json::render(v, pad) + rest) == Ok::<Json, Seq<char>>(plain(v)),
{
    let t = json::render(v, pad);
    let b = utf8::encode_utf8(t + rest);
    assert(b.subrange(0, b.len() as int) =~= b);
    assert(holds(b, 0, t + rest));
    lemma_holds_split(b, 0, t, rest);
    lemma_opens(b, 0, v, pad);
    if rest.len() > 0 {
        let h = seq![rest[0]];
        assert(rest =~= h + rest.skip(1));
        lemma_holds_split(b, width(t), h, rest.skip(1));
        lemma_ascii(b, width(t), rest[0]);
    } else {
        assert(utf8::encode_utf8(rest).len() == 0);
    }
    lemma_value(b, 0, v, pad);
    lemma_skip_is(b, 0, 0);
}


// ---------------------------------------------------------------- what is read

/// The values that the parser gives have their members in order.
proof fn lemma_value_ordered(b: Seq<u8>, i: int)
    ensures
        reader::value_at(b, i) matches Ok((v, _)) ==> ordered(v),
    decreases b.len() - i, 0nat,
{
    if 0 <= i < b.len() {
        reader::lemma_skip_ws(b, i + 1);
        let j = reader::skip_ws(b, i + 1);
        if b[i] == '{' as u8 {
            if !reader::at(b, j, '}' as u8) {
                lemma_members_ordered(b, j, Seq::empty());
            }
        } else if b[i] == '[' as u8 {
            if !reader::at(b, j, ']' as u8) {
                lemma_items_ordered(b, j, Seq::empty());
            }
        }
    }
}

proof fn lemma_items_ordered(b: Seq<u8>, i: int, a: Seq<Json>)
    requires
        forall|k: int| 0 <= k < a.len() ==> ordered(#[trigger] a[k]),
    ensures
        reader::items_at(b, i, a) matches Ok((v, _)) ==> ordered(v),
    decreases b.len() - i, 1nat,
{
    let p = reader::skip_ws(b, i);
    reader::lemma_skip_ws(b, i);
    lemma_value_ordered(b, p);
    if let Ok((v, q)) = reader::value_at(b, p) {
        let r = reader::skip_ws(b, q);
        reader::lemma_skip_ws(b, q);
        let c = a.push(v);
        assert forall|k: int| 0 <= k < c.len() implies ordered(#[trigger] c[k]) by {
            if k < a.len() {
                assert(c[k] == a[k]);
            }
        }
        if p < q <= b.len() && reader::at(b, r, ',' as u8) {
            lemma_items_ordered(b, r + 1, c);
        }
    }
}

proof fn lemma_members_ordered(b: Seq<u8>, i: int, m: Seq<(Seq<char>, Json)>)
    requires
        json::in_order(m),
        forall|k: int| 0 <= k < m.len() ==> ordered((#[trigger] m[k]).1),
    ensures
        reader::members_at(b, i, m) matches Ok((v, _)) ==> ordered(v),
    decreases b.len() - i, 1nat,
{
    let p = reader::skip_ws(b, i);
    reader::lemma_skip_ws(b, i);
    if let Ok((k, q)) = reader::string_at(b, p) {
        reader::lemma_string_at(b, p);
        let c = reader::skip_ws(b, q);
        reader::lemma_skip_ws(b, q);
        let w = reader::skip_ws(b, c + 1);
        reader::lemma_skip_ws(b, c + 1);
        if reader::at(b, c, ':' as u8) {
            lemma_value_ordered(b, w);
            if let Ok((v, x)) = reader::value_at(b, w) {
                let r = reader::skip_ws(b, x);
                reader::lemma_skip_ws(b, x);
                let n = json::put(m, k, v);
                json::law_put(m, k, v);
                json::lemma_place(m, k, 0);
                assert forall|j: int| 0 <= j < n.len() implies ordered((#[trigger] n[j]).1) by {
                    let y = json::place(m, k, 0);
                    if y < m.len() && m[y].0 == k {
                        if j != y {
                            assert(n[j] == m[j]);
                        }
                    } else if j < y {
                        assert(n[j] == m[j]);
                    } else if j > y {
                        assert(n[j] == m[j - 1]);
                    }
                }
                if w < x <= b.len() && reader::at(b, r, ',' as u8) {
                    lemma_members_ordered(b, r + 1, n);
                }
            }
        }
    }
}

/// Objects that were read have their members in the order of their names, none twice.
pub proof fn law_read_is_ordered(s: Seq<char>)
    ensures
        reader::meaning(s) matches Ok(v) ==> ordered(v),
{
    let b = utf8::encode_utf8(s);
    lemma_value_ordered(b, reader::skip_ws(b, 0));
}

/// A text that was read, written again, reads as the same value; a number too large for a double
/// is the one thing that cannot be written again.
pub proof fn law_read_written_reads_again(s: Seq<char>)
    ensures
        reader::meaning(s) matches Ok(v) ==> (finite(v) ==> reader::meaning(json::render(v, None))
            == Ok::<Json, Seq<char>>(plain(v))),
{
    law_read_is_ordered(s);
    if let Ok(v) = reader::meaning(s) {
        if finite(v) {
            law_written_reads_back(v, None, Seq::empty());
            assert(json::render(v, None) + Seq::<char>::empty() =~= json::render(v, None));
        }
    }
}

/// Whether a value is read back from its text as it is.
pub open spec fn faithful(v: Json) -> bool {
    tidy(v) && plain(v) == v
}

pub proof fn lemma_array_faithful(a: Seq<Json>)
    requires
        forall|i: int| 0 <= i < a.len() ==> faithful(#[trigger] a[i]),
    ensures
        faithful(Json::Arr(a)),
{
    let v = Json::Arr(a);
    assert forall|i: int| 0 <= i < a.len() implies finite(#[trigger] a[i]) && ordered(a[i]) by {
        assert(faithful(a[i]));
    }
    assert(plain(v)->Arr_0 =~= a) by {
        assert forall|i: int| 0 <= i < a.len() implies #[trigger] plain(v)->Arr_0[i] == a[i] by {
            assert(faithful(a[i]));
        }
    }
}

pub proof fn lemma_object_faithful(l: Seq<(Seq<char>, Json)>)
    requires
        forall|i: int| 0 <= i < l.len() ==> faithful((#[trigger] l[i]).1),
    ensures
        faithful(Json::Obj(json::built(l))),
{
    let m = json::built(l);
    let v = Json::Obj(m);
    json::law_built(l);
    assert forall|i: int| 0 <= i < m.len() implies faithful((#[trigger] m[i]).1) by {
        json::lemma_built_from(l, i);
        let j = choose|j: int| 0 <= j < l.len() && l[j] == m[i];
        assert(faithful(l[j].1));
    }
    assert forall|i: int| 0 <= i < m.len() implies finite((#[trigger] m[i]).1) && ordered(m[i].1) by {
        assert(faithful(m[i].1));
    }
    assert(plain(v)->Obj_0 =~= m) by {
        assert forall|i: int| 0 <= i < m.len() implies #[trigger] plain(v)->Obj_0[i] == m[i] by {
            assert(faithful(m[i].1));
        }
    }
}

} // verus!
