//! JSON as others write it: every text of the grammar, with white space where it
//! may stand, numbers in every form and strings with every escape, reads as the
//! value that it spells.

use vstd::prelude::*;
use vstd::utf8;
use crate::big;
use crate::bytes;
use crate::digits;
use crate::json;
use crate::json::Json;
use crate::num;
use crate::numeral;
use crate::reader;
use crate::roundtrip;
use crate::shortest;
use crate::text;

verus! {

// -------------------------------------------------------------------- numbers

/// A number as it may be written: digits, perhaps a sign before them, perhaps a point among them,
/// perhaps an exponent.
pub ghost struct Numeral {
    pub neg: bool,
    pub plus: bool,
    pub whole: Seq<char>,
    pub frac: Option<Seq<char>>,
    pub exp: Option<Exponent>,
}

/// An exponent: `E` or `e`, perhaps a sign, and digits.
pub ghost struct Exponent {
    pub capital: bool,
    pub plus: bool,
    pub minus: bool,
    pub digits: Seq<char>,
}

/// Whether a text is made of decimal digits.
pub open spec fn decimal_digits(s: Seq<char>) -> bool {
    forall|i: int| 0 <= i < s.len() ==> '0' <= #[trigger] s[i] <= '9'
}

pub open spec fn numeral_good(n: Numeral) -> bool {
    &&& !(n.neg && n.plus)
    &&& mantissa_digits(n).len() > 0 && decimal_digits(n.whole)
    &&& n.frac matches Some(f) ==> decimal_digits(f)
    &&& n.exp matches Some(e) ==> e.digits.len() > 0 && decimal_digits(e.digits) && !(e.plus
        && e.minus)
}

pub open spec fn frac_text(n: Numeral) -> Seq<char> {
    match n.frac {
        Some(f) => seq!['.'] + f,
        None => Seq::empty(),
    }
}

pub open spec fn exp_sign(e: Exponent) -> Seq<char> {
    if e.plus {
        seq!['+']
    } else if e.minus {
        seq!['-']
    } else {
        Seq::empty()
    }
}

pub open spec fn exp_text(n: Numeral) -> Seq<char> {
    match n.exp {
        Some(e) => seq![
            if e.capital {
                'E'
            } else {
                'e'
            },
        ] + (exp_sign(e) + e.digits),
        None => Seq::empty(),
    }
}

/// A number without its sign.
pub open spec fn bare_numeral(n: Numeral) -> Seq<char> {
    n.whole + frac_text(n) + exp_text(n)
}

pub open spec fn numeral_text(n: Numeral) -> Seq<char> {
    if n.neg {
        seq!['-'] + bare_numeral(n)
    } else if n.plus {
        seq!['+'] + bare_numeral(n)
    } else {
        bare_numeral(n)
    }
}

/// All digits of the mantissa.
pub open spec fn mantissa_digits(n: Numeral) -> Seq<char> {
    match n.frac {
        Some(f) => n.whole + f,
        None => n.whole,
    }
}

/// The power of ten that the digits of the mantissa count.
pub open spec fn numeral_power(n: Numeral) -> int {
    let e: int = match n.exp {
        Some(e) => if e.minus {
            -digits::value(e.digits, 10)
        } else {
            digits::value(e.digits, 10) as int
        },
        None => 0,
    };
    match n.frac {
        Some(f) => e - f.len(),
        None => e,
    }
}

/// The double nearest to what a number writes.
pub open spec fn numeral_value(n: Numeral) -> u64 {
    let d = digits::value(mantissa_digits(n), 10);
    let e = numeral_power(n);
    num::pattern(
        n.neg,
        if e >= 0 {
            num::nearest(d * big::power(10, e as nat), 1)
        } else {
            num::nearest(d, big::power(10, (-e) as nat))
        },
    )
}

pub proof fn lemma_decimal_digits(s: Seq<char>)
    requires
        decimal_digits(s),
    ensures
        digits::all_digits(s, 10),
{
    assert forall|i: int| 0 <= i < s.len() implies digits::is_digit(#[trigger] s[i], 10) by {}
}

/// A number reads as the double nearest to what it writes.
#[verifier::spinoff_prover]
#[verifier::rlimit(60)]
pub proof fn law_numeral_reads(n: Numeral)
    requires
        numeral_good(n),
    ensures
        numeral::number_text(numeral_text(n)) == Some(numeral_value(n)),
{
    let s = bare_numeral(n);
    let a = n.whole.len() as int;
    let w = n.whole;
    let f = frac_text(n);
    let x = exp_text(n);
    let b = a + f.len();
    lemma_decimal_digits(w);
    assert forall|k: int| 0 <= k < a implies digits::is_digit(#[trigger] s[k], 10) by {
        assert(s[k] == w[k]);
        assert(digits::is_digit(w[k], 10));
    }
    if a > 0 {
        assert(digits::is_digit(s[0], 10));
        shortest::lemma_no_word(s);
    } else {
        assert(s[0] == f[0]);
        lemma_point_no_word(s);
    }
    if f.len() > 0 {
        assert(s[a] == '.');
    } else if x.len() > 0 {
        assert(s[a] == x[0]);
    }
    shortest::lemma_digits_end_is(s, 0, a);
    assert(s.take(a) =~= w);
    if let Some(g) = n.frac {
        lemma_decimal_digits(g);
        assert forall|k: int| a + 1 <= k < b implies digits::is_digit(#[trigger] s[k], 10) by {
            assert(s[k] == g[k - a - 1]);
            assert(digits::is_digit(g[k - a - 1], 10));
        }
        if x.len() > 0 {
            assert(s[b] == x[0]);
        }
        shortest::lemma_digits_end_is(s, a + 1, b);
        assert(s.subrange(a + 1, b) =~= g);
    }
    assert(numeral::mantissa(s).0 == mantissa_digits(n));
    assert(numeral::mantissa_end(s) == b);
    if let Some(e) = n.exp {
        let t = exp_sign(e) + e.digits;
        assert(s[b] == x[0]);
        assert(s.skip(b + 1) =~= t);
        lemma_decimal_digits(e.digits);
        if e.plus || e.minus {
            assert(t.skip(1) =~= e.digits);
        } else {
            assert(t =~= e.digits);
            assert('0' <= t[0] <= '9');
        }
        assert(b < s.len());
    }
    if n.neg || n.plus {
        assert(numeral_text(n).skip(1) =~= s);
    }
}

/// Text that starts with a point is no word for infinity or "not a number".
proof fn lemma_point_no_word(s: Seq<char>)
    requires
        s.len() > 0,
        s[0] == '.',
    ensures
        text::lowered(s) != "inf"@,
        text::lowered(s) != "infinity"@,
        text::lowered(s) != "nan"@,
{
    reveal_strlit("inf");
    reveal_strlit("infinity");
    reveal_strlit("nan");
    assert(text::lowered(s)[0] == '.');
}

/// How a number starts.
proof fn lemma_numeral_start(n: Numeral)
    requires
        numeral_good(n),
    ensures
        numeral_text(n).len() > 0,
        ({
            let c = numeral_text(n)[0];
            c == '-' || c == '+' || c == '.' || '0' <= c <= '9'
        }),
{
    let t = numeral_text(n);
    if !n.neg && !n.plus {
        if n.whole.len() > 0 {
            assert(t[0] == n.whole[0]);
            assert('0' <= n.whole[0] <= '9');
        } else {
            assert(t[0] == frac_text(n)[0]);
        }
    }
}

/// Whether a character may stand in a number.
pub open spec fn number_char(c: char) -> bool {
    '0' <= c <= '9' || c == '-' || c == '+' || c == '.' || c == 'e' || c == 'E'
}

proof fn lemma_numeral_chars(n: Numeral, i: int)
    requires
        numeral_good(n),
        0 <= i < numeral_text(n).len(),
    ensures
        number_char(numeral_text(n)[i]),
{
    let t = numeral_text(n);
    let s = bare_numeral(n);
    let k = if n.neg || n.plus {
        i - 1
    } else {
        i
    };
    if k >= 0 {
        assert(t[i] == s[k]);
        let a = n.whole.len();
        let f = frac_text(n);
        let x = exp_text(n);
        if k < a {
            assert(s[k] == n.whole[k]);
        } else if k < a + f.len() {
            assert(s[k] == f[k - a]);
            if k > a {
                assert(f[k - a] == n.frac->0[k - a - 1]);
            }
        } else {
            let j = k - a - f.len();
            assert(s[k] == x[j]);
            let e = n.exp->0;
            let g = exp_sign(e);
            if j > 0 {
                assert(x[j] == (g + e.digits)[j - 1]);
                if j - 1 >= g.len() {
                    assert(x[j] == e.digits[j - 1 - g.len()]);
                }
            }
        }
    }
}

// -------------------------------------------------------------------- strings

/// A part of a string as it may be written: characters that stand for themselves, one with a
/// backslash before it, or the code of one in four hexadecimal digits, each a capital or not. A
/// code that is half of a pair stands for no character.
pub ghost enum Piece {
    Raw(Seq<char>),
    Short(char),
    Code(char, Seq<bool>),
    Half(nat, Seq<bool>),
}

/// What a character after a backslash stands for: some for control characters, and every other one
/// but `u`, the quote, the backslash and the slash among them, for itself.
pub open spec fn short_meaning(e: char) -> Option<char> {
    if e == 'u' || e > '\u{7f}' {
        None
    } else if e == 'n' {
        Some('\n')
    } else if e == 'r' {
        Some('\r')
    } else if e == 't' {
        Some('\t')
    } else if e == 'b' {
        Some('\u{8}')
    } else if e == 'f' {
        Some('\u{c}')
    } else {
        Some(e)
    }
}

/// Whether the characters of a text stand for themselves in a string.
pub open spec fn plain(t: Seq<char>) -> bool {
    forall|i: int| 0 <= i < t.len() ==> #[trigger] t[i] != '"' && t[i] != '\\'
}

pub open spec fn piece_good(p: Piece) -> bool {
    match p {
        Piece::Raw(t) => plain(t),
        Piece::Short(e) => short_meaning(e) is Some,
        Piece::Code(c, caps) => c <= '\u{ffff}' && caps.len() == 4,
        Piece::Half(u, caps) => 0xd800 <= u <= 0xdfff && caps.len() == 4,
    }
}

/// The four hexadecimal digits of a code.
pub open spec fn code_digits(u: nat, caps: Seq<bool>) -> Seq<char> {
    seq![
        digits::hex_digit(u / 4096, caps[0]),
        digits::hex_digit(u / 256 % 16, caps[1]),
        digits::hex_digit(u / 16 % 16, caps[2]),
        digits::hex_digit(u % 16, caps[3]),
    ]
}

pub open spec fn piece_text(p: Piece) -> Seq<char> {
    match p {
        Piece::Raw(t) => t,
        Piece::Short(e) => seq!['\\', e],
        Piece::Code(c, caps) => seq!['\\', 'u'] + code_digits(c as u32 as nat, caps),
        Piece::Half(u, caps) => seq!['\\', 'u'] + code_digits(u, caps),
    }
}

pub open spec fn piece_value(p: Piece) -> Seq<char> {
    match p {
        Piece::Raw(t) => t,
        Piece::Short(e) => seq![short_meaning(e)->0],
        Piece::Code(c, _) => seq![c],
        Piece::Half(_, _) => seq!['\u{fffd}'],
    }
}

/// The first `n` pieces, written one after another.
pub open spec fn pieces_text(ps: Seq<Piece>, n: nat) -> Seq<char>
    decreases n,
{
    if n == 0 {
        Seq::empty()
    } else {
        pieces_text(ps, (n - 1) as nat) + piece_text(ps[n - 1])
    }
}

pub open spec fn string_text(ps: Seq<Piece>) -> Seq<char> {
    seq!['"'] + pieces_text(ps, ps.len()) + seq!['"']
}

/// What the first `n` pieces stand for.
pub open spec fn pieces_value(ps: Seq<Piece>, n: nat) -> Seq<char>
    decreases n,
{
    if n == 0 {
        Seq::empty()
    } else {
        pieces_value(ps, (n - 1) as nat) + piece_value(ps[n - 1])
    }
}

pub open spec fn string_value(ps: Seq<Piece>) -> Seq<char> {
    pieces_value(ps, ps.len())
}

pub open spec fn string_good(ps: Seq<Piece>) -> bool {
    forall|i: int| 0 <= i < ps.len() ==> piece_good(#[trigger] ps[i])
}

/// Four hexadecimal digits read as the code.
proof fn lemma_code(u: nat, caps: Seq<bool>)
    requires
        u <= 0xffff,
        caps.len() == 4,
    ensures
        digits::unsigned(code_digits(u, caps), 16, u32::MAX as nat) == Some(u),
        forall|i: int| 0 <= i < 4 ==> #[trigger] code_digits(u, caps)[i] <= '\u{7f}',
{
    let t = code_digits(u, caps);
    digits::lemma_hex_digit(u / 4096, caps[0]);
    digits::lemma_hex_digit(u / 256 % 16, caps[1]);
    digits::lemma_hex_digit(u / 16 % 16, caps[2]);
    digits::lemma_hex_digit(u % 16, caps[3]);
    assert(digits::unsigned_part(t) == t);
    let t3 = t.drop_last();
    let t2 = t3.drop_last();
    let t1 = t2.drop_last();
    assert(t1.drop_last() =~= Seq::<char>::empty());
    assert(digits::value(t1.drop_last(), 16) == 0);
    assert(digits::value(t1, 16) == u / 4096);
    assert(digits::value(t2, 16) == (u / 4096) * 16 + u / 256 % 16);
    assert(digits::value(t3, 16) == ((u / 4096) * 16 + u / 256 % 16) * 16 + u / 16 % 16);
    assert(digits::value(t, 16) == (((u / 4096) * 16 + u / 256 % 16) * 16 + u / 16 % 16) * 16 + u
        % 16);
    assert forall|i: int| 0 <= i < t.len() implies digits::is_digit(#[trigger] t[i], 16) by {}
}

/// The bytes of an ASCII text, one for each character.
proof fn lemma_ascii_at(b: Seq<u8>, i: int, t: Seq<char>, k: int)
    requires
        roundtrip::holds(b, i, t),
        forall|j: int| 0 <= j < t.len() ==> #[trigger] t[j] <= '\u{7f}',
        0 <= k < t.len(),
    ensures
        roundtrip::width(t) == t.len(),
        i + k < b.len(),
        b[i + k] == t[k] as u8,
        b[i + k] as char == t[k],
{
    assert(utf8::is_ascii_chars(t)) by {
        assert forall|j: int| 0 <= j < t.len() implies '\0' <= #[trigger] t[j] <= '\u{7f}' by {
            lemma_char_low(t[j]);
        }
    }
    utf8::is_ascii_chars_encode_utf8(t);
    let e = utf8::encode_utf8(t);
    assert(b.subrange(i, i + e.len())[k] == b[i + k]);
    assert(t[k] as u8 == e[k]);
    lemma_char_back(t[k]);
}

proof fn lemma_char_low(c: char)
    ensures
        '\0' <= c,
{
}

proof fn lemma_char_back(c: char)
    requires
        c <= '\u{7f}',
    ensures
        c as u8 as char == c,
{
}

/// Characters that stand for themselves are taken over.
proof fn lemma_plain(b: Seq<u8>, i: int, out: Seq<u8>, t: Seq<char>)
    requires
        plain(t),
        roundtrip::holds(b, i, t),
    ensures
        reader::string_body(b, i, out) == reader::string_body(
            b,
            i + roundtrip::width(t),
            out + utf8::encode_utf8(t),
        ),
    decreases t.len(),
{
    if t.len() == 0 {
        assert(utf8::encode_utf8(t) =~= Seq::<u8>::empty());
        assert(out + utf8::encode_utf8(t) =~= out);
    } else {
        let n = t.len() - 1;
        let x = t.take(n);
        let c = t[n];
        let e = utf8::encode_utf8(seq![c]);
        let k = i + roundtrip::width(x);
        assert(t =~= x + seq![c]);
        roundtrip::lemma_holds_split(b, i, x, seq![c]);
        lemma_plain(b, i, out, x);
        if c <= '\u{7f}' {
            roundtrip::lemma_ascii(b, k, c);
            assert(e[0] == c as u8);
            lemma_plain_byte(c);
        } else {
            roundtrip::lemma_high_bytes(c);
        }
        let o = out + utf8::encode_utf8(x);
        roundtrip::lemma_raw_bytes(b, k, o, e, e.len() as int);
        assert(e.take(e.len() as int) =~= e);
        bytes::lemma_encode_concat(x, seq![c]);
        assert(o + e =~= out + utf8::encode_utf8(t));
    }
}

proof fn lemma_plain_byte(c: char)
    requires
        c <= '\u{7f}',
        c != '"',
        c != '\\',
    ensures
        c as u8 != '"' as u8,
        c as u8 != '\\' as u8,
{
}

/// Reading one piece of a string.
proof fn lemma_piece(b: Seq<u8>, i: int, out: Seq<u8>, p: Piece)
    requires
        piece_good(p),
        roundtrip::holds(b, i, piece_text(p)),
    ensures
        reader::string_body(b, i, out) == reader::string_body(
            b,
            i + roundtrip::width(piece_text(p)),
            out + utf8::encode_utf8(piece_value(p)),
        ),
{
    let t = piece_text(p);
    match p {
        Piece::Raw(_) => {
            lemma_plain(b, i, out, t);
        },
        Piece::Short(x) => {
            let c = short_meaning(x)->0;
            let e = utf8::encode_utf8(seq![c]);
            assert(t[0] == '\\' && t[1] == x && x <= '\u{7f}');
            lemma_ascii_at(b, i, t, 0);
            lemma_ascii_at(b, i, t, 1);
            roundtrip::lemma_ascii(e, 0, c);
            assert(e == seq![c as u8]);
            assert(reader::short_escape(b[i + 1]) == c as u8);
            assert(out.push(c as u8) =~= out + e);
        },
        Piece::Code(c, caps) => {
            let u = c as u32;
            utf8::char_is_scalar(c);
            utf8::char_u32_cast(c, u);
            lemma_code_read(b, i, u as nat, caps);
            assert(reader::unicode_escape(b, i + 2) == c);
        },
        Piece::Half(u, caps) => {
            lemma_code_read(b, i, u, caps);
            assert(reader::unicode_escape(b, i + 2) == '\u{fffd}');
        },
    }
}

proof fn lemma_code_read(b: Seq<u8>, i: int, u: nat, caps: Seq<bool>)
    requires
        u <= 0xffff,
        caps.len() == 4,
        roundtrip::holds(b, i, seq!['\\', 'u'] + code_digits(u, caps)),
    ensures
        roundtrip::width(seq!['\\', 'u'] + code_digits(u, caps)) == 6,
        0 <= i && i + 6 <= b.len(),
        b[i] == '\\' as u8 && b[i + 1] == 'u' as u8,
        digits::unsigned(reader::latin(b.subrange(i + 2, i + 2 + 4)), 16, u32::MAX as nat) == Some(u),
{
    let t = seq!['\\', 'u'] + code_digits(u, caps);
    let d = code_digits(u, caps);
    lemma_code(u, caps);
    assert forall|j: int| 0 <= j < t.len() implies #[trigger] t[j] <= '\u{7f}' by {
        if j >= 2 {
            assert(t[j] == d[j - 2]);
        }
    }
    assert(t.len() == 6);
    lemma_ascii_at(b, i, t, 0);
    lemma_ascii_at(b, i, t, 1);
    lemma_ascii_at(b, i, t, 2);
    lemma_ascii_at(b, i, t, 3);
    lemma_ascii_at(b, i, t, 4);
    lemma_ascii_at(b, i, t, 5);
    assert(reader::latin(b.subrange(i + 2, i + 2 + 4)) =~= d) by {
        assert(t[2] == d[0] && t[3] == d[1] && t[4] == d[2] && t[5] == d[3]);
    }
}

proof fn lemma_pieces(b: Seq<u8>, i: int, ps: Seq<Piece>, n: nat)
    requires
        n <= ps.len(),
        string_good(ps),
        roundtrip::holds(b, i, pieces_text(ps, n)),
    ensures
        reader::string_body(b, i, Seq::empty()) == reader::string_body(
            b,
            i + roundtrip::width(pieces_text(ps, n)),
            utf8::encode_utf8(pieces_value(ps, n)),
        ),
    decreases n,
{
    if n == 0 {
        assert(utf8::encode_utf8(Seq::<char>::empty()) =~= Seq::<u8>::empty());
    } else {
        let m = (n - 1) as nat;
        let t = pieces_text(ps, m);
        let p = ps[n - 1];
        roundtrip::lemma_holds_split(b, i, t, piece_text(p));
        lemma_pieces(b, i, ps, m);
        lemma_piece(b, i + roundtrip::width(t), utf8::encode_utf8(pieces_value(ps, m)), p);
        bytes::lemma_encode_concat(pieces_value(ps, m), piece_value(p));
    }
}

/// A string reads as its characters, whichever way each is written.
proof fn lemma_string(b: Seq<u8>, i: int, ps: Seq<Piece>)
    requires
        string_good(ps),
        roundtrip::holds(b, i, string_text(ps)),
    ensures
        reader::string_at(b, i) == Ok::<(Seq<char>, int), Seq<char>>(
            (string_value(ps), i + roundtrip::width(string_text(ps))),
        ),
        reader::at(b, i, '"' as u8),
{
    let q = seq!['"'];
    let t = pieces_text(ps, ps.len());
    let s = string_value(ps);
    roundtrip::lemma_holds_split3(b, i, q, t, q);
    roundtrip::lemma_ascii(b, i, '"');
    roundtrip::lemma_ascii(b, i + 1 + roundtrip::width(t), '"');
    lemma_pieces(b, i + 1, ps, ps.len());
    bytes::lemma_text_of_encoded(s);
}

// ---------------------------------------------------------------------- texts

/// White space between the parts of a text.
pub open spec fn gap(w: Seq<char>) -> bool {
    forall|i: int|
        0 <= i < w.len() ==> #[trigger] w[i] == ' ' || w[i] == '\t' || w[i] == '\n' || w[i] == '\r'
}

/// The name of a member with the white space around it, and that around its value.
pub ghost struct Label {
    pub before: Seq<char>,
    pub name: Seq<Piece>,
    pub after: Seq<char>,
    pub inner: Seq<char>,
    pub end: Seq<char>,
}

/// A JSON text.
pub ghost enum Text {
    Null,
    Bool(bool),
    Num(Numeral),
    Str(Seq<Piece>),
    Arr(Seq<char>, Seq<((Seq<char>, Seq<char>), Text)>),
    Obj(Seq<char>, Seq<(Label, Text)>),
}

/// The characters of a JSON text.
pub open spec fn spelling(v: Text) -> Seq<char>
    decreases v, 0nat,
{
    match v {
        Text::Null => seq!['n', 'u', 'l', 'l'],
        Text::Bool(b) => if b {
            seq!['t', 'r', 'u', 'e']
        } else {
            seq!['f', 'a', 'l', 's', 'e']
        },
        Text::Num(n) => numeral_text(n),
        Text::Str(ps) => string_text(ps),
        Text::Arr(w, a) => if a.len() == 0 {
            seq!['['] + w + seq![']']
        } else {
            seq!['['] + items_spelling(a, a.len()) + seq![']']
        },
        Text::Obj(w, m) => if m.len() == 0 {
            seq!['{'] + w + seq!['}']
        } else {
            seq!['{'] + members_spelling(m, m.len()) + seq!['}']
        },
    }
}

/// The characters of the first `n` elements.
pub open spec fn items_spelling(a: Seq<((Seq<char>, Seq<char>), Text)>, n: nat) -> Seq<char>
    decreases a, n,
{
    if n == 0 || n > a.len() {
        Seq::empty()
    } else if n == 1 {
        a[0].0.0 + spelling(a[0].1) + a[0].0.1
    } else {
        items_spelling(a, (n - 1) as nat) + seq![','] + (a[n - 1].0.0 + spelling(a[n - 1].1) + a[n
            - 1].0.1)
    }
}

/// What stands before the value of a member.
pub open spec fn label_text(l: Label) -> Seq<char> {
    l.before + string_text(l.name) + (l.after + seq![':'] + l.inner)
}

/// The characters of the first `n` members.
pub open spec fn members_spelling(m: Seq<(Label, Text)>, n: nat) -> Seq<char>
    decreases m, n,
{
    if n == 0 || n > m.len() {
        Seq::empty()
    } else if n == 1 {
        label_text(m[0].0) + spelling(m[0].1) + m[0].0.end
    } else {
        members_spelling(m, (n - 1) as nat) + seq![','] + (label_text(m[n - 1].0) + spelling(
            m[n - 1].1,
        ) + m[n - 1].0.end)
    }
}

/// The value that a JSON text spells.
pub open spec fn spelled_value(v: Text) -> Json
    decreases v, 0nat,
{
    match v {
        Text::Null => Json::Null,
        Text::Bool(b) => Json::Bool(b),
        Text::Num(n) => Json::Num(numeral_value(n)),
        Text::Str(ps) => Json::Str(string_value(ps)),
        Text::Arr(_, a) => Json::Arr(values_to(a, a.len())),
        Text::Obj(_, m) => Json::Obj(json::built(pairs_to(m, m.len()))),
    }
}

/// The values of the first `n` elements.
pub open spec fn values_to(a: Seq<((Seq<char>, Seq<char>), Text)>, n: nat) -> Seq<Json>
    decreases a, n,
{
    if n == 0 || n > a.len() {
        Seq::empty()
    } else {
        values_to(a, (n - 1) as nat).push(spelled_value(a[n - 1].1))
    }
}

/// The names and values of the first `n` members.
pub open spec fn pairs_to(m: Seq<(Label, Text)>, n: nat) -> Seq<(Seq<char>, Json)>
    decreases m, n,
{
    if n == 0 || n > m.len() {
        Seq::empty()
    } else {
        pairs_to(m, (n - 1) as nat).push((string_value(m[n - 1].0.name), spelled_value(m[n - 1].1)))
    }
}

pub open spec fn label_good(l: Label) -> bool {
    gap(l.before) && string_good(l.name) && gap(l.after) && gap(l.inner) && gap(l.end)
}

/// Whether a text is one of the grammar.
pub open spec fn well_spelled(v: Text) -> bool
    decreases v,
{
    match v {
        Text::Num(n) => numeral_good(n),
        Text::Str(ps) => string_good(ps),
        Text::Arr(w, a) => gap(w) && forall|i: int|
            0 <= i < a.len() ==> gap((#[trigger] a[i]).0.0) && gap(a[i].0.1) && well_spelled(a[i].1),
        Text::Obj(w, m) => gap(w) && forall|i: int|
            0 <= i < m.len() ==> label_good((#[trigger] m[i]).0) && well_spelled(m[i].1),
        _ => true,
    }
}

/// White space is skipped.
proof fn lemma_gap(b: Seq<u8>, i: int, w: Seq<char>)
    requires
        gap(w),
        roundtrip::holds(b, i, w),
        i + roundtrip::width(w) == b.len() || !reader::is_ws(b[i + roundtrip::width(w)]),
    ensures
        reader::skip_ws(b, i) == i + roundtrip::width(w),
        w.len() > 0 ==> i < b.len() && reader::is_ws(b[i]),
        w.len() == 0 ==> roundtrip::width(w) == 0,
        w.len() > 0 ==> roundtrip::width(w) > 0,
{
    if w.len() == 0 {
        assert(utf8::encode_utf8(w) =~= Seq::<u8>::empty());
        roundtrip::lemma_skip_is(b, i, i);
    } else {
        let n = w.len() as int;
        lemma_ascii_at(b, i, w, 0);
        assert forall|k: int| i <= k < i + n implies reader::is_ws(#[trigger] b[k]) by {
            lemma_ascii_at(b, i, w, k - i);
        }
        roundtrip::lemma_skip_is(b, i, i + n);
    }
}

/// How a text starts.
proof fn lemma_text_opens(b: Seq<u8>, i: int, v: Text)
    requires
        well_spelled(v),
        roundtrip::holds(b, i, spelling(v)),
    ensures
        roundtrip::width(spelling(v)) > 0,
        roundtrip::opens(b[i]),
{
    let t = spelling(v);
    if let Text::Num(n) = v {
        lemma_numeral_start(n);
    }
    assert(t.len() > 0 && t[0] <= '\u{7f}');
    let h = seq![t[0]];
    assert(t =~= h + t.skip(1));
    roundtrip::lemma_holds_split(b, i, h, t.skip(1));
    roundtrip::lemma_ascii(b, i, t[0]);
}

proof fn lemma_number_token(b: Seq<u8>, i: int, n: Numeral)
    requires
        numeral_good(n),
        roundtrip::holds(b, i, numeral_text(n)),
        roundtrip::ends(b, i + roundtrip::width(numeral_text(n))),
    ensures
        reader::value_at(b, i) == Ok::<(Json, int), Seq<char>>(
            (Json::Num(numeral_value(n)), i + roundtrip::width(numeral_text(n))),
        ),
{
    let t = numeral_text(n);
    law_numeral_reads(n);
    lemma_numeral_start(n);
    assert forall|j: int| 0 <= j < t.len() implies #[trigger] t[j] <= '\u{7f}' by {
        lemma_numeral_chars(n, j);
    }
    lemma_ascii_at(b, i, t, 0);
    let j = i + t.len();
    assert forall|k: int| i <= k < j implies reader::is_num_byte(#[trigger] b[k]) by {
        lemma_ascii_at(b, i, t, k - i);
        lemma_numeral_chars(n, k - i);
    }
    roundtrip::lemma_num_end_is(b, i, j);
    assert(reader::latin(b.subrange(i, j)) =~= t) by {
        assert forall|k: int| 0 <= k < t.len() implies b[i + k] as char == #[trigger] t[k] by {
            lemma_ascii_at(b, i, t, k);
        }
    }
}

/// A text reads as the value that it spells, wherever it stands.
proof fn lemma_text(b: Seq<u8>, i: int, v: Text)
    requires
        well_spelled(v),
        roundtrip::holds(b, i, spelling(v)),
        roundtrip::ends(b, i + roundtrip::width(spelling(v))),
    ensures
        reader::value_at(b, i) == Ok::<(Json, int), Seq<char>>(
            (spelled_value(v), i + roundtrip::width(spelling(v))),
        ),
    decreases v, 1nat, 0nat,
{
    let t = spelling(v);
    match v {
        Text::Null => {
            let w = seq![('n' as u8), ('u' as u8), ('l' as u8), ('l' as u8)];
            roundtrip::lemma_word(b, i, t, w);
        },
        Text::Bool(x) => {
            let w = if x {
                seq![('t' as u8), ('r' as u8), ('u' as u8), ('e' as u8)]
            } else {
                seq![('f' as u8), ('a' as u8), ('l' as u8), ('s' as u8), ('e' as u8)]
            };
            roundtrip::lemma_word(b, i, t, w);
        },
        Text::Num(n) => {
            lemma_number_token(b, i, n);
        },
        Text::Str(ps) => {
            lemma_string(b, i, ps);
        },
        Text::Arr(_, _) => {
            lemma_text_array(b, i, v);
        },
        Text::Obj(_, _) => {
            lemma_text_object(b, i, v);
        },
    }
}

/// Whether something other than white space and a number follows at a position.
pub open spec fn stops(b: Seq<u8>, i: int) -> bool {
    i >= b.len() || (!reader::is_ws(b[i]) && !reader::is_num_byte(b[i]))
}

/// After white space, or none, a number ends where something other than a number follows.
proof fn lemma_gap_ends(b: Seq<u8>, i: int, w: Seq<char>)
    requires
        gap(w),
        roundtrip::holds(b, i, w),
        i + roundtrip::width(w) == b.len() || (!reader::is_ws(b[i + roundtrip::width(w)])
            && !reader::is_num_byte(b[i + roundtrip::width(w)])),
    ensures
        roundtrip::ends(b, i),
{
    lemma_gap(b, i, w);
}

#[verifier::spinoff_prover]
#[verifier::rlimit(40)]
proof fn lemma_text_array(b: Seq<u8>, i: int, v: Text)
    requires
        well_spelled(v),
        v is Arr,
        roundtrip::holds(b, i, spelling(v)),
    ensures
        reader::value_at(b, i) == Ok::<(Json, int), Seq<char>>(
            (spelled_value(v), i + roundtrip::width(spelling(v))),
        ),
    decreases v, 0nat, 0nat,
{
    let w = v->Arr_0;
    let a = v->Arr_1;
    let o = seq!['['];
    let c = seq![']'];
    let x = if a.len() == 0 {
        w
    } else {
        items_spelling(a, a.len())
    };
    roundtrip::lemma_holds_split3(b, i, o, x, c);
    roundtrip::lemma_ascii(b, i, '[');
    roundtrip::lemma_ascii(b, i + 1 + roundtrip::width(x), ']');
    if a.len() == 0 {
        lemma_gap(b, i + 1, w);
    } else {
        lemma_items_first(b, i + 1, a, 1, a.len());
        let g = a[0].0;
        roundtrip::lemma_holds_split3(b, i + 1, g.0, spelling(a[0].1), g.1);
        assert(gap(a[0].0.0) && well_spelled(a[0].1));
        let p = i + 1 + roundtrip::width(g.0);
        lemma_text_opens(b, p, a[0].1);
        lemma_gap(b, i + 1, g.0);
        roundtrip::lemma_skip_is(b, p, p);
        lemma_text_items(b, i + 1, p, a, 0);
    }
}

proof fn lemma_items_first(
    b: Seq<u8>,
    s: int,
    a: Seq<((Seq<char>, Seq<char>), Text)>,
    k: nat,
    n: nat,
)
    requires
        1 <= k <= n <= a.len(),
        roundtrip::holds(b, s, items_spelling(a, n)),
    ensures
        roundtrip::holds(b, s, items_spelling(a, k)),
    decreases n,
{
    if k < n {
        let x = items_spelling(a, (n - 1) as nat);
        let y = a[n - 1].0.0 + spelling(a[n - 1].1) + a[n - 1].0.1;
        roundtrip::lemma_holds_split3(b, s, x, seq![','], y);
        lemma_items_first(b, s, a, k, (n - 1) as nat);
    }
}

/// Where element `k` starts with its white space, for elements whose text starts at `s`.
spec fn item_place(s: int, a: Seq<((Seq<char>, Seq<char>), Text)>, k: nat) -> int {
    if k == 0 {
        s
    } else {
        s + roundtrip::width(items_spelling(a, k)) + 1
    }
}

#[verifier::spinoff_prover]
#[verifier::rlimit(60)]
proof fn lemma_text_items(
    b: Seq<u8>,
    s: int,
    q: int,
    a: Seq<((Seq<char>, Seq<char>), Text)>,
    k: nat,
)
    requires
        k < a.len(),
        0 <= s,
        forall|i: int|
            0 <= i < a.len() ==> gap((#[trigger] a[i]).0.0) && gap(a[i].0.1) && well_spelled(a[i].1),
        roundtrip::holds(b, s, items_spelling(a, a.len())),
        stops(b, s + roundtrip::width(items_spelling(a, a.len()))),
        reader::skip_ws(b, q) == item_place(s, a, k) + roundtrip::width(a[k as int].0.0),
    ensures
        ({
            let end = s + roundtrip::width(items_spelling(a, a.len()));
            let r = reader::items_at(b, q, values_to(a, k));
            &&& reader::at(b, end, ']' as u8) ==> r == Ok::<(Json, int), Seq<char>>(
                (Json::Arr(values_to(a, a.len())), end + 1),
            )
            &&& reader::at(b, end, ',' as u8) ==> r == reader::items_at(
                b,
                end + 1,
                values_to(a, a.len()),
            )
            &&& !reader::at(b, end, ']' as u8) && !reader::at(b, end, ',' as u8) ==> r is Err
        }),
    decreases a, 1nat, a.len() - k,
{
    let x = items_spelling(a, k);
    let c = seq![','];
    let g = a[k as int].0;
    let v = a[k as int].1;
    let r = spelling(v);
    let z = item_place(s, a, k);
    lemma_items_first(b, s, a, k + 1, a.len());
    if k > 0 {
        roundtrip::lemma_holds_split3(b, s, x, c, g.0 + r + g.1);
        roundtrip::lemma_ascii(b, s + roundtrip::width(x), ',');
    }
    roundtrip::lemma_holds_split3(b, z, g.0, r, g.1);
    let p = z + roundtrip::width(g.0);
    let f = p + roundtrip::width(r);
    let e = f + roundtrip::width(g.1);
    assert(gap(g.1) && well_spelled(v));
    assert(e == s + roundtrip::width(items_spelling(a, k + 1)));
    lemma_text_opens(b, p, v);
    if k + 1 < a.len() {
        let g2 = a[k as int + 1].0;
        let r2 = spelling(a[k as int + 1].1);
        lemma_items_first(b, s, a, k + 2, a.len());
        roundtrip::lemma_holds_split3(b, s, items_spelling(a, k + 1), c, g2.0 + r2 + g2.1);
        roundtrip::lemma_ascii(b, e, ',');
        roundtrip::lemma_holds_split3(b, e + 1, g2.0, r2, g2.1);
        assert(gap(g2.0) && well_spelled(a[k as int + 1].1));
        lemma_text_opens(b, e + 1 + roundtrip::width(g2.0), a[k as int + 1].1);
        lemma_gap(b, e + 1, g2.0);
        lemma_gap(b, f, g.1);
        lemma_gap_ends(b, f, g.1);
        lemma_text(b, p, v);
        lemma_text_items(b, s, e + 1, a, k + 1);
    } else {
        lemma_gap(b, f, g.1);
        lemma_gap_ends(b, f, g.1);
        lemma_text(b, p, v);
    }
}

#[verifier::spinoff_prover]
#[verifier::rlimit(40)]
proof fn lemma_text_object(b: Seq<u8>, i: int, v: Text)
    requires
        well_spelled(v),
        v is Obj,
        roundtrip::holds(b, i, spelling(v)),
    ensures
        reader::value_at(b, i) == Ok::<(Json, int), Seq<char>>(
            (spelled_value(v), i + roundtrip::width(spelling(v))),
        ),
    decreases v, 0nat, 0nat,
{
    let w = v->Obj_0;
    let m = v->Obj_1;
    let o = seq!['{'];
    let c = seq!['}'];
    let x = if m.len() == 0 {
        w
    } else {
        members_spelling(m, m.len())
    };
    roundtrip::lemma_holds_split3(b, i, o, x, c);
    roundtrip::lemma_ascii(b, i, '{');
    roundtrip::lemma_ascii(b, i + 1 + roundtrip::width(x), '}');
    if m.len() == 0 {
        lemma_gap(b, i + 1, w);
    } else {
        lemma_members_first(b, i + 1, m, 1, m.len());
        let l = m[0].0;
        assert(label_good(m[0].0));
        roundtrip::lemma_holds_split3(b, i + 1, label_text(l), spelling(m[0].1), l.end);
        lemma_label(b, i + 1, l);
        let p = i + 1 + roundtrip::width(l.before);
        roundtrip::lemma_skip_is(b, p, p);
        lemma_text_members(b, i + 1, p, m, 0);
    }
}

/// The name of a member starts after its white space.
proof fn lemma_label(b: Seq<u8>, i: int, l: Label)
    requires
        label_good(l),
        roundtrip::holds(b, i, label_text(l)),
    ensures
        ({
            let p = i + roundtrip::width(l.before);
            let q = p + roundtrip::width(string_text(l.name));
            let c = q + roundtrip::width(l.after);
            &&& reader::skip_ws(b, i) == p
            &&& reader::at(b, p, '"' as u8)
            &&& reader::string_at(b, p) == Ok::<(Seq<char>, int), Seq<char>>(
                (string_value(l.name), q),
            )
            &&& reader::skip_ws(b, q) == c
            &&& reader::at(b, c, ':' as u8)
            &&& roundtrip::holds(b, c + 1, l.inner)
            &&& roundtrip::width(label_text(l)) == c + 1 + roundtrip::width(l.inner) - i
        }),
{
    let s = string_text(l.name);
    let t = l.after + seq![':'] + l.inner;
    roundtrip::lemma_holds_split3(b, i, l.before, s, t);
    let p = i + roundtrip::width(l.before);
    let q = p + roundtrip::width(s);
    roundtrip::lemma_holds_split3(b, q, l.after, seq![':'], l.inner);
    let c = q + roundtrip::width(l.after);
    roundtrip::lemma_ascii(b, c, ':');
    lemma_string(b, p, l.name);
    lemma_gap(b, i, l.before);
    lemma_gap(b, q, l.after);
}

proof fn lemma_members_first(b: Seq<u8>, s: int, m: Seq<(Label, Text)>, k: nat, n: nat)
    requires
        1 <= k <= n <= m.len(),
        roundtrip::holds(b, s, members_spelling(m, n)),
    ensures
        roundtrip::holds(b, s, members_spelling(m, k)),
    decreases n,
{
    if k < n {
        let x = members_spelling(m, (n - 1) as nat);
        let y = label_text(m[n - 1].0) + spelling(m[n - 1].1) + m[n - 1].0.end;
        roundtrip::lemma_holds_split3(b, s, x, seq![','], y);
        lemma_members_first(b, s, m, k, (n - 1) as nat);
    }
}

/// Where member `k` starts with its white space, for members whose text starts at `s`.
spec fn member_place(s: int, m: Seq<(Label, Text)>, k: nat) -> int {
    if k == 0 {
        s
    } else {
        s + roundtrip::width(members_spelling(m, k)) + 1
    }
}

#[verifier::spinoff_prover]
#[verifier::rlimit(60)]
proof fn lemma_text_members(b: Seq<u8>, s: int, q: int, m: Seq<(Label, Text)>, k: nat)
    requires
        k < m.len(),
        0 <= s,
        forall|i: int|
            0 <= i < m.len() ==> label_good((#[trigger] m[i]).0) && well_spelled(m[i].1),
        roundtrip::holds(b, s, members_spelling(m, m.len())),
        stops(b, s + roundtrip::width(members_spelling(m, m.len()))),
        reader::skip_ws(b, q) == member_place(s, m, k) + roundtrip::width(m[k as int].0.before),
    ensures
        ({
            let end = s + roundtrip::width(members_spelling(m, m.len()));
            let r = reader::members_at(b, q, json::built(pairs_to(m, k)));
            &&& reader::at(b, end, '}' as u8) ==> r == Ok::<(Json, int), Seq<char>>(
                (Json::Obj(json::built(pairs_to(m, m.len()))), end + 1),
            )
            &&& reader::at(b, end, ',' as u8) ==> r == reader::members_at(
                b,
                end + 1,
                json::built(pairs_to(m, m.len())),
            )
            &&& !reader::at(b, end, '}' as u8) && !reader::at(b, end, ',' as u8) ==> r is Err
        }),
    decreases m, 1nat, m.len() - k,
{
    let x = members_spelling(m, k);
    let c = seq![','];
    let l = m[k as int].0;
    let v = m[k as int].1;
    let t = label_text(l);
    let r = spelling(v);
    let z = member_place(s, m, k);
    lemma_members_first(b, s, m, k + 1, m.len());
    if k > 0 {
        roundtrip::lemma_holds_split3(b, s, x, c, t + r + l.end);
        roundtrip::lemma_ascii(b, s + roundtrip::width(x), ',');
    }
    roundtrip::lemma_holds_split3(b, z, t, r, l.end);
    assert(label_good(m[k as int].0) && well_spelled(m[k as int].1));
    let w = z + roundtrip::width(t);
    let f = w + roundtrip::width(r);
    let e = f + roundtrip::width(l.end);
    assert(e == s + roundtrip::width(members_spelling(m, k + 1)));
    lemma_label(b, z, l);
    lemma_text_opens(b, w, v);
    let colon = z + roundtrip::width(l.before) + roundtrip::width(string_text(l.name))
        + roundtrip::width(l.after);
    lemma_gap(b, colon + 1, l.inner);
    let done = pairs_to(m, k);
    let next = pairs_to(m, k + 1);
    assert(next.drop_last() =~= done);
    assert(next.last() == (string_value(l.name), spelled_value(v)));
    if k + 1 < m.len() {
        let l2 = m[k as int + 1].0;
        let r2 = spelling(m[k as int + 1].1);
        lemma_members_first(b, s, m, k + 2, m.len());
        roundtrip::lemma_holds_split3(
            b,
            s,
            members_spelling(m, k + 1),
            c,
            label_text(l2) + r2 + l2.end,
        );
        roundtrip::lemma_ascii(b, e, ',');
        roundtrip::lemma_holds_split3(b, e + 1, label_text(l2), r2, l2.end);
        assert(label_good(m[k as int + 1].0));
        lemma_label(b, e + 1, l2);
        lemma_gap(b, f, l.end);
        lemma_gap_ends(b, f, l.end);
        lemma_text(b, w, v);
        lemma_text_members(b, s, e + 1, m, k + 1);
    } else {
        lemma_gap(b, f, l.end);
        lemma_gap_ends(b, f, l.end);
        lemma_text(b, w, v);
    }
}

/// Every text of the grammar reads as the value that it spells, with white space before it and
/// anything after it that could not continue a number.
pub proof fn law_every_text_reads(before: Seq<char>, v: Text, rest: Seq<char>)
    requires
        gap(before),
        well_spelled(v),
        rest.len() > 0 ==> !number_char(rest[0]),
    ensures
        reader::meaning(before + spelling(v) + rest) == Ok::<Json, Seq<char>>(spelled_value(v)),
{
    let t = spelling(v);
    let all = before + t + rest;
    let b = utf8::encode_utf8(all);
    assert(b.subrange(0, b.len() as int) =~= b);
    assert(roundtrip::holds(b, 0, all));
    roundtrip::lemma_holds_split3(b, 0, before, t, rest);
    let p = roundtrip::width(before);
    lemma_text_opens(b, p, v);
    lemma_gap(b, 0, before);
    if rest.len() > 0 {
        let h = seq![rest[0]];
        assert(rest =~= h + rest.skip(1));
        roundtrip::lemma_holds_split(b, p + roundtrip::width(t), h, rest.skip(1));
        if rest[0] <= '\u{7f}' {
            roundtrip::lemma_ascii(b, p + roundtrip::width(t), rest[0]);
            lemma_not_number(rest[0]);
        } else {
            let e = utf8::encode_utf8(h);
            let k = p + roundtrip::width(t);
            roundtrip::lemma_high_bytes(rest[0]);
            assert(b.subrange(k, k + e.len())[0] == b[k]);
            assert(e[0] == b[k]);
        }
    } else {
        assert(utf8::encode_utf8(rest) =~= Seq::<u8>::empty());
    }
    lemma_text(b, p, v);
}

proof fn lemma_not_number(c: char)
    requires
        c <= '\u{7f}',
        !number_char(c),
    ensures
        !reader::is_num_byte(c as u8),
{
}

/// A string with a character written as `\u` and its code reads as that character, for every
/// character of the basic plane and whatever the case of the digits.
pub proof fn law_code_reads_as_its_character(
    before: Seq<char>,
    c: char,
    caps: Seq<bool>,
    after: Seq<char>,
)
    requires
        c <= '\u{ffff}',
        caps.len() == 4,
        plain(before),
        plain(after),
    ensures
        reader::meaning(
            seq!['"'] + (before + (seq!['\\', 'u'] + code_digits(c as u32 as nat, caps)) + after)
                + seq!['"'],
        ) == Ok::<Json, Seq<char>>(Json::Str(before + seq![c] + after)),
{
    let p = Piece::Code(c, caps);
    let ps = seq![Piece::Raw(before), p, Piece::Raw(after)];
    let v = Text::Str(ps);
    assert forall|i: int| 0 <= i < ps.len() implies piece_good(#[trigger] ps[i]) by {}
    law_every_text_reads(Seq::empty(), v, Seq::empty());
    assert(pieces_text(ps, 1) =~= before) by {
        assert(pieces_text(ps, 0) =~= Seq::<char>::empty());
    }
    assert(pieces_text(ps, 2) =~= before + piece_text(p));
    assert(pieces_text(ps, 3) =~= before + piece_text(p) + after);
    assert(pieces_value(ps, 1) =~= before) by {
        assert(pieces_value(ps, 0) =~= Seq::<char>::empty());
    }
    assert(pieces_value(ps, 2) =~= before + seq![c]);
    assert(pieces_value(ps, 3) =~= before + seq![c] + after);
    assert(spelling(v) == string_text(ps));
    assert(spelled_value(v) == Json::Str(string_value(ps)));
    assert(Seq::<char>::empty() + spelling(v) + Seq::<char>::empty() =~= spelling(v));
}

// ------------------------------------------------------------ what is no JSON

/// Whether a text is empty, or starts with a character after which no list goes on.
pub open spec fn list_over(rest: Seq<char>) -> bool {
    rest.len() > 0 ==> rest[0] <= '\u{7f}' && rest[0] != ' ' && rest[0] != '\t' && rest[0] != '\n'
        && rest[0] != '\r' && rest[0] != ',' && !number_char(rest[0])
}

/// What a text holds at a position from which on it is known.
proof fn lemma_rest(b: Seq<u8>, i: int, rest: Seq<char>)
    requires
        roundtrip::holds(b, i, rest),
        i + roundtrip::width(rest) == b.len(),
        rest.len() > 0 ==> rest[0] <= '\u{7f}',
    ensures
        rest.len() == 0 ==> i == b.len(),
        rest.len() > 0 ==> i < b.len() && b[i] == rest[0] as u8 && b[i] as char == rest[0],
        list_over(rest) ==> stops(b, i) && !reader::at(b, i, ',' as u8),
{
    if rest.len() > 0 {
        let h = seq![rest[0]];
        assert(rest =~= h + rest.skip(1));
        roundtrip::lemma_holds_split(b, i, h, rest.skip(1));
        roundtrip::lemma_ascii(b, i, rest[0]);
        lemma_char_back(rest[0]);
        if list_over(rest) {
            lemma_not_number(rest[0]);
            lemma_no_list(rest[0]);
        }
    } else {
        assert(utf8::encode_utf8(rest) =~= Seq::<u8>::empty());
    }
}

proof fn lemma_no_list(c: char)
    requires
        c <= '\u{7f}',
        c != ' ' && c != '\t' && c != '\n' && c != '\r' && c != ',',
    ensures
        !reader::is_ws(c as u8),
        c as u8 != ',' as u8,
{
}

/// A text after white space starts where that ends.
proof fn lemma_start(before: Seq<char>, t: Seq<char>) -> (p: int)
    requires
        gap(before),
        t.len() > 0,
        t[0] <= '\u{7f}',
        t[0] != ' ' && t[0] != '\t' && t[0] != '\n' && t[0] != '\r',
    ensures
        ({
            let b = utf8::encode_utf8(before + t);
            &&& reader::skip_ws(b, 0) == p
            &&& roundtrip::holds(b, p, t)
            &&& p + roundtrip::width(t) == b.len()
            &&& 0 <= p < b.len()
            &&& b[p] == t[0] as u8
        }),
{
    let b = utf8::encode_utf8(before + t);
    assert(b.subrange(0, b.len() as int) =~= b);
    assert(roundtrip::holds(b, 0, before + t));
    roundtrip::lemma_holds_split(b, 0, before, t);
    let p = roundtrip::width(before);
    let h = seq![t[0]];
    assert(t =~= h + t.skip(1));
    roundtrip::lemma_holds_split(b, p, h, t.skip(1));
    roundtrip::lemma_ascii(b, p, t[0]);
    lemma_not_ws(t[0]);
    lemma_gap(b, 0, before);
    p
}

proof fn lemma_not_ws(c: char)
    requires
        c <= '\u{7f}',
        c != ' ' && c != '\t' && c != '\n' && c != '\r',
    ensures
        !reader::is_ws(c as u8),
{
}

/// White space alone is no JSON.
pub proof fn law_blank_is_refused(before: Seq<char>)
    requires
        gap(before),
    ensures
        reader::meaning(before) is Err,
{
    let b = utf8::encode_utf8(before);
    assert(b.subrange(0, b.len() as int) =~= b);
    assert(roundtrip::holds(b, 0, before));
    lemma_gap(b, 0, before);
}

/// A character with which no value starts is refused.
pub proof fn law_other_start_is_refused(before: Seq<char>, c: char, rest: Seq<char>)
    requires
        gap(before),
        c <= '\u{7f}',
        c != ' ' && c != '\t' && c != '\n' && c != '\r',
        c != '{' && c != '[' && c != '"' && c != 't' && c != 'f' && c != 'n',
        !number_char(c),
    ensures
        reader::meaning(before + (seq![c] + rest)) is Err,
{
    let t = seq![c] + rest;
    let b = utf8::encode_utf8(before + t);
    let p = lemma_start(before, t);
    lemma_not_number(c);
    lemma_other_start(c);
    assert(reader::num_end(b, p) == p);
    let e = Seq::<char>::empty();
    assert(reader::latin(b.subrange(p, p)) =~= e);
    lemma_no_number();
}

proof fn lemma_other_start(c: char)
    requires
        c <= '\u{7f}',
        c != '{' && c != '[' && c != '"' && c != 't' && c != 'f' && c != 'n',
    ensures
        c as u8 != '{' as u8 && c as u8 != '[' as u8 && c as u8 != '"' as u8,
        c as u8 != 't' as u8 && c as u8 != 'f' as u8 && c as u8 != 'n' as u8,
{
}

proof fn lemma_no_number()
    ensures
        numeral::number_text(Seq::empty()) is None,
{
    let e = Seq::<char>::empty();
    reveal_strlit("inf");
    reveal_strlit("infinity");
    reveal_strlit("nan");
    assert(text::lowered(e).len() == 0);
    assert("inf"@.len() == 3 && "infinity"@.len() == 8 && "nan"@.len() == 3);
    assert(e.take(0) =~= e);
}

/// A word that differs from `true`, `false` or `null` after its first letters is refused.
pub proof fn law_other_words_are_refused(
    before: Seq<char>,
    word: Seq<char>,
    k: int,
    rest: Seq<char>,
)
    requires
        gap(before),
        word == seq!['t', 'r', 'u', 'e'] || word == seq!['f', 'a', 'l', 's', 'e'] || word == seq![
            'n',
            'u',
            'l',
            'l',
        ],
        1 <= k < word.len(),
        rest.len() > 0 ==> rest[0] <= '\u{7f}' && rest[0] != word[k],
    ensures
        reader::meaning(before + (word.take(k) + rest)) is Err,
{
    let w = word.take(k);
    let t = w + rest;
    let b = utf8::encode_utf8(before + t);
    assert(t[0] == word[0]);
    let p = lemma_start(before, t);
    roundtrip::lemma_holds_split(b, p, w, rest);
    assert forall|j: int| 0 <= j < w.len() implies #[trigger] w[j] <= '\u{7f}' by {
        assert(w[j] == word[j]);
    }
    lemma_ascii_at(b, p, w, 0);
    lemma_rest(b, p + k, rest);
    let bytes = if word[0] == 't' {
        seq![('t' as u8), ('r' as u8), ('u' as u8), ('e' as u8)]
    } else if word[0] == 'f' {
        seq![('f' as u8), ('a' as u8), ('l' as u8), ('s' as u8), ('e' as u8)]
    } else {
        seq![('n' as u8), ('u' as u8), ('l' as u8), ('l' as u8)]
    };
    assert(bytes.len() == word.len());
    assert(bytes[k] as char == word[k]);
    if p + bytes.len() <= b.len() && b.subrange(p, p + bytes.len()) == bytes {
        assert(b.subrange(p, p + bytes.len())[k] == b[p + k]);
        assert(false);
    }
}

/// A string without its closing quote is refused.
pub proof fn law_unclosed_string_is_refused(before: Seq<char>, ps: Seq<Piece>)
    requires
        gap(before),
        string_good(ps),
    ensures
        reader::meaning(before + (seq!['"'] + pieces_text(ps, ps.len()))) is Err,
{
    let x = pieces_text(ps, ps.len());
    let t = seq!['"'] + x;
    let b = utf8::encode_utf8(before + t);
    let p = lemma_start(before, t);
    roundtrip::lemma_holds_split(b, p, seq!['"'], x);
    roundtrip::lemma_ascii(b, p, '"');
    lemma_pieces(b, p + 1, ps, ps.len());
}

/// An array of which nothing but the start is there is refused.
pub proof fn law_array_start_is_refused(before: Seq<char>, inner: Seq<char>)
    requires
        gap(before),
        gap(inner),
    ensures
        reader::meaning(before + (seq!['['] + inner)) is Err,
{
    let t = seq!['['] + inner;
    let b = utf8::encode_utf8(before + t);
    let p = lemma_start(before, t);
    roundtrip::lemma_holds_split(b, p, seq!['['], inner);
    roundtrip::lemma_ascii(b, p, '[');
    lemma_gap(b, p + 1, inner);
    let n = b.len() as int;
    roundtrip::lemma_skip_is(b, n, n);
    assert(reader::value_at(b, n) is Err);
    assert(reader::items_at(b, n, Seq::empty()) is Err);
}

/// An array that neither goes on nor ends after an element is refused.
#[verifier::spinoff_prover]
#[verifier::rlimit(60)]
pub proof fn law_unclosed_array_is_refused(
    before: Seq<char>,
    a: Seq<((Seq<char>, Seq<char>), Text)>,
    rest: Seq<char>,
)
    requires
        gap(before),
        a.len() > 0,
        forall|i: int|
            0 <= i < a.len() ==> gap((#[trigger] a[i]).0.0) && gap(a[i].0.1) && well_spelled(a[i].1),
        list_over(rest),
        rest.len() > 0 ==> rest[0] != ']',
    ensures
        reader::meaning(before + (seq!['['] + items_spelling(a, a.len()) + rest)) is Err,
{
    let x = items_spelling(a, a.len());
    let t = seq!['['] + x + rest;
    let b = utf8::encode_utf8(before + t);
    let p = lemma_start(before, t);
    roundtrip::lemma_holds_split3(b, p, seq!['['], x, rest);
    roundtrip::lemma_ascii(b, p, '[');
    let s = p + 1;
    lemma_rest(b, s + roundtrip::width(x), rest);
    lemma_items_first(b, s, a, 1, a.len());
    let g = a[0].0;
    assert(gap(a[0].0.0) && gap(a[0].0.1) && well_spelled(a[0].1));
    roundtrip::lemma_holds_split3(b, s, g.0, spelling(a[0].1), g.1);
    let q = s + roundtrip::width(g.0);
    lemma_text_opens(b, q, a[0].1);
    lemma_gap(b, s, g.0);
    roundtrip::lemma_skip_is(b, q, q);
    lemma_text_items(b, s, q, a, 0);
    assert(values_to(a, 0) == Seq::<Json>::empty());
}

/// An array that ends after a comma is refused.
#[verifier::spinoff_prover]
#[verifier::rlimit(60)]
pub proof fn law_comma_at_the_end_is_refused(
    before: Seq<char>,
    a: Seq<((Seq<char>, Seq<char>), Text)>,
    inner: Seq<char>,
    rest: Seq<char>,
)
    requires
        gap(before),
        gap(inner),
        a.len() > 0,
        forall|i: int|
            0 <= i < a.len() ==> gap((#[trigger] a[i]).0.0) && gap(a[i].0.1) && well_spelled(a[i].1),
    ensures
        reader::meaning(
            before + (seq!['['] + items_spelling(a, a.len()) + (seq![','] + inner + (seq![']']
                + rest))),
        ) is Err,
{
    let x = items_spelling(a, a.len());
    let z = seq![']'] + rest;
    let y = seq![','] + inner + z;
    let t = seq!['['] + x + y;
    let b = utf8::encode_utf8(before + t);
    let p = lemma_start(before, t);
    roundtrip::lemma_holds_split3(b, p, seq!['['], x, y);
    roundtrip::lemma_ascii(b, p, '[');
    let s = p + 1;
    let e = s + roundtrip::width(x);
    roundtrip::lemma_holds_split3(b, e, seq![','], inner, z);
    roundtrip::lemma_ascii(b, e, ',');
    let c = e + 1 + roundtrip::width(inner);
    roundtrip::lemma_holds_split(b, c, seq![']'], rest);
    roundtrip::lemma_ascii(b, c, ']');
    lemma_gap(b, e + 1, inner);
    lemma_no_value(b, c);
    lemma_items_first(b, s, a, 1, a.len());
    let g = a[0].0;
    assert(gap(a[0].0.0) && gap(a[0].0.1) && well_spelled(a[0].1));
    roundtrip::lemma_holds_split3(b, s, g.0, spelling(a[0].1), g.1);
    let q = s + roundtrip::width(g.0);
    lemma_text_opens(b, q, a[0].1);
    lemma_gap(b, s, g.0);
    roundtrip::lemma_skip_is(b, q, q);
    lemma_text_items(b, s, q, a, 0);
    assert(values_to(a, 0) == Seq::<Json>::empty());
}

/// No value starts with a bracket that closes.
proof fn lemma_no_value(b: Seq<u8>, i: int)
    requires
        0 <= i < b.len(),
        b[i] == ']' as u8,
    ensures
        reader::value_at(b, i) is Err,
{
    assert(reader::num_end(b, i) == i);
    assert(reader::latin(b.subrange(i, i)) =~= Seq::<char>::empty());
    lemma_no_number();
}

/// An object that neither goes on nor ends after a member is refused.
#[verifier::spinoff_prover]
#[verifier::rlimit(60)]
pub proof fn law_unclosed_object_is_refused(
    before: Seq<char>,
    m: Seq<(Label, Text)>,
    rest: Seq<char>,
)
    requires
        gap(before),
        m.len() > 0,
        forall|i: int|
            0 <= i < m.len() ==> label_good((#[trigger] m[i]).0) && well_spelled(m[i].1),
        list_over(rest),
        rest.len() > 0 ==> rest[0] != '}',
    ensures
        reader::meaning(before + (seq!['{'] + members_spelling(m, m.len()) + rest)) is Err,
{
    let x = members_spelling(m, m.len());
    let t = seq!['{'] + x + rest;
    let b = utf8::encode_utf8(before + t);
    let p = lemma_start(before, t);
    roundtrip::lemma_holds_split3(b, p, seq!['{'], x, rest);
    roundtrip::lemma_ascii(b, p, '{');
    let s = p + 1;
    lemma_rest(b, s + roundtrip::width(x), rest);
    lemma_members_first(b, s, m, 1, m.len());
    let l = m[0].0;
    assert(label_good(m[0].0) && well_spelled(m[0].1));
    roundtrip::lemma_holds_split3(b, s, label_text(l), spelling(m[0].1), l.end);
    lemma_label(b, s, l);
    let q = s + roundtrip::width(l.before);
    roundtrip::lemma_skip_is(b, q, q);
    lemma_text_members(b, s, q, m, 0);
    assert(json::built(pairs_to(m, 0)) == Seq::<(Seq<char>, Json)>::empty());
}

/// A member without a colon after its name is refused.
pub proof fn law_missing_colon_is_refused(
    before: Seq<char>,
    inner: Seq<char>,
    name: Seq<Piece>,
    after: Seq<char>,
    rest: Seq<char>,
)
    requires
        gap(before),
        gap(inner),
        gap(after),
        string_good(name),
        list_over(rest),
        rest.len() > 0 ==> rest[0] != ':',
    ensures
        reader::meaning(
            before + (seq!['{'] + (inner + string_text(name) + (after + rest))),
        ) is Err,
{
    let st = string_text(name);
    let y = after + rest;
    let x = inner + st + y;
    let t = seq!['{'] + x;
    let b = utf8::encode_utf8(before + t);
    let p = lemma_start(before, t);
    roundtrip::lemma_holds_split(b, p, seq!['{'], x);
    roundtrip::lemma_ascii(b, p, '{');
    let s = p + 1;
    roundtrip::lemma_holds_split3(b, s, inner, st, y);
    let q = s + roundtrip::width(inner);
    let r = q + roundtrip::width(st);
    roundtrip::lemma_holds_split(b, r, after, rest);
    let c = r + roundtrip::width(after);
    lemma_string(b, q, name);
    lemma_rest(b, c, rest);
    lemma_gap(b, s, inner);
    lemma_gap(b, r, after);
    roundtrip::lemma_skip_is(b, q, q);
    assert(!reader::at(b, c, ':' as u8));
    assert(reader::members_at(b, q, Seq::empty()) is Err);
}

} // verus!
