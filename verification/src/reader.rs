//! The JSON parser: what a text means, and reading it.

use vstd::prelude::*;
use vstd::utf8;
use crate::bytes;
use crate::digits;
use crate::json::{self, J, Json};
use crate::num::Num;
use crate::numeral;
use crate::text;

verus! {

// ------------------------------------------------------------ what text means

/// The bytes that may stand between tokens.
pub open spec fn is_ws(c: u8) -> bool {
    c == (' ' as u8) || c == ('\t' as u8) || c == ('\n' as u8) || c == ('\r' as u8)
}

/// The first position at or after `i` that holds no white space.
pub open spec fn skip_ws(b: Seq<u8>, i: int) -> int
    decreases b.len() - i,
{
    if 0 <= i < b.len() && is_ws(b[i]) {
        skip_ws(b, i + 1)
    } else {
        i
    }
}

/// Whether the byte `c` stands at position `i`.
pub open spec fn at(b: Seq<u8>, i: int, c: u8) -> bool {
    0 <= i < b.len() && b[i] == c
}

/// The message for a byte that is missing.
pub open spec fn expected(c: char, i: int) -> Seq<char> {
    "expected '"@ + seq![c] + "' at "@ + digits::decimal(i as nat)
}

/// The character of the four hexadecimal digits at position `i`; the replacement character where
/// they write none.
pub open spec fn unicode_escape(b: Seq<u8>, i: int) -> char {
    match digits::unsigned(latin(b.subrange(i, i + 4)), 16, u32::MAX as nat) {
        Some(v) => if v <= 0xd7ff || 0xe000 <= v <= 0xffff {
            (v as u32) as char
        } else {
            '\u{fffd}'
        },
        None => '\u{fffd}',
    }
}

/// The byte that an escape of one byte stands for.
pub open spec fn short_escape(c: u8) -> u8 {
    if c == ('n' as u8) {
        10
    } else if c == ('r' as u8) {
        13
    } else if c == ('t' as u8) {
        9
    } else if c == ('b' as u8) {
        8
    } else if c == ('f' as u8) {
        12
    } else {
        c
    }
}

/// The bytes of a string from position `i` to its closing quote, after `out`, and the position
/// after the quote.
pub open spec fn string_body(b: Seq<u8>, i: int, out: Seq<u8>) -> Result<(Seq<u8>, int), Seq<char>>
    decreases b.len() - i,
{
    if i < 0 || i >= b.len() {
        Err("unterminated string"@)
    } else if b[i] == ('"' as u8) {
        Ok((out, i + 1))
    } else if b[i] == ('\\' as u8) {
        if i + 1 >= b.len() {
            Err("bad escape"@)
        } else if b[i + 1] == ('u' as u8) {
            if i + 6 > b.len() {
                Err("unterminated string"@)
            } else {
                string_body(b, i + 6, out + utf8::encode_utf8(seq![unicode_escape(b, i + 2)]))
            }
        } else {
            string_body(b, i + 2, out.push(short_escape(b[i + 1])))
        }
    } else {
        string_body(b, i + 1, out.push(b[i]))
    }
}

/// The string that starts at position `i`, and the position after it.
pub open spec fn string_at(b: Seq<u8>, i: int) -> Result<(Seq<char>, int), Seq<char>> {
    if !at(b, i, ('"' as u8)) {
        Err(expected('"', i))
    } else {
        match string_body(b, i + 1, Seq::empty()) {
            Ok((s, j)) => Ok((bytes::text_of(s), j)),
            Err(e) => Err(e),
        }
    }
}

/// The bytes that a number is made of.
pub open spec fn is_num_byte(c: u8) -> bool {
    ||| ('0' as u8) <= c <= ('9' as u8)
    ||| c == ('-' as u8)
    ||| c == ('+' as u8)
    ||| c == ('.' as u8)
    ||| c == ('e' as u8)
    ||| c == ('E' as u8)
}

/// The first position at or after `i` that holds no byte of a number.
pub open spec fn num_end(b: Seq<u8>, i: int) -> int
    decreases b.len() - i,
{
    if 0 <= i < b.len() && is_num_byte(b[i]) {
        num_end(b, i + 1)
    } else {
        i
    }
}

/// Bytes as the characters of the same codes.
pub open spec fn latin(b: Seq<u8>) -> Seq<char> {
    Seq::new(b.len(), |i: int| b[i] as char)
}

/// The number at position `i`, and the position after it.
pub open spec fn number_at(b: Seq<u8>, i: int) -> Result<(Json, int), Seq<char>> {
    let j = num_end(b, i);
    let t = latin(b.subrange(i, j));
    match numeral::number_text(t) {
        Some(n) => Ok((Json::Num(n), j)),
        None => Err("bad number: "@ + t),
    }
}

/// The value `v` where `word` stands at position `i`, and the position after it.
pub open spec fn literal_at(b: Seq<u8>, i: int, word: Seq<u8>, v: Json) -> Result<
    (Json, int),
    Seq<char>,
> {
    if i + word.len() <= b.len() && b.subrange(i, i + word.len()) == word {
        Ok((v, i + word.len()))
    } else {
        Err("invalid literal at "@ + digits::decimal(i as nat))
    }
}

/// The value that starts at position `i`, and the position after it.
pub open spec fn value_at(b: Seq<u8>, i: int) -> Result<(Json, int), Seq<char>>
    decreases b.len() - i, 0nat,
{
    if i < 0 || i >= b.len() {
        Err("unexpected end of input"@)
    } else if b[i] == ('{' as u8) {
        proof {
            lemma_skip_ws(b, i + 1);
        }
        let j = skip_ws(b, i + 1);
        if at(b, j, ('}' as u8)) {
            Ok((Json::Obj(Seq::empty()), j + 1))
        } else {
            members_at(b, j, Seq::empty())
        }
    } else if b[i] == ('[' as u8) {
        proof {
            lemma_skip_ws(b, i + 1);
        }
        let j = skip_ws(b, i + 1);
        if at(b, j, (']' as u8)) {
            Ok((Json::Arr(Seq::empty()), j + 1))
        } else {
            items_at(b, j, Seq::empty())
        }
    } else if b[i] == ('"' as u8) {
        match string_at(b, i) {
            Ok((s, j)) => Ok((Json::Str(s), j)),
            Err(e) => Err(e),
        }
    } else if b[i] == ('t' as u8) {
        literal_at(b, i, seq![('t' as u8), ('r' as u8), ('u' as u8), ('e' as u8)], Json::Bool(true))
    } else if b[i] == ('f' as u8) {
        literal_at(
            b,
            i,
            seq![('f' as u8), ('a' as u8), ('l' as u8), ('s' as u8), ('e' as u8)],
            Json::Bool(false),
        )
    } else if b[i] == ('n' as u8) {
        literal_at(b, i, seq![('n' as u8), ('u' as u8), ('l' as u8), ('l' as u8)], Json::Null)
    } else {
        number_at(b, i)
    }
}

/// The elements from position `i` on, after `a`, to the end of the array. (A value takes up at
/// least one byte, so the bound on its end excludes nothing.)
pub open spec fn items_at(b: Seq<u8>, i: int, a: Seq<Json>) -> Result<(Json, int), Seq<char>>
    decreases b.len() - i, 1nat,
{
    let p = skip_ws(b, i);
    proof {
        lemma_skip_ws(b, i);
    }
    match value_at(b, p) {
        Err(e) => Err(e),
        Ok((v, q)) => {
            let r = skip_ws(b, q);
            proof {
                lemma_skip_ws(b, q);
            }
            if !(p < q <= b.len()) {
                Err(Seq::empty())
            } else if at(b, r, (',' as u8)) {
                items_at(b, r + 1, a.push(v))
            } else if at(b, r, (']' as u8)) {
                Ok((Json::Arr(a.push(v)), r + 1))
            } else {
                Err("expected ',' or ']' at "@ + digits::decimal(r as nat))
            }
        },
    }
}

/// The members from position `i` on, after `m`, to the end of the object. (The bound on the end
/// of a value excludes nothing here either.)
pub open spec fn members_at(b: Seq<u8>, i: int, m: Seq<(Seq<char>, Json)>) -> Result<
    (Json, int),
    Seq<char>,
>
    decreases b.len() - i, 1nat,
{
    let p = skip_ws(b, i);
    proof {
        lemma_skip_ws(b, i);
    }
    match string_at(b, p) {
        Err(e) => Err(e),
        Ok((k, q)) => {
            let c = skip_ws(b, q);
            let w = skip_ws(b, c + 1);
            proof {
                lemma_string_at(b, p);
                lemma_skip_ws(b, q);
                lemma_skip_ws(b, c + 1);
            }
            if !at(b, c, (':' as u8)) {
                Err(expected(':', c))
            } else {
                match value_at(b, w) {
                    Err(e) => Err(e),
                    Ok((v, x)) => {
                        let r = skip_ws(b, x);
                        proof {
                            lemma_skip_ws(b, x);
                        }
                        if !(w < x <= b.len()) {
                            Err(Seq::empty())
                        } else if at(b, r, (',' as u8)) {
                            members_at(b, r + 1, json::put(m, k, v))
                        } else if at(b, r, ('}' as u8)) {
                            Ok((Json::Obj(json::put(m, k, v)), r + 1))
                        } else {
                            Err("expected ',' or '}' at "@ + digits::decimal(r as nat))
                        }
                    },
                }
            }
        },
    }
}

/// What a JSON text means. What follows the value is not looked at.
pub open spec fn meaning(s: Seq<char>) -> Result<Json, Seq<char>> {
    let b = utf8::encode_utf8(s);
    match value_at(b, skip_ws(b, 0)) {
        Ok((v, _)) => Ok(v),
        Err(e) => Err(e),
    }
}

// ------------------------------------------------------------------- progress

pub proof fn lemma_skip_ws(b: Seq<u8>, i: int)
    ensures
        skip_ws(b, i) >= i,
        i <= b.len() ==> skip_ws(b, i) <= b.len(),
        forall|k: int| i <= k < skip_ws(b, i) ==> is_ws(#[trigger] b[k]),
        0 <= i && skip_ws(b, i) < b.len() ==> !is_ws(b[skip_ws(b, i)]),
    decreases b.len() - i,
{
    if 0 <= i < b.len() && is_ws(b[i]) {
        lemma_skip_ws(b, i + 1);
    }
}

proof fn lemma_string_body(b: Seq<u8>, i: int, out: Seq<u8>)
    ensures
        string_body(b, i, out) matches Ok((_, j)) ==> i < j <= b.len(),
    decreases b.len() - i,
{
    if 0 <= i < b.len() && b[i] != ('"' as u8) {
        if b[i] == ('\\' as u8) {
            if i + 1 < b.len() {
                if b[i + 1] == ('u' as u8) {
                    if i + 6 <= b.len() {
                        lemma_string_body(
                            b,
                            i + 6,
                            out + utf8::encode_utf8(seq![unicode_escape(b, i + 2)]),
                        );
                    }
                } else {
                    lemma_string_body(b, i + 2, out.push(short_escape(b[i + 1])));
                }
            }
        } else {
            lemma_string_body(b, i + 1, out.push(b[i]));
        }
    }
}

pub proof fn lemma_string_at(b: Seq<u8>, i: int)
    ensures
        string_at(b, i) matches Ok((_, j)) ==> i < j <= b.len(),
{
    lemma_string_body(b, i + 1, Seq::empty());
}

pub proof fn lemma_num_end(b: Seq<u8>, i: int)
    requires
        0 <= i <= b.len(),
    ensures
        i <= num_end(b, i) <= b.len(),
        forall|k: int| i <= k < num_end(b, i) ==> is_num_byte(#[trigger] b[k]),
        num_end(b, i) < b.len() ==> !is_num_byte(b[num_end(b, i)]),
    decreases b.len() - i,
{
    if i < b.len() && is_num_byte(b[i]) {
        lemma_num_end(b, i + 1);
    }
}

/// A value takes up at least one byte.
pub proof fn lemma_value_at(b: Seq<u8>, i: int)
    ensures
        value_at(b, i) matches Ok((_, j)) ==> i < j <= b.len(),
    decreases b.len() - i, 0nat,
{
    if 0 <= i < b.len() {
        lemma_skip_ws(b, i + 1);
        let j = skip_ws(b, i + 1);
        if b[i] == ('{' as u8) {
            if !at(b, j, ('}' as u8)) {
                lemma_members_at(b, j, Seq::empty());
            }
        } else if b[i] == ('[' as u8) {
            if !at(b, j, (']' as u8)) {
                lemma_items_at(b, j, Seq::empty());
            }
        } else if b[i] == ('"' as u8) {
            lemma_string_at(b, i);
        } else {
            lemma_num_end(b, i);
            let k = num_end(b, i);
            if k == i {
                assert(latin(b.subrange(i, k)) =~= Seq::<char>::empty());
                lemma_empty_no_number();
            }
        }
    }
}

proof fn lemma_empty_no_number()
    ensures
        numeral::number_text(Seq::empty()) is None,
{
    let e = Seq::<char>::empty();
    reveal_strlit("inf");
    reveal_strlit("infinity");
    reveal_strlit("nan");
    assert(text::lowered(e).len() == 0);
    assert(numeral::digits_end(e, 0) == 0);
    assert(numeral::decimal_text(e) is None);
}

pub proof fn lemma_items_at(b: Seq<u8>, i: int, a: Seq<Json>)
    ensures
        items_at(b, i, a) matches Ok((_, j)) ==> i < j <= b.len(),
    decreases b.len() - i, 1nat,
{
    let p = skip_ws(b, i);
    lemma_skip_ws(b, i);
    if let Ok((v, q)) = value_at(b, p) {
        let r = skip_ws(b, q);
        lemma_skip_ws(b, q);
        if p < q <= b.len() && at(b, r, (',' as u8)) {
            lemma_items_at(b, r + 1, a.push(v));
        }
    }
}

pub proof fn lemma_members_at(b: Seq<u8>, i: int, m: Seq<(Seq<char>, Json)>)
    ensures
        members_at(b, i, m) matches Ok((_, j)) ==> i < j <= b.len(),
    decreases b.len() - i, 1nat,
{
    let p = skip_ws(b, i);
    lemma_skip_ws(b, i);
    if let Ok((k, q)) = string_at(b, p) {
        lemma_string_at(b, p);
        let c = skip_ws(b, q);
        lemma_skip_ws(b, q);
        let w = skip_ws(b, c + 1);
        lemma_skip_ws(b, c + 1);
        if at(b, c, (':' as u8)) {
            if let Ok((v, x)) = value_at(b, w) {
                let r = skip_ws(b, x);
                lemma_skip_ws(b, x);
                if w < x <= b.len() && at(b, r, (',' as u8)) {
                    lemma_members_at(b, r + 1, json::put(m, k, v));
                }
            }
        }
    }
}


// -------------------------------------------------------------------- parsing

/// The first position at or after `i` that holds no white space.
fn ws(b: &Vec<u8>, i: usize) -> (r: usize)
    requires
        i <= b@.len(),
    ensures
        r == skip_ws(b@, i as int),
        i <= r <= b@.len(),
{
    let n = b.len();
    let mut j: usize = i;
    while j < n && (b[j] == 0x20 || b[j] == 0x09 || b[j] == 0x0a || b[j] == 0x0d)
        invariant
            i <= j <= n == b@.len(),
            skip_ws(b@, i as int) == skip_ws(b@, j as int),
        decreases n - j,
    {
        j = j + 1;
    }
    j
}

/// Whether the byte `c` stands at position `i`.
fn peek(b: &Vec<u8>, i: usize, c: u8) -> (r: bool)
    ensures
        r == at(b@, i as int, c),
        r ==> i < usize::MAX,
{
    i < b.len() && b[i] == c
}

/// The message for a byte that is missing.
fn expect_error(c: char, i: usize) -> (r: String)
    ensures
        r@ == expected(c, i as int),
{
    let mut out = "expected '".to_string();
    out.push(c);
    text::put(&mut out, "' at ");
    digits::put_decimal(&mut out, i as u64);
    assert(out@ =~= expected(c, i as int));
    out
}

/// A message and the position that it is about.
fn error_at(message: &str, i: usize) -> (r: String)
    ensures
        r@ == message@ + digits::decimal(i as nat),
{
    let mut out = message.to_string();
    digits::put_decimal(&mut out, i as u64);
    out
}

/// The characters of the codes `b[from..to]`.
fn latin_text(b: &Vec<u8>, from: usize, to: usize) -> (r: String)
    requires
        from <= to <= b@.len(),
    ensures
        r@ == latin(b@.subrange(from as int, to as int)),
{
    let mut out = String::new();
    let mut i: usize = from;
    assert(out@ =~= latin(b@.subrange(from as int, from as int)));
    while i < to
        invariant
            from <= i <= to <= b@.len(),
            out@ == latin(b@.subrange(from as int, i as int)),
        decreases to - i,
    {
        out.push(b[i] as char);
        i = i + 1;
        assert(out@ =~= latin(b@.subrange(from as int, i as int)));
    }
    out
}

/// `char::from_u32` gives the character with the code `i`, for every code of a character.
pub assume_specification[ char::from_u32 ](i: u32) -> (r: Option<char>)
    ensures
        r is Some <==> (i <= 0xd7ff || 0xe000 <= i <= 0x10ffff),
        r matches Some(c) ==> c as u32 == i,
;

/// The string at position `i`, and the position after it.
fn string(b: &Vec<u8>, i: usize) -> (r: Result<(String, usize), String>)
    requires
        i <= b@.len(),
    ensures
        match string_at(b@, i as int) {
            Ok((s, j)) => r matches Ok((t, k)) && t@ == s && k == j,
            Err(e) => r matches Err(t) && t@ == e,
        },
{
    if !peek(b, i, 0x22) {
        return Err(expect_error('"', i));
    }
    let n = b.len();
    let mut out: Vec<u8> = Vec::new();
    let mut j: usize = i + 1;
    while j < n
        invariant
            i < j <= n == b@.len(),
            at(b@, i as int, '"' as u8),
            string_body(b@, i + 1, Seq::empty()) == string_body(b@, j as int, out@),
        decreases n - j,
    {
        let c = b[j];
        if c == 0x22 {
            return Ok((bytes::lossy(&out), j + 1));
        }
        if c == 0x5c {
            if j + 1 >= n {
                return Err("bad escape".to_string());
            }
            let e = b[j + 1];
            if e == 0x75 {
                if n - j < 6 {
                    return Err("unterminated string".to_string());
                }
                let t = latin_text(b, j + 2, j + 6);
                let u: char = match digits::read_unsigned(t.as_str(), 16, 0xffff_ffff) {
                    None => '\u{fffd}',
                    Some(v) => {
                        proof {
                            lemma_four_digits(latin(b@.subrange(j + 2, j + 6)));
                        }
                        match char::from_u32(v as u32) {
                            None => '\u{fffd}',
                            Some(x) => {
                                proof {
                                    utf8::char_u32_cast(x, v as u32);
                                }
                                x
                            },
                        }
                    },
                };
                assert(t@ == latin(b@.subrange(j + 2, (j + 2) + 4)));
                assert(u == unicode_escape(b@, j + 2));
                bytes::put_char(&mut out, u);
                j = j + 6;
            } else {
                let x: u8 = if e == 0x6e {
                    10
                } else if e == 0x72 {
                    13
                } else if e == 0x74 {
                    9
                } else if e == 0x62 {
                    8
                } else if e == 0x66 {
                    12
                } else {
                    e
                };
                assert(x == short_escape(e));
                out.push(x);
                j = j + 2;
            }
        } else {
            out.push(c);
            j = j + 1;
        }
    }
    Err("unterminated string".to_string())
}

/// Four characters write a number of at most four hexadecimal digits.
proof fn lemma_four_digits(t: Seq<char>)
    requires
        t.len() == 4,
    ensures
        digits::unsigned(t, 16, u32::MAX as nat) matches Some(v) ==> v <= 0xffff,
{
    let d = digits::unsigned_part(t);
    if digits::all_digits(d, 16) {
        assert(forall|i: int| 0 <= i < d.len() ==> digits::is_digit(#[trigger] d[i], 16));
        reveal_with_fuel(digits::value, 5);
        let d1 = d.drop_last();
        let d2 = d1.drop_last();
        let d3 = d2.drop_last();
        assert(digits::is_digit(d.last(), 16));
        assert(digits::is_digit(d1.last(), 16));
        assert(digits::is_digit(d2.last(), 16));
        if d.len() == 4 {
            assert(digits::is_digit(d3.last(), 16));
            assert(d3.drop_last().len() == 0);
        }
    }
}

/// The number at position `i`, and the position after it.
fn number(b: &Vec<u8>, i: usize) -> (r: Result<(J, usize), String>)
    requires
        i <= b@.len(),
    ensures
        match number_at(b@, i as int) {
            Ok((v, j)) => r matches Ok((w, k)) && w.view() == v && k == j,
            Err(e) => r matches Err(t) && t@ == e,
        },
{
    let n = b.len();
    let mut j: usize = i;
    while j < n && ((0x30 <= b[j] && b[j] <= 0x39) || b[j] == 0x2d || b[j] == 0x2b || b[j] == 0x2e
        || b[j] == 0x65 || b[j] == 0x45)
        invariant
            i <= j <= n == b@.len(),
            num_end(b@, i as int) == num_end(b@, j as int),
        decreases n - j,
    {
        j = j + 1;
    }
    let t = latin_text(b, i, j);
    match Num::read(t.as_str()) {
        Some(x) => Ok((J::Num(x), j)),
        None => {
            let mut e = "bad number: ".to_string();
            text::put(&mut e, t.as_str());
            Err(e)
        },
    }
}

/// The value `v` where `word` stands at position `i`, and the position after it.
fn literal(b: &Vec<u8>, i: usize, word: &Vec<u8>, v: J) -> (r: Result<(J, usize), String>)
    requires
        i <= b@.len(),
    ensures
        match literal_at(b@, i as int, word@, v.view()) {
            Ok((x, j)) => r matches Ok((w, k)) && w.view() == x && k == j,
            Err(e) => r matches Err(t) && t@ == e,
        },
{
    let n = b.len();
    let m = word.len();
    if n - i < m {
        return Err(error_at("invalid literal at ", i));
    }
    let mut k: usize = 0;
    while k < m
        invariant
            i <= n == b@.len(),
            k <= m == word@.len(),
            m <= n - i,
            forall|x: int| 0 <= x < k ==> b@[i + x] == word@[x],
        decreases m - k,
    {
        if b[i + k] != word[k] {
            assert(b@.subrange(i as int, i + m)[k as int] != word@[k as int]);
            return Err(error_at("invalid literal at ", i));
        }
        k = k + 1;
    }
    assert(b@.subrange(i as int, i + m) =~= word@);
    Ok((v, i + m))
}

/// The value at position `i`, and the position after it.
fn value(b: &Vec<u8>, i: usize) -> (r: Result<(J, usize), String>)
    requires
        i <= b@.len(),
    ensures
        match value_at(b@, i as int) {
            Ok((v, j)) => r matches Ok((w, k)) && w.view() == v && k == j,
            Err(e) => r matches Err(t) && t@ == e,
        },
    decreases b@.len() - i, 1nat,
{
    if i >= b.len() {
        return Err("unexpected end of input".to_string());
    }
    let c = b[i];
    if c == 0x7b {
        object(b, i)
    } else if c == 0x5b {
        array(b, i)
    } else if c == 0x22 {
        match string(b, i) {
            Ok((s, j)) => Ok((J::Str(s), j)),
            Err(e) => Err(e),
        }
    } else if c == 0x74 {
        let word: Vec<u8> = vec![0x74, 0x72, 0x75, 0x65];
        assert(word@ =~= seq![('t' as u8), ('r' as u8), ('u' as u8), ('e' as u8)]);
        literal(b, i, &word, J::Bool(true))
    } else if c == 0x66 {
        let word: Vec<u8> = vec![0x66, 0x61, 0x6c, 0x73, 0x65];
        assert(word@ =~= seq![('f' as u8), ('a' as u8), ('l' as u8), ('s' as u8), ('e' as u8)]);
        literal(b, i, &word, J::Bool(false))
    } else if c == 0x6e {
        let word: Vec<u8> = vec![0x6e, 0x75, 0x6c, 0x6c];
        assert(word@ =~= seq![('n' as u8), ('u' as u8), ('l' as u8), ('l' as u8)]);
        literal(b, i, &word, J::Null)
    } else {
        number(b, i)
    }
}

/// The object at position `i`, and the position after it.
fn object(b: &Vec<u8>, i: usize) -> (r: Result<(J, usize), String>)
    requires
        at(b@, i as int, '{' as u8),
    ensures
        match value_at(b@, i as int) {
            Ok((v, j)) => r matches Ok((w, k)) && w.view() == v && k == j,
            Err(e) => r matches Err(t) && t@ == e,
        },
    decreases b@.len() - i, 0nat,
{
    let n = b.len();
    assert(i < n);
    let mut m: Vec<(String, J)> = Vec::new();
    let mut p = ws(b, i + 1);
    assert(json::members(m@) =~= Seq::<(Seq<char>, Json)>::empty());
    if peek(b, p, 0x7d) {
        proof {
            json::lemma_obj_view(m);
        }
        return Ok((J::Obj(m), p + 1));
    }
    loop
        invariant
            at(b@, i as int, '{' as u8),
            i < p <= b@.len(),
            value_at(b@, i as int) == members_at(b@, p as int, json::members(m@)),
        decreases b@.len() - p,
    {
        let q = ws(b, p);
        let (k, x) = match string(b, q) {
            Ok(t) => t,
            Err(e) => {
                return Err(e);
            },
        };
        proof {
            lemma_string_at(b@, q as int);
        }
        let c = ws(b, x);
        if !peek(b, c, 0x3a) {
            return Err(expect_error(':', c));
        }
        let w = ws(b, c + 1);
        let (v, y) = match value(b, w) {
            Ok(t) => t,
            Err(e) => {
                return Err(e);
            },
        };
        proof {
            lemma_value_at(b@, w as int);
        }
        let z = ws(b, y);
        json::insert(&mut m, k.as_str(), v);
        if peek(b, z, 0x2c) {
            p = z + 1;
        } else if peek(b, z, 0x7d) {
            proof {
                json::lemma_obj_view(m);
            }
            return Ok((J::Obj(m), z + 1));
        } else {
            return Err(error_at("expected ',' or '}' at ", z));
        }
    }
}

/// The array at position `i`, and the position after it.
fn array(b: &Vec<u8>, i: usize) -> (r: Result<(J, usize), String>)
    requires
        at(b@, i as int, '[' as u8),
    ensures
        match value_at(b@, i as int) {
            Ok((v, j)) => r matches Ok((w, k)) && w.view() == v && k == j,
            Err(e) => r matches Err(t) && t@ == e,
        },
    decreases b@.len() - i, 0nat,
{
    let n = b.len();
    assert(i < n);
    let mut a: Vec<J> = Vec::new();
    let mut p = ws(b, i + 1);
    assert(json::items(a@) =~= Seq::<Json>::empty());
    if peek(b, p, 0x5d) {
        proof {
            json::lemma_arr_view(a);
        }
        return Ok((J::Arr(a), p + 1));
    }
    loop
        invariant
            at(b@, i as int, '[' as u8),
            i < p <= b@.len(),
            value_at(b@, i as int) == items_at(b@, p as int, json::items(a@)),
        decreases b@.len() - p,
    {
        let q = ws(b, p);
        let (v, x) = match value(b, q) {
            Ok(t) => t,
            Err(e) => {
                return Err(e);
            },
        };
        proof {
            lemma_value_at(b@, q as int);
        }
        let z = ws(b, x);
        let ghost before = json::items(a@);
        a.push(v);
        assert(json::items(a@) =~= before.push(v.view()));
        if peek(b, z, 0x2c) {
            p = z + 1;
        } else if peek(b, z, 0x5d) {
            proof {
                json::lemma_arr_view(a);
            }
            return Ok((J::Arr(a), z + 1));
        } else {
            return Err(error_at("expected ',' or ']' at ", z));
        }
    }
}

/// Reads a JSON text. What follows the value is not looked at.
pub fn parse(s: &str) -> (r: Result<J, String>)
    ensures
        match meaning(s@) {
            Ok(v) => r matches Ok(w) && w.view() == v,
            Err(e) => r matches Err(t) && t@ == e,
        },
{
    let b = bytes::bytes_of(s);
    let i = ws(&b, 0);
    match value(&b, i) {
        Ok((v, _)) => Ok(v),
        Err(e) => Err(e),
    }
}

} // verus!
