//! Whole numbers written in digits: reading and writing them.

use vstd::prelude::*;
use crate::text::chars_of;

verus! {

/// What `c` stands for as a digit, in any base up to 16.
pub open spec fn digit_of(c: char) -> Option<nat> {
    if '0' <= c <= '9' {
        Some((c as u32 - 48) as nat)
    } else if 'a' <= c <= 'f' {
        Some((c as u32 - 87) as nat)
    } else if 'A' <= c <= 'F' {
        Some((c as u32 - 55) as nat)
    } else {
        None
    }
}

/// Whether `c` is a digit in the given base.
pub open spec fn is_digit(c: char, base: nat) -> bool {
    digit_of(c) matches Some(d) && d < base
}

/// The value of `c` as a digit, where it is one in the given base.
pub fn digit(c: char, base: u64) -> (r: Option<u64>)
    ensures
        r is Some <==> is_digit(c, base as nat),
        r matches Some(d) ==> digit_of(c) == Some(d as nat) && d < 16 && d < base,
{
    let u = c as u32;
    let d: u64 = if 48 <= u && u <= 57 {
        (u - 48) as u64
    } else if 97 <= u && u <= 102 {
        (u - 87) as u64
    } else if 65 <= u && u <= 70 {
        (u - 55) as u64
    } else {
        return None;
    };
    if d < base {
        Some(d)
    } else {
        None
    }
}

/// Whether every character is a digit in the given base.
pub open spec fn all_digits(s: Seq<char>, base: nat) -> bool {
    forall|i: int| 0 <= i < s.len() ==> is_digit(#[trigger] s[i], base)
}

/// The number that the digits write in the given base.
pub open spec fn value(s: Seq<char>, base: nat) -> nat
    decreases s.len(),
{
    if s.len() == 0 {
        0
    } else {
        value(s.drop_last(), base) * base + digit_of(s.last())->0
    }
}

/// More digits never make a number smaller.
pub proof fn lemma_value_grows(s: Seq<char>, base: nat, n: int)
    requires
        0 <= n <= s.len(),
        base > 0,
    ensures
        value(s.take(n), base) <= value(s, base),
    decreases s.len() - n,
{
    if n < s.len() {
        lemma_value_grows(s, base, n + 1);
        let t = s.take(n + 1);
        assert(t.drop_last() =~= s.take(n));
        let v = value(s.take(n), base);
        assert(v <= v * base) by (nonlinear_arith)
            requires
                base > 0,
        ;
    } else {
        assert(s.take(n) =~= s);
    }
}

/// The digits of an unsigned number: a leading `+` is left out.
pub open spec fn unsigned_part(s: Seq<char>) -> Seq<char> {
    if s.len() > 0 && s[0] == '+' {
        s.skip(1)
    } else {
        s
    }
}

/// The unsigned number that `s` writes in the given base, where there is one and it is at most
/// `max`.
pub open spec fn unsigned(s: Seq<char>, base: nat, max: nat) -> Option<nat> {
    let d = unsigned_part(s);
    if d.len() > 0 && all_digits(d, base) && value(d, base) <= max {
        Some(value(d, base))
    } else {
        None
    }
}

/// The number that the digits from `from` on write, where it is at most `max`.
fn read_digits(cs: &Vec<char>, from: usize, base: u64, max: u64) -> (r: Option<u64>)
    requires
        from <= cs@.len(),
        2 <= base <= 16,
    ensures
        ({
            let d = cs@.skip(from as int);
            match r {
                Some(v) => d.len() > 0 && all_digits(d, base as nat) && value(d, base as nat) == v
                    && v <= max,
                None => d.len() == 0 || !all_digits(d, base as nat) || value(d, base as nat) > max,
            }
        }),
{
    let n = cs.len();
    let ghost d = cs@.skip(from as int);
    if from == n {
        return None;
    }
    let mut i: usize = from;
    let mut v: u64 = 0;
    while i < n
        invariant
            from <= i <= n == cs@.len(),
            2 <= base <= 16,
            d == cs@.skip(from as int),
            forall|k: int| 0 <= k < i - from ==> is_digit(#[trigger] d[k], base as nat),
            v == value(d.take(i - from), base as nat),
            v <= max,
        decreases n - i,
    {
        assert(d[i - from] == cs@[i as int]);
        match digit(cs[i], base) {
            None => {
                return None;
            },
            Some(x) => {
                assert(v as u128 * base as u128 <= 0xffff_ffff_ffff_ffff * 16) by (nonlinear_arith)
                    requires
                        base <= 16,
                        v <= 0xffff_ffff_ffff_ffff,
                ;
                let w: u128 = v as u128 * base as u128 + x as u128;
                proof {
                    let t = d.take(i + 1 - from);
                    assert(t.drop_last() =~= d.take(i - from));
                    assert(value(t, base as nat) == w);
                    lemma_value_grows(d, base as nat, i + 1 - from);
                }
                if w > max as u128 {
                    return None;
                }
                v = w as u64;
            },
        }
        i = i + 1;
    }
    assert(d.take(n - from) =~= d);
    Some(v)
}

/// Reads an unsigned number of at most `max` in the given base; one leading `+` is allowed.
pub fn read_unsigned(s: &str, base: u64, max: u64) -> (r: Option<u64>)
    requires
        2 <= base <= 16,
    ensures
        r is Some <==> unsigned(s@, base as nat, max as nat) is Some,
        r matches Some(v) ==> unsigned(s@, base as nat, max as nat) == Some(v as nat),
{
    let cs = chars_of(s);
    if cs.len() > 0 && cs[0] == '+' {
        read_digits(&cs, 1, base, max)
    } else {
        assert(cs@.skip(0) =~= cs@);
        read_digits(&cs, 0, base, max)
    }
}

/// The signed 64-bit number that `s` writes, where it writes one.
pub open spec fn signed(s: Seq<char>) -> Option<int> {
    if s.len() > 0 && s[0] == '-' {
        let d = s.skip(1);
        if d.len() > 0 && all_digits(d, 10) && -value(d, 10) >= i64::MIN {
            Some(-value(d, 10))
        } else {
            None
        }
    } else {
        match unsigned(s, 10, i64::MAX as nat) {
            Some(v) => Some(v as int),
            None => None,
        }
    }
}

/// Reads a signed 64-bit number; one leading `+` or `-` is allowed.
pub fn read_signed(s: &str) -> (r: Option<i64>)
    ensures
        r is Some <==> signed(s@) is Some,
        r matches Some(v) ==> signed(s@) == Some(v as int),
{
    let cs = chars_of(s);
    if cs.len() > 0 && cs[0] == '-' {
        match read_digits(&cs, 1, 10, 0x8000_0000_0000_0000) {
            None => None,
            Some(v) => if v == 0x8000_0000_0000_0000 {
                Some(i64::MIN)
            } else {
                Some(-(v as i64))
            },
        }
    } else {
        match read_unsigned(s, 10, 0x7fff_ffff_ffff_ffff) {
            None => None,
            Some(v) => Some(v as i64),
        }
    }
}

// ----------------------------------------------------------------- writing

/// The digit that stands for `d`, in lower case.
pub open spec fn digit_char(d: nat) -> char {
    if d < 10 {
        (48 + d) as char
    } else {
        (87 + d) as char
    }
}

/// `n` in decimal.
pub open spec fn decimal(n: nat) -> Seq<char>
    decreases n,
{
    if n < 10 {
        seq![digit_char(n)]
    } else {
        decimal(n / 10).push(digit_char(n % 10))
    }
}

/// `n` in decimal, with a sign where it is negative.
pub open spec fn signed_decimal(n: int) -> Seq<char> {
    if n < 0 {
        seq!['-'] + decimal((-n) as nat)
    } else {
        decimal(n as nat)
    }
}

/// The digit that stands for `d`.
pub fn digit_text(d: u64) -> (c: char)
    requires
        d < 16,
    ensures
        c == digit_char(d as nat),
{
    if d < 10 {
        (48 + d as u8) as char
    } else {
        (87 + d as u8) as char
    }
}

/// Appends `n` in decimal to `out`.
pub fn put_decimal(out: &mut String, n: u64)
    ensures
        final(out)@ == old(out)@ + decimal(n as nat),
    decreases n,
{
    if n < 10 {
        out.push(digit_text(n));
        assert(out@ =~= old(out)@ + decimal(n as nat));
    } else {
        put_decimal(out, n / 10);
        out.push(digit_text(n % 10));
        assert(out@ =~= old(out)@ + decimal(n as nat));
    }
}

/// Writes `n` in decimal.
pub fn show_unsigned(n: u64) -> (r: String)
    ensures
        r@ == decimal(n as nat),
{
    let mut out = String::new();
    put_decimal(&mut out, n);
    assert(out@ =~= decimal(n as nat));
    out
}

/// Writes `n` in decimal, with a sign where it is negative.
pub fn show_signed(n: i64) -> (r: String)
    ensures
        r@ == signed_decimal(n as int),
{
    let mut out = String::new();
    if n < 0 {
        out.push('-');
        let m: u64 = if n == i64::MIN {
            0x8000_0000_0000_0000
        } else {
            (-n) as u64
        };
        put_decimal(&mut out, m);
        assert(out@ =~= signed_decimal(n as int));
    } else {
        put_decimal(&mut out, n as u64);
        assert(out@ =~= signed_decimal(n as int));
    }
    out
}

/// A decimal is made of decimal digits, and reading it gives the number back.
pub proof fn lemma_decimal(n: nat)
    ensures
        decimal(n).len() > 0,
        all_digits(decimal(n), 10),
        value(decimal(n), 10) == n,
        n > 0 ==> decimal(n)[0] != '0',
        n == 0 ==> decimal(n) == seq!['0'],
    decreases n,
{
    let s = decimal(n);
    if n < 10 {
        assert(s.drop_last() =~= Seq::<char>::empty());
        assert(value(s.drop_last(), 10) == 0);
        assert(digit_of(s.last()) == Some(n));
    } else {
        lemma_decimal(n / 10);
        assert(s.drop_last() =~= decimal(n / 10));
        assert(digit_of(s.last()) == Some(n % 10));
        assert forall|i: int| 0 <= i < s.len() implies is_digit(#[trigger] s[i], 10) by {
            if i < s.len() - 1 {
                assert(s[i] == decimal(n / 10)[i]);
            }
        }
    }
}

/// Reading back a number that was written gives that number.
pub proof fn law_unsigned_written_reads_back(n: nat, max: nat)
    requires
        n <= max,
    ensures
        unsigned(decimal(n), 10, max) == Some(n),
{
    lemma_decimal(n);
    assert(is_digit(decimal(n)[0], 10));
}

/// Reading back a signed 64-bit number that was written gives that number.
pub proof fn law_signed_written_reads_back(n: i64)
    ensures
        signed(signed_decimal(n as int)) == Some(n as int),
{
    if n < 0 {
        lemma_decimal((-n) as nat);
        assert(signed_decimal(n as int).skip(1) =~= decimal((-n) as nat));
    } else {
        law_unsigned_written_reads_back(n as nat, i64::MAX as nat);
        lemma_decimal(n as nat);
        assert(is_digit(decimal(n as nat)[0], 10));
    }
}

/// The hexadecimal digit of a value below 16: `0` to `9`, then `A` to `F` or `a` to `f`.
pub open spec fn hex_digit(d: nat, capital: bool) -> char {
    if d < 10 {
        ((0x30 + d) as u32) as char
    } else if capital {
        ((0x41 + d - 10) as u32) as char
    } else {
        ((0x61 + d - 10) as u32) as char
    }
}

/// A number in hexadecimal digits, without zeros before it.
pub open spec fn hexadecimal(n: nat, capital: bool) -> Seq<char>
    decreases n,
{
    if n < 16 {
        seq![hex_digit(n, capital)]
    } else {
        hexadecimal(n / 16, capital).push(hex_digit(n % 16, capital))
    }
}

pub proof fn lemma_hex_digit(d: nat, capital: bool)
    requires
        d < 16,
    ensures
        digit_of(hex_digit(d, capital)) == Some(d),
        is_digit(hex_digit(d, capital), 16),
{
}

/// A number in hexadecimal digits reads as the number, whatever the case of the digits.
pub proof fn law_hexadecimal_reads(n: nat, capital: bool, max: nat)
    requires
        n <= max,
    ensures
        unsigned(hexadecimal(n, capital), 16, max) == Some(n),
        all_digits(hexadecimal(n, capital), 16),
        hexadecimal(n, capital).len() > 0,
{
    lemma_hexadecimal(n, capital);
    assert(is_digit(hexadecimal(n, capital)[0], 16));
}

proof fn lemma_hexadecimal(n: nat, capital: bool)
    ensures
        value(hexadecimal(n, capital), 16) == n,
        all_digits(hexadecimal(n, capital), 16),
        hexadecimal(n, capital).len() > 0,
    decreases n,
{
    let s = hexadecimal(n, capital);
    lemma_hex_digit(n % 16, capital);
    if n < 16 {
        lemma_hex_digit(n, capital);
        assert(s.drop_last() =~= Seq::<char>::empty());
        assert(value(s.drop_last(), 16) == 0);
    } else {
        lemma_hexadecimal(n / 16, capital);
        assert(s.drop_last() =~= hexadecimal(n / 16, capital));
    }
}

/// Digits in hexadecimal, each with a capital letter or a small one.
pub open spec fn hex_text(ds: Seq<nat>, caps: Seq<bool>) -> Seq<char>
    decreases ds.len(),
{
    if ds.len() == 0 {
        Seq::empty()
    } else {
        hex_text(ds.drop_last(), caps).push(hex_digit(ds.last(), caps[ds.len() - 1]))
    }
}

/// The number that digits write to the base 16.
pub open spec fn hex_number(ds: Seq<nat>) -> nat
    decreases ds.len(),
{
    if ds.len() == 0 {
        0
    } else {
        hex_number(ds.drop_last()) * 16 + ds.last()
    }
}

/// Hexadecimal digits read as the number that they write, whatever the case of each, and with
/// zeros before it or not.
pub proof fn law_hex_digits_read(ds: Seq<nat>, caps: Seq<bool>, max: nat)
    requires
        ds.len() > 0,
        forall|i: int| 0 <= i < ds.len() ==> #[trigger] ds[i] < 16,
        hex_number(ds) <= max,
    ensures
        unsigned(hex_text(ds, caps), 16, max) == Some(hex_number(ds)),
        all_digits(hex_text(ds, caps), 16),
        hex_text(ds, caps).len() == ds.len(),
{
    lemma_hex_text(ds, caps);
    assert(is_digit(hex_text(ds, caps)[0], 16));
}

proof fn lemma_hex_text(ds: Seq<nat>, caps: Seq<bool>)
    requires
        forall|i: int| 0 <= i < ds.len() ==> #[trigger] ds[i] < 16,
    ensures
        value(hex_text(ds, caps), 16) == hex_number(ds),
        all_digits(hex_text(ds, caps), 16),
        hex_text(ds, caps).len() == ds.len(),
    decreases ds.len(),
{
    if ds.len() > 0 {
        let e = ds.drop_last();
        assert(ds[ds.len() - 1] < 16);
        assert forall|i: int| 0 <= i < e.len() implies #[trigger] e[i] < 16 by {
            assert(e[i] == ds[i]);
        }
        lemma_hex_text(e, caps);
        lemma_hex_digit(ds.last(), caps[ds.len() - 1]);
        assert(hex_text(ds, caps).drop_last() =~= hex_text(e, caps));
    }
}

/// A number above the largest that is allowed is refused.
pub proof fn law_too_large_is_refused(n: nat, max: nat)
    requires
        n > max,
    ensures
        unsigned(decimal(n), 10, max) is None,
        max == i64::MAX ==> signed(decimal(n)) is None,
{
    lemma_decimal(n);
    assert(is_digit(decimal(n)[0], 10));
}

/// A plus sign before a number changes nothing.
pub proof fn law_plus_sign(n: nat, max: nat)
    requires
        n <= max,
    ensures
        unsigned(seq!['+'] + decimal(n), 10, max) == Some(n),
        max == i64::MAX ==> signed(seq!['+'] + decimal(n)) == Some(n as int),
{
    let s = seq!['+'] + decimal(n);
    lemma_decimal(n);
    assert(s.skip(1) =~= decimal(n));
}

/// A text with a character that is no decimal digit writes no number, but for a sign at its start;
/// and neither does an empty one.
pub proof fn law_other_characters_are_refused(a: Seq<char>, c: char, b: Seq<char>, max: nat)
    requires
        c < '0' || '9' < c,
        a.len() == 0 ==> c != '+' && c != '-',
    ensures
        unsigned(a + seq![c] + b, 10, max) is None,
        signed(a + seq![c] + b) is None,
        unsigned(Seq::empty(), 10, max) is None,
        signed(Seq::empty()) is None,
{
    let s = a + seq![c] + b;
    let n = a.len() as int;
    assert(s[n] == c);
    assert(!is_digit(c, 10));
    if n > 0 {
        assert(s.skip(1)[n - 1] == c);
    }
    assert(!all_digits(s, 10));
    if s.len() > 0 && n > 0 {
        assert(!is_digit(s.skip(1)[n - 1], 10));
        assert(!all_digits(s.skip(1), 10));
    }
}

} // verus!
