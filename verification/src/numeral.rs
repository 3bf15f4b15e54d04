//! Reading double-precision numbers.

use vstd::prelude::*;
use crate::big::{self, Big};
use crate::digits;
use crate::num::{self, Num, INF, NAN, SIGN};
use crate::text;

verus! {

// ------------------------------------------------------------------- reading

/// The first position at or after `i` that holds no decimal digit.
pub open spec fn digits_end(s: Seq<char>, i: int) -> int
    decreases s.len() - i,
{
    if 0 <= i < s.len() && digits::is_digit(s[i], 10) {
        digits_end(s, i + 1)
    } else {
        i
    }
}

/// The exponent that `t` writes: digits, with or without a sign.
pub open spec fn exponent_text(t: Seq<char>) -> Option<int> {
    let signed = t.len() > 0 && (t[0] == '+' || t[0] == '-');
    let d = if signed {
        t.skip(1)
    } else {
        t
    };
    if d.len() == 0 || !digits::all_digits(d, 10) {
        None
    } else if signed && t[0] == '-' {
        Some(-digits::value(d, 10))
    } else {
        Some(digits::value(d, 10) as int)
    }
}

/// The digits of a number without its sign, and how many of them follow the point.
pub open spec fn mantissa(s: Seq<char>) -> (Seq<char>, int) {
    let a = digits_end(s, 0);
    if 0 <= a < s.len() && s[a] == '.' {
        let b = digits_end(s, a + 1);
        (s.take(a) + s.subrange(a + 1, b), b - a - 1)
    } else {
        (s.take(a), 0)
    }
}

/// Where the mantissa of a number without its sign ends.
pub open spec fn mantissa_end(s: Seq<char>) -> int {
    let a = digits_end(s, 0);
    if 0 <= a < s.len() && s[a] == '.' {
        digits_end(s, a + 1)
    } else {
        a
    }
}

/// The number that `s` writes without a sign, as a whole number and a power of ten: digits with
/// at most one point among them, then possibly an exponent after `e` or `E`.
pub open spec fn decimal_text(s: Seq<char>) -> Option<(nat, int)> {
    let (d, frac) = mantissa(s);
    let b = mantissa_end(s);
    if d.len() == 0 {
        None
    } else if b == s.len() {
        Some((digits::value(d, 10), -frac))
    } else if s[b] == 'e' || s[b] == 'E' {
        match exponent_text(s.skip(b + 1)) {
            Some(e) => Some((digits::value(d, 10), e - frac)),
            None => None,
        }
    } else {
        None
    }
}

/// The magnitude nearest to `n` times ten to the power `e`.
pub open spec fn decimal_magnitude(n: nat, e: int) -> nat {
    if e >= 0 {
        num::nearest(n * big::power(10, e as nat), 1)
    } else {
        num::nearest(n, big::power(10, (-e) as nat))
    }
}

/// The magnitude that `s` writes without a sign.
pub open spec fn magnitude_text(s: Seq<char>) -> Option<nat> {
    let l = text::lowered(s);
    if l == "inf"@ || l == "infinity"@ {
        Some(INF as nat)
    } else if l == "nan"@ {
        Some(NAN as nat)
    } else {
        match decimal_text(s) {
            Some((n, e)) => Some(decimal_magnitude(n, e)),
            None => None,
        }
    }
}

/// The double that `s` writes, where it writes one: a sign is optional.
pub open spec fn number_text(s: Seq<char>) -> Option<u64> {
    let signed = s.len() > 0 && (s[0] == '+' || s[0] == '-');
    let t = if signed {
        s.skip(1)
    } else {
        s
    };
    match magnitude_text(t) {
        Some(m) => Some(num::pattern(signed && s[0] == '-', m)),
        None => None,
    }
}

pub proof fn lemma_digits_end(s: Seq<char>, i: int)
    requires
        0 <= i <= s.len(),
    ensures
        i <= digits_end(s, i) <= s.len(),
        forall|k: int| i <= k < digits_end(s, i) ==> digits::is_digit(#[trigger] s[k], 10),
        digits_end(s, i) < s.len() ==> !digits::is_digit(s[digits_end(s, i)], 10),
    decreases s.len() - i,
{
    if i < s.len() && digits::is_digit(s[i], 10) {
        lemma_digits_end(s, i + 1);
    }
}

/// The number that two runs of digits write together.
pub proof fn lemma_value_concat(a: Seq<char>, b: Seq<char>)
    ensures
        digits::value(a + b, 10) == digits::value(a, 10) * big::power(10, b.len())
            + digits::value(b, 10),
    decreases b.len(),
{
    let x = digits::value(a, 10);
    if b.len() == 0 {
        assert(a + b =~= a);
        assert(x * 1 == x);
    } else {
        let c = b.drop_last();
        lemma_value_concat(a, c);
        assert((a + b).drop_last() =~= a + c);
        let p = big::power(10, c.len());
        let y = digits::value(c, 10);
        let d = digits::digit_of(b.last())->0;
        assert((x * p + y) * 10 + d == x * (10 * p) + (y * 10 + d)) by (nonlinear_arith);
    }
}

/// Digits write less than the power of ten of their count.
pub proof fn lemma_value_bound(s: Seq<char>)
    requires
        digits::all_digits(s, 10),
    ensures
        digits::value(s, 10) < big::power(10, s.len()),
    decreases s.len(),
{
    if s.len() > 0 {
        let t = s.drop_last();
        assert forall|i: int| 0 <= i < t.len() implies digits::is_digit(#[trigger] t[i], 10) by {
            assert(t[i] == s[i]);
        }
        lemma_value_bound(t);
        assert(digits::is_digit(s[s.len() - 1], 10));
    }
}

/// Takes the digits from `from` on, after those that `acc` holds.
fn take_digits(cs: &Vec<char>, from: usize, acc: &Big) -> (r: (usize, Big))
    requires
        from <= cs@.len(),
    ensures
        r.0 == digits_end(cs@, from as int),
        from <= r.0 <= cs@.len(),
        r.1@ == acc@ * big::power(10, (r.0 - from) as nat) + digits::value(
            cs@.subrange(from as int, r.0 as int),
            10,
        ),
{
    let n = cs.len();
    let mut i: usize = from;
    let mut v = acc.times(1);
    assert(cs@.subrange(from as int, from as int) =~= Seq::<char>::empty());
    assert(acc@ * 1 == acc@ && big::power(10, 0) == 1);
    while i < n
        invariant
            from <= i <= n == cs@.len(),
            digits_end(cs@, from as int) == digits_end(cs@, i as int),
            v@ == acc@ * big::power(10, (i - from) as nat) + digits::value(
                cs@.subrange(from as int, i as int),
                10,
            ),
        decreases n - i,
    {
        match digits::digit(cs[i], 10) {
            None => {
                return (i, v);
            },
            Some(d) => {
                let w = v.times_plus(10, d);
                proof {
                    let t = cs@.subrange(from as int, i + 1);
                    assert(t.drop_last() =~= cs@.subrange(from as int, i as int));
                    let a = acc@;
                    let p = big::power(10, (i - from) as nat);
                    let y = digits::value(cs@.subrange(from as int, i as int), 10);
                    assert((a * p + y) * 10 + d == a * (10 * p) + (y * 10 + d)) by (nonlinear_arith);
                    assert(big::power(10, (i + 1 - from) as nat) == 10 * p);
                }
                v = w;
            },
        }
        i = i + 1;
    }
    (i, v)
}

/// More than any exponent that matters.
pub open spec fn cap() -> nat {
    0x10_0000_0000_0000_0000_0000_0000
}

/// The digits from `from` on as a number, cut off at a bound that no exponent needs.
fn capped_value(cs: &Vec<char>, from: usize) -> (r: Option<u128>)
    requires
        from <= cs@.len(),
    ensures
        ({
            let d = cs@.skip(from as int);
            match r {
                Some(v) => d.len() > 0 && digits::all_digits(d, 10) && (v == digits::value(d, 10)
                    && v < cap() || v == cap() && digits::value(d, 10) >= cap()),
                None => d.len() == 0 || !digits::all_digits(d, 10),
            }
        }),
{
    let n = cs.len();
    let ghost d = cs@.skip(from as int);
    if from == n {
        return None;
    }
    let mut i: usize = from;
    let mut v: u128 = 0;
    while i < n
        invariant
            from <= i <= n == cs@.len(),
            d == cs@.skip(from as int),
            forall|k: int| 0 <= k < i - from ==> digits::is_digit(#[trigger] d[k], 10),
            v == digits::value(d.take(i - from), 10) && v < cap() || v == cap() && digits::value(
                d.take(i - from),
                10,
            ) >= cap(),
        decreases n - i,
    {
        assert(d[i - from] == cs@[i as int]);
        match digits::digit(cs[i], 10) {
            None => {
                return None;
            },
            Some(x) => {
                proof {
                    let t = d.take(i + 1 - from);
                    assert(t.drop_last() =~= d.take(i - from));
                }
                let w: u128 = v * 10 + x as u128;
                if w >= 0x10_0000_0000_0000_0000_0000_0000 {
                    v = 0x10_0000_0000_0000_0000_0000_0000;
                } else {
                    v = w;
                }
            },
        }
        i = i + 1;
    }
    assert(d.take(n - from) =~= d);
    Some(v)
}

/// Ten to the power 400 is beyond every double, and its inverse below every positive one.
pub proof fn lemma_ten_and_two()
    ensures
        big::power(10, 400) > 4 * big::power(2, 1074),
        big::power(10, 400) > 4 * big::power(2, 1024),
{
    assert(big::power(2, 3) == 8) by {
        reveal_with_fuel(big::power, 4);
    }
    big::lemma_power_of_base(8, 10, 360);
    big::lemma_power_of_power(2, 3, 360);
    big::lemma_power_grows(10, 360, 400);
    assert(big::power(2, 1080) >= 64 * big::power(2, 1074)) by {
        big::lemma_power_adds(2, 6, 1074);
        reveal_with_fuel(big::power, 7);
        assert(big::power(2, 6) == 64);
    }
    big::lemma_power_grows(2, 1024, 1074);
    big::lemma_power_positive(2, 1074);
}

/// Infinity stands at two to the power 1024.
pub proof fn lemma_scaled_inf()
    ensures
        num::scaled(INF as nat) == big::power(2, 1024) * num::unit(),
        num::scaled((INF - 1) as nat) < num::scaled(INF as nat),
{
    assert(num::significand(INF as nat) == 0x10_0000_0000_0000);
    assert(num::exponent(INF as nat) == 2046);
    big::lemma_powers_of_two();
    big::lemma_power_adds(2, 52, 2046);
    big::lemma_power_adds(2, 1024, 1074);
    num::lemma_scaled_grows((INF - 1) as nat, INF as nat);
}

/// A number of that size is nearest to infinity.
proof fn lemma_huge(n: nat)
    requires
        n >= big::power(10, 400),
    ensures
        num::is_nearest(INF as nat, n, 1),
{
    lemma_ten_and_two();
    lemma_scaled_inf();
    big::lemma_power_positive(2, 1074);
    let u = num::unit();
    let q = big::power(2, 1024);
    assert(2 * n * u > 2 * (q * u)) by (nonlinear_arith)
        requires
            n > q,
            u > 0,
    ;
}

/// A number that small is nearest to zero.
proof fn lemma_tiny(n: nat, l: nat, e: nat)
    requires
        n < big::power(10, l),
        e >= l + 400,
    ensures
        num::is_nearest(0, n, big::power(10, e)),
{
    lemma_ten_and_two();
    num::lemma_scaled_small();
    big::lemma_power_adds(10, l, 400);
    big::lemma_power_grows(10, l + 400, e);
    let u = num::unit();
    let a = big::power(10, l);
    let b = big::power(10, 400);
    assert(2 * n * u < a * b) by (nonlinear_arith)
        requires
            n < a,
            4 * u < b,
            a > 0,
            u >= 0,
    ;
    assert(0 + 1 == 1nat);
    assert((num::scaled(0) + num::scaled(1)) * big::power(10, e) == big::power(10, e));
}

/// The magnitude nearest to `n` times ten to the power `e`, where `n` has at most `l` digits.
fn round_decimal(n: &Big, l: usize, neg: bool, e: u128, frac: usize, x: Ghost<int>) -> (r: u64)
    requires
        n@ < big::power(10, l as nat),
        e < cap() && x@ == (if neg { -e } else { e as int }) || e == cap() && (if neg {
            x@ <= -cap()
        } else {
            x@ >= cap()
        }),
    ensures
        r == decimal_magnitude(n@, x@ - frac),
        r <= INF,
{
    let ghost t = x@ - frac;
    proof {
        big::lemma_power_positive(10, (if t >= 0 { t } else { -t }) as nat);
    }
    let zero = Big::of(0);
    let (_, is_zero) = n.order(&zero);
    if is_zero {
        proof {
            num::lemma_scaled_small();
            let d: nat = if t >= 0 {
                1
            } else {
                big::power(10, (-t) as nat)
            };
            assert(0 * big::power(10, t as nat) == 0);
            assert(2 * 0 * num::unit() == 0) by (nonlinear_arith);
            assert((num::scaled(0) + num::scaled(1)) * d == d) by (nonlinear_arith)
                requires
                    num::scaled(0) == 0,
                    num::scaled(1) == 1,
            ;
            num::lemma_nearest_is(0, 0, d);
        }
        return 0;
    }
    if !neg && e >= frac as u128 {
        let k: u128 = e - frac as u128;
        if k >= 400 {
            proof {
                let p = big::power(10, t as nat);
                big::lemma_power_grows(10, 400, t as nat);
                let m = n@ * p;
                assert(n@ * p >= p) by (nonlinear_arith)
                    requires
                        n@ >= 1,
                ;
                lemma_huge(m);
                num::lemma_nearest_is(INF as nat, m, 1);
            }
            return INF;
        }
        return num::round(&n.tens(k), &Big::of(1));
    }
    let k: u128 = if neg {
        e + frac as u128
    } else {
        frac as u128 - e
    };
    if k >= l as u128 + 400 {
        proof {
            lemma_tiny(n@, l as nat, (-t) as nat);
            num::lemma_nearest_is(0, n@, big::power(10, (-t) as nat));
        }
        return 0;
    }
    if k == 0 {
        assert(t == 0);
        assert(big::power(10, 0) == 1);
        assert(n@ * big::power(10, 0) == n@) by (nonlinear_arith)
            requires
                big::power(10, 0) == 1,
        ;
        return num::round(n, &Big::of(1));
    }
    let d = Big::of(1).tens(k);
    assert(1 * big::power(10, k as nat) == big::power(10, k as nat));
    num::round(n, &d)
}

/// Reads a number without its sign, as a whole number and a power of ten.
fn read_decimal(cs: &Vec<char>) -> (r: Option<u64>)
    ensures
        match decimal_text(cs@) {
            Some((n, e)) => r matches Some(m) && m == decimal_magnitude(n, e) && m <= INF,
            None => r is None,
        },
{
    let n = cs.len();
    let (a, whole) = take_digits(cs, 0, &Big::of(0));
    let mut b: usize = a;
    let mut frac: usize = 0;
    let mut m = whole.times(1);
    proof {
        lemma_digits_end(cs@, 0);
        assert(cs@.subrange(0, a as int) =~= cs@.take(a as int));
        assert(0 * big::power(10, a as nat) == 0);
    }
    let mut count: usize = a;
    if a < n && cs[a] == '.' {
        let (b1, m1) = take_digits(cs, a + 1, &whole);
        proof {
            lemma_digits_end(cs@, a + 1);
            lemma_value_concat(cs@.take(a as int), cs@.subrange(a + 1, b1 as int));
        }
        b = b1;
        frac = b1 - a - 1;
        m = m1;
        count = b1 - 1;
    }
    let ghost d = mantissa(cs@).0;
    assert(m@ == digits::value(d, 10));
    assert(d.len() == count);
    proof {
        assert forall|i: int| 0 <= i < d.len() implies digits::is_digit(#[trigger] d[i], 10) by {
            if i < a {
                assert(d[i] == cs@[i]);
            } else {
                assert(d[i] == cs@[i + 1]);
            }
        }
        lemma_value_bound(d);
    }
    if count == 0 {
        return None;
    }
    if b == n {
        return Some(round_decimal(&m, count, false, 0, frac, Ghost(0)));
    }
    if cs[b] != 'e' && cs[b] != 'E' {
        return None;
    }
    let ghost t = cs@.skip(b + 1);
    let mut c: usize = b + 1;
    let mut neg = false;
    if c < n && (cs[c] == '+' || cs[c] == '-') {
        neg = cs[c] == '-';
        assert(t[0] == cs@[c as int]);
        assert(t.skip(1) =~= cs@.skip(c + 1));
        c = c + 1;
    } else {
        assert(t.len() > 0 ==> t[0] == cs@[c as int]);
    }
    match capped_value(cs, c) {
        None => None,
        Some(e) => {
            let ghost x = exponent_text(t)->0;
            Some(round_decimal(&m, count, neg, e, frac, Ghost(x)))
        },
    }
}

impl Num {
    /// Reads the double that `s` writes, where it writes one.
    pub fn read(s: &str) -> (r: Option<Num>)
        ensures
            match number_text(s@) {
                Some(b) => r matches Some(x) && x.bits == b,
                None => r is None,
            },
    {
        let cs = text::chars_of(s);
        let n = cs.len();
        let mut neg = false;
        let mut from: usize = 0;
        if n > 0 && (cs[0] == '+' || cs[0] == '-') {
            neg = cs[0] == '-';
            from = 1;
        }
        let t = text::string_of(&cs, from, n);
        assert(from == 0 ==> t@ =~= cs@);
        assert(from == 1 ==> t@ =~= cs@.skip(1));
        let l = text::lower(t.as_str());
        let m: u64 = if text::same(l.as_str(), "inf") || text::same(l.as_str(), "infinity") {
            INF
        } else if text::same(l.as_str(), "nan") {
            NAN
        } else {
            match read_decimal(&text::chars_of(t.as_str())) {
                None => {
                    return None;
                },
                Some(m) => m,
            }
        };
        if neg {
            Some(Num { bits: m + SIGN })
        } else {
            Some(Num { bits: m })
        }
    }
}

} // verus!
