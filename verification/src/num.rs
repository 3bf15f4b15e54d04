//! Double-precision numbers, held as their bit patterns and computed with
//! exactly: every operation gives the double that is nearest to the true
//! result, ties going to the even pattern.

use vstd::prelude::*;
use crate::big::{self, Big};

verus! {

/// The pattern of infinity; the patterns below it are the finite magnitudes, in order.
pub const INF: u64 = 0x7ff0_0000_0000_0000;

/// The pattern of "not a number".
pub const NAN: u64 = 0x7ff8_0000_0000_0000;

/// The bit that holds the sign.
pub const SIGN: u64 = 0x8000_0000_0000_0000;

/// The leading bit of a significand: 2 to the power 52.
pub const LEAD: u64 = 0x10_0000_0000_0000;

// --------------------------------------------------- what a pattern stands for

/// The significand of a magnitude.
pub open spec fn significand(m: nat) -> nat {
    if m < LEAD {
        m
    } else {
        m % LEAD as nat + LEAD as nat
    }
}

/// The power of two that the significand counts, above the smallest one.
pub open spec fn exponent(m: nat) -> nat {
    if m < LEAD {
        0
    } else {
        (m / LEAD as nat - 1) as nat
    }
}

/// How many of the smallest positive double make one.
pub open spec fn unit() -> nat {
    big::power(2, 1074)
}

/// The magnitude as a multiple of the smallest positive double; infinity stands where the next
/// double after the largest would be.
pub open spec fn scaled(m: nat) -> nat {
    significand(m) * big::power(2, exponent(m))
}

/// Whether `n / d` rounds to `m` or to a smaller magnitude: it lies below the middle between
/// `m` and the next magnitude, or on it where `m` is even.
pub open spec fn at_most(m: nat, n: nat, d: nat) -> bool {
    let x = 2 * n * unit();
    let y = (scaled(m) + scaled(m + 1)) * d;
    x < y || (x == y && m % 2 == 0)
}

/// Whether `m` is the magnitude nearest to `n / d`, ties going to the even pattern.
pub open spec fn is_nearest(m: nat, n: nat, d: nat) -> bool {
    &&& m <= INF
    &&& m == INF || at_most(m, n, d)
    &&& m == 0 || !at_most((m - 1) as nat, n, d)
}

/// The magnitude nearest to `n / d`.
pub open spec fn nearest(n: nat, d: nat) -> nat {
    choose|m: nat| is_nearest(m, n, d)
}

/// A pattern from its sign and magnitude.
pub open spec fn pattern(neg: bool, m: nat) -> u64 {
    if neg {
        (m + SIGN) as u64
    } else {
        m as u64
    }
}

/// Whether the sign of a pattern is set.
pub open spec fn is_neg(b: u64) -> bool {
    b >= SIGN
}

/// The magnitude of a pattern.
pub open spec fn magnitude(b: u64) -> nat {
    if b >= SIGN {
        (b - SIGN) as nat
    } else {
        b as nat
    }
}

/// Whether a pattern is that of "not a number".
pub open spec fn is_nan(b: u64) -> bool {
    magnitude(b) > INF
}

/// Whether a pattern is that of a finite number.
pub open spec fn is_finite(b: u64) -> bool {
    magnitude(b) < INF
}

// --------------------------------------------------------------- the spacing

/// From each magnitude to the next is one unit of its exponent.
pub proof fn lemma_next(m: nat)
    ensures
        scaled(m + 1) == scaled(m) + big::power(2, exponent(m)),
{
    let e = exponent(m);
    let p = big::power(2, e);
    let f = m % LEAD as nat;
    if m + 1 < LEAD {
        assert(big::power(2, 0) == 1);
        assert((m + 1) * 1 == m * 1 + 1);
    } else if m < LEAD {
        assert(m + 1 == LEAD);
        assert(big::power(2, 0) == 1);
    } else if f + 1 < LEAD {
        assert((m + 1) % LEAD as nat == f + 1 && (m + 1) / LEAD as nat == m / LEAD as nat);
        assert((f + 1 + LEAD) * p == (f + LEAD) * p + p) by (nonlinear_arith);
    } else {
        assert((m + 1) % LEAD as nat == 0 && (m + 1) / LEAD as nat == m / LEAD as nat + 1);
        assert(big::power(2, e + 1) == 2 * p);
        assert(LEAD * (2 * p) == (f + LEAD) * p + p) by (nonlinear_arith)
            requires
                f + 1 == LEAD,
        ;
    }
}

/// The two smallest magnitudes.
pub proof fn lemma_scaled_small()
    ensures
        scaled(0) == 0,
        scaled(1) == 1,
{
    assert(big::power(2, 0) == 1);
    assert(0 * 1 == 0 && 1 * 1 == 1);
}

/// Larger patterns are larger numbers.
pub proof fn lemma_scaled_grows(a: nat, b: nat)
    requires
        a < b,
    ensures
        scaled(a) < scaled(b),
    decreases b - a,
{
    lemma_next((b - 1) as nat);
    big::lemma_power_positive(2, exponent((b - 1) as nat));
    if a + 1 < b {
        lemma_scaled_grows(a, (b - 1) as nat);
    }
}

/// A number has one nearest magnitude.
pub proof fn lemma_nearest_unique(a: nat, b: nat, n: nat, d: nat)
    requires
        d > 0,
        is_nearest(a, n, d),
        is_nearest(b, n, d),
    ensures
        a == b,
{
    if a < b {
        lemma_nearest_order(a, b, n, d);
    } else if b < a {
        lemma_nearest_order(b, a, n, d);
    }
}

/// Where a number rounds to some magnitude, it rounds to no larger one.
proof fn lemma_nearest_order(a: nat, b: nat, n: nat, d: nat)
    requires
        d > 0,
        a < b,
        is_nearest(a, n, d),
    ensures
        !is_nearest(b, n, d),
{
    let c = (b - 1) as nat;
    if a < c {
        lemma_scaled_grows(a, c);
        lemma_scaled_grows(a + 1, c + 1);
        let y = scaled(a) + scaled(a + 1);
        let z = scaled(c) + scaled(c + 1);
        assert(y * d < z * d) by (nonlinear_arith)
            requires
                y < z,
                d > 0,
        ;
    }
}

/// The nearest magnitude is the one that was found.
pub proof fn lemma_nearest_is(m: nat, n: nat, d: nat)
    requires
        d > 0,
        is_nearest(m, n, d),
    ensures
        nearest(n, d) == m,
{
    lemma_nearest_unique(m, nearest(n, d), n, d);
}

/// A number that is a multiple of the unit of some magnitude, and that magnitude itself, is
/// nearest to itself.
pub proof fn lemma_exact(m: nat, n: nat, d: nat)
    requires
        m < INF,
        d > 0,
        n * unit() == scaled(m) * d,
    ensures
        is_nearest(m, n, d),
{
    lemma_next(m);
    big::lemma_power_positive(2, exponent(m));
    assert(2 * n * unit() == 2 * (scaled(m) * d)) by (nonlinear_arith)
        requires
            n * unit() == scaled(m) * d,
    ;
    let s = scaled(m);
    let t = scaled(m + 1);
    assert(2 * (s * d) < (s + t) * d) by (nonlinear_arith)
        requires
            s < t,
            d > 0,
    ;
    if m > 0 {
        lemma_scaled_grows((m - 1) as nat, m);
        let r = scaled((m - 1) as nat);
        assert((r + s) * d < 2 * (s * d)) by (nonlinear_arith)
            requires
                r < s,
                d > 0,
        ;
    }
}

// ------------------------------------------------------------------ rounding

/// The significand and the exponent of a magnitude.
pub(crate) fn parts(m: u64) -> (r: (u64, u64))
    requires
        m <= INF,
    ensures
        r.0 == significand(m as nat),
        r.1 == exponent(m as nat),
        r.0 < 2 * LEAD,
        r.1 <= 2046,
{
    if m < LEAD {
        (m, 0)
    } else {
        (m % LEAD + LEAD, m / LEAD - 1)
    }
}

/// Whether the number with `x = 2 * n * unit()` rounds to `m` or to a smaller magnitude.
pub(crate) fn check_at_most(m: u64, x: &Big, d: &Big, n: Ghost<nat>) -> (r: bool)
    requires
        m < INF,
        x@ == 2 * n@ * unit(),
    ensures
        r == at_most(m as nat, n@, d@),
{
    let (s, e) = parts(m);
    let y = d.times(2 * s + 1).shifted(e);
    proof {
        lemma_next(m as nat);
        let p = big::power(2, e as nat);
        let dv = d@;
        assert((dv * (2 * s + 1)) * p == (s * p + (s * p + p)) * dv) by (nonlinear_arith);
    }
    let (less, equal) = x.order(&y);
    less || (equal && m % 2 == 0)
}

/// The magnitude nearest to `n / d`.
pub fn round(n: &Big, d: &Big) -> (r: u64)
    requires
        d@ > 0,
    ensures
        r == nearest(n@, d@),
        is_nearest(r as nat, n@, d@),
        r <= INF,
{
    let x = n.shifted(1075);
    proof {
        assert(big::power(2, 1075) == 2 * unit());
        let a = n@;
        let u = unit();
        assert(a * (2 * u) == 2 * a * u) by (nonlinear_arith);
    }
    let mut lo: u64 = 0;
    let mut hi: u64 = INF;
    while lo < hi
        invariant
            lo <= hi <= INF,
            x@ == 2 * n@ * unit(),
            lo == 0 || !at_most((lo - 1) as nat, n@, d@),
            hi == INF || at_most(hi as nat, n@, d@),
        decreases hi - lo,
    {
        let mid = lo + (hi - lo) / 2;
        if check_at_most(mid, &x, d, Ghost(n@)) {
            hi = mid;
        } else {
            lo = mid + 1;
        }
    }
    proof {
        lemma_nearest_is(lo as nat, n@, d@);
    }
    lo
}


// ------------------------------------------------------------------- numbers

/// A double-precision number.
#[derive(Clone, Copy, Debug)]
pub struct Num {
    /// Its bit pattern.
    pub bits: u64,
}

/// Whether two patterns stand for the same number: "not a number" is the same as nothing, and zero
/// has one value with either sign.
pub open spec fn same_number(a: u64, b: u64) -> bool {
    !is_nan(a) && !is_nan(b) && (a == b || (magnitude(a) == 0 && magnitude(b) == 0))
}

impl PartialEq for Num {
    fn eq(&self, other: &Num) -> (r: bool) {
        let (_, x) = self.split();
        let (_, y) = other.split();
        x <= INF && y <= INF && (self.bits == other.bits || (x == 0 && y == 0))
    }
}

impl vstd::std_specs::cmp::PartialEqSpecImpl for Num {
    open spec fn obeys_eq_spec() -> bool {
        true
    }

    open spec fn eq_spec(&self, other: &Num) -> bool {
        same_number(self.bits, other.bits)
    }
}

/// The double nearest to a whole number.
pub open spec fn of_int(n: int) -> u64 {
    pattern(n < 0, nearest((if n < 0 { -n } else { n }) as nat, 1))
}

/// The whole part of a magnitude.
pub open spec fn whole(m: nat) -> nat {
    scaled(m) / unit()
}

/// The number as a signed 64-bit integer: its fraction is dropped, what is out of range goes to
/// the nearest bound, and "not a number" gives zero.
pub open spec fn to_int(b: u64) -> int {
    if is_nan(b) {
        0
    } else if is_neg(b) {
        if whole(magnitude(b)) > 0x8000_0000_0000_0000 {
            i64::MIN as int
        } else {
            -whole(magnitude(b))
        }
    } else if whole(magnitude(b)) > i64::MAX {
        i64::MAX as int
    } else {
        whole(magnitude(b)) as int
    }
}

/// The number as an unsigned 64-bit integer, in the same manner.
pub open spec fn to_nat(b: u64) -> nat {
    if is_nan(b) || is_neg(b) {
        0
    } else if whole(magnitude(b)) > u64::MAX {
        u64::MAX as nat
    } else {
        whole(magnitude(b))
    }
}

/// `a * b`.
pub open spec fn product(a: u64, b: u64) -> u64 {
    let neg = is_neg(a) != is_neg(b);
    let x = magnitude(a);
    let y = magnitude(b);
    if x > INF || y > INF || (x == INF && y == 0) || (x == 0 && y == INF) {
        NAN
    } else if x == INF || y == INF {
        pattern(neg, INF as nat)
    } else {
        pattern(neg, nearest(scaled(x) * scaled(y), unit() * unit()))
    }
}

/// `a / b`.
pub open spec fn quotient(a: u64, b: u64) -> u64 {
    let neg = is_neg(a) != is_neg(b);
    let x = magnitude(a);
    let y = magnitude(b);
    if x > INF || y > INF || (x == INF && y == INF) || (x == 0 && y == 0) {
        NAN
    } else if x == INF || y == 0 {
        pattern(neg, INF as nat)
    } else if y == INF {
        pattern(neg, 0)
    } else {
        pattern(neg, nearest(scaled(x), scaled(y)))
    }
}

/// `a - b`, where both are finite and not negative.
pub open spec fn gap(a: u64, b: u64) -> u64 {
    let x = scaled(magnitude(a));
    let y = scaled(magnitude(b));
    if x >= y {
        pattern(false, nearest((x - y) as nat, unit()))
    } else {
        pattern(true, nearest((y - x) as nat, unit()))
    }
}

/// The number as a multiple of the smallest positive double.
pub open spec fn signed_scaled(b: u64) -> int {
    if is_neg(b) {
        -scaled(magnitude(b))
    } else {
        scaled(magnitude(b)) as int
    }
}

/// Whether `a < b`.
pub open spec fn less(a: u64, b: u64) -> bool {
    !is_nan(a) && !is_nan(b) && signed_scaled(a) < signed_scaled(b)
}

/// A magnitude whose significand is `n` times a power of two that lies between the bounds of
/// significands.
proof fn lemma_fitted(n: nat, k: nat) -> (m: nat)
    requires
        0 < n,
        k <= 52,
        n * big::power(2, k) < 2 * LEAD,
    ensures
        m < INF,
        scaled(m) == n * unit(),
    decreases 52 - k,
{
    let p = big::power(2, k);
    let s = n * p;
    if s >= LEAD {
        let e = (1074 - k) as nat;
        let m = ((e + 1) * LEAD + (s - LEAD)) as nat;
        assert(m / LEAD as nat == e + 1 && m % LEAD as nat == s - LEAD) by (nonlinear_arith)
            requires
                m == (e + 1) * LEAD + (s - LEAD),
                0 <= s - LEAD < LEAD,
                LEAD == 0x10_0000_0000_0000,
        ;
        assert(m < INF) by (nonlinear_arith)
            requires
                m == (e + 1) * LEAD + (s - LEAD),
                s < 2 * LEAD,
                e <= 1074,
                LEAD == 0x10_0000_0000_0000,
                INF == 0x7ff0_0000_0000_0000,
        ;
        assert(m >= LEAD) by (nonlinear_arith)
            requires
                m == (e + 1) * LEAD + (s - LEAD),
                s >= LEAD,
                e >= 0,
                LEAD == 0x10_0000_0000_0000,
        ;
        big::lemma_power_adds(2, k, e);
        assert((n * p) * big::power(2, e) == n * (p * big::power(2, e))) by (nonlinear_arith);
        m
    } else {
        assert(big::power(2, k + 1) == 2 * p);
        assert(n * (2 * p) == 2 * s) by (nonlinear_arith)
            requires
                s == n * p,
        ;
        if k == 52 {
            big::lemma_powers_of_two();
            assert(n * p >= p) by (nonlinear_arith)
                requires
                    n >= 1,
            ;
            assert(false);
        }
        lemma_fitted(n, k + 1)
    }
}

/// Whole numbers up to 2 to the power 53 are doubles: as a double and back they stay what they
/// are.
pub proof fn law_small_whole_numbers_are_exact(n: int)
    requires
        -0x20_0000_0000_0000 <= n <= 0x20_0000_0000_0000,
    ensures
        is_finite(of_int(n)),
        to_int(of_int(n)) == n,
        n >= 0 ==> to_nat(of_int(n)) == n && !is_neg(of_int(n)),
        magnitude(of_int(n)) == 0 <==> n == 0,
        scaled(magnitude(of_int(n))) == (if n < 0 {
            -n
        } else {
            n
        }) * unit(),
{
    let a = (if n < 0 {
        -n
    } else {
        n
    }) as nat;
    lemma_scaled_small();
    big::lemma_power_positive(2, 1074);
    let m: nat = if a == 0 {
        0
    } else if a == 0x20_0000_0000_0000 {
        let h: nat = 1076 * LEAD as nat;
        assert(h / LEAD as nat == 1076 && h % LEAD as nat == 0) by (nonlinear_arith)
            requires
                h == 1076 * LEAD as nat,
                LEAD == 0x10_0000_0000_0000,
        ;
        assert(big::power(2, 1075) == 2 * big::power(2, 1074));
        assert(exponent(h) == 1075 && significand(h) == LEAD);
        let v = unit();
        assert(LEAD as nat * (2 * v) == a * v) by (nonlinear_arith)
            requires
                a == 0x20_0000_0000_0000,
                LEAD == 0x10_0000_0000_0000,
        ;
        assert(scaled(h) == a * unit());
        h
    } else {
        assert(big::power(2, 0) == 1);
        assert(a * big::power(2, 0) == a) by (nonlinear_arith)
            requires
                big::power(2, 0) == 1,
        ;
        lemma_fitted(a, 0)
    };
    if a == 0 {
        assert(a * unit() == 0) by (nonlinear_arith)
            requires
                a == 0,
        ;
    }
    assert(scaled(m) == a * unit());
    lemma_exact(m, a, 1);
    lemma_nearest_is(m, a, 1);
    let u = unit();
    assert((a * u) / u == a) by (nonlinear_arith)
        requires
            u > 0,
    ;
    if m == 0 {
        assert(a == 0) by (nonlinear_arith)
            requires
                a * u == 0,
                u > 0,
        ;
    }
}

/// A number that rounds to `m` or to a smaller magnitude has its nearest magnitude there.
proof fn lemma_nearest_bounded(m: nat, n: nat, d: nat)
    requires
        d > 0,
        m < INF,
        at_most(m, n, d),
    ensures
        nearest(n, d) <= m,
        is_nearest(nearest(n, d), n, d),
    decreases m,
{
    if m == 0 || !at_most((m - 1) as nat, n, d) {
        lemma_nearest_is(m, n, d);
    } else {
        lemma_nearest_bounded((m - 1) as nat, n, d);
    }
}

/// A number of 64 bits is a finite double, and a negative one only where it is negative.
pub proof fn lemma_of_int_finite(n: int)
    requires
        -0x1_0000_0000_0000_0000 < n < 0x1_0000_0000_0000_0000,
    ensures
        is_finite(of_int(n)),
        is_neg(of_int(n)) <==> n < 0,
{
    let a = (if n < 0 {
        -n
    } else {
        n
    }) as nat;
    lemma_of_int_size(a as int);
}

/// Every number has a nearest magnitude.
pub proof fn lemma_nearest_holds(n: nat, d: nat)
    requires
        d > 0,
    ensures
        is_nearest(nearest(n, d), n, d),
{
    if at_most((INF - 1) as nat, n, d) {
        lemma_nearest_bounded((INF - 1) as nat, n, d);
    } else {
        assert(is_nearest(INF as nat, n, d));
        lemma_nearest_is(INF as nat, n, d);
    }
}

/// A whole number other than zero is a double other than zero.
pub proof fn lemma_of_int_nonzero(n: int)
    requires
        n != 0,
    ensures
        magnitude(of_int(n)) != 0,
{
    let a = (if n < 0 {
        -n
    } else {
        n
    }) as nat;
    lemma_nearest_holds(a, 1);
    lemma_scaled_small();
    big::lemma_power_positive(2, 1074);
    let u = unit();
    assert(2 * a * u > 1) by (nonlinear_arith)
        requires
            a >= 1,
            u >= 1,
    ;
    assert((scaled(0) + scaled(1)) * 1 == 1);
    assert(!at_most(0, a, 1));
}

/// The difference of two finite numbers is a number.
pub proof fn lemma_gap_number(a: u64, b: u64)
    ensures
        !is_nan(gap(a, b)),
{
    let x = scaled(magnitude(a));
    let y = scaled(magnitude(b));
    big::lemma_power_positive(2, 1074);
    if x >= y {
        lemma_nearest_holds((x - y) as nat, unit());
    } else {
        lemma_nearest_holds((y - x) as nat, unit());
    }
}

/// A number divided by a finite number other than zero is a number.
pub proof fn lemma_quotient_number(a: u64, b: u64)
    requires
        !is_nan(a),
        is_finite(b),
        magnitude(b) != 0,
    ensures
        !is_nan(quotient(a, b)),
{
    lemma_scaled_small();
    lemma_scaled_grows(0, magnitude(b));
    lemma_nearest_holds(scaled(magnitude(a)), scaled(magnitude(b)));
}

/// A number times a finite number other than zero is a number.
pub proof fn lemma_product_number(a: u64, b: u64)
    requires
        !is_nan(a),
        is_finite(b),
        magnitude(b) != 0,
    ensures
        !is_nan(product(a, b)),
{
    let u = unit();
    big::lemma_power_positive(2, 1074);
    assert(u * u > 0) by (nonlinear_arith)
        requires
            u > 0,
    ;
    lemma_nearest_holds(scaled(magnitude(a)) * scaled(magnitude(b)), u * u);
}

/// Of two numbers that are not negative, the one with the larger pattern is not the smaller.
pub proof fn lemma_less_in_order(a: u64, b: u64)
    requires
        a <= b < SIGN,
    ensures
        !less(b, a),
{
    if a < b {
        lemma_scaled_grows(a as nat, b as nat);
    }
}

/// The magnitude of the double that is `2` to the power `k`.
pub open spec fn two_power(k: nat) -> nat {
    (1023 + k) * LEAD as nat
}

proof fn lemma_two_power(k: nat)
    requires
        k <= 512,
    ensures
        two_power(k) < INF,
        scaled(two_power(k)) == big::power(2, k) * unit(),
{
    let m = two_power(k);
    assert(m / LEAD as nat == 1023 + k && m % LEAD as nat == 0) by (nonlinear_arith)
        requires
            m == (1023 + k) * LEAD as nat,
            LEAD == 0x10_0000_0000_0000,
    ;
    assert(m < INF && m >= LEAD) by (nonlinear_arith)
        requires
            m == (1023 + k) * LEAD as nat,
            0 <= k <= 512,
            LEAD == 0x10_0000_0000_0000,
            INF == 0x7ff0_0000_0000_0000,
    ;
    assert(significand(m) == LEAD && exponent(m) == 1022 + k);
    big::lemma_powers_of_two();
    big::lemma_power_adds(2, 52, 1022 + k);
    big::lemma_power_adds(2, k, 1074);
}

/// What is at most `2` to the power `k` rounds to that at most.
proof fn lemma_below_power(n: nat, d: nat, k: nat)
    requires
        d > 0,
        k <= 512,
        n <= big::power(2, k) * d,
    ensures
        nearest(n, d) <= two_power(k),
        nearest(n, d) < INF,
        scaled(nearest(n, d)) <= big::power(2, k) * unit(),
{
    let m = two_power(k);
    lemma_two_power(k);
    lemma_next(m);
    big::lemma_power_positive(2, exponent(m));
    let p = big::power(2, k);
    let u = unit();
    let s = scaled(m);
    let t = scaled(m + 1);
    assert(2 * n * u <= 2 * s * d) by (nonlinear_arith)
        requires
            n <= p * d,
            s == p * u,
    ;
    assert(2 * s * d < (s + t) * d) by (nonlinear_arith)
        requires
            s < t,
            d > 0,
    ;
    lemma_nearest_bounded(m, n, d);
    if nearest(n, d) < m {
        lemma_scaled_grows(nearest(n, d), m);
    }
}

/// A whole number of 64 bits other than zero lies, as a double, between one and `2` to the power
/// 64.
pub proof fn lemma_of_int_size(n: int)
    requires
        0 <= n < 0x1_0000_0000_0000_0000,
    ensures
        nearest(n as nat, 1) < INF,
        !is_neg(of_int(n)),
        is_finite(of_int(n)),
        scaled(magnitude(of_int(n))) <= big::power(2, 64) * unit(),
        n > 0 ==> scaled(magnitude(of_int(n))) >= unit(),
{
    big::lemma_powers_of_two();
    lemma_below_power(n as nat, 1, 64);
    if n > 0 {
        let m = nearest(n as nat, 1);
        lemma_nearest_holds(n as nat, 1);
        lemma_two_power(0);
        assert(big::power(2, 0) == 1);
        let u = unit();
        let o = two_power(0);
        assert(scaled(o) == u);
        if m < o {
            // The middle after `m` lies below one.
            if m + 1 < o {
                lemma_scaled_grows(m + 1, o);
            }
            lemma_scaled_grows(m, o);
            assert(2 * (n as nat) * u >= 2 * u) by (nonlinear_arith)
                requires
                    n >= 1,
            ;
            assert((scaled(m) + scaled(m + 1)) * 1 < 2 * u);
            assert(!at_most(m, n as nat, 1));
        } else if o < m {
            lemma_scaled_grows(o, m);
        }
    }
}

/// The product of two numbers up to `2` to the power 64 is finite.
pub proof fn lemma_product_size(a: u64, b: u64)
    requires
        !is_neg(a) && !is_neg(b),
        is_finite(a) && is_finite(b),
        scaled(magnitude(a)) <= big::power(2, 64) * unit(),
        scaled(magnitude(b)) <= big::power(2, 64) * unit(),
    ensures
        !is_neg(product(a, b)),
        is_finite(product(a, b)),
        scaled(magnitude(product(a, b))) <= big::power(2, 128) * unit(),
{
    let u = unit();
    let p = big::power(2, 64);
    let x = scaled(magnitude(a));
    let y = scaled(magnitude(b));
    big::lemma_power_positive(2, 1074);
    big::lemma_power_adds(2, 64, 64);
    assert(x * y <= (p * p) * (u * u)) by (nonlinear_arith)
        requires
            x <= p * u,
            y <= p * u,
    ;
    assert(u * u > 0) by (nonlinear_arith)
        requires
            u > 0,
    ;
    lemma_below_power(x * y, u * u, 128);
}

/// A finite number divided by one that is at least one is finite.
pub proof fn lemma_quotient_size(a: u64, b: u64)
    requires
        !is_neg(a) && !is_neg(b),
        is_finite(a) && is_finite(b),
        scaled(magnitude(a)) <= big::power(2, 128) * unit(),
        scaled(magnitude(b)) >= unit(),
    ensures
        !is_neg(quotient(a, b)),
        is_finite(quotient(a, b)),
{
    let u = unit();
    let p = big::power(2, 128);
    let x = scaled(magnitude(a));
    let y = scaled(magnitude(b));
    big::lemma_power_positive(2, 1074);
    lemma_scaled_small();
    assert(x <= p * y) by (nonlinear_arith)
        requires
            x <= p * u,
            u <= y,
    ;
    lemma_below_power(x, y, 128);
}

/// `2` to the power `k`.
fn two_to(k: u64) -> (r: u64)
    requires
        k < 64,
    ensures
        r == big::power(2, k as nat),
        r > 0,
{
    let mut r: u64 = 1;
    let mut i: u64 = 0;
    while i < k
        invariant
            i <= k < 64,
            r == big::power(2, i as nat),
        decreases k - i,
    {
        proof {
            big::lemma_powers_of_two();
            big::lemma_power_grows(2, (i + 1) as nat, 63);
        }
        r = r * 2;
        i = i + 1;
    }
    proof {
        big::lemma_power_positive(2, k as nat);
    }
    r
}

/// Dividing a multiple of a power of two by a higher power divides the factor.
proof fn lemma_div_power(s: nat, e: nat, k: nat)
    ensures
        (s * big::power(2, e)) / big::power(2, e + k) == s / big::power(2, k),
{
    let p = big::power(2, e);
    let q = big::power(2, k);
    big::lemma_power_adds(2, e, k);
    big::lemma_power_positive(2, e);
    big::lemma_power_positive(2, k);
    let d = s / q;
    let r = s % q;
    vstd::arithmetic::div_mod::lemma_fundamental_div_mod(s as int, q as int);
    assert(s * p == d * (p * q) + r * p) by (nonlinear_arith)
        requires
            s == q * d + r,
    ;
    assert(0 <= r * p < p * q) by (nonlinear_arith)
        requires
            0 <= r < q,
            p > 0,
    ;
    vstd::arithmetic::div_mod::lemma_fundamental_div_mod_converse(
        (s * p) as int,
        (p * q) as int,
        d as int,
        (r * p) as int,
    );
}

/// The whole part of a magnitude, or `None` where it does not fit 64 bits.
pub(crate) fn whole_part(m: u64) -> (r: Option<u64>)
    requires
        m <= INF,
    ensures
        match r {
            Some(w) => w == whole(m as nat),
            None => whole(m as nat) > u64::MAX,
        },
{
    let (s, e) = parts(m);
    proof {
        big::lemma_powers_of_two();
        big::lemma_power_positive(2, 1074);
    }
    if e < 1074 {
        let k: u64 = 1074 - e;
        proof {
            lemma_div_power(s as nat, e as nat, k as nat);
        }
        if k >= 53 {
            proof {
                big::lemma_power_grows(2, 53, k as nat);
                vstd::arithmetic::div_mod::lemma_basic_div(s as int, big::power(2, k as nat) as int);
            }
            Some(0)
        } else {
            Some(s / two_to(k))
        }
    } else {
        let k: u64 = e - 1074;
        proof {
            big::lemma_power_adds(2, k as nat, 1074);
            let p = big::power(2, k as nat);
            let u = unit();
            assert(s * (p * u) == (s * p) * u) by (nonlinear_arith);
            vstd::arithmetic::div_mod::lemma_div_by_multiple((s * p) as int, u as int);
            assert(whole(m as nat) == s * p);
        }
        if k <= 11 {
            let p = two_to(k);
            proof {
                big::lemma_power_grows(2, k as nat, 11);
            }
            assert(s * p < 0x1_0000_0000_0000_0000) by (nonlinear_arith)
                requires
                    s < 2 * LEAD,
                    p <= 0x800,
            ;
            Some(s * p)
        } else {
            proof {
                big::lemma_power_grows(2, 12, k as nat);
                let p = big::power(2, k as nat);
                assert(s * p >= 0x1_0000_0000_0000_0000) by (nonlinear_arith)
                    requires
                        s >= LEAD,
                        p >= 0x1000,
                ;
            }
            None
        }
    }
}

impl Num {
    /// The number with the given sign and magnitude.
    fn make(neg: bool, m: u64) -> (r: Num)
        requires
            m <= INF,
        ensures
            r.bits == pattern(neg, m as nat),
    {
        if neg {
            Num { bits: m + SIGN }
        } else {
            Num { bits: m }
        }
    }

    /// Its sign and magnitude.
    pub(crate) fn split(self) -> (r: (bool, u64))
        ensures
            r.0 == is_neg(self.bits),
            r.1 == magnitude(self.bits),
    {
        if self.bits >= SIGN {
            (true, self.bits - SIGN)
        } else {
            (false, self.bits)
        }
    }

    /// Whether it is "not a number".
    pub fn is_nan(self) -> (r: bool)
        ensures
            r == is_nan(self.bits),
    {
        self.split().1 > INF
    }

    /// The double nearest to `n / d`.
    pub fn ratio(n: u64, d: u64) -> (r: Num)
        requires
            d > 0,
        ensures
            r.bits == pattern(false, nearest(n as nat, d as nat)),
    {
        let m = round(&Big::of(n), &Big::of(d));
        Num::make(false, m)
    }

    /// The double nearest to `n`.
    pub fn of_u64(n: u64) -> (r: Num)
        ensures
            r.bits == of_int(n as int),
    {
        Num::ratio(n, 1)
    }

    /// The double nearest to `n`.
    pub fn of_i64(n: i64) -> (r: Num)
        ensures
            r.bits == of_int(n as int),
    {
        let neg = n < 0;
        let a: u64 = if n == i64::MIN {
            0x8000_0000_0000_0000
        } else if n < 0 {
            (-n) as u64
        } else {
            n as u64
        };
        let m = round(&Big::of(a), &Big::of(1));
        Num::make(neg, m)
    }

    /// The number as a signed integer: the fraction is dropped, what is out of range goes to the
    /// nearest bound, "not a number" gives zero.
    pub fn to_i64(self) -> (r: i64)
        ensures
            r == to_int(self.bits),
    {
        let (neg, m) = self.split();
        if m > INF {
            return 0;
        }
        match whole_part(m) {
            None => if neg {
                i64::MIN
            } else {
                i64::MAX
            },
            Some(w) => if neg {
                if w >= 0x8000_0000_0000_0000 {
                    i64::MIN
                } else {
                    -(w as i64)
                }
            } else if w > 0x7fff_ffff_ffff_ffff {
                i64::MAX
            } else {
                w as i64
            },
        }
    }

    /// The number as an unsigned integer, in the same manner.
    pub fn to_u64(self) -> (r: u64)
        ensures
            r == to_nat(self.bits),
    {
        let (neg, m) = self.split();
        if m > INF || neg {
            return 0;
        }
        match whole_part(m) {
            None => u64::MAX,
            Some(w) => w,
        }
    }

    /// Whether it differs from zero; "not a number" does.
    pub fn is_nonzero(self) -> (r: bool)
        ensures
            r == (magnitude(self.bits) != 0),
    {
        self.split().1 != 0
    }

    /// `self * b`.
    pub fn times(self, b: Num) -> (r: Num)
        ensures
            r.bits == product(self.bits, b.bits),
    {
        let (s, x) = self.split();
        let (t, y) = b.split();
        let neg = s != t;
        if x > INF || y > INF || (x == INF && y == 0) || (x == 0 && y == INF) {
            return Num { bits: NAN };
        }
        if x == INF || y == INF {
            return Num::make(neg, INF);
        }
        let (xs, xe) = parts(x);
        let (ys, ye) = parts(y);
        let n = Big::of(xs).times(ys).shifted(xe).shifted(ye);
        let d = Big::of(1).shifted(1074).shifted(1074);
        proof {
            let p = big::power(2, xe as nat);
            let q = big::power(2, ye as nat);
            assert(((xs * ys) * p) * q == (xs * p) * (ys * q)) by (nonlinear_arith);
            big::lemma_power_positive(2, 1074);
            let u = unit();
            assert(1 * u * u == u * u && u * u > 0) by (nonlinear_arith)
                requires
                    u > 0,
            ;
        }
        Num::make(neg, round(&n, &d))
    }

    /// `self / b`.
    pub fn over(self, b: Num) -> (r: Num)
        ensures
            r.bits == quotient(self.bits, b.bits),
    {
        let (s, x) = self.split();
        let (t, y) = b.split();
        let neg = s != t;
        if x > INF || y > INF || (x == INF && y == INF) || (x == 0 && y == 0) {
            return Num { bits: NAN };
        }
        if x == INF || y == 0 {
            return Num::make(neg, INF);
        }
        if y == INF {
            return Num::make(neg, 0);
        }
        let (xs, xe) = parts(x);
        let (ys, ye) = parts(y);
        let n = Big::of(xs).shifted(xe);
        let d = Big::of(ys).shifted(ye);
        proof {
            lemma_scaled_grows(0, y as nat);
            lemma_scaled_small();
        }
        Num::make(neg, round(&n, &d))
    }

    /// `self - b`, where both are finite and not negative.
    pub fn less_by(self, b: Num) -> (r: Num)
        requires
            is_finite(self.bits),
            is_finite(b.bits),
            !is_neg(self.bits),
            !is_neg(b.bits),
        ensures
            r.bits == gap(self.bits, b.bits),
    {
        let (xs, xe) = parts(self.bits);
        let (ys, ye) = parts(b.bits);
        let x = Big::of(xs).shifted(xe);
        let y = Big::of(ys).shifted(ye);
        let d = Big::of(1).shifted(1074);
        proof {
            big::lemma_power_positive(2, 1074);
            assert(1 * unit() == unit());
        }
        let (less, _) = x.order(&y);
        if less {
            Num::make(true, round(&y.minus(&x), &d))
        } else {
            Num::make(false, round(&x.minus(&y), &d))
        }
    }

    /// Whether `self < b`.
    pub fn is_less(self, b: Num) -> (r: bool)
        ensures
            r == less(self.bits, b.bits),
    {
        let (s, x) = self.split();
        let (t, y) = b.split();
        if x > INF || y > INF {
            return false;
        }
        proof {
            lemma_scaled_small();
            if x > 0 {
                lemma_scaled_grows(0, x as nat);
            }
            if y > 0 {
                lemma_scaled_grows(0, y as nat);
            }
            if x < y {
                lemma_scaled_grows(x as nat, y as nat);
            } else if y < x {
                lemma_scaled_grows(y as nat, x as nat);
            }
        }
        if s && t {
            y < x
        } else if s {
            x != 0 || y != 0
        } else if t {
            false
        } else {
            x < y
        }
    }
}

} // verus!
