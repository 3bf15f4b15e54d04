//! What holds of the arithmetic on doubles: it is exact where the result is a double, and
//! otherwise gives the double that is closest to the true result.

use vstd::prelude::*;
use crate::big;
use crate::num;
use crate::num::{INF, LEAD};

verus! {

/// How far the magnitude `m` is from `n / d`, in units of the smallest positive double, times `d`.
pub open spec fn distance(m: nat, n: nat, d: nat) -> int {
    let x = n * num::unit() - num::scaled(m) * d;
    if x < 0 {
        -x
    } else {
        x
    }
}

/// No double is closer to a number than the one that it is rounded to, and of two that are equally
/// close it is the one with the even pattern.
pub proof fn law_rounding_is_to_the_closest(n: nat, d: nat, other: nat)
    requires
        d > 0,
        num::nearest(n, d) < INF,
        other < INF,
    ensures
        distance(num::nearest(n, d), n, d) <= distance(other, n, d),
        distance(num::nearest(n, d), n, d) == distance(other, n, d) && other != num::nearest(n, d)
            ==> num::nearest(n, d) % 2 == 0,
{
    let m = num::nearest(n, d);
    num::lemma_nearest_holds(n, d);
    let x = n * num::unit();
    let s = num::scaled(m);
    let o = num::scaled(other);
    assert(2 * n * num::unit() == 2 * x) by (nonlinear_arith)
        requires
            x == n * num::unit(),
    ;
    if other > m {
        let t = num::scaled(m + 1);
        num::lemma_scaled_grows(m, m + 1);
        if other > m + 1 {
            num::lemma_scaled_grows(m + 1, other);
        }
        assert((s + t) * d <= s * d + o * d) by (nonlinear_arith)
            requires
                t <= o,
        ;
        assert((s + t) * d == s * d + o * d ==> t == o || d == 0) by (nonlinear_arith)
            requires
                t <= o,
                d > 0,
        ;
        assert(s * d < o * d) by (nonlinear_arith)
            requires
                s < o,
                d > 0,
        ;
    } else if other < m {
        let p = (m - 1) as nat;
        let t = num::scaled(p);
        num::lemma_scaled_grows(p, m);
        if other < p {
            num::lemma_scaled_grows(other, p);
        }
        assert((t + s) * d >= s * d + o * d) by (nonlinear_arith)
            requires
                t >= o,
        ;
        assert(o * d < s * d) by (nonlinear_arith)
            requires
                o < s,
                d > 0,
        ;
    }
}

/// A larger number does not round to a smaller double.
pub proof fn law_rounding_keeps_the_order(a: nat, b: nat, d: nat)
    requires
        d > 0,
        a <= b,
    ensures
        num::nearest(a, d) <= num::nearest(b, d),
{
    let x = num::nearest(a, d);
    let y = num::nearest(b, d);
    num::lemma_nearest_holds(a, d);
    num::lemma_nearest_holds(b, d);
    let u = num::unit();
    if y < x {
        let p = (x - 1) as nat;
        assert(2 * a * u <= 2 * b * u) by (nonlinear_arith)
            requires
                a <= b,
        ;
        let v = num::scaled(y) + num::scaled(y + 1);
        let w = num::scaled(p) + num::scaled(x);
        if y < p {
            num::lemma_scaled_grows(y, p);
            num::lemma_scaled_grows(y + 1, x);
        }
        assert(v * d <= w * d) by (nonlinear_arith)
            requires
                v <= w,
        ;
        if y < p {
            assert(v * d < w * d) by (nonlinear_arith)
                requires
                    v < w,
                    d > 0,
            ;
        }
    }
}

/// Products, quotients and differences of whole numbers are exact where they are whole numbers up
/// to 2 to the power 53, and so is the order.
pub proof fn law_whole_arithmetic(a: nat, b: nat)
    requires
        a <= 0x20_0000_0000_0000,
        b <= 0x20_0000_0000_0000,
    ensures
        a * b <= 0x20_0000_0000_0000 ==> num::product(num::of_int(a as int), num::of_int(b as int))
            == num::of_int((a * b) as int),
        a * b <= 0x20_0000_0000_0000 && b > 0 ==> num::quotient(
            num::of_int((a * b) as int),
            num::of_int(b as int),
        ) == num::of_int(a as int),
        a >= b ==> num::gap(num::of_int(a as int), num::of_int(b as int)) == num::of_int(a - b),
        num::less(num::of_int(a as int), num::of_int(b as int)) <==> a < b,
{
    let u = num::unit();
    big::lemma_power_positive(2, 1074);
    num::law_small_whole_numbers_are_exact(a as int);
    num::law_small_whole_numbers_are_exact(b as int);
    let x = a * u;
    let y = b * u;
    if a * b <= 0x20_0000_0000_0000 {
        let c: int = (a * b) as int;
        num::law_small_whole_numbers_are_exact(c);
        let m = num::magnitude(num::of_int(c));
        assert((x * y) * u == (c * u) * (u * u)) by (nonlinear_arith)
            requires
                x == a * u,
                y == b * u,
                c == a * b,
        ;
        assert(u * u > 0) by (nonlinear_arith)
            requires
                u > 0,
        ;
        num::lemma_exact(m, (x * y) as nat, (u * u) as nat);
        num::lemma_nearest_is(m, (x * y) as nat, (u * u) as nat);
        if b > 0 {
            let k = num::magnitude(num::of_int(a as int));
            let z: int = c * u;
            assert(z * u == x * y) by (nonlinear_arith)
                requires
                    z == c * u,
                    c == a * b,
                    x == a * u,
                    y == b * u,
            ;
            assert(y > 0) by (nonlinear_arith)
                requires
                    y == b * u,
                    b > 0,
                    u > 0,
            ;
            num::lemma_exact(k, z as nat, y as nat);
            num::lemma_nearest_is(k, z as nat, y as nat);
        }
    }
    if a >= b {
        let c: int = a - b;
        num::law_small_whole_numbers_are_exact(c);
        let m = num::magnitude(num::of_int(c));
        assert(x - y == c * u) by (nonlinear_arith)
            requires
                x == a * u,
                y == b * u,
                c == a - b,
        ;
        assert(c * u >= 0) by (nonlinear_arith)
            requires
                c >= 0,
                u > 0,
        ;
        num::lemma_exact(m, (x - y) as nat, u);
        num::lemma_nearest_is(m, (x - y) as nat, u);
    }
    assert(a < b <==> x < y) by (nonlinear_arith)
        requires
            x == a * u,
            y == b * u,
            u > 0,
    ;
}

/// A magnitude with a given significand and exponent.
pub proof fn lemma_magnitude_of(s: nat, e: nat) -> (m: nat)
    requires
        0 < s < 2 * LEAD,
        e <= 1074,
    ensures
        m < INF,
        num::scaled(m) == s * big::power(2, e),
    decreases e,
{
    if s >= LEAD {
        let m = ((e + 1) * LEAD + (s - LEAD)) as nat;
        assert(m / LEAD as nat == e + 1 && m % LEAD as nat == s - LEAD && m >= LEAD && m < INF)
            by (nonlinear_arith)
            requires
                m == (e + 1) * LEAD + (s - LEAD),
                0 <= s - LEAD < LEAD,
                0 <= e <= 1074,
                LEAD == 0x10_0000_0000_0000,
                INF == 0x7ff0_0000_0000_0000,
        ;
        m
    } else if e == 0 {
        assert(big::power(2, 0) == 1);
        s
    } else {
        let p = big::power(2, (e - 1) as nat);
        assert(big::power(2, e) == 2 * p);
        assert((2 * s) * p == s * (2 * p)) by (nonlinear_arith);
        lemma_magnitude_of(2 * s, (e - 1) as nat)
    }
}

/// The whole part of a number with a fraction that is not too close to one, in hundredths.
pub proof fn lemma_whole_part(n: nat, f: nat, d: nat)
    requires
        n < 0x1000_0000_0000,
        d > 0,
        f * 128 <= d * 127,
    ensures
        num::nearest(n * d + f, d) < INF,
        num::whole(num::nearest(n * d + f, d)) == n,
{
    let u = num::unit();
    let x = n * d + f;
    let m = num::nearest(x, d);
    big::lemma_power_positive(2, 1074);
    big::lemma_power_positive(2, 1067);
    big::lemma_power_adds(2, 7, 1067);
    let h = big::power(2, 1067);
    assert(big::power(2, 7) == 128) by {
        reveal_with_fuel(big::power, 8);
    }
    assert(u == 128 * h);
    let top = lemma_magnitude_of(128 * n + 127, 1067);
    let z = (128 * n + 127) * h;
    assert(num::scaled(top) == z);
    // The number is at most the double just below the next whole number.
    assert(x * 128 <= d * (128 * n + 127)) by (nonlinear_arith)
        requires
            x == n * d + f,
            f * 128 <= d * 127,
    ;
    assert(x * u <= z * d) by (nonlinear_arith)
        requires
            x * 128 <= d * (128 * n + 127),
            u == 128 * h,
            z == (128 * n + 127) * h,
            h > 0,
    ;
    num::lemma_exact(top, z, u);
    num::lemma_nearest_is(top, z, u);
    num::lemma_nearest_holds(x, d);
    num::lemma_next(top);
    big::lemma_power_positive(2, num::exponent(top));
    let zn = num::scaled(top + 1);
    assert(2 * x * u < (z + zn) * d) by (nonlinear_arith)
        requires
            x * u <= z * d,
            z < zn,
            d > 0,
    ;
    assert(m <= top) by {
        if m > top {
            let p = (m - 1) as nat;
            if top < p {
                num::lemma_scaled_grows(top, p);
                num::lemma_scaled_grows(top + 1, m);
            }
            let w = num::scaled(p) + num::scaled(m);
            assert((z + zn) * d <= w * d) by (nonlinear_arith)
                requires
                    z + zn <= w,
            ;
        }
    }
    if m < top {
        num::lemma_scaled_grows(m, top);
    }
    let s = num::scaled(m);
    assert(s <= z);
    assert(z < (n + 1) * u) by (nonlinear_arith)
        requires
            z == (128 * n + 127) * h,
            u == 128 * h,
            h > 0,
    ;
    // It is at least the whole number itself.
    num::law_small_whole_numbers_are_exact(n as int);
    let k = num::magnitude(num::of_int(n as int));
    let y = n * u;
    assert(num::scaled(k) == y);
    assert(x * u >= y * d) by (nonlinear_arith)
        requires
            x >= n * d,
            y == n * u,
    ;
    assert(s >= y) by {
        if m < k {
            num::lemma_scaled_grows(m, k);
            let t = num::scaled(m + 1);
            if m + 1 < k {
                num::lemma_scaled_grows(m + 1, k);
            }
            assert((s + t) * d < 2 * (y * d)) by (nonlinear_arith)
                requires
                    s < y,
                    t <= y,
                    d > 0,
            ;
            assert(2 * x * u == 2 * (x * u)) by (nonlinear_arith);
        } else if k < m {
            num::lemma_scaled_grows(k, m);
        }
    }
    assert(s / u == n) by (nonlinear_arith)
        requires
            n * u <= s < (n + 1) * u,
            u > 0,
    ;
}

/// The quotient of two whole numbers up to 2 to the power 53 is the double nearest to it.
pub proof fn law_whole_quotient(a: nat, b: nat)
    requires
        a <= 0x20_0000_0000_0000,
        0 < b <= 0x20_0000_0000_0000,
    ensures
        num::quotient(num::of_int(a as int), num::of_int(b as int)) == num::pattern(
            false,
            num::nearest(a, b),
        ),
{
    let u = num::unit();
    big::lemma_power_positive(2, 1074);
    num::law_small_whole_numbers_are_exact(a as int);
    num::law_small_whole_numbers_are_exact(b as int);
    lemma_nearest_times(a, b, u);
}

/// A fraction rounds as it does when both its parts are multiplied.
pub proof fn lemma_nearest_times(n: nat, d: nat, k: nat)
    requires
        d > 0,
        k > 0,
    ensures
        num::nearest(n * k, d * k) == num::nearest(n, d),
{
    let m = num::nearest(n, d);
    num::lemma_nearest_holds(n, d);
    assert(d * k > 0) by (nonlinear_arith)
        requires
            d > 0,
            k > 0,
    ;
    lemma_at_most_times(m, n, d, k);
    if m > 0 {
        lemma_at_most_times((m - 1) as nat, n, d, k);
    }
    num::lemma_nearest_is(m, n * k, d * k);
}

proof fn lemma_at_most_times(m: nat, n: nat, d: nat, k: nat)
    requires
        k > 0,
    ensures
        num::at_most(m, n * k, d * k) == num::at_most(m, n, d),
{
    let u = num::unit();
    let t = num::scaled(m) + num::scaled(m + 1);
    let x = 2 * n * u;
    let y = t * d;
    assert(2 * (n * k) * u == x * k) by (nonlinear_arith)
        requires
            x == 2 * n * u,
    ;
    assert(t * (d * k) == y * k) by (nonlinear_arith)
        requires
            y == t * d,
    ;
    assert(x < y <==> x * k < y * k) by (nonlinear_arith)
        requires
            k > 0,
    ;
    assert(x == y <==> x * k == y * k) by (nonlinear_arith)
        requires
            k > 0,
    ;
}

} // verus!
