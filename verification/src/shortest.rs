//! Writing a double with the fewest digits that read back as the same double.

use vstd::prelude::*;
use crate::big::{self, Big};
use crate::digits;
use crate::num::{self, Num, INF};
use crate::numeral;
use crate::text;

verus! {

/// Ten to the power `p`, or one where `p` is negative.
pub open spec fn tens_up(p: int) -> nat {
    big::power(10, (if p > 0 { p } else { 0 }) as nat)
}

/// Ten to the power `-p`, or one where `p` is positive.
pub open spec fn tens_down(p: int) -> nat {
    tens_up(-p)
}

/// The magnitude counted in units of the decimal place `p`, rounded down.
pub open spec fn floor_at(m: nat, p: int) -> nat {
    (num::scaled(m) * tens_down(p)) / (num::unit() * tens_up(p))
}

/// Whether `f` units of the decimal place `p` read as the magnitude `m`.
pub open spec fn reads_as(m: nat, f: nat, p: int) -> bool {
    num::is_nearest(m, f * tens_up(p), tens_down(p))
}

/// Whether some number that ends at the decimal place `p` reads as `m`: the next such number
/// below or above is the one to try.
pub open spec fn fits(m: nat, p: int) -> bool {
    reads_as(m, floor_at(m, p), p) || reads_as(m, floor_at(m, p) + 1, p)
}

/// The highest decimal place at which a number that reads as `m` can end.
pub open spec fn last_place(m: nat) -> int {
    choose|p: int| fits(m, p) && forall|q: int| q > p ==> !fits(m, q)
}

/// The digits to write, as a number of units of the last place: of the two candidates that read
/// as `m` the closer one, the upper one where they are equally close.
pub open spec fn shortest_digits(m: nat) -> nat {
    let p = last_place(m);
    let f = floor_at(m, p);
    if !reads_as(m, f + 1, p) {
        f
    } else if !reads_as(m, f, p) {
        f + 1
    } else if 2 * (num::scaled(m) * tens_down(p)) < (2 * f + 1) * (num::unit() * tens_up(p)) {
        f
    } else {
        f + 1
    }
}

// ------------------------------------------------------- why the search works

/// Comparing with the middle between `k` and the next magnitude, counted in units of place `p`.
proof fn lemma_at_most_at(k: nat, f: nat, p: int)
    ensures
        num::at_most(k, f * tens_up(p), tens_down(p)) == ({
            let x = 2 * (f * (num::unit() * tens_up(p)));
            let y = (num::scaled(k) + num::scaled(k + 1)) * tens_down(p);
            x < y || (x == y && k % 2 == 0)
        }),
{
    let u = num::unit();
    let t = tens_up(p);
    assert(2 * (f * t) * u == 2 * (f * (u * t))) by (nonlinear_arith);
}

proof fn lemma_units_positive(p: int)
    ensures
        tens_up(p) > 0,
        tens_down(p) > 0,
        num::unit() * tens_up(p) > 0,
{
    big::lemma_power_positive(10, (if p > 0 { p } else { 0 }) as nat);
    big::lemma_power_positive(10, (if -p > 0 { -p } else { 0 }) as nat);
    big::lemma_power_positive(2, 1074);
    let u = num::unit();
    let t = tens_up(p);
    assert(u * t > 0) by (nonlinear_arith)
        requires
            u > 0,
            t > 0,
    ;
}

/// The bounds between which a magnitude lies at place `p`.
proof fn lemma_floor_bounds(m: nat, p: int)
    ensures
        floor_at(m, p) * (num::unit() * tens_up(p)) <= num::scaled(m) * tens_down(p),
        num::scaled(m) * tens_down(p) < (floor_at(m, p) + 1) * (num::unit() * tens_up(p)),
{
    lemma_units_positive(p);
    let n = num::scaled(m) * tens_down(p);
    let d = num::unit() * tens_up(p);
    vstd::arithmetic::div_mod::lemma_fundamental_div_mod(n as int, d as int);
    let f = n / d;
    assert(f * d <= n < (f + 1) * d) by (nonlinear_arith)
        requires
            n == d * f + n % d,
            0 <= n % d < d,
    ;
}

/// Those bounds determine the count.
proof fn lemma_floor_is(m: nat, p: int, f: nat)
    requires
        f * (num::unit() * tens_up(p)) <= num::scaled(m) * tens_down(p),
        num::scaled(m) * tens_down(p) < (f + 1) * (num::unit() * tens_up(p)),
    ensures
        floor_at(m, p) == f,
{
    lemma_units_positive(p);
    let n = num::scaled(m) * tens_down(p);
    let d = num::unit() * tens_up(p);
    assert(n == f * d + (n - f * d));
    assert(0 <= n - f * d < d) by (nonlinear_arith)
        requires
            f * d <= n < (f + 1) * d,
    ;
    vstd::arithmetic::div_mod::lemma_fundamental_div_mod_converse(
        n as int,
        d as int,
        f as int,
        n - f * d,
    );
}

/// Going one place down multiplies the count by ten and adds a digit.
proof fn lemma_floor_step(m: nat, p: int)
    ensures
        10 * floor_at(m, p) <= floor_at(m, p - 1) <= 10 * floor_at(m, p) + 9,
{
    lemma_floor_bounds(m, p);
    lemma_floor_bounds(m, p - 1);
    lemma_units_positive(p);
    lemma_units_positive(p - 1);
    let f = floor_at(m, p);
    let g = floor_at(m, p - 1);
    let s = num::scaled(m);
    let u = num::unit();
    let up = tens_up(p);
    let dn = tens_down(p);
    let up1 = tens_up(p - 1);
    let dn1 = tens_down(p - 1);
    if p > 0 {
        assert(up == 10 * up1);
        assert(dn == 1 && dn1 == 1);
        assert(10 * f <= g <= 10 * f + 9) by (nonlinear_arith)
            requires
                f * (u * up) <= s * dn,
                s * dn < (f + 1) * (u * up),
                g * (u * up1) <= s * dn1,
                s * dn1 < (g + 1) * (u * up1),
                u * up1 > 0,
                up == 10 * up1,
                dn == 1,
                dn1 == 1,
        {
            let w = u * up1;
            assert(s * 1 == s);
            assert(u * (10 * up1) == 10 * w);
            assert(f * (10 * w) == (10 * f) * w);
            assert((f + 1) * (10 * w) == (10 * f + 10) * w);
            assert((10 * f) * w < (g + 1) * w);
            assert(10 * f < g + 1);
            assert(g * w < (10 * f + 10) * w);
            assert(g < 10 * f + 10);
        }
    } else {
        assert(dn1 == 10 * dn);
        assert(up == 1 && up1 == 1);
        assert(10 * f <= g <= 10 * f + 9) by (nonlinear_arith)
            requires
                f * (u * up) <= s * dn,
                s * dn < (f + 1) * (u * up),
                g * (u * up1) <= s * dn1,
                s * dn1 < (g + 1) * (u * up1),
                u * up1 > 0,
                up == 1,
                up1 == 1,
                dn1 == 10 * dn,
        {
            assert(u * 1 == u);
            assert(s * (10 * dn) == 10 * (s * dn));
            assert(10 * (f * u) == (10 * f) * u);
            assert(10 * ((f + 1) * u) == (10 * f + 10) * u);
            assert((10 * f) * u < (g + 1) * u);
            assert(10 * f < g + 1);
            assert(g * u < (10 * f + 10) * u);
            assert(g < 10 * f + 10);
        }
    }
}

/// The step to the next magnitude is at most the magnitude itself.
proof fn lemma_step_within(m: nat)
    requires
        m > 0,
    ensures
        num::scaled(m + 1) <= 2 * num::scaled(m),
{
    num::lemma_next(m);
    let s = num::significand(m);
    let p = big::power(2, num::exponent(m));
    assert(s >= 1);
    assert(p <= s * p) by (nonlinear_arith)
        requires
            s >= 1,
    ;
}

/// No number that ends above the first digit reads as `m`.
proof fn lemma_none_above(m: nat, t: nat, q: int)
    requires
        0 < m < INF,
        num::scaled(m) < big::power(10, t) * num::unit(),
        q > t,
    ensures
        !fits(m, q),
        floor_at(m, q) == 0,
{
    lemma_units_positive(q);
    big::lemma_power_positive(2, 1074);
    let u = num::unit();
    let s = num::scaled(m);
    let a = big::power(10, t);
    let b = tens_up(q);
    assert(tens_down(q) == 1);
    big::lemma_power_grows(10, t + 1, q as nat);
    assert(b >= 10 * a);
    assert(s < u * b && 3 * s < 2 * (u * b)) by (nonlinear_arith)
        requires
            s < a * u,
            b >= 10 * a,
            u > 0,
            a >= 0,
    ;
    assert(s * 1 == s && 0 * (u * b) == 0 && (0 + 1) * (u * b) == u * b);
    lemma_floor_is(m, q, 0);
    let r = (m - 1) as nat;
    num::lemma_scaled_grows(r, m);
    lemma_at_most_at(r, 0, q);
    lemma_at_most_at(m, 1, q);
    lemma_step_within(m);
    assert(1 * (u * b) == u * b);
}

/// With seventeen digits there is always a number that reads as `m`.
proof fn lemma_enough(m: nat, p: int)
    requires
        0 < m < INF,
        floor_at(m, p) >= 10_000_000_000_000_000,
    ensures
        fits(m, p),
{
    lemma_floor_bounds(m, p);
    lemma_units_positive(p);
    let f = floor_at(m, p);
    let d = num::unit() * tens_up(p);
    let t = tens_down(p);
    let v = num::scaled(m) * t;
    let s = num::significand(m);
    let e = num::exponent(m);
    let r = (m - 1) as nat;
    let w = big::power(2, e) * t;
    let l = big::power(2, num::exponent(r)) * t;
    num::lemma_next(m);
    num::lemma_next(r);
    big::lemma_power_positive(2, e);
    big::lemma_power_positive(2, num::exponent(r));
    assert(w > 0) by (nonlinear_arith)
        requires
            w == big::power(2, e) * t,
            big::power(2, e) > 0,
            t > 0,
    ;
    assert(l > 0) by (nonlinear_arith)
        requires
            l == big::power(2, num::exponent(r)) * t,
            big::power(2, num::exponent(r)) > 0,
            t > 0,
    ;
    // The magnitude in units of its own step.
    assert(v == s * w) by (nonlinear_arith)
        requires
            v == (s * big::power(2, e)) * t,
            w == big::power(2, e) * t,
    ;
    assert(s < 0x20_0000_0000_0000);
    assert(10_000_000_000_000_000 * d <= v) by (nonlinear_arith)
        requires
            f * d <= v,
            f >= 10_000_000_000_000_000,
    ;
    // The step below is the same, or half of it at a power of two.
    if num::exponent(r) == e {
        assert(l == w);
        assert(s * w <= 0x20_0000_0000_0000 * w) by (nonlinear_arith)
            requires
                s < 0x20_0000_0000_0000,
        ;
        assert(2 * d < l + w);
    } else {
        assert(s == 0x10_0000_0000_0000 && num::exponent(r) + 1 == e);
        assert(big::power(2, e) == 2 * big::power(2, num::exponent(r)));
        assert(w == 2 * l) by (nonlinear_arith)
            requires
                w == (2 * big::power(2, num::exponent(r))) * t,
                l == big::power(2, num::exponent(r)) * t,
        ;
        assert(v == 0x10_0000_0000_0000 * w) by (nonlinear_arith)
            requires
                v == s * w,
                s == 0x10_0000_0000_0000,
        ;
        assert(2 * d < l + w);
    }
    lemma_at_most_at(m, f, p);
    lemma_at_most_at(r, f, p);
    lemma_at_most_at(m, f + 1, p);
    lemma_at_most_at(r, f + 1, p);
    assert((num::scaled(m) + num::scaled(m + 1)) * t == 2 * v + w) by (nonlinear_arith)
        requires
            num::scaled(m + 1) == num::scaled(m) + big::power(2, e),
            v == num::scaled(m) * t,
            w == big::power(2, e) * t,
    ;
    assert((num::scaled(r) + num::scaled(r + 1)) * t == 2 * v - l) by (nonlinear_arith)
        requires
            num::scaled(r + 1) == num::scaled(r) + big::power(2, num::exponent(r)),
            v == num::scaled(r + 1) * t,
            l == big::power(2, num::exponent(r)) * t,
    ;
    assert((f + 1) * d == f * d + d) by (nonlinear_arith);
}

/// At the place -400 there are more than seventeen digits.
proof fn lemma_bottom(m: nat)
    requires
        0 < m < INF,
    ensures
        floor_at(m, -400) >= 10_000_000_000_000_000,
{
    num::lemma_scaled_small();
    if m > 1 {
        num::lemma_scaled_grows(1, m);
    }
    assert(big::power(2, 3) == 8) by {
        reveal_with_fuel(big::power, 4);
    }
    big::lemma_power_of_base(8, 10, 359);
    big::lemma_power_of_power(2, 3, 359);
    big::lemma_power_grows(2, 1074, 1077);
    big::lemma_power_adds(10, 41, 359);
    lemma_ten_16();
    let u = num::unit();
    let s = num::scaled(m);
    let a = big::power(10, 41);
    let b = big::power(10, 359);
    assert(tens_down(-400) == a * b);
    assert(tens_up(-400) == 1);
    lemma_floor_bounds(m, -400);
    let f = floor_at(m, -400);
    big::lemma_power_positive(2, 1074);
    assert(f >= 10_000_000_000_000_000) by (nonlinear_arith)
        requires
            s * (a * b) < (f + 1) * (u * 1),
            s >= 1,
            a >= 100_000_000_000_000_000,
            b >= u,
            u > 0,
    {
        assert(a * b >= 100_000_000_000_000_000 * u);
        assert(s * (a * b) >= a * b);
        if f < 10_000_000_000_000_000 {
            assert((f + 1) * u <= 10_000_000_000_000_000 * u);
        }
    }
}

proof fn lemma_ten_16()
    ensures
        big::power(10, 15) == 1_000_000_000_000_000,
        big::power(10, 20) == 100_000_000_000_000_000_000,
        big::power(10, 41) >= 100_000_000_000_000_000,
{
    reveal_with_fuel(big::power, 6);
    assert(big::power(10, 5) == 100_000);
    big::lemma_power_adds(10, 5, 5);
    assert(big::power(10, 10) == 10_000_000_000) by (nonlinear_arith)
        requires
            big::power(10, 10) == big::power(10, 5) * big::power(10, 5),
            big::power(10, 5) == 100_000,
    ;
    big::lemma_power_adds(10, 10, 5);
    assert(big::power(10, 15) == 1_000_000_000_000_000);
    big::lemma_power_adds(10, 10, 10);
    assert(big::power(10, 20) == 100_000_000_000_000_000_000) by (nonlinear_arith)
        requires
            big::power(10, 20) == big::power(10, 10) * big::power(10, 10),
            big::power(10, 10) == 10_000_000_000,
    ;
    big::lemma_power_grows(10, 20, 41);
}

// ---------------------------------------------------------------- the search

/// The magnitude times `tens_down(p)`.
fn numerator(m: u64, p: i64) -> (r: Big)
    requires
        m < INF,
        -500 < p < 500,
    ensures
        r@ == num::scaled(m as nat) * tens_down(p as int),
{
    let (s, e) = num::parts(m);
    let b = Big::of(s).shifted(e);
    if p < 0 {
        b.tens((-p) as u128)
    } else {
        assert(b@ * 1 == b@ && big::power(10, 0) == 1);
        b
    }
}

/// The unit of the place `p`.
fn denominator(p: i64) -> (r: Big)
    requires
        -500 < p < 500,
    ensures
        r@ == num::unit() * tens_up(p as int),
{
    let b = Big::of(1).shifted(1074);
    assert(b@ == 1 * num::unit());
    if p > 0 {
        b.tens(p as u128)
    } else {
        assert(b@ * 1 == b@ && big::power(10, 0) == 1);
        b
    }
}

/// Whether `f` units of the place `p` read as `m`.
fn check_reads(m: u64, f: u64, p: i64) -> (r: bool)
    requires
        0 < m < INF,
        -500 < p < 500,
    ensures
        r == reads_as(m as nat, f as nat, p as int),
{
    let one = Big::of(1);
    let (n, d) = if p > 0 {
        assert(tens_down(p as int) == 1);
        (Big::of(f).tens(p as u128), one)
    } else if p == 0 {
        assert(f * 1 == f && big::power(10, 0) == 1);
        (Big::of(f), one)
    } else {
        assert(f * 1 == f && big::power(10, 0) == 1);
        let d = one.tens((-p) as u128);
        assert(d@ == 1 * tens_down(p as int));
        (Big::of(f), d)
    };
    let x = n.shifted(1075);
    proof {
        assert(big::power(2, 1075) == 2 * num::unit());
        let a = n@;
        let u = num::unit();
        assert(a * (2 * u) == 2 * a * u) by (nonlinear_arith);
    }
    num::check_at_most(m, &x, &d, Ghost(n@)) && !num::check_at_most(m - 1, &x, &d, Ghost(n@))
}

/// The shortest digits for a magnitude, and the decimal place of the last of them.
pub fn shortest(m: u64) -> (r: (u64, i64))
    requires
        0 < m < INF,
    ensures
        r.0 == shortest_digits(m as nat),
        r.1 == last_place(m as nat),
        -400 <= r.1 <= 401,
        reads_as(m as nat, r.0 as nat, r.1 as int),
        r.0 > 0,
{
    let one = Big::of(1);
    let bound = one.tens(20).shifted(1074);
    let (s, e) = num::parts(m);
    let value = Big::of(s).shifted(e);
    let (small, _) = value.order(&bound);
    let top: i64 = if small {
        20
    } else {
        400
    };
    proof {
        assert(bound@ == (1 * big::power(10, 20)) * num::unit());
        numeral::lemma_ten_and_two();
        numeral::lemma_scaled_inf();
        num::lemma_scaled_grows(m as nat, INF as nat);
        let a = big::power(10, 400);
        let b = big::power(2, 1024);
        let u = num::unit();
        assert(b * u <= a * u) by (nonlinear_arith)
            requires
                b <= a,
        ;
        assert forall|q: int| q > top implies !#[trigger] fits(m as nat, q) by {
            lemma_none_above(m as nat, top as nat, q);
        }
        lemma_none_above(m as nat, top as nat, top + 1);
    }
    let mut p: i64 = top + 1;
    let mut f: u64 = 0;
    let mut done = false;
    while !done
        invariant
            0 < m < INF,
            -400 <= p <= 401,
            f == floor_at(m as nat, p as int),
            f < 100_000_000_000_000_000,
            forall|q: int| q > p ==> !#[trigger] fits(m as nat, q),
            done == fits(m as nat, p as int),
        decreases p + 401,
    {
        proof {
            if f >= 10_000_000_000_000_000 {
                lemma_enough(m as nat, p as int);
            }
            if p == -400 {
                lemma_bottom(m as nat);
            }
            lemma_floor_step(m as nat, p as int);
        }
        p = p - 1;
        let n = numerator(m, p);
        let d = denominator(p);
        let mut g: u64 = f * 10;
        let ghost target = floor_at(m as nat, p as int);
        while g < f * 10 + 9
            invariant
                f < 10_000_000_000_000_000,
                f * 10 <= g <= f * 10 + 9,
                g <= target <= f * 10 + 9,
                target == floor_at(m as nat, p as int),
                n@ == num::scaled(m as nat) * tens_down(p as int),
                d@ == num::unit() * tens_up(p as int),
            ensures
                g == target,
            decreases f * 10 + 9 - g,
        {
            let next = d.times(g + 1);
            let (over, _) = n.order(&next);
            proof {
                lemma_floor_bounds(m as nat, p as int);
                let dv = d@;
                let nv = n@;
                assert(over ==> g >= target) by (nonlinear_arith)
                    requires
                        target * dv <= nv,
                        over == (nv < dv * (g + 1)),
                        dv >= 0,
                ;
                assert(!over ==> g + 1 <= target) by (nonlinear_arith)
                    requires
                        nv < (target + 1) * dv,
                        over == (nv < dv * (g + 1)),
                ;
            }
            if over {
                break;
            }
            g = g + 1;
        }
        f = g;
        done = check_reads(m, f, p) || check_reads(m, f + 1, p);
    }
    proof {
        let lp = last_place(m as nat);
        assert(fits(m as nat, p as int) && forall|q: int| q > p ==> !fits(m as nat, q));
        assert(lp == p) by {
            if lp < p {
                assert(!fits(m as nat, p as int));
            }
        }
    }
    let up = check_reads(m, f + 1, p);
    let down = check_reads(m, f, p);
    proof {
        // Zero units read as zero only.
        num::lemma_scaled_grows((m - 1) as nat, m as nat);
        lemma_at_most_at((m - 1) as nat, 0, p as int);
        lemma_units_positive(p as int);
        let y = num::scaled((m - 1) as nat) + num::scaled(m as nat);
        let t = tens_down(p as int);
        assert(y * t > 0) by (nonlinear_arith)
            requires
                y > 0,
                t > 0,
        ;
        assert(0 * (num::unit() * tens_up(p as int)) == 0);
        assert(down ==> f > 0);
    }
    if !up {
        return (f, p);
    }
    if !down {
        return (f + 1, p);
    }
    let twice = numerator(m, p).times(2);
    let half = denominator(p).times(2 * f + 1);
    proof {
        let a = num::scaled(m as nat) * tens_down(p as int);
        let b = num::unit() * tens_up(p as int);
        assert(a * 2 == 2 * a) by (nonlinear_arith);
        assert(b * (2 * f + 1) == (2 * f + 1) * b) by (nonlinear_arith);
    }
    let (lower, _) = twice.order(&half);
    if lower {
        (f, p)
    } else {
        (f + 1, p)
    }
}


// ------------------------------------------------------------------- the text

/// `k` zeros.
pub open spec fn zeros(k: nat) -> Seq<char> {
    Seq::new(k, |i: int| '0')
}

/// `d` units of the decimal place `p`, written without an exponent.
pub open spec fn layout(d: nat, p: int) -> Seq<char> {
    let s = digits::decimal(d);
    if p >= 0 {
        s + zeros(p as nat)
    } else if s.len() > -p {
        s.take(s.len() + p) + seq!['.'] + s.skip(s.len() + p)
    } else {
        seq!['0', '.'] + zeros((-p - s.len()) as nat) + s
    }
}

/// Whether a magnitude is a whole number below ten to the power 15.
pub open spec fn is_small_whole(m: nat) -> bool {
    num::whole(m) * num::unit() == num::scaled(m) && num::whole(m) < 1_000_000_000_000_000
}

/// A sign where the number is negative.
pub open spec fn sign_text(neg: bool) -> Seq<char> {
    if neg {
        seq!['-']
    } else {
        Seq::empty()
    }
}

/// The text of a number: a small whole number as an integer, any other with its shortest digits.
pub open spec fn shown(b: u64) -> Seq<char> {
    let m = num::magnitude(b);
    if m > INF {
        "NaN"@
    } else if m == INF {
        sign_text(num::is_neg(b)) + "inf"@
    } else if is_small_whole(m) {
        digits::signed_decimal(num::to_int(b))
    } else {
        sign_text(num::is_neg(b)) + layout(shortest_digits(m), last_place(m))
    }
}

/// Appends `k` zeros.
fn put_zeros(out: &mut String, k: u64)
    ensures
        final(out)@ == old(out)@ + zeros(k as nat),
{
    let mut i: u64 = 0;
    assert(out@ =~= old(out)@ + zeros(0));
    while i < k
        invariant
            i <= k,
            out@ == old(out)@ + zeros(i as nat),
        decreases k - i,
    {
        out.push('0');
        i = i + 1;
        assert(out@ =~= old(out)@ + zeros(i as nat));
    }
}

/// Appends `d` units of the decimal place `p`.
fn put_layout(out: &mut String, d: u64, p: i64)
    requires
        -500 < p < 500,
    ensures
        final(out)@ == old(out)@ + layout(d as nat, p as int),
{
    let t = digits::show_unsigned(d);
    let cs = text::chars_of(t.as_str());
    let n = cs.len();
    let ghost s = digits::decimal(d as nat);
    if p >= 0 {
        text::put(out, t.as_str());
        put_zeros(out, p as u64);
        assert(out@ =~= old(out)@ + layout(d as nat, p as int));
    } else {
        let k: usize = (-p) as usize;
        if n > k {
            let head = text::string_of(&cs, 0, n - k);
            let tail = text::string_of(&cs, n - k, n);
            text::put(out, head.as_str());
            out.push('.');
            text::put(out, tail.as_str());
            assert(head@ =~= s.take(s.len() + p));
            assert(tail@ =~= s.skip(s.len() + p));
            assert(out@ =~= old(out)@ + layout(d as nat, p as int));
        } else {
            out.push('0');
            out.push('.');
            put_zeros(out, (k - n) as u64);
            text::put(out, t.as_str());
            assert(out@ =~= old(out)@ + layout(d as nat, p as int));
        }
    }
}

/// Whether a magnitude is a whole number below ten to the power 15, and which.
fn small_whole(m: u64) -> (r: Option<u64>)
    requires
        m < INF,
    ensures
        r is Some <==> is_small_whole(m as nat),
        r matches Some(w) ==> w == num::whole(m as nat) && w < 1_000_000_000_000_000,
{
    match num::whole_part(m) {
        None => None,
        Some(w) => {
            let (s, e) = num::parts(m);
            let (_, whole) = Big::of(w).shifted(1074).order(&Big::of(s).shifted(e));
            if whole && w < 1_000_000_000_000_000 {
                Some(w)
            } else {
                None
            }
        },
    }
}

impl Num {
    /// The text of the number.
    pub fn show(self) -> (r: String)
        ensures
            r@ == shown(self.bits),
    {
        let (neg, m) = self.split();
        if m > INF {
            return "NaN".to_string();
        }
        let mut out = String::new();
        if m < INF {
            if let Some(_) = small_whole(m) {
                return digits::show_signed(self.to_i64());
            }
        }
        if neg {
            out.push('-');
        }
        assert(out@ =~= sign_text(neg));
        if m == INF {
            text::put(&mut out, "inf");
            return out;
        }
        proof {
            if m == 0 {
                num::lemma_scaled_small();
                big::lemma_power_positive(2, 1074);
                vstd::arithmetic::div_mod::lemma_basic_div(0, num::unit() as int);
                assert(0 * num::unit() == 0);
                assert(is_small_whole(0));
            }
        }
        let (d, p) = shortest(m);
        put_layout(&mut out, d, p);
        out
    }
}

// -------------------------------------------------------------- reading back

/// A run of digits ends where it ends.
pub proof fn lemma_digits_end_is(s: Seq<char>, i: int, j: int)
    requires
        0 <= i <= j <= s.len(),
        forall|k: int| i <= k < j ==> digits::is_digit(#[trigger] s[k], 10),
        j == s.len() || !digits::is_digit(s[j], 10),
    ensures
        numeral::digits_end(s, i) == j,
    decreases j - i,
{
    if i < j {
        lemma_digits_end_is(s, i + 1, j);
    }
}

/// Zeros after digits multiply by ten; zeros before them change nothing.
proof fn lemma_zeros(s: Seq<char>, k: nat)
    ensures
        digits::value(zeros(k), 10) == 0,
        digits::value(s + zeros(k), 10) == digits::value(s, 10) * big::power(10, k),
        digits::value(zeros(k) + s, 10) == digits::value(s, 10),
        digits::all_digits(zeros(k), 10),
    decreases k,
{
    assert(digits::digit_of('0') == Some(0nat));
    if k > 0 {
        lemma_zeros(s, (k - 1) as nat);
        assert(zeros(k).drop_last() =~= zeros((k - 1) as nat));
    }
    numeral::lemma_value_concat(s, zeros(k));
    numeral::lemma_value_concat(zeros(k), s);
    assert(0 * big::power(10, s.len()) == 0);
}

/// Text that starts with a digit is no word for infinity or "not a number".
pub proof fn lemma_no_word(s: Seq<char>)
    requires
        s.len() > 0,
        digits::is_digit(s[0], 10),
    ensures
        text::lowered(s) != "inf"@,
        text::lowered(s) != "infinity"@,
        text::lowered(s) != "nan"@,
        s[0] != '+',
        s[0] != '-',
{
    reveal_strlit("inf");
    reveal_strlit("infinity");
    reveal_strlit("nan");
    assert(text::lowered(s)[0] == s[0]);
}

/// Digits that are laid out read as what they stand for.
proof fn lemma_layout_reads(d: nat, p: int)
    ensures
        layout(d, p).len() > 0,
        digits::is_digit(layout(d, p)[0], 10),
        ({
            let r = numeral::decimal_text(layout(d, p));
            if p >= 0 {
                r == Some((d * big::power(10, p as nat), 0int))
            } else {
                r == Some((d, p))
            }
        }),
{
    let s = digits::decimal(d);
    let t = layout(d, p);
    digits::lemma_decimal(d);
    assert(digits::is_digit(s[0], 10));
    if p >= 0 {
        lemma_zeros(s, p as nat);
        assert forall|k: int| 0 <= k < t.len() implies digits::is_digit(#[trigger] t[k], 10) by {
            if k < s.len() {
                assert(t[k] == s[k]);
            } else {
                assert(digits::is_digit(zeros(p as nat)[k - s.len()], 10));
            }
        }
        lemma_digits_end_is(t, 0, t.len() as int);
        assert(t.take(t.len() as int) =~= t);
    } else {
        let (a, lead) = if s.len() > -p {
            (s.len() + p, Seq::<char>::empty())
        } else {
            (1int, seq!['0'] + zeros((-p - s.len()) as nat))
        };
        let k = (-p - s.len()) as nat;
        if s.len() <= -p {
            lemma_zeros(s, k);
        }
        assert forall|i: int| 0 <= i < t.len() && i != a implies digits::is_digit(
            #[trigger] t[i],
            10,
        ) by {
            if s.len() > -p {
                if i < a {
                    assert(t[i] == s[i]);
                } else {
                    assert(t[i] == s[i - 1]);
                }
            } else {
                if i == 0 {
                    assert(t[i] == '0');
                } else if i < 2 + k {
                    assert(t[i] == zeros(k)[i - 2]);
                } else {
                    assert(t[i] == s[i - 2 - k]);
                }
            }
        }
        assert(t[a] == '.');
        assert(t.len() == a + 1 - p);
        lemma_digits_end_is(t, 0, a);
        lemma_digits_end_is(t, a + 1, t.len() as int);
        let m = t.take(a) + t.subrange(a + 1, t.len() as int);
        if s.len() > -p {
            assert(m =~= s);
        } else {
            assert(m =~= zeros(k + 1) + s);
            lemma_zeros(s, k + 1);
        }
    }
}

/// The digits of a whole number read as the double nearest to it.
pub proof fn law_whole_number_reads(n: int)
    ensures
        numeral::number_text(digits::signed_decimal(n)) == Some(num::of_int(n)),
{
    let a = (if n < 0 {
        -n
    } else {
        n
    }) as nat;
    let s = digits::decimal(a);
    digits::lemma_decimal(a);
    assert(digits::is_digit(s[0], 10));
    lemma_no_word(s);
    lemma_digits_end_is(s, 0, s.len() as int);
    assert(s.take(s.len() as int) =~= s);
    assert(numeral::decimal_text(s) == Some((a, 0int)));
    assert(big::power(10, 0) == 1);
    assert(a * big::power(10, 0) == a) by (nonlinear_arith)
        requires
            big::power(10, 0) == 1,
    ;
    if n < 0 {
        assert(digits::signed_decimal(n).skip(1) =~= s);
    }
}

/// Reading the text of a finite number gives the number back, but that zero loses its sign.
pub proof fn law_shown_reads_back(b: u64)
    requires
        num::is_finite(b),
    ensures
        numeral::number_text(shown(b)) == Some(if num::magnitude(b) == 0 {
            0u64
        } else {
            b
        }),
        shown(b).len() > 0,
        forall|i: int|
            0 <= i < shown(b).len() ==> (digits::is_digit(#[trigger] shown(b)[i], 10) || shown(b)[i]
                == '.' || (i == 0 && shown(b)[i] == '-')),
{
    let m = num::magnitude(b);
    let neg = num::is_neg(b);
    big::lemma_power_positive(2, 1074);
    let u = num::unit();
    num::lemma_scaled_small();
    if is_small_whole(m) {
        let w = num::whole(m);
        let t = digits::decimal(w);
        digits::lemma_decimal(w);
        lemma_layout_reads(w, 0);
        assert(layout(w, 0) =~= t);
        assert(w * 1 == w && big::power(10, 0) == 1);
        lemma_no_word(t);
        assert(w * u == num::scaled(m) * 1);
        num::lemma_exact(m, w, 1);
        num::lemma_nearest_is(m, w, 1);
        assert(numeral::magnitude_text(t) == Some(m));
        if m > 0 && w == 0 {
            num::lemma_scaled_grows(0, m);
            assert(0 * u == 0);
        }
        if m == 0 {
            vstd::arithmetic::div_mod::lemma_basic_div(0, u as int);
        }
        if neg && m > 0 {
            assert(shown(b) == seq!['-'] + t);
            assert(shown(b).skip(1) =~= t);
        } else {
            assert(shown(b) == t);
        }
    } else {
        if m == 0 {
            vstd::arithmetic::div_mod::lemma_basic_div(0, u as int);
            assert(0 * u == 0);
            assert(is_small_whole(m));
        }
        lemma_shortest_reads(m);
        let d = shortest_digits(m);
        let p = last_place(m);
        let t = layout(d, p);
        lemma_layout_reads(d, p);
        lemma_no_word(t);
        lemma_units_positive(p);
        num::lemma_nearest_is(m, d * tens_up(p), tens_down(p));
        assert(big::power(10, 0) == 1);
        if p >= 0 {
            assert(d * big::power(10, p as nat) * 1 == d * big::power(10, p as nat));
        } else {
            assert(d * 1 == d);
        }
        assert(numeral::magnitude_text(t) == Some(m));
        if neg {
            assert(shown(b).skip(1) =~= t);
        } else {
            assert(shown(b) =~= t);
        }
        lemma_layout_chars(d, p);
        assert forall|i: int| 0 <= i < shown(b).len() implies (digits::is_digit(
            #[trigger] shown(b)[i],
            10,
        ) || shown(b)[i] == '.' || (i == 0 && shown(b)[i] == '-')) by {
            if neg {
                if i > 0 {
                    assert(shown(b)[i] == t[i - 1]);
                }
            } else {
                assert(shown(b)[i] == t[i]);
            }
        }
    }
}

proof fn lemma_layout_chars(d: nat, p: int)
    ensures
        forall|i: int|
            0 <= i < layout(d, p).len() ==> (digits::is_digit(#[trigger] layout(d, p)[i], 10)
                || layout(d, p)[i] == '.'),
{
    let s = digits::decimal(d);
    let t = layout(d, p);
    digits::lemma_decimal(d);
    assert forall|i: int| 0 <= i < t.len() implies (digits::is_digit(#[trigger] t[i], 10) || t[i]
        == '.') by {
        if p >= 0 {
            if i < s.len() {
                assert(t[i] == s[i]);
            } else {
                assert(t[i] == '0');
            }
        } else if s.len() > -p {
            if i < s.len() + p {
                assert(t[i] == s[i]);
            } else if i > s.len() + p {
                assert(t[i] == s[i - 1]);
            }
        } else {
            let k = -p - s.len();
            if i >= 2 + k {
                assert(t[i] == s[i - 2 - k]);
            } else if i >= 2 {
                assert(t[i] == '0');
            }
        }
    }
}

/// The shortest digits read as the magnitude that they are for.
proof fn lemma_shortest_reads(m: nat)
    requires
        0 < m < INF,
    ensures
        reads_as(m, shortest_digits(m), last_place(m)),
{
    let p = lemma_some_place(m, 401);
    assert(fits(m, p) && forall|q: int| q > p ==> !fits(m, q));
    let lp = last_place(m);
    assert(fits(m, lp));
}

/// Below a place from which on nothing fits there is a highest place that fits.
proof fn lemma_some_place(m: nat, top: int) -> (p: int)
    requires
        0 < m < INF,
        -400 <= top <= 401,
        top == 401 || forall|q: int| q > top ==> !#[trigger] fits(m, q),
    ensures
        fits(m, p),
        forall|q: int| q > p ==> !#[trigger] fits(m, q),
    decreases top + 401,
{
    if top == 401 {
        numeral::lemma_ten_and_two();
        numeral::lemma_scaled_inf();
        num::lemma_scaled_grows(m, INF as nat);
        let a = big::power(10, 400);
        let b = big::power(2, 1024);
        let u = num::unit();
        assert(b * u <= a * u) by (nonlinear_arith)
            requires
                b <= a,
        ;
        assert forall|q: int| q > 400 implies !#[trigger] fits(m, q) by {
            lemma_none_above(m, 400, q);
        }
        lemma_some_place(m, 400)
    } else if fits(m, top) {
        top
    } else {
        if top == -400 {
            lemma_bottom(m);
            lemma_enough(m, top);
        }
        lemma_some_place(m, top - 1)
    }
}

// ------------------------------------------------------------------ shortness

/// Where some number that ends at a place reads as `m`, one of the two next to `m` does: the one on
/// the same side.
proof fn lemma_next_reads(m: nat, f: nat, p: int)
    requires
        0 < m < INF,
        reads_as(m, f, p),
    ensures
        f <= floor_at(m, p) ==> reads_as(m, floor_at(m, p), p),
        f > floor_at(m, p) ==> reads_as(m, floor_at(m, p) + 1, p),
{
    let k = (m - 1) as nat;
    let g = floor_at(m, p);
    let d = num::unit() * tens_up(p);
    let t = tens_down(p);
    let s = num::scaled(m);
    let a = num::scaled(m + 1);
    let b = num::scaled(k);
    lemma_floor_bounds(m, p);
    lemma_units_positive(p);
    lemma_at_most_at(m, f, p);
    lemma_at_most_at(k, f, p);
    num::lemma_scaled_grows(m, m + 1);
    num::lemma_scaled_grows(k, m);
    if f <= g {
        lemma_at_most_at(m, g, p);
        lemma_at_most_at(k, g, p);
        assert(f * d <= g * d) by (nonlinear_arith)
            requires
                f <= g,
        ;
        assert(2 * (s * t) < (s + a) * t) by (nonlinear_arith)
            requires
                s < a,
                t > 0,
        ;
    } else {
        let h = g + 1;
        lemma_at_most_at(m, h, p);
        lemma_at_most_at(k, h, p);
        assert(h * d <= f * d) by (nonlinear_arith)
            requires
                h <= f,
        ;
        assert(2 * (s * t) > (b + s) * t) by (nonlinear_arith)
            requires
                b < s,
                t > 0,
        ;
    }
}

/// The digits that a number is written with are the fewest that read as it: no number that ends at
/// a higher decimal place does.
pub proof fn law_no_fewer_digits(m: nat, f: nat, p: int)
    requires
        0 < m < INF,
        reads_as(m, f, p),
    ensures
        p <= last_place(m),
{
    lemma_next_reads(m, f, p);
    let q = lemma_some_place(m, 401);
    assert(fits(m, q) && forall|r: int| r > q ==> !fits(m, r));
    assert(fits(m, p));
}

/// How far `f` units of the place `p` are from the magnitude `m`.
pub open spec fn off_by(m: nat, f: nat, p: int) -> int {
    let x = f * (num::unit() * tens_up(p)) - num::scaled(m) * tens_down(p);
    if x < 0 {
        -x
    } else {
        x
    }
}

/// Of the numbers that end at the same place and read as it, a number is written as the closest.
pub proof fn law_closest_digits(m: nat, f: nat)
    requires
        0 < m < INF,
        reads_as(m, f, last_place(m)),
    ensures
        off_by(m, shortest_digits(m), last_place(m)) <= off_by(m, f, last_place(m)),
{
    let p = last_place(m);
    let g = floor_at(m, p);
    let d = num::unit() * tens_up(p);
    let v = num::scaled(m) * tens_down(p);
    lemma_next_reads(m, f, p);
    lemma_shortest_reads(m);
    lemma_floor_bounds(m, p);
    lemma_units_positive(p);
    assert((g + 1) * d == g * d + d) by (nonlinear_arith);
    assert((2 * g + 1) * d == 2 * (g * d) + d) by (nonlinear_arith);
    if f <= g {
        assert(f * d <= g * d) by (nonlinear_arith)
            requires
                f <= g,
        ;
    } else {
        assert((g + 1) * d <= f * d) by (nonlinear_arith)
            requires
                g + 1 <= f,
        ;
    }
}

} // verus!
