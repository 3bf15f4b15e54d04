//! Natural numbers of any size: what exact arithmetic on decimal and binary
//! fractions needs.

use vstd::prelude::*;

verus! {

/// `b` to the power `e`.
pub open spec fn power(b: nat, e: nat) -> nat
    decreases e,
{
    if e == 0 {
        1
    } else {
        b * power(b, (e - 1) as nat)
    }
}

pub proof fn lemma_power_positive(b: nat, e: nat)
    requires
        b > 0,
    ensures
        power(b, e) > 0,
    decreases e,
{
    if e > 0 {
        lemma_power_positive(b, (e - 1) as nat);
        assert(b * power(b, (e - 1) as nat) > 0) by (nonlinear_arith)
            requires
                b > 0,
                power(b, (e - 1) as nat) > 0,
        ;
    }
}

pub proof fn lemma_power_adds(b: nat, x: nat, y: nat)
    ensures
        power(b, x + y) == power(b, x) * power(b, y),
    decreases x,
{
    if x == 0 {
        assert(1 * power(b, y) == power(b, y));
    } else {
        lemma_power_adds(b, (x - 1) as nat, y);
        let p = power(b, (x - 1) as nat);
        let q = power(b, y);
        assert(b * (p * q) == (b * p) * q) by (nonlinear_arith);
        assert((x + y - 1) as nat == (x - 1) as nat + y);
    }
}

pub proof fn lemma_power_grows(b: nat, x: nat, y: nat)
    requires
        b > 0,
        x <= y,
    ensures
        power(b, x) <= power(b, y),
{
    lemma_power_adds(b, x, (y - x) as nat);
    lemma_power_positive(b, (y - x) as nat);
    let p = power(b, x);
    let q = power(b, (y - x) as nat);
    assert(p <= p * q) by (nonlinear_arith)
        requires
            q > 0,
    ;
}

pub proof fn lemma_power_of_base(a: nat, b: nat, e: nat)
    requires
        a <= b,
    ensures
        power(a, e) <= power(b, e),
    decreases e,
{
    if e > 0 {
        lemma_power_of_base(a, b, (e - 1) as nat);
        let p = power(a, (e - 1) as nat);
        let q = power(b, (e - 1) as nat);
        assert(a * p <= b * q) by (nonlinear_arith)
            requires
                a <= b,
                p <= q,
        ;
    }
}

pub proof fn lemma_power_of_power(b: nat, x: nat, y: nat)
    ensures
        power(power(b, x), y) == power(b, x * y),
    decreases y,
{
    if y == 0 {
        assert(x * y == 0) by (nonlinear_arith)
            requires
                y == 0,
        ;
    } else {
        lemma_power_of_power(b, x, (y - 1) as nat);
        assert(x * y == x + x * (y - 1)) by (nonlinear_arith);
        lemma_power_adds(b, x, (x * (y - 1)) as nat);
    }
}

pub proof fn lemma_power_2_32()
    ensures
        power(2, 32) == 0x1_0000_0000,
{
    reveal_with_fuel(power, 9);
    assert(power(2, 8) == 256);
    lemma_power_adds(2, 8, 8);
    assert(power(2, 16) == 0x1_0000) by (nonlinear_arith)
        requires
            power(2, 16) == power(2, 8) * power(2, 8),
            power(2, 8) == 256,
    ;
    lemma_power_adds(2, 16, 16);
    assert(power(2, 32) == 0x1_0000_0000) by (nonlinear_arith)
        requires
            power(2, 32) == power(2, 16) * power(2, 16),
            power(2, 16) == 0x1_0000,
    ;
}

pub proof fn lemma_powers_of_two()
    ensures
        power(2, 11) == 0x800,
        power(2, 12) == 0x1000,
        power(2, 52) == 0x10_0000_0000_0000,
        power(2, 53) == 0x20_0000_0000_0000,
        power(2, 63) == 0x8000_0000_0000_0000,
        power(2, 64) == 0x1_0000_0000_0000_0000,
{
    lemma_power_2_32();
    lemma_power_adds(2, 32, 32);
    assert(power(2, 64) == 0x1_0000_0000_0000_0000) by (nonlinear_arith)
        requires
            power(2, 64) == power(2, 32) * power(2, 32),
            power(2, 32) == 0x1_0000_0000,
    ;
    assert(power(2, 64) == 2 * power(2, 63));
    reveal_with_fuel(power, 13);
    assert(power(2, 11) == 0x800);
    assert(power(2, 12) == 0x1000);
    lemma_power_adds(2, 12, 52);
    assert(power(2, 64) == power(2, 12) * power(2, 52));
    assert(power(2, 52) == 0x10_0000_0000_0000);
    assert(power(2, 53) == 2 * power(2, 52));
}

/// The number of values of one limb.
pub open spec fn limb_base() -> nat {
    0x1_0000_0000_0000_0000
}

/// Limb `i`, where limbs beyond the last are zero.
pub open spec fn limb(s: Seq<u64>, i: int) -> nat {
    if 0 <= i < s.len() {
        s[i] as nat
    } else {
        0
    }
}

/// The number that the lowest `n` limbs write, lowest limb first.
pub open spec fn limbs(s: Seq<u64>, n: nat) -> nat
    decreases n,
{
    if n == 0 {
        0
    } else {
        limbs(s, (n - 1) as nat) + limb(s, n - 1) * power(limb_base(), (n - 1) as nat)
    }
}

proof fn lemma_limbs_bound(s: Seq<u64>, n: nat)
    ensures
        limbs(s, n) < power(limb_base(), n),
    decreases n,
{
    if n > 0 {
        lemma_limbs_bound(s, (n - 1) as nat);
        let p = power(limb_base(), (n - 1) as nat);
        let d = limb(s, n - 1);
        assert(d < limb_base());
        assert(d * p + p <= limb_base() * p) by (nonlinear_arith)
            requires
                d + 1 <= limb_base(),
        ;
    }
}

proof fn lemma_limbs_same(s: Seq<u64>, t: Seq<u64>, n: nat)
    requires
        forall|i: int| 0 <= i < n ==> limb(s, i) == limb(t, i),
    ensures
        limbs(s, n) == limbs(t, n),
    decreases n,
{
    if n > 0 {
        lemma_limbs_same(s, t, (n - 1) as nat);
        assert(limb(s, n - 1) == limb(t, n - 1));
    }
}

proof fn lemma_limbs_beyond(s: Seq<u64>, n: nat)
    requires
        n >= s.len(),
    ensures
        limbs(s, n) == limbs(s, s.len()),
    decreases n,
{
    if n > s.len() {
        lemma_limbs_beyond(s, (n - 1) as nat);
        assert(limb(s, n - 1) == 0);
        assert(0 * power(limb_base(), (n - 1) as nat) == 0);
    }
}

/// A natural number of any size.
pub struct Big {
    limbs: Vec<u64>,
}

impl View for Big {
    type V = nat;

    closed spec fn view(&self) -> nat {
        limbs(self.limbs@, self.limbs@.len())
    }
}

impl Big {
    /// The number `x`.
    pub fn of(x: u64) -> (r: Big)
        ensures
            r@ == x,
    {
        let mut v: Vec<u64> = Vec::new();
        v.push(x);
        proof {
            reveal_with_fuel(limbs, 2);
            reveal_with_fuel(power, 2);
            assert(limbs(v@, 1) == x);
        }
        Big { limbs: v }
    }

    /// `self * x + c`.
    pub fn times_plus(&self, x: u64, c: u64) -> (r: Big)
        ensures
            r@ == self@ * x + c,
    {
        let n = self.limbs.len();
        let mut out: Vec<u64> = Vec::new();
        let mut carry: u64 = c;
        let mut i: usize = 0;
        assert(limbs(self.limbs@, 0) == 0 && power(limb_base(), 0) == 1);
        assert(0 * x == 0 && carry * 1 == carry) by (nonlinear_arith);
        while i < n
            invariant
                i <= n == self.limbs@.len(),
                out@.len() == i,
                limbs(out@, i as nat) + carry * power(limb_base(), i as nat) == limbs(
                    self.limbs@,
                    i as nat,
                ) * x + c,
            decreases n - i,
        {
            let l = self.limbs[i];
            assert(l as u128 * x as u128 + carry as u128 <= 0xffff_ffff_ffff_ffff
                * 0x1_0000_0000_0000_0000) by (nonlinear_arith)
                requires
                    l <= 0xffff_ffff_ffff_ffff,
                    x <= 0xffff_ffff_ffff_ffff,
                    carry <= 0xffff_ffff_ffff_ffff,
            ;
            assert(l as u128 * x as u128 >= 0) by (nonlinear_arith);
            let acc: u128 = l as u128 * x as u128 + carry as u128;
            let lo: u64 = (acc % 0x1_0000_0000_0000_0000) as u64;
            let hi: u64 = (acc / 0x1_0000_0000_0000_0000) as u64;
            let ghost before = out@;
            out.push(lo);
            proof {
                let p = power(limb_base(), i as nat);
                let q = power(limb_base(), (i + 1) as nat);
                lemma_limbs_same(before, out@, i as nat);
                assert(limb(out@, i as int) == lo);
                assert(limb(self.limbs@, i as int) == l);
                let a = limbs(self.limbs@, i as nat);
                let b = limbs(before, i as nat);
                assert(q == limb_base() * p);
                assert(acc == hi * limb_base() + lo);
                assert(b + lo * p + hi * q == (a + l * p) * x + c) by (nonlinear_arith)
                    requires
                        q == limb_base() * p,
                        l * x + carry == hi * limb_base() + lo,
                        b + carry * p == a * x + c,
                ;
            }
            carry = hi;
            i = i + 1;
        }
        let ghost before = out@;
        out.push(carry);
        proof {
            lemma_limbs_same(before, out@, n as nat);
            assert(limb(out@, n as int) == carry);
        }
        Big { limbs: out }
    }

    /// `self * x`.
    pub fn times(&self, x: u64) -> (r: Big)
        ensures
            r@ == self@ * x,
    {
        self.times_plus(x, 0)
    }

    /// `self * 2^k`.
    pub fn shifted(&self, k: u64) -> (r: Big)
        ensures
            r@ == self@ * power(2, k as nat),
    {
        let mut out = self.times(1);
        let mut i: u64 = 0;
        assert(self@ * power(2, 0) == self@);
        while i < k
            invariant
                i <= k,
                out@ == self@ * power(2, i as nat),
            decreases k - i,
        {
            if k - i >= 32 {
                let next = out.times(0x1_0000_0000);
                proof {
                    lemma_power_adds(2, i as nat, 32);
                    lemma_power_2_32();
                    let a = self@;
                    let p = power(2, i as nat);
                    assert((a * p) * 0x1_0000_0000 == a * (p * 0x1_0000_0000)) by (nonlinear_arith);
                }
                out = next;
                i = i + 32;
            } else {
                let next = out.times(2);
                proof {
                    let a = self@;
                    let p = power(2, i as nat);
                    assert((a * p) * 2 == a * (2 * p)) by (nonlinear_arith);
                }
                out = next;
                i = i + 1;
            }
        }
        out
    }

    /// `self * 10^k`.
    pub fn tens(&self, k: u128) -> (r: Big)
        ensures
            r@ == self@ * power(10, k as nat),
    {
        let mut out = self.times(1);
        let mut i: u128 = 0;
        assert(self@ * power(10, 0) == self@);
        while i < k
            invariant
                i <= k,
                out@ == self@ * power(10, i as nat),
            decreases k - i,
        {
            let next = out.times(10);
            proof {
                let a = self@;
                let p = power(10, i as nat);
                assert((a * p) * 10 == a * (10 * p)) by (nonlinear_arith);
            }
            out = next;
            i = i + 1;
        }
        out
    }

    /// Whether `self < other`, and whether they are equal.
    pub fn order(&self, other: &Big) -> (r: (bool, bool))
        ensures
            r.0 == (self@ < other@),
            r.1 == (self@ == other@),
    {
        let n = if self.limbs.len() < other.limbs.len() {
            other.limbs.len()
        } else {
            self.limbs.len()
        };
        let mut less = false;
        let mut equal = true;
        let mut i: usize = 0;
        while i < n
            invariant
                i <= n,
                less == (limbs(self.limbs@, i as nat) < limbs(other.limbs@, i as nat)),
                equal == (limbs(self.limbs@, i as nat) == limbs(other.limbs@, i as nat)),
            decreases n - i,
        {
            let a: u64 = if i < self.limbs.len() {
                self.limbs[i]
            } else {
                0
            };
            let b: u64 = if i < other.limbs.len() {
                other.limbs[i]
            } else {
                0
            };
            proof {
                let p = power(limb_base(), i as nat);
                let x = limbs(self.limbs@, i as nat);
                let y = limbs(other.limbs@, i as nat);
                lemma_limbs_bound(self.limbs@, i as nat);
                lemma_limbs_bound(other.limbs@, i as nat);
                assert(limb(self.limbs@, i as int) == a);
                assert(limb(other.limbs@, i as int) == b);
                assert(a < b ==> x + a * p < y + b * p) by (nonlinear_arith)
                    requires
                        x < p,
                ;
                assert(b < a ==> y + b * p < x + a * p) by (nonlinear_arith)
                    requires
                        y < p,
                ;
            }
            if a < b {
                less = true;
                equal = false;
            } else if b < a {
                less = false;
                equal = false;
            }
            i = i + 1;
        }
        proof {
            lemma_limbs_beyond(self.limbs@, n as nat);
            lemma_limbs_beyond(other.limbs@, n as nat);
        }
        (less, equal)
    }

    /// `self - other`.
    pub fn minus(&self, other: &Big) -> (r: Big)
        requires
            other@ <= self@,
        ensures
            r@ == self@ - other@,
    {
        let n = if self.limbs.len() < other.limbs.len() {
            other.limbs.len()
        } else {
            self.limbs.len()
        };
        let mut out: Vec<u64> = Vec::new();
        let mut borrow: u64 = 0;
        let mut i: usize = 0;
        while i < n
            invariant
                i <= n,
                out@.len() == i,
                borrow <= 1,
                limbs(self.limbs@, i as nat) + borrow * power(limb_base(), i as nat) == limbs(
                    out@,
                    i as nat,
                ) + limbs(other.limbs@, i as nat),
            decreases n - i,
        {
            let a: u64 = if i < self.limbs.len() {
                self.limbs[i]
            } else {
                0
            };
            let b: u64 = if i < other.limbs.len() {
                other.limbs[i]
            } else {
                0
            };
            let have: u128 = a as u128 + 0x1_0000_0000_0000_0000 - b as u128 - borrow as u128;
            let lo: u64 = (have % 0x1_0000_0000_0000_0000) as u64;
            let next: u64 = if have < 0x1_0000_0000_0000_0000 {
                1
            } else {
                0
            };
            let ghost before = out@;
            out.push(lo);
            proof {
                let p = power(limb_base(), i as nat);
                let q = power(limb_base(), (i + 1) as nat);
                let x = limbs(self.limbs@, i as nat);
                let y = limbs(other.limbs@, i as nat);
                let z = limbs(before, i as nat);
                lemma_limbs_same(before, out@, i as nat);
                assert(limb(out@, i as int) == lo);
                assert(limb(self.limbs@, i as int) == a);
                assert(limb(other.limbs@, i as int) == b);
                assert(q == limb_base() * p);
                assert(a + next * limb_base() == lo + b + borrow);
                assert(x + a * p + next * q == z + lo * p + y + b * p) by (nonlinear_arith)
                    requires
                        q == limb_base() * p,
                        a + next * limb_base() == lo + b + borrow,
                        x + borrow * p == z + y,
                ;
            }
            borrow = next;
            i = i + 1;
        }
        proof {
            lemma_limbs_beyond(self.limbs@, n as nat);
            lemma_limbs_beyond(other.limbs@, n as nat);
            lemma_limbs_bound(out@, n as nat);
            let p = power(limb_base(), n as nat);
            assert(borrow == 0) by {
                assert(borrow * p == p || borrow * p == 0) by (nonlinear_arith)
                    requires
                        borrow <= 1,
                ;
                if borrow == 1 {
                    assert(1 * p == p);
                }
            }
            assert(0 * p == 0);
        }
        Big { limbs: out }
    }
}

} // verus!
