//! Exchange rates as exact rational numbers.
//!
//! A `Rate` is a fraction of two machine integers. All rate arithmetic in
//! this crate (triangulation, base conversion, amount scaling) is exact
//! rational arithmetic; rounding happens once, at response shaping, through
//! [`Rate::round6`]. Results of division and multiplication are reduced by
//! the greatest common divisor and reported as `None` only when even the
//! reduced fraction cannot be represented.

use vstd::prelude::*;
use vstd::arithmetic::div_mod::{
    lemma_fundamental_div_mod, lemma_fundamental_div_mod_converse_div,
};

verus! {

/// Greatest common divisor, by Euclid's algorithm.
pub open spec fn gcd(a: nat, b: nat) -> nat
    decreases b,
{
    if b == 0 { a } else { gcd(b, a % b) }
}

/// `d` divides `n`.
pub open spec fn divides(d: nat, n: nat) -> bool {
    exists|k: nat| n == #[trigger] (d * k)
}

pub proof fn lemma_gcd_divides(a: nat, b: nat)
    ensures
        divides(gcd(a, b), a),
        divides(gcd(a, b), b),
    decreases b,
{
    if b == 0 {
        assert(a == gcd(a, b) * 1);
        assert(b == gcd(a, b) * 0);
    } else {
        lemma_gcd_divides(b, a % b);
        let g = gcd(b, a % b);
        let k1 = choose|k: nat| b == #[trigger] (g * k);
        let k2 = choose|k: nat| a % b == #[trigger] (g * k);
        lemma_fundamental_div_mod(a as int, b as int);
        assert(a == b * (a as int / b as int) + a % b);
        let q = a as int / b as int;
        assert(q >= 0) by {
            vstd::arithmetic::div_mod::lemma_div_pos_is_pos(a as int, b as int);
        }
        assert(a as int == g * (k1 * q + k2)) by (nonlinear_arith)
            requires
                a == b * q + a % b,
                b == g * k1,
                a % b == g * k2,
        ;
        assert(a == g * ((k1 * q + k2) as nat));
    }
}

pub proof fn lemma_gcd_pos(a: nat, b: nat)
    requires
        a >= 1 || b >= 1,
    ensures
        gcd(a, b) >= 1,
    decreases b,
{
    if b != 0 {
        lemma_gcd_pos(b, a % b);
    }
}

/// Dividing a multiple of `g` by `g` recovers the cofactor.
pub proof fn lemma_div_exact(n: nat, g: nat, k: nat)
    requires
        g >= 1,
        n == g * k,
    ensures
        n / g == k,
{
    assert(n as int == k * g + 0) by (nonlinear_arith)
        requires n == g * k;
    lemma_fundamental_div_mod_converse_div(n as int, g as int, k as int, 0);
}

/// A rate, as the exact fraction `num / den`.
#[derive(Clone, Copy, PartialEq, Eq, Structural, Debug)]
pub struct Rate {
    pub num: u64,
    pub den: u64,
}

/// The two rates denote the same rational value.
pub open spec fn rate_eq(a: Rate, b: Rate) -> bool {
    a.num * b.den == b.num * a.den
}

/// `q` is the exact quotient of `a` over `b`.
pub open spec fn is_quotient(q: Rate, a: Rate, b: Rate) -> bool {
    q.num * (a.den * b.num) == (a.num * b.den) * q.den
}

/// `q` is the exact product of `a` and `b`.
pub open spec fn is_product(q: Rate, a: Rate, b: Rate) -> bool {
    q.num * (a.den * b.den) == (a.num * b.num) * q.den
}

/// Numerator of the reduced form of `p / q`.
pub open spec fn red_num(p: nat, q: nat) -> nat {
    p / gcd(p, q)
}

pub open spec fn red_den(p: nat, q: nat) -> nat {
    q / gcd(p, q)
}

/// The reduced quotient of `a` over `b` fits into a `Rate`.
pub open spec fn div_fits(a: Rate, b: Rate) -> bool {
    red_num((a.num * b.den) as nat, (a.den * b.num) as nat) <= u64::MAX
        && red_den((a.num * b.den) as nat, (a.den * b.num) as nat) <= u64::MAX
}

/// The reduced product of `a` and `b` fits into a `Rate`.
pub open spec fn mul_fits(a: Rate, b: Rate) -> bool {
    red_num((a.num * b.num) as nat, (a.den * b.den) as nat) <= u64::MAX
        && red_den((a.num * b.num) as nat, (a.den * b.den) as nat) <= u64::MAX
}

/// Scaling `r` by `amount` and rounding to six decimal places stays within
/// the representation: the reduced product fits, and so does its rounded
/// numerator. This is exactly the success condition of the response-shaping
/// arithmetic.
pub open spec fn scaled_fits(amount: Rate, r: Rate) -> bool {
    &&& mul_fits(amount, r)
    &&& round6_num(
        red_num((amount.num * r.num) as nat, (amount.den * r.den) as nat) as int,
        red_den((amount.num * r.num) as nat, (amount.den * r.den) as nat) as int,
    ) <= u64::MAX
}

/// `num * 1_000_000 / den`, rounded to the nearest integer, ties away from zero.
pub open spec fn round6_num(num: int, den: int) -> int {
    (2 * num * 1000000 + den) / (2 * den)
}

fn mul_wide(x: u64, y: u64) -> (r: u128)
    ensures
        r == x * y,
{
    proof {
        assert((x as u128) * (y as u128) <= (u64::MAX as u128) * (u64::MAX as u128))
            by (nonlinear_arith)
            requires x <= u64::MAX, y <= u64::MAX;
    }
    (x as u128) * (y as u128)
}

fn gcd_u128(a: u128, b: u128) -> (r: u128)
    ensures
        r as nat == gcd(a as nat, b as nat),
{
    let mut x = a;
    let mut y = b;
    while y != 0
        invariant
            gcd(x as nat, y as nat) == gcd(a as nat, b as nat),
        decreases y,
    {
        let t = x % y;
        x = y;
        y = t;
    }
    x
}

/// Reduce `p / q` by their greatest common divisor and pack the result if it
/// fits. Shared by division and multiplication.
fn reduce(p: u128, q: u128) -> (r: Option<Rate>)
    requires
        q >= 1,
    ensures
        r is Some <==> red_num(p as nat, q as nat) <= u64::MAX
            && red_den(p as nat, q as nat) <= u64::MAX,
        r matches Some(out) ==> {
            &&& out.num as nat == red_num(p as nat, q as nat)
            &&& out.den as nat == red_den(p as nat, q as nat)
            &&& out.den >= 1
            &&& (out.num >= 1 <==> p >= 1)
            &&& out.num * q == p * out.den
        },
{
    let g = gcd_u128(p, q);
    proof {
        lemma_gcd_pos(p as nat, q as nat);
        lemma_gcd_divides(p as nat, q as nat);
        let gn = g as nat;
        let kp = choose|k: nat| p as nat == #[trigger] (gn * k);
        let kq = choose|k: nat| q as nat == #[trigger] (gn * k);
        lemma_div_exact(p as nat, gn, kp);
        lemma_div_exact(q as nat, gn, kq);
        assert(kp * (q as nat) == (p as nat) * kq) by (nonlinear_arith)
            requires p as nat == gn * kp, q as nat == gn * kq;
        assert(kq >= 1) by (nonlinear_arith)
            requires q as nat == gn * kq, q >= 1;
        assert(p >= 1 ==> kp >= 1) by (nonlinear_arith)
            requires p as nat == gn * kp;
        assert(kp >= 1 ==> p >= 1) by (nonlinear_arith)
            requires p as nat == gn * kp, gn >= 1;
    }
    let rn = p / g;
    let rd = q / g;
    if rn <= u64::MAX as u128 && rd <= u64::MAX as u128 {
        Some(Rate { num: rn as u64, den: rd as u64 })
    } else {
        None
    }
}

impl Rate {
    /// The fraction is well formed: a positive denominator (a zero numerator
    /// is allowed; stored quotes are additionally positive).
    pub open spec fn wf(self) -> bool {
        self.den >= 1
    }

    pub open spec fn pos(self) -> bool {
        self.num >= 1 && self.den >= 1
    }

    /// Builds `num / den`; rejects a zero denominator.
    pub fn new(num: u64, den: u64) -> (r: Option<Rate>)
        ensures
            r is Some <==> den >= 1,
            r matches Some(out) ==> out.num == num && out.den == den && out.wf(),
    {
        if den >= 1 {
            Some(Rate { num, den })
        } else {
            None
        }
    }

    /// The rate of one, the quote of a base currency against itself.
    pub fn one() -> (r: Rate)
        ensures
            r.num == 1 && r.den == 1,
    {
        Rate { num: 1, den: 1 }
    }

    /// The exact reciprocal.
    pub fn recip(&self) -> (r: Rate)
        requires
            self.pos(),
        ensures
            r.num == self.den && r.den == self.num,
            r.pos(),
    {
        Rate { num: self.den, den: self.num }
    }

    /// Exact division, reduced; `None` only when the reduced fraction
    /// overflows the representation.
    pub fn checked_div(&self, other: &Rate) -> (r: Option<Rate>)
        requires
            self.wf(),
            other.pos(),
        ensures
            r is Some <==> div_fits(*self, *other),
            r matches Some(q) ==> {
                &&& q.wf()
                &&& is_quotient(q, *self, *other)
                &&& (q.num >= 1 <==> self.num >= 1)
                &&& q.num as nat == red_num(
                    (self.num * other.den) as nat,
                    (self.den * other.num) as nat,
                )
                &&& q.den as nat == red_den(
                    (self.num * other.den) as nat,
                    (self.den * other.num) as nat,
                )
            },
    {
        let p = mul_wide(self.num, other.den);
        let q = mul_wide(self.den, other.num);
        proof {
            assert(self.den * other.num >= 1) by (nonlinear_arith)
                requires self.den >= 1, other.num >= 1;
            assert(self.num * other.den >= 1 <==> self.num >= 1) by (nonlinear_arith)
                requires other.den >= 1;
        }
        reduce(p, q)
    }

    /// Exact multiplication, reduced; `None` only when the reduced fraction
    /// overflows the representation.
    pub fn checked_mul(&self, other: &Rate) -> (r: Option<Rate>)
        requires
            self.wf(),
            other.wf(),
        ensures
            r is Some <==> mul_fits(*self, *other),
            r matches Some(q) ==> {
                &&& q.wf()
                &&& is_product(q, *self, *other)
                &&& q.num as nat == red_num(
                    (self.num * other.num) as nat,
                    (self.den * other.den) as nat,
                )
                &&& q.den as nat == red_den(
                    (self.num * other.num) as nat,
                    (self.den * other.den) as nat,
                )
            },
    {
        let p = mul_wide(self.num, other.num);
        let q = mul_wide(self.den, other.den);
        proof {
            assert(self.den * other.den >= 1) by (nonlinear_arith)
                requires self.den >= 1, other.den >= 1;
        }
        reduce(p, q)
    }

    /// Rounds to six decimal places, ties away from zero: the final
    /// response-shaping step, never applied before conversion arithmetic.
    pub fn round6(&self) -> (r: Option<Rate>)
        requires
            self.wf(),
        ensures
            r is Some <==> round6_num(self.num as int, self.den as int) <= u64::MAX,
            r matches Some(out) ==> {
                &&& out.den == 1000000
                &&& out.num as int == round6_num(self.num as int, self.den as int)
                &&& out.wf()
            },
    {
        let scaled = mul_wide(self.num, 1000000);
        proof {
            assert(2 * ((self.num * 1000000) as u128) + (self.den as u128) <= u128::MAX)
                by (nonlinear_arith)
                requires self.num <= u64::MAX, self.den <= u64::MAX;
            assert(2 * (self.den as u128) >= 1);
        }
        let top: u128 = 2 * scaled + self.den as u128;
        let bottom: u128 = 2 * self.den as u128;
        let q = top / bottom;
        proof {
            assert(q as int == round6_num(self.num as int, self.den as int));
            assert(q as int >= 0);
        }
        if q <= u64::MAX as u128 {
            Some(Rate { num: q as u64, den: 1000000 })
        } else {
            None
        }
    }
}

/// Rounding to six decimal places depends on the fraction's value alone,
/// not on the representation.
pub proof fn lemma_round6_value(n1: int, d1: int, n2: int, d2: int)
    requires
        d1 >= 1,
        d2 >= 1,
        n1 >= 0,
        n2 >= 0,
        n1 * d2 == n2 * d1,
    ensures
        round6_num(n1, d1) == round6_num(n2, d2),
{
    let q = round6_num(n1, d1);
    let a1 = 2 * n1 * 1000000 + d1;
    lemma_fundamental_div_mod(a1, 2 * d1);
    let r = a1 % (2 * d1);
    assert(a1 == (2 * d1) * q + r);
    assert(0 <= r < 2 * d1) by {
        vstd::arithmetic::div_mod::lemma_mod_division_less_than_divisor(a1, 2 * d1);
    }
    let a2 = 2 * n2 * 1000000 + d2;
    // Scale the division identity across the equal fractions.
    let t = a2 - (2 * d2) * q;
    assert(t * d1 == r * d2) by (nonlinear_arith)
        requires
            a1 == (2 * d1) * q + r,
            n1 * d2 == n2 * d1,
            a1 == 2 * n1 * 1000000 + d1,
            a2 == 2 * n2 * 1000000 + d2,
            t == a2 - (2 * d2) * q,
    ;
    assert(0 <= t < 2 * d2) by (nonlinear_arith)
        requires
            t * d1 == r * d2,
            0 <= r < 2 * d1,
            d1 >= 1,
            d2 >= 1,
    ;
    assert(a2 == q * (2 * d2) + t) by (nonlinear_arith)
        requires t == a2 - (2 * d2) * q;
    lemma_fundamental_div_mod_converse_div(a2, 2 * d2, q, t);
}

} // verus!
