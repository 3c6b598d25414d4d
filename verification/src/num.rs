//! Exact rational numbers: the numeric domain of the calculator.
//!
//! A `Num` is a fraction of two machine integers with a positive denominator,
//! kept in lowest terms by construction. Every arithmetic operation computes
//! the exact rational result and fails with `NumericOverflow` when that
//! result, in lowest terms, does not fit the representation.

use vstd::arithmetic::div_mod::{
    lemma_fundamental_div_mod, lemma_fundamental_div_mod_converse,
};
use vstd::arithmetic::power::pow;
use vstd::prelude::*;

use crate::error::Error;

verus! {

/// The ghost mirror of `Num`: a fraction of unbounded integers.
pub struct NumM {
    pub n: int,
    pub d: int,
}

impl NumM {
    /// A well-formed fraction has a positive denominator.
    pub open spec fn wf(self) -> bool {
        self.d >= 1
    }

    /// Two fractions denote the same rational number.
    pub open spec fn same(self, other: NumM) -> bool {
        self.n * other.d == other.n * self.d
    }

    /// `self` denotes the rational `n / d`.
    pub open spec fn is_ratio(self, n: int, d: int) -> bool {
        self.n * d == n * self.d
    }

    pub open spec fn from_int(n: int) -> NumM {
        NumM { n, d: 1 }
    }
}

/// The greatest common divisor, by Euclid's recursion.
pub open spec fn gcd(a: nat, b: nat) -> nat
    decreases b,
{
    if b == 0 {
        a
    } else {
        gcd(b, a % b)
    }
}

/// `d` divides `x` exactly.
pub open spec fn divides(d: nat, x: nat) -> bool {
    d != 0 && x % d == 0
}

/// The gcd of `a` and a positive `b` is positive and divides both.
pub proof fn lemma_gcd_divides(a: nat, b: nat)
    requires
        b > 0,
    ensures
        gcd(a, b) > 0,
        divides(gcd(a, b), a),
        divides(gcd(a, b), b),
    decreases b,
{
    let r = a % b;
    if r == 0 {
        assert(gcd(a, b) == gcd(b, 0)) by {
            assert(b % b == 0) by {
                lemma_fundamental_div_mod_converse(b as int, b as int, 1, 0);
            }
        }
        assert(gcd(b, 0) == b);
        assert(a % b == 0);
    } else {
        lemma_gcd_divides(b, r);
        let g = gcd(b, r);
        assert(gcd(a, b) == g);
        // a == b * (a / b) + r, b == g * (b / g), r == g * (r / g),
        // hence a == g * ((a / b) * (b / g) + r / g).
        lemma_fundamental_div_mod(a as int, b as int);
        lemma_fundamental_div_mod(b as int, g as int);
        lemma_fundamental_div_mod(r as int, g as int);
        let q = a as int / b as int;
        let bq = b as int / g as int;
        let rq = r as int / g as int;
        assert(a as int == g as int * (q * bq + rq)) by (nonlinear_arith)
            requires
                a as int == b as int * q + r,
                b as int == g as int * bq + 0,
                r as int == g as int * rq + 0,
        {}
        assert(a % g == 0) by {
            lemma_fundamental_div_mod_converse(
                a as int,
                g as int,
                q * bq + rq,
                0,
            );
        }
    }
}

/// The magnitude of an integer, as a natural number.
pub open spec fn iabs(x: int) -> nat {
    if x >= 0 {
        x as nat
    } else {
        (-x) as nat
    }
}

/// The canonical form of `s / d` (for `d >= 1`): both parts divided by
/// their greatest common divisor, the sign carried by the numerator.
pub open spec fn norm_num(s: int, d: int) -> int {
    let g = gcd(iabs(s), iabs(d)) as int;
    if s >= 0 {
        iabs(s) as int / g
    } else {
        -(iabs(s) as int / g)
    }
}

pub open spec fn norm_den(s: int, d: int) -> int {
    let g = gcd(iabs(s), iabs(d)) as int;
    d / g
}

/// Whether the canonical form of `s / d` fits the machine representation.
pub open spec fn norm_fits(s: int, d: int) -> bool {
    iabs(norm_num(s, d)) <= i64::MAX as int && norm_den(s, d) <= i64::MAX as int
}

/// Euclid's algorithm on machine words.
fn gcd_u128(a: u128, b: u128) -> (r: u128)
    ensures
        r as nat == gcd(a as nat, b as nat),
    decreases b,
{
    if b == 0 {
        a
    } else {
        gcd_u128(b, a % b)
    }
}

/// Dividing a positive number by a divisor of it keeps it positive.
proof fn lemma_div_exact_pos(d: int, g: int)
    by (nonlinear_arith)
    requires
        d >= 1,
        g >= 1,
        d % g == 0,
    ensures
        d / g >= 1,
        (d / g) * g == d,
        d / g <= d,
{
}

/// The magnitude of an exact quotient is bounded by the dividend's.
proof fn lemma_div_le(s: int, g: int)
    by (nonlinear_arith)
    requires
        s >= 0,
        g >= 1,
    ensures
        0 <= s / g <= s,
{
}

/// A whole number over one is already canonical.
pub proof fn lemma_norm_int(v: int)
    requires
        v >= 0,
    ensures
        norm_num(v, 1) == v,
        norm_den(v, 1) == 1,
        norm_fits(v, 1) <==> v <= i64::MAX as int,
{
    reveal_with_fuel(gcd, 3);
    assert(iabs(v) == v);
    assert(iabs(1) == 1);
    if v == 0 {
        assert(gcd(0, 1) == gcd(1, 0nat % 1nat));
        assert(0nat % 1nat == 0nat) by {
            vstd::arithmetic::div_mod::lemma_mod_self_0(1);
            vstd::arithmetic::div_mod::lemma_small_mod(0, 1);
        }
        assert(gcd(1, 0) == 1);
    } else {
        assert(v as nat % 1nat == 0nat) by {
            lemma_fundamental_div_mod_converse(v, 1, v, 0);
        }
        assert(gcd(v as nat, 1) == gcd(1, v as nat % 1nat));
        assert(gcd(1, 0) == 1);
    }
    assert(v / 1int == v) by {
        vstd::arithmetic::div_mod::lemma_div_by_self(1);
        lemma_fundamental_div_mod_converse(v, 1, v, 0);
    }
    assert(1int / 1int == 1) by {
        vstd::arithmetic::div_mod::lemma_div_by_self(1);
    }
}

/// The canonical form of `s / d` denotes the same rational as `s / d`.
pub proof fn lemma_norm_ratio(s: int, d: int)
    requires
        d >= 1,
    ensures
        norm_den(s, d) >= 1,
        norm_num(s, d) * d == s * norm_den(s, d),
        iabs(norm_num(s, d)) <= iabs(s),
        norm_den(s, d) <= d,
        s == 0 ==> norm_num(s, d) == 0,
    decreases d,
{
    let us = iabs(s) as int;
    let g = gcd(iabs(s), d as nat) as int;
    lemma_gcd_divides(iabs(s), d as nat);
    lemma_div_exact_pos(d, g);
    if s == 0 {
        assert(us / g == 0) by {
            assert(us == 0);
            vstd::arithmetic::div_mod::lemma_div_of0(g);
        }
    } else {
        lemma_fundamental_div_mod(us, g);
        lemma_fundamental_div_mod(d as int, g);
        let sq = us / g;
        let dq = d / g;
        lemma_div_le(us, g);
        assert((us / g) * d == us * (d / g)) by (nonlinear_arith)
            requires
                us == g * sq + 0,
                d == g * dq + 0,
                sq == us / g,
                dq == d / g,
        {}
        if s < 0 {
            assert((-(us / g)) * d == (-us) * (d / g)) by (nonlinear_arith)
                requires
                    (us / g) * d == us * (d / g),
            {}
        }
    }
    assert(norm_den(s, d) == d / g);
    if s >= 0 {
        assert(norm_num(s, d) == us / g);
    } else {
        assert(norm_num(s, d) == -(us / g));
        assert(s == -us);
        assert(norm_num(s, d) * d == s * norm_den(s, d));
    }
}

/// Builds the canonical rational for `s / d`, or reports that it does not
/// fit. The denominator must be positive and both inputs strictly inside the
/// wide machine range.
fn norm_make(s: i128, d: i128) -> (r: Result<Num, Error>)
    requires
        1 <= d,
        s > i128::MIN,
    ensures
        norm_result(r, s as int, d as int),
{
    proof {
        lemma_norm_ratio(s as int, d as int);
    }
    let neg = s < 0;
    let us: u128 = if neg {
        (-s) as u128
    } else {
        s as u128
    };
    let ud: u128 = d as u128;
    proof {
        assert(us as nat == iabs(s as int));
        assert(ud as nat == iabs(d as int));
    }
    let g = gcd_u128(us, ud);
    proof {
        lemma_gcd_divides(us as nat, ud as nat);
        lemma_div_exact_pos(ud as int, g as int);
        if us > 0 {
            lemma_div_exact_pos(us as int, g as int);
        } else {
            vstd::arithmetic::div_mod::lemma_div_of0(g as int);
        }
    }
    let qn = us / g;
    let qd = ud / g;
    if qn <= i64::MAX as u128 && qd <= i64::MAX as u128 {
        let num: i64 = if neg {
            -(qn as i64)
        } else {
            qn as i64
        };
        Ok(Num { num, den: qd as i64 })
    } else {
        Err(Error::NumericOverflow)
    }
}

/// The exact numerator and denominator of a sum of fractions.
pub open spec fn sum_n(a: NumM, b: NumM) -> int {
    a.n * b.d + b.n * a.d
}

pub open spec fn sum_d(a: NumM, b: NumM) -> int {
    a.d * b.d
}

/// The exact numerator and denominator of a difference of fractions.
pub open spec fn diff_n(a: NumM, b: NumM) -> int {
    a.n * b.d - b.n * a.d
}

/// The exact numerator and denominator of a product of fractions.
pub open spec fn prod_n(a: NumM, b: NumM) -> int {
    a.n * b.n
}

pub open spec fn prod_d(a: NumM, b: NumM) -> int {
    a.d * b.d
}

/// The exact numerator and denominator of a quotient of fractions, with the
/// sign carried by the numerator.
pub open spec fn quot_n(a: NumM, b: NumM) -> int {
    if b.n < 0 {
        -(a.n * b.d)
    } else {
        a.n * b.d
    }
}

pub open spec fn quot_d(a: NumM, b: NumM) -> int {
    if b.n < 0 {
        -(a.d * b.n)
    } else {
        a.d * b.n
    }
}

/// What a normalizing operation returns: the canonical form of `s / d` when
/// it fits, and `NumericOverflow` exactly when it does not.
pub open spec fn norm_result(r: Result<Num, Error>, s: int, d: int) -> bool {
    &&& (r is Ok <==> norm_fits(s, d))
    &&& (r matches Ok(q) ==> q.deep_view().n == norm_num(s, d) && q.deep_view().d == norm_den(
        s,
        d,
    ) && q.deep_view().wf() && q.deep_view().is_ratio(s, d))
    &&& (r matches Err(e) ==> e == Error::NumericOverflow)
}

/// An exact rational number: `num / den` with `den >= 1`.
#[derive(Clone, Copy, Debug, PartialEq, Eq, Hash)]
pub struct Num {
    num: i64,
    den: i64,
}

impl DeepView for Num {
    type V = NumM;

    closed spec fn deep_view(&self) -> NumM {
        NumM { n: self.num as int, d: self.den as int }
    }
}

#[verifier::type_invariant]
pub open spec fn num_inv(q: Num) -> bool {
    q.deep_view().wf()
}

impl Num {
    /// The numerator, for hosts that print or convert values.
    pub fn numerator(&self) -> (r: i64)
        ensures
            r as int == self.deep_view().n,
    {
        self.num
    }

    /// The denominator; always at least one.
    pub fn denominator(&self) -> (r: i64)
        ensures
            r as int == self.deep_view().d,
            r >= 1,
    {
        proof {
            use_type_invariant(self);
        }
        self.den
    }

    /// The whole number `n`.
    pub fn from_int(n: i64) -> (r: Num)
        ensures
            r.deep_view() == NumM::from_int(n as int),
    {
        Num { num: n, den: 1 }
    }

    /// True exactly when the value is zero.
    pub fn is_zero(&self) -> (r: bool)
        ensures
            r == (self.deep_view().n == 0),
    {
        self.num == 0
    }

    /// The fraction `num / den` in canonical form. Fails with
    /// `DivisionByZero` when `den` is zero and with `NumericOverflow` when
    /// the canonical form does not fit.
    pub fn new(num: i64, den: i64) -> (r: Result<Num, Error>)
        ensures
            den == 0 ==> r == Err::<Num, Error>(Error::DivisionByZero),
            den > 0 ==> norm_result(r, num as int, den as int),
            den < 0 ==> norm_result(r, -(num as int), -(den as int)),
    {
        if den == 0 {
            Err(Error::DivisionByZero)
        } else if den > 0 {
            norm_make(num as i128, den as i128)
        } else {
            norm_make(-(num as i128), -(den as i128))
        }
    }

    /// The constant one half, the exponent of a square root.
    pub fn half() -> (r: Num)
        ensures
            r.deep_view() == (NumM { n: 1, d: 2 }),
    {
        Num { num: 1, den: 2 }
    }

    /// The constant ten, the default logarithm base.
    pub fn ten() -> (r: Num)
        ensures
            r.deep_view() == (NumM { n: 10, d: 1 }),
    {
        Num { num: 10, den: 1 }
    }

    /// The constant one.
    pub fn one() -> (r: Num)
        ensures
            r.deep_view() == (NumM { n: 1, d: 1 }),
    {
        Num { num: 1, den: 1 }
    }

    /// The ratio of circumference to diameter, to the precision the
    /// representation affords.
    pub fn pi() -> (r: Num)
        ensures
            r.deep_view().n == 3141592653589793int,
            r.deep_view().d == 1000000000000000int,
    {
        Num { num: 3141592653589793, den: 1000000000000000 }
    }

    /// Euler's number, to the precision the representation affords.
    pub fn e() -> (r: Num)
        ensures
            r.deep_view().n == 2718281828459045int,
            r.deep_view().d == 1000000000000000int,
    {
        Num { num: 2718281828459045, den: 1000000000000000 }
    }

    /// The exact sum.
    pub fn checked_add(&self, other: &Num) -> (r: Result<Num, Error>)
        ensures
            norm_result(
                r,
                sum_n(self.deep_view(), other.deep_view()),
                sum_d(self.deep_view(), other.deep_view()),
            ),
    {
        proof {
            use_type_invariant(self);
            use_type_invariant(other);
        }
        let an = self.num as i128;
        let ad = self.den as i128;
        let bn = other.num as i128;
        let bd = other.den as i128;
        proof {
            lemma_cross_bounds(an as int, ad as int, bn as int, bd as int);
        }
        norm_make(an * bd + bn * ad, ad * bd)
    }

    /// The exact difference.
    pub fn checked_sub(&self, other: &Num) -> (r: Result<Num, Error>)
        ensures
            norm_result(
                r,
                diff_n(self.deep_view(), other.deep_view()),
                sum_d(self.deep_view(), other.deep_view()),
            ),
    {
        proof {
            use_type_invariant(self);
            use_type_invariant(other);
        }
        let an = self.num as i128;
        let ad = self.den as i128;
        let bn = other.num as i128;
        let bd = other.den as i128;
        proof {
            lemma_cross_bounds(an as int, ad as int, bn as int, bd as int);
        }
        norm_make(an * bd - bn * ad, ad * bd)
    }

    /// The exact product.
    pub fn checked_mul(&self, other: &Num) -> (r: Result<Num, Error>)
        ensures
            norm_result(
                r,
                prod_n(self.deep_view(), other.deep_view()),
                prod_d(self.deep_view(), other.deep_view()),
            ),
    {
        proof {
            use_type_invariant(self);
            use_type_invariant(other);
        }
        let an = self.num as i128;
        let ad = self.den as i128;
        let bn = other.num as i128;
        let bd = other.den as i128;
        proof {
            lemma_cross_bounds(an as int, ad as int, bn as int, bd as int);
        }
        norm_make(an * bn, ad * bd)
    }

    /// The exact quotient. Fails with `DivisionByZero` exactly when the
    /// divisor is zero.
    pub fn checked_div(&self, other: &Num) -> (r: Result<Num, Error>)
        ensures
            other.deep_view().n == 0 ==> r == Err::<Num, Error>(Error::DivisionByZero),
            other.deep_view().n != 0 ==> norm_result(
                r,
                quot_n(self.deep_view(), other.deep_view()),
                quot_d(self.deep_view(), other.deep_view()),
            ),
    {
        proof {
            use_type_invariant(self);
            use_type_invariant(other);
        }
        if other.num == 0 {
            return Err(Error::DivisionByZero);
        }
        let an = self.num as i128;
        let ad = self.den as i128;
        let bn = other.num as i128;
        let bd = other.den as i128;
        proof {
            lemma_cross_bounds(an as int, ad as int, bn as int, bd as int);
        }
        if bn < 0 {
            norm_make(-(an * bd), -(ad * bn))
        } else {
            norm_make(an * bd, ad * bn)
        }
    }

    /// Exactly the same rational number.
    pub fn eq_num(&self, other: &Num) -> (r: bool)
        ensures
            r == self.deep_view().same(other.deep_view()),
    {
        proof {
            use_type_invariant(self);
            use_type_invariant(other);
        }
        let an = self.num as i128;
        let ad = self.den as i128;
        let bn = other.num as i128;
        let bd = other.den as i128;
        proof {
            lemma_cross_bounds(an as int, ad as int, bn as int, bd as int);
        }
        an * bd == bn * ad
    }

    /// Strictly below `other` in the rational order.
    pub fn lt_num(&self, other: &Num) -> (r: bool)
        ensures
            r == num_lt(self.deep_view(), other.deep_view()),
    {
        proof {
            use_type_invariant(self);
            use_type_invariant(other);
        }
        let an = self.num as i128;
        let ad = self.den as i128;
        let bn = other.num as i128;
        let bd = other.den as i128;
        proof {
            lemma_cross_bounds(an as int, ad as int, bn as int, bd as int);
        }
        an * bd < bn * ad
    }

    /// At or below `other` in the rational order.
    pub fn le_num(&self, other: &Num) -> (r: bool)
        ensures
            r == num_le(self.deep_view(), other.deep_view()),
    {
        proof {
            use_type_invariant(self);
            use_type_invariant(other);
        }
        let an = self.num as i128;
        let ad = self.den as i128;
        let bn = other.num as i128;
        let bd = other.den as i128;
        proof {
            lemma_cross_bounds(an as int, ad as int, bn as int, bd as int);
        }
        an * bd <= bn * ad
    }
}

/// The quotient of integers truncated toward zero, as native machine
/// division computes it.
pub open spec fn tdiv(p: int, q: int) -> int {
    let m = (iabs(p) / iabs(q)) as int;
    if (p < 0) == (q < 0) {
        m
    } else {
        -m
    }
}

/// The remainder that pairs with the truncated quotient:
/// `p - tdiv(p, q) * q`; it carries the sign of `p`.
pub open spec fn trem(p: int, q: int) -> int {
    p - tdiv(p, q) * q
}

/// The truncated remainder equals the signed natural remainder.
proof fn lemma_trem_abs(p: int, q: int)
    requires
        q != 0,
    ensures
        p >= 0 ==> trem(p, q) == (iabs(p) % iabs(q)) as int,
        p < 0 ==> trem(p, q) == -((iabs(p) % iabs(q)) as int),
{
    let up = iabs(p) as int;
    let uq = iabs(q) as int;
    lemma_fundamental_div_mod(up, uq);
    let m = up / uq;
    let rr = up % uq;
    if p >= 0 {
        if q > 0 {
            assert(p - m * q == rr) by (nonlinear_arith)
                requires
                    up == uq * m + rr,
                    p == up,
                    q == uq,
            {}
        } else {
            assert(p - (-m) * q == rr) by (nonlinear_arith)
                requires
                    up == uq * m + rr,
                    p == up,
                    q == -uq,
            {}
        }
    } else {
        if q > 0 {
            assert(p - (-m) * q == -rr) by (nonlinear_arith)
                requires
                    up == uq * m + rr,
                    p == -up,
                    q == uq,
            {}
        } else {
            assert(p - m * q == -rr) by (nonlinear_arith)
                requires
                    up == uq * m + rr,
                    p == -up,
                    q == -uq,
            {}
        }
    }
}

impl Num {
    /// The exact remainder of truncating division, as the native remainder
    /// of machine numbers behaves: `a - trunc(a / b) * b`. Fails with
    /// `DivisionByZero` exactly when the divisor is zero.
    pub fn checked_rem(&self, other: &Num) -> (r: Result<Num, Error>)
        ensures
            other.deep_view().n == 0 ==> r == Err::<Num, Error>(Error::DivisionByZero),
            other.deep_view().n != 0 ==> norm_result(
                r,
                trem(
                    self.deep_view().n * other.deep_view().d,
                    self.deep_view().d * other.deep_view().n,
                ),
                sum_d(self.deep_view(), other.deep_view()),
            ),
    {
        proof {
            use_type_invariant(self);
            use_type_invariant(other);
        }
        if other.num == 0 {
            return Err(Error::DivisionByZero);
        }
        let an = self.num as i128;
        let ad = self.den as i128;
        let bn = other.num as i128;
        let bd = other.den as i128;
        proof {
            lemma_cross_bounds(an as int, ad as int, bn as int, bd as int);
        }
        let p = an * bd;
        let q0 = ad * bn;
        let up: u128 = if p < 0 {
            (-p) as u128
        } else {
            p as u128
        };
        let uq: u128 = if q0 < 0 {
            (-q0) as u128
        } else {
            q0 as u128
        };
        let rm = up % uq;
        proof {
            lemma_trem_abs(p as int, q0 as int);
            assert(up as nat == iabs(p as int));
            assert(uq as nat == iabs(q0 as int));
        }
        let s: i128 = if p < 0 {
            -(rm as i128)
        } else {
            rm as i128
        };
        norm_make(s, ad * bd)
    }
}

/// The magnitude of a product is the product of the magnitudes.
proof fn lemma_iabs_mul(x: int, y: int)
    ensures
        iabs(x * y) == iabs(x) * iabs(y),
{
    if x >= 0 && y >= 0 {
        assert(x * y >= 0 && x * y == (x) * (y)) by (nonlinear_arith)
            requires
                x >= 0 && y >= 0,
        {}
    } else if x >= 0 && y < 0 {
        assert(x * y <= 0 && -(x * y) == x * (-y)) by (nonlinear_arith)
            requires
                x >= 0 && y < 0,
        {}
    } else if x < 0 && y >= 0 {
        assert(x * y <= 0 && -(x * y) == (-x) * y) by (nonlinear_arith)
            requires
                x < 0 && y >= 0,
        {}
    } else {
        assert(x * y >= 0 && x * y == (-x) * (-y)) by (nonlinear_arith)
            requires
                x < 0 && y < 0,
        {}
    }
}

/// A power of a nonnegative base is nonnegative.
proof fn lemma_pow_nonneg(b: int, e: nat)
    requires
        b >= 0,
    ensures
        pow(b, e) >= 0,
    decreases e,
{
    reveal(pow);
    if e > 0 {
        lemma_pow_nonneg(b, (e - 1) as nat);
        assert(b * pow(b, (e - 1) as nat) >= 0) by (nonlinear_arith)
            requires
                b >= 0,
                pow(b, (e - 1) as nat) >= 0,
        {}
    }
}

/// Powers are monotone in a nonnegative base.
proof fn lemma_pow_base_le(x: int, y: int, e: nat)
    requires
        0 <= x <= y,
    ensures
        pow(x, e) <= pow(y, e),
    decreases e,
{
    reveal(pow);
    if e > 0 {
        lemma_pow_base_le(x, y, (e - 1) as nat);
        lemma_pow_nonneg(x, (e - 1) as nat);
        lemma_pow_nonneg(y, (e - 1) as nat);
        assert(x * pow(x, (e - 1) as nat) <= y * pow(y, (e - 1) as nat)) by (nonlinear_arith)
            requires
                0 <= x <= y,
                0 <= pow(x, (e - 1) as nat) <= pow(y, (e - 1) as nat),
        {}
    }
}

/// Powers are strictly monotone in a nonnegative base once the exponent is
/// positive.
proof fn lemma_pow_base_lt(x: int, y: int, e: nat)
    requires
        0 <= x < y,
        e >= 1,
    ensures
        pow(x, e) < pow(y, e),
    decreases e,
{
    reveal(pow);
    if e == 1 {
        assert(pow(x, 1) == x * pow(x, 0));
        assert(pow(y, 1) == y * pow(y, 0));
    } else {
        lemma_pow_base_lt(x, y, (e - 1) as nat);
        lemma_pow_nonneg(x, (e - 1) as nat);
        assert(x * pow(x, (e - 1) as nat) < y * pow(y, (e - 1) as nat)) by (nonlinear_arith)
            requires
                0 <= x < y,
                0 <= pow(x, (e - 1) as nat) < pow(y, (e - 1) as nat),
        {}
    }
}

/// For a base of at least one, a power of positive exponent is at least the
/// base itself.
proof fn lemma_pow_at_least_base(b: int, e: nat)
    requires
        b >= 1,
        e >= 1,
    ensures
        pow(b, e) >= b,
    decreases e,
{
    reveal(pow);
    if e == 1 {
        assert(pow(b, 1) == b * pow(b, 0));
    } else {
        lemma_pow_at_least_base(b, (e - 1) as nat);
        assert(b * pow(b, (e - 1) as nat) >= b) by (nonlinear_arith)
            requires
                b >= 1,
                pow(b, (e - 1) as nat) >= b >= 1,
        {}
    }
}

/// The magnitude of a power is the power of the magnitude.
proof fn lemma_iabs_pow(b: int, e: nat)
    ensures
        iabs(pow(b, e)) == pow(iabs(b) as int, e),
    decreases e,
{
    reveal(pow);
    if e > 0 {
        lemma_iabs_pow(b, (e - 1) as nat);
        lemma_iabs_mul(b, pow(b, (e - 1) as nat));
    }
}

/// Odd powers carry the sign of the base through; even powers drop it.
proof fn lemma_pow_neg(b: int, e: nat)
    ensures
        e % 2 == 0 ==> pow(-b, e) == pow(b, e),
        e % 2 == 1 ==> pow(-b, e) == -pow(b, e),
    decreases e,
{
    reveal(pow);
    if e > 0 {
        lemma_pow_neg(b, (e - 1) as nat);
        if (e - 1) % 2 == 0 {
            assert((-b) * pow(b, (e - 1) as nat) == -(b * pow(b, (e - 1) as nat)))
                by (nonlinear_arith);
        } else {
            assert((-b) * (-pow(b, (e - 1) as nat)) == b * pow(b, (e - 1) as nat))
                by (nonlinear_arith);
        }
    }
}

/// Magnitudes of powers are monotone in the exponent.
proof fn lemma_pow_abs_mono(b: int, e1: nat, e2: nat)
    requires
        1 <= e1 <= e2,
    ensures
        iabs(pow(b, e1)) <= iabs(pow(b, e2)),
{
    lemma_iabs_pow(b, e1);
    lemma_iabs_pow(b, e2);
    let ub = iabs(b) as int;
    if ub == 0 {
        vstd::arithmetic::power::lemma0_pow(e1);
        vstd::arithmetic::power::lemma0_pow(e2);
    } else {
        vstd::arithmetic::power::lemma_pow_increases(ub as nat, e1, e2);
    }
}

/// Composing a known ratio with one exact multiplication step.
proof fn lemma_ratio_mul(
    accn: int,
    accd: int,
    xn: int,
    xd: int,
    bn: int,
    bd: int,
    rn: int,
    rd: int,
)
    requires
        accn * bd == bn * accd,
        rn * (accd * xd) == (accn * xn) * rd,
        accd >= 1,
        xd >= 1,
    ensures
        rn * (bd * xd) == (bn * xn) * rd,
{
    assert((rn * (bd * xd)) * accd == (rn * (accd * xd)) * bd) by (nonlinear_arith);
    assert((rn * (accd * xd)) * bd == ((accn * xn) * rd) * bd);
    assert(((accn * xn) * rd) * bd == (accn * bd) * (xn * rd)) by (nonlinear_arith);
    assert((accn * bd) * (xn * rd) == (bn * accd) * (xn * rd));
    assert((bn * accd) * (xn * rd) == ((bn * xn) * rd) * accd) by (nonlinear_arith);
    assert(rn * (bd * xd) == (bn * xn) * rd) by (nonlinear_arith)
        requires
            (rn * (bd * xd)) * accd == ((bn * xn) * rd) * accd,
            accd >= 1,
    {}
}

impl Num {
    /// The exact power with a nonnegative machine-word exponent. Succeeds
    /// whenever the exact power, componentwise, fits the representation.
    pub fn pow_nonneg(&self, e: u64) -> (r: Result<Num, Error>)
        ensures
            num_res_view(r) == s_ipow(self.deep_view(), e as nat),
            r matches Ok(q) ==> q.deep_view().wf() && q.deep_view().is_ratio(
                pow(self.deep_view().n, e as nat),
                pow(self.deep_view().d, e as nat),
            ),
            r matches Err(err) ==> err == Error::NumericOverflow,
            (iabs(pow(self.deep_view().n, e as nat)) <= i64::MAX as int && pow(
                self.deep_view().d,
                e as nat,
            ) <= i64::MAX as int) ==> r is Ok,
    {
        proof {
            use_type_invariant(self);
        }
        let ghost an = self.deep_view().n;
        let ghost ad = self.deep_view().d;
        let mut acc = Num::from_int(1);
        let mut i: u64 = 0;
        let ghost fits = iabs(pow(an, e as nat)) <= i64::MAX as int && pow(ad, e as nat)
            <= i64::MAX as int;
        proof {
            reveal(pow);
        }
        while i < e
            invariant
                i <= e,
                an == self.deep_view().n,
                ad == self.deep_view().d,
                ad >= 1,
                -(i64::MAX as int + 1) <= an <= i64::MAX as int,
                fits == (iabs(pow(an, e as nat)) <= i64::MAX as int && pow(ad, e as nat)
                    <= i64::MAX as int),
                acc.deep_view().wf(),
                acc.deep_view().is_ratio(pow(an, i as nat), pow(ad, i as nat)),
                iabs(acc.deep_view().n) <= iabs(pow(an, i as nat)),
                acc.deep_view().d <= pow(ad, i as nat),
                s_ipow(self.deep_view(), i as nat) == Ok::<NumM, crate::error::ErrM>(
                    acc.deep_view(),
                ),
            decreases e - i,
        {
            let ghost accm = acc.deep_view();
            let stepped = acc.checked_mul(self);
            proof {
                let s = prod_n(accm, self.deep_view());
                let d = prod_d(accm, self.deep_view());
                vstd::arithmetic::power::lemma_pow1(an);
                vstd::arithmetic::power::lemma_pow1(ad);
                vstd::arithmetic::power::lemma_pow_adds(an, i as nat, 1);
                vstd::arithmetic::power::lemma_pow_adds(ad, i as nat, 1);
                assert(pow(an, (i + 1) as nat) == pow(an, i as nat) * an);
                assert(pow(ad, (i + 1) as nat) == pow(ad, i as nat) * ad);
                lemma_iabs_mul(accm.n, an);
                lemma_iabs_mul(pow(an, i as nat), an);
                assert(iabs(accm.n) * iabs(an) <= iabs(pow(an, i as nat)) * iabs(an))
                    by (nonlinear_arith)
                    requires
                        iabs(accm.n) <= iabs(pow(an, i as nat)),
                {}
                assert(iabs(s) <= iabs(pow(an, (i + 1) as nat)));
                assert(accm.d * ad <= pow(ad, i as nat) * ad) by (nonlinear_arith)
                    requires
                        accm.d <= pow(ad, i as nat),
                        ad >= 1,
                        accm.d >= 1,
                {}
                assert(d <= pow(ad, (i + 1) as nat));
                assert(d >= 1) by (nonlinear_arith)
                    requires
                        accm.d >= 1,
                        ad >= 1,
                        d == accm.d * ad,
                {}
                lemma_norm_ratio(s, d);
                if fits {
                    lemma_pow_abs_mono(an, (i + 1) as nat, e as nat);
                    vstd::arithmetic::power::lemma_pow_increases(
                        ad as nat,
                        (i + 1) as nat,
                        e as nat,
                    );
                    assert(norm_fits(s, d));
                }
            }
            match stepped {
                Ok(next) => {
                    proof {
                        lemma_ratio_mul(
                            accm.n,
                            accm.d,
                            an,
                            ad,
                            pow(an, i as nat),
                            pow(ad, i as nat),
                            next.deep_view().n,
                            next.deep_view().d,
                        );
                        assert(next.deep_view().is_ratio(
                            pow(an, (i + 1) as nat),
                            pow(ad, (i + 1) as nat),
                        ));
                    }
                    acc = next;
                },
                Err(err) => {
                    proof {
                        lemma_ipow_err_persists(self.deep_view(), (i + 1) as nat, e as nat);
                    }
                    return Err(err);
                },
            }
            i = i + 1;
        }
        Ok(acc)
    }

    /// The exact reciprocal. The value must not be zero; fails only when the
    /// reciprocal's numerator magnitude does not fit.
    pub fn invert(&self) -> (r: Result<Num, Error>)
        requires
            self.deep_view().n != 0,
        ensures
            num_res_view(r) == s_invert(self.deep_view()),
            r matches Ok(q) ==> q.deep_view().wf() && q.deep_view().n * self.deep_view().n
                == q.deep_view().d * self.deep_view().d
                && (q.deep_view().n == 0 <==> self.deep_view().n == 0),
            r matches Err(err) ==> err == Error::NumericOverflow,
            self.deep_view().n != i64::MIN as int ==> r is Ok,
    {
        proof {
            use_type_invariant(self);
        }
        if self.num == i64::MIN {
            return Err(Error::NumericOverflow);
        }
        let q = if self.num < 0 {
            Num { num: -self.den, den: -self.num }
        } else {
            Num { num: self.den, den: self.num }
        };
        proof {
            assert(q.deep_view().n * self.deep_view().n == q.deep_view().d * self.deep_view().d)
                by (nonlinear_arith)
                requires
                    q.deep_view().n == if self.deep_view().n < 0 {
                        -self.deep_view().d
                    } else {
                        self.deep_view().d
                    },
                    q.deep_view().d == if self.deep_view().n < 0 {
                        -self.deep_view().n
                    } else {
                        self.deep_view().n
                    },
            {}
        }
        Ok(q)
    }
}

/// Computes `b` to the power `e` exactly, unless the result exceeds `cap`.
fn pow_capped(b: u64, e: u64, cap: u64) -> (r: Option<u64>)
    ensures
        r matches Some(v) ==> v as int == pow(b as int, e as nat) && v <= cap,
        r is None ==> pow(b as int, e as nat) > cap as int,
{
    proof {
        reveal(pow);
    }
    if b == 0 {
        if e == 0 {
            if cap >= 1 {
                Some(1)
            } else {
                None
            }
        } else {
            proof {
                vstd::arithmetic::power::lemma0_pow(e as nat);
            }
            Some(0)
        }
    } else {
        let mut acc: u64 = 1;
        let mut i: u64 = 0;
        if cap == 0 {
            proof {
                lemma_pow_nonneg(b as int, e as nat);
                vstd::arithmetic::power::lemma_pow_positive(b as int, e as nat);
            }
            return None;
        }
        while i < e
            invariant
                1 <= b,
                1 <= cap,
                i <= e,
                acc as int == pow(b as int, i as nat),
                acc <= cap,
            decreases e - i,
        {
            proof {
                assert(acc as int * b as int <= u64::MAX as int * u64::MAX as int)
                    by (nonlinear_arith)
                    requires
                        0 <= acc <= u64::MAX as int,
                        0 <= b <= u64::MAX as int,
                {}
            }
            let wide = (acc as u128) * (b as u128);
            proof {
                vstd::arithmetic::power::lemma_pow1(b as int);
                vstd::arithmetic::power::lemma_pow_adds(b as int, i as nat, 1);
            }
            if wide > cap as u128 {
                proof {
                    vstd::arithmetic::power::lemma_pow_increases(
                        b as nat,
                        (i + 1) as nat,
                        e as nat,
                    );
                }
                return None;
            }
            acc = wide as u64;
            i = i + 1;
        }
        Some(acc)
    }
}

/// The largest `r` with `r^e <= n`, by binary search.
fn iroot(n: u64, e: u64) -> (r: u64)
    requires
        1 <= e,
        n <= 0x8000000000000000u64,
    ensures
        pow(r as int, e as nat) <= n as int,
        pow(r as int + 1, e as nat) > n as int,
        r <= n,
{
    let mut lo: u64 = 0;
    let mut hi: u64 = n + 1;
    proof {
        reveal(pow);
        vstd::arithmetic::power::lemma0_pow(e as nat);
        if n > 0 {
            lemma_pow_at_least_base(n as int + 1, e as nat);
        } else {
            lemma_pow_at_least_base(1, e as nat);
        }
    }
    while lo + 1 < hi
        invariant
            lo < hi,
            hi <= n + 1,
            pow(lo as int, e as nat) <= n as int,
            pow(hi as int, e as nat) > n as int,
            1 <= e,
        decreases hi - lo,
    {
        let mid = lo + (hi - lo) / 2;
        match pow_capped(mid, e, n) {
            Some(_) => {
                lo = mid;
            },
            None => {
                hi = mid;
            },
        }
    }
    lo
}

/// The exact `e`-th root of the fraction, when one exists. The result is
/// `Ok` precisely when the sign admits a real root and both parts of the
/// fraction are exact `e`-th powers.
fn nth_root(c: &Num, e: u64) -> (r: Result<Num, Error>)
    requires
        2 <= e,
    ensures
        num_res_view(r) == s_nth_root(c.deep_view(), e as nat),
        r matches Ok(v) ==> v.deep_view().wf() && pow(v.deep_view().n, e as nat)
            == c.deep_view().n && pow(v.deep_view().d, e as nat) == c.deep_view().d,
        r matches Err(err) ==> err == Error::Inexact,
        r is Ok <==> ((c.deep_view().n >= 0 || e % 2 == 1) && (exists|x: int|
            0 <= x && pow(x, e as nat) == iabs(c.deep_view().n)) && (exists|y: int|
            1 <= y && pow(y, e as nat) == c.deep_view().d)),
{
    proof {
        use_type_invariant(c);
    }
    let neg = c.num < 0;
    if neg && e % 2 == 0 {
        return Err(Error::Inexact);
    }
    let un: u64 = if neg {
        (-(c.num as i128)) as u64
    } else {
        c.num as u64
    };
    let ud: u64 = c.den as u64;
    proof {
        assert(un as nat == iabs(c.deep_view().n));
    }
    let rn = iroot(un, e);
    let rd = iroot(ud, e);
    proof {
        lemma_sroot_pins(un as int, e as nat, rn as int);
        lemma_sroot_pins(ud as int, e as nat, rd as int);
    }
    let exact_n = match pow_capped(rn, e, un) {
        Some(v) => v == un,
        None => false,
    };
    let exact_d = match pow_capped(rd, e, ud) {
        Some(v) => v == ud,
        None => false,
    };
    proof {
        // If any nonnegative x has x^e == un, the floor root must be it.
        if exists|x: int| 0 <= x && pow(x, e as nat) == un as int {
            let x = choose|x: int| 0 <= x && pow(x, e as nat) == un as int;
            if x > rn as int {
                lemma_pow_base_le(rn as int + 1, x, e as nat);
            }
            if x < rn as int {
                lemma_pow_base_le(x, rn as int, e as nat);
            }
            assert(pow(rn as int, e as nat) == un as int);
        }
        if exists|y: int| 1 <= y && pow(y, e as nat) == ud as int {
            let y = choose|y: int| 1 <= y && pow(y, e as nat) == ud as int;
            if y > rd as int {
                lemma_pow_base_le(rd as int + 1, y, e as nat);
            }
            if y < rd as int {
                lemma_pow_base_le(y, rd as int, e as nat);
            }
            assert(pow(rd as int, e as nat) == ud as int);
        }
    }
    if !(exact_n && exact_d) {
        return Err(Error::Inexact);
    }
    proof {
        // The roots fit the narrow machine words: a root of two or more
        // taken to a power of two or more cannot exceed the radicand.
        if rn > i64::MAX as u64 {
            vstd::arithmetic::power::lemma_pow_increases(rn as nat, 2, e as nat);
            assert(pow(rn as int, 2) == rn as int * (rn as int * 1)) by {
                reveal_with_fuel(pow, 3);
            }
            assert(rn as int * (rn as int * 1) > 0x8000000000000000u64 as int)
                by (nonlinear_arith)
                requires
                    rn as int > i64::MAX as int,
            {}
        }
        if rd > i64::MAX as u64 {
            vstd::arithmetic::power::lemma_pow_increases(rd as nat, 2, e as nat);
            assert(pow(rd as int, 2) == rd as int * (rd as int * 1)) by {
                reveal_with_fuel(pow, 3);
            }
            assert(rd as int * (rd as int * 1) > i64::MAX as int) by (nonlinear_arith)
                requires
                    rd as int > i64::MAX as int,
            {}
        }
        if rd == 0 {
            vstd::arithmetic::power::lemma0_pow(e as nat);
        }
        // Roots of the magnitudes exist, so the `exists` direction holds.
        assert(0 <= rn as int && pow(rn as int, e as nat) == iabs(c.deep_view().n));
        assert(1 <= rd as int && pow(rd as int, e as nat) == c.deep_view().d);
    }
    if neg {
        proof {
            lemma_pow_neg(rn as int, e as nat);
        }
        Ok(Num { num: -(rn as i64), den: rd as i64 })
    } else {
        Ok(Num { num: rn as i64, den: rd as i64 })
    }
}

/// What raising `a` to the rational power `b` promises of the result `r`.
///
/// For whole exponents the result is pinned exactly; for fractional
/// exponents the result is the rational whose `b.d`-th power is exactly
/// `a ^ b.n`, when such a rational exists.
pub open spec fn pow_result(r: Result<Num, Error>, a: NumM, b: NumM) -> bool {
    &&& (b.d == 1 && b.n >= 0 ==> {
        &&& (r matches Ok(q) ==> q.deep_view().wf() && q.deep_view().is_ratio(
            pow(a.n, b.n as nat),
            pow(a.d, b.n as nat),
        ))
        &&& (r matches Err(e) ==> e == Error::NumericOverflow)
    })
    &&& (b.d == 1 && b.n < 0 ==> {
        &&& (a.n == 0 ==> r == Err::<Num, Error>(Error::DivisionByZero))
        &&& (r matches Ok(q) ==> q.deep_view().wf() && q.deep_view().n * pow(a.n, iabs(b.n))
            == q.deep_view().d * pow(a.d, iabs(b.n)))
        &&& (a.n != 0 ==> (r matches Err(e) ==> e == Error::NumericOverflow))
    })
    &&& (b.d >= 2 ==> {
        &&& (a.n == 0 && b.n < 0 ==> r == Err::<Num, Error>(Error::DivisionByZero))
        &&& (r matches Ok(q) ==> q.deep_view().wf() && (b.n >= 0 ==> pow(q.deep_view().n, b.d as nat)
            * pow(a.d, b.n as nat) == pow(a.n, b.n as nat) * pow(q.deep_view().d, b.d as nat)) && (
        b.n < 0 ==> pow(q.deep_view().n, b.d as nat) * pow(a.n, iabs(b.n)) == pow(
            q.deep_view().d,
            b.d as nat,
        ) * pow(a.d, iabs(b.n))))
        &&& (r matches Err(e) ==> e == Error::NumericOverflow || e == Error::Inexact || (e
            == Error::DivisionByZero && a.n == 0 && b.n < 0))
    })
}

impl Num {
    /// The power with an integer part computed exactly and a fractional part
    /// resolved through exact roots.
    pub fn checked_pow(&self, exp: &Num) -> (r: Result<Num, Error>)
        ensures
            num_res_view(r) == s_pow(self.deep_view(), exp.deep_view()),
            pow_result(r, self.deep_view(), exp.deep_view()),
    {
        proof {
            use_type_invariant(self);
            use_type_invariant(exp);
        }
        let base_to_int: Result<Num, Error> = if exp.num >= 0 {
            self.pow_nonneg(exp.num as u64)
        } else if self.num == 0 {
            Err(Error::DivisionByZero)
        } else {
            let m: u64 = (-(exp.num as i128)) as u64;
            match self.invert() {
                Ok(inv) => {
                    proof {
                        use_type_invariant(inv);
                    }
                    let powed = inv.pow_nonneg(m);
                    proof {
                        if let Ok(q) = powed {
                            // q ≅ inv^m and inv * self ≅ 1 give
                            // q.n * self.n^m == q.d * self.d^m.
                            lemma_inverse_pow(
                                inv.deep_view(),
                                self.deep_view(),
                                q.deep_view(),
                                m as nat,
                            );
                        }
                    }
                    powed
                },
                Err(err) => Err(err),
            }
        };
        if exp.den == 1 {
            base_to_int
        } else {
            match base_to_int {
                Ok(c) => {
                    let rooted = nth_root(&c, exp.den as u64);
                    proof {
                        if let Ok(v) = rooted {
                            let a = self.deep_view();
                            let b = exp.deep_view();
                            let cm = c.deep_view();
                            let vm = v.deep_view();
                            let q = b.d as nat;
                            if b.n >= 0 {
                                // v^q == c componentwise and c ≅ a^b.n give the
                                // cross-multiplied power relation.
                                assert(pow(vm.n, q) * pow(a.d, b.n as nat) == pow(a.n, b.n as nat)
                                    * pow(vm.d, q)) by (nonlinear_arith)
                                    requires
                                        pow(vm.n, q) == cm.n,
                                        pow(vm.d, q) == cm.d,
                                        cm.n * pow(a.d, b.n as nat) == pow(a.n, b.n as nat) * cm.d,
                                {}
                            } else {
                                assert(pow(vm.n, q) * pow(a.n, iabs(b.n)) == pow(vm.d, q) * pow(
                                    a.d,
                                    iabs(b.n),
                                )) by (nonlinear_arith)
                                    requires
                                        pow(vm.n, q) == cm.n,
                                        pow(vm.d, q) == cm.d,
                                        cm.n * pow(a.n, iabs(b.n)) == cm.d * pow(a.d, iabs(b.n)),
                                {}
                            }
                        }
                    }
                    rooted
                },
                Err(err) => Err(err),
            }
        }
    }

    /// The exact whole-number logarithm: the integer `k` with
    /// `base ^ k == self`, searched over the range the representation can
    /// realize. Fails with `Inexact` when no such integer is found.
    pub fn checked_log(&self, base: &Num) -> (r: Result<Num, Error>)
        ensures
            r matches Ok(q) ==> q.deep_view().d == 1 && ({
                let k = q.deep_view().n;
                &&& (k >= 0 ==> self.deep_view().is_ratio(
                    pow(base.deep_view().n, k as nat),
                    pow(base.deep_view().d, k as nat),
                ))
                &&& (k < 0 ==> self.deep_view().n * pow(base.deep_view().n, iabs(k))
                    == self.deep_view().d * pow(base.deep_view().d, iabs(k)))
            }),
            r matches Err(e) ==> e == Error::Inexact,
            num_res_view(r) == s_log(self.deep_view(), base.deep_view()),
    {
        proof {
            use_type_invariant(self);
            use_type_invariant(base);
        }
        let mut k: u64 = 0;
        let mut grew_out: bool = false;
        while k < 128 && !grew_out
            invariant
                k <= 128,
                self.deep_view().wf(),
                base.deep_view().wf(),
                !grew_out ==> s_log(self.deep_view(), base.deep_view()) == s_log_up(
                    self.deep_view(),
                    base.deep_view(),
                    k as nat,
                ),
                grew_out ==> s_log(self.deep_view(), base.deep_view()) == s_log_down(
                    self.deep_view(),
                    base.deep_view(),
                    1,
                ),
            decreases 128 - k, 1nat - if grew_out {
                1nat
            } else {
                0nat
            },
        {
            let kq = Num::from_int(k as i64);
            match base.checked_pow(&kq) {
                Ok(v) => {
                    if v.eq_num(self) {
                        proof {
                            lemma_ratio_same(
                                v.deep_view(),
                                self.deep_view(),
                                pow(base.deep_view().n, k as nat),
                                pow(base.deep_view().d, k as nat),
                            );
                        }
                        return Ok(kq);
                    }
                },
                Err(_) => {
                    // Whole powers outgrew the representation; the value may
                    // still be a negative power of the base.
                    grew_out = true;
                },
            }
            if !grew_out {
                k = k + 1;
            }
        }
        let mut k2: u64 = 1;
        while k2 < 128
            invariant
                1 <= k2 <= 128,
                self.deep_view().wf(),
                base.deep_view().wf(),
                s_log(self.deep_view(), base.deep_view()) == s_log_down(
                    self.deep_view(),
                    base.deep_view(),
                    k2 as nat,
                ),
            decreases 128 - k2,
        {
            let kq = Num::from_int(k2 as i64);
            match base.checked_pow(&kq) {
                Ok(v) => {
                    proof {
                        use_type_invariant(v);
                    }
                    // self == base^(-k2) exactly when self * base^k2 == 1.
                    match self.checked_mul(&v) {
                        Ok(prod) => {
                            if prod.numerator() == prod.denominator() {
                                let kneg = Num { num: -(k2 as i64), den: 1 };
                                proof {
                                    lemma_neg_log(
                                        self.deep_view(),
                                        v.deep_view(),
                                        prod.deep_view(),
                                        base.deep_view(),
                                        k2 as nat,
                                    );
                                }
                                return Ok(kneg);
                            }
                        },
                        Err(_) => {
                            return Err(Error::Inexact);
                        },
                    }
                },
                Err(_) => {
                    return Err(Error::Inexact);
                },
            }
            k2 = k2 + 1;
        }
        Err(Error::Inexact)
    }
}

/// Two fractions denoting the same rational denote the same ratios.
proof fn lemma_ratio_same(v: NumM, s: NumM, bn: int, bd: int)
    requires
        v.n * s.d == s.n * v.d,
        v.n * bd == bn * v.d,
        v.d >= 1,
        s.d >= 1,
    ensures
        s.n * bd == bn * s.d,
{
    assert((s.n * bd) * v.d == (bn * s.d) * v.d) by (nonlinear_arith)
        requires
            v.n * s.d == s.n * v.d,
            v.n * bd == bn * v.d,
    {}
    assert(s.n * bd == bn * s.d) by (nonlinear_arith)
        requires
            (s.n * bd) * v.d == (bn * s.d) * v.d,
            v.d >= 1,
    {}
}

/// If `s * v == 1` and `v ≅ b^k`, then `s` is the reciprocal of `b^k`.
proof fn lemma_neg_log(s: NumM, v: NumM, p: NumM, b: NumM, k: nat)
    requires
        v.n * pow(b.d, k) == pow(b.n, k) * v.d,
        p.n * (s.d * v.d) == (s.n * v.n) * p.d,
        p.n == p.d,
        p.d >= 1,
        v.d >= 1,
        s.d >= 1,
    ensures
        s.n * pow(b.n, k) == s.d * pow(b.d, k),
{
    // s.n * v.n == s.d * v.d, then compose with v ≅ b^k.
    assert((s.n * v.n) * p.d == (s.d * v.d) * p.d) by (nonlinear_arith)
        requires
            p.n * (s.d * v.d) == (s.n * v.n) * p.d,
            p.n == p.d,
    {}
    assert(s.n * v.n == s.d * v.d) by (nonlinear_arith)
        requires
            (s.n * v.n) * p.d == (s.d * v.d) * p.d,
            p.d >= 1,
    {}
    assert((s.n * pow(b.n, k)) * v.d == (s.d * pow(b.d, k)) * v.d) by (nonlinear_arith)
        requires
            s.n * v.n == s.d * v.d,
            v.n * pow(b.d, k) == pow(b.n, k) * v.d,
    {}
    assert(s.n * pow(b.n, k) == s.d * pow(b.d, k)) by (nonlinear_arith)
        requires
            (s.n * pow(b.n, k)) * v.d == (s.d * pow(b.d, k)) * v.d,
            v.d >= 1,
    {}
}

/// If `q ≅ inv^m` and `inv` is the reciprocal of `a`, then
/// `q * a^m == 1` in cross-multiplied form.
proof fn lemma_inverse_pow(inv: NumM, a: NumM, q: NumM, m: nat)
    requires
        inv.n * a.n == inv.d * a.d,
        q.n * pow(inv.d, m) == pow(inv.n, m) * q.d,
        inv.d >= 1,
        a.d >= 1,
    ensures
        q.n * pow(a.n, m) == q.d * pow(a.d, m),
    decreases m,
{
    // (inv.n * a.n)^m == (inv.d * a.d)^m, so
    // pow(inv.n, m) * pow(a.n, m) == pow(inv.d, m) * pow(a.d, m).
    lemma_pow_distributes_local(inv.n, a.n, m);
    lemma_pow_distributes_local(inv.d, a.d, m);
    assert(pow(inv.n * a.n, m) == pow(inv.d * a.d, m));
    assert((q.n * pow(a.n, m)) * pow(inv.d, m) == (q.d * pow(a.d, m)) * pow(inv.d, m))
        by (nonlinear_arith)
        requires
            q.n * pow(inv.d, m) == pow(inv.n, m) * q.d,
            pow(inv.n, m) * pow(a.n, m) == pow(inv.d, m) * pow(a.d, m),
    {}
    vstd::arithmetic::power::lemma_pow_positive(inv.d, m);
    assert(q.n * pow(a.n, m) == q.d * pow(a.d, m)) by (nonlinear_arith)
        requires
            (q.n * pow(a.n, m)) * pow(inv.d, m) == (q.d * pow(a.d, m)) * pow(inv.d, m),
            pow(inv.d, m) >= 1,
    {}
}

/// Once the whole-exponent power overflows, it stays overflowed.
proof fn lemma_ipow_err_persists(a: NumM, e1: nat, e2: nat)
    requires
        e1 <= e2,
        s_ipow(a, e1) is Err,
    ensures
        s_ipow(a, e2) == s_ipow(a, e1),
    decreases e2 - e1,
{
    if e1 < e2 {
        lemma_ipow_err_persists(a, e1, (e2 - 1) as nat);
    }
}

/// Powers distribute over products.
proof fn lemma_pow_distributes_local(x: int, y: int, m: nat)
    ensures
        pow(x * y, m) == pow(x, m) * pow(y, m),
    decreases m,
{
    reveal(pow);
    if m > 0 {
        lemma_pow_distributes_local(x, y, (m - 1) as nat);
        assert((x * y) * pow(x * y, (m - 1) as nat) == (x * pow(x, (m - 1) as nat)) * (y * pow(
            y,
            (m - 1) as nat,
        ))) by (nonlinear_arith)
            requires
                pow(x * y, (m - 1) as nat) == pow(x, (m - 1) as nat) * pow(y, (m - 1) as nat),
        {}
    }
}

/// The strict rational order, by cross multiplication (sound because
/// denominators are positive).
pub open spec fn num_lt(a: NumM, b: NumM) -> bool {
    a.n * b.d < b.n * a.d
}

pub open spec fn num_le(a: NumM, b: NumM) -> bool {
    a.n * b.d <= b.n * a.d
}

/// The magnitude bounds of cross products of machine-word fractions.
proof fn lemma_cross_bounds(an: int, ad: int, bn: int, bd: int)
    by (nonlinear_arith)
    requires
        -(i64::MAX as int + 1) <= an <= i64::MAX as int,
        1 <= ad <= i64::MAX as int,
        -(i64::MAX as int + 1) <= bn <= i64::MAX as int,
        1 <= bd <= i64::MAX as int,
    ensures
        -((i64::MAX as int + 1) * i64::MAX as int) <= an * bd <= (i64::MAX as int + 1) * (
        i64::MAX as int),
        -((i64::MAX as int + 1) * i64::MAX as int) <= bn * ad <= (i64::MAX as int + 1) * (
        i64::MAX as int),
        -((i64::MAX as int + 1) * (i64::MAX as int + 1)) <= an * bn <= (i64::MAX as int + 1) * (
        i64::MAX as int + 1),
        1 <= ad * bd <= i64::MAX as int * i64::MAX as int,
        -((i64::MAX as int + 1) * i64::MAX as int) <= ad * bn <= (i64::MAX as int + 1) * (
        i64::MAX as int),
        bn <= -1 ==> ad * bn <= -1,
        bn >= 1 ==> ad * bn >= 1,
{
}

/// The model of a numeric result: the model of the value, or the model of
/// the error.
pub open spec fn num_res_view(r: Result<Num, Error>) -> Result<NumM, crate::error::ErrM> {
    match r {
        Ok(q) => Ok(q.deep_view()),
        Err(e) => Err(e.deep_view()),
    }
}

/// What normalization returns for `s / d`: the canonical fraction when it
/// fits, and overflow otherwise.
pub open spec fn s_norm(s: int, d: int) -> Result<NumM, crate::error::ErrM> {
    if norm_fits(s, d) {
        Ok(NumM { n: norm_num(s, d), d: norm_den(s, d) })
    } else {
        Err(crate::error::ErrM::NumericOverflow)
    }
}

/// The model of the whole-exponent power: one exact multiplication at a
/// time, each normalized, stopping at the first overflow.
pub open spec fn s_ipow(a: NumM, e: nat) -> Result<NumM, crate::error::ErrM>
    decreases e,
{
    if e == 0 {
        Ok(NumM { n: 1, d: 1 })
    } else {
        match s_ipow(a, (e - 1) as nat) {
            Ok(acc) => s_norm(prod_n(acc, a), prod_d(acc, a)),
            Err(err) => Err(err),
        }
    }
}

/// The model of the exact reciprocal.
pub open spec fn s_invert(a: NumM) -> Result<NumM, crate::error::ErrM> {
    if a.n == i64::MIN as int {
        Err(crate::error::ErrM::NumericOverflow)
    } else if a.n < 0 {
        Ok(NumM { n: -a.d, d: -a.n })
    } else {
        Ok(NumM { n: a.d, d: a.n })
    }
}

/// The floor of the `e`-th root of a nonnegative number.
pub open spec fn sroot(n: int, e: nat) -> int {
    choose|r: int| 0 <= r && #[trigger] pow(r, e) <= n < pow(r + 1, e)
}

/// The floor root exists and is unique, so `sroot` is pinned by its
/// characteristic inequalities.
pub proof fn lemma_sroot_pins(n: int, e: nat, r: int)
    requires
        e >= 1,
        0 <= r,
        pow(r, e) <= n,
        pow(r + 1, e) > n,
    ensures
        sroot(n, e) == r,
{
    assert(0 <= r && pow(r, e) <= n < pow(r + 1, e));
    let w = sroot(n, e);
    assert(0 <= w && pow(w, e) <= n < pow(w + 1, e));
    if w < r {
        lemma_pow_base_le(w + 1, r, e);
        assert(false);
    }
    if r < w {
        lemma_pow_base_le(r + 1, w, e);
        assert(false);
    }
}

/// The model of the exact `e`-th root of a fraction.
pub open spec fn s_nth_root(c: NumM, e: nat) -> Result<NumM, crate::error::ErrM> {
    let un = iabs(c.n) as int;
    let rn = sroot(un, e);
    let rd = sroot(c.d, e);
    if c.n < 0 && e % 2 == 0 {
        Err(crate::error::ErrM::Inexact)
    } else if pow(rn, e) == un && pow(rd, e) == c.d {
        if c.n < 0 {
            Ok(NumM { n: -rn, d: rd })
        } else {
            Ok(NumM { n: rn, d: rd })
        }
    } else {
        Err(crate::error::ErrM::Inexact)
    }
}

/// The model of the power operation: the integer part of the exponent is
/// computed exactly (through the reciprocal for negative exponents), and a
/// fractional exponent is resolved by an exact root.
pub open spec fn s_pow(a: NumM, b: NumM) -> Result<NumM, crate::error::ErrM> {
    let stem: Result<NumM, crate::error::ErrM> = if b.n >= 0 {
        s_ipow(a, b.n as nat)
    } else if a.n == 0 {
        Err(crate::error::ErrM::DivisionByZero)
    } else {
        match s_invert(a) {
            Ok(inv) => s_ipow(inv, iabs(b.n)),
            Err(err) => Err(err),
        }
    };
    if b.d == 1 {
        stem
    } else {
        match stem {
            Ok(c) => s_nth_root(c, b.d as nat),
            Err(err) => Err(err),
        }
    }
}

/// The model of the whole-number logarithm search: nonnegative exponents
/// first, then negative ones, within the range the representation realizes.
pub open spec fn s_log_up(a: NumM, base: NumM, k: nat) -> Result<NumM, crate::error::ErrM>
    decreases 129 - k, 1nat,
{
    if k >= 128 {
        s_log_down(a, base, 1)
    } else {
        match s_pow(base, NumM { n: k as int, d: 1 }) {
            Ok(v) => if v.same(a) {
                Ok(NumM { n: k as int, d: 1 })
            } else {
                s_log_up(a, base, k + 1)
            },
            Err(_) => s_log_down(a, base, 1),
        }
    }
}

pub open spec fn s_log_down(a: NumM, base: NumM, k: nat) -> Result<NumM, crate::error::ErrM>
    decreases 129 - k, 0nat,
{
    if k >= 128 {
        Err(crate::error::ErrM::Inexact)
    } else {
        match s_pow(base, NumM { n: k as int, d: 1 }) {
            Ok(v) => match s_norm(prod_n(a, v), prod_d(a, v)) {
                Ok(p) => if p.n == p.d {
                    Ok(NumM { n: -(k as int), d: 1 })
                } else {
                    s_log_down(a, base, k + 1)
                },
                Err(_) => Err(crate::error::ErrM::Inexact),
            },
            Err(_) => Err(crate::error::ErrM::Inexact),
        }
    }
}

/// The model of the logarithm operation.
pub open spec fn s_log(a: NumM, base: NumM) -> Result<NumM, crate::error::ErrM> {
    s_log_up(a, base, 0)
}

/// For every nonnegative radicand a floor root exists.
pub proof fn lemma_sroot_exists(n: int, e: nat)
    requires
        n >= 0,
        e >= 1,
    ensures
        exists|r: int| 0 <= r && #[trigger] pow(r, e) <= n < pow(r + 1, e),
    decreases n,
{
    reveal(pow);
    if n == 0 {
        vstd::arithmetic::power::lemma0_pow(e);
        vstd::arithmetic::power::lemma1_pow(e);
        assert(0 <= 0int && pow(0int, e) <= n < pow(0int + 1, e));
    } else {
        lemma_sroot_exists(n - 1, e);
        let r0 = choose|r: int| 0 <= r && #[trigger] pow(r, e) <= n - 1 < pow(r + 1, e);
        if pow(r0 + 1, e) > n {
            assert(0 <= r0 && pow(r0, e) <= n < pow(r0 + 1, e));
        } else {
            lemma_pow_base_lt(r0 + 1, r0 + 2, e);
            assert(0 <= r0 + 1 && pow(r0 + 1, e) <= n < pow(r0 + 1 + 1, e));
        }
    }
}

/// The floor root carries its characteristic inequalities whenever the
/// radicand is nonnegative.
pub proof fn lemma_sroot_props(n: int, e: nat)
    requires
        n >= 0,
        e >= 1,
    ensures
        0 <= sroot(n, e),
        pow(sroot(n, e), e) <= n < pow(sroot(n, e) + 1, e),
{
    lemma_sroot_exists(n, e);
    let w = choose|r: int| 0 <= r && #[trigger] pow(r, e) <= n < pow(r + 1, e);
    lemma_sroot_pins(n, e, w);
}

/// Normalization yields a well-formed fraction.
pub proof fn lemma_s_norm_wf(s: int, d: int)
    requires
        d >= 1,
    ensures
        s_norm(s, d) matches Ok(q) ==> q.wf(),
{
    lemma_norm_ratio(s, d);
}

/// Whole-exponent powers of well-formed fractions are well-formed.
pub proof fn lemma_s_ipow_wf(a: NumM, e: nat)
    requires
        a.wf(),
    ensures
        s_ipow(a, e) matches Ok(q) ==> q.wf(),
    decreases e,
{
    if e > 0 {
        lemma_s_ipow_wf(a, (e - 1) as nat);
        if let Ok(acc) = s_ipow(a, (e - 1) as nat) {
            assert(prod_d(acc, a) >= 1) by (nonlinear_arith)
                requires
                    acc.d >= 1,
                    a.d >= 1,
                    prod_d(acc, a) == acc.d * a.d,
            {}
            lemma_s_norm_wf(prod_n(acc, a), prod_d(acc, a));
        }
    }
}

/// The power operation yields well-formed fractions.
pub proof fn lemma_s_pow_wf(a: NumM, b: NumM)
    requires
        a.wf(),
        b.wf(),
    ensures
        s_pow(a, b) matches Ok(q) ==> q.wf(),
{
    reveal(pow);
    if b.n >= 0 {
        lemma_s_ipow_wf(a, b.n as nat);
    } else if a.n != 0 {
        if let Ok(inv) = s_invert(a) {
            assert(inv.wf());
            lemma_s_ipow_wf(inv, iabs(b.n));
        }
    }
    if b.d >= 2 {
        let stem: Result<NumM, crate::error::ErrM> = if b.n >= 0 {
            s_ipow(a, b.n as nat)
        } else if a.n == 0 {
            Err(crate::error::ErrM::DivisionByZero)
        } else {
            match s_invert(a) {
                Ok(inv) => s_ipow(inv, iabs(b.n)),
                Err(err) => Err(err),
            }
        };
        if let Ok(c) = stem {
            if let Ok(v) = s_nth_root(c, b.d as nat) {
                let rd = sroot(c.d, b.d as nat);
                lemma_sroot_props(c.d, b.d as nat);
                assert(pow(rd, b.d as nat) == c.d);
                if rd == 0 {
                    vstd::arithmetic::power::lemma0_pow(b.d as nat);
                    assert(false);
                }
                assert(v.d == rd);
                assert(rd >= 1);
            }
        }
    }
}

/// An ASCII decimal digit.
pub open spec fn is_digit(c: char) -> bool {
    48 <= c as int <= 57
}

/// The numeric value of one digit.
pub open spec fn digit_val(c: char) -> int {
    c as int - 48
}

/// Every character of the sequence is a digit.
pub open spec fn all_digits(s: Seq<char>) -> bool {
    forall|i: int| 0 <= i < s.len() ==> is_digit(s[i])
}

/// The number denoted by a digit sequence (zero for the empty sequence).
pub open spec fn digits_val(s: Seq<char>) -> int
    decreases s.len(),
{
    if s.len() == 0 {
        0
    } else {
        digits_val(s.drop_last()) * 10 + digit_val(s.last())
    }
}

/// `k` marks the single dot of a decimal literal with digits on both sides.
pub open spec fn dot_at(s: Seq<char>, k: int) -> bool {
    &&& 0 <= k < s.len()
    &&& s[k] == '.'
    &&& all_digits(s.take(k))
    &&& all_digits(s.skip(k + 1))
    &&& s.len() >= 2
}

/// A decimal literal: digits, or digits around a single dot.
pub open spec fn is_decimal(s: Seq<char>) -> bool {
    ||| (s.len() >= 1 && all_digits(s))
    ||| (exists|k: int| dot_at(s, k))
}

/// The exact numerator of a decimal literal.
pub open spec fn dec_n(s: Seq<char>) -> int {
    if all_digits(s) {
        digits_val(s)
    } else {
        let k = choose|k: int| dot_at(s, k);
        digits_val(s.take(k)) * pow(10, (s.len() - k - 1) as nat) + digits_val(s.skip(k + 1))
    }
}

/// The exact denominator of a decimal literal.
pub open spec fn dec_d(s: Seq<char>) -> int {
    if all_digits(s) {
        1
    } else {
        let k = choose|k: int| dot_at(s, k);
        pow(10, (s.len() - k - 1) as nat)
    }
}

/// A digit sequence denotes a nonnegative number.
proof fn lemma_digits_nonneg(s: Seq<char>)
    requires
        all_digits(s),
    ensures
        digits_val(s) >= 0,
    decreases s.len(),
{
    if s.len() > 0 {
        assert(all_digits(s.drop_last()));
        lemma_digits_nonneg(s.drop_last());
    }
}

/// A dot position in a decimal literal is unique.
proof fn lemma_dot_unique(s: Seq<char>, k1: int, k2: int)
    requires
        dot_at(s, k1),
        dot_at(s, k2),
    ensures
        k1 == k2,
{
    if k1 < k2 {
        assert(s.take(k2)[k1] == '.');
        assert(is_digit(s.take(k2)[k1]));
        assert(false);
    }
    if k2 < k1 {
        assert(s.take(k1)[k2] == '.');
        assert(is_digit(s.take(k1)[k2]));
        assert(false);
    }
}

impl Num {
    /// Parses a decimal literal ("42", "1.5") into an exact rational.
    /// Returns `None` exactly when the text is not a decimal literal or its
    /// exact value, before reduction, does not fit the representation.
    pub fn from_decimal(s: &str) -> (r: Option<Num>)
        ensures
            r is Some <==> (is_decimal(s@) && 0 <= dec_n(s@) <= i64::MAX as int && 1 <= dec_d(s@)
                <= i64::MAX as int),
            r matches Some(q) ==> q.deep_view() == (NumM {
                n: norm_num(dec_n(s@), dec_d(s@)),
                d: norm_den(dec_n(s@), dec_d(s@)),
            }) && q.deep_view().wf() && q.deep_view().is_ratio(dec_n(s@), dec_d(s@)),
    {
        proof {
            reveal(pow);
        }
        let n = s.unicode_len();
        if n == 0 {
            return None;
        }
        // Find the dot, if any; reject a second one or any non-digit.
        let mut dot: Option<usize> = None;
        let mut i: usize = 0;
        while i < n
            invariant
                0 <= i <= n,
                n == s@.len(),
                dot matches Some(k) ==> 0 <= k < i && s@[k as int] == '.' && all_digits(
                    s@.take(k as int),
                ) && all_digits(s@.take(i as int).skip(k as int + 1)),
                dot is None ==> all_digits(s@.take(i as int)),
            decreases n - i,
        {
            let c = s.get_char(i);
            let u = c as u32;
            if c == '.' {
                if dot.is_some() {
                    proof {
                        let k0 = dot->Some_0 as int;
                        assert forall|k: int| !dot_at(s@, k) by {
                            if dot_at(s@, k) {
                                if k < i as int {
                                    if k < k0 {
                                        assert(s@.take(k0 as int)[k] == '.');
                                        assert(false);
                                    } else if k > k0 {
                                        assert(s@.take(i as int).skip(k0 + 1)[k - k0 - 1] == '.');
                                        assert(false);
                                    } else {
                                        assert(s@.skip(k + 1)[i - k - 1] == '.');
                                        assert(false);
                                    }
                                } else {
                                    assert(s@.take(k)[k0] == '.');
                                    assert(false);
                                }
                            }
                        }
                        assert(!all_digits(s@)) by {
                            assert(!is_digit(s@[k0]));
                        }
                    }
                    return None;
                }
                dot = Some(i);
            } else if 48 <= u && u <= 57 {
                proof {
                    assert(s@.take(i as int + 1) =~= s@.take(i as int).push(s@[i as int]));
                    if let Some(k) = dot {
                        assert(s@.take(i as int + 1).skip(k as int + 1) =~= s@.take(
                            i as int,
                        ).skip(k as int + 1).push(s@[i as int]));
                    }
                }
                i = i + 1;
                continue;
            } else {
                proof {
                    let bad = i as int;
                    assert(!is_digit(s@[bad]) && s@[bad] != '.');
                    assert forall|k: int| !dot_at(s@, k) by {
                        if dot_at(s@, k) {
                            if bad < k {
                                assert(s@.take(k)[bad] == s@[bad]);
                                assert(is_digit(s@.take(k)[bad]));
                            } else if bad > k {
                                assert(s@.skip(k + 1)[bad - k - 1] == s@[bad]);
                                assert(is_digit(s@.skip(k + 1)[bad - k - 1]));
                            }
                        }
                    }
                    assert(!all_digits(s@)) by {
                        assert(!is_digit(s@[bad]));
                    }
                }
                return None;
            }
            proof {
                assert(s@.take(i as int + 1) =~= s@.take(i as int).push(s@[i as int]));
                if let Some(k) = dot {
                } else {
                }
            }
            i = i + 1;
        }
        proof {
            assert(s@.take(n as int) =~= s@);
        }
        match dot {
            None => {
                proof {
                    lemma_digits_nonneg(s@);
                }
                match Self::digits_to_i64(s, 0, n) {
                    Some(v) => {
                        proof {
                            assert(s@.skip(0) =~= s@);
                            lemma_norm_int(v as int);
                        }
                        Some(Num { num: v, den: 1 })
                    },
                    None => {
                        proof {
                            assert(s@.skip(0) =~= s@);
                        }
                        None
                    },
                }
            },
            Some(k) => {
                if n < 2 {
                    // A lone dot is not a number.
                    proof {
                        assert(!all_digits(s@)) by {
                            assert(!is_digit(s@[k as int]));
                        }
                        assert(forall|j: int| !dot_at(s@, j));
                    }
                    return None;
                }
                proof {
                    assert(dot_at(s@, k as int)) by {
                        assert(s@.take(n as int).skip(k as int + 1) =~= s@.skip(k as int + 1));
                    }
                    let kk = choose|j: int| dot_at(s@, j);
                    lemma_dot_unique(s@, kk, k as int);
                    assert(!all_digits(s@)) by {
                        assert(!is_digit(s@[k as int]));
                    }
                }
                // The number of fractional digits bounds the denominator.
                let fraclen = n - k - 1;
                let den = Self::pow10_capped(fraclen);
                match den {
                    None => None,
                    Some(d) => {
                        let ip = Self::digits_to_i64(s, 0, k);
                        let fp = Self::digits_to_i64(s, k + 1, n);
                        proof {
                            assert(s@.take(k as int).skip(0) =~= s@.take(k as int));
                            assert(s@.take(n as int).skip(k as int + 1) =~= s@.skip(k as int + 1));
                            lemma_digits_nonneg(s@.take(k as int));
                            lemma_digits_nonneg(s@.skip(k as int + 1));
                        }
                        match (ip, fp) {
                            (Some(a), Some(b)) => {
                                proof {
                                    lemma_frac_bound(s@.skip(k as int + 1));
                                    assert(a as int * d as int <= i64::MAX as int * i64::MAX as int)
                                        by (nonlinear_arith)
                                        requires
                                            0 <= a as int <= i64::MAX as int,
                                            1 <= d as int <= i64::MAX as int,
                                    {}
                                    assert(a as int * d as int >= 0) by (nonlinear_arith)
                                        requires
                                            a as int >= 0,
                                            d as int >= 1,
                                    {}
                                }
                                let wide = (a as i128) * (d as i128) + (b as i128);
                                if wide <= i64::MAX as i128 {
                                    proof {
                                        lemma_norm_ratio(wide as int, d as int);
                                        assert(norm_fits(wide as int, d as int));
                                    }
                                    match norm_make(wide, d as i128) {
                                        Ok(q) => Some(q),
                                        Err(_) => {
                                            proof {
                                                assert(false);
                                            }
                                            None
                                        },
                                    }
                                } else {
                                    None
                                }
                            },
                            (None, _) => {
                                // The whole part alone already exceeds the range.
                                proof {
                                    let ipv = digits_val(s@.take(k as int));
                                    let fpv = digits_val(s@.skip(k as int + 1));
                                    lemma_digits_nonneg(s@.skip(k as int + 1));
                                    assert(ipv * d as int + fpv > i64::MAX as int)
                                        by (nonlinear_arith)
                                        requires
                                            ipv > i64::MAX as int,
                                            d as int >= 1,
                                            fpv >= 0,
                                    {}
                                }
                                None
                            },
                            (_, None) => {
                                proof {
                                    let ipv = digits_val(s@.take(k as int));
                                    let fpv = digits_val(s@.skip(k as int + 1));
                                    lemma_digits_nonneg(s@.take(k as int));
                                    assert(ipv * d as int + fpv > i64::MAX as int)
                                        by (nonlinear_arith)
                                        requires
                                            fpv > i64::MAX as int,
                                            d as int >= 1,
                                            ipv >= 0,
                                    {}
                                }
                                None
                            },
                        }
                    },
                }
            },
        }
    }

    /// Reads the digits of `s` in `[from, to)` as a machine integer;
    /// `None` exactly when the value exceeds the representation.
    fn digits_to_i64(s: &str, from: usize, to: usize) -> (r: Option<i64>)
        requires
            0 <= from <= to <= s@.len(),
            all_digits(s@.take(to as int).skip(from as int)),
        ensures
            r matches Some(v) ==> v as int == digits_val(s@.take(to as int).skip(from as int)),
            r is None ==> digits_val(s@.take(to as int).skip(from as int)) > i64::MAX as int,
    {
        let ghost whole = s@.take(to as int).skip(from as int);
        let mut acc: i64 = 0;
        let mut i: usize = from;
        while i < to
            invariant
                from <= i <= to <= s@.len(),
                all_digits(whole),
                whole == s@.take(to as int).skip(from as int),
                acc as int == digits_val(s@.take(i as int).skip(from as int)),
                acc >= 0,
            decreases to - i,
        {
            let c = s.get_char(i);
            proof {
                assert(whole[i - from] == s@[i as int]);
                assert(is_digit(s@[i as int]));
                assert(48 <= c as u32 <= 57);
                let pre = s@.take(i as int).skip(from as int);
                let post = s@.take(i as int + 1).skip(from as int);
                assert(post.drop_last() =~= pre);
                assert(post.last() == s@[i as int]);
                assert(all_digits(post)) by {
                    assert(forall|j: int|
                        0 <= j < post.len() ==> post[j] == whole[j] && is_digit(whole[j]));
                }
                lemma_digits_nonneg(post);
            }
            let d = ((c as u32) - 48) as i64;
            let limit = (i64::MAX - d) / 10;
            proof {
                lemma_fundamental_div_mod(i64::MAX as int - d, 10);
            }
            if acc > limit {
                // This digit pushes the value past the representable range,
                // and later digits only grow it.
                proof {
                    assert(acc * 10 + d > i64::MAX as int) by (nonlinear_arith)
                        requires
                            acc as int >= (i64::MAX as int - d) / 10 + 1,
                            i64::MAX as int - d == 10 * ((i64::MAX as int - d) / 10) + (
                            i64::MAX as int - d) % 10,
                            0 <= (i64::MAX as int - d) % 10 < 10,
                    {}
                    lemma_digits_grow(s@, from as int, i as int + 1, to as int);
                }
                return None;
            }
            proof {
                assert(acc * 10 + d <= i64::MAX as int) by (nonlinear_arith)
                    requires
                        acc as int <= (i64::MAX as int - d) / 10,
                        acc >= 0,
                        0 <= d <= 9,
                        i64::MAX as int - d == 10 * ((i64::MAX as int - d) / 10) + (
                        i64::MAX as int - d) % 10,
                        0 <= (i64::MAX as int - d) % 10 < 10,
                {}
            }
            acc = acc * 10 + d;
            i = i + 1;
        }
        Some(acc)
    }

    /// Ten to the `e`-th, when it fits the representation; `None` exactly
    /// when `10^e` exceeds it.
    fn pow10_capped(e: usize) -> (r: Option<i64>)
        ensures
            r matches Some(v) ==> v as int == pow(10, e as nat) && v >= 1,
            r is None ==> pow(10, e as nat) > i64::MAX as int,
    {
        proof {
            reveal(pow);
        }
        let mut acc: i64 = 1;
        let mut i: usize = 0;
        while i < e
            invariant
                0 <= i <= e,
                acc as int == pow(10, i as nat),
                acc >= 1,
            decreases e - i,
        {
            proof {
                vstd::arithmetic::power::lemma_pow1(10);
                vstd::arithmetic::power::lemma_pow_adds(10, i as nat, 1);
                lemma_fundamental_div_mod(i64::MAX as int, 10);
            }
            if acc > i64::MAX / 10 {
                proof {
                    assert(acc * 10 > i64::MAX as int) by (nonlinear_arith)
                        requires
                            acc as int >= i64::MAX as int / 10 + 1,
                            i64::MAX as int == 10 * (i64::MAX as int / 10) + i64::MAX as int % 10,
                            0 <= i64::MAX as int % 10 < 10,
                    {}
                    vstd::arithmetic::power::lemma_pow_increases(10, (i + 1) as nat, e as nat);
                }
                return None;
            }
            proof {
                assert(acc * 10 <= i64::MAX as int) by (nonlinear_arith)
                    requires
                        acc as int <= i64::MAX as int / 10,
                        acc >= 1,
                        i64::MAX as int == 10 * (i64::MAX as int / 10) + i64::MAX as int % 10,
                        0 <= i64::MAX as int % 10 < 10,
                {}
            }
            acc = acc * 10;
            i = i + 1;
        }
        Some(acc)
    }
}

/// The fractional digits are worth less than one unit of the denominator.
proof fn lemma_frac_bound(s: Seq<char>)
    requires
        all_digits(s),
    ensures
        digits_val(s) < pow(10, s.len()),
    decreases s.len(),
{
    reveal(pow);
    if s.len() == 0 {
    } else {
        assert(all_digits(s.drop_last()));
        lemma_frac_bound(s.drop_last());
        vstd::arithmetic::power::lemma_pow1(10);
        vstd::arithmetic::power::lemma_pow_adds(10, (s.len() - 1) as nat, 1);
        assert(digits_val(s.drop_last()) * 10 + digit_val(s.last()) < pow(10, (s.len() - 1) as nat)
            * 10) by (nonlinear_arith)
            requires
                digits_val(s.drop_last()) < pow(10, (s.len() - 1) as nat),
                digit_val(s.last()) <= 9,
        {}
    }
}

/// A longer prefix of a digit run never denotes a smaller number.
proof fn lemma_digits_grow(s: Seq<char>, from: int, mid: int, to: int)
    requires
        0 <= from <= mid <= to <= s.len(),
        all_digits(s.take(to).skip(from)),
    ensures
        digits_val(s.take(to).skip(from)) >= digits_val(s.take(mid).skip(from)),
    decreases to - mid,
{
    if mid < to {
        lemma_digits_grow(s, from, mid + 1, to);
        let shorter = s.take(mid).skip(from);
        let longer = s.take(mid + 1).skip(from);
        assert(longer.drop_last() =~= shorter);
        assert(all_digits(longer)) by {
            let w = s.take(to).skip(from);
            assert(forall|j: int| 0 <= j < longer.len() ==> longer[j] == w[j]);
        }
        lemma_digits_nonneg(shorter);
        assert(digits_val(longer) == digits_val(shorter) * 10 + digit_val(longer.last()));
        assert(digits_val(shorter) * 10 + digit_val(longer.last()) >= digits_val(shorter))
            by (nonlinear_arith)
            requires
                digits_val(shorter) >= 0,
                digit_val(longer.last()) >= 0,
        {}
    }
}

} // verus!
