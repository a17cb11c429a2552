//! Exact matrix inversion over rational numbers, cross-checked by two
//! independent algorithms.
//!
//! The library computes the determinant of a square matrix by recursive
//! cofactor expansion and its inverse both by the adjugate formula and by
//! Gauss-Jordan elimination with partial pivoting, all over an exact
//! rational number type `Fraction`.
pub mod algebra;
pub mod determinant;
pub mod gauss_jordan;
pub mod matrix;
pub mod rational;

use vstd::prelude::*;
use vstd::pervasive::unreached;

pub use crate::matrix::FractionMatrix;

use crate::rational::{
    abs_int, canon_fits, canon_num, gcd_int, i64_fits, lemma_canon, lemma_div_exact,
    lemma_gcd_divides, rat_abs, rat_add, rat_canon, rat_div, rat_eq, rat_mul, rat_sub, Rat,
};

verus! {

/// Failure reasons for the matrix operations.
#[derive(Debug, Clone, Copy, PartialEq, Eq, Structural)]
pub enum MatrixError {
    /// The input matrix is empty or not square.
    NotSquare,
    /// The determinant (or a pivot) is below the singularity threshold.
    SingularMatrix,
    /// An exact intermediate value does not fit the 64-bit representation.
    Overflow,
}

/// An exact rational number: a reduced fraction with positive denominator.
#[derive(Debug, Clone, Copy, PartialEq, Eq, Structural)]
pub struct Fraction {
    pub numerator: i64,
    pub denominator: i64,
}

impl View for Fraction {
    type V = Rat;

    open spec fn view(&self) -> Rat {
        Rat { n: self.numerator as int, d: self.denominator as int }
    }
}

impl Fraction {
    /// Positive denominator; the invariant every constructed value keeps.
    pub open spec fn wf(self) -> bool {
        self.denominator > 0
    }

    /// In lowest terms: numerator and denominator share no common factor.
    pub open spec fn reduced(self) -> bool {
        gcd_int(abs_int(self.numerator as int), self.denominator as int) == 1
    }

    /// Reduced fraction with the sign carried by the numerator.
    ///
    /// Fails (by precondition) on a zero denominator and on the few
    /// representation edge cases whose reduced form exceeds `i64`.
    pub fn new(numerator: i64, denominator: i64) -> (r: Fraction)
        requires
            denominator != 0,
            canon_fits(Rat { n: numerator as int, d: denominator as int }),
        ensures
            r@ == rat_canon(Rat { n: numerator as int, d: denominator as int }),
            r.wf(),
            r.reduced(),
            rat_eq(r@, Rat { n: numerator as int, d: denominator as int }),
    {
        let mut frac = Fraction { numerator, denominator };
        frac.simplify();
        frac
    }

    fn simplify(&mut self)
        requires
            old(self).denominator != 0,
            canon_fits(old(self)@),
        ensures
            final(self)@ == rat_canon(old(self)@),
            final(self).wf(),
            final(self).reduced(),
            rat_eq(final(self)@, old(self)@),
    {
        proof {
            lemma_canon(old(self)@);
        }
        match normalize_i128(self.numerator as i128, self.denominator as i128) {
            Some(f) => *self = f,
            None => *self = unreached(),
        }
    }

    /// Exact sum in canonical form, `None` when it does not fit `i64`.
    pub fn checked_add(&self, other: &Fraction) -> (r: Option<Fraction>)
        requires
            self.wf(),
            other.wf(),
        ensures
            r matches Some(f) ==> f@ == rat_canon(rat_add(self@, other@)) && f.wf() && f.reduced()
                && rat_eq(f@, rat_add(self@, other@)),
            r is Some <==> canon_fits(rat_add(self@, other@)),
    {
        let n = mul_num_den(self.numerator, other.denominator) + mul_num_den(
            other.numerator,
            self.denominator,
        );
        let d = mul_num_den(self.denominator, other.denominator);
        proof {
            assert(rat_add(self@, other@).d > 0) by (nonlinear_arith)
                requires
                    self@.d > 0,
                    other@.d > 0,
            ;
            lemma_canon(rat_add(self@, other@));
        }
        normalize_i128(n, d)
    }

    /// Exact difference in canonical form, `None` when it does not fit `i64`.
    pub fn checked_sub(&self, other: &Fraction) -> (r: Option<Fraction>)
        requires
            self.wf(),
            other.wf(),
        ensures
            r matches Some(f) ==> f@ == rat_canon(rat_sub(self@, other@)) && f.wf() && f.reduced()
                && rat_eq(f@, rat_sub(self@, other@)),
            r is Some <==> canon_fits(rat_sub(self@, other@)),
    {
        let n = mul_num_den(self.numerator, other.denominator) - mul_num_den(
            other.numerator,
            self.denominator,
        );
        let d = mul_num_den(self.denominator, other.denominator);
        proof {
            assert(rat_sub(self@, other@).d > 0) by (nonlinear_arith)
                requires
                    self@.d > 0,
                    other@.d > 0,
            ;
            lemma_canon(rat_sub(self@, other@));
        }
        normalize_i128(n, d)
    }

    /// Exact product in canonical form, `None` when it does not fit `i64`.
    pub fn checked_mul(&self, other: &Fraction) -> (r: Option<Fraction>)
        requires
            self.wf(),
            other.wf(),
        ensures
            r matches Some(f) ==> f@ == rat_canon(rat_mul(self@, other@)) && f.wf() && f.reduced()
                && rat_eq(f@, rat_mul(self@, other@)),
            r is Some <==> canon_fits(rat_mul(self@, other@)),
    {
        let n = mul_i64_wide(self.numerator, other.numerator);
        let d = mul_num_den(self.denominator, other.denominator);
        proof {
            assert(rat_mul(self@, other@).d > 0) by (nonlinear_arith)
                requires
                    self@.d > 0,
                    other@.d > 0,
            ;
            lemma_canon(rat_mul(self@, other@));
        }
        normalize_i128(n, d)
    }

    /// Exact quotient in canonical form, `None` when it does not fit `i64`.
    /// Division by a zero fraction is ruled out by precondition, as a zero
    /// denominator is in `new`.
    pub fn checked_div(&self, other: &Fraction) -> (r: Option<Fraction>)
        requires
            self.wf(),
            other.wf(),
            other.numerator != 0,
        ensures
            r matches Some(f) ==> f@ == rat_canon(rat_div(self@, other@)) && f.wf() && f.reduced()
                && rat_eq(f@, rat_div(self@, other@)),
            r is Some <==> canon_fits(rat_div(self@, other@)),
    {
        let n = mul_num_den(self.numerator, other.denominator);
        let d = mul_num_den(other.numerator, self.denominator);
        proof {
            assert(rat_div(self@, other@).d != 0) by (nonlinear_arith)
                requires
                    self@.d > 0,
                    other@.n != 0,
            ;
            lemma_canon(rat_div(self@, other@));
            assert(d as int == (self.denominator as int) * (other.numerator as int))
                by (nonlinear_arith)
                requires
                    d as int == (other.numerator as int) * (self.denominator as int),
            ;
        }
        normalize_i128(n, d)
    }

    /// Exact absolute value in canonical form.
    pub fn checked_abs(&self) -> (r: Option<Fraction>)
        requires
            self.wf(),
        ensures
            r matches Some(f) ==> f@ == rat_canon(rat_abs(self@)) && f.wf() && f.reduced()
                && rat_eq(f@, rat_abs(self@)),
            r is Some <==> canon_fits(rat_abs(self@)),
    {
        let n: i128 = if self.numerator < 0 {
            -(self.numerator as i128)
        } else {
            self.numerator as i128
        };
        proof {
            lemma_canon(rat_abs(self@));
        }
        normalize_i128(n, self.denominator as i128)
    }

    pub fn add(&self, other: &Fraction) -> (r: Fraction)
        requires
            self.wf(),
            other.wf(),
            canon_fits(rat_add(self@, other@)),
        ensures
            r@ == rat_canon(rat_add(self@, other@)),
            r.wf(),
            r.reduced(),
            rat_eq(r@, rat_add(self@, other@)),
    {
        match self.checked_add(other) {
            Some(f) => f,
            None => unreached(),
        }
    }

    pub fn sub(&self, other: &Fraction) -> (r: Fraction)
        requires
            self.wf(),
            other.wf(),
            canon_fits(rat_sub(self@, other@)),
        ensures
            r@ == rat_canon(rat_sub(self@, other@)),
            r.wf(),
            r.reduced(),
            rat_eq(r@, rat_sub(self@, other@)),
    {
        match self.checked_sub(other) {
            Some(f) => f,
            None => unreached(),
        }
    }

    pub fn mul(&self, other: &Fraction) -> (r: Fraction)
        requires
            self.wf(),
            other.wf(),
            canon_fits(rat_mul(self@, other@)),
        ensures
            r@ == rat_canon(rat_mul(self@, other@)),
            r.wf(),
            r.reduced(),
            rat_eq(r@, rat_mul(self@, other@)),
    {
        match self.checked_mul(other) {
            Some(f) => f,
            None => unreached(),
        }
    }

    pub fn div(&self, other: &Fraction) -> (r: Fraction)
        requires
            self.wf(),
            other.wf(),
            other.numerator != 0,
            canon_fits(rat_div(self@, other@)),
        ensures
            r@ == rat_canon(rat_div(self@, other@)),
            r.wf(),
            r.reduced(),
            rat_eq(r@, rat_div(self@, other@)),
    {
        match self.checked_div(other) {
            Some(f) => f,
            None => unreached(),
        }
    }

    pub fn abs(&self) -> (r: Fraction)
        requires
            self.wf(),
            canon_fits(rat_abs(self@)),
        ensures
            r@ == rat_canon(rat_abs(self@)),
            r.wf(),
            r.reduced(),
            rat_eq(r@, rat_abs(self@)),
    {
        match self.checked_abs() {
            Some(f) => f,
            None => unreached(),
        }
    }
}

/// One step of a continued-fraction expansion: the next convergent
/// `(a*h1 + h2, a*k1 + k2)`, or `None` when it leaves the `i64` range.
pub fn convergent_step(a: i64, h1: i64, h2: i64, k1: i64, k2: i64) -> (r: Option<(i64, i64)>)
    ensures
        r matches Some(p) ==> p.0 == a * h1 + h2 && p.1 == a * k1 + k2,
        r is Some <==> i64_fits(a * h1 + h2) && i64_fits(a * k1 + k2),
{
    let h: i128 = mul_i64_wide(a, h1) + (h2 as i128);
    let k: i128 = mul_i64_wide(a, k1) + (k2 as i128);
    if h < i64::MIN as i128 || h > i64::MAX as i128 || k < i64::MIN as i128 || k > i64::MAX as i128
    {
        None
    } else {
        Some((h as i64, k as i64))
    }
}

/// Widening product of two `i64`s, exact in `i128`.
pub(crate) fn mul_i64_wide(a: i64, b: i64) -> (r: i128)
    ensures
        r as int == (a as int) * (b as int),
        -0x4000_0000_0000_0000_0000_0000_0000_0000 <= r as int
            <= 0x4000_0000_0000_0000_0000_0000_0000_0000,
{
    proof {
        assert(-0x4000_0000_0000_0000_0000_0000_0000_0000 <= (a as int) * (b as int)
            <= 0x4000_0000_0000_0000_0000_0000_0000_0000) by (nonlinear_arith)
            requires
                -0x8000_0000_0000_0000 <= a as int <= 0x7fff_ffff_ffff_ffff,
                -0x8000_0000_0000_0000 <= b as int <= 0x7fff_ffff_ffff_ffff,
        ;
    }
    (a as i128) * (b as i128)
}

/// Widening product with a positive factor; tight enough that two such
/// products can be added in `i128`.
pub(crate) fn mul_num_den(a: i64, b: i64) -> (r: i128)
    requires
        b >= 1,
    ensures
        r as int == (a as int) * (b as int),
        -0x3fff_ffff_ffff_ffff_8000_0000_0000_0000 <= r as int
            <= 0x3fff_ffff_ffff_ffff_8000_0000_0000_0000,
{
    proof {
        assert(-0x3fff_ffff_ffff_ffff_8000_0000_0000_0000 <= (a as int) * (b as int)
            <= 0x3fff_ffff_ffff_ffff_8000_0000_0000_0000) by (nonlinear_arith)
            requires
                -0x8000_0000_0000_0000 <= a as int <= 0x7fff_ffff_ffff_ffff,
                1 <= b as int <= 0x7fff_ffff_ffff_ffff,
        ;
    }
    (a as i128) * (b as i128)
}

/// Euclidean greatest common divisor of two nonnegative numbers.
pub fn gcd(a: i64, b: i64) -> (g: i64)
    requires
        a >= 0,
        b >= 0,
    ensures
        g == gcd_int(a as int, b as int),
    decreases b,
{
    if b == 0 {
        a
    } else {
        gcd(b, a % b)
    }
}

fn gcd_u128(a: u128, b: u128) -> (g: u128)
    ensures
        g == gcd_int(a as int, b as int),
    decreases b,
{
    if b == 0 {
        a
    } else {
        gcd_u128(b, a % b)
    }
}

/// Reduce the rational `n / d` to canonical form, if it fits in `i64`s.
///
/// The cross products that callers feed in stay well inside `i128`, so the
/// whole reduction is exact.
fn normalize_i128(n: i128, d: i128) -> (r: Option<Fraction>)
    requires
        d != 0,
        n > i128::MIN,
        d > i128::MIN,
    ensures
        r matches Some(f) ==> f@ == rat_canon(Rat { n: n as int, d: d as int }) && f.wf()
            && f.reduced(),
        r is Some <==> canon_fits(Rat { n: n as int, d: d as int }),
{
    let ghost rr = Rat { n: n as int, d: d as int };
    let na: u128 = if n < 0 {
        (-n) as u128
    } else {
        n as u128
    };
    let da: u128 = if d < 0 {
        (-d) as u128
    } else {
        d as u128
    };
    let neg: bool = (n < 0) != (d < 0);
    let g = gcd_u128(na, da);
    proof {
        lemma_canon(rr);
        assert(na as int == abs_int(rr.n));
        assert(da as int == abs_int(rr.d));
        lemma_gcd_divides(na as int, da as int);
        lemma_div_exact(na as int, g as int);
        lemma_div_exact(da as int, g as int);
    }
    let qn = na / g;
    let qd = da / g;
    proof {
        assert(qn as int == abs_int(rat_canon(rr).n));
        assert(qd as int == rat_canon(rr).d);
        assert(canon_num(rr.n, rr.d) == if neg {
            -(qn as int)
        } else {
            qn as int
        });
    }
    if qd > i64::MAX as u128 {
        return None;
    }
    if neg {
        if qn > 0x8000_0000_0000_0000u128 {
            return None;
        }
        let num: i64 = if qn == 0x8000_0000_0000_0000u128 {
            i64::MIN
        } else {
            -(qn as i64)
        };
        Some(Fraction { numerator: num, denominator: qd as i64 })
    } else {
        if qn > i64::MAX as u128 {
            return None;
        }
        Some(Fraction { numerator: qn as i64, denominator: qd as i64 })
    }
}

} // verus!
