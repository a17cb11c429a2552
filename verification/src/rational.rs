//! Ghost model of exact rational numbers.
//!
//! A rational is a pair of mathematical integers with a nonzero denominator.
//! Two pairs denote the same rational when they cross-multiply equally; the
//! canonical form divides out the greatest common divisor and keeps the
//! denominator positive. The executable `Fraction` type is specified against
//! this model.
use vstd::prelude::*;

verus! {

/// A rational number as an unreduced pair of mathematical integers.
pub struct Rat {
    pub n: int,
    pub d: int,
}

pub open spec fn abs_int(x: int) -> int {
    if x < 0 {
        -x
    } else {
        x
    }
}

/// Euclidean greatest common divisor; `gcd_int(a, 0) == a`.
pub open spec fn gcd_int(a: int, b: int) -> int
    recommends
        a >= 0,
        b >= 0,
    decreases b,
        when b >= 0
{
    if b <= 0 {
        a
    } else {
        gcd_int(b, a % b)
    }
}

pub open spec fn divides(d: int, x: int) -> bool {
    exists|k: int| x == #[trigger] (d * k)
}

/// The denominator is meaningful only when nonzero.
pub open spec fn rat_wf(r: Rat) -> bool {
    r.d > 0
}

/// `a` and `b` denote the same rational number.
pub open spec fn rat_eq(a: Rat, b: Rat) -> bool {
    a.n * b.d == b.n * a.d
}

pub open spec fn rat_zero() -> Rat {
    Rat { n: 0, d: 1 }
}

pub open spec fn rat_one() -> Rat {
    Rat { n: 1, d: 1 }
}

pub open spec fn rat_add(a: Rat, b: Rat) -> Rat {
    Rat { n: a.n * b.d + b.n * a.d, d: a.d * b.d }
}

pub open spec fn rat_sub(a: Rat, b: Rat) -> Rat {
    Rat { n: a.n * b.d - b.n * a.d, d: a.d * b.d }
}

pub open spec fn rat_mul(a: Rat, b: Rat) -> Rat {
    Rat { n: a.n * b.n, d: a.d * b.d }
}

pub open spec fn rat_div(a: Rat, b: Rat) -> Rat {
    Rat { n: a.n * b.d, d: a.d * b.n }
}

pub open spec fn rat_neg(a: Rat) -> Rat {
    Rat { n: -a.n, d: a.d }
}

pub open spec fn rat_abs(a: Rat) -> Rat {
    Rat { n: abs_int(a.n), d: abs_int(a.d) }
}

/// `a <= b`, for positive denominators.
pub open spec fn rat_le(a: Rat, b: Rat) -> bool
    recommends
        a.d > 0,
        b.d > 0,
{
    a.n * b.d <= b.n * a.d
}

pub open spec fn rat_lt(a: Rat, b: Rat) -> bool
    recommends
        a.d > 0,
        b.d > 0,
{
    a.n * b.d < b.n * a.d
}

// ------------------------------------------------------------------
// Canonical (lowest-terms, positive-denominator) form.
// ------------------------------------------------------------------

pub open spec fn canon_sign(n: int, d: int) -> int {
    if (n < 0) == (d < 0) {
        1
    } else {
        -1
    }
}

pub open spec fn canon_g(n: int, d: int) -> int {
    gcd_int(abs_int(n), abs_int(d))
}

pub open spec fn canon_num(n: int, d: int) -> int {
    canon_sign(n, d) * (abs_int(n) / canon_g(n, d))
}

pub open spec fn canon_den(n: int, d: int) -> int {
    abs_int(d) / canon_g(n, d)
}

pub open spec fn rat_canon(r: Rat) -> Rat {
    Rat { n: canon_num(r.n, r.d), d: canon_den(r.n, r.d) }
}

pub open spec fn i64_fits(x: int) -> bool {
    i64::MIN <= x <= i64::MAX
}

/// The canonical form of `r` is representable with `i64` components.
pub open spec fn canon_fits(r: Rat) -> bool {
    i64_fits(canon_num(r.n, r.d)) && i64_fits(canon_den(r.n, r.d))
}

// ------------------------------------------------------------------
// Divisibility and gcd facts.
// ------------------------------------------------------------------

/// The gcd divides both arguments and is positive when either is.
pub proof fn lemma_gcd_divides(a: int, b: int)
    requires
        a >= 0,
        b >= 0,
    ensures
        divides(gcd_int(a, b), a),
        divides(gcd_int(a, b), b),
        gcd_int(a, b) >= 0,
        a > 0 || b > 0 ==> gcd_int(a, b) >= 1,
    decreases b,
{
    if b <= 0 {
        assert(a == gcd_int(a, b) * 1);
        assert(b == gcd_int(a, b) * 0);
    } else {
        vstd::arithmetic::div_mod::lemma_mod_division_less_than_divisor(a, b);
        lemma_gcd_divides(b, a % b);
        let g = gcd_int(b, a % b);
        let k1 = choose|k: int| b == #[trigger] (g * k);
        let k2 = choose|k: int| a % b == #[trigger] (g * k);
        vstd::arithmetic::div_mod::lemma_fundamental_div_mod(a, b);
        let q = a / b;
        assert(a == g * (k1 * q + k2)) by (nonlinear_arith)
            requires
                a == b * q + a % b,
                b == g * k1,
                a % b == g * k2,
        ;
        assert(divides(g, a));
    }
}

/// Any common divisor divides the gcd.
pub proof fn lemma_gcd_greatest(a: int, b: int, d: int)
    requires
        a >= 0,
        b >= 0,
        d >= 1,
        divides(d, a),
        divides(d, b),
    ensures
        divides(d, gcd_int(a, b)),
    decreases b,
{
    if b <= 0 {
    } else {
        let ka = choose|k: int| a == #[trigger] (d * k);
        let kb = choose|k: int| b == #[trigger] (d * k);
        vstd::arithmetic::div_mod::lemma_fundamental_div_mod(a, b);
        let q = a / b;
        assert(a % b == d * (ka - kb * q)) by (nonlinear_arith)
            requires
                a == b * q + a % b,
                a == d * ka,
                b == d * kb,
        ;
        assert(divides(d, a % b));
        vstd::arithmetic::div_mod::lemma_mod_division_less_than_divisor(a, b);
        lemma_gcd_greatest(b, a % b, d);
    }
}

/// A positive divisor of a positive number is no larger than it.
proof fn lemma_divides_le(d: int, x: int)
    requires
        d >= 1,
        x >= 1,
        divides(d, x),
    ensures
        d <= x,
{
    let k = choose|k: int| x == #[trigger] (d * k);
    assert(d <= x) by (nonlinear_arith)
        requires
            x == d * k,
            d >= 1,
            x >= 1,
    ;
}

/// After dividing by the gcd, the parts are coprime.
pub proof fn lemma_coprime_after_div(a: int, b: int)
    requires
        a >= 0,
        b >= 1,
    ensures
        gcd_int(a / gcd_int(a, b), b / gcd_int(a, b)) == 1,
{
    let g = gcd_int(a, b);
    lemma_gcd_divides(a, b);
    lemma_div_exact(a, g);
    lemma_div_exact(b, g);
    let qa = a / g;
    let qb = b / g;
    assert(qb >= 1) by {
        if qb == 0 {
            assert(g * 0 == 0);
        }
    }
    let g2 = gcd_int(qa, qb);
    lemma_gcd_divides(qa, qb);
    assert(g2 >= 1);
    let k1 = choose|k: int| qa == #[trigger] (g2 * k);
    let k2 = choose|k: int| qb == #[trigger] (g2 * k);
    assert(a == (g2 * g) * k1) by (nonlinear_arith)
        requires
            g * qa == a,
            qa == g2 * k1,
    ;
    assert(b == (g2 * g) * k2) by (nonlinear_arith)
        requires
            g * qb == b,
            qb == g2 * k2,
    ;
    assert(divides(g2 * g, a));
    assert(divides(g2 * g, b));
    assert(g2 * g >= 1) by (nonlinear_arith)
        requires
            g2 >= 1,
            g >= 1,
    ;
    lemma_gcd_greatest(a, b, g2 * g);
    lemma_divides_le(g2 * g, g);
    assert(g2 <= 1) by (nonlinear_arith)
        requires
            g2 * g <= g,
            g >= 1,
            g2 >= 1,
    ;
}

/// Exact division: if `g` divides nonnegative `x`, dividing is invertible.
pub proof fn lemma_div_exact(x: int, g: int)
    requires
        g >= 1,
        x >= 0,
        divides(g, x),
    ensures
        g * (x / g) == x,
        0 <= x / g <= x,
{
    let k = choose|k: int| x == #[trigger] (g * k);
    assert(k >= 0) by (nonlinear_arith)
        requires
            x == g * k,
            g >= 1,
            x >= 0,
    ;
    vstd::arithmetic::div_mod::lemma_div_multiples_vanish(k, g);
    assert(x / g == k);
    assert(k <= g * k) by (nonlinear_arith)
        requires
            g >= 1,
            k >= 0,
    ;
}

/// The canonical form has a positive denominator, denotes the same rational,
/// and its components are no larger in magnitude than the original ones.
pub proof fn lemma_canon(r: Rat)
    requires
        r.d != 0,
    ensures
        rat_canon(r).d >= 1,
        rat_eq(rat_canon(r), r),
        rat_wf(rat_canon(r)),
        abs_int(rat_canon(r).n) == abs_int(r.n) / canon_g(r.n, r.d),
        rat_canon(r).d == abs_int(r.d) / canon_g(r.n, r.d),
        abs_int(rat_canon(r).n) <= abs_int(r.n),
        rat_canon(r).d <= abs_int(r.d),
        r.n == 0 ==> rat_canon(r) == rat_zero(),
        gcd_int(abs_int(rat_canon(r).n), rat_canon(r).d) == 1,
{
    let an = abs_int(r.n);
    let ad = abs_int(r.d);
    let g = canon_g(r.n, r.d);
    lemma_gcd_divides(an, ad);
    lemma_coprime_after_div(an, ad);
    lemma_div_exact(an, g);
    lemma_div_exact(ad, g);
    let qn = an / g;
    let qd = ad / g;
    assert(qd >= 1) by {
        if qd == 0 {
            assert(g * 0 == 0);
        }
    }
    assert(qn * ad == an * qd) by (nonlinear_arith)
        requires
            g * qn == an,
            g * qd == ad,
    ;
    let cn = canon_num(r.n, r.d);
    let cd = canon_den(r.n, r.d);
    if r.n >= 0 && r.d > 0 {
        assert(cn * r.d == r.n * cd) by (nonlinear_arith)
            requires
                qn * ad == an * qd,
                an == r.n,
                ad == r.d,
                cn == qn,
                cd == qd,
        ;
    } else if r.n >= 0 && r.d < 0 {
        assert(cn * r.d == r.n * cd) by (nonlinear_arith)
            requires
                qn * ad == an * qd,
                an == r.n,
                ad == -r.d,
                cn == -qn,
                cd == qd,
        ;
    } else if r.n < 0 && r.d > 0 {
        assert(cn * r.d == r.n * cd) by (nonlinear_arith)
            requires
                qn * ad == an * qd,
                an == -r.n,
                ad == r.d,
                cn == -qn,
                cd == qd,
        ;
    } else {
        assert(cn * r.d == r.n * cd) by (nonlinear_arith)
            requires
                qn * ad == an * qd,
                an == -r.n,
                ad == -r.d,
                cn == qn,
                cd == qd,
        ;
    }
    if r.n == 0 {
        vstd::arithmetic::div_mod::lemma_small_mod(0, ad as nat);
        assert(gcd_int(0, ad) == gcd_int(ad, 0int % ad));
        assert(gcd_int(ad, 0) == ad);
        assert(g == ad);
        assert(g * 1 == g);
        vstd::arithmetic::div_mod::lemma_div_multiples_vanish(1, g);
        vstd::arithmetic::div_mod::lemma_div_multiples_vanish(0, g);
        assert(g * 0 == 0);
    }
}

/// A rational with equal nonzero numerator and denominator reduces to one.
pub proof fn lemma_canon_self(x: int)
    requires
        x != 0,
    ensures
        rat_canon(Rat { n: x, d: x }) == rat_one(),
{
    let a = abs_int(x);
    assert(a % a == 0) by {
        vstd::arithmetic::div_mod::lemma_mod_self_0(a);
    }
    assert(gcd_int(a, a) == gcd_int(a, 0int % a)) by {
        assert(a % a == 0);
    }
    assert(gcd_int(a, a) == gcd_int(a, 0));
    assert(gcd_int(a, 0) == a);
    assert(canon_g(x, x) == a);
    assert(a / a == 1) by {
        vstd::arithmetic::div_mod::lemma_div_by_self(a);
    }
    assert(canon_num(x, x) == 1);
    assert(canon_den(x, x) == 1);
}

/// A rational with zero numerator reduces to zero.
pub proof fn lemma_canon_zero(r: Rat)
    requires
        r.d != 0,
        r.n == 0,
    ensures
        rat_canon(r) == rat_zero(),
{
    lemma_canon(r);
}

/// With a positive denominator and `i64` components the canonical form
/// always fits: reduction only shrinks magnitudes and keeps the sign.
pub proof fn lemma_canon_fits_pos_den(r: Rat)
    requires
        r.d >= 1,
        i64_fits(r.n),
        i64_fits(r.d),
    ensures
        canon_fits(r),
{
    lemma_canon(r);
    let c = rat_canon(r);
    if r.n >= 0 {
        assert(abs_int(c.n) <= r.n);
        assert(c.n >= 0) by (nonlinear_arith)
            requires
                c.n == canon_sign(r.n, r.d) * (abs_int(r.n) / canon_g(r.n, r.d)),
                canon_sign(r.n, r.d) == 1,
                abs_int(r.n) / canon_g(r.n, r.d) >= 0,
        ;
    } else {
        assert(abs_int(c.n) <= -r.n);
        assert(c.n <= 0) by (nonlinear_arith)
            requires
                c.n == canon_sign(r.n, r.d) * (abs_int(r.n) / canon_g(r.n, r.d)),
                canon_sign(r.n, r.d) == -1,
                abs_int(r.n) / canon_g(r.n, r.d) >= 0,
        ;
    }
}

// ------------------------------------------------------------------
// Equivalence and congruence of rational equality.
// ------------------------------------------------------------------

pub proof fn lemma_rat_eq_trans(a: Rat, b: Rat, c: Rat)
    requires
        a.d != 0,
        b.d != 0,
        c.d != 0,
        rat_eq(a, b),
        rat_eq(b, c),
    ensures
        rat_eq(a, c),
{
    assert(a.n * c.d == c.n * a.d) by (nonlinear_arith)
        requires
            a.n * b.d == b.n * a.d,
            b.n * c.d == c.n * b.d,
            b.d != 0,
    ;
}

pub proof fn lemma_rat_add_cong(a: Rat, a2: Rat, b: Rat, b2: Rat)
    requires
        a.d != 0,
        a2.d != 0,
        b.d != 0,
        b2.d != 0,
        rat_eq(a, a2),
        rat_eq(b, b2),
    ensures
        rat_eq(rat_add(a, b), rat_add(a2, b2)),
{
    let p = a.n * b.d;
    let q = b.n * a.d;
    let p2 = a2.n * b2.d;
    let q2 = b2.n * a2.d;
    let s = a2.d * b2.d;
    let s2 = a.d * b.d;
    assert((p + q) * s == p * s + q * s) by (nonlinear_arith);
    assert((p2 + q2) * s2 == p2 * s2 + q2 * s2) by (nonlinear_arith);
    assert((a.n * b.d) * (a2.d * b2.d) == (a.n * a2.d) * (b.d * b2.d)) by (nonlinear_arith);
    assert((b.n * a.d) * (a2.d * b2.d) == (b.n * b2.d) * (a.d * a2.d)) by (nonlinear_arith);
    assert((a2.n * b2.d) * (a.d * b.d) == (a2.n * a.d) * (b.d * b2.d)) by (nonlinear_arith);
    assert((b2.n * a2.d) * (a.d * b.d) == (b2.n * b.d) * (a.d * a2.d)) by (nonlinear_arith);
    assert((a.n * a2.d) * (b.d * b2.d) == (a2.n * a.d) * (b.d * b2.d)) by (nonlinear_arith)
        requires
            a.n * a2.d == a2.n * a.d,
    ;
    assert((b.n * b2.d) * (a.d * a2.d) == (b2.n * b.d) * (a.d * a2.d)) by (nonlinear_arith)
        requires
            b.n * b2.d == b2.n * b.d,
    ;
}

pub proof fn lemma_rat_sub_cong(a: Rat, a2: Rat, b: Rat, b2: Rat)
    requires
        a.d != 0,
        a2.d != 0,
        b.d != 0,
        b2.d != 0,
        rat_eq(a, a2),
        rat_eq(b, b2),
    ensures
        rat_eq(rat_sub(a, b), rat_sub(a2, b2)),
{
    assert(rat_eq(rat_neg(b), rat_neg(b2))) by (nonlinear_arith)
        requires
            b.n * b2.d == b2.n * b.d,
    ;
    lemma_rat_add_cong(a, a2, rat_neg(b), rat_neg(b2));
    assert(rat_add(a, rat_neg(b)).n == rat_sub(a, b).n) by (nonlinear_arith);
    assert(rat_add(a2, rat_neg(b2)).n == rat_sub(a2, b2).n) by (nonlinear_arith);
    assert(rat_add(a, rat_neg(b)) == rat_sub(a, b));
    assert(rat_add(a2, rat_neg(b2)) == rat_sub(a2, b2));
}

pub proof fn lemma_rat_mul_cong(a: Rat, a2: Rat, b: Rat, b2: Rat)
    requires
        a.d != 0,
        a2.d != 0,
        b.d != 0,
        b2.d != 0,
        rat_eq(a, a2),
        rat_eq(b, b2),
    ensures
        rat_eq(rat_mul(a, b), rat_mul(a2, b2)),
{
    assert((a.n * b.n) * (a2.d * b2.d) == (a2.n * b2.n) * (a.d * b.d)) by (nonlinear_arith)
        requires
            a.n * a2.d == a2.n * a.d,
            b.n * b2.d == b2.n * b.d,
    ;
}

pub proof fn lemma_rat_div_cong(a: Rat, a2: Rat, b: Rat, b2: Rat)
    requires
        a.d != 0,
        a2.d != 0,
        b.d != 0,
        b2.d != 0,
        rat_eq(a, a2),
        rat_eq(b, b2),
    ensures
        rat_eq(rat_div(a, b), rat_div(a2, b2)),
{
    assert((a.n * b.d) * (a2.d * b2.n) == (a2.n * b2.d) * (a.d * b.n)) by (nonlinear_arith)
        requires
            a.n * a2.d == a2.n * a.d,
            b.n * b2.d == b2.n * b.d,
    ;
}

pub proof fn lemma_rat_abs_cong(a: Rat, a2: Rat)
    requires
        a.d != 0,
        a2.d != 0,
        rat_eq(a, a2),
    ensures
        rat_eq(rat_abs(a), rat_abs(a2)),
{
    assert(abs_int(a.n) * abs_int(a2.d) == abs_int(a2.n) * abs_int(a.d)) by (nonlinear_arith)
        requires
            a.n * a2.d == a2.n * a.d,
            abs_int(a.n) == if a.n < 0 { -a.n } else { a.n },
            abs_int(a2.n) == if a2.n < 0 { -a2.n } else { a2.n },
            abs_int(a.d) == if a.d < 0 { -a.d } else { a.d },
            abs_int(a2.d) == if a2.d < 0 { -a2.d } else { a2.d },
    ;
}

/// `|r| < 1e-10`: the fixed singularity threshold, decided exactly.
pub open spec fn rat_below_tol10(r: Rat) -> bool
    recommends
        r.d > 0,
{
    abs_int(r.n) * 10000000000 < r.d
}

/// The singularity test respects rational equality.
pub proof fn lemma_below_tol10_cong(a: Rat, b: Rat)
    requires
        a.d > 0,
        b.d > 0,
        rat_eq(a, b),
    ensures
        rat_below_tol10(a) <==> rat_below_tol10(b),
{
    assert(abs_int(a.n) * b.d == abs_int(b.n) * a.d) by (nonlinear_arith)
        requires
            a.n * b.d == b.n * a.d,
            a.d > 0,
            b.d > 0,
            abs_int(a.n) == if a.n < 0 { -a.n } else { a.n },
            abs_int(b.n) == if b.n < 0 { -b.n } else { b.n },
    ;
    if rat_below_tol10(a) {
        assert(abs_int(b.n) * 10000000000 < b.d) by (nonlinear_arith)
            requires
                abs_int(a.n) * 10000000000 < a.d,
                abs_int(a.n) * b.d == abs_int(b.n) * a.d,
                a.d > 0,
                b.d > 0,
                abs_int(a.n) >= 0,
                abs_int(b.n) >= 0,
        ;
    }
    if rat_below_tol10(b) {
        assert(abs_int(a.n) * 10000000000 < a.d) by (nonlinear_arith)
            requires
                abs_int(b.n) * 10000000000 < b.d,
                abs_int(a.n) * b.d == abs_int(b.n) * a.d,
                a.d > 0,
                b.d > 0,
                abs_int(a.n) >= 0,
                abs_int(b.n) >= 0,
        ;
    }
}

pub proof fn lemma_rat_le_lt_trans(a: Rat, b: Rat, c: Rat)
    requires
        a.d > 0,
        b.d > 0,
        c.d > 0,
        rat_le(a, b),
        rat_lt(b, c),
    ensures
        rat_le(a, c),
{
    assert(a.n * c.d <= c.n * a.d) by (nonlinear_arith)
        requires
            a.n * b.d <= b.n * a.d,
            b.n * c.d < c.n * b.d,
            a.d > 0,
            b.d > 0,
            c.d > 0,
    ;
}

/// `<=` respects rational equality (positive denominators).
pub proof fn lemma_rat_le_cong(a: Rat, a2: Rat, b: Rat, b2: Rat)
    requires
        a.d > 0,
        a2.d > 0,
        b.d > 0,
        b2.d > 0,
        rat_eq(a, a2),
        rat_eq(b, b2),
        rat_le(a, b),
    ensures
        rat_le(a2, b2),
{
    assert(a2.n * b2.d <= b2.n * a2.d) by (nonlinear_arith)
        requires
            a.n * a2.d == a2.n * a.d,
            b.n * b2.d == b2.n * b.d,
            a.n * b.d <= b.n * a.d,
            a.d > 0,
            a2.d > 0,
            b.d > 0,
            b2.d > 0,
    ;
}

} // verus!
