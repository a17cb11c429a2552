//! Sums of rationals, and the uniqueness of the exact inverse: any two
//! matrices that invert the same square matrix agree entry by entry. This
//! is what lets the two independent inversion algorithms be compared.
use vstd::prelude::*;

use crate::matrix::{
    dot_prefix, id_rat, is_inverse, lemma_dot_prefix_wf, lemma_rat_eq_within_eps6, mat_wf,
    prod_entry, within_eps6,
};
use crate::rational::{
    lemma_rat_add_cong, lemma_rat_eq_trans, rat_add, rat_eq, rat_mul, rat_zero, Rat,
};

verus! {

/// The sum of the first `k` values of `f`.
pub open spec fn rsum(f: spec_fn(int) -> Rat, k: int) -> Rat
    decreases k,
{
    if k <= 0 {
        rat_zero()
    } else {
        rat_add(rsum(f, k - 1), f(k - 1))
    }
}

/// Adding a rational equal to zero changes nothing.
proof fn lemma_rat_add_zero(x: Rat, z: Rat)
    requires
        x.d != 0,
        z.d != 0,
        rat_eq(z, rat_zero()),
    ensures
        rat_eq(rat_add(x, z), x),
{
    assert(z.n * 1int == z.n && 0int * z.d == 0int);
    assert(z.n == 0);
    assert(rat_add(x, z).n == x.n * z.d + 0int * x.d);
    assert(0int * x.d == 0int);
    assert(rat_add(x, z).n == x.n * z.d);
    assert((x.n * z.d) * x.d == x.n * (x.d * z.d)) by (nonlinear_arith);
}

/// Addition commutes.
proof fn lemma_rat_add_comm(a: Rat, b: Rat)
    ensures
        rat_eq(rat_add(a, b), rat_add(b, a)),
{
    assert(rat_add(a, b).n == rat_add(b, a).n);
    assert(a.d * b.d == b.d * a.d) by (nonlinear_arith);
    assert(rat_add(a, b).d == rat_add(b, a).d);
}

/// Addition associates, up to rational equality.
proof fn lemma_rat_add_assoc(a: Rat, b: Rat, c: Rat)
    ensures
        rat_eq(rat_add(rat_add(a, b), c), rat_add(a, rat_add(b, c))),
{
    let p = a.n * b.d;
    let q = b.n * a.d;
    assert((p + q) * c.d == p * c.d + q * c.d) by (nonlinear_arith);
    assert((a.n * b.d) * c.d == a.n * (b.d * c.d)) by (nonlinear_arith);
    assert((b.n * a.d) * c.d == (b.n * c.d) * a.d) by (nonlinear_arith);
    assert(c.n * (a.d * b.d) == (c.n * b.d) * a.d) by (nonlinear_arith);
    let p2 = b.n * c.d;
    let q2 = c.n * b.d;
    assert((p2 + q2) * a.d == p2 * a.d + q2 * a.d) by (nonlinear_arith);
    assert((a.n * b.d + b.n * a.d) * c.d + c.n * (a.d * b.d) == a.n * (b.d * c.d) + (b.n * c.d
        + c.n * b.d) * a.d);
    assert((a.d * b.d) * c.d == a.d * (b.d * c.d)) by (nonlinear_arith);
    assert(rat_add(rat_add(a, b), c).n == rat_add(a, rat_add(b, c)).n);
    assert(rat_add(rat_add(a, b), c).d == rat_add(a, rat_add(b, c)).d);
}

/// Multiplication associates exactly.
proof fn lemma_rat_mul_assoc(a: Rat, b: Rat, c: Rat)
    ensures
        rat_mul(rat_mul(a, b), c) == rat_mul(a, rat_mul(b, c)),
{
    assert((a.n * b.n) * c.n == a.n * (b.n * c.n)) by (nonlinear_arith);
    assert((a.d * b.d) * c.d == a.d * (b.d * c.d)) by (nonlinear_arith);
}

/// Scaling numerator and denominator by a common nonzero factor changes
/// nothing.
proof fn lemma_rat_scale(n: int, d: int, s: int)
    requires
        s != 0,
    ensures
        rat_eq(Rat { n: s * n, d: s * d }, Rat { n: n, d: d }),
{
    assert((s * n) * d == n * (s * d)) by (nonlinear_arith);
}

/// Multiplication distributes over addition, up to rational equality.
proof fn lemma_rat_mul_add_dist(c: Rat, x: Rat, y: Rat)
    requires
        c.d != 0,
        x.d != 0,
        y.d != 0,
    ensures
        rat_eq(rat_mul(c, rat_add(x, y)), rat_add(rat_mul(c, x), rat_mul(c, y))),
{
    let lhs = rat_mul(c, rat_add(x, y));
    let rhs = rat_add(rat_mul(c, x), rat_mul(c, y));
    assert((c.n * x.n) * (c.d * y.d) == c.d * (c.n * (x.n * y.d))) by (nonlinear_arith);
    assert((c.n * y.n) * (c.d * x.d) == c.d * (c.n * (y.n * x.d))) by (nonlinear_arith);
    assert(c.d * (c.n * (x.n * y.d)) + c.d * (c.n * (y.n * x.d)) == c.d * (c.n * (x.n * y.d + y.n
        * x.d))) by (nonlinear_arith);
    assert(rhs.n == c.d * (c.n * (x.n * y.d + y.n * x.d)));
    assert((c.d * x.d) * (c.d * y.d) == c.d * (c.d * (x.d * y.d))) by (nonlinear_arith);
    assert(rhs.d == c.d * (c.d * (x.d * y.d)));
    assert(lhs.n == c.n * (x.n * y.d + y.n * x.d));
    assert(lhs.d == c.d * (x.d * y.d));
    lemma_rat_scale(lhs.n, lhs.d, c.d);
    assert(rhs == Rat { n: c.d * lhs.n, d: c.d * lhs.d });
    assert(rat_eq(rhs, lhs));
}

/// Multiplication commutes exactly.
proof fn lemma_rat_mul_comm(a: Rat, b: Rat)
    ensures
        rat_mul(a, b) == rat_mul(b, a),
{
    assert(a.n * b.n == b.n * a.n) by (nonlinear_arith);
    assert(a.d * b.d == b.d * a.d) by (nonlinear_arith);
}

/// A sum of well-formed rationals is well-formed.
proof fn lemma_rsum_wf(f: spec_fn(int) -> Rat, k: int)
    requires
        forall|t: int| 0 <= t < k ==> (#[trigger] f(t)).d > 0,
    ensures
        rsum(f, k).d > 0,
    decreases k,
{
    if k <= 0 {
    } else {
        lemma_rsum_wf(f, k - 1);
        assert(rat_add(rsum(f, k - 1), f(k - 1)).d > 0) by (nonlinear_arith)
            requires
                rsum(f, k - 1).d > 0,
                f(k - 1).d > 0,
        ;
    }
}

/// Sums of pointwise equal rationals are equal.
proof fn lemma_rsum_cong(f: spec_fn(int) -> Rat, g: spec_fn(int) -> Rat, k: int)
    requires
        forall|t: int| 0 <= t < k ==> (#[trigger] f(t)).d > 0,
        forall|t: int| 0 <= t < k ==> (#[trigger] g(t)).d > 0,
        forall|t: int| 0 <= t < k ==> rat_eq(#[trigger] f(t), g(t)),
    ensures
        rat_eq(rsum(f, k), rsum(g, k)),
    decreases k,
{
    if k <= 0 {
    } else {
        lemma_rsum_cong(f, g, k - 1);
        lemma_rsum_wf(f, k - 1);
        lemma_rsum_wf(g, k - 1);
        lemma_rat_add_cong(rsum(f, k - 1), rsum(g, k - 1), f(k - 1), g(k - 1));
    }
}

/// A sum of rationals each equal to zero is zero.
proof fn lemma_rsum_zero(f: spec_fn(int) -> Rat, k: int)
    requires
        forall|t: int| 0 <= t < k ==> (#[trigger] f(t)).d > 0,
        forall|t: int| 0 <= t < k ==> rat_eq(#[trigger] f(t), rat_zero()),
    ensures
        rat_eq(rsum(f, k), rat_zero()),
    decreases k,
{
    if k <= 0 {
    } else {
        lemma_rsum_zero(f, k - 1);
        lemma_rsum_wf(f, k - 1);
        lemma_rat_add_zero(rsum(f, k - 1), f(k - 1));
        assert(rat_add(rsum(f, k - 1), f(k - 1)).d != 0) by (nonlinear_arith)
            requires
                rsum(f, k - 1).d > 0,
                f(k - 1).d > 0,
        ;
        lemma_rat_eq_trans(rat_add(rsum(f, k - 1), f(k - 1)), rsum(f, k - 1), rat_zero());
    }
}

/// A sum whose terms vanish everywhere but at `t0` is its `t0` term.
proof fn lemma_rsum_delta(f: spec_fn(int) -> Rat, k: int, t0: int)
    requires
        0 <= t0 < k,
        forall|t: int| 0 <= t < k ==> (#[trigger] f(t)).d > 0,
        forall|t: int| 0 <= t < k && t != t0 ==> rat_eq(#[trigger] f(t), rat_zero()),
    ensures
        rat_eq(rsum(f, k), f(t0)),
    decreases k,
{
    lemma_rsum_wf(f, k - 1);
    if k - 1 == t0 {
        lemma_rsum_zero(f, k - 1);
        lemma_rat_add_comm(rsum(f, k - 1), f(t0));
        lemma_rat_add_zero(f(t0), rsum(f, k - 1));
        assert(rat_add(rsum(f, k - 1), f(t0)).d != 0) by (nonlinear_arith)
            requires
                rsum(f, k - 1).d > 0,
                f(t0).d > 0,
        ;
        lemma_rat_eq_trans(
            rat_add(rsum(f, k - 1), f(t0)),
            rat_add(f(t0), rsum(f, k - 1)),
            f(t0),
        );
    } else {
        lemma_rsum_delta(f, k - 1, t0);
        lemma_rat_add_zero(rsum(f, k - 1), f(k - 1));
        assert(rat_add(rsum(f, k - 1), f(k - 1)).d != 0) by (nonlinear_arith)
            requires
                rsum(f, k - 1).d > 0,
                f(k - 1).d > 0,
        ;
        lemma_rat_eq_trans(rat_add(rsum(f, k - 1), f(k - 1)), rsum(f, k - 1), f(t0));
    }
}

/// Sums add termwise.
proof fn lemma_rsum_split(f: spec_fn(int) -> Rat, g: spec_fn(int) -> Rat, k: int)
    requires
        forall|t: int| 0 <= t < k ==> (#[trigger] f(t)).d > 0,
        forall|t: int| 0 <= t < k ==> (#[trigger] g(t)).d > 0,
    ensures
        rat_eq(rsum(|t: int| rat_add(f(t), g(t)), k), rat_add(rsum(f, k), rsum(g, k))),
    decreases k,
{
    let s = |t: int| rat_add(f(t), g(t));
    assert forall|t: int| 0 <= t < k implies (#[trigger] s(t)).d > 0 by {
        assert(rat_add(f(t), g(t)).d > 0) by (nonlinear_arith)
            requires
                f(t).d > 0,
                g(t).d > 0,
        ;
    }
    if k <= 0 {
        assert(rat_add(rat_zero(), rat_zero()).n == 0int * 1 + 0int * 1);
        assert(rat_add(rat_zero(), rat_zero()) == rat_zero());
    } else {
        lemma_rsum_split(f, g, k - 1);
        lemma_rsum_wf(f, k - 1);
        lemma_rsum_wf(g, k - 1);
        lemma_rsum_wf(s, k - 1);
        let rf = rsum(f, k - 1);
        let rg = rsum(g, k - 1);
        let fk = f(k - 1);
        let gk = g(k - 1);
        lemma_rsum_wf(f, k);
        lemma_rsum_wf(g, k);
        lemma_rsum_wf(s, k);
        assert(rat_add(rf, rg).d > 0 && rat_add(fk, gk).d > 0 && rat_add(rg, fk).d > 0
            && rat_add(fk, rg).d > 0 && rat_add(rg, gk).d > 0 && rat_add(rf, fk).d > 0)
            by (nonlinear_arith)
            requires
                rf.d > 0,
                rg.d > 0,
                fk.d > 0,
                gk.d > 0,
        ;
        // rsum(s, k) = (rsum(s, k-1) + (fk + gk)) ~ ((rf + rg) + (fk + gk))
        lemma_rat_add_cong(rsum(s, k - 1), rat_add(rf, rg), s(k - 1), rat_add(fk, gk));
        // ((rf + rg) + (fk + gk)) ~ ((rf + fk) + (rg + gk)) by the exchange below
        lemma_rat_add_assoc(rf, rg, rat_add(fk, gk));
        lemma_rat_add_assoc(rg, fk, gk);
        lemma_rat_add_comm(rg, fk);
        lemma_rat_add_cong(rat_add(rg, fk), rat_add(fk, rg), gk, gk);
        lemma_rat_add_assoc(fk, rg, gk);
        // rg + (fk + gk) ~ (rg + fk) + gk ~ (fk + rg) + gk ~ fk + (rg + gk)
        assert(rat_eq(rat_add(rg, rat_add(fk, gk)), rat_add(rat_add(rg, fk), gk))) by {
            lemma_rat_add_assoc(rg, fk, gk);
        }
        let m1 = rat_add(rg, rat_add(fk, gk));
        let m2 = rat_add(rat_add(rg, fk), gk);
        let m3 = rat_add(rat_add(fk, rg), gk);
        let m4 = rat_add(fk, rat_add(rg, gk));
        assert(m1.d != 0 && m2.d != 0 && m3.d != 0 && m4.d != 0) by (nonlinear_arith)
            requires
                rf.d > 0,
                rg.d > 0,
                fk.d > 0,
                gk.d > 0,
                m1 == rat_add(rg, rat_add(fk, gk)),
                m2 == rat_add(rat_add(rg, fk), gk),
                m3 == rat_add(rat_add(fk, rg), gk),
                m4 == rat_add(fk, rat_add(rg, gk)),
        ;
        lemma_rat_eq_trans(m1, m2, m3);
        lemma_rat_eq_trans(m1, m3, m4);
        // so (rf + (rg + (fk+gk))) ~ (rf + (fk + (rg+gk)))
        lemma_rat_add_cong(rf, rf, m1, m4);
        lemma_rat_add_assoc(rf, fk, rat_add(rg, gk));
        // chain: rsum(s,k) ~ (rf+rg)+(fk+gk) ~ rf+(rg+(fk+gk)) ~ rf+(fk+(rg+gk))
        //        ~ (rf+fk)+(rg+gk) = rsum(f,k)+rsum(g,k)
        let c1 = rat_add(rsum(s, k - 1), s(k - 1));
        let c2 = rat_add(rat_add(rf, rg), rat_add(fk, gk));
        let c3 = rat_add(rf, m1);
        let c4 = rat_add(rf, m4);
        let c5 = rat_add(rat_add(rf, fk), rat_add(rg, gk));
        assert(c1.d != 0 && c2.d != 0 && c3.d != 0 && c4.d != 0 && c5.d != 0)
            by (nonlinear_arith)
            requires
                rsum(s, k - 1).d > 0,
                s(k - 1).d > 0,
                rf.d > 0,
                rg.d > 0,
                fk.d > 0,
                gk.d > 0,
                m1.d != 0,
                m4.d != 0,
                c1 == rat_add(rsum(s, k - 1), s(k - 1)),
                c2 == rat_add(rat_add(rf, rg), rat_add(fk, gk)),
                c3 == rat_add(rf, m1),
                c4 == rat_add(rf, m4),
                c5 == rat_add(rat_add(rf, fk), rat_add(rg, gk)),
        ;
        lemma_rat_eq_trans(c1, c2, c3);
        lemma_rat_eq_trans(c1, c3, c4);
        lemma_rat_eq_trans(c1, c4, c5);
        assert(rsum(s, k) == c1);
        assert(rsum(f, k) == rat_add(rf, fk));
        assert(rsum(g, k) == rat_add(rg, gk));
    }
}

/// A common left factor moves out of a sum.
proof fn lemma_rsum_mul_left(c: Rat, f: spec_fn(int) -> Rat, k: int)
    requires
        c.d > 0,
        forall|t: int| 0 <= t < k ==> (#[trigger] f(t)).d > 0,
    ensures
        rat_eq(rat_mul(c, rsum(f, k)), rsum(|t: int| rat_mul(c, f(t)), k)),
    decreases k,
{
    let s = |t: int| rat_mul(c, f(t));
    assert forall|t: int| 0 <= t < k implies (#[trigger] s(t)).d > 0 by {
        assert(rat_mul(c, f(t)).d > 0) by (nonlinear_arith)
            requires
                c.d > 0,
                f(t).d > 0,
        ;
    }
    if k <= 0 {
        assert(rat_mul(c, rat_zero()).n == c.n * 0int);
        assert(c.n * 0int == 0int) by (nonlinear_arith);
        assert(rat_mul(c, rat_zero()).d == c.d * 1int);
        assert(c.d * 1int == c.d) by (nonlinear_arith);
        assert(rat_eq(rat_mul(c, rat_zero()), rat_zero()));
    } else {
        lemma_rsum_mul_left(c, f, k - 1);
        lemma_rsum_wf(f, k - 1);
        lemma_rsum_wf(s, k - 1);
        lemma_rat_mul_add_dist(c, rsum(f, k - 1), f(k - 1));
        assert(rat_mul(c, rsum(f, k - 1)).d > 0) by (nonlinear_arith)
            requires
                c.d > 0,
                rsum(f, k - 1).d > 0,
        ;
        lemma_rat_add_cong(rat_mul(c, rsum(f, k - 1)), rsum(s, k - 1), rat_mul(c, f(k - 1)), s(
            k - 1,
        ));
        let m1 = rat_mul(c, rsum(f, k));
        let m2 = rat_add(rat_mul(c, rsum(f, k - 1)), rat_mul(c, f(k - 1)));
        let m3 = rat_add(rsum(s, k - 1), s(k - 1));
        assert(m1.d != 0 && m2.d != 0 && m3.d != 0) by (nonlinear_arith)
            requires
                c.d > 0,
                rsum(f, k - 1).d > 0,
                f(k - 1).d > 0,
                rsum(s, k - 1).d > 0,
                s(k - 1).d > 0,
                rsum(f, k) == rat_add(rsum(f, k - 1), f(k - 1)),
                m1 == rat_mul(c, rsum(f, k)),
                m2 == rat_add(rat_mul(c, rsum(f, k - 1)), rat_mul(c, f(k - 1))),
                m3 == rat_add(rsum(s, k - 1), s(k - 1)),
        ;
        lemma_rat_eq_trans(m1, m2, m3);
        assert(rsum(s, k) == m3);
    }
}

/// A common right factor moves out of a sum.
proof fn lemma_rsum_mul_right(c: Rat, f: spec_fn(int) -> Rat, k: int)
    requires
        c.d > 0,
        forall|t: int| 0 <= t < k ==> (#[trigger] f(t)).d > 0,
    ensures
        rat_eq(rat_mul(rsum(f, k), c), rsum(|t: int| rat_mul(f(t), c), k)),
    decreases k,
{
    lemma_rsum_mul_left(c, f, k);
    lemma_rat_mul_comm(rsum(f, k), c);
    let l = |t: int| rat_mul(c, f(t));
    let r = |t: int| rat_mul(f(t), c);
    assert forall|t: int| 0 <= t < k implies (#[trigger] l(t)).d > 0 && rat_eq(l(t), r(t)) by {
        lemma_rat_mul_comm(c, f(t));
        assert(rat_mul(c, f(t)).d > 0) by (nonlinear_arith)
            requires
                c.d > 0,
                f(t).d > 0,
        ;
    }
    assert forall|t: int| 0 <= t < k implies (#[trigger] r(t)).d > 0 by {
        assert(rat_mul(f(t), c).d > 0) by (nonlinear_arith)
            requires
                c.d > 0,
                f(t).d > 0,
        ;
    }
    lemma_rsum_cong(l, r, k);
    lemma_rsum_wf(f, k);
    let m1 = rat_mul(rsum(f, k), c);
    let m2 = rsum(l, k);
    let m3 = rsum(r, k);
    lemma_rsum_wf(l, k);
    lemma_rsum_wf(r, k);
    assert(m1.d != 0) by (nonlinear_arith)
        requires
            c.d > 0,
            rsum(f, k).d > 0,
            m1 == rat_mul(rsum(f, k), c),
    ;
    lemma_rat_eq_trans(m1, m2, m3);
}

/// The order of a double sum does not matter.
proof fn lemma_rsum_swap(f: spec_fn(int, int) -> Rat, kl: int, kk: int)
    requires
        forall|l: int, t: int| 0 <= l < kl && 0 <= t < kk ==> (#[trigger] f(l, t)).d > 0,
    ensures
        rat_eq(
            rsum(|l: int| rsum(|t: int| f(l, t), kk), kl),
            rsum(|t: int| rsum(|l: int| f(l, t), kl), kk),
        ),
    decreases kl,
{
    let outer_l = |l: int| rsum(|t: int| f(l, t), kk);
    let outer_t = |t: int| rsum(|l: int| f(l, t), kl);
    assert forall|l: int| 0 <= l < kl implies (#[trigger] outer_l(l)).d > 0 by {
        lemma_rsum_wf(|t: int| f(l, t), kk);
    }
    assert forall|t: int| 0 <= t < kk implies (#[trigger] outer_t(t)).d > 0 by {
        lemma_rsum_wf(|l: int| f(l, t), kl);
    }
    if kl <= 0 {
        let z = |t: int| rsum(|l: int| f(l, t), 0int);
        assert forall|t: int| 0 <= t < kk implies (#[trigger] z(t)).d > 0 && rat_eq(
            z(t),
            rat_zero(),
        ) by {
            assert(z(t) == rat_zero());
        }
        lemma_rsum_zero(z, kk);
        assert(rsum(outer_l, 0int) == rat_zero());
        assert forall|t: int| 0 <= t < kk implies #[trigger] z(t) == outer_t(t) by {
            assert(z(t) == rat_zero());
            assert(outer_t(t) == rat_zero());
        }
        lemma_rsum_same(z, outer_t, kk);
    } else {
        lemma_rsum_swap(f, kl - 1, kk);
        let prev_t = |t: int| rsum(|l: int| f(l, t), kl - 1);
        let last = |t: int| f(kl - 1, t);
        assert forall|t: int| 0 <= t < kk implies (#[trigger] prev_t(t)).d > 0 by {
            lemma_rsum_wf(|l: int| f(l, t), kl - 1);
        }
        assert forall|t: int| 0 <= t < kk implies (#[trigger] last(t)).d > 0 by {
        }
        // rsum over l up to kl splits off its last row
        assert(rsum(outer_l, kl) == rat_add(rsum(outer_l, kl - 1), rsum(last, kk)));
        lemma_rsum_wf(outer_l, kl - 1);
        lemma_rsum_wf(last, kk);
        let prev_l = |l: int| rsum(|t: int| f(l, t), kk);
        assert(rsum(outer_l, kl - 1) == rsum(prev_l, kl - 1)) by {
            lemma_rsum_same(outer_l, prev_l, kl - 1);
        }
        // by induction the (kl-1)-row double sum swaps
        lemma_rsum_wf(prev_t, kk);
        lemma_rat_add_cong(
            rsum(outer_l, kl - 1),
            rsum(prev_t, kk),
            rsum(last, kk),
            rsum(last, kk),
        );
        // sum over t of (prev + last) is the full column sum
        lemma_rsum_split(prev_t, last, kk);
        let st = |t: int| rat_add(prev_t(t), last(t));
        assert forall|t: int| 0 <= t < kk implies (#[trigger] st(t)).d > 0 && rat_eq(
            st(t),
            outer_t(t),
        ) && outer_t(t).d > 0 by {
            lemma_rsum_wf(|l: int| f(l, t), kl - 1);
            assert(rat_add(prev_t(t), last(t)).d > 0) by (nonlinear_arith)
                requires
                    prev_t(t).d > 0,
                    last(t).d > 0,
            ;
            assert(outer_t(t) == rat_add(rsum(|l: int| f(l, t), kl - 1), f(kl - 1, t)));
            assert(st(t) == outer_t(t));
            lemma_rsum_wf(|l: int| f(l, t), kl);
        }
        lemma_rsum_cong(st, outer_t, kk);
        // chain: rsum(outer_l, kl) = prev_double + last_row
        //      ~ rsum(prev_t, kk) + rsum(last, kk) ~ rsum(st, kk) ~ rsum(outer_t, kk)
        let c1 = rat_add(rsum(outer_l, kl - 1), rsum(last, kk));
        let c2 = rat_add(rsum(prev_t, kk), rsum(last, kk));
        let c3 = rsum(st, kk);
        let c4 = rsum(outer_t, kk);
        lemma_rsum_wf(st, kk);
        lemma_rsum_wf(outer_t, kk);
        assert(c1.d != 0 && c2.d != 0) by (nonlinear_arith)
            requires
                rsum(outer_l, kl - 1).d > 0,
                rsum(last, kk).d > 0,
                rsum(prev_t, kk).d > 0,
                c1 == rat_add(rsum(outer_l, kl - 1), rsum(last, kk)),
                c2 == rat_add(rsum(prev_t, kk), rsum(last, kk)),
        ;
        lemma_rat_eq_trans(c1, c2, c3);
        lemma_rat_eq_trans(c1, c3, c4);
        assert(rsum(outer_l, kl) == c1);
    }
}

/// `dot_prefix` is a sum of entry products.
proof fn lemma_dot_prefix_is_rsum(a: Seq<Seq<Rat>>, b: Seq<Seq<Rat>>, i: int, j: int, k: int)
    ensures
        dot_prefix(a, b, i, j, k) == rsum(|t: int| rat_mul(a[i][t], b[t][j]), k),
    decreases k,
{
    let f = |t: int| rat_mul(a[i][t], b[t][j]);
    if k <= 0 {
    } else {
        lemma_dot_prefix_is_rsum(a, b, i, j, k - 1);
        assert(rsum(f, k) == rat_add(rsum(f, k - 1), f(k - 1)));
    }
}

/// Any two exact two-sided inverses of the same square matrix agree,
/// entry by entry. In particular the results of the two independent
/// inversion algorithms denote the same matrix whenever both succeed.
pub proof fn lemma_inverse_unique(a: Seq<Seq<Rat>>, r1: Seq<Seq<Rat>>, r2: Seq<Seq<Rat>>)
    requires
        mat_wf(a),
        mat_wf(r1),
        mat_wf(r2),
        is_inverse(a, r1),
        is_inverse(a, r2),
    ensures
        forall|i: int, j: int|
            0 <= i < a.len() && 0 <= j < a.len() ==> rat_eq(#[trigger] r1[i][j], r2[i][j]),
{
    let n = a.len() as int;
    assert forall|i: int, j: int| 0 <= i < n && 0 <= j < n implies rat_eq(
        #[trigger] r1[i][j],
        r2[i][j],
    ) by {
        let f1 = |l: int| rat_mul(r1[i][l], id_rat(l, j));
        let g1 = |l: int| rat_mul(r1[i][l], prod_entry(a, r2, l, j));
        let ff = |l: int, t: int| rat_mul(r1[i][l], rat_mul(a[l][t], r2[t][j]));
        let dbl_l = |l: int| rsum(|t: int| ff(l, t), n);
        let dbl_t = |t: int| rsum(|l: int| ff(l, t), n);
        let h = |t: int| rat_mul(prod_entry(r1, a, i, t), r2[t][j]);
        let f2 = |t: int| rat_mul(id_rat(i, t), r2[t][j]);
        // entry wellformedness and dimensions, in instantiable form
        assert forall|l: int, t: int| 0 <= l < n && 0 <= t < n implies (#[trigger] a[l][t]).d > 0
            && r1[l][t].d > 0 && r2[l][t].d > 0 && a[l].len() == n && r1[l].len() == n
            && r2[l].len() == n by {
            assert(a[l].len() == n);
            assert(r1[l].len() == n);
            assert(r2[l].len() == n);
        }
        assert forall|l: int| 0 <= l < n implies (#[trigger] prod_entry(a, r2, l, j)).d > 0
            && rat_eq(prod_entry(a, r2, l, j), id_rat(l, j)) by {
            lemma_dot_prefix_wf(a, r2, l, j, n);
        }
        assert forall|t: int| 0 <= t < n implies (#[trigger] prod_entry(r1, a, i, t)).d > 0
            && rat_eq(prod_entry(r1, a, i, t), id_rat(i, t)) by {
            lemma_dot_prefix_wf(r1, a, i, t, n);
        }
        // the f1 sum collapses to r1[i][j]
        assert forall|l: int| 0 <= l < n implies (#[trigger] f1(l)).d > 0 by {
            assert(rat_mul(r1[i][l], id_rat(l, j)).d == r1[i][l].d * id_rat(l, j).d);
            assert(r1[i][l].d * 1int == r1[i][l].d);
        }
        assert forall|l: int| 0 <= l < n && l != j implies rat_eq(#[trigger] f1(l), rat_zero())
            by {
            assert(f1(l).n == r1[i][l].n * 0int);
            assert(r1[i][l].n * 0int == 0int) by (nonlinear_arith);
            assert(f1(l).n * 1int == f1(l).n && 0int * f1(l).d == 0int);
        }
        lemma_rsum_delta(f1, n, j);
        assert(r1[i][j].n * 1int == r1[i][j].n && r1[i][j].d * 1int == r1[i][j].d);
        assert(f1(j) == r1[i][j]);
        // replace the identity entries by the products with r2
        assert forall|l: int| 0 <= l < n implies (#[trigger] g1(l)).d > 0 && rat_eq(f1(l), g1(l))
            by {
            assert(rat_mul(r1[i][l], prod_entry(a, r2, l, j)).d > 0) by (nonlinear_arith)
                requires
                    r1[i][l].d > 0,
                    prod_entry(a, r2, l, j).d > 0,
            ;
            crate::rational::lemma_rat_mul_cong(
                r1[i][l],
                r1[i][l],
                id_rat(l, j),
                prod_entry(a, r2, l, j),
            );
        }
        lemma_rsum_cong(f1, g1, n);
        // expand each product into a sum: a row of the double sum
        assert forall|l: int, t: int| 0 <= l < n && 0 <= t < n implies (#[trigger] ff(l, t)).d
            > 0 by {
            assert(rat_mul(r1[i][l], rat_mul(a[l][t], r2[t][j])).d > 0) by (nonlinear_arith)
                requires
                    r1[i][l].d > 0,
                    a[l][t].d > 0,
                    r2[t][j].d > 0,
            ;
        }
        assert forall|l: int| 0 <= l < n implies (#[trigger] dbl_l(l)).d > 0 && rat_eq(
            g1(l),
            dbl_l(l),
        ) by {
            let inner = |t: int| rat_mul(a[l][t], r2[t][j]);
            assert forall|t: int| 0 <= t < n implies (#[trigger] inner(t)).d > 0 by {
                assert(rat_mul(a[l][t], r2[t][j]).d > 0) by (nonlinear_arith)
                    requires
                        a[l][t].d > 0,
                        r2[t][j].d > 0,
                ;
            }
            lemma_dot_prefix_is_rsum(a, r2, l, j, n);
            lemma_rsum_mul_left(r1[i][l], inner, n);
            let scaled = |t: int| rat_mul(r1[i][l], inner(t));
            assert forall|t: int| 0 <= t < n implies #[trigger] scaled(t) == ff(l, t) by {}
            lemma_rsum_same(scaled, |t: int| ff(l, t), n);
            lemma_rsum_wf(|t: int| ff(l, t), n);
            lemma_rsum_wf(inner, n);
            assert(g1(l).d != 0) by (nonlinear_arith)
                requires
                    r1[i][l].d > 0,
                    prod_entry(a, r2, l, j).d > 0,
                    g1(l) == rat_mul(r1[i][l], prod_entry(a, r2, l, j)),
            ;
            assert(g1(l) == rat_mul(r1[i][l], rsum(inner, n)));
        }
        lemma_rsum_cong(g1, dbl_l, n);
        // exchange the two sums
        assert forall|l: int| 0 <= l < n implies #[trigger] dbl_l(l) == (
        |l2: int| rsum(|t: int| ff(l2, t), n))(l) by {}
        lemma_rsum_same(dbl_l, |l: int| rsum(|t: int| ff(l, t), n), n);
        lemma_rsum_swap(ff, n, n);
        assert forall|t: int| 0 <= t < n implies #[trigger] dbl_t(t) == (
        |t2: int| rsum(|l: int| ff(l, t2), n))(t) by {}
        lemma_rsum_same(|t: int| rsum(|l: int| ff(l, t), n), dbl_t, n);
        // each column sum factors through the product with a
        assert forall|t: int| 0 <= t < n implies (#[trigger] dbl_t(t)).d > 0 && (h(t)).d > 0
            && rat_eq(dbl_t(t), h(t)) by {
            let col = |l: int| ff(l, t);
            let grouped = |l: int| rat_mul(rat_mul(r1[i][l], a[l][t]), r2[t][j]);
            let left = |l: int| rat_mul(r1[i][l], a[l][t]);
            assert forall|l: int| 0 <= l < n implies #[trigger] col(l) == grouped(l) by {
                lemma_rat_mul_assoc(r1[i][l], a[l][t], r2[t][j]);
            }
            lemma_rsum_same(col, grouped, n);
            assert forall|l: int| 0 <= l < n implies (#[trigger] left(l)).d > 0 by {
                assert(rat_mul(r1[i][l], a[l][t]).d > 0) by (nonlinear_arith)
                    requires
                        r1[i][l].d > 0,
                        a[l][t].d > 0,
                ;
            }
            lemma_rsum_mul_right(r2[t][j], left, n);
            let scaled2 = |l: int| rat_mul(left(l), r2[t][j]);
            assert forall|l: int| 0 <= l < n implies #[trigger] scaled2(l) == grouped(l) by {}
            lemma_rsum_same(scaled2, grouped, n);
            lemma_dot_prefix_is_rsum(r1, a, i, t, n);
            assert(rsum(left, n) == prod_entry(r1, a, i, t));
            lemma_rsum_wf(col, n);
            lemma_rsum_wf(left, n);
            assert(h(t).d != 0) by (nonlinear_arith)
                requires
                    prod_entry(r1, a, i, t).d > 0,
                    r2[t][j].d > 0,
                    h(t) == rat_mul(prod_entry(r1, a, i, t), r2[t][j]),
            ;
            assert(h(t) == rat_mul(rsum(left, n), r2[t][j]));
        }
        assert forall|t: int| 0 <= t < n implies (#[trigger] h(t)).d > 0 by {
            assert(rat_mul(prod_entry(r1, a, i, t), r2[t][j]).d > 0) by (nonlinear_arith)
                requires
                    prod_entry(r1, a, i, t).d > 0,
                    r2[t][j].d > 0,
            ;
        }
        lemma_rsum_cong(dbl_t, h, n);
        // replace the left products by identity entries
        assert forall|t: int| 0 <= t < n implies (#[trigger] f2(t)).d > 0 && rat_eq(h(t), f2(t))
            by {
            assert(rat_mul(id_rat(i, t), r2[t][j]).d == id_rat(i, t).d * r2[t][j].d);
            assert(1int * r2[t][j].d == r2[t][j].d);
            crate::rational::lemma_rat_mul_cong(
                prod_entry(r1, a, i, t),
                id_rat(i, t),
                r2[t][j],
                r2[t][j],
            );
        }
        lemma_rsum_cong(h, f2, n);
        // the f2 sum collapses to r2[i][j]
        assert forall|t: int| 0 <= t < n && t != i implies rat_eq(#[trigger] f2(t), rat_zero())
            by {
            assert(f2(t).n == 0int * r2[t][j].n);
            assert(0int * r2[t][j].n == 0int) by (nonlinear_arith);
            assert(f2(t).n * 1int == f2(t).n && 0int * f2(t).d == 0int);
        }
        lemma_rsum_delta(f2, n, i);
        assert(1int * r2[i][j].n == r2[i][j].n && 1int * r2[i][j].d == r2[i][j].d);
        assert(f2(i) == r2[i][j]);
        // chain everything together
        lemma_rsum_wf(f1, n);
        lemma_rsum_wf(g1, n);
        lemma_rsum_wf(dbl_l, n);
        lemma_rsum_wf(dbl_t, n);
        lemma_rsum_wf(h, n);
        lemma_rsum_wf(f2, n);
        let outer_l = |l: int| rsum(|t: int| ff(l, t), n);
        let outer_t = |t: int| rsum(|l: int| ff(l, t), n);
        assert(rsum(dbl_l, n) == rsum(outer_l, n));
        assert(rsum(dbl_t, n) == rsum(outer_t, n));
        lemma_rat_eq_trans(r1[i][j], rsum(f1, n), rsum(g1, n));
        lemma_rat_eq_trans(r1[i][j], rsum(g1, n), rsum(dbl_l, n));
        lemma_rat_eq_trans(r1[i][j], rsum(dbl_l, n), rsum(dbl_t, n));
        lemma_rat_eq_trans(r1[i][j], rsum(dbl_t, n), rsum(h, n));
        lemma_rat_eq_trans(r1[i][j], rsum(h, n), rsum(f2, n));
        lemma_rat_eq_trans(r1[i][j], rsum(f2, n), r2[i][j]);
    }
}

/// Whenever both inversion algorithms succeed on the same matrix, their
/// results agree within the comparison tolerance, entry by entry.
pub proof fn lemma_inverses_agree(a: Seq<Seq<Rat>>, r1: Seq<Seq<Rat>>, r2: Seq<Seq<Rat>>)
    requires
        mat_wf(a),
        mat_wf(r1),
        mat_wf(r2),
        is_inverse(a, r1),
        is_inverse(a, r2),
    ensures
        forall|i: int, j: int|
            0 <= i < a.len() && 0 <= j < a.len() ==> within_eps6(#[trigger] r1[i][j], r2[i][j]),
{
    lemma_inverse_unique(a, r1, r2);
    assert forall|i: int, j: int| 0 <= i < a.len() && 0 <= j < a.len() implies within_eps6(
        #[trigger] r1[i][j],
        r2[i][j],
    ) by {
        assert(r1[i].len() == a.len());
        assert(r2[i].len() == a.len());
        lemma_rat_eq_within_eps6(r1[i][j], r2[i][j]);
    }
}

/// Sums of identical functions are identical.
proof fn lemma_rsum_same(f: spec_fn(int) -> Rat, g: spec_fn(int) -> Rat, k: int)
    requires
        forall|t: int| 0 <= t < k ==> #[trigger] f(t) == g(t),
    ensures
        rsum(f, k) == rsum(g, k),
    decreases k,
{
    if k <= 0 {
    } else {
        lemma_rsum_same(f, g, k - 1);
    }
}

} // verus!
