//! The matrix model shared by both inversion algorithms, and the comparator:
//! exact matrix product, tolerance comparison and identity-deviation report.
use vstd::prelude::*;

use crate::rational::{
    abs_int, canon_fits, lemma_rat_abs_cong, lemma_rat_add_cong, lemma_rat_eq_trans,
    lemma_rat_le_lt_trans, rat_abs, rat_add, rat_canon, rat_eq, rat_le, rat_lt, rat_mul, rat_one,
    rat_sub, rat_zero, Rat,
};
use crate::{Fraction, MatrixError};

verus! {

/// A matrix of exact rationals: an ordered sequence of rows.
pub type FractionMatrix = Vec<Vec<Fraction>>;

/// The mathematical content of a matrix: its entries as rationals.
pub open spec fn mat_view(m: Seq<Vec<Fraction>>) -> Seq<Seq<Rat>> {
    m.map_values(|row: Vec<Fraction>| row@.map_values(|x: Fraction| x@))
}

/// Every entry has a positive denominator.
pub open spec fn mat_wf(mv: Seq<Seq<Rat>>) -> bool {
    forall|i: int, j: int|
        0 <= i < mv.len() && 0 <= j < mv[i].len() ==> (#[trigger] mv[i][j]).d > 0
}

/// Nonempty and every row as long as there are rows.
pub open spec fn is_square(mv: Seq<Seq<Rat>>) -> bool {
    mv.len() > 0 && forall|i: int| 0 <= i < mv.len() ==> (#[trigger] mv[i]).len() == mv.len()
}

/// The identity matrix entry at `(i, j)`.
pub open spec fn id_rat(i: int, j: int) -> Rat {
    if i == j {
        rat_one()
    } else {
        rat_zero()
    }
}

/// Sum of the first `k` terms of the dot product of row `i` of `a` with
/// column `j` of `b`.
pub open spec fn dot_prefix(a: Seq<Seq<Rat>>, b: Seq<Seq<Rat>>, i: int, j: int, k: int) -> Rat
    decreases k,
{
    if k <= 0 {
        rat_zero()
    } else {
        rat_add(dot_prefix(a, b, i, j, k - 1), rat_mul(a[i][k - 1], b[k - 1][j]))
    }
}

/// Entry `(i, j)` of the product `a * b` (inner dimension `b.len()`).
pub open spec fn prod_entry(a: Seq<Seq<Rat>>, b: Seq<Seq<Rat>>, i: int, j: int) -> Rat {
    dot_prefix(a, b, i, j, b.len() as int)
}

/// `b` is a two-sided exact inverse of the square matrix `a`.
pub open spec fn is_inverse(a: Seq<Seq<Rat>>, b: Seq<Seq<Rat>>) -> bool {
    &&& is_square(a)
    &&& b.len() == a.len()
    &&& (forall|i: int| 0 <= i < b.len() ==> (#[trigger] b[i]).len() == a.len())
    &&& (forall|i: int, j: int|
        0 <= i < a.len() && 0 <= j < a.len() ==> rat_eq(
            #[trigger] prod_entry(a, b, i, j),
            id_rat(i, j),
        ))
    &&& (forall|i: int, j: int|
        0 <= i < a.len() && 0 <= j < a.len() ==> rat_eq(
            #[trigger] prod_entry(b, a, i, j),
            id_rat(i, j),
        ))
}

/// `a` and `b` differ by at most `1e-6`.
pub open spec fn within_eps6(a: Rat, b: Rat) -> bool
    recommends
        a.d > 0,
        b.d > 0,
{
    abs_int(a.n * b.d - b.n * a.d) * 1000000 <= a.d * b.d
}

/// The payload of an optional rational.
pub open spec fn rat_of(o: Option<Rat>) -> Rat {
    match o {
        Some(v) => v,
        None => rat_zero(),
    }
}

/// Mirror of the running product-entry computation: the canonical value of
/// the first `k` terms of the dot product, or `None` as soon as an exact
/// intermediate leaves the 64-bit range.
pub open spec fn try_prod_entry(
    a: Seq<Seq<Rat>>,
    b: Seq<Seq<Rat>>,
    i: int,
    j: int,
    k: int,
) -> Option<Rat>
    decreases k,
{
    if k <= 0 {
        Some(rat_zero())
    } else {
        match try_prod_entry(a, b, i, j, k - 1) {
            None => None,
            Some(acc) => {
                let t = rat_mul(a[i][k - 1], b[k - 1][j]);
                if !canon_fits(t) {
                    None
                } else {
                    let s = rat_add(acc, rat_canon(t));
                    if !canon_fits(s) {
                        None
                    } else {
                        Some(rat_canon(s))
                    }
                }
            },
        }
    }
}

/// Once an intermediate overflows, every longer prefix overflows.
pub proof fn lemma_try_prod_none_mono(
    a: Seq<Seq<Rat>>,
    b: Seq<Seq<Rat>>,
    i: int,
    j: int,
    k: int,
    k2: int,
)
    requires
        try_prod_entry(a, b, i, j, k) is None,
        k <= k2,
    ensures
        try_prod_entry(a, b, i, j, k2) is None,
    decreases k2,
{
    if k2 > k {
        lemma_try_prod_none_mono(a, b, i, j, k, k2 - 1);
    }
}

/// Both products of `a` and `b` stay in range and are exactly the identity.
pub open spec fn confirm_ok(a: Seq<Seq<Rat>>, b: Seq<Seq<Rat>>, n: int) -> bool {
    &&& (forall|i: int, j: int|
        0 <= i < n && 0 <= j < n ==> (#[trigger] try_prod_entry(a, b, i, j, n)) is Some
            && rat_eq(rat_of(try_prod_entry(a, b, i, j, n)), id_rat(i, j)))
    &&& (forall|i: int, j: int|
        0 <= i < n && 0 <= j < n ==> (#[trigger] try_prod_entry(b, a, i, j, n)) is Some
            && rat_eq(rat_of(try_prod_entry(b, a, i, j, n)), id_rat(i, j)))
}

/// The entrywise deviation from the identity is representable.
pub open spec fn entry_err_fits(me: Rat, ie: Rat) -> bool {
    canon_fits(rat_sub(me, ie)) && canon_fits(rat_abs(rat_canon(rat_sub(me, ie))))
}

/// Exactly equal rationals agree within the comparison tolerance; two
/// matrices whose entries denote the same rationals always compare equal.
pub proof fn lemma_rat_eq_within_eps6(a: Rat, b: Rat)
    requires
        a.d > 0,
        b.d > 0,
        rat_eq(a, b),
    ensures
        within_eps6(a, b),
{
    assert(abs_int(a.n * b.d - b.n * a.d) == 0);
    assert(a.d * b.d >= 1) by (nonlinear_arith)
        requires
            a.d > 0,
            b.d > 0,
    ;
}

/// Bridges a row of the exec representation to the rational view.
pub proof fn lemma_row_view(m: Seq<Vec<Fraction>>, i: int)
    requires
        0 <= i < m.len(),
    ensures
        mat_view(m).len() == m.len(),
        mat_view(m)[i].len() == m[i]@.len(),
        forall|j: int| 0 <= j < m[i]@.len() ==> #[trigger] mat_view(m)[i][j] == m[i]@[j]@,
{
    assert forall|j: int| 0 <= j < m[i]@.len() implies #[trigger] mat_view(m)[i][j]
        == m[i]@[j]@ by {
        assert(mat_view(m)[i] == m[i]@.map_values(|x: Fraction| x@));
    }
}

/// Partial dot products of well-formed matrices are well-formed.
pub proof fn lemma_dot_prefix_wf(a: Seq<Seq<Rat>>, b: Seq<Seq<Rat>>, i: int, j: int, k: int)
    requires
        mat_wf(a),
        mat_wf(b),
        0 <= i < a.len(),
        0 <= j,
        k <= a[i].len(),
        k <= b.len(),
        forall|r: int| 0 <= r < k ==> j < (#[trigger] b[r]).len(),
    ensures
        dot_prefix(a, b, i, j, k).d > 0,
    decreases k,
{
    if k <= 0 {
    } else {
        lemma_dot_prefix_wf(a, b, i, j, k - 1);
        assert(rat_mul(a[i][k - 1], b[k - 1][j]).d > 0) by (nonlinear_arith)
            requires
                a[i][k - 1].d > 0,
                b[k - 1][j].d > 0,
        ;
        assert(rat_add(dot_prefix(a, b, i, j, k - 1), rat_mul(a[i][k - 1], b[k - 1][j])).d > 0)
            by (nonlinear_arith)
            requires
                dot_prefix(a, b, i, j, k - 1).d > 0,
                rat_mul(a[i][k - 1], b[k - 1][j]).d > 0,
        ;
    }
}

/// Copy of a row, entry for entry.
pub fn copy_row(r: &Vec<Fraction>) -> (res: Vec<Fraction>)
    ensures
        res@ == r@,
{
    let mut res: Vec<Fraction> = Vec::new();
    let mut i: usize = 0;
    while i < r.len()
        invariant
            0 <= i <= r.len(),
            res@ == r@.subrange(0, i as int),
        decreases r.len() - i,
    {
        res.push(r[i]);
        assert(res@ =~= r@.subrange(0, i + 1 as int));
        i += 1;
    }
    assert(res@ =~= r@);
    res
}

/// Exact matrix product `a * b`; fails only when an exact intermediate
/// value leaves the 64-bit range.
pub fn matrix_multiply(a: &FractionMatrix, b: &FractionMatrix) -> (r: Result<
    FractionMatrix,
    MatrixError,
>)
    requires
        mat_wf(mat_view(a@)),
        mat_wf(mat_view(b@)),
        b@.len() >= 1,
        forall|i: int| 0 <= i < a@.len() ==> (#[trigger] mat_view(a@)[i]).len() == b@.len(),
        forall|i: int|
            0 <= i < b@.len() ==> (#[trigger] mat_view(b@)[i]).len() == mat_view(b@)[0].len(),
    ensures
        r matches Ok(p) ==> {
            &&& p@.len() == a@.len()
            &&& (forall|i: int|
                0 <= i < p@.len() ==> (#[trigger] mat_view(p@)[i]).len() == mat_view(b@)[0].len())
            &&& mat_wf(mat_view(p@))
            &&& (forall|i: int, j: int|
                0 <= i < a@.len() && 0 <= j < mat_view(b@)[0].len() ==> rat_eq(
                    #[trigger] mat_view(p@)[i][j],
                    prod_entry(mat_view(a@), mat_view(b@), i, j),
                ))
            &&& (forall|i: int, j: int|
                0 <= i < a@.len() && 0 <= j < mat_view(b@)[0].len() ==> (#[trigger] try_prod_entry(
                    mat_view(a@),
                    mat_view(b@),
                    i,
                    j,
                    b@.len() as int,
                )) is Some && mat_view(p@)[i][j] == rat_of(
                    try_prod_entry(mat_view(a@), mat_view(b@), i, j, b@.len() as int),
                ))
        },
        (r is Ok) <==> (forall|i: int, j: int|
            0 <= i < a@.len() && 0 <= j < mat_view(b@)[0].len() ==> (#[trigger] try_prod_entry(
                mat_view(a@),
                mat_view(b@),
                i,
                j,
                b@.len() as int,
            )) is Some),
        r matches Err(e) ==> e == MatrixError::Overflow,
{
    let ghost av = mat_view(a@);
    let ghost bv = mat_view(b@);
    let n = a.len();
    let m = b[0].len();
    let p = b.len();
    let mut result: FractionMatrix = Vec::new();
    let mut i: usize = 0;
    while i < n
        invariant
            0 <= i <= n,
            n == a@.len(),
            m == bv[0].len(),
            p == b@.len(),
            av == mat_view(a@),
            bv == mat_view(b@),
            mat_wf(av),
            mat_wf(bv),
            p >= 1,
            forall|r: int| 0 <= r < n ==> (#[trigger] av[r]).len() == p,
            forall|r: int| 0 <= r < p ==> (#[trigger] bv[r]).len() == m,
            result@.len() == i,
            forall|r: int| 0 <= r < i ==> (#[trigger] mat_view(result@)[r]).len() == m,
            forall|r: int, c: int|
                0 <= r < i && 0 <= c < m ==> (#[trigger] mat_view(result@)[r][c]).d > 0 && rat_eq(
                    mat_view(result@)[r][c],
                    prod_entry(av, bv, r, c),
                ),
            forall|r: int, c: int|
                0 <= r < i && 0 <= c < m ==> (#[trigger] try_prod_entry(av, bv, r, c, p as int))
                    is Some && mat_view(result@)[r][c] == rat_of(
                    try_prod_entry(av, bv, r, c, p as int),
                ),
        decreases n - i,
    {
        let mut row: Vec<Fraction> = Vec::new();
        let mut j: usize = 0;
        while j < m
            invariant
                0 <= j <= m,
                0 <= i < n,
                n == a@.len(),
                m == bv[0].len(),
                p == b@.len(),
                av == mat_view(a@),
                bv == mat_view(b@),
                mat_wf(av),
                mat_wf(bv),
                p >= 1,
                forall|r: int| 0 <= r < n ==> (#[trigger] av[r]).len() == p,
                forall|r: int| 0 <= r < p ==> (#[trigger] bv[r]).len() == m,
                row@.len() == j,
                forall|c: int|
                    0 <= c < j ==> (#[trigger] row@[c]@).d > 0 && rat_eq(
                        row@[c]@,
                        prod_entry(av, bv, i as int, c),
                    ),
                forall|c: int|
                    0 <= c < j ==> (#[trigger] try_prod_entry(av, bv, i as int, c, p as int))
                        is Some && row@[c]@ == rat_of(try_prod_entry(av, bv, i as int, c, p as int)),
            decreases m - j,
        {
            let mut sum = Fraction { numerator: 0, denominator: 1 };
            let mut k: usize = 0;
            while k < p
                invariant
                    0 <= k <= p,
                    0 <= i < n,
                    0 <= j < m,
                    n == a@.len(),
                    m == bv[0].len(),
                    p == b@.len(),
                    av == mat_view(a@),
                    bv == mat_view(b@),
                    mat_wf(av),
                    mat_wf(bv),
                    forall|r: int| 0 <= r < n ==> (#[trigger] av[r]).len() == p,
                    forall|r: int| 0 <= r < p ==> (#[trigger] bv[r]).len() == m,
                    sum.wf(),
                    rat_eq(sum@, dot_prefix(av, bv, i as int, j as int, k as int)),
                    try_prod_entry(av, bv, i as int, j as int, k as int) == Some(sum@),
                decreases p - k,
            {
                proof {
                    assert(a@[i as int]@.len() == av[i as int].len());
                    assert(b@[k as int]@.len() == bv[k as int].len());
                    assert(a@[i as int]@[k as int]@ == av[i as int][k as int]);
                    assert(b@[k as int]@[j as int]@ == bv[k as int][j as int]);
                }
                let term = match a[i][k].checked_mul(&b[k][j]) {
                    Some(t) => t,
                    None => {
                        proof {
                            assert(try_prod_entry(av, bv, i as int, j as int, k as int + 1)
                                is None);
                            lemma_try_prod_none_mono(
                                av,
                                bv,
                                i as int,
                                j as int,
                                k as int + 1,
                                p as int,
                            );
                        }
                        return Err(MatrixError::Overflow);
                    },
                };
                let next = match sum.checked_add(&term) {
                    Some(s) => s,
                    None => {
                        proof {
                            assert(try_prod_entry(av, bv, i as int, j as int, k as int + 1)
                                is None);
                            lemma_try_prod_none_mono(
                                av,
                                bv,
                                i as int,
                                j as int,
                                k as int + 1,
                                p as int,
                            );
                        }
                        return Err(MatrixError::Overflow);
                    },
                };
                proof {
                    let dk = dot_prefix(av, bv, i as int, j as int, k as int);
                    let dk1 = dot_prefix(av, bv, i as int, j as int, k as int + 1);
                    let ta = av[i as int][k as int];
                    let tb = bv[k as int][j as int];
                    lemma_dot_prefix_wf(av, bv, i as int, j as int, k as int);
                    lemma_dot_prefix_wf(av, bv, i as int, j as int, k as int + 1);
                    assert(rat_mul(ta, tb).d > 0) by (nonlinear_arith)
                        requires
                            ta.d > 0,
                            tb.d > 0,
                    ;
                    lemma_rat_add_cong(sum@, dk, term@, rat_mul(ta, tb));
                    assert(rat_add(sum@, term@).d > 0) by (nonlinear_arith)
                        requires
                            sum@.d > 0,
                            term@.d > 0,
                    ;
                    lemma_rat_eq_trans(next@, rat_add(sum@, term@), dk1);
                    assert(try_prod_entry(av, bv, i as int, j as int, k as int + 1) == Some(
                        next@,
                    ));
                }
                sum = next;
                k += 1;
            }
            row.push(sum);
            j += 1;
        }
        let ghost res0 = result@;
        let ghost rowv = row@;
        result.push(row);
        proof {
            assert forall|r: int, c: int| 0 <= r < i + 1 && 0 <= c < m implies (#[trigger] mat_view(
                result@,
            )[r][c]).d > 0 && rat_eq(mat_view(result@)[r][c], prod_entry(av, bv, r, c)) by {
                if r < i {
                    assert(result@[r] == res0[r]);
                    assert(mat_view(result@)[r] == mat_view(res0)[r]);
                } else {
                    assert(result@[r]@ == rowv);
                    assert(mat_view(result@)[r][c] == rowv[c]@);
                }
            }
            assert forall|r: int, c: int| 0 <= r < i + 1 && 0 <= c < m implies (
            #[trigger] try_prod_entry(av, bv, r, c, p as int)) is Some && mat_view(
                result@,
            )[r][c] == rat_of(try_prod_entry(av, bv, r, c, p as int)) by {
                if r < i {
                    assert(result@[r] == res0[r]);
                    assert(mat_view(result@)[r] == mat_view(res0)[r]);
                } else {
                    assert(result@[r]@ == rowv);
                    assert(mat_view(result@)[r][c] == rowv[c]@);
                }
            }
            assert forall|r: int| 0 <= r < i + 1 implies (#[trigger] mat_view(result@)[r]).len()
                == m by {
                if r < i {
                    assert(result@[r] == res0[r]);
                    assert(mat_view(result@)[r] == mat_view(res0)[r]);
                } else {
                    assert(result@[r]@ == rowv);
                }
            }
        }
        i += 1;
    }
    Ok(result)
}

/// Exact test that every entry of `p` equals the identity entry.
pub fn is_identity_exact(p: &FractionMatrix) -> (r: bool)
    ensures
        r <==> (forall|i: int, j: int|
            0 <= i < p@.len() && 0 <= j < mat_view(p@)[i].len() ==> rat_eq(
                #[trigger] mat_view(p@)[i][j],
                id_rat(i, j),
            )),
{
    let ghost pv = mat_view(p@);
    let mut i: usize = 0;
    while i < p.len()
        invariant
            0 <= i <= p@.len(),
            pv == mat_view(p@),
            forall|r: int, c: int|
                0 <= r < i && 0 <= c < pv[r].len() ==> rat_eq(#[trigger] pv[r][c], id_rat(r, c)),
        decreases p@.len() - i,
    {
        let mut j: usize = 0;
        while j < p[i].len()
            invariant
                0 <= i < p@.len(),
                0 <= j <= pv[i as int].len(),
                pv == mat_view(p@),
                p@[i as int]@.len() == pv[i as int].len(),
                forall|c: int|
                    0 <= c < j ==> rat_eq(#[trigger] pv[i as int][c], id_rat(i as int, c)),
            decreases pv[i as int].len() - j,
        {
            let e = p[i][j];
            proof {
                assert(e@ == pv[i as int][j as int]);
                assert(mat_view(p@)[i as int][j as int] == pv[i as int][j as int]);
            }
            if i == j {
                if e.numerator != e.denominator {
                    proof {
                        assert(id_rat(i as int, j as int) == rat_one());
                        assert(!(e@.n * 1int == 1int * e@.d));
                        assert(!rat_eq(
                            mat_view(p@)[i as int][j as int],
                            id_rat(i as int, j as int),
                        ));
                    }
                    return false;
                }
                proof {
                    assert(id_rat(i as int, j as int) == rat_one());
                    assert(e@.n * 1int == 1int * e@.d);
                    assert(rat_eq(pv[i as int][j as int], id_rat(i as int, j as int)));
                }
            } else {
                if e.numerator != 0 {
                    proof {
                        assert(id_rat(i as int, j as int) == rat_zero());
                        assert(!(e@.n * 1int == 0int * e@.d));
                        assert(!rat_eq(
                            mat_view(p@)[i as int][j as int],
                            id_rat(i as int, j as int),
                        ));
                    }
                    return false;
                }
                proof {
                    assert(id_rat(i as int, j as int) == rat_zero());
                    assert(e@.n * 1int == 0int * e@.d);
                    assert(rat_eq(pv[i as int][j as int], id_rat(i as int, j as int)));
                }
            }
            j += 1;
        }
        i += 1;
    }
    proof {
        assert forall|i2: int, j2: int|
            0 <= i2 < p@.len() && 0 <= j2 < mat_view(p@)[i2].len() implies rat_eq(
            #[trigger] mat_view(p@)[i2][j2],
            id_rat(i2, j2),
        ) by {
            assert(mat_view(p@)[i2][j2] == pv[i2][j2]);
        }
    }
    true
}

/// Entrywise comparison within the fixed absolute tolerance `1e-6`; the
/// dimensions must match exactly.
pub fn matrices_equal(m1: &FractionMatrix, m2: &FractionMatrix) -> (r: bool)
    requires
        mat_wf(mat_view(m1@)),
        mat_wf(mat_view(m2@)),
    ensures
        r <==> {
            &&& m1@.len() == m2@.len()
            &&& (forall|i: int|
                0 <= i < m1@.len() ==> (#[trigger] mat_view(m1@)[i]).len() == mat_view(
                    m2@,
                )[i].len())
            &&& (forall|i: int, j: int|
                0 <= i < m1@.len() && 0 <= j < mat_view(m1@)[i].len() ==> within_eps6(
                    #[trigger] mat_view(m1@)[i][j],
                    mat_view(m2@)[i][j],
                ))
        },
{
    let ghost v1 = mat_view(m1@);
    let ghost v2 = mat_view(m2@);
    if m1.len() != m2.len() {
        return false;
    }
    let mut i: usize = 0;
    while i < m1.len()
        invariant
            0 <= i <= m1@.len(),
            m1@.len() == m2@.len(),
            v1 == mat_view(m1@),
            v2 == mat_view(m2@),
            mat_wf(v1),
            mat_wf(v2),
            forall|r: int| 0 <= r < i ==> (#[trigger] v1[r]).len() == v2[r].len(),
            forall|r: int, c: int|
                0 <= r < i && 0 <= c < v1[r].len() ==> within_eps6(#[trigger] v1[r][c], v2[r][c]),
        decreases m1@.len() - i,
    {
        if m1[i].len() != m2[i].len() {
            proof {
                assert(m1@[i as int]@.len() == v1[i as int].len());
                assert(m2@[i as int]@.len() == v2[i as int].len());
            }
            return false;
        }
        let mut j: usize = 0;
        while j < m1[i].len()
            invariant
                0 <= i < m1@.len(),
                m1@.len() == m2@.len(),
                0 <= j <= v1[i as int].len(),
                v1 == mat_view(m1@),
                v2 == mat_view(m2@),
                mat_wf(v1),
                mat_wf(v2),
                m1@[i as int]@.len() == v1[i as int].len(),
                v1[i as int].len() == v2[i as int].len(),
                forall|c: int|
                    0 <= c < j ==> within_eps6(#[trigger] v1[i as int][c], v2[i as int][c]),
            decreases v1[i as int].len() - j,
        {
            proof {
                assert(m1@[i as int]@[j as int]@ == v1[i as int][j as int]);
                assert(m2@[i as int]@[j as int]@ == v2[i as int][j as int]);
                assert(m2@[i as int]@.len() == v2[i as int].len());
            }
            if !entry_within_eps6(&m1[i][j], &m2[i][j]) {
                return false;
            }
            j += 1;
        }
        i += 1;
    }
    true
}

/// `|a - b| <= 1e-6`, decided exactly on the cross products.
fn entry_within_eps6(a: &Fraction, b: &Fraction) -> (r: bool)
    requires
        a.wf(),
        b.wf(),
    ensures
        r <==> within_eps6(a@, b@),
{
    let x = crate::mul_num_den(a.numerator, b.denominator);
    let y = crate::mul_num_den(b.numerator, a.denominator);
    let dn: i128 = x - y;
    let mag: u128 = if dn < 0 {
        (-dn) as u128
    } else {
        dn as u128
    };
    let dd = crate::mul_num_den(a.denominator, b.denominator);
    proof {
        assert(dd > 0) by (nonlinear_arith)
            requires
                dd as int == (a.denominator as int) * (b.denominator as int),
                a.denominator as int > 0,
                b.denominator as int > 0,
        ;
        assert(mag as int == abs_int(a@.n * b@.d - b@.n * a@.d));
    }
    if mag > (i128::MAX as u128) / 1000000 {
        proof {
            vstd::arithmetic::div_mod::lemma_fundamental_div_mod(i128::MAX as int, 1000000);
            assert(mag as int * 1000000 > i128::MAX as int) by (nonlinear_arith)
                requires
                    mag as int > (i128::MAX as int) / 1000000,
                    i128::MAX as int == 1000000 * ((i128::MAX as int) / 1000000) + (
                    i128::MAX as int) % 1000000,
                    0 <= (i128::MAX as int) % 1000000 < 1000000,
            ;
        }
        false
    } else {
        let prod: u128 = mag * 1000000;
        prod <= (dd as u128)
    }
}

/// The identity matrix of size `n`, as exact fractions.
pub fn create_identity_matrix(n: usize) -> (r: FractionMatrix)
    ensures
        r@.len() == n,
        forall|i: int| 0 <= i < n as int ==> (#[trigger] mat_view(r@)[i]).len() == n,
        forall|i: int, j: int|
            0 <= i < n as int && 0 <= j < n as int ==> #[trigger] mat_view(r@)[i][j] == id_rat(
                i,
                j,
            ),
        mat_wf(mat_view(r@)),
{
    let mut result: FractionMatrix = Vec::new();
    let mut i: usize = 0;
    while i < n
        invariant
            0 <= i <= n,
            result@.len() == i,
            forall|r2: int| 0 <= r2 < i ==> (#[trigger] mat_view(result@)[r2]).len() == n,
            forall|r2: int, c: int|
                0 <= r2 < i && 0 <= c < n as int ==> #[trigger] mat_view(result@)[r2][c] == id_rat(
                    r2,
                    c,
                ),
        decreases n - i,
    {
        let mut row: Vec<Fraction> = Vec::new();
        let mut j: usize = 0;
        while j < n
            invariant
                0 <= j <= n,
                0 <= i < n,
                row@.len() == j,
                forall|c: int| 0 <= c < j ==> #[trigger] row@[c]@ == id_rat(i as int, c),
            decreases n - j,
        {
            if i == j {
                row.push(Fraction { numerator: 1, denominator: 1 });
            } else {
                row.push(Fraction { numerator: 0, denominator: 1 });
            }
            j += 1;
        }
        let ghost res0 = result@;
        let ghost rowv = row@;
        result.push(row);
        proof {
            assert forall|r2: int, c: int| 0 <= r2 < i + 1 && 0 <= c < n as int implies #[trigger] mat_view(
                result@,
            )[r2][c] == id_rat(r2, c) by {
                if r2 < i {
                    assert(result@[r2] == res0[r2]);
                    assert(mat_view(result@)[r2] == mat_view(res0)[r2]);
                } else {
                    assert(result@[r2]@ == rowv);
                    assert(mat_view(result@)[r2][c] == rowv[c]@);
                }
            }
            assert forall|r2: int| 0 <= r2 < i + 1 implies (#[trigger] mat_view(
                result@,
            )[r2]).len() == n by {
                if r2 < i {
                    assert(result@[r2] == res0[r2]);
                    assert(mat_view(result@)[r2] == mat_view(res0)[r2]);
                } else {
                    assert(result@[r2]@ == rowv);
                }
            }
        }
        i += 1;
    }
    result
}

/// Largest absolute entrywise deviation of `matrix` from `identity`;
/// the diagnostic number behind the inverse verification report.
pub fn calculate_identity_error(matrix: &FractionMatrix, identity: &FractionMatrix) -> (r: Result<
    Fraction,
    MatrixError,
>)
    requires
        mat_wf(mat_view(matrix@)),
        mat_wf(mat_view(identity@)),
        identity@.len() == matrix@.len(),
        forall|i: int|
            0 <= i < matrix@.len() ==> (#[trigger] mat_view(identity@)[i]).len() == mat_view(
                matrix@,
            )[i].len(),
    ensures
        r matches Ok(e) ==> {
            &&& e.wf()
            &&& (forall|i: int, j: int|
                0 <= i < matrix@.len() && 0 <= j < mat_view(matrix@)[i].len() ==> rat_le(
                    rat_abs(
                        rat_sub(#[trigger] mat_view(matrix@)[i][j], mat_view(identity@)[i][j]),
                    ),
                    e@,
                ))
            &&& (e@ == rat_zero() || exists|i: int, j: int|
                0 <= i < matrix@.len() && 0 <= j < mat_view(matrix@)[i].len() && rat_eq(
                    e@,
                    rat_abs(
                        rat_sub(#[trigger] mat_view(matrix@)[i][j], mat_view(identity@)[i][j]),
                    ),
                ))
        },
        (r is Ok) <==> (forall|i: int, j: int|
            0 <= i < matrix@.len() && 0 <= j < mat_view(matrix@)[i].len() ==> entry_err_fits(
                #[trigger] mat_view(matrix@)[i][j],
                mat_view(identity@)[i][j],
            )),
        r matches Err(e) ==> e == MatrixError::Overflow,
{
    let ghost mv = mat_view(matrix@);
    let ghost iv = mat_view(identity@);
    let mut max_error = Fraction { numerator: 0, denominator: 1 };
    let mut i: usize = 0;
    while i < matrix.len()
        invariant
            0 <= i <= mv.len(),
            mv == mat_view(matrix@),
            iv == mat_view(identity@),
            mat_wf(mv),
            mat_wf(iv),
            iv.len() == mv.len(),
            forall|r: int| 0 <= r < mv.len() ==> (#[trigger] iv[r]).len() == mv[r].len(),
            max_error.wf(),
            forall|r: int, c: int|
                0 <= r < i && 0 <= c < mv[r].len() ==> rat_le(
                    rat_abs(rat_sub(#[trigger] mv[r][c], iv[r][c])),
                    max_error@,
                ),
            forall|r: int, c: int|
                0 <= r < i && 0 <= c < mv[r].len() ==> entry_err_fits(
                    #[trigger] mv[r][c],
                    iv[r][c],
                ),
            max_error@ == rat_zero() || exists|r: int, c: int|
                0 <= r < mv.len() && 0 <= c < mv[r].len() && rat_eq(
                    max_error@,
                    rat_abs(rat_sub(#[trigger] mv[r][c], iv[r][c])),
                ),
        decreases mv.len() - i,
    {
        let mut j: usize = 0;
        while j < matrix[i].len()
            invariant
                0 <= i < mv.len(),
                0 <= j <= mv[i as int].len(),
                mv == mat_view(matrix@),
                iv == mat_view(identity@),
                mat_wf(mv),
                mat_wf(iv),
                iv.len() == mv.len(),
                matrix@[i as int]@.len() == mv[i as int].len(),
                forall|r: int| 0 <= r < mv.len() ==> (#[trigger] iv[r]).len() == mv[r].len(),
                max_error.wf(),
                forall|r: int, c: int|
                    0 <= r < i && 0 <= c < mv[r].len() ==> rat_le(
                        rat_abs(rat_sub(#[trigger] mv[r][c], iv[r][c])),
                        max_error@,
                    ),
                forall|c: int|
                    0 <= c < j ==> rat_le(
                        rat_abs(rat_sub(#[trigger] mv[i as int][c], iv[i as int][c])),
                        max_error@,
                    ),
                forall|r: int, c: int|
                    0 <= r < i && 0 <= c < mv[r].len() ==> entry_err_fits(
                        #[trigger] mv[r][c],
                        iv[r][c],
                    ),
                forall|c: int|
                    0 <= c < j ==> entry_err_fits(#[trigger] mv[i as int][c], iv[i as int][c]),
                max_error@ == rat_zero() || exists|r: int, c: int|
                    0 <= r < mv.len() && 0 <= c < mv[r].len() && rat_eq(
                        max_error@,
                        rat_abs(rat_sub(#[trigger] mv[r][c], iv[r][c])),
                    ),
            decreases mv[i as int].len() - j,
        {
            let ghost me = mv[i as int][j as int];
            let ghost ie = iv[i as int][j as int];
            proof {
                assert(matrix@[i as int]@[j as int]@ == me);
                assert(identity@[i as int]@[j as int]@ == ie);
                assert(identity@[i as int]@.len() == iv[i as int].len());
            }
            let diff = match matrix[i][j].checked_sub(&identity[i][j]) {
                Some(d) => d,
                None => {
                    proof {
                        assert(!entry_err_fits(mv[i as int][j as int], iv[i as int][j as int]));
                    }
                    return Err(MatrixError::Overflow);
                },
            };
            let mag = match diff.checked_abs() {
                Some(m) => m,
                None => {
                    proof {
                        assert(!entry_err_fits(mv[i as int][j as int], iv[i as int][j as int]));
                    }
                    return Err(MatrixError::Overflow);
                },
            };
            proof {
                assert(entry_err_fits(mv[i as int][j as int], iv[i as int][j as int]));
            }
            proof {
                assert(rat_sub(me, ie).d > 0) by (nonlinear_arith)
                    requires
                        me.d > 0,
                        ie.d > 0,
                ;
                lemma_rat_abs_cong(diff@, rat_sub(me, ie));
                lemma_rat_eq_trans(mag@, rat_abs(diff@), rat_abs(rat_sub(me, ie)));
            }
            let is_larger = rat_gt_exec(&mag, &max_error);
            if is_larger {
                proof {
                    assert forall|r: int, c: int| 0 <= r < i && 0 <= c < mv[r].len() implies
                        rat_le(rat_abs(rat_sub(#[trigger] mv[r][c], iv[r][c])), mag@) by {
                        assert(rat_sub(mv[r][c], iv[r][c]).d > 0) by (nonlinear_arith)
                            requires
                                mv[r][c].d > 0,
                                iv[r][c].d > 0,
                        ;
                        lemma_rat_le_lt_trans(
                            rat_abs(rat_sub(mv[r][c], iv[r][c])),
                            max_error@,
                            mag@,
                        );
                    }
                    assert forall|c: int| 0 <= c < j implies rat_le(
                        rat_abs(rat_sub(#[trigger] mv[i as int][c], iv[i as int][c])),
                        mag@,
                    ) by {
                        assert(rat_sub(mv[i as int][c], iv[i as int][c]).d > 0)
                            by (nonlinear_arith)
                            requires
                                mv[i as int][c].d > 0,
                                iv[i as int][c].d > 0,
                        ;
                        lemma_rat_le_lt_trans(
                            rat_abs(rat_sub(mv[i as int][c], iv[i as int][c])),
                            max_error@,
                            mag@,
                        );
                    }
                }
                max_error = mag;
            }
            proof {
                assert(rat_le(rat_abs(rat_sub(me, ie)), max_error@)) by {
                    assert(rat_eq(mag@, rat_abs(rat_sub(me, ie))));
                    assert(mag@.n * max_error@.d <= max_error@.n * mag@.d);
                    assert(rat_abs(rat_sub(me, ie)).n * max_error@.d <= max_error@.n * rat_abs(
                        rat_sub(me, ie),
                    ).d) by (nonlinear_arith)
                        requires
                            mag@.n * rat_abs(rat_sub(me, ie)).d == rat_abs(rat_sub(me, ie)).n
                                * mag@.d,
                            mag@.n * max_error@.d <= max_error@.n * mag@.d,
                            mag@.d > 0,
                            max_error@.d > 0,
                            rat_abs(rat_sub(me, ie)).d > 0,
                    ;
                }
            }
            j += 1;
        }
        i += 1;
    }
    Ok(max_error)
}

/// Exact squareness test: nonempty, every row as long as there are rows.
pub fn check_square(m: &FractionMatrix) -> (b: bool)
    ensures
        b <==> is_square(mat_view(m@)),
{
    let ghost mv = mat_view(m@);
    let n = m.len();
    if n == 0 {
        return false;
    }
    let mut i: usize = 0;
    while i < n
        invariant
            0 <= i <= n,
            n == m@.len(),
            n > 0,
            mv == mat_view(m@),
            forall|r: int| 0 <= r < i ==> (#[trigger] mv[r]).len() == n,
        decreases n - i,
    {
        proof {
            assert(mat_view(m@)[i as int].len() == m@[i as int]@.len());
        }
        if m[i].len() != n {
            return false;
        }
        i += 1;
    }
    true
}

/// Exact confirmation that `binv` inverts `a` on both sides; `true` is a
/// proof, `false` only reports that the products could not be confirmed.
pub(crate) fn confirm_inverse(a: &FractionMatrix, binv: &FractionMatrix) -> (ok: bool)
    requires
        mat_wf(mat_view(a@)),
        mat_wf(mat_view(binv@)),
        is_square(mat_view(a@)),
        binv@.len() == a@.len(),
        forall|i: int|
            0 <= i < binv@.len() ==> (#[trigger] mat_view(binv@)[i]).len() == a@.len(),
    ensures
        ok ==> is_inverse(mat_view(a@), mat_view(binv@)),
        ok <==> confirm_ok(mat_view(a@), mat_view(binv@), a@.len() as int),
{
    let ghost av = mat_view(a@);
    let ghost bv = mat_view(binv@);
    let ghost n = a@.len();
    let p1 = match matrix_multiply(a, binv) {
        Ok(p) => p,
        Err(_) => {
            return false;
        },
    };
    if !is_identity_exact(&p1) {
        proof {
            assert(!confirm_ok(av, bv, n as int)) by {
                if confirm_ok(av, bv, n as int) {
                    assert forall|i: int, j: int|
                        0 <= i < p1@.len() && 0 <= j < mat_view(p1@)[i].len() implies rat_eq(
                        #[trigger] mat_view(p1@)[i][j],
                        id_rat(i, j),
                    ) by {
                        assert(mat_view(p1@)[i][j] == rat_of(try_prod_entry(av, bv, i, j, n as int)));
                        assert(rat_eq(rat_of(try_prod_entry(av, bv, i, j, n as int)), id_rat(i, j)));
                    }
                }
            }
        }
        return false;
    }
    let p2 = match matrix_multiply(binv, a) {
        Ok(p) => p,
        Err(_) => {
            return false;
        },
    };
    if !is_identity_exact(&p2) {
        proof {
            assert(!confirm_ok(av, bv, n as int)) by {
                if confirm_ok(av, bv, n as int) {
                    assert forall|i: int, j: int|
                        0 <= i < p2@.len() && 0 <= j < mat_view(p2@)[i].len() implies rat_eq(
                        #[trigger] mat_view(p2@)[i][j],
                        id_rat(i, j),
                    ) by {
                        assert(mat_view(p2@)[i][j] == rat_of(try_prod_entry(bv, av, i, j, n as int)));
                        assert(rat_eq(rat_of(try_prod_entry(bv, av, i, j, n as int)), id_rat(i, j)));
                    }
                }
            }
        }
        return false;
    }
    proof {
        let pv1 = mat_view(p1@);
        let pv2 = mat_view(p2@);
        assert(bv[0].len() == n);
        assert(av[0].len() == n);
        assert forall|i: int, j: int| 0 <= i < n && 0 <= j < n implies rat_eq(
            #[trigger] prod_entry(av, bv, i, j),
            id_rat(i, j),
        ) by {
            lemma_dot_prefix_wf(av, bv, i, j, bv.len() as int);
            assert(rat_eq(pv1[i][j], prod_entry(av, bv, i, j)));
            assert(rat_eq(pv1[i][j], id_rat(i, j)));
            lemma_rat_eq_trans(prod_entry(av, bv, i, j), pv1[i][j], id_rat(i, j));
        }
        assert forall|i: int, j: int| 0 <= i < n && 0 <= j < n implies rat_eq(
            #[trigger] prod_entry(bv, av, i, j),
            id_rat(i, j),
        ) by {
            lemma_dot_prefix_wf(bv, av, i, j, av.len() as int);
            assert(rat_eq(pv2[i][j], prod_entry(bv, av, i, j)));
            assert(rat_eq(pv2[i][j], id_rat(i, j)));
            lemma_rat_eq_trans(prod_entry(bv, av, i, j), pv2[i][j], id_rat(i, j));
        }
        assert forall|i: int, j: int| 0 <= i < n && 0 <= j < n implies (#[trigger] try_prod_entry(
            av,
            bv,
            i,
            j,
            n as int,
        )) is Some && rat_eq(rat_of(try_prod_entry(av, bv, i, j, n as int)), id_rat(i, j)) by {
            assert(pv1[i][j] == rat_of(try_prod_entry(av, bv, i, j, n as int)));
            assert(rat_eq(pv1[i][j], id_rat(i, j)));
        }
        assert forall|i: int, j: int| 0 <= i < n && 0 <= j < n implies (#[trigger] try_prod_entry(
            bv,
            av,
            i,
            j,
            n as int,
        )) is Some && rat_eq(rat_of(try_prod_entry(bv, av, i, j, n as int)), id_rat(i, j)) by {
            assert(pv2[i][j] == rat_of(try_prod_entry(bv, av, i, j, n as int)));
            assert(rat_eq(pv2[i][j], id_rat(i, j)));
        }
    }
    true
}

/// Exact strict comparison `x > y` on well-formed fractions.
fn rat_gt_exec(x: &Fraction, y: &Fraction) -> (r: bool)
    requires
        x.wf(),
        y.wf(),
    ensures
        r <==> rat_lt(y@, x@),
{
    let a = crate::mul_i64_wide(x.numerator, y.denominator);
    let b = crate::mul_i64_wide(y.numerator, x.denominator);
    a > b
}

} // verus!
