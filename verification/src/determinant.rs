//! Determinant by recursive cofactor expansion along the first row, and
//! matrix inversion by the adjugate (transposed cofactor) formula.
use vstd::prelude::*;

use crate::matrix::{
    check_square, confirm_inverse, confirm_ok, is_inverse, is_square, mat_view, mat_wf, rat_of,
    FractionMatrix,
};
use crate::rational::{
    canon_fits, lemma_below_tol10_cong, lemma_rat_add_cong, lemma_rat_div_cong,
    lemma_rat_eq_trans, lemma_rat_mul_cong, lemma_rat_sub_cong, rat_add, rat_below_tol10,
    rat_canon, rat_div, rat_eq, rat_mul, rat_one, rat_sub, rat_zero, Rat,
};
use crate::{Fraction, MatrixError};

verus! {

/// Cofactor sign `(-1)^c`.
pub open spec fn rat_sign(c: int) -> Rat {
    if c % 2 == 0 {
        rat_one()
    } else {
        Rat { n: -1, d: 1 }
    }
}

/// The matrix without row `row` and column `col`, order preserved.
pub open spec fn spec_minor(m: Seq<Seq<Rat>>, row: int, col: int) -> Seq<Seq<Rat>> {
    m.remove(row).map_values(|r: Seq<Rat>| r.remove(col))
}

/// Laplace expansion along row 0: the determinant of a square matrix.
pub open spec fn spec_det(m: Seq<Seq<Rat>>) -> Rat
    decreases m.len(), m.len() + 1,
{
    if m.len() <= 0 {
        rat_one()
    } else if m.len() == 1 {
        m[0][0]
    } else {
        spec_det_expand(m, m.len() as int)
    }
}

/// The first `k` terms of the expansion of `spec_det` along row 0.
pub open spec fn spec_det_expand(m: Seq<Seq<Rat>>, k: int) -> Rat
    decreases m.len(), k,
    when m.len() >= 2 && 0 <= k <= m.len()
{
    if k <= 0 {
        rat_zero()
    } else {
        rat_add(
            spec_det_expand(m, k - 1),
            rat_mul(rat_sign(k - 1), rat_mul(m[0][k - 1], spec_det(spec_minor(m, 0, k - 1)))),
        )
    }
}

/// Mirror of the determinant computation as run on 64-bit fractions: the
/// canonical value actually produced, or `None` as soon as an exact
/// intermediate leaves the 64-bit range.
pub open spec fn try_det(m: Seq<Seq<Rat>>) -> Option<Rat>
    decreases m.len(), m.len() + 1,
{
    if m.len() <= 0 {
        None
    } else if m.len() == 1 {
        Some(m[0][0])
    } else if m.len() == 2 {
        try_det2(m)
    } else {
        try_det_expand(m, m.len() as int)
    }
}

/// The direct `a*d - b*c` evaluation of a 2-by-2 determinant.
pub open spec fn try_det2(m: Seq<Seq<Rat>>) -> Option<Rat> {
    if !canon_fits(rat_mul(m[0][0], m[1][1])) {
        None
    } else if !canon_fits(rat_mul(m[0][1], m[1][0])) {
        None
    } else {
        let t0 = rat_canon(rat_mul(m[0][0], m[1][1]));
        let t1 = rat_canon(rat_mul(m[0][1], m[1][0]));
        if !canon_fits(rat_sub(t0, t1)) {
            None
        } else {
            Some(rat_canon(rat_sub(t0, t1)))
        }
    }
}

/// The first `k` terms of the cofactor expansion, as computed.
pub open spec fn try_det_expand(m: Seq<Seq<Rat>>, k: int) -> Option<Rat>
    decreases m.len(), k,
    when m.len() >= 2 && 0 <= k <= m.len()
{
    if k <= 0 {
        Some(rat_zero())
    } else {
        match try_det_expand(m, k - 1) {
            None => None,
            Some(acc) => match try_det(spec_minor(m, 0, k - 1)) {
                None => None,
                Some(dm) => {
                    let t = rat_mul(m[0][k - 1], dm);
                    if !canon_fits(t) {
                        None
                    } else {
                        let tm = rat_mul(rat_sign(k - 1), rat_canon(t));
                        if !canon_fits(tm) {
                            None
                        } else {
                            let s = rat_add(acc, rat_canon(tm));
                            if !canon_fits(s) {
                                None
                            } else {
                                Some(rat_canon(s))
                            }
                        }
                    }
                },
            },
        }
    }
}

/// Once an expansion step overflows, every longer expansion overflows.
proof fn lemma_try_expand_none_mono(m: Seq<Seq<Rat>>, k: int, k2: int)
    requires
        m.len() >= 2,
        0 <= k <= k2 <= m.len(),
        try_det_expand(m, k) is None,
    ensures
        try_det_expand(m, k2) is None,
    decreases k2,
{
    if k2 > k {
        lemma_try_expand_none_mono(m, k, k2 - 1);
    }
}

/// Mirror of one cofactor computation: the canonical signed minor
/// determinant, or `None` when an exact intermediate leaves range.
pub open spec fn try_cof_entry(m: Seq<Seq<Rat>>, i: int, j: int) -> Option<Rat> {
    match try_det(spec_minor(m, i, j)) {
        None => None,
        Some(d) => {
            let t = rat_mul(rat_sign(i + j), d);
            if !canon_fits(t) {
                None
            } else {
                Some(rat_canon(t))
            }
        },
    }
}

/// The inverse matrix the adjugate path computes, entry by entry.
pub open spec fn adj_inv_entry(m: Seq<Seq<Rat>>, i: int, j: int) -> Rat {
    rat_canon(rat_div(rat_of(try_cof_entry(m, j, i)), rat_of(try_det(m))))
}

pub open spec fn adj_inv_mat(m: Seq<Seq<Rat>>) -> Seq<Seq<Rat>> {
    Seq::new(m.len(), |i: int| Seq::new(m.len(), |j: int| adj_inv_entry(m, i, j)))
}

/// The 1-by-1 inverse the adjugate path computes.
pub open spec fn recip_mat(m: Seq<Seq<Rat>>) -> Seq<Seq<Rat>> {
    Seq::new(1, |i: int| Seq::new(1, |j: int| rat_canon(rat_div(rat_one(), m[0][0]))))
}

/// Exactly when the adjugate path succeeds: the determinant is computable
/// and at or above the singularity threshold, every cofactor and quotient
/// stays in 64-bit range, and the exact cross-check of the result passes.
pub open spec fn adjugate_inverse_ok(m: Seq<Seq<Rat>>) -> bool {
    &&& try_det(m) is Some
    &&& !rat_below_tol10(rat_of(try_det(m)))
    &&& if m.len() == 1 {
        &&& canon_fits(rat_div(rat_one(), m[0][0]))
        &&& confirm_ok(m, recip_mat(m), 1)
    } else {
        &&& (forall|i: int, j: int|
            0 <= i < m.len() && 0 <= j < m.len() ==> (#[trigger] try_cof_entry(m, i, j)) is Some)
        &&& (forall|i: int, j: int|
            0 <= i < m.len() && 0 <= j < m.len() ==> canon_fits(
                rat_div(rat_of(#[trigger] try_cof_entry(m, j, i)), rat_of(try_det(m))),
            ))
        &&& confirm_ok(m, adj_inv_mat(m), m.len() as int)
    }
}

/// Entrywise description of the minor.
pub proof fn lemma_minor_entries(m: Seq<Seq<Rat>>, row: int, col: int)
    requires
        0 <= row < m.len(),
    ensures
        spec_minor(m, row, col).len() == m.len() - 1,
        forall|i: int|
            0 <= i < m.len() - 1 ==> (#[trigger] spec_minor(m, row, col)[i]) == m[if i < row {
                i
            } else {
                i + 1
            }].remove(col),
{
    m.remove_ensures(row);
    assert forall|i: int| 0 <= i < m.len() - 1 implies (#[trigger] spec_minor(m, row, col)[i])
        == m[if i < row {
        i
    } else {
        i + 1
    }].remove(col) by {
        assert(spec_minor(m, row, col)[i] == m.remove(row)[i].remove(col));
    }
}

/// The minor of a well-formed square matrix is well-formed and square.
pub proof fn lemma_minor_wf(m: Seq<Seq<Rat>>, row: int, col: int)
    requires
        mat_wf(m),
        is_square(m),
        m.len() >= 2,
        0 <= row < m.len(),
        0 <= col < m.len(),
    ensures
        mat_wf(spec_minor(m, row, col)),
        is_square(spec_minor(m, row, col)),
        spec_minor(m, row, col).len() == m.len() - 1,
        forall|i: int, j: int|
            0 <= i < m.len() - 1 && 0 <= j < m.len() - 1 ==> #[trigger] spec_minor(
                m,
                row,
                col,
            )[i][j] == m[if i < row {
                i
            } else {
                i + 1
            }][if j < col {
                j
            } else {
                j + 1
            }],
{
    lemma_minor_entries(m, row, col);
    let mv = spec_minor(m, row, col);
    assert forall|i: int, j: int| 0 <= i < m.len() - 1 && 0 <= j < m.len() - 1 implies #[trigger] mv[i][j]
        == m[if i < row {
        i
    } else {
        i + 1
    }][if j < col {
        j
    } else {
        j + 1
    }] by {
        let src = if i < row {
            i
        } else {
            i + 1
        };
        m[src].remove_ensures(col);
        assert(mv[i] == m[src].remove(col));
    }
    assert forall|i: int| 0 <= i < mv.len() implies (#[trigger] mv[i]).len() == mv.len() by {
        let src = if i < row {
            i
        } else {
            i + 1
        };
        m[src].remove_ensures(col);
        assert(mv[i] == m[src].remove(col));
    }
}

/// The determinant of a well-formed square matrix is a valid rational.
pub proof fn lemma_spec_det_wf(m: Seq<Seq<Rat>>)
    requires
        mat_wf(m),
        is_square(m),
    ensures
        spec_det(m).d > 0,
    decreases m.len(), m.len() + 1,
{
    if m.len() <= 1 {
    } else {
        lemma_spec_det_expand_wf(m, m.len() as int);
    }
}

pub proof fn lemma_spec_det_expand_wf(m: Seq<Seq<Rat>>, k: int)
    requires
        mat_wf(m),
        is_square(m),
        m.len() >= 2,
        0 <= k <= m.len(),
    ensures
        spec_det_expand(m, k).d > 0,
    decreases m.len(), k,
{
    if k <= 0 {
    } else {
        lemma_spec_det_expand_wf(m, k - 1);
        lemma_minor_wf(m, 0, k - 1);
        lemma_spec_det_wf(spec_minor(m, 0, k - 1));
        let t = rat_mul(m[0][k - 1], spec_det(spec_minor(m, 0, k - 1)));
        assert(rat_mul(m[0][k - 1], spec_det(spec_minor(m, 0, k - 1))).d > 0)
            by (nonlinear_arith)
            requires
                m[0][k - 1].d > 0,
                spec_det(spec_minor(m, 0, k - 1)).d > 0,
        ;
        assert(rat_mul(rat_sign(k - 1), t).d > 0) by (nonlinear_arith)
            requires
                rat_sign(k - 1).d == 1,
                t.d > 0,
        ;
        assert(rat_add(spec_det_expand(m, k - 1), rat_mul(rat_sign(k - 1), t)).d > 0)
            by (nonlinear_arith)
            requires
                spec_det_expand(m, k - 1).d > 0,
                rat_mul(rat_sign(k - 1), t).d > 0,
        ;
    }
}

/// The determinant of a 1-by-1 matrix is its sole entry, and computing it
/// always succeeds.
pub proof fn lemma_det_1x1(m: Seq<Seq<Rat>>)
    requires
        is_square(m),
        m.len() == 1,
    ensures
        spec_det(m) == m[0][0],
        try_det(m) == Some(m[0][0]),
{
}

/// The determinant of a 2-by-2 matrix is `a*d - b*c`.
pub proof fn lemma_det_2x2(m: Seq<Seq<Rat>>)
    requires
        mat_wf(m),
        is_square(m),
        m.len() == 2,
    ensures
        rat_eq(spec_det(m), rat_sub(rat_mul(m[0][0], m[1][1]), rat_mul(m[0][1], m[1][0]))),
        spec_det(m).d > 0,
{
    lemma_spec_det_wf(m);
    lemma_minor_wf(m, 0, 0);
    lemma_minor_wf(m, 0, 1);
    let m00 = spec_minor(m, 0, 0);
    let m01 = spec_minor(m, 0, 1);
    assert(m00.len() == 1 && m00[0][0] == m[1][1]);
    assert(m01.len() == 1 && m01[0][0] == m[1][0]);
    assert(spec_det(m00) == m[1][1]);
    assert(spec_det(m01) == m[1][0]);
    let t0 = rat_mul(m[0][0], m[1][1]);
    let t1 = rat_mul(m[0][1], m[1][0]);
    let x0 = rat_mul(m[0][0], spec_det(m00));
    let x1 = rat_mul(m[0][1], spec_det(m01));
    assert(x0 == t0);
    assert(x1 == t1);
    assert(spec_det_expand(m, 0) == rat_zero());
    assert(spec_det_expand(m, 1) == rat_add(spec_det_expand(m, 0), rat_mul(rat_sign(0), x0)));
    assert(spec_det_expand(m, 2) == rat_add(spec_det_expand(m, 1), rat_mul(rat_sign(1), x1)));
    assert(spec_det(m) == spec_det_expand(m, 2));
    assert(rat_sign(0) == rat_one());
    assert(1int * t0.n == t0.n && 1int * t0.d == t0.d);
    assert(rat_mul(rat_one(), t0) == t0);
    assert(0int * t0.d == 0int && t0.n * 1int == t0.n && 1int * t0.d == t0.d);
    assert(rat_add(rat_zero(), t0) == t0);
    assert(spec_det_expand(m, 1) == t0);
    let nt1 = rat_mul(rat_sign(1), t1);
    assert((-1int) * t1.n == -t1.n && 1int * t1.d == t1.d);
    assert(nt1 == Rat { n: -t1.n, d: t1.d });
    assert((-t1.n) * t0.d == -(t1.n * t0.d)) by (nonlinear_arith);
    assert(rat_add(t0, nt1).n == rat_sub(t0, t1).n);
    assert(rat_add(t0, nt1).d == rat_sub(t0, t1).d);
    assert(spec_det(m) == rat_sub(t0, t1));
    assert(rat_eq(spec_det(m), rat_sub(t0, t1)));
}

/// The matrix without row `row` and column `col`.
fn get_minor(matrix: &FractionMatrix, row: usize, col: usize) -> (minor: FractionMatrix)
    requires
        mat_wf(mat_view(matrix@)),
        is_square(mat_view(matrix@)),
        matrix@.len() >= 2,
        row < matrix@.len(),
        col < matrix@.len(),
    ensures
        minor@.len() == matrix@.len() - 1,
        mat_view(minor@) == spec_minor(mat_view(matrix@), row as int, col as int),
        mat_wf(mat_view(minor@)),
        is_square(mat_view(minor@)),
{
    let ghost mv = mat_view(matrix@);
    let ghost n = matrix@.len();
    proof {
        lemma_minor_wf(mv, row as int, col as int);
    }
    let mut minor: FractionMatrix = Vec::new();
    let mut i: usize = 0;
    while i < matrix.len()
        invariant
            0 <= i <= n,
            n == matrix@.len(),
            n >= 2,
            mv == mat_view(matrix@),
            mat_wf(mv),
            is_square(mv),
            row < n,
            col < n,
            minor@.len() == if i <= row as int {
                i as int
            } else {
                i - 1
            },
            forall|r: int, c: int|
                0 <= r < minor@.len() && 0 <= c < n - 1 ==> #[trigger] mat_view(minor@)[r][c]
                    == spec_minor(mv, row as int, col as int)[r][c],
            forall|r: int| 0 <= r < minor@.len() ==> (#[trigger] mat_view(minor@)[r]).len() == n
                - 1,
        decreases n - i,
    {
        if i != row {
            let mut new_row: Vec<Fraction> = Vec::new();
            let mut j: usize = 0;
            while j < matrix.len()
                invariant
                    0 <= j <= n,
                    0 <= i < n,
                    i != row,
                    n == matrix@.len(),
                    n >= 2,
                    mv == mat_view(matrix@),
                    mat_wf(mv),
                    is_square(mv),
                    row < n,
                    col < n,
                    new_row@.len() == if j <= col as int {
                        j as int
                    } else {
                        j - 1
                    },
                    forall|c: int|
                        0 <= c < new_row@.len() ==> #[trigger] new_row@[c]@ == mv[i as int][
                        if c < col as int {
                            c
                        } else {
                            c + 1
                        }],
                decreases n - j,
            {
                if j != col {
                    proof {
                        assert(matrix@[i as int]@.len() == mv[i as int].len());
                        assert(matrix@[i as int]@[j as int]@ == mv[i as int][j as int]);
                    }
                    new_row.push(matrix[i][j]);
                }
                j += 1;
            }
            let ghost min0 = minor@;
            minor.push(new_row);
            proof {
                lemma_minor_wf(mv, row as int, col as int);
                let sm = spec_minor(mv, row as int, col as int);
                let newlen = minor@.len();
                assert forall|r: int, c: int| 0 <= r < newlen && 0 <= c < n - 1 implies #[trigger] mat_view(
                    minor@,
                )[r][c] == sm[r][c] by {
                    if r < newlen - 1 {
                        assert(minor@[r] == min0[r]);
                        assert(mat_view(minor@)[r] == mat_view(min0)[r]);
                    } else {
                        assert(minor@[r]@ == new_row@);
                        assert(mat_view(minor@)[r][c] == new_row@[c]@);
                        let src = if r < row as int {
                            r
                        } else {
                            r + 1
                        };
                        assert(src == i as int);
                        assert(sm[r][c] == mv[src][if c < col as int {
                            c
                        } else {
                            c + 1
                        }]);
                    }
                }
                assert forall|r: int| 0 <= r < newlen implies (#[trigger] mat_view(
                    minor@,
                )[r]).len() == n - 1 by {
                    if r < newlen - 1 {
                        assert(minor@[r] == min0[r]);
                        assert(mat_view(minor@)[r] == mat_view(min0)[r]);
                    } else {
                        assert(minor@[r]@ == new_row@);
                    }
                }
            }
        }
        i += 1;
    }
    proof {
        lemma_minor_wf(mv, row as int, col as int);
        assert(mat_view(minor@) =~~= spec_minor(mv, row as int, col as int));
    }
    minor
}

/// Determinant by cofactor expansion along row 0; `1x1` and `2x2` matrices
/// are evaluated directly.
pub fn determinant(matrix: &FractionMatrix) -> (r: Result<Fraction, MatrixError>)
    requires
        mat_wf(mat_view(matrix@)),
    ensures
        (r matches Err(e) && e == MatrixError::NotSquare) <==> !is_square(mat_view(matrix@)),
        r matches Err(e) ==> e == MatrixError::NotSquare || e == MatrixError::Overflow,
        r matches Ok(d) ==> d.wf() && rat_eq(d@, spec_det(mat_view(matrix@))) && Some(d@)
            == try_det(mat_view(matrix@)),
        is_square(mat_view(matrix@)) ==> ((r is Ok) <==> (try_det(mat_view(matrix@)) is Some)),
    decreases matrix@.len(),
{
    let ghost mv = mat_view(matrix@);
    let n = matrix.len();
    if !check_square(matrix) {
        return Err(MatrixError::NotSquare);
    }
    proof {
        lemma_spec_det_wf(mv);
    }
    if n == 1 {
        proof {
            assert(matrix@[0]@[0]@ == mv[0][0]);
            assert(try_det(mv) == Some(mv[0][0]));
        }
        return Ok(matrix[0][0]);
    }
    if n == 2 {
        proof {
            assert(matrix@[0]@.len() == mv[0].len());
            assert(matrix@[1]@.len() == mv[1].len());
            assert(matrix@[0]@[0]@ == mv[0][0]);
            assert(matrix@[0]@[1]@ == mv[0][1]);
            assert(matrix@[1]@[0]@ == mv[1][0]);
            assert(matrix@[1]@[1]@ == mv[1][1]);
        }
        let t0 = match matrix[0][0].checked_mul(&matrix[1][1]) {
            Some(t) => t,
            None => {
                proof {
                    assert(try_det(mv) is None);
                }
                return Err(MatrixError::Overflow);
            },
        };
        let t1 = match matrix[0][1].checked_mul(&matrix[1][0]) {
            Some(t) => t,
            None => {
                proof {
                    assert(try_det(mv) is None);
                }
                return Err(MatrixError::Overflow);
            },
        };
        let det = match t0.checked_sub(&t1) {
            Some(d) => d,
            None => {
                proof {
                    assert(try_det(mv) is None);
                }
                return Err(MatrixError::Overflow);
            },
        };
        proof {
            assert(try_det(mv) == Some(det@));
        }
        proof {
            lemma_det_2x2(mv);
            let s0 = rat_mul(mv[0][0], mv[1][1]);
            let s1 = rat_mul(mv[0][1], mv[1][0]);
            assert(rat_mul(mv[0][0], mv[1][1]).d > 0) by (nonlinear_arith)
                requires
                    mv[0][0].d > 0,
                    mv[1][1].d > 0,
            ;
            assert(rat_mul(mv[0][1], mv[1][0]).d > 0) by (nonlinear_arith)
                requires
                    mv[0][1].d > 0,
                    mv[1][0].d > 0,
            ;
            lemma_rat_sub_cong(t0@, s0, t1@, s1);
            assert(rat_sub(t0@, t1@).d > 0) by (nonlinear_arith)
                requires
                    t0@.d > 0,
                    t1@.d > 0,
            ;
            assert(rat_sub(s0, s1).d > 0) by (nonlinear_arith)
                requires
                    s0.d > 0,
                    s1.d > 0,
            ;
            lemma_rat_eq_trans(det@, rat_sub(t0@, t1@), rat_sub(s0, s1));
            lemma_rat_eq_trans(det@, rat_sub(s0, s1), spec_det(mv));
        }
        return Ok(det);
    }
    let mut det = Fraction { numerator: 0, denominator: 1 };
    let mut col: usize = 0;
    while col < n
        invariant
            0 <= col <= n,
            n == matrix@.len(),
            n >= 3,
            mv == mat_view(matrix@),
            mat_wf(mv),
            is_square(mv),
            det.wf(),
            rat_eq(det@, spec_det_expand(mv, col as int)),
            try_det_expand(mv, col as int) == Some(det@),
        decreases n - col,
    {
        let minor = get_minor(matrix, 0, col);
        let minor_det = match determinant(&minor) {
            Ok(d) => d,
            Err(_) => {
                proof {
                    assert(try_det(spec_minor(mv, 0, col as int)) is None);
                    assert(try_det_expand(mv, col as int + 1) is None);
                    lemma_try_expand_none_mono(mv, col as int + 1, n as int);
                    assert(try_det(mv) is None);
                }
                return Err(MatrixError::Overflow);
            },
        };
        proof {
            assert(Some(minor_det@) == try_det(spec_minor(mv, 0, col as int)));
        }
        proof {
            assert(matrix@[0]@[col as int]@ == mv[0][col as int]);
            assert(matrix@[0]@.len() == mv[0].len());
        }
        let sign = if col % 2 == 0 {
            Fraction { numerator: 1, denominator: 1 }
        } else {
            Fraction { numerator: -1, denominator: 1 }
        };
        let t = match matrix[0][col].checked_mul(&minor_det) {
            Some(t) => t,
            None => {
                proof {
                    assert(try_det_expand(mv, col as int + 1) is None);
                    lemma_try_expand_none_mono(mv, col as int + 1, n as int);
                    assert(try_det(mv) is None);
                }
                return Err(MatrixError::Overflow);
            },
        };
        let term = match sign.checked_mul(&t) {
            Some(t) => t,
            None => {
                proof {
                    assert(sign@ == rat_sign(col as int));
                    assert(try_det_expand(mv, col as int + 1) is None);
                    lemma_try_expand_none_mono(mv, col as int + 1, n as int);
                    assert(try_det(mv) is None);
                }
                return Err(MatrixError::Overflow);
            },
        };
        let next = match det.checked_add(&term) {
            Some(d) => d,
            None => {
                proof {
                    assert(sign@ == rat_sign(col as int));
                    assert(try_det_expand(mv, col as int + 1) is None);
                    lemma_try_expand_none_mono(mv, col as int + 1, n as int);
                    assert(try_det(mv) is None);
                }
                return Err(MatrixError::Overflow);
            },
        };
        proof {
            let c = col as int;
            let sm = spec_minor(mv, 0, c);
            lemma_minor_wf(mv, 0, c);
            lemma_spec_det_wf(sm);
            lemma_spec_det_expand_wf(mv, c);
            lemma_spec_det_expand_wf(mv, c + 1);
            let sd = spec_det(sm);
            let a0 = mv[0][c];
            // the raw product, then the signed term, then the running sum
            assert(rat_mul(a0, sd).d > 0) by (nonlinear_arith)
                requires
                    a0.d > 0,
                    sd.d > 0,
            ;
            lemma_rat_mul_cong(matrix@[0]@[c]@, a0, minor_det@, sd);
            assert(rat_mul(a0, minor_det@).d > 0) by (nonlinear_arith)
                requires
                    a0.d > 0,
                    minor_det@.d > 0,
            ;
            lemma_rat_eq_trans(t@, rat_mul(a0, minor_det@), rat_mul(a0, sd));
            assert(sign@ == rat_sign(c));
            assert(rat_mul(sign@, t@).d > 0) by (nonlinear_arith)
                requires
                    sign@.d == 1,
                    t@.d > 0,
            ;
            assert(rat_mul(rat_sign(c), rat_mul(a0, sd)).d > 0) by (nonlinear_arith)
                requires
                    rat_sign(c).d == 1,
                    rat_mul(a0, sd).d > 0,
            ;
            lemma_rat_mul_cong(sign@, rat_sign(c), t@, rat_mul(a0, sd));
            lemma_rat_eq_trans(term@, rat_mul(sign@, t@), rat_mul(rat_sign(c), rat_mul(a0, sd)));
            lemma_rat_add_cong(
                det@,
                spec_det_expand(mv, c),
                term@,
                rat_mul(rat_sign(c), rat_mul(a0, sd)),
            );
            assert(rat_add(det@, term@).d > 0) by (nonlinear_arith)
                requires
                    det@.d > 0,
                    term@.d > 0,
            ;
            assert(rat_add(
                spec_det_expand(mv, c),
                rat_mul(rat_sign(c), rat_mul(a0, sd)),
            ).d > 0) by (nonlinear_arith)
                requires
                    spec_det_expand(mv, c).d > 0,
                    rat_mul(rat_sign(c), rat_mul(a0, sd)).d > 0,
            ;
            assert(spec_det_expand(mv, c + 1) == rat_add(
                spec_det_expand(mv, c),
                rat_mul(rat_sign(c), rat_mul(a0, sd)),
            ));
            lemma_rat_eq_trans(next@, rat_add(det@, term@), spec_det_expand(mv, c + 1));
            assert(try_det_expand(mv, c + 1) == Some(next@));
        }
        det = next;
        col += 1;
    }
    proof {
        assert(spec_det(mv) == spec_det_expand(mv, n as int));
        assert(try_det(mv) == try_det_expand(mv, n as int));
    }
    Ok(det)
}

/// `|f| < 1e-10`, decided exactly.
pub(crate) fn below_tol10_exec(f: &Fraction) -> (r: bool)
    requires
        f.wf(),
    ensures
        r <==> rat_below_tol10(f@),
{
    let na: i128 = if f.numerator < 0 {
        -(f.numerator as i128)
    } else {
        f.numerator as i128
    };
    na * 10000000000 < f.denominator as i128
}

/// Parity of a sum from the parities of its parts.
proof fn lemma_sign_parity(i: int, j: int)
    requires
        i >= 0,
        j >= 0,
    ensures
        ((i + j) % 2 == 0) <==> (i % 2 == j % 2),
{
    vstd::arithmetic::div_mod::lemma_add_mod_noop(i, j, 2);
    vstd::arithmetic::div_mod::lemma_mod_division_less_than_divisor(i, 2);
    vstd::arithmetic::div_mod::lemma_mod_division_less_than_divisor(j, 2);
    vstd::arithmetic::div_mod::lemma_mod_division_less_than_divisor(i + j, 2);
    if i % 2 == j % 2 {
        if i % 2 == 0 {
            vstd::arithmetic::div_mod::lemma_small_mod(0, 2);
        } else {
            vstd::arithmetic::div_mod::lemma_small_mod(0, 2);
            assert((2int) % 2 == 0) by {
                vstd::arithmetic::div_mod::lemma_mod_self_0(2);
            }
        }
    } else {
        vstd::arithmetic::div_mod::lemma_small_mod(1, 2);
    }
}

/// The matrix of signed minor determinants.
fn cofactor_matrix(matrix: &FractionMatrix) -> (r: Result<FractionMatrix, MatrixError>)
    requires
        mat_wf(mat_view(matrix@)),
        is_square(mat_view(matrix@)),
        matrix@.len() >= 2,
    ensures
        r matches Ok(c) ==> {
            &&& c@.len() == matrix@.len()
            &&& (forall|i: int|
                0 <= i < c@.len() ==> (#[trigger] mat_view(c@)[i]).len() == matrix@.len())
            &&& mat_wf(mat_view(c@))
            &&& (forall|i: int, j: int|
                0 <= i < matrix@.len() && 0 <= j < matrix@.len() ==> rat_eq(
                    #[trigger] mat_view(c@)[i][j],
                    rat_mul(
                        rat_sign(i + j),
                        spec_det(spec_minor(mat_view(matrix@), i, j)),
                    ),
                ))
            &&& (forall|i: int, j: int|
                0 <= i < matrix@.len() && 0 <= j < matrix@.len() ==> (#[trigger] try_cof_entry(
                    mat_view(matrix@),
                    i,
                    j,
                )) is Some && mat_view(c@)[i][j] == rat_of(try_cof_entry(mat_view(matrix@), i, j)))
        },
        (r is Ok) <==> (forall|i: int, j: int|
            0 <= i < matrix@.len() && 0 <= j < matrix@.len() ==> (#[trigger] try_cof_entry(
                mat_view(matrix@),
                i,
                j,
            )) is Some),
        r matches Err(e) ==> e == MatrixError::Overflow,
{
    let ghost mv = mat_view(matrix@);
    let n = matrix.len();
    let mut cofactor: FractionMatrix = Vec::new();
    let mut i: usize = 0;
    while i < n
        invariant
            0 <= i <= n,
            n == matrix@.len(),
            n >= 2,
            mv == mat_view(matrix@),
            mat_wf(mv),
            is_square(mv),
            cofactor@.len() == i,
            forall|r: int| 0 <= r < i ==> (#[trigger] mat_view(cofactor@)[r]).len() == n,
            forall|r: int, c: int|
                0 <= r < i && 0 <= c < n ==> (#[trigger] mat_view(cofactor@)[r][c]).d > 0
                    && rat_eq(
                    mat_view(cofactor@)[r][c],
                    rat_mul(rat_sign(r + c), spec_det(spec_minor(mv, r, c))),
                ),
            forall|r: int, c: int|
                0 <= r < i && 0 <= c < n ==> (#[trigger] try_cof_entry(mv, r, c)) is Some
                    && mat_view(cofactor@)[r][c] == rat_of(try_cof_entry(mv, r, c)),
        decreases n - i,
    {
        let mut row: Vec<Fraction> = Vec::new();
        let mut j: usize = 0;
        while j < n
            invariant
                0 <= j <= n,
                0 <= i < n,
                n == matrix@.len(),
                n >= 2,
                mv == mat_view(matrix@),
                mat_wf(mv),
                is_square(mv),
                row@.len() == j,
                forall|c: int|
                    0 <= c < j ==> (#[trigger] row@[c]@).d > 0 && rat_eq(
                        row@[c]@,
                        rat_mul(rat_sign(i as int + c), spec_det(spec_minor(mv, i as int, c))),
                    ),
                forall|c: int|
                    0 <= c < j ==> (#[trigger] try_cof_entry(mv, i as int, c)) is Some && row@[c]@
                        == rat_of(try_cof_entry(mv, i as int, c)),
            decreases n - j,
        {
            let minor = get_minor(matrix, i, j);
            let minor_det = match determinant(&minor) {
                Ok(d) => d,
                Err(_) => {
                    proof {
                        assert(try_det(spec_minor(mv, i as int, j as int)) is None);
                        assert(try_cof_entry(mv, i as int, j as int) is None);
                    }
                    return Err(MatrixError::Overflow);
                },
            };
            let sign = if (i % 2) == (j % 2) {
                Fraction { numerator: 1, denominator: 1 }
            } else {
                Fraction { numerator: -1, denominator: 1 }
            };
            proof {
                lemma_sign_parity(i as int, j as int);
                assert(sign@ == rat_sign(i as int + j as int));
                assert(Some(minor_det@) == try_det(spec_minor(mv, i as int, j as int)));
            }
            let val = match sign.checked_mul(&minor_det) {
                Some(v) => v,
                None => {
                    proof {
                        assert(try_cof_entry(mv, i as int, j as int) is None);
                    }
                    return Err(MatrixError::Overflow);
                },
            };
            proof {
                assert(try_cof_entry(mv, i as int, j as int) == Some(val@));
            }
            proof {
                let sm = spec_minor(mv, i as int, j as int);
                lemma_minor_wf(mv, i as int, j as int);
                lemma_spec_det_wf(sm);
                lemma_sign_parity(i as int, j as int);
                assert(sign@ == rat_sign(i as int + j as int));
                lemma_rat_mul_cong(sign@, rat_sign(i as int + j as int), minor_det@, spec_det(sm));
                assert(rat_mul(sign@, minor_det@).d > 0) by (nonlinear_arith)
                    requires
                        sign@.d == 1,
                        minor_det@.d > 0,
                ;
                assert(rat_mul(rat_sign(i as int + j as int), spec_det(sm)).d > 0)
                    by (nonlinear_arith)
                    requires
                        rat_sign(i as int + j as int).d == 1,
                        spec_det(sm).d > 0,
                ;
                lemma_rat_eq_trans(
                    val@,
                    rat_mul(sign@, minor_det@),
                    rat_mul(rat_sign(i as int + j as int), spec_det(sm)),
                );
            }
            row.push(val);
            j += 1;
        }
        let ghost cof0 = cofactor@;
        let ghost rowv = row@;
        cofactor.push(row);
        proof {
            assert forall|r: int, c: int| 0 <= r < i + 1 && 0 <= c < n implies (#[trigger] mat_view(
                cofactor@,
            )[r][c]).d > 0 && rat_eq(
                mat_view(cofactor@)[r][c],
                rat_mul(rat_sign(r + c), spec_det(spec_minor(mv, r, c))),
            ) by {
                if r < i {
                    assert(cofactor@[r] == cof0[r]);
                    assert(mat_view(cofactor@)[r] == mat_view(cof0)[r]);
                } else {
                    assert(cofactor@[r]@ == rowv);
                    assert(mat_view(cofactor@)[r][c] == rowv[c]@);
                }
            }
            assert forall|r: int, c: int| 0 <= r < i + 1 && 0 <= c < n implies (
            #[trigger] try_cof_entry(mv, r, c)) is Some && mat_view(cofactor@)[r][c] == rat_of(
                try_cof_entry(mv, r, c),
            ) by {
                if r < i {
                    assert(cofactor@[r] == cof0[r]);
                    assert(mat_view(cofactor@)[r] == mat_view(cof0)[r]);
                } else {
                    assert(cofactor@[r]@ == rowv);
                    assert(mat_view(cofactor@)[r][c] == rowv[c]@);
                }
            }
            assert forall|r: int| 0 <= r < i + 1 implies (#[trigger] mat_view(
                cofactor@,
            )[r]).len() == n by {
                if r < i {
                    assert(cofactor@[r] == cof0[r]);
                    assert(mat_view(cofactor@)[r] == mat_view(cof0)[r]);
                } else {
                    assert(cofactor@[r]@ == rowv);
                }
            }
        }
        i += 1;
    }
    Ok(cofactor)
}

/// The transpose: entry `(i, j)` becomes entry `(j, i)`.
fn transpose(matrix: &FractionMatrix) -> (r: FractionMatrix)
    requires
        mat_wf(mat_view(matrix@)),
        forall|i: int|
            0 <= i < matrix@.len() ==> (#[trigger] mat_view(matrix@)[i]).len() == matrix@.len(),
    ensures
        r@.len() == matrix@.len(),
        forall|i: int| 0 <= i < r@.len() ==> (#[trigger] mat_view(r@)[i]).len() == matrix@.len(),
        mat_wf(mat_view(r@)),
        forall|i: int, j: int|
            0 <= i < matrix@.len() && 0 <= j < matrix@.len() ==> #[trigger] mat_view(r@)[i][j]
                == mat_view(matrix@)[j][i],
{
    let ghost mv = mat_view(matrix@);
    let n = matrix.len();
    let mut result: FractionMatrix = Vec::new();
    let mut i: usize = 0;
    while i < n
        invariant
            0 <= i <= n,
            n == matrix@.len(),
            mv == mat_view(matrix@),
            mat_wf(mv),
            forall|r: int| 0 <= r < n ==> (#[trigger] mv[r]).len() == n,
            result@.len() == i,
            forall|r: int| 0 <= r < i ==> (#[trigger] mat_view(result@)[r]).len() == n,
            forall|r: int, c: int|
                0 <= r < i && 0 <= c < n ==> #[trigger] mat_view(result@)[r][c] == mv[c][r],
        decreases n - i,
    {
        let mut row: Vec<Fraction> = Vec::new();
        let mut j: usize = 0;
        while j < n
            invariant
                0 <= j <= n,
                0 <= i < n,
                n == matrix@.len(),
                mv == mat_view(matrix@),
                mat_wf(mv),
                forall|r: int| 0 <= r < n ==> (#[trigger] mv[r]).len() == n,
                row@.len() == j,
                forall|c: int| 0 <= c < j ==> #[trigger] row@[c]@ == mv[c][i as int],
            decreases n - j,
        {
            proof {
                assert(matrix@[j as int]@.len() == mv[j as int].len());
                assert(matrix@[j as int]@[i as int]@ == mv[j as int][i as int]);
            }
            row.push(matrix[j][i]);
            j += 1;
        }
        let ghost res0 = result@;
        let ghost rowv = row@;
        result.push(row);
        proof {
            assert forall|r: int, c: int| 0 <= r < i + 1 && 0 <= c < n implies #[trigger] mat_view(
                result@,
            )[r][c] == mv[c][r] by {
                if r < i {
                    assert(result@[r] == res0[r]);
                    assert(mat_view(result@)[r] == mat_view(res0)[r]);
                } else {
                    assert(result@[r]@ == rowv);
                    assert(mat_view(result@)[r][c] == rowv[c]@);
                }
            }
            assert forall|r: int| 0 <= r < i + 1 implies (#[trigger] mat_view(
                result@,
            )[r]).len() == n by {
                if r < i {
                    assert(result@[r] == res0[r]);
                    assert(mat_view(result@)[r] == mat_view(res0)[r]);
                } else {
                    assert(result@[r]@ == rowv);
                }
            }
        }
        i += 1;
    }
    result
}

/// Inverse by the adjugate formula: the transposed cofactor matrix divided
/// by the determinant. On success the result is confirmed exactly, on both
/// sides, to invert the input.
pub fn inverse(matrix: &FractionMatrix) -> (r: Result<FractionMatrix, MatrixError>)
    requires
        mat_wf(mat_view(matrix@)),
    ensures
        (r matches Err(e) && e == MatrixError::NotSquare) <==> !is_square(mat_view(matrix@)),
        r matches Err(e) && e == MatrixError::SingularMatrix ==> is_square(mat_view(matrix@))
            && rat_below_tol10(spec_det(mat_view(matrix@))),
        r matches Ok(inv) ==> {
            &&& is_square(mat_view(matrix@))
            &&& !rat_below_tol10(spec_det(mat_view(matrix@)))
            &&& inv@.len() == matrix@.len()
            &&& (forall|i: int|
                0 <= i < inv@.len() ==> (#[trigger] mat_view(inv@)[i]).len() == matrix@.len())
            &&& mat_wf(mat_view(inv@))
            &&& is_inverse(mat_view(matrix@), mat_view(inv@))
            &&& (matrix@.len() >= 2 ==> forall|i: int, j: int|
                0 <= i < matrix@.len() && 0 <= j < matrix@.len() ==> rat_eq(
                    #[trigger] mat_view(inv@)[i][j],
                    rat_div(
                        rat_mul(rat_sign(i + j), spec_det(spec_minor(mat_view(matrix@), j, i))),
                        spec_det(mat_view(matrix@)),
                    ),
                ))
        },
        is_square(mat_view(matrix@)) ==> ((r matches Err(e) && e == MatrixError::SingularMatrix)
            <==> (try_det(mat_view(matrix@)) is Some && rat_below_tol10(
            rat_of(try_det(mat_view(matrix@))),
        ))),
        is_square(mat_view(matrix@)) ==> ((r is Ok) <==> adjugate_inverse_ok(mat_view(matrix@))),
{
    let ghost mv = mat_view(matrix@);
    let det = match determinant(matrix) {
        Ok(d) => d,
        Err(e) => {
            proof {
                if is_square(mv) {
                    assert(try_det(mv) is None);
                }
            }
            return Err(e);
        },
    };
    proof {
        assert(is_square(mv));
        assert(Some(det@) == try_det(mv));
        assert(rat_of(try_det(mv)) == det@);
    }
    proof {
        lemma_spec_det_wf(mv);
        lemma_below_tol10_cong(det@, spec_det(mv));
    }
    if below_tol10_exec(&det) {
        return Err(MatrixError::SingularMatrix);
    }
    proof {
        if det.numerator == 0 {
            assert(det@.n * spec_det(mv).d == spec_det(mv).n * det@.d);
            assert(false) by (nonlinear_arith)
                requires
                    det@.n == 0,
                    det@.d >= 1,
                    crate::rational::abs_int(det@.n) * 10000000000 >= det@.d,
            ;
        }
    }
    let n = matrix.len();
    if n == 1 {
        let one = Fraction { numerator: 1, denominator: 1 };
        proof {
            assert(matrix@[0]@.len() == mv[0].len());
            assert(matrix@[0]@[0]@ == mv[0][0]);
            if matrix@[0]@[0]@.n == 0 {
                assert(det@.n * mv[0][0].d == mv[0][0].n * det@.d);
                assert(false) by (nonlinear_arith)
                    requires
                        det@.n * mv[0][0].d == mv[0][0].n * det@.d,
                        mv[0][0].n == 0,
                        mv[0][0].d > 0,
                        det@.n != 0,
                        det@.d > 0,
                ;
            }
        }
        let e = match one.checked_div(&matrix[0][0]) {
            Some(v) => v,
            None => {
                proof {
                    assert(one@ == rat_one());
                    assert(!canon_fits(rat_div(rat_one(), mv[0][0])));
                }
                return Err(MatrixError::Overflow);
            },
        };
        let mut row: Vec<Fraction> = Vec::new();
        row.push(e);
        let mut result: FractionMatrix = Vec::new();
        let ghost rowv = row@;
        result.push(row);
        proof {
            assert(result@[0]@ == rowv);
            assert(mat_view(result@)[0][0] == rowv[0]@);
            assert(mat_view(result@)[0].len() == 1);
            assert(one@ == rat_one());
            assert(mat_view(result@)[0][0] == rat_canon(rat_div(rat_one(), mv[0][0])));
            assert(mat_view(result@)[0] =~= recip_mat(mv)[0]);
            assert(mat_view(result@) =~~= recip_mat(mv));
        }
        if !confirm_inverse(matrix, &result) {
            return Err(MatrixError::Overflow);
        }
        return Ok(result);
    }
    let cofactor = match cofactor_matrix(matrix) {
        Ok(c) => c,
        Err(_) => {
            return Err(MatrixError::Overflow);
        },
    };
    let adjugate = transpose(&cofactor);
    let ghost av = mat_view(adjugate@);
    proof {
        assert forall|r: int, c: int| 0 <= r < n && 0 <= c < n implies (#[trigger] try_cof_entry(
            mv,
            c,
            r,
        )) is Some && av[r][c] == rat_of(try_cof_entry(mv, c, r)) by {
            assert(av[r][c] == mat_view(cofactor@)[c][r]);
            assert(mat_view(cofactor@)[c][r] == rat_of(try_cof_entry(mv, c, r)));
        }
    }
    let mut result: FractionMatrix = Vec::new();
    let mut i: usize = 0;
    while i < n
        invariant
            0 <= i <= n,
            n == matrix@.len(),
            n >= 2,
            mv == mat_view(matrix@),
            av == mat_view(adjugate@),
            mat_wf(mv),
            mat_wf(av),
            is_square(mv),
            adjugate@.len() == n,
            det.wf(),
            det.numerator != 0,
            rat_eq(det@, spec_det(mv)),
            spec_det(mv).d > 0,
            Some(det@) == try_det(mv),
            !rat_below_tol10(det@),
            forall|r: int| 0 <= r < n ==> (#[trigger] av[r]).len() == n,
            forall|r: int, c: int|
                0 <= r < n && 0 <= c < n ==> rat_eq(
                    #[trigger] av[r][c],
                    rat_mul(rat_sign(c + r), spec_det(spec_minor(mv, c, r))),
                ),
            forall|r: int, c: int|
                0 <= r < n && 0 <= c < n ==> (#[trigger] try_cof_entry(mv, c, r)) is Some
                    && av[r][c] == rat_of(try_cof_entry(mv, c, r)),
            result@.len() == i,
            forall|r: int| 0 <= r < i ==> (#[trigger] mat_view(result@)[r]).len() == n,
            forall|r: int, c: int|
                0 <= r < i && 0 <= c < n ==> (#[trigger] mat_view(result@)[r][c]).d > 0
                    && rat_eq(
                    mat_view(result@)[r][c],
                    rat_div(
                        rat_mul(rat_sign(r + c), spec_det(spec_minor(mv, c, r))),
                        spec_det(mv),
                    ),
                ),
            forall|r: int, c: int|
                0 <= r < i && 0 <= c < n ==> #[trigger] mat_view(result@)[r][c] == adj_inv_entry(
                    mv,
                    r,
                    c,
                ),
            forall|r: int, c: int|
                0 <= r < i && 0 <= c < n ==> canon_fits(
                    rat_div(rat_of(#[trigger] try_cof_entry(mv, c, r)), rat_of(try_det(mv))),
                ),
        decreases n - i,
    {
        let mut row: Vec<Fraction> = Vec::new();
        let mut j: usize = 0;
        while j < n
            invariant
                0 <= j <= n,
                0 <= i < n,
                n == matrix@.len(),
                n >= 2,
                mv == mat_view(matrix@),
                av == mat_view(adjugate@),
                mat_wf(mv),
                mat_wf(av),
                is_square(mv),
                adjugate@.len() == n,
                det.wf(),
                det.numerator != 0,
                rat_eq(det@, spec_det(mv)),
                spec_det(mv).d > 0,
                Some(det@) == try_det(mv),
                !rat_below_tol10(det@),
                forall|r: int| 0 <= r < n ==> (#[trigger] av[r]).len() == n,
                forall|r: int, c: int|
                    0 <= r < n && 0 <= c < n ==> rat_eq(
                        #[trigger] av[r][c],
                        rat_mul(rat_sign(c + r), spec_det(spec_minor(mv, c, r))),
                    ),
                forall|r: int, c: int|
                    0 <= r < n && 0 <= c < n ==> (#[trigger] try_cof_entry(mv, c, r)) is Some
                        && av[r][c] == rat_of(try_cof_entry(mv, c, r)),
                row@.len() == j,
                forall|c: int|
                    0 <= c < j ==> (#[trigger] row@[c]@).d > 0 && rat_eq(
                        row@[c]@,
                        rat_div(
                            rat_mul(rat_sign(i as int + c), spec_det(spec_minor(mv, c, i as int))),
                            spec_det(mv),
                        ),
                    ),
                forall|c: int|
                    0 <= c < j ==> #[trigger] row@[c]@ == adj_inv_entry(mv, i as int, c),
                forall|r: int, c: int|
                    0 <= r < i && 0 <= c < n ==> canon_fits(
                        rat_div(rat_of(#[trigger] try_cof_entry(mv, c, r)), rat_of(try_det(mv))),
                    ),
                forall|c: int|
                    0 <= c < j ==> canon_fits(
                        rat_div(
                            rat_of(#[trigger] try_cof_entry(mv, c, i as int)),
                            rat_of(try_det(mv)),
                        ),
                    ),
            decreases n - j,
        {
            proof {
                assert(adjugate@[i as int]@.len() == av[i as int].len());
                assert(adjugate@[i as int]@[j as int]@ == av[i as int][j as int]);
            }
            let val = match adjugate[i][j].checked_div(&det) {
                Some(v) => v,
                None => {
                    proof {
                        assert(av[i as int][j as int] == rat_of(
                            try_cof_entry(mv, j as int, i as int),
                        ));
                        assert(!canon_fits(
                            rat_div(
                                rat_of(try_cof_entry(mv, j as int, i as int)),
                                rat_of(try_det(mv)),
                            ),
                        ));
                    }
                    return Err(MatrixError::Overflow);
                },
            };
            proof {
                assert(val@ == adj_inv_entry(mv, i as int, j as int));
            }
            proof {
                let ii = i as int;
                let jj = j as int;
                let sm = spec_minor(mv, jj, ii);
                lemma_minor_wf(mv, jj, ii);
                lemma_spec_det_wf(sm);
                let num = rat_mul(rat_sign(jj + ii), spec_det(sm));
                assert(rat_mul(rat_sign(jj + ii), spec_det(sm)).d > 0) by (nonlinear_arith)
                    requires
                        rat_sign(jj + ii).d == 1,
                        spec_det(sm).d > 0,
                ;
                lemma_rat_div_cong(av[ii][jj], num, det@, spec_det(mv));
                assert(rat_div(av[ii][jj], det@).d != 0) by (nonlinear_arith)
                    requires
                        av[ii][jj].d > 0,
                        det@.n != 0,
                ;
                assert(rat_div(num, spec_det(mv)).d != 0) by (nonlinear_arith)
                    requires
                        num.d > 0,
                        spec_det(mv).n * det@.d == det@.n * spec_det(mv).d,
                        det@.n != 0,
                        det@.d > 0,
                        spec_det(mv).d > 0,
                ;
                lemma_rat_eq_trans(val@, rat_div(av[ii][jj], det@), rat_div(num, spec_det(mv)));
                assert(jj + ii == ii + jj);
            }
            row.push(val);
            j += 1;
        }
        let ghost res0 = result@;
        let ghost rowv = row@;
        result.push(row);
        proof {
            assert forall|r: int, c: int| 0 <= r < i + 1 && 0 <= c < n implies (#[trigger] mat_view(
                result@,
            )[r][c]).d > 0 && rat_eq(
                mat_view(result@)[r][c],
                rat_div(rat_mul(rat_sign(r + c), spec_det(spec_minor(mv, c, r))), spec_det(mv)),
            ) by {
                if r < i {
                    assert(result@[r] == res0[r]);
                    assert(mat_view(result@)[r] == mat_view(res0)[r]);
                } else {
                    assert(result@[r]@ == rowv);
                    assert(mat_view(result@)[r][c] == rowv[c]@);
                }
            }
            assert forall|r: int, c: int| 0 <= r < i + 1 && 0 <= c < n implies #[trigger] mat_view(
                result@,
            )[r][c] == adj_inv_entry(mv, r, c) by {
                if r < i {
                    assert(result@[r] == res0[r]);
                    assert(mat_view(result@)[r] == mat_view(res0)[r]);
                } else {
                    assert(result@[r]@ == rowv);
                    assert(mat_view(result@)[r][c] == rowv[c]@);
                }
            }
            assert forall|r: int| 0 <= r < i + 1 implies (#[trigger] mat_view(
                result@,
            )[r]).len() == n by {
                if r < i {
                    assert(result@[r] == res0[r]);
                    assert(mat_view(result@)[r] == mat_view(res0)[r]);
                } else {
                    assert(result@[r]@ == rowv);
                }
            }
        }
        i += 1;
    }
    proof {
        assert forall|r: int| 0 <= r < n implies #[trigger] mat_view(result@)[r] =~= adj_inv_mat(
            mv,
        )[r] by {
            assert(mat_view(result@)[r].len() == n);
        }
        assert(mat_view(result@) =~~= adj_inv_mat(mv));
    }
    // The exact two-sided check is what establishes `is_inverse`; for a
    // correctly computed result it always passes.
    if !confirm_inverse(matrix, &result) {
        return Err(MatrixError::Overflow);
    }
    Ok(result)
}

} // verus!
