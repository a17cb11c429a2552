//! Matrix inversion by Gauss-Jordan elimination with partial pivoting on
//! the augmented matrix `[A | I]`. The path is algorithmically independent
//! of the determinant module; on success the extracted right half is
//! confirmed exactly, on both sides, to invert the input.
use vstd::prelude::*;

use crate::determinant::below_tol10_exec;
use crate::matrix::{
    check_square, confirm_inverse, confirm_ok, copy_row, id_rat, is_inverse, is_square,
    lemma_row_view, mat_view, mat_wf, FractionMatrix,
};
use crate::rational::{
    canon_fits, rat_abs, rat_below_tol10, rat_canon, rat_div, rat_lt, rat_mul, rat_one, rat_sub,
    rat_zero,
};
use crate::rational::Rat;
use crate::{Fraction, MatrixError};

verus! {

/// The augmented matrix `[A | I]` as a value: `n` rows of length `2n`.
pub open spec fn augmented0(m: Seq<Seq<Rat>>) -> Seq<Seq<Rat>> {
    Seq::new(
        m.len(),
        |i: int|
            Seq::new(
                2 * m.len(),
                |j: int|
                    if j < m.len() {
                        m[i][j]
                    } else {
                        id_rat(i, j - m.len())
                    },
            ),
    )
}

/// The pivot row the scan selects in `col` among rows `start..upto`: the
/// earliest row of largest absolute value (strict comparison).
pub open spec fn gj_pick(aug: Seq<Seq<Rat>>, col: int, start: int, upto: int) -> int
    decreases upto,
    when 0 <= start && start <= upto
{
    if upto <= start + 1 {
        start
    } else {
        let b = gj_pick(aug, col, start, upto - 1);
        if rat_lt(rat_abs(aug[b][col]), rat_abs(aug[upto - 1][col])) {
            upto - 1
        } else {
            b
        }
    }
}

/// Rows `a` and `b` exchanged.
pub open spec fn gj_swap(aug: Seq<Seq<Rat>>, a: int, b: int) -> Seq<Seq<Rat>> {
    aug.update(a, aug[b]).update(b, aug[a])
}

/// The pivot row scaled so the pivot becomes one, as computed.
pub open spec fn gj_norm_row(row: Seq<Rat>, p: Rat) -> Seq<Rat> {
    Seq::new(row.len(), |j: int| rat_canon(rat_div(row[j], p)))
}

pub open spec fn gj_norm_fits(row: Seq<Rat>, p: Rat) -> bool {
    forall|j: int| 0 <= j < row.len() ==> canon_fits(rat_div(#[trigger] row[j], p))
}

/// One eliminated row: the scaled pivot row taken out of it, as computed.
pub open spec fn gj_elim_row(row: Seq<Rat>, factor: Rat, prow: Seq<Rat>) -> Seq<Rat> {
    Seq::new(row.len(), |j: int| rat_canon(rat_sub(row[j], rat_canon(rat_mul(factor, prow[j])))))
}

pub open spec fn gj_elim_row_fits(row: Seq<Rat>, factor: Rat, prow: Seq<Rat>) -> bool {
    forall|j: int|
        0 <= j < row.len() ==> canon_fits(rat_mul(factor, #[trigger] prow[j])) && canon_fits(
            rat_sub(row[j], rat_canon(rat_mul(factor, prow[j]))),
        )
}

/// The matrix after one whole column step: pivot row scaled, the column
/// cancelled in every other row.
pub open spec fn gj_elim_state(aug: Seq<Seq<Rat>>, pr: int, col: int) -> Seq<Seq<Rat>> {
    let np = gj_norm_row(aug[pr], aug[pr][col]);
    Seq::new(
        aug.len(),
        |r: int|
            if r == pr {
                np
            } else {
                gj_elim_row(aug[r], aug[r][col], np)
            },
    )
}

/// Every exact intermediate of the column step stays in 64-bit range.
pub open spec fn gj_elim_fits(aug: Seq<Seq<Rat>>, pr: int, col: int) -> bool {
    &&& gj_norm_fits(aug[pr], aug[pr][col])
    &&& (forall|r: int|
        0 <= r < aug.len() && r != pr ==> gj_elim_row_fits(
            #[trigger] aug[r],
            aug[r][col],
            gj_norm_row(aug[pr], aug[pr][col]),
        ))
}

/// The outcome of running the elimination from column `col` on.
pub enum GjRun {
    Done(Seq<Seq<Rat>>),
    Singular,
    Overflow,
}

/// Mirror of the whole forward elimination, column by column: the exact
/// final state, or the failure it stops with.
pub open spec fn gj_run(aug: Seq<Seq<Rat>>, col: int) -> GjRun
    decreases aug.len() - col,
    when 0 <= col <= aug.len()
    via gj_run_decreases
{
    if col >= aug.len() {
        GjRun::Done(aug)
    } else {
        let pr = gj_pick(aug, col, col, aug.len() as int);
        let sw = gj_swap(aug, col, pr);
        if rat_below_tol10(sw[col][col]) {
            GjRun::Singular
        } else if !gj_elim_fits(sw, col, col) {
            GjRun::Overflow
        } else {
            gj_run(gj_elim_state(sw, col, col), col + 1)
        }
    }
}

#[via_fn]
proof fn gj_run_decreases(aug: Seq<Seq<Rat>>, col: int) {
    if 0 <= col < aug.len() {
        lemma_gj_pick_bounds(aug, col, col, aug.len() as int);
        let pr = gj_pick(aug, col, col, aug.len() as int);
        let sw = gj_swap(aug, col, pr);
        assert(sw.len() == aug.len());
        assert(gj_elim_state(sw, col, col).len() == sw.len());
    }
}

/// The selected pivot row lies in the scanned range.
pub proof fn lemma_gj_pick_bounds(aug: Seq<Seq<Rat>>, col: int, start: int, upto: int)
    requires
        0 <= start < upto,
    ensures
        start <= gj_pick(aug, col, start, upto) < upto,
    decreases upto,
{
    if upto > start + 1 {
        lemma_gj_pick_bounds(aug, col, start, upto - 1);
    }
}

/// The state a completed run ends in.
pub open spec fn gj_run_state(g: GjRun) -> Seq<Seq<Rat>> {
    match g {
        GjRun::Done(st) => st,
        GjRun::Singular => Seq::empty(),
        GjRun::Overflow => Seq::empty(),
    }
}

/// The right half of the final state: the computed inverse.
pub open spec fn gj_result(m: Seq<Seq<Rat>>) -> Seq<Seq<Rat>> {
    let st = gj_run_state(gj_run(augmented0(m), 0));
    Seq::new(m.len(), |i: int| Seq::new(m.len(), |j: int| st[i][m.len() + j]))
}

/// Exactly when the Gauss-Jordan path succeeds: the elimination runs to
/// completion in 64-bit range and the exact cross-check of the extracted
/// right half passes.
pub open spec fn gauss_jordan_ok(m: Seq<Seq<Rat>>) -> bool {
    &&& gj_run(augmented0(m), 0) is Done
    &&& confirm_ok(m, gj_result(m), m.len() as int)
}

/// One column step turns the already-finished columns, and the new one,
/// into exact identity columns: the arithmetic is exact, so the pivot
/// becomes exactly one and every cancelled entry exactly zero.
proof fn lemma_gj_elim_identity(sw: Seq<Seq<Rat>>, col: int, n: int, w: int)
    requires
        0 <= col < n,
        sw.len() == n,
        w >= n,
        forall|i: int| 0 <= i < n ==> (#[trigger] sw[i]).len() == w,
        mat_wf(sw),
        !rat_below_tol10(sw[col][col]),
        forall|i: int, j: int| 0 <= i < n && 0 <= j < col ==> #[trigger] sw[i][j] == id_rat(i, j),
    ensures
        gj_elim_state(sw, col, col).len() == n,
        forall|i: int|
            0 <= i < n ==> (#[trigger] gj_elim_state(sw, col, col)[i]).len() == w,
        mat_wf(gj_elim_state(sw, col, col)),
        forall|i: int, j: int|
            0 <= i < n && 0 <= j < col + 1 ==> #[trigger] gj_elim_state(sw, col, col)[i][j]
                == id_rat(i, j),
{
    let p = sw[col][col];
    assert(p.n != 0) by (nonlinear_arith)
        requires
            p.d >= 1,
            crate::rational::abs_int(p.n) * 10000000000 >= p.d,
            crate::rational::abs_int(p.n) == if p.n < 0 {
                -p.n
            } else {
                p.n
            },
    ;
    let np = gj_norm_row(sw[col], p);
    let st = gj_elim_state(sw, col, col);
    assert forall|j: int| 0 <= j < w implies (#[trigger] np[j]).d > 0 by {
        assert(rat_div(sw[col][j], p).d != 0) by (nonlinear_arith)
            requires
                sw[col][j].d > 0,
                p.n != 0,
        ;
        crate::rational::lemma_canon(rat_div(sw[col][j], p));
    }
    assert forall|j: int| 0 <= j < col + 1 implies #[trigger] np[j] == id_rat(col, j) by {
        if j < col {
            assert(sw[col][j] == rat_zero());
            assert(rat_div(rat_zero(), p).n == 0int * p.d && 0int * p.d == 0int);
            assert(rat_div(rat_zero(), p).d == 1int * p.n && 1int * p.n == p.n);
            crate::rational::lemma_canon_zero(rat_div(rat_zero(), p));
        } else {
            assert(rat_div(p, p).n == p.n * p.d);
            assert(rat_div(p, p).d == p.d * p.n);
            assert(p.n * p.d == p.d * p.n && p.n * p.d != 0) by (nonlinear_arith)
                requires
                    p.n != 0,
                    p.d >= 1,
            ;
            crate::rational::lemma_canon_self(p.n * p.d);
            assert(np[col] == rat_canon(Rat { n: p.n * p.d, d: p.n * p.d }));
        }
    }
    assert forall|i: int, j: int|
        0 <= i < n && i != col && 0 <= j < w implies (#[trigger] gj_elim_row(
        sw[i],
        sw[i][col],
        np,
    )[j]).d > 0 by {
        let f = sw[i][col];
        assert(rat_mul(f, np[j]).d > 0) by (nonlinear_arith)
            requires
                f.d > 0,
                np[j].d > 0,
        ;
        crate::rational::lemma_canon(rat_mul(f, np[j]));
        let cm = rat_canon(rat_mul(f, np[j]));
        assert(rat_sub(sw[i][j], cm).d > 0) by (nonlinear_arith)
            requires
                sw[i][j].d > 0,
                cm.d > 0,
        ;
        crate::rational::lemma_canon(rat_sub(sw[i][j], cm));
    }
    assert forall|i: int, j: int|
        0 <= i < n && i != col && 0 <= j < col + 1 implies #[trigger] gj_elim_row(
        sw[i],
        sw[i][col],
        np,
    )[j] == id_rat(i, j) by {
        let f = sw[i][col];
        if j < col {
            assert(np[j] == id_rat(col, j));
            assert(np[j] == rat_zero());
            assert(rat_mul(f, rat_zero()).n == f.n * 0int && f.n * 0int == 0int)
                by (nonlinear_arith);
            assert(rat_mul(f, rat_zero()).d == f.d * 1int && f.d * 1int == f.d)
                by (nonlinear_arith);
            crate::rational::lemma_canon_zero(rat_mul(f, rat_zero()));
            let e = sw[i][j];
            assert(e == id_rat(i, j));
            assert(rat_sub(e, rat_zero()).n == e.n * 1int - 0int * e.d);
            assert(e.n * 1int == e.n && 0int * e.d == 0int);
            assert(rat_sub(e, rat_zero()).d == e.d * 1int && e.d * 1int == e.d);
            assert(rat_sub(e, rat_zero()) == e);
            if i == j {
                assert(e == rat_one());
                crate::rational::lemma_canon_self(1int);
                assert(rat_canon(e) == rat_one());
            } else {
                crate::rational::lemma_canon_zero(e);
            }
        } else {
            assert(np[col] == id_rat(col, col));
            assert(np[col] == rat_one());
            assert(rat_mul(f, rat_one()).n == f.n * 1int && f.n * 1int == f.n);
            assert(rat_mul(f, rat_one()).d == f.d * 1int && f.d * 1int == f.d);
            assert(rat_mul(f, rat_one()) == f);
            crate::rational::lemma_canon(f);
            let cm = rat_canon(f);
            assert(cm.n * f.d == f.n * cm.d);
            assert(rat_sub(f, cm).n == f.n * cm.d - cm.n * f.d);
            assert(rat_sub(f, cm).n == 0);
            assert(rat_sub(f, cm).d != 0) by (nonlinear_arith)
                requires
                    f.d > 0,
                    cm.d > 0,
            ;
            crate::rational::lemma_canon_zero(rat_sub(f, cm));
            assert(id_rat(i, col) == rat_zero());
        }
    }
    assert forall|i: int, j: int|
        0 <= i < n && 0 <= j < col + 1 implies #[trigger] st[i][j] == id_rat(i, j) by {
        if i == col {
            assert(st[i] == np);
        } else {
            assert(st[i] == gj_elim_row(sw[i], sw[i][col], np));
        }
    }
    assert forall|i: int, j: int|
        0 <= i < n && 0 <= j < w implies (#[trigger] st[i][j]).d > 0 by {
        if i == col {
            assert(st[i] == np);
        } else {
            assert(st[i] == gj_elim_row(sw[i], sw[i][col], np));
        }
    }
    assert forall|i: int| 0 <= i < n implies (#[trigger] st[i]).len() == w by {
        if i == col {
            assert(st[i] == np);
        } else {
            assert(st[i] == gj_elim_row(sw[i], sw[i][col], np));
        }
    }
}

/// A completed run leaves the identity in the first `n` columns: every
/// column it processes becomes, exactly, the matching identity column.
proof fn lemma_gj_run_identity(aug: Seq<Seq<Rat>>, col: int, n: int, w: int)
    requires
        0 <= col <= n,
        aug.len() == n,
        w >= n,
        forall|i: int| 0 <= i < n ==> (#[trigger] aug[i]).len() == w,
        mat_wf(aug),
        forall|i: int, j: int| 0 <= i < n && 0 <= j < col ==> #[trigger] aug[i][j] == id_rat(i, j),
        gj_run(aug, col) is Done,
    ensures
        gj_run_state(gj_run(aug, col)).len() == n,
        forall|i: int|
            0 <= i < n ==> (#[trigger] gj_run_state(gj_run(aug, col))[i]).len() == w,
        forall|i: int, j: int|
            0 <= i < n && 0 <= j < n ==> #[trigger] gj_run_state(gj_run(aug, col))[i][j]
                == id_rat(i, j),
    decreases n - col,
{
    if col >= n {
    } else {
        lemma_gj_pick_bounds(aug, col, col, n);
        let pr = gj_pick(aug, col, col, n);
        let sw = gj_swap(aug, col, pr);
        assert(sw.len() == n);
        assert forall|i: int| 0 <= i < n implies (#[trigger] sw[i]).len() == w by {
            if i == col {
                assert(sw[i] == aug[pr]);
            } else if i == pr {
                assert(sw[i] == aug[col]);
            } else {
                assert(sw[i] == aug[i]);
            }
        }
        assert forall|i: int, j: int|
            0 <= i < n && 0 <= j < w implies (#[trigger] sw[i][j]).d > 0 by {
            if i == col {
                assert(sw[i] == aug[pr]);
            } else if i == pr {
                assert(sw[i] == aug[col]);
            } else {
                assert(sw[i] == aug[i]);
            }
        }
        assert forall|i: int, j: int|
            0 <= i < n && 0 <= j < col implies #[trigger] sw[i][j] == id_rat(i, j) by {
            if i == col {
                assert(sw[i] == aug[pr]);
                assert(aug[pr][j] == id_rat(pr, j));
            } else if i == pr {
                assert(sw[i] == aug[col]);
                assert(aug[col][j] == id_rat(col, j));
            } else {
                assert(sw[i] == aug[i]);
            }
        }
        assert(!rat_below_tol10(sw[col][col]));
        assert(gj_elim_fits(sw, col, col));
        lemma_gj_elim_identity(sw, col, n, w);
        let st1 = gj_elim_state(sw, col, col);
        lemma_gj_run_identity(st1, col + 1, n, w);
    }
}

/// The augmented matrix `[A | I]`, `n` rows of length `2n`.
fn get_augmented_matrix(matrix: &FractionMatrix) -> (r: Result<FractionMatrix, MatrixError>)
    requires
        mat_wf(mat_view(matrix@)),
    ensures
        r matches Err(e) ==> e == MatrixError::NotSquare && !is_square(mat_view(matrix@)),
        r matches Ok(aug) ==> {
            &&& is_square(mat_view(matrix@))
            &&& aug@.len() == matrix@.len()
            &&& (forall|i: int|
                0 <= i < aug@.len() ==> (#[trigger] mat_view(aug@)[i]).len() == 2 * matrix@.len())
            &&& mat_wf(mat_view(aug@))
            &&& mat_view(aug@) == augmented0(mat_view(matrix@))
        },
{
    let ghost mv = mat_view(matrix@);
    if !check_square(matrix) {
        return Err(MatrixError::NotSquare);
    }
    let n = matrix.len();
    let mut augmented: FractionMatrix = Vec::new();
    let mut i: usize = 0;
    while i < n
        invariant
            0 <= i <= n,
            n == matrix@.len(),
            mv == mat_view(matrix@),
            mat_wf(mv),
            is_square(mv),
            augmented@.len() == i,
            forall|r: int|
                0 <= r < i ==> (#[trigger] mat_view(augmented@)[r]).len() == 2 * n as int,
            forall|r: int, c: int|
                0 <= r < i && 0 <= c < 2 * n as int ==> (#[trigger] mat_view(
                    augmented@,
                )[r][c]).d > 0,
            forall|r: int, c: int|
                0 <= r < i && 0 <= c < 2 * n as int ==> #[trigger] mat_view(augmented@)[r][c]
                    == augmented0(mv)[r][c],
        decreases n - i,
    {
        let mut row: Vec<Fraction> = Vec::new();
        let mut j: usize = 0;
        while j < n
            invariant
                0 <= j <= n,
                0 <= i < n,
                n == matrix@.len(),
                mv == mat_view(matrix@),
                mat_wf(mv),
                is_square(mv),
                row@.len() == j,
                forall|c: int| 0 <= c < j ==> (#[trigger] row@[c]@).d > 0,
                forall|c: int| 0 <= c < j ==> #[trigger] row@[c]@ == mv[i as int][c],
            decreases n - j,
        {
            proof {
                assert(matrix@[i as int]@.len() == mv[i as int].len());
                assert(matrix@[i as int]@[j as int]@ == mv[i as int][j as int]);
            }
            row.push(matrix[i][j]);
            j += 1;
        }
        let mut j2: usize = 0;
        while j2 < n
            invariant
                0 <= j2 <= n,
                0 <= i < n,
                n == matrix@.len(),
                mv == mat_view(matrix@),
                row@.len() == n + j2,
                forall|c: int| 0 <= c < row@.len() ==> (#[trigger] row@[c]@).d > 0,
                forall|c: int| 0 <= c < n ==> #[trigger] row@[c]@ == mv[i as int][c],
                forall|c: int|
                    n <= c < n + j2 ==> #[trigger] row@[c]@ == id_rat(i as int, c - n),
            decreases n - j2,
        {
            if j2 == i {
                row.push(Fraction { numerator: 1, denominator: 1 });
            } else {
                row.push(Fraction { numerator: 0, denominator: 1 });
            }
            j2 += 1;
        }
        let ghost aug0 = augmented@;
        let ghost rowv = row@;
        augmented.push(row);
        proof {
            assert forall|r: int, c: int| 0 <= r < i + 1 && 0 <= c < 2 * n as int implies (
            #[trigger] mat_view(augmented@)[r][c]).d > 0 && mat_view(augmented@)[r][c]
                == augmented0(mv)[r][c] by {
                if r < i {
                    assert(augmented@[r] == aug0[r]);
                    assert(mat_view(augmented@)[r] == mat_view(aug0)[r]);
                } else {
                    assert(augmented@[r]@ == rowv);
                    assert(mat_view(augmented@)[r][c] == rowv[c]@);
                }
            }
            assert forall|r: int| 0 <= r < i + 1 implies (#[trigger] mat_view(
                augmented@,
            )[r]).len() == 2 * n as int by {
                if r < i {
                    assert(augmented@[r] == aug0[r]);
                    assert(mat_view(augmented@)[r] == mat_view(aug0)[r]);
                } else {
                    assert(augmented@[r]@ == rowv);
                }
            }
        }
        i += 1;
    }
    proof {
        assert forall|r: int| 0 <= r < n implies #[trigger] mat_view(augmented@)[r]
            =~= augmented0(mv)[r] by {
            assert(mat_view(augmented@)[r].len() == 2 * n as int);
        }
        assert(mat_view(augmented@) =~~= augmented0(mv));
    }
    Ok(augmented)
}

/// `|x| > |y|`, decided exactly.
fn abs_gt_exec(x: &Fraction, y: &Fraction) -> (r: bool)
    requires
        x.wf(),
        y.wf(),
    ensures
        r <==> rat_lt(rat_abs(y@), rat_abs(x@)),
{
    let xa: i128 = if x.numerator < 0 {
        -(x.numerator as i128)
    } else {
        x.numerator as i128
    };
    let ya: i128 = if y.numerator < 0 {
        -(y.numerator as i128)
    } else {
        y.numerator as i128
    };
    proof {
        assert(xa * (y.denominator as i128) == crate::rational::abs_int(x@.n) * y@.d
            && ya * (x.denominator as i128) == crate::rational::abs_int(y@.n) * x@.d)
            by (nonlinear_arith)
            requires
                xa as int == crate::rational::abs_int(x@.n),
                ya as int == crate::rational::abs_int(y@.n),
                y.denominator as int == y@.d,
                x.denominator as int == x@.d,
        ;
    }
    proof {
        assert(xa * (y.denominator as i128) <= 0x4000_0000_0000_0000_0000_0000_0000_0000
            && ya * (x.denominator as i128) <= 0x4000_0000_0000_0000_0000_0000_0000_0000
            && xa * (y.denominator as i128) >= 0 && ya * (x.denominator as i128) >= 0)
            by (nonlinear_arith)
            requires
                0 <= xa <= 0x8000_0000_0000_0000,
                0 <= ya <= 0x8000_0000_0000_0000,
                1 <= x.denominator as i128 <= 0x7fff_ffff_ffff_ffff,
                1 <= y.denominator as i128 <= 0x7fff_ffff_ffff_ffff,
        ;
    }
    let lhs = xa * (y.denominator as i128);
    let rhs = ya * (x.denominator as i128);
    lhs > rhs
}

/// The row in `col` at or below `start_row` with the largest absolute
/// value; ties keep the earliest row (strict comparison).
fn find_pivot_row(augmented: &FractionMatrix, col: usize, start_row: usize) -> (max_row: usize)
    requires
        mat_wf(mat_view(augmented@)),
        start_row < augmented@.len(),
        forall|i: int|
            0 <= i < augmented@.len() ==> col < (#[trigger] mat_view(augmented@)[i]).len(),
    ensures
        start_row <= max_row < augmented@.len(),
        max_row as int == gj_pick(
            mat_view(augmented@),
            col as int,
            start_row as int,
            augmented@.len() as int,
        ),
        forall|i: int|
            start_row <= i < augmented@.len() ==> !rat_lt(
                rat_abs(mat_view(augmented@)[max_row as int][col as int]),
                rat_abs(#[trigger] mat_view(augmented@)[i][col as int]),
            ),
{
    let ghost av = mat_view(augmented@);
    let n = augmented.len();
    let mut max_row = start_row;
    let mut row = start_row + 1;
    while row < n
        invariant
            start_row < row <= n || (row == start_row + 1),
            start_row <= max_row < n,
            row <= n,
            n == augmented@.len(),
            av == mat_view(augmented@),
            mat_wf(av),
            max_row as int == gj_pick(av, col as int, start_row as int, row as int),
            forall|i: int| 0 <= i < n ==> (#[trigger] av[i]).len() > col as int,
            forall|i: int|
                start_row <= i < row ==> !rat_lt(
                    rat_abs(av[max_row as int][col as int]),
                    rat_abs(#[trigger] av[i][col as int]),
                ),
        decreases n - row,
    {
        proof {
            assert(augmented@[row as int]@.len() == av[row as int].len());
            assert(augmented@[row as int]@[col as int]@ == av[row as int][col as int]);
            assert(augmented@[max_row as int]@.len() == av[max_row as int].len());
            assert(augmented@[max_row as int]@[col as int]@ == av[max_row as int][col as int]);
        }
        if abs_gt_exec(&augmented[row][col], &augmented[max_row][col]) {
            proof {
                assert forall|i: int| start_row <= i < row implies !rat_lt(
                    rat_abs(av[row as int][col as int]),
                    rat_abs(#[trigger] av[i][col as int]),
                ) by {
                    assert(rat_abs(av[i][col as int]).d > 0);
                    assert(rat_abs(av[max_row as int][col as int]).d > 0);
                    assert(rat_abs(av[row as int][col as int]).d > 0);
                    crate::rational::lemma_rat_le_lt_trans(
                        rat_abs(av[i][col as int]),
                        rat_abs(av[max_row as int][col as int]),
                        rat_abs(av[row as int][col as int]),
                    );
                }
            }
            max_row = row;
        }
        proof {
            assert(gj_pick(av, col as int, start_row as int, row as int + 1) == max_row as int);
        }
        row += 1;
    }
    max_row
}

/// Normalize the pivot row and cancel `col` in every other row: on success
/// the final state is exactly the specified column step.
fn eliminate_column(augmented: &mut FractionMatrix, pivot_row: usize, col: usize) -> (r: Result<
    (),
    MatrixError,
>)
    requires
        mat_wf(mat_view(old(augmented)@)),
        pivot_row < old(augmented)@.len(),
        forall|i: int|
            0 <= i < old(augmented)@.len() ==> (#[trigger] mat_view(old(augmented)@)[i]).len()
                > col,
        forall|i: int|
            0 <= i < old(augmented)@.len() ==> (#[trigger] mat_view(old(augmented)@)[i]).len()
                == mat_view(old(augmented)@)[0].len(),
    ensures
        final(augmented)@.len() == old(augmented)@.len(),
        forall|i: int|
            0 <= i < final(augmented)@.len() ==> (#[trigger] mat_view(
                final(augmented)@,
            )[i]).len() == mat_view(old(augmented)@)[0].len(),
        mat_wf(mat_view(final(augmented)@)),
        r matches Err(e) ==> e == MatrixError::SingularMatrix || e == MatrixError::Overflow,
        r matches Err(e) && e == MatrixError::SingularMatrix <==> rat_below_tol10(
            mat_view(old(augmented)@)[pivot_row as int][col as int],
        ),
        r matches Err(e) && e == MatrixError::SingularMatrix ==> final(augmented)@ == old(
            augmented,
        )@,
        !rat_below_tol10(mat_view(old(augmented)@)[pivot_row as int][col as int]) ==> ((r is Ok)
            <==> gj_elim_fits(mat_view(old(augmented)@), pivot_row as int, col as int)),
        r is Ok ==> mat_view(final(augmented)@) == gj_elim_state(
            mat_view(old(augmented)@),
            pivot_row as int,
            col as int,
        ),
{
    let ghost orig = mat_view(old(augmented)@);
    let ghost w = mat_view(old(augmented)@)[0].len();
    let n = augmented.len();
    proof {
        lemma_row_view(augmented@, pivot_row as int);
    }
    let pivot = augmented[pivot_row][col];
    proof {
        assert(pivot@ == orig[pivot_row as int][col as int]);
    }
    if below_tol10_exec(&pivot) {
        return Err(MatrixError::SingularMatrix);
    }
    proof {
        if pivot.numerator == 0 {
            assert(false) by (nonlinear_arith)
                requires
                    pivot@.n == 0,
                    pivot@.d >= 1,
                    crate::rational::abs_int(pivot@.n) * 10000000000 >= pivot@.d,
            ;
        }
    }
    let width = augmented[pivot_row].len();
    let mut new_pivot_row: Vec<Fraction> = Vec::new();
    let mut j: usize = 0;
    while j < width
        invariant
            0 <= j <= width,
            n == augmented@.len(),
            pivot_row < n,
            width as int == w,
            w == mat_view(old(augmented)@)[0].len(),
            orig == mat_view(old(augmented)@),
            augmented@ == old(augmented)@,
            mat_wf(orig),
            pivot.wf(),
            pivot.numerator != 0,
            pivot@ == orig[pivot_row as int][col as int],
            !rat_below_tol10(orig[pivot_row as int][col as int]),
            col < w,
            forall|i: int| 0 <= i < n ==> (#[trigger] orig[i]).len() == w,
            new_pivot_row@.len() == j,
            forall|c: int|
                0 <= c < j ==> #[trigger] new_pivot_row@[c]@ == rat_canon(
                    rat_div(orig[pivot_row as int][c], pivot@),
                ) && new_pivot_row@[c]@.d > 0 && canon_fits(
                    rat_div(orig[pivot_row as int][c], pivot@),
                ),
        decreases width - j,
    {
        proof {
            lemma_row_view(augmented@, pivot_row as int);
            assert(augmented@[pivot_row as int]@[j as int]@ == orig[pivot_row as int][j as int]);
        }
        let v = match augmented[pivot_row][j].checked_div(&pivot) {
            Some(v) => v,
            None => {
                proof {
                    assert(!canon_fits(
                        rat_div(
                            orig[pivot_row as int][j as int],
                            orig[pivot_row as int][col as int],
                        ),
                    ));
                    assert(!gj_norm_fits(
                        orig[pivot_row as int],
                        orig[pivot_row as int][col as int],
                    ));
                }
                return Err(MatrixError::Overflow);
            },
        };
        new_pivot_row.push(v);
        proof {
            assert(new_pivot_row@[j as int]@ == rat_canon(
                rat_div(orig[pivot_row as int][j as int], pivot@),
            ));
        }
        j += 1;
    }
    let ghost np = gj_norm_row(orig[pivot_row as int], orig[pivot_row as int][col as int]);
    proof {
        assert forall|c: int| 0 <= c < w implies canon_fits(
            rat_div(#[trigger] orig[pivot_row as int][c], orig[pivot_row as int][col as int]),
        ) by {
            assert(new_pivot_row@[c]@ == rat_canon(rat_div(orig[pivot_row as int][c], pivot@)));
        }
        assert(gj_norm_fits(orig[pivot_row as int], orig[pivot_row as int][col as int]));
    }
    let ghost pre = augmented@;
    let ghost nprv = new_pivot_row@;
    augmented[pivot_row] = new_pivot_row;
    proof {
        assert(augmented@[pivot_row as int]@ == nprv);
        assert forall|c: int| 0 <= c < w implies #[trigger] mat_view(
            augmented@,
        )[pivot_row as int][c] == np[c] && np[c].d > 0 by {
            lemma_row_view(augmented@, pivot_row as int);
            assert(mat_view(augmented@)[pivot_row as int][c] == nprv[c]@);
        }
        assert(mat_view(augmented@)[pivot_row as int] =~= np);
        assert forall|i: int, c: int|
            0 <= i < n && 0 <= c < w implies (#[trigger] mat_view(augmented@)[i][c]).d > 0 by {
            lemma_row_view(augmented@, i);
            if i == pivot_row as int {
                assert(mat_view(augmented@)[i][c] == nprv[c]@);
            } else {
                assert(augmented@[i] == pre[i]);
                lemma_row_view(pre, i);
                assert(mat_view(augmented@)[i][c] == mat_view(pre)[i][c]);
            }
        }
        assert forall|i: int| 0 <= i < n implies (#[trigger] mat_view(augmented@)[i]).len()
            == w by {
            lemma_row_view(augmented@, i);
            if i == pivot_row as int {
                assert(augmented@[i]@ == nprv);
            } else {
                assert(augmented@[i] == pre[i]);
                lemma_row_view(pre, i);
            }
        }
        assert forall|i: int| 0 <= i < n && i != pivot_row as int implies #[trigger] mat_view(
            augmented@,
        )[i] == orig[i] by {
            assert(augmented@[i] == pre[i]);
            lemma_row_view(pre, i);
            assert(mat_view(augmented@)[i] == mat_view(pre)[i]);
        }
    }
    let mut row: usize = 0;
    while row < n
        invariant
            0 <= row <= n,
            n == augmented@.len(),
            n == old(augmented)@.len(),
            pivot_row < n,
            w == mat_view(old(augmented)@)[0].len(),
            orig == mat_view(old(augmented)@),
            mat_wf(orig),
            col < w,
            !rat_below_tol10(orig[pivot_row as int][col as int]),
            np == gj_norm_row(orig[pivot_row as int], orig[pivot_row as int][col as int]),
            np.len() == w,
            forall|i: int| 0 <= i < n ==> (#[trigger] orig[i]).len() == w,
            forall|i: int|
                0 <= i < n ==> (#[trigger] mat_view(augmented@)[i]).len() == w,
            mat_wf(mat_view(augmented@)),
            gj_norm_fits(orig[pivot_row as int], orig[pivot_row as int][col as int]),
            mat_view(augmented@)[pivot_row as int] == np,
            forall|i: int|
                0 <= i < row && i != pivot_row as int ==> #[trigger] mat_view(augmented@)[i]
                    == gj_elim_row(orig[i], orig[i][col as int], np),
            forall|i: int|
                0 <= i < row && i != pivot_row as int ==> gj_elim_row_fits(
                    #[trigger] orig[i],
                    orig[i][col as int],
                    np,
                ),
            forall|i: int|
                row <= i < n && i != pivot_row as int ==> #[trigger] mat_view(augmented@)[i]
                    == orig[i],
        decreases n - row,
    {
        if row != pivot_row {
            let width2 = augmented[row].len();
            proof {
                lemma_row_view(augmented@, row as int);
                assert(mat_view(augmented@)[row as int] == orig[row as int]);
                assert(augmented@[row as int]@[col as int]@ == orig[row as int][col as int]);
            }
            let factor = augmented[row][col];
            proof {
                assert(factor@ == orig[row as int][col as int]);
            }
            let mut new_row: Vec<Fraction> = Vec::new();
            let mut j3: usize = 0;
            while j3 < width2
                invariant
                    0 <= j3 <= width2,
                    0 <= row < n,
                    row != pivot_row,
                    n == augmented@.len(),
                    n == old(augmented)@.len(),
                    pivot_row < n,
                    w == mat_view(old(augmented)@)[0].len(),
                    orig == mat_view(old(augmented)@),
                    mat_wf(orig),
                    col < w,
                    width2 as int == w,
                    !rat_below_tol10(orig[pivot_row as int][col as int]),
                    np == gj_norm_row(orig[pivot_row as int], orig[pivot_row as int][col as int]),
                    np.len() == w,
                    factor.wf(),
                    factor@ == orig[row as int][col as int],
                    forall|i: int| 0 <= i < n ==> (#[trigger] orig[i]).len() == w,
                    forall|i: int|
                        0 <= i < n ==> (#[trigger] mat_view(augmented@)[i]).len() == w,
                    mat_wf(mat_view(augmented@)),
                    gj_norm_fits(orig[pivot_row as int], orig[pivot_row as int][col as int]),
                    mat_view(augmented@)[pivot_row as int] == np,
                    forall|i: int|
                        0 <= i < row && i != pivot_row as int ==> #[trigger] mat_view(
                            augmented@,
                        )[i] == gj_elim_row(orig[i], orig[i][col as int], np),
                    forall|i: int|
                        0 <= i < row && i != pivot_row as int ==> gj_elim_row_fits(
                            #[trigger] orig[i],
                            orig[i][col as int],
                            np,
                        ),
                    forall|i: int|
                        row <= i < n && i != pivot_row as int ==> #[trigger] mat_view(
                            augmented@,
                        )[i] == orig[i],
                    new_row@.len() == j3,
                    forall|c: int|
                        0 <= c < j3 ==> #[trigger] new_row@[c]@ == rat_canon(
                            rat_sub(
                                orig[row as int][c],
                                rat_canon(rat_mul(factor@, np[c])),
                            ),
                        ) && new_row@[c]@.d > 0 && canon_fits(rat_mul(factor@, np[c]))
                            && canon_fits(
                            rat_sub(orig[row as int][c], rat_canon(rat_mul(factor@, np[c]))),
                        ),
                decreases width2 - j3,
            {
                proof {
                    lemma_row_view(augmented@, row as int);
                    lemma_row_view(augmented@, pivot_row as int);
                    assert(augmented@[row as int]@[j3 as int]@ == orig[row as int][j3 as int]);
                    assert(augmented@[pivot_row as int]@[j3 as int]@ == np[j3 as int]);
                }
                let scaled = match factor.checked_mul(&augmented[pivot_row][j3]) {
                    Some(v) => v,
                    None => {
                        proof {
                            assert(!canon_fits(
                                rat_mul(orig[row as int][col as int], np[j3 as int]),
                            ));
                            assert(!gj_elim_row_fits(
                                orig[row as int],
                                orig[row as int][col as int],
                                np,
                            ));
                        }
                        return Err(MatrixError::Overflow);
                    },
                };
                let v = match augmented[row][j3].checked_sub(&scaled) {
                    Some(v) => v,
                    None => {
                        proof {
                            assert(!canon_fits(
                                rat_sub(
                                    orig[row as int][j3 as int],
                                    rat_canon(
                                        rat_mul(orig[row as int][col as int], np[j3 as int]),
                                    ),
                                ),
                            ));
                            assert(!gj_elim_row_fits(
                                orig[row as int],
                                orig[row as int][col as int],
                                np,
                            ));
                        }
                        return Err(MatrixError::Overflow);
                    },
                };
                new_row.push(v);
                j3 += 1;
            }
            proof {
                assert forall|c: int| 0 <= c < w implies canon_fits(
                    rat_mul(orig[row as int][col as int], #[trigger] np[c]),
                ) && canon_fits(
                    rat_sub(
                        orig[row as int][c],
                        rat_canon(rat_mul(orig[row as int][col as int], np[c])),
                    ),
                ) by {
                    assert(new_row@[c]@ == rat_canon(
                        rat_sub(orig[row as int][c], rat_canon(rat_mul(factor@, np[c]))),
                    ));
                }
                assert(gj_elim_row_fits(orig[row as int], orig[row as int][col as int], np));
            }
            let ghost pre2 = augmented@;
            let ghost nrv = new_row@;
            augmented[row] = new_row;
            proof {
                assert(augmented@[row as int]@ == nrv);
                assert forall|c: int| 0 <= c < w implies #[trigger] mat_view(
                    augmented@,
                )[row as int][c] == gj_elim_row(
                    orig[row as int],
                    orig[row as int][col as int],
                    np,
                )[c] by {
                    lemma_row_view(augmented@, row as int);
                    assert(mat_view(augmented@)[row as int][c] == nrv[c]@);
                }
                assert(mat_view(augmented@)[row as int] =~= gj_elim_row(
                    orig[row as int],
                    orig[row as int][col as int],
                    np,
                ));
                assert forall|i: int, c: int|
                    0 <= i < n && 0 <= c < w implies (#[trigger] mat_view(
                    augmented@,
                )[i][c]).d > 0 by {
                    lemma_row_view(augmented@, i);
                    if i == row as int {
                        assert(mat_view(augmented@)[i][c] == nrv[c]@);
                    } else {
                        assert(augmented@[i] == pre2[i]);
                        lemma_row_view(pre2, i);
                        assert(mat_view(augmented@)[i][c] == mat_view(pre2)[i][c]);
                    }
                }
                assert forall|i: int| 0 <= i < n implies (#[trigger] mat_view(
                    augmented@,
                )[i]).len() == w by {
                    lemma_row_view(augmented@, i);
                    if i == row as int {
                        assert(augmented@[i]@ == nrv);
                    } else {
                        assert(augmented@[i] == pre2[i]);
                        lemma_row_view(pre2, i);
                    }
                }
                assert forall|i: int| 0 <= i < n && i != row as int implies #[trigger] mat_view(
                    augmented@,
                )[i] == mat_view(pre2)[i] by {
                    assert(augmented@[i] == pre2[i]);
                    lemma_row_view(pre2, i);
                }
            }
        }
        row += 1;
    }
    proof {
        let st = gj_elim_state(orig, pivot_row as int, col as int);
        assert forall|i: int| 0 <= i < n implies #[trigger] mat_view(augmented@)[i] == st[i] by {
            if i == pivot_row as int {
            } else {
                assert(mat_view(augmented@)[i] == gj_elim_row(
                    orig[i],
                    orig[i][col as int],
                    np,
                ));
            }
        }
        assert(mat_view(augmented@) =~= st);
        assert(gj_elim_fits(orig, pivot_row as int, col as int));
    }
    Ok(())
}

/// Gauss-Jordan elimination over all columns, with partial pivoting: on
/// success the final state is exactly the completed run.
fn forward_elimination(augmented: &mut FractionMatrix) -> (r: Result<(), MatrixError>)
    requires
        mat_wf(mat_view(old(augmented)@)),
        old(augmented)@.len() >= 1,
        forall|i: int|
            0 <= i < old(augmented)@.len() ==> (#[trigger] mat_view(old(augmented)@)[i]).len()
                == mat_view(old(augmented)@)[0].len(),
        mat_view(old(augmented)@)[0].len() >= old(augmented)@.len(),
    ensures
        final(augmented)@.len() == old(augmented)@.len(),
        forall|i: int|
            0 <= i < final(augmented)@.len() ==> (#[trigger] mat_view(
                final(augmented)@,
            )[i]).len() == mat_view(old(augmented)@)[0].len(),
        mat_wf(mat_view(final(augmented)@)),
        r matches Err(e) ==> e == MatrixError::SingularMatrix || e == MatrixError::Overflow,
        (r is Ok) <==> gj_run(mat_view(old(augmented)@), 0) is Done,
        r is Ok ==> mat_view(final(augmented)@) == gj_run_state(
            gj_run(mat_view(old(augmented)@), 0),
        ),
        (r matches Err(e) && e == MatrixError::SingularMatrix) <==> gj_run(
            mat_view(old(augmented)@),
            0,
        ) is Singular,
        r is Ok ==> forall|i: int, j: int|
            0 <= i < old(augmented)@.len() && 0 <= j < old(augmented)@.len()
                ==> #[trigger] mat_view(final(augmented)@)[i][j] == id_rat(i, j),
{
    let ghost orig = mat_view(old(augmented)@);
    let ghost n = augmented@.len();
    let ghost w = mat_view(augmented@)[0].len();
    let len = augmented.len();
    let mut col: usize = 0;
    while col < len
        invariant
            0 <= col <= len,
            len == n,
            n == augmented@.len(),
            n == old(augmented)@.len(),
            w == mat_view(old(augmented)@)[0].len(),
            orig == mat_view(old(augmented)@),
            w >= n,
            forall|i: int| 0 <= i < n ==> (#[trigger] mat_view(augmented@)[i]).len() == w,
            mat_wf(mat_view(augmented@)),
            gj_run(orig, 0) == gj_run(mat_view(augmented@), col as int),
        decreases len - col,
    {
        let ghost cur = mat_view(augmented@);
        let pivot_row = find_pivot_row(augmented, col, col);
        if pivot_row != col {
            proof {
                lemma_row_view(augmented@, col as int);
                lemma_row_view(augmented@, pivot_row as int);
            }
            let r1 = copy_row(&augmented[col]);
            let r2 = copy_row(&augmented[pivot_row]);
            let ghost pre = augmented@;
            augmented[col] = r2;
            augmented[pivot_row] = r1;
            proof {
                assert(augmented@[col as int]@ == pre[pivot_row as int]@);
                assert(augmented@[pivot_row as int]@ == pre[col as int]@);
                assert forall|i: int, c: int| 0 <= i < n && 0 <= c < w implies (
                #[trigger] mat_view(augmented@)[i][c]).d > 0 by {
                    lemma_row_view(augmented@, i);
                    if i == col as int {
                        lemma_row_view(pre, pivot_row as int);
                        assert(mat_view(augmented@)[i][c] == mat_view(pre)[pivot_row as int][c]);
                    } else if i == pivot_row as int {
                        lemma_row_view(pre, col as int);
                        assert(mat_view(augmented@)[i][c] == mat_view(pre)[col as int][c]);
                    } else {
                        assert(augmented@[i] == pre[i]);
                        lemma_row_view(pre, i);
                        assert(mat_view(augmented@)[i][c] == mat_view(pre)[i][c]);
                    }
                }
                assert forall|i: int| 0 <= i < n implies (#[trigger] mat_view(
                    augmented@,
                )[i]).len() == w by {
                    lemma_row_view(augmented@, i);
                    if i == col as int {
                        lemma_row_view(pre, pivot_row as int);
                    } else if i == pivot_row as int {
                        lemma_row_view(pre, col as int);
                    } else {
                        assert(augmented@[i] == pre[i]);
                        lemma_row_view(pre, i);
                    }
                }
                assert forall|i: int| 0 <= i < n implies #[trigger] mat_view(augmented@)[i]
                    == gj_swap(cur, col as int, pivot_row as int)[i] by {
                    lemma_row_view(augmented@, i);
                    if i == col as int {
                        lemma_row_view(pre, pivot_row as int);
                        assert(mat_view(augmented@)[i] =~= mat_view(pre)[pivot_row as int]);
                    } else if i == pivot_row as int {
                        lemma_row_view(pre, col as int);
                        assert(mat_view(augmented@)[i] =~= mat_view(pre)[col as int]);
                    } else {
                        assert(augmented@[i] == pre[i]);
                        lemma_row_view(pre, i);
                        assert(mat_view(augmented@)[i] =~= mat_view(pre)[i]);
                    }
                }
                assert(mat_view(augmented@) =~= gj_swap(cur, col as int, pivot_row as int));
            }
        } else {
            proof {
                assert(gj_swap(cur, col as int, col as int) =~= cur);
            }
        }
        let ghost sw = mat_view(augmented@);
        proof {
            assert(sw == gj_swap(cur, col as int, pivot_row as int));
            assert(pivot_row as int == gj_pick(cur, col as int, col as int, n as int));
        }
        match eliminate_column(augmented, col, col) {
            Ok(()) => {},
            Err(e) => {
                proof {
                    if e == MatrixError::SingularMatrix {
                        assert(rat_below_tol10(sw[col as int][col as int]));
                        assert(gj_run(cur, col as int) is Singular);
                    } else {
                        assert(!rat_below_tol10(sw[col as int][col as int]));
                        assert(!gj_elim_fits(sw, col as int, col as int));
                        assert(gj_run(cur, col as int) is Overflow);
                    }
                }
                return Err(e);
            },
        }
        proof {
            assert(!rat_below_tol10(sw[col as int][col as int]));
            assert(gj_elim_fits(sw, col as int, col as int));
            assert(mat_view(augmented@) == gj_elim_state(sw, col as int, col as int));
            assert(gj_run(cur, col as int) == gj_run(mat_view(augmented@), col as int + 1));
        }
        col += 1;
    }
    proof {
        assert(gj_run(mat_view(augmented@), n as int) == GjRun::Done(mat_view(augmented@)));
        lemma_gj_run_identity(orig, 0, n as int, w as int);
    }
    Ok(())
}

/// Inverse by Gauss-Jordan elimination of `[A | I]`. On success the right
/// half is confirmed exactly, on both sides, to invert the input.
pub fn inverse(matrix: &FractionMatrix) -> (r: Result<FractionMatrix, MatrixError>)
    requires
        mat_wf(mat_view(matrix@)),
    ensures
        (r matches Err(e) && e == MatrixError::NotSquare) <==> !is_square(mat_view(matrix@)),
        r matches Ok(inv) ==> {
            &&& is_square(mat_view(matrix@))
            &&& inv@.len() == matrix@.len()
            &&& (forall|i: int|
                0 <= i < inv@.len() ==> (#[trigger] mat_view(inv@)[i]).len() == matrix@.len())
            &&& mat_wf(mat_view(inv@))
            &&& is_inverse(mat_view(matrix@), mat_view(inv@))
        },
        is_square(mat_view(matrix@)) ==> ((r matches Err(e) && e == MatrixError::SingularMatrix)
            <==> gj_run(augmented0(mat_view(matrix@)), 0) is Singular),
        is_square(mat_view(matrix@)) ==> ((r is Ok) <==> gauss_jordan_ok(mat_view(matrix@))),
{
    let ghost mv = mat_view(matrix@);
    let mut augmented = match get_augmented_matrix(matrix) {
        Ok(a) => a,
        Err(e) => {
            return Err(e);
        },
    };
    proof {
        assert(mat_view(augmented@) == augmented0(mv));
    }
    match forward_elimination(&mut augmented) {
        Ok(()) => {},
        Err(e) => {
            return Err(e);
        },
    }
    let ghost st = gj_run_state(gj_run(augmented0(mv), 0));
    proof {
        assert(mat_view(augmented@) == st);
    }
    let n = augmented.len();
    let mut result: FractionMatrix = Vec::new();
    let mut i: usize = 0;
    while i < n
        invariant
            0 <= i <= n,
            n == augmented@.len(),
            n == matrix@.len(),
            st == mat_view(augmented@),
            forall|r: int|
                0 <= r < n ==> (#[trigger] mat_view(augmented@)[r]).len() == 2 * n as int,
            mat_wf(mat_view(augmented@)),
            result@.len() == i,
            forall|r: int| 0 <= r < i ==> (#[trigger] mat_view(result@)[r]).len() == n,
            forall|r: int, c: int|
                0 <= r < i && 0 <= c < n ==> (#[trigger] mat_view(result@)[r][c]).d > 0
                    && mat_view(result@)[r][c] == st[r][n + c],
        decreases n - i,
    {
        let mut row: Vec<Fraction> = Vec::new();
        let wrow = augmented[i].len();
        proof {
            lemma_row_view(augmented@, i as int);
        }
        let mut j: usize = 0;
        while j < n
            invariant
                0 <= j <= n,
                0 <= i < n,
                n == augmented@.len(),
                st == mat_view(augmented@),
                wrow as int == 2 * n as int,
                forall|r: int|
                    0 <= r < n ==> (#[trigger] mat_view(augmented@)[r]).len() == 2 * n as int,
                mat_wf(mat_view(augmented@)),
                row@.len() == j,
                forall|c: int|
                    0 <= c < j ==> (#[trigger] row@[c]@).d > 0 && row@[c]@ == st[i as int][n + c],
            decreases n - j,
        {
            proof {
                assert(augmented@[i as int]@.len() == mat_view(augmented@)[i as int].len());
                assert(augmented@[i as int]@[n as int + j as int]@ == mat_view(
                    augmented@,
                )[i as int][n as int + j as int]);
            }
            row.push(augmented[i][n + j]);
            j += 1;
        }
        let ghost res0 = result@;
        let ghost rowv = row@;
        result.push(row);
        proof {
            assert forall|r: int, c: int| 0 <= r < i + 1 && 0 <= c < n implies (#[trigger] mat_view(
                result@,
            )[r][c]).d > 0 && mat_view(result@)[r][c] == st[r][n + c] by {
                if r < i {
                    assert(result@[r] == res0[r]);
                    assert(mat_view(result@)[r] == mat_view(res0)[r]);
                } else {
                    assert(result@[r]@ == rowv);
                    assert(mat_view(result@)[r][c] == rowv[c]@);
                }
            }
            assert forall|r: int| 0 <= r < i + 1 implies (#[trigger] mat_view(
                result@,
            )[r]).len() == n by {
                if r < i {
                    assert(result@[r] == res0[r]);
                    assert(mat_view(result@)[r] == mat_view(res0)[r]);
                } else {
                    assert(result@[r]@ == rowv);
                }
            }
        }
        i += 1;
    }
    proof {
        assert forall|r: int| 0 <= r < n implies #[trigger] mat_view(result@)[r] =~= gj_result(
            mv,
        )[r] by {
            assert(mat_view(result@)[r].len() == n);
        }
        assert(mat_view(result@) =~~= gj_result(mv));
    }
    // The exact two-sided check is what establishes `is_inverse`; for a
    // correctly computed result it always passes.
    if !confirm_inverse(matrix, &result) {
        return Err(MatrixError::Overflow);
    }
    Ok(result)
}

} // verus!
