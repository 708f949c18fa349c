//! Gauss–Jordan elimination with partial pivoting, for any scalar type whose
//! operations the caller hands in.
//!
//! The specification follows the elimination step by step: column by column,
//! while unreduced rows remain, the pivot is the row (at or below the current
//! rank) whose entry has the largest magnitude, provided it is greater than
//! the tolerance; it is swapped up and the rows below it are cleared. Back
//! substitution then scales each pivot row by its pivot and clears the pivot
//! column above it. [`reduce_to_echelon`] is proved to compute exactly
//! [`spec_echelon`] with the operations it is given.

use vstd::prelude::*;

use crate::kernel::{kernel_basis, spec_kernel_basis, strictly_increasing, KernelEntry};
use crate::matrix::DenseMatrix;
use crate::ops::{deterministic1, deterministic2, deterministic3, fn1, fn2, fn3, lemma_call1, lemma_call2, lemma_call3};

verus! {

/// Rows `a` and `b` of `w` exchanged (nothing changes when they coincide).
pub open spec fn swap_spec<T>(w: Seq<Seq<T>>, a: int, b: int) -> Seq<Seq<T>> {
    if a == b {
        w
    } else {
        w.update(a, w[b]).update(b, w[a])
    }
}

/// The pivot row for column `col`: scanning rows from `row` on, the last row
/// whose magnitude is greater than the best one seen so far (starting from
/// `best` with magnitude `best_val`).
pub open spec fn search_pivot<T>(
    w: Seq<Seq<T>>,
    col: int,
    row: int,
    best: Option<int>,
    best_val: T,
    mag: spec_fn(T) -> T,
    gt: spec_fn(T, T) -> bool,
) -> Option<int>
    decreases w.len() - row,
{
    if row >= w.len() || row < 0 {
        best
    } else {
        let val = mag(w[row][col]);
        if gt(val, best_val) {
            search_pivot(w, col, row + 1, Some(row), val, mag, gt)
        } else {
            search_pivot(w, col, row + 1, best, best_val, mag, gt)
        }
    }
}

/// Row `row` cleared below pivot row `prow` in column `col`: zero in the pivot
/// column and `sub_mul(row[j], factor, prow[j])` to its right.
pub open spec fn cleared_row<T>(
    row: Seq<T>,
    prow: Seq<T>,
    col: int,
    factor: T,
    zero: T,
    sm: spec_fn(T, T, T) -> T,
) -> Seq<T> {
    Seq::new(
        row.len(),
        |j: int|
            if j < col {
                row[j]
            } else if j == col {
                zero
            } else {
                sm(row[j], factor, prow[j])
            },
    )
}

/// Every row below row `r` cleared in column `col`, the factor being the
/// row's entry divided by the pivot `w[r][col]`.
pub open spec fn clear_below<T>(
    w: Seq<Seq<T>>,
    r: int,
    col: int,
    zero: T,
    div: spec_fn(T, T) -> T,
    sm: spec_fn(T, T, T) -> T,
) -> Seq<Seq<T>> {
    Seq::new(
        w.len(),
        |i: int|
            if i > r {
                cleared_row(w[i], w[r], col, div(w[i][col], w[r][col]), zero, sm)
            } else {
                w[i]
            },
    )
}

/// The forward phase from column `col` on, with the pivots found so far.
pub open spec fn forward<T>(
    w: Seq<Seq<T>>,
    pivots: Seq<usize>,
    col: int,
    n: int,
    tol: T,
    zero: T,
    mag: spec_fn(T) -> T,
    gt: spec_fn(T, T) -> bool,
    div: spec_fn(T, T) -> T,
    sm: spec_fn(T, T, T) -> T,
) -> (Seq<Seq<T>>, Seq<usize>)
    decreases n - col,
{
    if col >= n || pivots.len() >= w.len() {
        (w, pivots)
    } else {
        let r = pivots.len() as int;
        match search_pivot(w, col, r, None, tol, mag, gt) {
            None => forward(w, pivots, col + 1, n, tol, zero, mag, gt, div, sm),
            Some(p) => forward(
                clear_below(swap_spec(w, r, p), r, col, zero, div, sm),
                pivots.push(col as usize),
                col + 1,
                n,
                tol,
                zero,
                mag,
                gt,
                div,
                sm,
            ),
        }
    }
}

/// Row `row` scaled from column `pc` on by `piv`.
pub open spec fn scaled_row<T>(row: Seq<T>, pc: int, piv: T, div: spec_fn(T, T) -> T) -> Seq<T> {
    Seq::new(row.len(), |j: int| if j < pc { row[j] } else { div(row[j], piv) })
}

/// Row `row` with `factor` times `s` taken away from column `pc` on.
pub open spec fn reduced_row<T>(row: Seq<T>, pc: int, factor: T, s: Seq<T>, sm: spec_fn(T, T, T) -> T) -> Seq<T> {
    Seq::new(row.len(), |j: int| if j < pc { row[j] } else { sm(row[j], factor, s[j]) })
}

/// One step of back substitution on pivot row `i` with pivot column `pc`:
/// the row is scaled by its pivot and the column is cleared above it.
pub open spec fn back_step<T>(
    w: Seq<Seq<T>>,
    i: int,
    pc: int,
    div: spec_fn(T, T) -> T,
    sm: spec_fn(T, T, T) -> T,
) -> Seq<Seq<T>> {
    let s = scaled_row(w[i], pc, w[i][pc], div);
    Seq::new(
        w.len(),
        |row: int|
            if row == i {
                s
            } else if row < i {
                reduced_row(w[row], pc, w[row][pc], s, sm)
            } else {
                w[row]
            },
    )
}

/// Back substitution over pivot rows `i − 1` down to 0.
pub open spec fn back_substitute<T>(
    w: Seq<Seq<T>>,
    pivots: Seq<usize>,
    i: int,
    div: spec_fn(T, T) -> T,
    sm: spec_fn(T, T, T) -> T,
) -> Seq<Seq<T>>
    decreases i,
{
    if i <= 0 {
        w
    } else {
        back_substitute(back_step(w, i - 1, pivots[i - 1] as int, div, sm), pivots, i - 1, div, sm)
    }
}

/// The reduced row echelon form of `w` (with `n` columns) and its pivot
/// columns, as the elimination computes them with the given operations.
pub open spec fn spec_echelon<T>(
    w: Seq<Seq<T>>,
    n: int,
    tol: T,
    zero: T,
    mag: spec_fn(T) -> T,
    gt: spec_fn(T, T) -> bool,
    div: spec_fn(T, T) -> T,
    sm: spec_fn(T, T, T) -> T,
) -> (Seq<Seq<T>>, Seq<usize>) {
    let f = forward(w, seq![], 0, n, tol, zero, mag, gt, div, sm);
    (back_substitute(f.0, f.1, f.1.len() as int, div, sm), f.1)
}

/// The operations a caller hands to the elimination may be called on any
/// arguments and give one result for each.
pub open spec fn elimination_ops<T, A, G, D, S>(magnitude: A, greater: G, divide: D, sub_mul: S) -> bool where
    A: Fn(T) -> T,
    G: Fn(T, T) -> bool,
    D: Fn(T, T) -> T,
    S: Fn(T, T, T) -> T,
 {
    &&& forall|x: T| magnitude.requires((x,))
    &&& forall|x: T, y: T| greater.requires((x, y))
    &&& forall|x: T, y: T| divide.requires((x, y))
    &&& forall|x: T, y: T, z: T| sub_mul.requires((x, y, z))
    &&& deterministic1(magnitude)
    &&& deterministic2(greater)
    &&& deterministic2(divide)
    &&& deterministic3(sub_mul)
}

/// Clear the rows below pivot row `r` in column `col`.
fn clear_rows_below<T: Copy, D, S>(
    w: &mut DenseMatrix<T>,
    r: usize,
    col: usize,
    zero: T,
    divide: D,
    sub_mul: S,
) where D: Fn(T, T) -> T, S: Fn(T, T, T) -> T
    requires
        old(w).wf(),
        r < old(w)@.len(),
        col < old(w).ncols,
        forall|x: T, y: T| divide.requires((x, y)),
        forall|x: T, y: T, z: T| sub_mul.requires((x, y, z)),
        deterministic2(divide),
        deterministic3(sub_mul),
    ensures
        final(w).wf(),
        final(w).ncols == old(w).ncols,
        final(w)@ == clear_below(old(w)@, r as int, col as int, zero, fn2(divide), fn3(sub_mul)),
{
    let ghost w1 = w@;
    let ghost div = fn2(divide);
    let ghost sm = fn3(sub_mul);
    let m = w.nrows();
    let n = w.ncols();
    assert(w.rows@[r as int]@.len() == n);
    let piv = w.get(r, col);
    for row in (r + 1)..m
        invariant
            w.wf(),
            w@.len() == m,
            w.ncols == n,
            w1.len() == m,
            r < m,
            col < n,
            piv == w1[r as int][col as int],
            forall|a: int| 0 <= a < m ==> (#[trigger] w1[a]).len() == n,
            forall|x: T, y: T| divide.requires((x, y)),
            forall|x: T, y: T, z: T| sub_mul.requires((x, y, z)),
            deterministic2(divide),
            deterministic3(sub_mul),
            div == fn2(divide),
            sm == fn3(sub_mul),
            forall|a: int|
                0 <= a < m ==> #[trigger] w@[a] == (if r < a < row {
                    cleared_row(w1[a], w1[r as int], col as int, div(w1[a][col as int], w1[r as int][col as int]), zero, sm)
                } else {
                    w1[a]
                }),
    {
        assert(w@[row as int] == w1[row as int]);
        let e = w.get(row, col);
        let factor = divide(e, piv);
        proof {
            lemma_call2(divide, e, piv, factor);
        }
        assert(w@[r as int] == w1[r as int]);
        w.set(row, col, zero);
        let ghost before_row = w@;
        assert(before_row[r as int] == w1[r as int]);
        for j in (col + 1)..n
            invariant
                w.wf(),
                w@.len() == m,
                w.ncols == n,
                w1.len() == m,
                r < row < m,
                col < n,
                forall|a: int| 0 <= a < m ==> (#[trigger] w1[a]).len() == n,
                forall|x: T, y: T, z: T| sub_mul.requires((x, y, z)),
                deterministic3(sub_mul),
                sm == fn3(sub_mul),
                before_row.len() == m,
                before_row[r as int] == w1[r as int],
                forall|a: int| 0 <= a < m && a != row ==> #[trigger] w@[a] == before_row[a],
                w@[row as int] == Seq::new(
                    n as nat,
                    |jj: int|
                        if jj < col {
                            w1[row as int][jj]
                        } else if jj == col {
                            zero
                        } else if jj < j {
                            sm(w1[row as int][jj], factor, w1[r as int][jj])
                        } else {
                            w1[row as int][jj]
                        },
                ),
        {
            let a = w.get(row, j);
            let b = w.get(r, j);
            assert(b == w1[r as int][j as int]) by {
                assert(w@[r as int] == before_row[r as int]);
            }
            let x = sub_mul(a, factor, b);
            proof {
                lemma_call3(sub_mul, a, factor, b, x);
            }
            w.set(row, j, x);
            assert(w@[row as int] =~= Seq::new(
                n as nat,
                |jj: int|
                    if jj < col {
                        w1[row as int][jj]
                    } else if jj == col {
                        zero
                    } else if jj < j + 1 {
                        sm(w1[row as int][jj], factor, w1[r as int][jj])
                    } else {
                        w1[row as int][jj]
                    },
            ));
        }
        assert(w@[row as int] =~= cleared_row(w1[row as int], w1[r as int], col as int, factor, zero, sm));
        assert forall|a: int|
            0 <= a < m implies #[trigger] w@[a] == (if r < a < row + 1 {
                cleared_row(w1[a], w1[r as int], col as int, div(w1[a][col as int], w1[r as int][col as int]), zero, sm)
            } else {
                w1[a]
            }) by {
            if a != row {
                assert(w@[a] == before_row[a]);
            }
        }
    }
    assert(w@ =~= clear_below(w1, r as int, col as int, zero, div, sm));
}

/// One step of back substitution on pivot row `i` with pivot column `pc`.
fn back_step_exec<T: Copy, D, S>(w: &mut DenseMatrix<T>, i: usize, pc: usize, divide: D, sub_mul: S) where
    D: Fn(T, T) -> T,
    S: Fn(T, T, T) -> T,

    requires
        old(w).wf(),
        i < old(w)@.len(),
        pc < old(w).ncols,
        forall|x: T, y: T| divide.requires((x, y)),
        forall|x: T, y: T, z: T| sub_mul.requires((x, y, z)),
        deterministic2(divide),
        deterministic3(sub_mul),
    ensures
        final(w).wf(),
        final(w).ncols == old(w).ncols,
        final(w)@ == back_step(old(w)@, i as int, pc as int, fn2(divide), fn3(sub_mul)),
{
    let ghost wb = w@;
    let ghost div = fn2(divide);
    let ghost sm = fn3(sub_mul);
    let m = w.nrows();
    let n = w.ncols();
    assert forall|a: int| 0 <= a < m implies (#[trigger] wb[a]).len() == n by {
        assert(w.rows@[a]@.len() == n);
    }
    let piv = w.get(i, pc);
    for j in pc..n
        invariant
            w.wf(),
            w@.len() == m,
            w.ncols == n,
            wb.len() == m,
            i < m,
            pc < n,
            piv == wb[i as int][pc as int],
            forall|a: int| 0 <= a < m ==> (#[trigger] wb[a]).len() == n,
            forall|x: T, y: T| divide.requires((x, y)),
            deterministic2(divide),
            div == fn2(divide),
            forall|a: int| 0 <= a < m && a != i ==> #[trigger] w@[a] == wb[a],
            w@[i as int] == Seq::new(
                n as nat,
                |jj: int|
                    if jj < pc {
                        wb[i as int][jj]
                    } else if jj < j {
                        div(wb[i as int][jj], piv)
                    } else {
                        wb[i as int][jj]
                    },
            ),
    {
        let a = w.get(i, j);
        let x = divide(a, piv);
        proof {
            lemma_call2(divide, a, piv, x);
        }
        w.set(i, j, x);
        assert(w@[i as int] =~= Seq::new(
            n as nat,
            |jj: int|
                if jj < pc {
                    wb[i as int][jj]
                } else if jj < j + 1 {
                    div(wb[i as int][jj], piv)
                } else {
                    wb[i as int][jj]
                },
        ));
    }
    let ghost s = scaled_row(wb[i as int], pc as int, piv, div);
    assert(w@[i as int] =~= s);
    for row in 0..i
        invariant
            w.wf(),
            w@.len() == m,
            w.ncols == n,
            wb.len() == m,
            i < m,
            pc < n,
            s.len() == n,
            forall|a: int| 0 <= a < m ==> (#[trigger] wb[a]).len() == n,
            forall|x: T, y: T, z: T| sub_mul.requires((x, y, z)),
            deterministic3(sub_mul),
            sm == fn3(sub_mul),
            forall|a: int|
                0 <= a < m ==> #[trigger] w@[a] == (if a == i {
                    s
                } else if a < row {
                    reduced_row(wb[a], pc as int, wb[a][pc as int], s, sm)
                } else {
                    wb[a]
                }),
    {
        assert(w@[row as int] == wb[row as int]);
        let factor = w.get(row, pc);
        let ghost before_row = w@;
        for j in pc..n
            invariant
                w.wf(),
                w@.len() == m,
                w.ncols == n,
                wb.len() == m,
                row < i < m,
                pc < n,
                s.len() == n,
                forall|a: int| 0 <= a < m ==> (#[trigger] wb[a]).len() == n,
                forall|x: T, y: T, z: T| sub_mul.requires((x, y, z)),
                deterministic3(sub_mul),
                sm == fn3(sub_mul),
                before_row.len() == m,
                forall|a: int| 0 <= a < m && a != row ==> #[trigger] w@[a] == before_row[a],
                before_row[i as int] == s,
                w@[row as int] == Seq::new(
                    n as nat,
                    |jj: int|
                        if jj < pc {
                            wb[row as int][jj]
                        } else if jj < j {
                            sm(wb[row as int][jj], factor, s[jj])
                        } else {
                            wb[row as int][jj]
                        },
                ),
        {
            let a = w.get(row, j);
            let b = w.get(i, j);
            assert(b == s[j as int]) by {
                assert(w@[i as int] == before_row[i as int]);
            }
            let x = sub_mul(a, factor, b);
            proof {
                lemma_call3(sub_mul, a, factor, b, x);
            }
            w.set(row, j, x);
            assert(w@[row as int] =~= Seq::new(
                n as nat,
                |jj: int|
                    if jj < pc {
                        wb[row as int][jj]
                    } else if jj < j + 1 {
                        sm(wb[row as int][jj], factor, s[jj])
                    } else {
                        wb[row as int][jj]
                    },
            ));
        }
        assert(w@[row as int] =~= reduced_row(wb[row as int], pc as int, wb[row as int][pc as int], s, sm));
        assert forall|a: int|
            0 <= a < m implies #[trigger] w@[a] == (if a == i {
                s
            } else if a < row + 1 {
                reduced_row(wb[a], pc as int, wb[a][pc as int], s, sm)
            } else {
                wb[a]
            }) by {
            if a != row {
                assert(w@[a] == before_row[a]);
            }
        }
    }
    assert(w@ =~= back_step(wb, i as int, pc as int, div, sm));
}

/// The pivot row that a search from `row` on, with `best` so far, settles on
/// lies at or below `lo` when `best` does.
pub(crate) proof fn lemma_search_in_range<T>(
    w: Seq<Seq<T>>,
    col: int,
    row: int,
    best: Option<int>,
    best_val: T,
    mag: spec_fn(T) -> T,
    gt: spec_fn(T, T) -> bool,
    lo: int,
)
    requires
        lo <= row,
        best matches Some(b) ==> lo <= b < w.len(),
    ensures
        search_pivot(w, col, row, best, best_val, mag, gt) matches Some(p) ==> lo <= p < w.len(),
    decreases w.len() - row,
{
    if row < w.len() && row >= 0 {
        let val = mag(w[row][col]);
        if gt(val, best_val) {
            lemma_search_in_range(w, col, row + 1, Some(row), val, mag, gt, lo);
        } else {
            lemma_search_in_range(w, col, row + 1, best, best_val, mag, gt, lo);
        }
    }
}

/// Once a pivot candidate has been seen the search settles on some row.
proof fn lemma_search_keeps_some<T>(
    w: Seq<Seq<T>>,
    col: int,
    row: int,
    best: Option<int>,
    best_val: T,
    mag: spec_fn(T) -> T,
    gt: spec_fn(T, T) -> bool,
)
    requires
        best is Some,
    ensures
        search_pivot(w, col, row, best, best_val, mag, gt) is Some,
    decreases w.len() - row,
{
    if row < w.len() && row >= 0 {
        let val = mag(w[row][col]);
        if gt(val, best_val) {
            lemma_search_keeps_some(w, col, row + 1, Some(row), val, mag, gt);
        } else {
            lemma_search_keeps_some(w, col, row + 1, best, best_val, mag, gt);
        }
    }
}

/// A search from `row` with nothing found yet finds nothing exactly when no
/// entry from `row` on passes the tolerance.
pub(crate) proof fn lemma_search_none<T>(
    w: Seq<Seq<T>>,
    col: int,
    row: int,
    tol: T,
    mag: spec_fn(T) -> T,
    gt: spec_fn(T, T) -> bool,
)
    requires
        0 <= row,
    ensures
        search_pivot(w, col, row, None, tol, mag, gt) is None <==> (forall|r: int|
            row <= r < w.len() ==> !gt(mag(#[trigger] w[r][col]), tol)),
    decreases w.len() - row,
{
    if row < w.len() {
        let val = mag(w[row][col]);
        if gt(val, tol) {
            lemma_search_keeps_some(w, col, row + 1, Some(row), val, mag, gt);
        } else {
            lemma_search_none(w, col, row + 1, tol, mag, gt);
            if !(forall|r: int| row + 1 <= r < w.len() ==> !gt(mag(#[trigger] w[r][col]), tol)) {
                let r = choose|r: int| row + 1 <= r < w.len() && gt(mag(#[trigger] w[r][col]), tol);
                assert(gt(mag(w[r][col]), tol));
            }
        }
    }
}

/// The forward phase never drops a pivot it has found.
proof fn lemma_forward_keeps_pivots<T>(
    w: Seq<Seq<T>>,
    pivots: Seq<usize>,
    col: int,
    n: int,
    tol: T,
    zero: T,
    mag: spec_fn(T) -> T,
    gt: spec_fn(T, T) -> bool,
    div: spec_fn(T, T) -> T,
    sm: spec_fn(T, T, T) -> T,
)
    ensures
        forward(w, pivots, col, n, tol, zero, mag, gt, div, sm).1.len() >= pivots.len(),
    decreases n - col,
{
    if !(col >= n || pivots.len() >= w.len()) {
        let r = pivots.len() as int;
        match search_pivot(w, col, r, None, tol, mag, gt) {
            None => lemma_forward_keeps_pivots(w, pivots, col + 1, n, tol, zero, mag, gt, div, sm),
            Some(p) => lemma_forward_keeps_pivots(
                clear_below(swap_spec(w, r, p), r, col, zero, div, sm),
                pivots.push(col as usize),
                col + 1,
                n,
                tol,
                zero,
                mag,
                gt,
                div,
                sm,
            ),
        }
    }
}

/// Before the first pivot the matrix is untouched, so no pivot is found
/// from column `col` on exactly when no entry there passes the tolerance.
proof fn lemma_forward_no_pivot<T>(
    w: Seq<Seq<T>>,
    col: int,
    n: int,
    tol: T,
    zero: T,
    mag: spec_fn(T) -> T,
    gt: spec_fn(T, T) -> bool,
    div: spec_fn(T, T) -> T,
    sm: spec_fn(T, T, T) -> T,
)
    requires
        0 <= col,
    ensures
        forward(w, seq![], col, n, tol, zero, mag, gt, div, sm).1.len() == 0 <==> (forall|r: int, c: int|
            0 <= r < w.len() && col <= c < n ==> !gt(mag(#[trigger] w[r][c]), tol)),
    decreases n - col,
{
    if !(col >= n || 0 >= w.len()) {
        lemma_search_none(w, col, 0, tol, mag, gt);
        match search_pivot(w, col, 0, None, tol, mag, gt) {
            None => {
                lemma_forward_no_pivot(w, col + 1, n, tol, zero, mag, gt, div, sm);
                if !(forall|r: int, c: int|
                    0 <= r < w.len() && col + 1 <= c < n ==> !gt(mag(#[trigger] w[r][c]), tol)) {
                    let (r, c) = choose|r: int, c: int|
                        0 <= r < w.len() && col + 1 <= c < n && gt(mag(#[trigger] w[r][c]), tol);
                    assert(gt(mag(w[r][c]), tol));
                }
                assert forall|r: int, c: int|
                    0 <= r < w.len() && col <= c < n && c == col implies !gt(mag(#[trigger] w[r][c]), tol) by {}
            },
            Some(p) => {
                lemma_forward_keeps_pivots(
                    clear_below(swap_spec(w, 0, p), 0, col, zero, div, sm),
                    seq![col as usize],
                    col + 1,
                    n,
                    tol,
                    zero,
                    mag,
                    gt,
                    div,
                    sm,
                );
                assert(seq![].push(col as usize) == seq![col as usize]);
                let r = choose|r: int| 0 <= r < w.len() && gt(mag(#[trigger] w[r][col]), tol);
                assert(gt(mag(w[r][col]), tol));
            },
        }
    }
}

/// The elimination finds rank 0 exactly when no entry's magnitude is
/// greater than the tolerance.
pub proof fn lemma_rank_zero<T>(
    w: Seq<Seq<T>>,
    n: int,
    tol: T,
    zero: T,
    mag: spec_fn(T) -> T,
    gt: spec_fn(T, T) -> bool,
    div: spec_fn(T, T) -> T,
    sm: spec_fn(T, T, T) -> T,
)
    ensures
        spec_echelon(w, n, tol, zero, mag, gt, div, sm).1.len() == 0 <==> (forall|r: int, c: int|
            0 <= r < w.len() && 0 <= c < n ==> !gt(mag(#[trigger] w[r][c]), tol)),
{
    lemma_forward_no_pivot(w, 0, n, tol, zero, mag, gt, div, sm);
}

/// The index as a mathematical integer.
pub open spec fn opt_int(o: Option<usize>) -> Option<int> {
    match o {
        Some(p) => Some(p as int),
        None => None,
    }
}

/// Bring `w` to reduced row echelon form by Gauss–Jordan elimination with
/// partial pivoting, and return the pivot column of each nonzero row.
///
/// Column by column, while unreduced rows remain, the pivot is the row (at
/// or below the current rank) whose entry has the largest `magnitude`,
/// provided it is `greater` than `tol`; rows are exchanged to bring it up,
/// and the rows below are cleared with `sub_mul(a, f, b) = a − f·b`, `f`
/// being the entry divided by the pivot. Back substitution then divides
/// each pivot row by its pivot and clears the pivot column above it. The
/// result is exactly [`spec_echelon`] of the input with these operations.
pub fn reduce_to_echelon<T: Copy, A, G, D, S>(
    w: &mut DenseMatrix<T>,
    tol: T,
    zero: T,
    magnitude: A,
    greater: G,
    divide: D,
    sub_mul: S,
) -> (pivot_cols: Vec<usize>) where
    A: Fn(T) -> T,
    G: Fn(T, T) -> bool,
    D: Fn(T, T) -> T + Copy,
    S: Fn(T, T, T) -> T + Copy,

    requires
        old(w).wf(),
        elimination_ops(magnitude, greater, divide, sub_mul),
    ensures
        final(w).wf(),
        final(w).ncols == old(w).ncols,
        final(w)@.len() == old(w)@.len(),
        pivot_cols@.len() <= old(w)@.len(),
        pivot_cols@.len() <= old(w).ncols,
        strictly_increasing(pivot_cols@),
        forall|i: int| 0 <= i < pivot_cols@.len() ==> pivot_cols@[i] < old(w).ncols,
        (final(w)@, pivot_cols@) == spec_echelon(
            old(w)@,
            old(w).ncols as int,
            tol,
            zero,
            fn1(magnitude),
            fn2(greater),
            fn2(divide),
            fn3(sub_mul),
        ),
{
    let ghost w0 = w@;
    let ghost mag = fn1(magnitude);
    let ghost gt = fn2(greater);
    let ghost div = fn2(divide);
    let ghost sm = fn3(sub_mul);
    let m = w.nrows();
    let n = w.ncols();
    let mut pivot_cols: Vec<usize> = Vec::new();
    let mut rank: usize = 0;
    let mut col: usize = 0;
    while col < n && rank < m
        invariant
            w.wf(),
            w@.len() == m,
            w.ncols == n,
            col <= n,
            rank <= m,
            rank <= col,
            rank == pivot_cols@.len(),
            strictly_increasing(pivot_cols@),
            forall|i: int| 0 <= i < pivot_cols@.len() ==> pivot_cols@[i] < col,
            elimination_ops(magnitude, greater, divide, sub_mul),
            mag == fn1(magnitude),
            gt == fn2(greater),
            div == fn2(divide),
            sm == fn3(sub_mul),
            forward(w@, pivot_cols@, col as int, n as int, tol, zero, mag, gt, div, sm) == forward(
                w0,
                seq![],
                0,
                n as int,
                tol,
                zero,
                mag,
                gt,
                div,
                sm,
            ),
        decreases n - col,
    {
        let ghost wp = w@;
        let ghost pp = pivot_cols@;
        // Find the pivot: the largest magnitude above the tolerance.
        let mut max_row: Option<usize> = None;
        let mut max_val = tol;
        for row in rank..m
            invariant
                w.wf(),
                w@.len() == m,
                w.ncols == n,
                w@ == wp,
                col < n,
                rank < m,
                max_row matches Some(r) ==> rank <= r < m,
                elimination_ops(magnitude, greater, divide, sub_mul),
                mag == fn1(magnitude),
                gt == fn2(greater),
                search_pivot(wp, col as int, row as int, opt_int(max_row), max_val, mag, gt)
                    == search_pivot(wp, col as int, rank as int, None, tol, mag, gt),
        {
            let e = w.get(row, col);
            let val = magnitude(e);
            proof {
                lemma_call1(magnitude, e, val);
            }
            let b = greater(val, max_val);
            proof {
                lemma_call2(greater, val, max_val, b);
            }
            if b {
                max_val = val;
                max_row = Some(row);
            }
        }
        proof {
            lemma_search_in_range(wp, col as int, rank as int, None, tol, mag, gt, rank as int);
        }
        match max_row {
            None => {
                assert(forward(wp, pp, col as int, n as int, tol, zero, mag, gt, div, sm) == forward(
                    wp,
                    pp,
                    col + 1,
                    n as int,
                    tol,
                    zero,
                    mag,
                    gt,
                    div,
                    sm,
                ));
            },
            Some(prow) => {
                if prow != rank {
                    w.swap_rows(rank, prow);
                }
                assert(w@ == swap_spec(wp, rank as int, prow as int));
                pivot_cols.push(col);
                clear_rows_below(w, rank, col, zero, divide, sub_mul);
                assert(forward(wp, pp, col as int, n as int, tol, zero, mag, gt, div, sm) == forward(
                    w@,
                    pivot_cols@,
                    col + 1,
                    n as int,
                    tol,
                    zero,
                    mag,
                    gt,
                    div,
                    sm,
                ));
                rank = rank + 1;
            },
        }
        col = col + 1;
    }
    let ghost wf = w@;
    assert(forward(wf, pivot_cols@, col as int, n as int, tol, zero, mag, gt, div, sm) == (
        wf,
        pivot_cols@,
    ));
    // Back substitution: scale each pivot row and clear above its pivot.
    let mut i = rank;
    while i > 0
        invariant
            w.wf(),
            w@.len() == m,
            w.ncols == n,
            i <= rank,
            rank <= m,
            rank == pivot_cols@.len(),
            forall|a: int| 0 <= a < pivot_cols@.len() ==> pivot_cols@[a] < n,
            elimination_ops(magnitude, greater, divide, sub_mul),
            div == fn2(divide),
            sm == fn3(sub_mul),
            back_substitute(w@, pivot_cols@, i as int, div, sm) == back_substitute(
                wf,
                pivot_cols@,
                rank as int,
                div,
                sm,
            ),
        decreases i,
    {
        let ghost wb = w@;
        i = i - 1;
        let pc = pivot_cols[i];
        back_step_exec(w, i, pc, divide, sub_mul);
        assert(back_substitute(wb, pivot_cols@, i + 1, div, sm) == back_substitute(
            w@,
            pivot_cols@,
            i as int,
            div,
            sm,
        ));
    }
    pivot_cols
}

/// The rank, pivot columns, reduced form and null-space basis of a matrix.
#[derive(Clone, Debug)]
pub struct NullSpace<T> {
    pub rank: usize,
    pub pivot_cols: Vec<usize>,
    pub reduced: DenseMatrix<T>,
    pub basis: DenseMatrix<KernelEntry<T>>,
}

/// Compute the rank and a null-space basis of an `m × n` matrix.
///
/// The basis has shape `(n, nullity)`, nullity = n − rank: each column is a
/// null-space basis vector, read off the reduced row echelon form that
/// [`reduce_to_echelon`] computes with the given operations.
pub fn null_space<T: Copy, A, G, D, S>(
    mat: &DenseMatrix<T>,
    tol: T,
    zero: T,
    magnitude: A,
    greater: G,
    divide: D,
    sub_mul: S,
) -> (ns: NullSpace<T>) where
    A: Fn(T) -> T,
    G: Fn(T, T) -> bool,
    D: Fn(T, T) -> T + Copy,
    S: Fn(T, T, T) -> T + Copy,

    requires
        mat.wf(),
        elimination_ops(magnitude, greater, divide, sub_mul),
    ensures
        ns.rank == ns.pivot_cols@.len(),
        ns.rank <= mat@.len(),
        ns.rank <= mat.ncols,
        strictly_increasing(ns.pivot_cols@),
        forall|i: int| 0 <= i < ns.pivot_cols@.len() ==> ns.pivot_cols@[i] < mat.ncols,
        (ns.reduced@, ns.pivot_cols@) == spec_echelon(
            mat@,
            mat.ncols as int,
            tol,
            zero,
            fn1(magnitude),
            fn2(greater),
            fn2(divide),
            fn3(sub_mul),
        ),
        ns.reduced.wf(),
        ns.reduced.ncols == mat.ncols,
        ns.reduced@.len() == mat@.len(),
        ns.basis.wf(),
        ns.basis@.len() == mat.ncols,
        ns.basis.ncols == mat.ncols - ns.rank,
        ns.basis@ == spec_kernel_basis(ns.reduced@, ns.pivot_cols@, mat.ncols as int),
{
    let mut w = mat.copied();
    let pivot_cols = reduce_to_echelon(&mut w, tol, zero, magnitude, greater, divide, sub_mul);
    let basis = kernel_basis(&w, &pivot_cols);
    NullSpace { rank: pivot_cols.len(), pivot_cols, reduced: w, basis }
}

} // verus!
