//! What the elimination guarantees of its result.
//!
//! The rank it reports is complete: below the last pivot row nothing is left
//! whose magnitude passes the tolerance. And the result is in reduced form:
//! each pivot column holds one in its pivot row and zero in every other row,
//! whenever the operations behave as exact field arithmetic does.

use vstd::prelude::*;

use crate::echelon::{
    back_step, back_substitute, clear_below, forward, lemma_search_in_range, lemma_search_none,
    search_pivot, spec_echelon, swap_spec,
};
use crate::kernel::strictly_increasing;

verus! {

/// Every row of `w` has `n` entries.
pub open spec fn rows_of_len<T>(w: Seq<Seq<T>>, n: int) -> bool {
    forall|r: int| 0 <= r < w.len() ==> #[trigger] w[r].len() == n
}

/// No entry in a row from `rank` on, among the first `cols` columns, has a
/// magnitude greater than `tol`.
pub open spec fn nothing_left_below<T>(
    w: Seq<Seq<T>>,
    rank: int,
    cols: int,
    tol: T,
    mag: spec_fn(T) -> T,
    gt: spec_fn(T, T) -> bool,
) -> bool {
    forall|r: int, c: int| rank <= r < w.len() && 0 <= c < cols ==> !gt(mag(#[trigger] w[r][c]), tol)
}

/// `gt` is transitive.
pub open spec fn transitive<T>(gt: spec_fn(T, T) -> bool) -> bool {
    forall|a: T, b: T, c: T| #![trigger gt(a, b), gt(b, c)] gt(a, b) && gt(b, c) ==> gt(a, c)
}

/// What holds of the matrix and pivots at each column of the forward phase.
pub open spec fn forward_inv<T>(
    w: Seq<Seq<T>>,
    pivots: Seq<usize>,
    col: int,
    n: int,
    tol: T,
    zero: T,
    mag: spec_fn(T) -> T,
    gt: spec_fn(T, T) -> bool,
) -> bool {
    &&& rows_of_len(w, n)
    &&& 0 <= col <= n <= usize::MAX
    &&& pivots.len() <= w.len()
    &&& strictly_increasing(pivots)
    &&& forall|i: int| 0 <= i < pivots.len() ==> #[trigger] pivots[i] < col
    &&& forall|i: int| 0 <= i < pivots.len() ==> gt(mag(#[trigger] w[i][pivots[i] as int]), tol)
    &&& forall|i: int, r: int|
        0 <= i < pivots.len() && i < r < w.len() ==> #[trigger] w[r][pivots[i] as int] == zero
    &&& nothing_left_below(w, pivots.len() as int, col, tol, mag, gt)
}

/// The row the search settles on has a magnitude greater than the tolerance.
pub(crate) proof fn lemma_search_passes<T>(
    w: Seq<Seq<T>>,
    col: int,
    row: int,
    best: Option<int>,
    best_val: T,
    tol: T,
    mag: spec_fn(T) -> T,
    gt: spec_fn(T, T) -> bool,
)
    requires
        transitive(gt),
        best is None ==> best_val == tol,
        best matches Some(b) ==> best_val == mag(w[b][col]) && gt(best_val, tol),
    ensures
        search_pivot(w, col, row, best, best_val, mag, gt) matches Some(p) ==> gt(mag(w[p][col]), tol),
    decreases w.len() - row,
{
    if 0 <= row < w.len() {
        let val = mag(w[row][col]);
        if gt(val, best_val) {
            if best is Some {
                assert(gt(val, best_val) && gt(best_val, tol));
            }
            lemma_search_passes(w, col, row + 1, Some(row), val, tol, mag, gt);
        } else {
            lemma_search_passes(w, col, row + 1, best, best_val, tol, mag, gt);
        }
    }
}

/// One pivot step of the forward phase keeps its invariant: the pivot row is
/// swapped up to row `rank` and the rows below it are cleared in `col`.
pub(crate) proof fn lemma_forward_pivot_step<T>(
    w: Seq<Seq<T>>,
    pivots: Seq<usize>,
    col: int,
    n: int,
    p: int,
    tol: T,
    zero: T,
    mag: spec_fn(T) -> T,
    gt: spec_fn(T, T) -> bool,
    div: spec_fn(T, T) -> T,
    sm: spec_fn(T, T, T) -> T,
)
    requires
        forward_inv(w, pivots, col, n, tol, zero, mag, gt),
        col < n,
        pivots.len() <= p < w.len(),
        gt(mag(w[p][col]), tol),
        !gt(mag(zero), tol),
    ensures
        forward_inv(
            clear_below(swap_spec(w, pivots.len() as int, p), pivots.len() as int, col, zero, div, sm),
            pivots.push(col as usize),
            col + 1,
            n,
            tol,
            zero,
            mag,
            gt,
        ),
        clear_below(swap_spec(w, pivots.len() as int, p), pivots.len() as int, col, zero, div, sm).len()
            == w.len(),
{
    let r = pivots.len() as int;
    let w1 = swap_spec(w, r, p);
    let w2 = clear_below(w1, r, col, zero, div, sm);
    let pv = pivots.push(col as usize);
    assert(w1.len() == w.len());
    // Row `a` of w1 is a row of w at or below `r` whenever `a` is.
    assert forall|a: int| 0 <= a < w.len() implies #[trigger] w1[a] == (if a == r {
        w[p]
    } else if a == p {
        w[r]
    } else {
        w[a]
    }) by {}
    assert forall|a: int| 0 <= a < w2.len() implies #[trigger] w2[a].len() == n by {
        assert(w1[a].len() == n);
    }
    assert forall|a: int, b: int| 0 <= a < b < pv.len() implies pv[a] < pv[b] by {
        if b < r {
            assert(pv[a] == pivots[a] && pv[b] == pivots[b]);
        } else {
            assert(pv[a] == pivots[a]);
            assert(pivots[a] < col);
        }
    }
    assert forall|i: int| 0 <= i < pv.len() implies #[trigger] pv[i] < col + 1 by {
        if i < r {
            assert(pv[i] == pivots[i]);
        }
    }
    assert forall|i: int| 0 <= i < pv.len() implies gt(mag(#[trigger] w2[i][pv[i] as int]), tol) by {
        assert(w2[i] == w1[i]);
        if i < r {
            assert(pv[i] == pivots[i]);
            assert(w1[i] == w[i]);
        } else {
            assert(pv[i] as int == col);
        }
    }
    assert forall|i: int, a: int| 0 <= i < pv.len() && i < a < w2.len() implies #[trigger] w2[a][pv[i] as int]
        == zero by {
        if i < r {
            assert(pv[i] == pivots[i]);
            assert(pivots[i] < col);
            assert(w1[a][pivots[i] as int] == zero) by {
                if a == r {
                    assert(w[p][pivots[i] as int] == zero);
                } else if a == p {
                    assert(w[r][pivots[i] as int] == zero);
                } else {
                    assert(w[a][pivots[i] as int] == zero);
                }
            }
            if a > r {
                assert(w2[a][pivots[i] as int] == w1[a][pivots[i] as int]);
            }
        } else {
            assert(pv[i] as int == col);
        }
    }
    assert forall|a: int, c: int| pv.len() <= a < w2.len() && 0 <= c < col + 1 implies !gt(
        mag(#[trigger] w2[a][c]),
        tol,
    ) by {
        if c < col {
            assert(w2[a][c] == w1[a][c]);
            if a == p {
                assert(!gt(mag(w[r][c]), tol));
            } else {
                assert(!gt(mag(w[a][c]), tol));
            }
        } else {
            assert(w2[a][c] == zero);
        }
    }
}

/// The forward phase keeps its invariant to the end, where no column is left.
proof fn lemma_forward_inv<T>(
    w: Seq<Seq<T>>,
    pivots: Seq<usize>,
    col: int,
    n: int,
    tol: T,
    zero: T,
    mag: spec_fn(T) -> T,
    gt: spec_fn(T, T) -> bool,
    div: spec_fn(T, T) -> T,
    sm: spec_fn(T, T, T) -> T,
)
    requires
        forward_inv(w, pivots, col, n, tol, zero, mag, gt),
        transitive(gt),
        !gt(mag(zero), tol),
    ensures
        ({
            let f = forward(w, pivots, col, n, tol, zero, mag, gt, div, sm);
            &&& f.0.len() == w.len()
            &&& forward_inv(f.0, f.1, n, n, tol, zero, mag, gt)
        }),
    decreases n - col,
{
    let r = pivots.len() as int;
    if col >= n {
    } else if r >= w.len() {
        assert(nothing_left_below(w, r, n, tol, mag, gt));
        assert forall|i: int| 0 <= i < pivots.len() implies #[trigger] pivots[i] < n by {
            assert(pivots[i] < col);
        }
    } else {
        match search_pivot(w, col, r, None, tol, mag, gt) {
            None => {
                lemma_search_none(w, col, r, tol, mag, gt);
                assert forall|a: int, c: int| r <= a < w.len() && 0 <= c < col + 1 implies !gt(
                    mag(#[trigger] w[a][c]),
                    tol,
                ) by {}
                assert forall|i: int| 0 <= i < pivots.len() implies #[trigger] pivots[i] < col + 1 by {
                    assert(pivots[i] < col);
                }
                lemma_forward_inv(w, pivots, col + 1, n, tol, zero, mag, gt, div, sm);
            },
            Some(p) => {
                lemma_search_in_range(w, col, r, None, tol, mag, gt, r);
                lemma_search_passes(w, col, r, None, tol, tol, mag, gt);
                lemma_forward_pivot_step(w, pivots, col, n, p, tol, zero, mag, gt, div, sm);
                lemma_forward_inv(
                    clear_below(swap_spec(w, r, p), r, col, zero, div, sm),
                    pivots.push(col as usize),
                    col + 1,
                    n,
                    tol,
                    zero,
                    mag,
                    gt,
                    div,
                    sm,
                );
            },
        }
    }
}

/// Back substitution from pivot row `i` down leaves the rows from `i` on as
/// they are.
pub(crate) proof fn lemma_back_keeps_rows<T>(
    w: Seq<Seq<T>>,
    pivots: Seq<usize>,
    i: int,
    div: spec_fn(T, T) -> T,
    sm: spec_fn(T, T, T) -> T,
)
    requires
        0 <= i,
    ensures
        back_substitute(w, pivots, i, div, sm).len() == w.len(),
        forall|r: int| i <= r < w.len() ==> #[trigger] back_substitute(w, pivots, i, div, sm)[r] == w[r],
    decreases i,
{
    if i > 0 {
        let w1 = back_step(w, i - 1, pivots[i - 1] as int, div, sm);
        lemma_back_keeps_rows(w1, pivots, i - 1, div, sm);
    }
}

/// The scalar operations behave as exact field arithmetic does where back
/// substitution needs it: a nonzero value divided by itself is `one`, zero
/// divided by a nonzero value is `zero`, `x − x·one = zero` and
/// `x − f·zero = x`.
pub open spec fn exact_ops<T>(
    zero: T,
    one: T,
    div: spec_fn(T, T) -> T,
    sm: spec_fn(T, T, T) -> T,
) -> bool {
    &&& forall|x: T| x != zero ==> #[trigger] div(x, x) == one
    &&& forall|y: T| y != zero ==> #[trigger] div(zero, y) == zero
    &&& forall|x: T| #[trigger] sm(x, x, one) == zero
    &&& forall|x: T, f: T| #[trigger] sm(x, f, zero) == x
}

/// What holds during back substitution once the pivot rows from `i` on have
/// been processed.
pub open spec fn back_inv<T>(
    w: Seq<Seq<T>>,
    pivots: Seq<usize>,
    i: int,
    n: int,
    zero: T,
    one: T,
) -> bool {
    &&& rows_of_len(w, n)
    &&& 0 <= i <= pivots.len() <= w.len()
    &&& strictly_increasing(pivots)
    &&& forall|k: int| 0 <= k < pivots.len() ==> #[trigger] pivots[k] < n
    &&& forall|k: int| 0 <= k < i ==> #[trigger] w[k][pivots[k] as int] != zero
    &&& forall|k: int, r: int|
        0 <= k < i && k < r < w.len() ==> #[trigger] w[r][pivots[k] as int] == zero
    &&& forall|k: int, r: int|
        i <= k < pivots.len() && 0 <= r < w.len() ==> #[trigger] w[r][pivots[k] as int] == (if r
            == k {
            one
        } else {
            zero
        })
}

/// One step of back substitution keeps its invariant.
pub(crate) proof fn lemma_back_step_inv<T>(
    w: Seq<Seq<T>>,
    pivots: Seq<usize>,
    i: int,
    n: int,
    zero: T,
    one: T,
    div: spec_fn(T, T) -> T,
    sm: spec_fn(T, T, T) -> T,
)
    requires
        back_inv(w, pivots, i, n, zero, one),
        exact_ops(zero, one, div, sm),
        i > 0,
    ensures
        back_inv(back_step(w, i - 1, pivots[i - 1] as int, div, sm), pivots, i - 1, n, zero, one),
        back_step(w, i - 1, pivots[i - 1] as int, div, sm).len() == w.len(),
{
    let k0 = i - 1;
    let pc = pivots[k0] as int;
    let piv = w[k0][pc];
    let w1 = back_step(w, k0, pc, div, sm);
    let sr = w1[k0];
    assert(w[k0].len() == n);
    assert(sr[pc] == one) by {
        assert(div(piv, piv) == one);
    }
    assert forall|a: int| 0 <= a < w1.len() implies #[trigger] w1[a].len() == n by {
        assert(w[a].len() == n);
    }
    assert forall|k: int| 0 <= k < k0 implies #[trigger] w1[k][pivots[k] as int] != zero by {
        assert(pivots[k] < pivots[k0]);
        assert(w[k][pivots[k] as int] != zero);
    }
    assert forall|k: int, r: int| 0 <= k < k0 && k < r < w1.len() implies #[trigger] w1[r][pivots[k]
        as int] == zero by {
        assert(pivots[k] < pivots[k0]);
        assert(w[r][pivots[k] as int] == zero);
    }
    assert forall|k: int, r: int| k0 <= k < pivots.len() && 0 <= r < w1.len() implies #[trigger] w1[r][pivots[k]
        as int] == (if r == k {
        one
    } else {
        zero
    }) by {
        let c = pivots[k] as int;
        assert(c < n);
        if k == k0 {
            if r < k0 {
                assert(w1[r][c] == sm(w[r][c], w[r][c], sr[c]));
            } else if r > k0 {
                assert(w[r][c] == zero);
            }
        } else {
            assert(pivots[k0] < pivots[k]);
            assert(w[k0][c] == zero);
            assert(sr[c] == div(zero, piv));
            if r < k0 {
                assert(w1[r][c] == sm(w[r][c], w[r][pc], sr[c]));
                assert(w[r][c] == zero);
            }
        }
    }
}

/// Back substitution ends with each pivot column holding one in its pivot
/// row and zero elsewhere.
pub(crate) proof fn lemma_back_inv<T>(
    w: Seq<Seq<T>>,
    pivots: Seq<usize>,
    i: int,
    n: int,
    zero: T,
    one: T,
    div: spec_fn(T, T) -> T,
    sm: spec_fn(T, T, T) -> T,
)
    requires
        back_inv(w, pivots, i, n, zero, one),
        exact_ops(zero, one, div, sm),
    ensures
        back_inv(back_substitute(w, pivots, i, div, sm), pivots, 0, n, zero, one),
        back_substitute(w, pivots, i, div, sm).len() == w.len(),
    decreases i,
{
    if i > 0 {
        lemma_back_step_inv(w, pivots, i, n, zero, one, div, sm);
        let w1 = back_step(w, i - 1, pivots[i - 1] as int, div, sm);
        lemma_back_inv(w1, pivots, i - 1, n, zero, one, div, sm);
    }
}

/// The forward phase starts from its invariant and ends with it, and back
/// substitution then starts from its own.
pub(crate) proof fn lemma_forward_result<T>(
    w: Seq<Seq<T>>,
    n: int,
    tol: T,
    zero: T,
    mag: spec_fn(T) -> T,
    gt: spec_fn(T, T) -> bool,
    div: spec_fn(T, T) -> T,
    sm: spec_fn(T, T, T) -> T,
)
    requires
        0 <= n <= usize::MAX,
        rows_of_len(w, n),
        transitive(gt),
        !gt(mag(zero), tol),
    ensures
        ({
            let f = forward(w, seq![], 0, n, tol, zero, mag, gt, div, sm);
            &&& f.0.len() == w.len()
            &&& forward_inv(f.0, f.1, n, n, tol, zero, mag, gt)
        }),
{
    let empty: Seq<usize> = seq![];
    assert(forward_inv(w, empty, 0, n, tol, zero, mag, gt));
    lemma_forward_inv(w, empty, 0, n, tol, zero, mag, gt, div, sm);
}

/// The rank that the elimination reports is complete: in the result, no
/// entry of a row below the last pivot row has a magnitude greater than the
/// tolerance. So whenever a row at or below the current rank holds an entry
/// above the tolerance in the current column, a pivot is taken in that
/// column. This holds when `greater` is transitive and the magnitude of
/// `zero` does not pass the tolerance.
pub proof fn lemma_echelon_rank_complete<T>(
    w: Seq<Seq<T>>,
    n: int,
    tol: T,
    zero: T,
    mag: spec_fn(T) -> T,
    gt: spec_fn(T, T) -> bool,
    div: spec_fn(T, T) -> T,
    sm: spec_fn(T, T, T) -> T,
)
    requires
        0 <= n <= usize::MAX,
        rows_of_len(w, n),
        transitive(gt),
        !gt(mag(zero), tol),
    ensures
        ({
            let e = spec_echelon(w, n, tol, zero, mag, gt, div, sm);
            &&& e.0.len() == w.len()
            &&& e.1.len() <= w.len()
            &&& strictly_increasing(e.1)
            &&& forall|i: int| 0 <= i < e.1.len() ==> #[trigger] e.1[i] < n
            &&& forall|r: int, c: int|
                e.1.len() <= r < w.len() && 0 <= c < n ==> !gt(mag(#[trigger] e.0[r][c]), tol)
        }),
{
    lemma_forward_result(w, n, tol, zero, mag, gt, div, sm);
    let f = forward(w, seq![], 0, n, tol, zero, mag, gt, div, sm);
    lemma_back_keeps_rows(f.0, f.1, f.1.len() as int, div, sm);
    let e = spec_echelon(w, n, tol, zero, mag, gt, div, sm);
    assert forall|r: int, c: int| e.1.len() <= r < w.len() && 0 <= c < n implies !gt(
        mag(#[trigger] e.0[r][c]),
        tol,
    ) by {
        assert(e.0[r] == f.0[r]);
    }
}

/// The result of the elimination is in reduced row echelon form: each pivot
/// column holds `one` in its own pivot row and `zero` in every other row.
/// This holds when `greater` is transitive, the magnitude of `zero` does not
/// pass the tolerance, and the operations behave as exact field arithmetic
/// does ([`exact_ops`]).
pub proof fn lemma_echelon_reduced<T>(
    w: Seq<Seq<T>>,
    n: int,
    tol: T,
    zero: T,
    one: T,
    mag: spec_fn(T) -> T,
    gt: spec_fn(T, T) -> bool,
    div: spec_fn(T, T) -> T,
    sm: spec_fn(T, T, T) -> T,
)
    requires
        0 <= n <= usize::MAX,
        rows_of_len(w, n),
        transitive(gt),
        !gt(mag(zero), tol),
        exact_ops(zero, one, div, sm),
    ensures
        ({
            let e = spec_echelon(w, n, tol, zero, mag, gt, div, sm);
            forall|i: int, r: int|
                0 <= i < e.1.len() && 0 <= r < w.len() ==> #[trigger] e.0[r][e.1[i] as int] == (if r
                    == i {
                    one
                } else {
                    zero
                })
        }),
{
    lemma_forward_result(w, n, tol, zero, mag, gt, div, sm);
    let f = forward(w, seq![], 0, n, tol, zero, mag, gt, div, sm);
    let rank = f.1.len() as int;
    assert forall|k: int| 0 <= k < rank implies #[trigger] f.0[k][f.1[k] as int] != zero by {
        assert(gt(mag(f.0[k][f.1[k] as int]), tol));
    }
    assert(back_inv(f.0, f.1, rank, n, zero, one));
    lemma_back_inv(f.0, f.1, rank, n, zero, one, div, sm);
}

} // verus!
