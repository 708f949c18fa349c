//! The null-space basis that the elimination yields lies in the kernel of
//! the matrix it started from, when the scalars are an exact field.
//!
//! Every step of the elimination can be undone by the same kind of row
//! operation, so a vector orthogonal to every row of the result is
//! orthogonal to every row before the step; and each basis vector read off
//! the reduced form is orthogonal to all of its rows.

use vstd::prelude::*;

use crate::echelon::{
    back_step, back_substitute, clear_below, forward, lemma_search_in_range, lemma_search_none, search_pivot,
    spec_echelon, swap_spec,
};
use crate::kernel::{
    free_columns, is_pivot_column, kernel_value, kernel_values, lemma_free_columns, lemma_kernel_nullity, pivot_row,
    spec_kernel_basis, KernelEntry,
};
use crate::matrix::column_of;
use crate::rref::{
    back_inv, exact_ops, forward_inv, lemma_back_inv, lemma_back_keeps_rows, lemma_back_step_inv,
    lemma_forward_pivot_step, lemma_forward_result, lemma_search_passes, rows_of_len, transitive,
};

verus! {

/// The scalar operations form a field (as far as these properties go), and
/// `sub_mul(a, f, b)` is `a − f·b`.
#[verifier::opaque]
pub open spec fn field_ops<T>(
    zero: T,
    one: T,
    plus: spec_fn(T, T) -> T,
    times: spec_fn(T, T) -> T,
    neg: spec_fn(T) -> T,
    div: spec_fn(T, T) -> T,
    sm: spec_fn(T, T, T) -> T,
) -> bool {
    &&& forall|x: T, y: T| #[trigger] plus(x, y) == plus(y, x)
    &&& forall|x: T, y: T, z: T| #[trigger] plus(plus(x, y), z) == plus(x, plus(y, z))
    &&& forall|x: T| #[trigger] plus(x, zero) == x
    &&& forall|x: T| #[trigger] plus(x, neg(x)) == zero
    &&& forall|x: T, y: T| #[trigger] times(x, y) == times(y, x)
    &&& forall|x: T, y: T, z: T| #[trigger] times(times(x, y), z) == times(x, times(y, z))
    &&& forall|x: T| #[trigger] times(x, one) == x
    &&& forall|x: T| #[trigger] times(x, zero) == zero
    &&& forall|x: T, y: T, z: T| #[trigger] times(x, plus(y, z)) == plus(times(x, y), times(x, z))
    &&& forall|a: T, f: T, b: T| #[trigger] sm(a, f, b) == plus(a, neg(times(f, b)))
    &&& forall|x: T, y: T| y != zero ==> #[trigger] times(div(x, y), y) == x
}

/// The dot product of the first `k` entries of `a` and `v`.
pub open spec fn dot<T>(
    a: Seq<T>,
    v: Seq<T>,
    k: int,
    zero: T,
    plus: spec_fn(T, T) -> T,
    times: spec_fn(T, T) -> T,
) -> T
    decreases k,
{
    if k <= 0 {
        zero
    } else {
        plus(dot(a, v, k - 1, zero, plus, times), times(a[k - 1], v[k - 1]))
    }
}

/// Elementary identities of a field.
proof fn lemma_field_basics<T>(
    zero: T,
    one: T,
    plus: spec_fn(T, T) -> T,
    times: spec_fn(T, T) -> T,
    neg: spec_fn(T) -> T,
    div: spec_fn(T, T) -> T,
    sm: spec_fn(T, T, T) -> T,
    x: T,
)
    requires
        field_ops(zero, one, plus, times, neg, div, sm),
    ensures
        plus(x, zero) == x,
        plus(zero, x) == x,
        times(x, zero) == zero,
        times(zero, x) == zero,
        times(x, one) == x,
        times(one, x) == x,
        plus(x, neg(x)) == zero,
{
    reveal(field_ops);
    assert(plus(zero, x) == plus(x, zero));
    assert(times(zero, x) == times(x, zero));
    assert(times(one, x) == times(x, one));
}

/// Taking `f·b` away and adding it back restores `a`.
proof fn lemma_undo_sub_mul<T>(
    zero: T,
    one: T,
    plus: spec_fn(T, T) -> T,
    times: spec_fn(T, T) -> T,
    neg: spec_fn(T) -> T,
    div: spec_fn(T, T) -> T,
    sm: spec_fn(T, T, T) -> T,
    a: T,
    f: T,
    b: T,
)
    requires
        field_ops(zero, one, plus, times, neg, div, sm),
    ensures
        plus(sm(a, f, b), times(f, b)) == a,
{
    reveal(field_ops);
    let m = times(f, b);
    assert(sm(a, f, b) == plus(a, neg(m)));
    assert(plus(plus(a, neg(m)), m) == plus(a, plus(neg(m), m)));
    assert(plus(neg(m), m) == plus(m, neg(m)));
    assert(plus(m, neg(m)) == zero);
    assert(plus(a, zero) == a);
}

/// The quotient times the divisor gives back the dividend.
proof fn lemma_mul_div<T>(
    zero: T,
    one: T,
    plus: spec_fn(T, T) -> T,
    times: spec_fn(T, T) -> T,
    neg: spec_fn(T) -> T,
    div: spec_fn(T, T) -> T,
    sm: spec_fn(T, T, T) -> T,
    x: T,
    y: T,
)
    requires
        field_ops(zero, one, plus, times, neg, div, sm),
        y != zero,
    ensures
        times(div(x, y), y) == x,
        times(y, div(x, y)) == x,
{
    reveal(field_ops);
    assert(times(div(x, y), y) == x);
    assert(times(y, div(x, y)) == times(div(x, y), y));
}

/// Four terms added in either pairing give the same sum.
proof fn lemma_add4<T>(
    zero: T,
    one: T,
    plus: spec_fn(T, T) -> T,
    times: spec_fn(T, T) -> T,
    neg: spec_fn(T) -> T,
    div: spec_fn(T, T) -> T,
    sm: spec_fn(T, T, T) -> T,
    p: T,
    q: T,
    r: T,
    s: T,
)
    requires
        field_ops(zero, one, plus, times, neg, div, sm),
    ensures
        plus(plus(p, q), plus(r, s)) == plus(plus(p, r), plus(q, s)),
{
    reveal(field_ops);
    assert(plus(plus(p, q), plus(r, s)) == plus(p, plus(q, plus(r, s))));
    assert(plus(q, plus(r, s)) == plus(plus(q, r), s));
    assert(plus(q, r) == plus(r, q));
    assert(plus(plus(r, q), s) == plus(r, plus(q, s)));
    assert(plus(p, plus(r, plus(q, s))) == plus(plus(p, r), plus(q, s)));
}

/// The dot product is linear: if every entry of `r` is `c·a[j] + d·b[j]`,
/// then `r·v = c·(a·v) + d·(b·v)`.
proof fn lemma_dot_combination<T>(
    zero: T,
    one: T,
    plus: spec_fn(T, T) -> T,
    times: spec_fn(T, T) -> T,
    neg: spec_fn(T) -> T,
    div: spec_fn(T, T) -> T,
    sm: spec_fn(T, T, T) -> T,
    r: Seq<T>,
    a: Seq<T>,
    b: Seq<T>,
    c: T,
    d: T,
    v: Seq<T>,
    k: int,
)
    requires
        field_ops(zero, one, plus, times, neg, div, sm),
        forall|j: int| 0 <= j < k ==> #[trigger] r[j] == plus(times(c, a[j]), times(d, b[j])),
    ensures
        dot(r, v, k, zero, plus, times) == plus(
            times(c, dot(a, v, k, zero, plus, times)),
            times(d, dot(b, v, k, zero, plus, times)),
        ),
    decreases k,
{
    if k <= 0 {
        lemma_field_basics(zero, one, plus, times, neg, div, sm, c);
        lemma_field_basics(zero, one, plus, times, neg, div, sm, d);
        lemma_field_basics(zero, one, plus, times, neg, div, sm, zero);
    } else {
        let j = k - 1;
        lemma_dot_combination(zero, one, plus, times, neg, div, sm, r, a, b, c, d, v, j);
        let da = dot(a, v, j, zero, plus, times);
        let db = dot(b, v, j, zero, plus, times);
        let x = times(a[j], v[j]);
        let y = times(b[j], v[j]);
        assert(times(r[j], v[j]) == plus(times(c, x), times(d, y))) by {
            reveal(field_ops);
            let ca = times(c, a[j]);
            let db_ = times(d, b[j]);
            assert(times(plus(ca, db_), v[j]) == times(v[j], plus(ca, db_)));
            assert(times(v[j], plus(ca, db_)) == plus(times(v[j], ca), times(v[j], db_)));
            assert(times(v[j], ca) == times(ca, v[j]));
            assert(times(ca, v[j]) == times(c, x));
            assert(times(v[j], db_) == times(db_, v[j]));
            assert(times(db_, v[j]) == times(d, y));
        }
        lemma_add4(zero, one, plus, times, neg, div, sm, times(c, da), times(d, db), times(c, x), times(d, y));
        assert(plus(times(c, da), times(c, x)) == times(c, plus(da, x))) by {
            reveal(field_ops);
        }
        assert(plus(times(d, db), times(d, y)) == times(d, plus(db, y))) by {
            reveal(field_ops);
        }
    }
}

/// A dot product whose terms vanish except at positions `a` and `b` is the
/// sum of those two terms.
proof fn lemma_dot_two_terms<T>(
    zero: T,
    one: T,
    plus: spec_fn(T, T) -> T,
    times: spec_fn(T, T) -> T,
    neg: spec_fn(T) -> T,
    div: spec_fn(T, T) -> T,
    sm: spec_fn(T, T, T) -> T,
    x: Seq<T>,
    v: Seq<T>,
    k: int,
    a: int,
    b: int,
)
    requires
        field_ops(zero, one, plus, times, neg, div, sm),
        a != b,
        forall|j: int| 0 <= j < k && j != a && j != b ==> #[trigger] times(x[j], v[j]) == zero,
    ensures
        dot(x, v, k, zero, plus, times) == plus(
            if 0 <= a < k { times(x[a], v[a]) } else { zero },
            if 0 <= b < k { times(x[b], v[b]) } else { zero },
        ),
    decreases k,
{
    if k <= 0 {
        lemma_field_basics(zero, one, plus, times, neg, div, sm, zero);
    } else {
        let j = k - 1;
        lemma_dot_two_terms(zero, one, plus, times, neg, div, sm, x, v, j, a, b);
        let ta = if 0 <= a < j { times(x[a], v[a]) } else { zero };
        let tb = if 0 <= b < j { times(x[b], v[b]) } else { zero };
        let t = times(x[j], v[j]);
        reveal(field_ops);
        if j == a {
            assert(plus(plus(zero, tb), t) == plus(zero, plus(tb, t)));
            assert(plus(zero, plus(tb, t)) == plus(plus(tb, t), zero));
            assert(plus(tb, t) == plus(t, tb));
        } else if j == b {
            assert(plus(plus(ta, zero), t) == plus(ta, t));
        } else {
            assert(t == zero);
            assert(plus(plus(ta, tb), zero) == plus(ta, tb));
        }
    }
}

/// In each of the first `k` rows every entry left of the row's pivot is zero.
pub open spec fn zeros_before_pivots<T>(w: Seq<Seq<T>>, pivots: Seq<usize>, k: int, zero: T) -> bool {
    forall|i: int, j: int| 0 <= i < k && 0 <= j < pivots[i] ==> #[trigger] w[i][j] == zero
}

/// Every row of `w` has dot product zero with `v` over the first `n` entries.
pub open spec fn orthogonal_rows<T>(
    w: Seq<Seq<T>>,
    v: Seq<T>,
    n: int,
    zero: T,
    plus: spec_fn(T, T) -> T,
    times: spec_fn(T, T) -> T,
) -> bool {
    forall|r: int| 0 <= r < w.len() ==> #[trigger] dot(w[r], v, n, zero, plus, times) == zero
}

/// A back-substitution step changes no entry left of a pivot.
proof fn lemma_back_step_zeros<T>(
    w: Seq<Seq<T>>,
    pivots: Seq<usize>,
    i: int,
    n: int,
    zero: T,
    one: T,
    div: spec_fn(T, T) -> T,
    sm: spec_fn(T, T, T) -> T,
)
    requires
        back_inv(w, pivots, i, n, zero, one),
        zeros_before_pivots(w, pivots, pivots.len() as int, zero),
        i > 0,
    ensures
        zeros_before_pivots(back_step(w, i - 1, pivots[i - 1] as int, div, sm), pivots, pivots.len() as int, zero),
{
    let k0 = i - 1;
    let pc = pivots[k0] as int;
    let w1 = back_step(w, k0, pc, div, sm);
    assert forall|a: int, j: int| 0 <= a < pivots.len() && 0 <= j < pivots[a] implies #[trigger] w1[a][j]
        == zero by {
        assert(w[a][j] == zero);
        if a < k0 {
            assert(pivots[a] < pivots[k0]);
        }
    }
}

/// Back substitution changes no entry left of a pivot.
proof fn lemma_back_zeros<T>(
    w: Seq<Seq<T>>,
    pivots: Seq<usize>,
    i: int,
    n: int,
    zero: T,
    one: T,
    div: spec_fn(T, T) -> T,
    sm: spec_fn(T, T, T) -> T,
)
    requires
        back_inv(w, pivots, i, n, zero, one),
        zeros_before_pivots(w, pivots, pivots.len() as int, zero),
        exact_ops(zero, one, div, sm),
    ensures
        zeros_before_pivots(back_substitute(w, pivots, i, div, sm), pivots, pivots.len() as int, zero),
    decreases i,
{
    if i > 0 {
        lemma_back_step_inv(w, pivots, i, n, zero, one, div, sm);
        lemma_back_step_zeros(w, pivots, i, n, zero, one, div, sm);
        lemma_back_zeros(back_step(w, i - 1, pivots[i - 1] as int, div, sm), pivots, i - 1, n, zero, one, div, sm);
    }
}

/// A vector orthogonal to every row after a back-substitution step is
/// orthogonal to every row before it: the pivot row is its scaled self times
/// the pivot, and each row above is its reduced self plus a multiple of the
/// scaled pivot row.
proof fn lemma_back_step_orthogonal<T>(
    w: Seq<Seq<T>>,
    pivots: Seq<usize>,
    i: int,
    n: int,
    zero: T,
    one: T,
    plus: spec_fn(T, T) -> T,
    times: spec_fn(T, T) -> T,
    neg: spec_fn(T) -> T,
    div: spec_fn(T, T) -> T,
    sm: spec_fn(T, T, T) -> T,
    v: Seq<T>,
)
    requires
        back_inv(w, pivots, i, n, zero, one),
        zeros_before_pivots(w, pivots, pivots.len() as int, zero),
        field_ops(zero, one, plus, times, neg, div, sm),
        i > 0,
        orthogonal_rows(back_step(w, i - 1, pivots[i - 1] as int, div, sm), v, n, zero, plus, times),
    ensures
        orthogonal_rows(w, v, n, zero, plus, times),
{
    let k0 = i - 1;
    let pc = pivots[k0] as int;
    let piv = w[k0][pc];
    let w1 = back_step(w, k0, pc, div, sm);
    let s = w1[k0];
    assert(w[k0].len() == n);
    assert(pivots[k0] < n);
    assert(piv != zero);
    assert(dot(s, v, n, zero, plus, times) == zero);
    lemma_field_basics(zero, one, plus, times, neg, div, sm, zero);
    lemma_field_basics(zero, one, plus, times, neg, div, sm, piv);
    assert forall|r: int| 0 <= r < w.len() implies #[trigger] dot(w[r], v, n, zero, plus, times) == zero by {
        if r > k0 {
            assert(w1[r] == w[r]);
            assert(dot(w1[r], v, n, zero, plus, times) == zero);
        } else if r == k0 {
            assert forall|j: int| 0 <= j < n implies #[trigger] w[k0][j] == plus(times(piv, s[j]), times(zero, s[j])) by {
                lemma_field_basics(zero, one, plus, times, neg, div, sm, s[j]);
                if j < pc {
                    assert(w[k0][j] == zero);
                } else {
                    lemma_mul_div(zero, one, plus, times, neg, div, sm, w[k0][j], piv);
                    lemma_field_basics(zero, one, plus, times, neg, div, sm, w[k0][j]);
                }
            }
            lemma_dot_combination(zero, one, plus, times, neg, div, sm, w[k0], s, s, piv, zero, v, n);
        } else {
            let f = w[r][pc];
            assert(dot(w1[r], v, n, zero, plus, times) == zero);
            assert forall|j: int| 0 <= j < n implies #[trigger] w[r][j] == plus(times(one, w1[r][j]), times(f, s[j])) by {
                lemma_field_basics(zero, one, plus, times, neg, div, sm, w1[r][j]);
                lemma_field_basics(zero, one, plus, times, neg, div, sm, f);
                if j < pc {
                    assert(s[j] == w[k0][j]);
                    assert(w[k0][j] == zero);
                    lemma_field_basics(zero, one, plus, times, neg, div, sm, w[r][j]);
                } else {
                    lemma_undo_sub_mul(zero, one, plus, times, neg, div, sm, w[r][j], f, s[j]);
                }
            }
            lemma_dot_combination(zero, one, plus, times, neg, div, sm, w[r], w1[r], s, one, f, v, n);
            lemma_field_basics(zero, one, plus, times, neg, div, sm, f);
        }
    }
}

/// A vector orthogonal to every row after back substitution is orthogonal
/// to every row before it.
proof fn lemma_back_orthogonal<T>(
    w: Seq<Seq<T>>,
    pivots: Seq<usize>,
    i: int,
    n: int,
    zero: T,
    one: T,
    plus: spec_fn(T, T) -> T,
    times: spec_fn(T, T) -> T,
    neg: spec_fn(T) -> T,
    div: spec_fn(T, T) -> T,
    sm: spec_fn(T, T, T) -> T,
    v: Seq<T>,
)
    requires
        back_inv(w, pivots, i, n, zero, one),
        zeros_before_pivots(w, pivots, pivots.len() as int, zero),
        field_ops(zero, one, plus, times, neg, div, sm),
        exact_ops(zero, one, div, sm),
        orthogonal_rows(back_substitute(w, pivots, i, div, sm), v, n, zero, plus, times),
    ensures
        orthogonal_rows(w, v, n, zero, plus, times),
    decreases i,
{
    if i > 0 {
        let w1 = back_step(w, i - 1, pivots[i - 1] as int, div, sm);
        lemma_back_step_inv(w, pivots, i, n, zero, one, div, sm);
        lemma_back_step_zeros(w, pivots, i, n, zero, one, div, sm);
        lemma_back_orthogonal(w1, pivots, i - 1, n, zero, one, plus, times, neg, div, sm, v);
        lemma_back_step_orthogonal(w, pivots, i, n, zero, one, plus, times, neg, div, sm, v);
    }
}

/// Each kernel basis vector read off a reduced matrix is orthogonal to all
/// of its rows: in a pivot row only the vector's `one` and the negated entry
/// in the row's pivot column meet nonzero entries, and they cancel; the rows
/// below the rank are zero.
proof fn lemma_reduced_orthogonal<T>(
    w: Seq<Seq<T>>,
    pivots: Seq<usize>,
    n: int,
    zero: T,
    one: T,
    plus: spec_fn(T, T) -> T,
    times: spec_fn(T, T) -> T,
    neg: spec_fn(T) -> T,
    div: spec_fn(T, T) -> T,
    sm: spec_fn(T, T, T) -> T,
    f: int,
)
    requires
        back_inv(w, pivots, 0, n, zero, one),
        forall|r: int, j: int| pivots.len() <= r < w.len() && 0 <= j < n ==> #[trigger] w[r][j] == zero,
        field_ops(zero, one, plus, times, neg, div, sm),
        0 <= n <= usize::MAX,
        0 <= f < free_columns(pivots, n).len(),
    ensures
        orthogonal_rows(
            w,
            column_of(kernel_values(spec_kernel_basis(w, pivots, n), zero, one, neg), f),
            n,
            zero,
            plus,
            times,
        ),
{
    let free = free_columns(pivots, n);
    let kb = spec_kernel_basis(w, pivots, n);
    let kv = kernel_values(kb, zero, one, neg);
    let v = column_of(kv, f);
    let fc = free[f] as int;
    lemma_free_columns(pivots, n);
    assert(fc < n && !is_pivot_column(pivots, fc));
    assert forall|j: int| 0 <= j < n implies #[trigger] v[j] == kernel_value(
        if j == fc {
            KernelEntry::One
        } else if is_pivot_column(pivots, j) {
            KernelEntry::Negated(w[pivot_row(pivots, j)][fc])
        } else {
            KernelEntry::Zero
        },
        zero,
        one,
        neg,
    ) by {
        assert(kb[j].len() == free.len());
    }
    lemma_field_basics(zero, one, plus, times, neg, div, sm, zero);
    assert forall|r: int| 0 <= r < w.len() implies #[trigger] dot(w[r], v, n, zero, plus, times) == zero by {
        if r < pivots.len() {
            let pr = pivots[r] as int;
            assert(pr < n);
            assert(is_pivot_column(pivots, pr));
            assert(pr != fc);
            assert forall|j: int| 0 <= j < n && j != fc && j != pr implies #[trigger] times(w[r][j], v[j])
                == zero by {
                lemma_field_basics(zero, one, plus, times, neg, div, sm, w[r][j]);
                lemma_field_basics(zero, one, plus, times, neg, div, sm, v[j]);
                if is_pivot_column(pivots, j) {
                    let k = pivot_row(pivots, j);
                    assert(pivots[k] as int == j);
                    assert(w[r][pivots[k] as int] == zero);
                }
            }
            lemma_dot_two_terms(zero, one, plus, times, neg, div, sm, w[r], v, n, fc, pr);
            let k = pivot_row(pivots, pr);
            assert(k == r) by {
                if k < r {
                    assert(pivots[k] < pivots[r]);
                } else if r < k {
                    assert(pivots[r] < pivots[k]);
                }
            }
            let x = w[r][fc];
            assert(v[fc] == one);
            assert(v[pr] == neg(x));
            assert(w[r][pr] == one);
            lemma_field_basics(zero, one, plus, times, neg, div, sm, x);
            lemma_field_basics(zero, one, plus, times, neg, div, sm, neg(x));
        } else {
            assert forall|j: int| 0 <= j < n && j != -1 && j != -2 implies #[trigger] times(w[r][j], v[j])
                == zero by {
                lemma_field_basics(zero, one, plus, times, neg, div, sm, v[j]);
            }
            lemma_dot_two_terms(zero, one, plus, times, neg, div, sm, w[r], v, n, -1, -2);
        }
    }
}

/// The magnitude test against the tolerance tells exactly the nonzero
/// values: a value passes it if and only if it is not `zero`.
pub open spec fn exact_zero_test<T>(zero: T, tol: T, mag: spec_fn(T) -> T, gt: spec_fn(T, T) -> bool) -> bool {
    forall|x: T| #[trigger] gt(mag(x), tol) <==> x != zero
}

/// A vector orthogonal to every row after the forward phase is orthogonal
/// to every row before it: swaps only reorder the rows, and each cleared row
/// is its new self plus a multiple of the pivot row. The pivot rows found
/// are zero left of their pivots.
proof fn lemma_forward_orthogonal<T>(
    w: Seq<Seq<T>>,
    pivots: Seq<usize>,
    col: int,
    n: int,
    tol: T,
    zero: T,
    one: T,
    mag: spec_fn(T) -> T,
    gt: spec_fn(T, T) -> bool,
    plus: spec_fn(T, T) -> T,
    times: spec_fn(T, T) -> T,
    neg: spec_fn(T) -> T,
    div: spec_fn(T, T) -> T,
    sm: spec_fn(T, T, T) -> T,
    v: Seq<T>,
)
    requires
        forward_inv(w, pivots, col, n, tol, zero, mag, gt),
        zeros_before_pivots(w, pivots, pivots.len() as int, zero),
        transitive(gt),
        exact_zero_test(zero, tol, mag, gt),
        field_ops(zero, one, plus, times, neg, div, sm),
    ensures
        ({
            let fw = forward(w, pivots, col, n, tol, zero, mag, gt, div, sm);
            &&& zeros_before_pivots(fw.0, fw.1, fw.1.len() as int, zero)
            &&& orthogonal_rows(fw.0, v, n, zero, plus, times) ==> orthogonal_rows(w, v, n, zero, plus, times)
        }),
    decreases n - col,
{
    let r = pivots.len() as int;
    assert(!gt(mag(zero), tol));
    if col >= n || r >= w.len() {
    } else {
        match search_pivot(w, col, r, None, tol, mag, gt) {
            None => {
                lemma_search_none(w, col, r, tol, mag, gt);
                assert forall|a: int, c: int| r <= a < w.len() && 0 <= c < col + 1 implies !gt(
                    mag(#[trigger] w[a][c]),
                    tol,
                ) by {}
                assert forall|i: int| 0 <= i < pivots.len() implies #[trigger] pivots[i] < col + 1 by {
                    assert(pivots[i] < col);
                }
                lemma_forward_orthogonal(w, pivots, col + 1, n, tol, zero, one, mag, gt, plus, times, neg, div, sm, v);
            },
            Some(p) => {
                lemma_search_in_range(w, col, r, None, tol, mag, gt, r);
                lemma_search_passes(w, col, r, None, tol, tol, mag, gt);
                lemma_forward_pivot_step(w, pivots, col, n, p, tol, zero, mag, gt, div, sm);
                let w1 = swap_spec(w, r, p);
                let w2 = clear_below(w1, r, col, zero, div, sm);
                let pv = pivots.push(col as usize);
                assert forall|a: int| 0 <= a < w.len() implies #[trigger] w1[a] == (if a == r {
                    w[p]
                } else if a == p {
                    w[r]
                } else {
                    w[a]
                }) by {}
                assert forall|i: int, j: int| 0 <= i < pv.len() && 0 <= j < pv[i] implies #[trigger] w2[i][j]
                    == zero by {
                    assert(w2[i] == w1[i]);
                    if i < r {
                        assert(pv[i] == pivots[i]);
                        assert(w[i][j] == zero);
                    } else {
                        assert(!gt(mag(w[p][j]), tol));
                    }
                }
                lemma_forward_orthogonal(w2, pv, col + 1, n, tol, zero, one, mag, gt, plus, times, neg, div, sm, v);
                if orthogonal_rows(forward(w2, pv, col + 1, n, tol, zero, mag, gt, div, sm).0, v, n, zero, plus, times) {
                    let piv = w1[r][col];
                    assert(piv != zero);
                    assert(w1[r].len() == n);
                    assert(dot(w2[r], v, n, zero, plus, times) == zero);
                    lemma_field_basics(zero, one, plus, times, neg, div, sm, zero);
                    assert forall|a: int| 0 <= a < w1.len() implies #[trigger] dot(w1[a], v, n, zero, plus, times)
                        == zero by {
                        if a <= r {
                            assert(w2[a] == w1[a]);
                            assert(dot(w2[a], v, n, zero, plus, times) == zero);
                        } else {
                            let fac = div(w1[a][col], piv);
                            assert(dot(w2[a], v, n, zero, plus, times) == zero);
                            assert(w1[a].len() == n);
                            assert forall|j: int| 0 <= j < n implies #[trigger] w1[a][j] == plus(
                                times(one, w2[a][j]),
                                times(fac, w1[r][j]),
                            ) by {
                                lemma_field_basics(zero, one, plus, times, neg, div, sm, w2[a][j]);
                                lemma_field_basics(zero, one, plus, times, neg, div, sm, fac);
                                if j < col {
                                    assert(w2[r][j] == zero);
                                    lemma_field_basics(zero, one, plus, times, neg, div, sm, w1[a][j]);
                                } else if j == col {
                                    lemma_mul_div(zero, one, plus, times, neg, div, sm, w1[a][col], piv);
                                    lemma_field_basics(zero, one, plus, times, neg, div, sm, w1[a][col]);
                                } else {
                                    lemma_undo_sub_mul(zero, one, plus, times, neg, div, sm, w1[a][j], fac, w1[r][j]);
                                }
                            }
                            lemma_dot_combination(zero, one, plus, times, neg, div, sm, w1[a], w2[a], w1[r], one, fac, v, n);
                            lemma_field_basics(zero, one, plus, times, neg, div, sm, fac);
                        }
                    }
                    assert forall|a: int| 0 <= a < w.len() implies #[trigger] dot(w[a], v, n, zero, plus, times)
                        == zero by {
                        if a == r {
                            assert(dot(w1[p], v, n, zero, plus, times) == zero);
                        } else if a == p {
                            assert(dot(w1[r], v, n, zero, plus, times) == zero);
                        } else {
                            assert(dot(w1[a], v, n, zero, plus, times) == zero);
                        }
                    }
                }
            },
        }
    }
}

/// Every null-space basis vector that the elimination yields lies in the
/// kernel of the matrix it started from: for each basis vector `v` and each
/// row `a` of `w`, a·v = 0. This holds when the scalars are an exact field
/// ([`field_ops`], [`exact_ops`]), the tolerance test tells exactly the
/// nonzero values ([`exact_zero_test`]) and `greater` is transitive.
pub proof fn lemma_kernel_basis_annihilates<T>(
    w: Seq<Seq<T>>,
    n: int,
    tol: T,
    zero: T,
    one: T,
    mag: spec_fn(T) -> T,
    gt: spec_fn(T, T) -> bool,
    plus: spec_fn(T, T) -> T,
    times: spec_fn(T, T) -> T,
    neg: spec_fn(T) -> T,
    div: spec_fn(T, T) -> T,
    sm: spec_fn(T, T, T) -> T,
)
    requires
        0 <= n <= usize::MAX,
        rows_of_len(w, n),
        transitive(gt),
        exact_zero_test(zero, tol, mag, gt),
        exact_ops(zero, one, div, sm),
        field_ops(zero, one, plus, times, neg, div, sm),
    ensures
        ({
            let e = spec_echelon(w, n, tol, zero, mag, gt, div, sm);
            let basis = kernel_values(spec_kernel_basis(e.0, e.1, n), zero, one, neg);
            &&& e.1.len() <= n
            &&& forall|f: int, r: int|
                0 <= f < n - e.1.len() && 0 <= r < w.len() ==> #[trigger] dot(
                    w[r],
                    column_of(basis, f),
                    n,
                    zero,
                    plus,
                    times,
                ) == zero
        }),
{
    assert(!gt(mag(zero), tol));
    lemma_forward_result(w, n, tol, zero, mag, gt, div, sm);
    let fw = forward(w, seq![], 0, n, tol, zero, mag, gt, div, sm);
    let e = spec_echelon(w, n, tol, zero, mag, gt, div, sm);
    let rank = fw.1.len() as int;
    let basis = kernel_values(spec_kernel_basis(e.0, e.1, n), zero, one, neg);
    let empty: Seq<usize> = seq![];
    assert(forward_inv(w, empty, 0, n, tol, zero, mag, gt));
    assert(zeros_before_pivots(w, empty, 0, zero));
    lemma_forward_orthogonal(w, empty, 0, n, tol, zero, one, mag, gt, plus, times, neg, div, sm, seq![]);
    assert forall|k: int| 0 <= k < rank implies #[trigger] fw.0[k][fw.1[k] as int] != zero by {
        assert(gt(mag(fw.0[k][fw.1[k] as int]), tol));
    }
    assert(back_inv(fw.0, fw.1, rank, n, zero, one));
    lemma_back_inv(fw.0, fw.1, rank, n, zero, one, div, sm);
    lemma_back_zeros(fw.0, fw.1, rank, n, zero, one, div, sm);
    lemma_back_keeps_rows(fw.0, fw.1, rank, div, sm);
    assert forall|r: int, j: int| rank <= r < e.0.len() && 0 <= j < n implies #[trigger] e.0[r][j] == zero by {
        assert(e.0[r] == fw.0[r]);
        assert(!gt(mag(fw.0[r][j]), tol));
    }
    lemma_kernel_nullity(fw.1, n);
    assert forall|f: int, r: int| 0 <= f < n - e.1.len() && 0 <= r < w.len() implies #[trigger] dot(
        w[r],
        column_of(basis, f),
        n,
        zero,
        plus,
        times,
    ) == zero by {
        let v = column_of(basis, f);
        lemma_reduced_orthogonal(e.0, e.1, n, zero, one, plus, times, neg, div, sm, f);
        lemma_back_orthogonal(fw.0, fw.1, rank, n, zero, one, plus, times, neg, div, sm, v);
        lemma_forward_orthogonal(w, empty, 0, n, tol, zero, one, mag, gt, plus, times, neg, div, sm, v);
    }
}

} // verus!
