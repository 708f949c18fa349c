//! The null-space basis read off a matrix in reduced row echelon form.
//!
//! Once elimination has brought an `m × n` matrix to reduced row echelon
//! form `w`, with the pivot of row `i` in column `pivot_cols[i]`, each free
//! (non-pivot) column `j` gives one basis vector of the kernel: 1 in row `j`,
//! `−w[i][j]` in the row of each pivot column `pivot_cols[i]`, and 0
//! elsewhere. The basis has `n` rows and one column per free column, in
//! increasing column order: `n − rank` columns in all.


use vstd::prelude::*;

use crate::matrix::{map_matrix, DenseMatrix};
use crate::ops::{deterministic1, fn1, lemma_call1};

verus! {

/// One entry of a kernel basis vector: 0, 1, or the negation of an entry of
/// the reduced matrix.
#[derive(Clone, Copy, Debug, PartialEq)]
pub enum KernelEntry<T> {
    Zero,
    One,
    Negated(T),
}

/// Column `c` holds the pivot of some row.
pub open spec fn is_pivot_column(pivots: Seq<usize>, c: int) -> bool {
    exists|i: int| 0 <= i < pivots.len() && pivots[i] as int == c
}

/// The pivot columns increase from row to row.
pub open spec fn strictly_increasing(pivots: Seq<usize>) -> bool {
    forall|a: int, b: int| 0 <= a < b < pivots.len() ==> pivots[a] < pivots[b]
}

/// The row whose pivot is in column `c`.
pub open spec fn pivot_row(pivots: Seq<usize>, c: int) -> int {
    choose|i: int| 0 <= i < pivots.len() && pivots[i] as int == c
}

/// The free (non-pivot) columns among the first `k`, in increasing order.
pub open spec fn free_columns(pivots: Seq<usize>, k: int) -> Seq<usize>
    decreases k,
{
    if k <= 0 {
        seq![]
    } else if is_pivot_column(pivots, k - 1) {
        free_columns(pivots, k - 1)
    } else {
        free_columns(pivots, k - 1).push((k - 1) as usize)
    }
}

/// The number of pivot columns among the first `k`.
pub open spec fn pivot_count(pivots: Seq<usize>, k: int) -> nat
    decreases k,
{
    if k <= 0 {
        0
    } else if is_pivot_column(pivots, k - 1) {
        pivot_count(pivots, k - 1) + 1
    } else {
        pivot_count(pivots, k - 1)
    }
}

/// Entry in row `r` of the basis vector of free column `j`.
pub open spec fn kernel_entry<T>(w: Seq<Seq<T>>, pivots: Seq<usize>, j: int, r: int) -> KernelEntry<
    T,
> {
    if r == j {
        KernelEntry::One
    } else if is_pivot_column(pivots, r) {
        KernelEntry::Negated(w[pivot_row(pivots, r)][j])
    } else {
        KernelEntry::Zero
    }
}

/// The kernel basis of the reduced matrix `w` with `n` columns, row by row.
pub open spec fn spec_kernel_basis<T>(w: Seq<Seq<T>>, pivots: Seq<usize>, n: int) -> Seq<
    Seq<KernelEntry<T>>,
> {
    let free = free_columns(pivots, n);
    Seq::new(
        n as nat,
        |r: int| Seq::new(free.len(), |f: int| kernel_entry(w, pivots, free[f] as int, r)),
    )
}

/// Every column below `k` is either free or a pivot column.
pub proof fn lemma_free_plus_pivots(pivots: Seq<usize>, k: int)
    requires
        0 <= k,
    ensures
        free_columns(pivots, k).len() + pivot_count(pivots, k) == k,
    decreases k,
{
    if k > 0 {
        lemma_free_plus_pivots(pivots, k - 1);
    }
}

/// The free columns below `k` increase, lie below `k`, and are exactly the
/// non-pivot columns there.
pub proof fn lemma_free_columns(pivots: Seq<usize>, k: int)
    requires
        0 <= k <= usize::MAX,
    ensures
        forall|a: int, b: int|
            0 <= a < b < free_columns(pivots, k).len() ==> free_columns(pivots, k)[a]
                < free_columns(pivots, k)[b],
        forall|f: int|
            0 <= f < free_columns(pivots, k).len() ==> (#[trigger] free_columns(pivots, k)[f]) < k
                && !is_pivot_column(pivots, free_columns(pivots, k)[f] as int),
        forall|c: int|
            0 <= c < k && !is_pivot_column(pivots, c) ==> #[trigger] free_columns(pivots, k).contains(
                c as usize,
            ),
    decreases k,
{
    if k > 0 {
        lemma_free_columns(pivots, k - 1);
        let prev = free_columns(pivots, k - 1);
        if !is_pivot_column(pivots, k - 1) {
            let cur = prev.push((k - 1) as usize);
            assert(free_columns(pivots, k) == cur);
            assert(cur[prev.len() as int] == (k - 1) as usize);
            assert forall|c: int|
                0 <= c < k && !is_pivot_column(pivots, c) implies #[trigger] cur.contains(
                c as usize,
            ) by {
                if c < k - 1 {
                    assert(prev.contains(c as usize));
                    let f = choose|f: int| 0 <= f < prev.len() && prev[f] == c as usize;
                    assert(cur[f] == c as usize);
                } else {
                    assert(cur[prev.len() as int] == c as usize);
                }
            }
        } else {
            assert forall|c: int|
                0 <= c < k && !is_pivot_column(pivots, c) implies #[trigger] free_columns(
                pivots,
                k,
            ).contains(c as usize) by {
                assert(c != k - 1);
            }
        }
    }
}

/// Removing the last (largest) pivot removes exactly one pivot column below
/// any bound above it.
proof fn lemma_pivot_count_drop_last(pivots: Seq<usize>, k: int)
    requires
        0 <= k,
        pivots.len() > 0,
        strictly_increasing(pivots),
    ensures
        pivot_count(pivots, k) == pivot_count(pivots.drop_last(), k) + (if pivots.last() < k {
            1int
        } else {
            0int
        }),
    decreases k,
{
    let s = pivots.drop_last();
    let l = pivots.last();
    if k > 0 {
        lemma_pivot_count_drop_last(pivots, k - 1);
        let c = k - 1;
        if is_pivot_column(pivots, c) {
            let i = choose|i: int| 0 <= i < pivots.len() && pivots[i] as int == c;
            if i < pivots.len() - 1 {
                assert(s[i] == pivots[i]);
                assert(is_pivot_column(s, c));
                assert(pivots[i] < l);
            } else {
                assert(c == l);
                if is_pivot_column(s, c) {
                    let i2 = choose|i2: int| 0 <= i2 < s.len() && s[i2] as int == c;
                    assert(pivots[i2] == s[i2]);
                    assert(pivots[i2] < pivots[pivots.len() - 1]);
                }
            }
        } else {
            if is_pivot_column(s, c) {
                let i2 = choose|i2: int| 0 <= i2 < s.len() && s[i2] as int == c;
                assert(pivots[i2] == s[i2]);
            }
            assert(pivots[pivots.len() - 1] == l);
            assert(c != l);
        }
    }
}

/// With strictly increasing pivots below `n`, exactly `rank` of the first `n`
/// columns are pivot columns.
pub proof fn lemma_pivot_count_all(pivots: Seq<usize>, n: int)
    requires
        strictly_increasing(pivots),
        forall|i: int| 0 <= i < pivots.len() ==> pivots[i] < n,
    ensures
        pivot_count(pivots, n) == pivots.len(),
    decreases pivots.len(),
{
    if pivots.len() == 0 {
        lemma_no_pivots(pivots, n);
    } else {
        let s = pivots.drop_last();
        assert(pivots[pivots.len() - 1] < n);
        lemma_pivot_count_all(s, n);
        if n >= 0 {
            lemma_pivot_count_drop_last(pivots, n);
        }
    }
}

/// Without pivots no column is a pivot column.
proof fn lemma_no_pivots(pivots: Seq<usize>, k: int)
    requires
        pivots.len() == 0,
    ensures
        pivot_count(pivots, k) == 0,
    decreases k,
{
    if k > 0 {
        lemma_no_pivots(pivots, k - 1);
    }
}

/// The kernel basis has `n − rank` columns: one per free column.
pub proof fn lemma_kernel_nullity(pivots: Seq<usize>, n: int)
    requires
        0 <= n,
        strictly_increasing(pivots),
        forall|i: int| 0 <= i < pivots.len() ==> pivots[i] < n,
    ensures
        free_columns(pivots, n).len() == n - pivots.len(),
{
    lemma_free_plus_pivots(pivots, n);
    lemma_pivot_count_all(pivots, n);
}

/// The shape of the kernel basis: on the free coordinates the basis vectors
/// form the identity (so they are linearly independent), and in the row of
/// the pivot of row `i` the vector of free column `j` holds `−w[i][j]`.
pub proof fn lemma_kernel_basis_shape<T>(w: Seq<Seq<T>>, pivots: Seq<usize>, n: int)
    requires
        0 <= n <= usize::MAX,
        strictly_increasing(pivots),
        forall|i: int| 0 <= i < pivots.len() ==> pivots[i] < n,
    ensures
        forall|f: int, g: int|
            0 <= f < free_columns(pivots, n).len() && 0 <= g < free_columns(pivots, n).len()
                ==> spec_kernel_basis(w, pivots, n)[free_columns(pivots, n)[g] as int][f] == (if f
                == g {
                KernelEntry::<T>::One
            } else {
                KernelEntry::<T>::Zero
            }),
        forall|i: int, f: int|
            0 <= i < pivots.len() && 0 <= f < free_columns(pivots, n).len() ==> spec_kernel_basis(
                w,
                pivots,
                n,
            )[pivots[i] as int][f] == KernelEntry::Negated(w[i][free_columns(pivots, n)[f] as int]),
{
    let free = free_columns(pivots, n);
    let b = spec_kernel_basis(w, pivots, n);
    lemma_free_columns(pivots, n);
    assert forall|f: int, g: int|
        0 <= f < free.len() && 0 <= g < free.len() implies b[free[g] as int][f] == (if f == g {
        KernelEntry::<T>::One
    } else {
        KernelEntry::<T>::Zero
    }) by {
        assert(free[g] < n && free[f] < n);
        assert(!is_pivot_column(pivots, free[g] as int));
        if f < g {
            assert(free[f] < free[g]);
        } else if g < f {
            assert(free[g] < free[f]);
        }
    }
    assert forall|i: int, f: int| 0 <= i < pivots.len() && 0 <= f < free.len() implies b[pivots[i] as int][f]
        == KernelEntry::Negated(w[i][free[f] as int]) by {
        let c = pivots[i] as int;
        assert(is_pivot_column(pivots, c));
        assert(!is_pivot_column(pivots, free[f] as int));
        assert(c != free[f] as int);
        let r = pivot_row(pivots, c);
        if r < i {
            assert(pivots[r] < pivots[i]);
        } else if i < r {
            assert(pivots[i] < pivots[r]);
        }
    }
}

/// Read the kernel basis off the reduced row echelon form `w` whose pivot
/// columns, row by row, are `pivot_cols`. The result has `w.ncols` rows and
/// `w.ncols − rank` columns; column `f` is the basis vector of the `f`-th free
/// column.
pub fn kernel_basis<T: Copy>(w: &DenseMatrix<T>, pivot_cols: &Vec<usize>) -> (b: DenseMatrix<
    KernelEntry<T>,
>)
    requires
        w.wf(),
        pivot_cols@.len() <= w@.len(),
        strictly_increasing(pivot_cols@),
        forall|i: int| 0 <= i < pivot_cols@.len() ==> pivot_cols@[i] < w.ncols,
    ensures
        b.wf(),
        b@.len() == w.ncols,
        b.ncols == w.ncols - pivot_cols@.len(),
        b@ == spec_kernel_basis(w@, pivot_cols@, w.ncols as int),
{
    let n = w.ncols;
    let rank = pivot_cols.len();
    let ghost pivots = pivot_cols@;
    // Mark the pivot columns and remember the row of each.
    let mut is_pivot: Vec<bool> = Vec::new();
    let mut row_of: Vec<usize> = Vec::new();
    for c in 0..n
        invariant
            is_pivot@.len() == c,
            row_of@.len() == c,
            forall|a: int| 0 <= a < c ==> !(#[trigger] is_pivot@[a]),
    {
        is_pivot.push(false);
        row_of.push(0);
    }
    for i in 0..rank
        invariant
            pivots == pivot_cols@,
            rank == pivots.len(),
            strictly_increasing(pivots),
            forall|a: int| 0 <= a < pivots.len() ==> pivots[a] < n,
            is_pivot@.len() == n,
            row_of@.len() == n,
            forall|c: int|
                0 <= c < n ==> (#[trigger] is_pivot@[c] <==> exists|a: int|
                    0 <= a < i && pivots[a] as int == c),
            forall|c: int|
                0 <= c < n && #[trigger] is_pivot@[c] ==> row_of@[c] < i && pivots[row_of@[c] as int]
                    as int == c,
    {
        let pc = pivot_cols[i];
        is_pivot.set(pc, true);
        row_of.set(pc, i);
        assert forall|c: int|
            0 <= c < n implies (#[trigger] is_pivot@[c] <==> exists|a: int|
                0 <= a < i + 1 && pivots[a] as int == c) by {
            if c == pc as int {
                assert(pivots[i as int] as int == c);
            } else if exists|a: int| 0 <= a < i + 1 && pivots[a] as int == c {
                let a = choose|a: int| 0 <= a < i + 1 && pivots[a] as int == c;
                assert(a != i);
            }
        }
    }
    assert forall|c: int| 0 <= c < n implies (#[trigger] is_pivot@[c] <==> is_pivot_column(pivots, c)) by {
    }
    assert forall|c: int| 0 <= c < n && #[trigger] is_pivot@[c] implies row_of@[c] as int == pivot_row(
        pivots,
        c,
    ) by {
        let r = pivot_row(pivots, c);
        assert(0 <= r < pivots.len() && pivots[r] as int == c);
        let a = row_of@[c] as int;
        if a < r {
            assert(pivots[a] < pivots[r]);
        } else if a > r {
            assert(pivots[r] < pivots[a]);
        }
    }
    // List the free columns in increasing order.
    let mut free: Vec<usize> = Vec::new();
    for j in 0..n
        invariant
            is_pivot@.len() == n,
            forall|c: int| 0 <= c < n ==> (#[trigger] is_pivot@[c] <==> is_pivot_column(pivots, c)),
            free@ == free_columns(pivots, j as int),
    {
        if !is_pivot[j] {
            free.push(j);
        }
    }
    proof {
        lemma_free_columns(pivots, n as int);
        lemma_kernel_nullity(pivots, n as int);
    }
    let nfree = free.len();
    let ghost spec_b = spec_kernel_basis(w@, pivots, n as int);
    // Assemble the basis row by row.
    let mut rows: Vec<Vec<KernelEntry<T>>> = Vec::new();
    for r in 0..n
        invariant
            w.wf(),
            pivots == pivot_cols@,
            pivots.len() <= w@.len(),
            n == w.ncols,
            is_pivot@.len() == n,
            row_of@.len() == n,
            forall|c: int| 0 <= c < n ==> (#[trigger] is_pivot@[c] <==> is_pivot_column(pivots, c)),
            forall|c: int|
                0 <= c < n && #[trigger] is_pivot@[c] ==> row_of@[c] < pivots.len() && row_of@[c] as int
                    == pivot_row(pivots, c),
            free@ == free_columns(pivots, n as int),
            nfree == free@.len(),
            forall|f: int| 0 <= f < free@.len() ==> (#[trigger] free@[f]) < n,
            spec_b == spec_kernel_basis(w@, pivots, n as int),
            rows@.len() == r,
            forall|a: int| 0 <= a < r ==> #[trigger] rows@[a]@ == spec_b[a],
    {
        let mut row: Vec<KernelEntry<T>> = Vec::new();
        for f in 0..nfree
            invariant
                w.wf(),
                pivots == pivot_cols@,
                pivots.len() <= w@.len(),
                n == w.ncols,
                r < n,
                is_pivot@.len() == n,
                row_of@.len() == n,
                forall|c: int| 0 <= c < n ==> (#[trigger] is_pivot@[c] <==> is_pivot_column(pivots, c)),
                forall|c: int|
                    0 <= c < n && #[trigger] is_pivot@[c] ==> row_of@[c] < pivots.len() && row_of@[c]
                        as int == pivot_row(pivots, c),
                free@ == free_columns(pivots, n as int),
                nfree == free@.len(),
                forall|g: int| 0 <= g < free@.len() ==> (#[trigger] free@[g]) < n,
                row@ == Seq::new(
                    f as nat,
                    |g: int| kernel_entry(w@, pivots, free@[g] as int, r as int),
                ),
        {
            let j = free[f];
            let entry = if r == j {
                KernelEntry::One
            } else if is_pivot[r] {
                let i = row_of[r];
                assert(w.rows@[i as int]@.len() == w.ncols);
                KernelEntry::Negated(w.rows[i][j])
            } else {
                KernelEntry::Zero
            };
            row.push(entry);
            assert(row@ =~= Seq::new(
                (f + 1) as nat,
                |g: int| kernel_entry(w@, pivots, free@[g] as int, r as int),
            ));
        }
        assert(row@ =~= spec_b[r as int]);
        rows.push(row);
    }
    let b = DenseMatrix { ncols: nfree, rows };
    assert(b@ =~= spec_b);
    assert forall|a: int| 0 <= a < b.rows.len() implies #[trigger] b.rows@[a]@.len() == b.ncols by {
        assert(b.rows@[a]@ == spec_b[a]);
    }
    b
}

/// The value of a kernel entry: `zero`, `one`, or the negation of the entry.
pub open spec fn kernel_value<T>(e: KernelEntry<T>, zero: T, one: T, neg: spec_fn(T) -> T) -> T {
    match e {
        KernelEntry::Zero => zero,
        KernelEntry::One => one,
        KernelEntry::Negated(x) => neg(x),
    }
}

/// The values of all entries of a kernel basis.
pub open spec fn kernel_values<T>(b: Seq<Seq<KernelEntry<T>>>, zero: T, one: T, neg: spec_fn(T) -> T) -> Seq<
    Seq<T>,
> {
    map_matrix(b, |e: KernelEntry<T>| kernel_value(e, zero, one, neg))
}

/// Evaluate a kernel basis with the scalars `zero`, `one` and the operation
/// `negate`.
pub fn evaluate_kernel_basis<T: Copy, N: Fn(T) -> T>(
    b: &DenseMatrix<KernelEntry<T>>,
    zero: T,
    one: T,
    negate: N,
) -> (r: DenseMatrix<T>)
    requires
        b.wf(),
        forall|x: T| negate.requires((x,)),
        deterministic1(negate),
    ensures
        r.wf(),
        r.ncols == b.ncols,
        r@ == kernel_values(b@, zero, one, fn1(negate)),
{
    let ghost neg = fn1(negate);
    let mut rows: Vec<Vec<T>> = Vec::new();
    for i in 0..b.rows.len()
        invariant
            b.wf(),
            forall|x: T| negate.requires((x,)),
            deterministic1(negate),
            neg == fn1(negate),
            rows@.len() == i,
            forall|a: int|
                0 <= a < i ==> #[trigger] rows@[a]@ == Seq::new(
                    b@[a].len(),
                    |j: int| kernel_value(b@[a][j], zero, one, neg),
                ),
            forall|a: int| 0 <= a < i ==> (#[trigger] rows@[a])@.len() == b.ncols,
    {
        let src = &b.rows[i];
        assert(src@.len() == b.ncols);
        let mut row: Vec<T> = Vec::new();
        for j in 0..src.len()
            invariant
                forall|x: T| negate.requires((x,)),
                deterministic1(negate),
                neg == fn1(negate),
                row@ == Seq::new(j as nat, |c: int| kernel_value(src@[c], zero, one, neg)),
        {
            let v = match src[j] {
                KernelEntry::Zero => zero,
                KernelEntry::One => one,
                KernelEntry::Negated(x) => {
                    let y = negate(x);
                    proof {
                        lemma_call1(negate, x, y);
                    }
                    y
                },
            };
            row.push(v);
            assert(row@ =~= Seq::new((j + 1) as nat, |c: int| kernel_value(src@[c], zero, one, neg)));
        }
        assert(row@ =~= Seq::new(b@[i as int].len(), |c: int| kernel_value(b@[i as int][c], zero, one, neg)));
        rows.push(row);
    }
    let r = DenseMatrix { ncols: b.ncols, rows };
    let ghost kv = kernel_values(b@, zero, one, neg);
    assert forall|a: int| 0 <= a < r@.len() implies #[trigger] r@[a] =~= kv[a] by {
        assert(r@[a] == rows@[a]@);
    }
    assert(r@ =~= kv);
    r
}

} // verus!
