//! Dense matrices stored row by row, with a `Seq<Seq<T>>` view.

use vstd::prelude::*;

use crate::ops::{deterministic1, fn1, lemma_call1};

verus! {

/// A dense matrix held as a list of rows, each of length `ncols`.
#[derive(Clone, Debug)]
pub struct DenseMatrix<T> {
    pub ncols: usize,
    pub rows: Vec<Vec<T>>,
}

impl<T> View for DenseMatrix<T> {
    type V = Seq<Seq<T>>;

    open spec fn view(&self) -> Seq<Seq<T>> {
        self.rows@.map_values(|r: Vec<T>| r@)
    }
}

/// The `j`-th column of a matrix given by its rows.
pub open spec fn column_of<T>(m: Seq<Seq<T>>, j: int) -> Seq<T> {
    Seq::new(m.len(), |i: int| m[i][j])
}

/// Every entry of `m` replaced by its image under `f`.
pub open spec fn map_matrix<X, Y>(m: Seq<Seq<X>>, f: spec_fn(X) -> Y) -> Seq<Seq<Y>> {
    Seq::new(m.len(), |i: int| Seq::new(m[i].len(), |j: int| f(m[i][j])))
}

/// The transpose of a matrix with `ncols` columns: its columns as rows.
pub open spec fn transpose_of<T>(m: Seq<Seq<T>>, ncols: int) -> Seq<Seq<T>> {
    Seq::new(ncols as nat, |j: int| column_of(m, j))
}

impl<T> DenseMatrix<T> {
    /// Every row has exactly `ncols` entries.
    pub open spec fn wf(&self) -> bool {
        forall|i: int| 0 <= i < self.rows.len() ==> #[trigger] self.rows@[i]@.len() == self.ncols
    }

    /// Checks that every row has exactly `ncols` entries.
    pub fn is_wf(&self) -> (b: bool)
        ensures
            b == self.wf(),
    {
        let mut i: usize = 0;
        while i < self.rows.len()
            invariant
                i <= self.rows@.len(),
                forall|a: int| 0 <= a < i ==> #[trigger] self.rows@[a]@.len() == self.ncols,
            decreases self.rows@.len() - i,
        {
            if self.rows[i].len() != self.ncols {
                return false;
            }
            i = i + 1;
        }
        true
    }

    /// Number of rows.
    pub fn nrows(&self) -> (r: usize)
        ensures
            r == self@.len(),
    {
        self.rows.len()
    }

    /// Number of columns.
    pub fn ncols(&self) -> (r: usize)
        ensures
            r == self.ncols,
    {
        self.ncols
    }
}

impl<T: Copy> DenseMatrix<T> {
    /// An `nrows × ncols` matrix with every entry equal to `value`.
    pub fn filled(nrows: usize, ncols: usize, value: T) -> (m: Self)
        ensures
            m.wf(),
            m.ncols == ncols,
            m@.len() == nrows,
            forall|i: int, j: int| 0 <= i < nrows && 0 <= j < ncols ==> #[trigger] m@[i][j] == value,
    {
        let mut rows: Vec<Vec<T>> = Vec::new();
        for i in 0..nrows
            invariant
                rows@.len() == i,
                forall|a: int| 0 <= a < i ==> #[trigger] rows@[a]@.len() == ncols,
                forall|a: int, j: int| 0 <= a < i && 0 <= j < ncols ==> #[trigger] rows@[a]@[j] == value,
        {
            let mut row: Vec<T> = Vec::new();
            for j in 0..ncols
                invariant
                    row@.len() == j,
                    forall|b: int| 0 <= b < j ==> #[trigger] row@[b] == value,
            {
                row.push(value);
            }
            rows.push(row);
        }
        DenseMatrix { ncols, rows }
    }

    /// The `n × n` identity matrix, built from the scalars `zero` and `one`.
    pub fn identity(n: usize, zero: T, one: T) -> (m: Self)
        ensures
            m.wf(),
            m.ncols == n,
            m@.len() == n,
            forall|i: int, j: int|
                0 <= i < n && 0 <= j < n ==> #[trigger] m@[i][j] == (if i == j {
                    one
                } else {
                    zero
                }),
    {
        let mut rows: Vec<Vec<T>> = Vec::new();
        for i in 0..n
            invariant
                rows@.len() == i,
                forall|a: int| 0 <= a < i ==> #[trigger] rows@[a]@.len() == n,
                forall|a: int, j: int|
                    0 <= a < i && 0 <= j < n ==> #[trigger] rows@[a]@[j] == (if a == j {
                        one
                    } else {
                        zero
                    }),
        {
            let mut row: Vec<T> = Vec::new();
            for j in 0..n
                invariant
                    row@.len() == j,
                    forall|b: int|
                        0 <= b < j ==> #[trigger] row@[b] == (if i == b {
                            one
                        } else {
                            zero
                        }),
            {
                if i == j {
                    row.push(one);
                } else {
                    row.push(zero);
                }
            }
            rows.push(row);
        }
        DenseMatrix { ncols: n, rows }
    }

    /// Builds a matrix from its rows; `None` when some row does not have
    /// `ncols` entries.
    pub fn from_rows(ncols: usize, rows: Vec<Vec<T>>) -> (r: Option<Self>)
        ensures
            r is Some <==> (forall|i: int| 0 <= i < rows@.len() ==> #[trigger] rows@[i]@.len() == ncols),
            r matches Some(m) ==> m.wf() && m.ncols == ncols && m.rows@ == rows@,
    {
        let mut i: usize = 0;
        while i < rows.len()
            invariant
                i <= rows@.len(),
                forall|a: int| 0 <= a < i ==> #[trigger] rows@[a]@.len() == ncols,
            decreases rows@.len() - i,
        {
            if rows[i].len() != ncols {
                return None;
            }
            i = i + 1;
        }
        Some(DenseMatrix { ncols, rows })
    }

    /// The entry in row `i`, column `j`.
    pub fn get(&self, i: usize, j: usize) -> (x: T)
        requires
            self.wf(),
            i < self@.len(),
            j < self.ncols,
        ensures
            x == self@[i as int][j as int],
    {
        assert(self.rows@[i as int]@.len() == self.ncols);
        self.rows[i][j]
    }

    /// Replace the entry in row `i`, column `j`.
    pub fn set(&mut self, i: usize, j: usize, x: T)
        requires
            old(self).wf(),
            i < old(self)@.len(),
            j < old(self).ncols,
        ensures
            final(self).wf(),
            final(self).ncols == old(self).ncols,
            final(self)@ == old(self)@.update(i as int, old(self)@[i as int].update(j as int, x)),
    {
        let ghost before = self@;
        assert(self.rows@[i as int]@.len() == self.ncols);
        self.rows[i].set(j, x);
        assert(self@ =~= before.update(i as int, before[i as int].update(j as int, x)));
        assert forall|a: int| 0 <= a < self.rows.len() implies #[trigger] self.rows@[a]@.len()
            == self.ncols by {
            if a != i {
                assert(self.rows@[a]@ == before[a]);
            }
        }
    }

    /// Exchange rows `a` and `b`, entry by entry.
    pub fn swap_rows(&mut self, a: usize, b: usize)
        requires
            old(self).wf(),
            a < old(self)@.len(),
            b < old(self)@.len(),
        ensures
            final(self).wf(),
            final(self).ncols == old(self).ncols,
            final(self)@ == old(self)@.update(a as int, old(self)@[b as int]).update(
                b as int,
                old(self)@[a as int],
            ),
    {
        let ghost before = self@;
        let n = self.ncols;
        for j in 0..n
            invariant
                self.wf(),
                self.ncols == n,
                a < self@.len(),
                b < self@.len(),
                before.len() == self@.len(),
                before[a as int].len() == n,
                before[b as int].len() == n,
                forall|r: int| 0 <= r < self@.len() && r != a && r != b ==> #[trigger] self@[r] == before[r],
                a != b ==> self@[a as int] == before[b as int].subrange(0, j as int) + before[a as int].subrange(j as int, n as int),
                a != b ==> self@[b as int] == before[a as int].subrange(0, j as int) + before[b as int].subrange(j as int, n as int),
                a == b ==> self@ == before,
        {
            if a != b {
                let tmp = self.get(a, j);
                let other = self.get(b, j);
                self.set(a, j, other);
                self.set(b, j, tmp);
                assert(self@[a as int] =~= before[b as int].subrange(0, j + 1) + before[a as int].subrange(j + 1, n as int));
                assert(self@[b as int] =~= before[a as int].subrange(0, j + 1) + before[b as int].subrange(j + 1, n as int));
            }
        }
        if a != b {
            assert(self@[a as int] =~= before[b as int]);
            assert(self@[b as int] =~= before[a as int]);
        }
        assert(self@ =~= before.update(a as int, before[b as int]).update(b as int, before[a as int]));
    }

    /// The `j`-th column, top to bottom.
    pub fn column(&self, j: usize) -> (c: Vec<T>)
        requires
            self.wf(),
            j < self.ncols,
        ensures
            c@ == column_of(self@, j as int),
    {
        let mut c: Vec<T> = Vec::new();
        for i in 0..self.rows.len()
            invariant
                self.wf(),
                j < self.ncols,
                c@ == Seq::new(i as nat, |a: int| self@[a][j as int]),
        {
            assert(self.rows@[i as int]@.len() == self.ncols);
            c.push(self.rows[i][j]);
            assert(c@ =~= Seq::new((i + 1) as nat, |a: int| self@[a][j as int]));
        }
        assert(c@ =~= column_of(self@, j as int));
        c
    }

    /// All columns, left to right.
    pub fn columns(&self) -> (cs: Vec<Vec<T>>)
        requires
            self.wf(),
        ensures
            cs@.len() == self.ncols,
            forall|j: int| 0 <= j < self.ncols ==> #[trigger] cs@[j]@ == column_of(self@, j),
    {
        let mut cs: Vec<Vec<T>> = Vec::new();
        for j in 0..self.ncols
            invariant
                self.wf(),
                cs@.len() == j,
                forall|b: int| 0 <= b < j ==> #[trigger] cs@[b]@ == column_of(self@, b),
        {
            let c = self.column(j);
            cs.push(c);
        }
        cs
    }

    /// Apply the operation `f` to every entry.
    pub fn map_entries<U, F: Fn(T) -> U>(&self, f: F) -> (r: DenseMatrix<U>)
        requires
            self.wf(),
            forall|x: T| f.requires((x,)),
            deterministic1(f),
        ensures
            r.wf(),
            r.ncols == self.ncols,
            r@ == map_matrix(self@, fn1(f)),
    {
        let ghost g = fn1(f);
        let mut rows: Vec<Vec<U>> = Vec::new();
        for i in 0..self.rows.len()
            invariant
                self.wf(),
                forall|x: T| f.requires((x,)),
                deterministic1(f),
                g == fn1(f),
                rows@.len() == i,
                forall|a: int|
                    0 <= a < i ==> #[trigger] rows@[a]@ == Seq::new(
                        self@[a].len(),
                        |j: int| g(self@[a][j]),
                    ),
                forall|a: int| 0 <= a < i ==> (#[trigger] rows@[a])@.len() == self.ncols,
        {
            let src = &self.rows[i];
            assert(src@.len() == self.ncols);
            let mut row: Vec<U> = Vec::new();
            for j in 0..src.len()
                invariant
                    forall|x: T| f.requires((x,)),
                    deterministic1(f),
                    g == fn1(f),
                    row@ == Seq::new(j as nat, |b: int| g(src@[b])),
            {
                let y = f(src[j]);
                proof {
                    lemma_call1(f, src@[j as int], y);
                }
                row.push(y);
                assert(row@ =~= Seq::new((j + 1) as nat, |b: int| g(src@[b])));
            }
            assert(row@ =~= Seq::new(self@[i as int].len(), |b: int| g(self@[i as int][b])));
            rows.push(row);
        }
        let r = DenseMatrix { ncols: self.ncols, rows };
        assert(r@ =~= map_matrix(self@, g));
        r
    }

    /// The transpose: `ncols` rows, the columns of `self`.
    pub fn transpose(&self) -> (t: Self)
        requires
            self.wf(),
        ensures
            t.wf(),
            t.ncols == self@.len(),
            t@ == transpose_of(self@, self.ncols as int),
    {
        let cs = self.columns();
        let t = DenseMatrix { ncols: self.rows.len(), rows: cs };
        assert(t@ =~= transpose_of(self@, self.ncols as int));
        assert forall|a: int| 0 <= a < t.rows.len() implies #[trigger] t.rows@[a]@.len() == t.ncols by {
            assert(t.rows@[a]@ == column_of(self@, a));
        }
        t
    }

    /// An entry-by-entry copy.
    pub fn copied(&self) -> (m: Self)
        requires
            self.wf(),
        ensures
            m.wf(),
            m.ncols == self.ncols,
            m@ == self@,
    {
        let mut rows: Vec<Vec<T>> = Vec::new();
        for i in 0..self.rows.len()
            invariant
                self.wf(),
                rows@.len() == i,
                forall|a: int| 0 <= a < i ==> #[trigger] rows@[a]@ == self.rows@[a]@,
        {
            let mut row: Vec<T> = Vec::new();
            let src = &self.rows[i];
            for j in 0..src.len()
                invariant
                    row@ == src@.subrange(0, j as int),
            {
                row.push(src[j]);
                assert(row@ =~= src@.subrange(0, j + 1));
            }
            assert(row@ =~= src@);
            rows.push(row);
        }
        let m = DenseMatrix { ncols: self.ncols, rows };
        assert(m@ =~= self@);
        assert forall|i: int| 0 <= i < m.rows.len() implies #[trigger] m.rows@[i]@.len() == m.ncols by {
            assert(self.rows@[i]@.len() == self.ncols);
        }
        m
    }
}

} // verus!
