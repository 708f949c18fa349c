//! The coboundary operator d₀ of a sheaf, in symbolic form.
//!
//! For each edge e = (v1, v2), (d₀ s)_e = r1(s_{v1}) − r2(s_{v2}). Row block
//! `e` of d₀ holds `+r1` in the columns of `v1` and `−r2` in the columns of
//! `v2`; each entry is kept as a [`Term`] naming the restriction-map entries
//! it is made of, so the construction needs no arithmetic on the scalars.

use vstd::prelude::*;

use crate::matrix::DenseMatrix;
use crate::sheaf::{lemma_prefix_sum_monotone, CellularSheaf, SheafEdge};

verus! {

/// One entry of d₀: `Zero` is 0, `Plus(a)` is `a`, `Minus(b)` is `−b` and
/// `PlusMinus(a, b)` is `a − b` (both blocks of a self-loop hit the entry).
#[derive(Clone, Copy, Debug, PartialEq)]
pub enum Term<T> {
    Zero,
    Plus(T),
    Minus(T),
    PlusMinus(T, T),
}

/// The term made of an optional `+` part and an optional `−` part.
pub open spec fn term_of<T>(plus: Option<T>, minus: Option<T>) -> Term<T> {
    match plus {
        Some(a) => match minus {
            Some(b) => Term::PlusMinus(a, b),
            None => Term::Plus(a),
        },
        None => match minus {
            Some(b) => Term::Minus(b),
            None => Term::Zero,
        },
    }
}

impl<T> CellularSheaf<T> {
    /// Entry of d₀ in local row `i` of edge `k`, column `c`.
    pub open spec fn coboundary_term(&self, k: int, i: int, c: int) -> Term<T> {
        let e = self.edges@[k];
        let off1 = self.vertex_prefix(e.v1 as int) as int;
        let off2 = self.vertex_prefix(e.v2 as int) as int;
        let plus = if off1 <= c < off1 + e.r1.ncols {
            Some(e.r1@[i][c - off1])
        } else {
            None
        };
        let minus = if off2 <= c < off2 + e.r2.ncols {
            Some(e.r2@[i][c - off2])
        } else {
            None
        };
        term_of(plus, minus)
    }

    /// Local row `i` of edge `k` of d₀.
    pub open spec fn coboundary_row(&self, k: int, i: int) -> Seq<Term<T>> {
        Seq::new(self.spec_total_vertex_dim(), |c: int| self.coboundary_term(k, i, c))
    }

    /// The rows of d₀ that belong to edge `k`.
    pub open spec fn edge_rows(&self, k: int) -> Seq<Seq<Term<T>>> {
        Seq::new(self.edge_dim(k), |i: int| self.coboundary_row(k, i))
    }

    /// The rows of d₀ that belong to the first `k` edges.
    pub open spec fn coboundary_rows(&self, k: int) -> Seq<Seq<Term<T>>>
        decreases k,
    {
        if k <= 0 {
            seq![]
        } else {
            self.coboundary_rows(k - 1) + self.edge_rows(k - 1)
        }
    }

    /// d₀ as a sequence of rows: total_edge_dim rows of total_vertex_dim terms.
    pub open spec fn spec_coboundary(&self) -> Seq<Seq<Term<T>>> {
        self.coboundary_rows(self.edges@.len() as int)
    }

    /// Edge `k` fits the vertex space: its endpoints name vertices (or the
    /// end of the vertex list), and when it has rows, each restriction map
    /// with columns lies inside the vertex space and `r2` has the rows that
    /// are read from it.
    pub open spec fn edge_in_range(&self, k: int) -> bool {
        let e = self.edges@[k];
        &&& e.v1 <= self.stalk_dims@.len()
        &&& e.v2 <= self.stalk_dims@.len()
        &&& self.edge_dim(k) > 0 ==> {
            &&& e.r1.ncols > 0 ==> self.vertex_prefix(e.v1 as int) + e.r1.ncols
                <= self.spec_total_vertex_dim()
            &&& e.r2.ncols > 0 ==> {
                &&& self.vertex_prefix(e.v2 as int) + e.r2.ncols <= self.spec_total_vertex_dim()
                &&& e.r2@.len() >= self.edge_dim(k)
            }
        }
    }

    /// Every edge fits the vertex space, so d₀ can be built.
    pub open spec fn coboundary_defined(&self) -> bool {
        forall|k: int| 0 <= k < self.edges@.len() ==> #[trigger] self.edge_in_range(k)
    }

    /// d₀ has one row per edge-space dimension, the rows of edge `k` start at
    /// `edge_prefix(k)`, and every row has one term per vertex-space dimension.
    pub proof fn lemma_coboundary_rows(&self, m: int)
        requires
            0 <= m <= self.edges@.len(),
        ensures
            self.coboundary_rows(m).len() == self.edge_prefix(m),
            forall|r: int|
                0 <= r < self.coboundary_rows(m).len() ==> (#[trigger] self.coboundary_rows(m)[r]).len()
                    == self.spec_total_vertex_dim(),
            forall|k: int, i: int|
                0 <= k < m && 0 <= i < self.edge_dim(k) ==> self.coboundary_rows(m)[self.edge_prefix(k)
                    + i] == #[trigger] self.coboundary_row(k, i),
        decreases m,
    {
        if m > 0 {
            self.lemma_coboundary_rows(m - 1);
            let prev = self.coboundary_rows(m - 1);
            let last = self.edge_rows(m - 1);
            assert(self.coboundary_rows(m) == prev + last);
            assert forall|k: int, i: int|
                0 <= k < m && 0 <= i < self.edge_dim(k) implies self.coboundary_rows(m)[self.edge_prefix(
                k,
            ) + i] == #[trigger] self.coboundary_row(k, i) by {
                if k < m - 1 {
                    self.lemma_edge_prefix_monotone(k + 1, m - 1);
                    assert(self.edge_prefix(k) + i < prev.len());
                    assert(prev[self.edge_prefix(k) + i] == self.coboundary_row(k, i));
                } else {
                    assert(last[i] == self.coboundary_row(k, i));
                }
            }
        }
    }

    /// For an edge between two distinct vertices whose restriction maps have
    /// the widths of their stalks, row `i` of the edge reads
    /// (d₀ s)_e = r1(s_{v1}) − r2(s_{v2}): `+r1` in the columns of `v1`,
    /// `−r2` in the columns of `v2`, and zero elsewhere.
    pub proof fn lemma_coboundary_term_blocks(&self, k: int, i: int, c: int)
        requires
            0 <= k < self.edges@.len(),
            self.edges@[k].v1 < self.stalk_dims@.len(),
            self.edges@[k].v2 < self.stalk_dims@.len(),
            self.edges@[k].v1 != self.edges@[k].v2,
            self.edges@[k].r1.ncols == self.stalk_dims@[self.edges@[k].v1 as int],
            self.edges@[k].r2.ncols == self.stalk_dims@[self.edges@[k].v2 as int],
        ensures
            ({
                let e = self.edges@[k];
                let off1 = self.vertex_prefix(e.v1 as int) as int;
                let off2 = self.vertex_prefix(e.v2 as int) as int;
                &&& off1 <= c < off1 + e.r1.ncols ==> self.coboundary_term(k, i, c) == Term::Plus(
                    e.r1@[i][c - off1],
                )
                &&& off2 <= c < off2 + e.r2.ncols ==> self.coboundary_term(k, i, c) == Term::Minus(
                    e.r2@[i][c - off2],
                )
                &&& !(off1 <= c < off1 + e.r1.ncols) && !(off2 <= c < off2 + e.r2.ncols)
                    ==> self.coboundary_term(k, i, c) == Term::<T>::Zero
            }),
    {
        let e = self.edges@[k];
        if e.v1 < e.v2 {
            self.lemma_vertex_blocks(e.v1 as int, e.v2 as int);
        } else {
            self.lemma_vertex_blocks(e.v2 as int, e.v1 as int);
        }
    }

    /// Checks that every edge fits the vertex space, so that d₀ can be built.
    pub fn check_coboundary(&self) -> (b: bool)
        requires
            self.vertex_dims_fit(),
        ensures
            b == self.coboundary_defined(),
    {
        let n = self.total_vertex_dim();
        let len = self.stalk_dims.len();
        for k in 0..self.edges.len()
            invariant
                self.vertex_dims_fit(),
                n == self.spec_total_vertex_dim(),
                len == self.stalk_dims@.len(),
                forall|j: int| 0 <= j < k ==> #[trigger] self.edge_in_range(j),
        {
            let e = &self.edges[k];
            if e.v1 > len || e.v2 > len {
                assert(!self.edge_in_range(k as int));
                return false;
            }
            let de = e.r1.nrows();
            if de > 0 {
                proof {
                    lemma_prefix_sum_monotone(self.stalk_dims@, e.v1 as int, len as int);
                    lemma_prefix_sum_monotone(self.stalk_dims@, e.v2 as int, len as int);
                }
                let off1 = self.vertex_offset(e.v1);
                let off2 = self.vertex_offset(e.v2);
                if e.r1.ncols > 0 && e.r1.ncols > n - off1 {
                    assert(!self.edge_in_range(k as int));
                    return false;
                }
                if e.r2.ncols > 0 && (e.r2.ncols > n - off2 || e.r2.nrows() < de) {
                    assert(!self.edge_in_range(k as int));
                    return false;
                }
            }
            assert(self.edge_in_range(k as int));
        }
        true
    }

    /// Row `i` of edge `k`, computed column by column.
    fn build_edge_row(&self, k: usize, off1: usize, off2: usize, i: usize, n: usize) -> (row: Vec<
        Term<T>,
    >) where T: Copy
        requires
            self.maps_wf(),
            self.coboundary_defined(),
            k < self.edges@.len(),
            i < self.edge_dim(k as int),
            off1 == self.vertex_prefix(self.edges@[k as int].v1 as int),
            off2 == self.vertex_prefix(self.edges@[k as int].v2 as int),
            n == self.spec_total_vertex_dim(),
        ensures
            row@ == self.coboundary_row(k as int, i as int),
    {
        let edge: &SheafEdge<T> = &self.edges[k];
        let c1 = edge.r1.ncols;
        let c2 = edge.r2.ncols;
        proof {
            assert(self.edge_in_range(k as int));
            assert(edge.r1.wf() && edge.r2.wf());
        }
        let mut row: Vec<Term<T>> = Vec::new();
        for c in 0..n
            invariant
                self.maps_wf(),
                self.coboundary_defined(),
                k < self.edges@.len(),
                i < self.edge_dim(k as int),
                edge == &self.edges@[k as int],
                c1 == edge.r1.ncols,
                c2 == edge.r2.ncols,
                edge.r1.wf(),
                edge.r2.wf(),
                self.edge_in_range(k as int),
                off1 == self.vertex_prefix(edge.v1 as int),
                off2 == self.vertex_prefix(edge.v2 as int),
                n == self.spec_total_vertex_dim(),
                row@ == Seq::new(c as nat, |a: int| self.coboundary_term(k as int, i as int, a)),
        {
            let plus = if off1 <= c && c - off1 < c1 {
                assert(edge.r1.rows@[i as int]@.len() == c1);
                Some(edge.r1.rows[i][c - off1])
            } else {
                None
            };
            let minus = if off2 <= c && c - off2 < c2 {
                assert(edge.r2.rows@[i as int]@.len() == c2);
                Some(edge.r2.rows[i][c - off2])
            } else {
                None
            };
            let t = match plus {
                Some(a) => match minus {
                    Some(b) => Term::PlusMinus(a, b),
                    None => Term::Plus(a),
                },
                None => match minus {
                    Some(b) => Term::Minus(b),
                    None => Term::Zero,
                },
            };
            assert(t == self.coboundary_term(k as int, i as int, c as int));
            row.push(t);
            assert(row@ =~= Seq::new(
                (c + 1) as nat,
                |a: int| self.coboundary_term(k as int, i as int, a),
            ));
        }
        assert(row@ =~= self.coboundary_row(k as int, i as int));
        row
    }

    /// Build the coboundary operator d₀ (total_edge_dim × total_vertex_dim).
    pub fn build_coboundary(&self) -> (d: DenseMatrix<Term<T>>) where T: Copy
        requires
            self.vertex_dims_fit(),
            self.maps_wf(),
            self.coboundary_defined(),
        ensures
            d.wf(),
            d.ncols == self.spec_total_vertex_dim(),
            d@ == self.spec_coboundary(),
            d@.len() == self.spec_total_edge_dim(),
    {
        let n = self.total_vertex_dim();
        let mut rows: Vec<Vec<Term<T>>> = Vec::new();
        for k in 0..self.edges.len()
            invariant
                self.vertex_dims_fit(),
                self.maps_wf(),
                self.coboundary_defined(),
                n == self.spec_total_vertex_dim(),
                rows@.len() == self.coboundary_rows(k as int).len(),
                forall|r: int|
                    0 <= r < rows@.len() ==> #[trigger] rows@[r]@ == self.coboundary_rows(k as int)[r],
        {
            let edge = &self.edges[k];
            proof {
                assert(self.edge_in_range(k as int));
            }
            let off1 = self.vertex_offset(edge.v1);
            let off2 = self.vertex_offset(edge.v2);
            let de = edge.r1.nrows();
            let ghost before = self.coboundary_rows(k as int);
            for i in 0..de
                invariant
                    self.vertex_dims_fit(),
                    self.maps_wf(),
                    self.coboundary_defined(),
                    k < self.edges@.len(),
                    de == self.edge_dim(k as int),
                    off1 == self.vertex_prefix(self.edges@[k as int].v1 as int),
                    off2 == self.vertex_prefix(self.edges@[k as int].v2 as int),
                    n == self.spec_total_vertex_dim(),
                    before == self.coboundary_rows(k as int),
                    rows@.len() == before.len() + i,
                    forall|r: int| 0 <= r < before.len() ==> #[trigger] rows@[r]@ == before[r],
                    forall|a: int|
                        0 <= a < i ==> #[trigger] rows@[before.len() + a]@ == self.coboundary_row(
                            k as int,
                            a,
                        ),
            {
                let row = self.build_edge_row(k, off1, off2, i, n);
                let ghost prev_rows = rows@;
                rows.push(row);
                assert forall|a: int| 0 <= a < i + 1 implies #[trigger] rows@[before.len() + a]@
                    == self.coboundary_row(k as int, a) by {
                    if a < i {
                        assert(rows@[before.len() + a] == prev_rows[before.len() + a]);
                    }
                }
            }
            let ghost after = self.coboundary_rows(k + 1);
            assert(after == before + self.edge_rows(k as int));
            assert forall|r: int| 0 <= r < rows@.len() implies #[trigger] rows@[r]@ == after[r] by {
                if r >= before.len() {
                    assert(rows@[before.len() + (r - before.len())]@ == self.coboundary_row(
                        k as int,
                        r - before.len(),
                    ));
                }
            }
        }
        proof {
            self.lemma_coboundary_rows(self.edges@.len() as int);
        }
        let d = DenseMatrix { ncols: n, rows };
        assert(d@ =~= self.spec_coboundary());
        assert forall|r: int| 0 <= r < d.rows.len() implies #[trigger] d.rows@[r]@.len() == d.ncols by {
            assert(d.rows@[r]@ == self.spec_coboundary()[r]);
        }
        d
    }
}

} // verus!
