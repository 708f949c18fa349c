//! Dimension bookkeeping of sheaf cohomology: H⁰ = ker(d₀), H¹ = coker(d₀).
//!
//! H⁰ captures global sections (agreements). H¹ captures structural
//! obstructions to agreement: the dimensions of disagreement that no amount of
//! communication can resolve. The ranks and kernel bases of d₀ and d₀ᵀ come
//! from an elimination over the scalars; this module turns them into the
//! cohomology of the sheaf and answers the questions asked of it.

use vstd::prelude::*;

use crate::coboundary::Term;
use crate::echelon::{elimination_ops, null_space, spec_echelon};
use crate::kernel::{
    evaluate_kernel_basis, free_columns, kernel_values, lemma_free_columns, lemma_kernel_basis_shape,
    lemma_kernel_nullity, spec_kernel_basis, strictly_increasing,
};
use crate::matrix::{column_of, map_matrix, transpose_of, DenseMatrix};
use crate::ops::{deterministic1, fn1, fn2, fn3};
use crate::row_space::{dot, exact_zero_test, field_ops, lemma_kernel_basis_annihilates};
use crate::rref::{exact_ops, rows_of_len, transitive};
use crate::sheaf::CellularSheaf;

verus! {

/// Sheaf cohomology: dimensions of H⁰ and H¹ with a basis of each.
#[derive(Clone, Debug)]
pub struct Cohomology<T> {
    /// Dimension of H⁰ (global sections / agreements).
    pub h0_dim: usize,
    /// Dimension of H¹ (obstructions / structural disagreements).
    pub h1_dim: usize,
    /// Basis for H⁰: columns are global section vectors.
    pub h0_basis: DenseMatrix<T>,
    /// Basis for H¹: columns are obstruction vectors in the edge cochain space.
    pub h1_basis: DenseMatrix<T>,
}

impl<T> Cohomology<T> {
    /// The bases are well formed and each has one column per dimension of
    /// its group: the basis of Hᵈ has h_d vectors.
    pub open spec fn wf(&self) -> bool {
        &&& self.h0_basis.wf()
        &&& self.h1_basis.wf()
        &&& self.h0_basis.ncols == self.h0_dim
        &&& self.h1_basis.ncols == self.h1_dim
    }
}

/// Which of the three ways of computing the cohomology applies to a sheaf.
#[derive(Clone, Copy, Debug, PartialEq, Eq)]
pub enum CohomologyCase {
    /// Both the vertex space and the edge space are zero-dimensional.
    Trivial,
    /// There are no edges: H⁰ is the whole vertex space and H¹ = 0.
    NoEdges,
    /// H⁰ and H¹ come from the kernels of d₀ and d₀ᵀ.
    Coboundary,
}

impl<T> CellularSheaf<T> {
    /// The case that applies to this sheaf.
    pub open spec fn spec_cohomology_case(&self) -> CohomologyCase {
        if self.spec_total_vertex_dim() == 0 && self.spec_total_edge_dim() == 0 {
            CohomologyCase::Trivial
        } else if self.edges@.len() == 0 {
            CohomologyCase::NoEdges
        } else {
            CohomologyCase::Coboundary
        }
    }

    /// Decide how the cohomology of this sheaf is computed.
    pub fn cohomology_case(&self) -> (c: CohomologyCase)
        requires
            self.sizes_fit(),
        ensures
            c == self.spec_cohomology_case(),
    {
        let total_v = self.total_vertex_dim();
        let total_e = self.total_edge_dim();
        if total_v == 0 && total_e == 0 {
            CohomologyCase::Trivial
        } else if self.edges.len() == 0 {
            CohomologyCase::NoEdges
        } else {
            CohomologyCase::Coboundary
        }
    }
}

/// The empty 0 × 0 matrix.
fn empty_matrix<T>() -> (m: DenseMatrix<T>)
    ensures
        m.wf(),
        m.ncols == 0,
        m@.len() == 0,
{
    DenseMatrix { ncols: 0, rows: Vec::new() }
}

impl<T: Copy> Cohomology<T> {
    /// Cohomology of the trivial sheaf: both groups are zero, with empty bases.
    pub fn trivial() -> (c: Self)
        ensures
            c.wf(),
            c.h0_dim == 0,
            c.h1_dim == 0,
            c.h0_basis.wf() && c.h0_basis.ncols == 0 && c.h0_basis@.len() == 0,
            c.h1_basis.wf() && c.h1_basis.ncols == 0 && c.h1_basis@.len() == 0,
    {
        Cohomology { h0_dim: 0, h1_dim: 0, h0_basis: empty_matrix(), h1_basis: empty_matrix() }
    }

    /// Cohomology of a sheaf without edges: H⁰ is the whole vertex space of
    /// dimension `total_v`, with the identity as basis, and H¹ = 0.
    pub fn without_edges(total_v: usize, zero: T, one: T) -> (c: Self)
        ensures
            c.wf(),
            c.h0_dim == total_v,
            c.h1_dim == 0,
            c.h0_basis.wf(),
            c.h0_basis.ncols == total_v,
            c.h0_basis@.len() == total_v,
            forall|i: int, j: int|
                0 <= i < total_v && 0 <= j < total_v ==> #[trigger] c.h0_basis@[i][j] == (if i
                    == j {
                    one
                } else {
                    zero
                }),
            c.h1_basis.wf() && c.h1_basis.ncols == 0 && c.h1_basis@.len() == 0,
    {
        Cohomology {
            h0_dim: total_v,
            h1_dim: 0,
            h0_basis: DenseMatrix::identity(total_v, zero, one),
            h1_basis: empty_matrix(),
        }
    }

    /// Cohomology from the kernels of d₀ (a `total_e × total_v` matrix of rank
    /// `rank_d0`, whose kernel basis `h0_basis` is `total_v × (total_v −
    /// rank_d0)`) and of d₀ᵀ (rank `rank_d0t`, kernel basis `h1_basis` of
    /// shape `total_e × (total_e − rank_d0t)`).
    ///
    /// H⁰ = ker(d₀) has dimension total_v − rank(d₀), and H¹ = coker(d₀) =
    /// ker(d₀ᵀ) has dimension total_e − rank(d₀ᵀ). When the two ranks agree,
    /// dim H⁰ − dim H¹ = total_v − total_e (the Euler characteristic).
    pub fn from_kernels(
        total_v: usize,
        total_e: usize,
        rank_d0: usize,
        h0_basis: DenseMatrix<T>,
        rank_d0t: usize,
        h1_basis: DenseMatrix<T>,
    ) -> (c: Self)
        requires
            rank_d0 <= total_v,
            rank_d0t <= total_e,
            h0_basis.wf(),
            h0_basis@.len() == total_v,
            h0_basis.ncols == total_v - rank_d0,
            h1_basis.wf(),
            h1_basis@.len() == total_e,
            h1_basis.ncols == total_e - rank_d0t,
        ensures
            c.wf(),
            c.h0_dim == total_v - rank_d0,
            c.h1_dim == total_e - rank_d0t,
            c.h0_basis == h0_basis,
            c.h1_basis == h1_basis,
            c.h0_dim <= total_v,
            c.h1_dim <= total_e,
            rank_d0 == rank_d0t ==> c.h0_dim + total_e == c.h1_dim + total_v,
    {
        Cohomology {
            h0_dim: total_v - rank_d0,
            h1_dim: total_e - rank_d0t,
            h0_basis,
            h1_basis,
        }
    }

    /// A basis for Hᵈ as a list of vectors: the columns of the H⁰ basis for
    /// `dim == 0`, of the H¹ basis for `dim == 1`, and nothing for any other
    /// `dim`. There are h_d vectors, so the list is empty exactly when the
    /// group is zero.
    pub fn cohomology_basis(&self, dim: usize) -> (basis: Vec<Vec<T>>)
        requires
            self.wf(),
        ensures
            dim == 0 ==> basis@.len() == self.h0_dim,
            dim == 1 ==> basis@.len() == self.h1_dim,
            dim == 0 ==> forall|j: int|
                0 <= j < basis@.len() ==> (#[trigger] basis@[j])@.len() == self.h0_basis@.len(),
            dim == 1 ==> forall|j: int|
                0 <= j < basis@.len() ==> (#[trigger] basis@[j])@.len() == self.h1_basis@.len(),
            dim == 0 ==> basis@.len() == self.h0_basis.ncols && forall|j: int|
                0 <= j < self.h0_basis.ncols ==> #[trigger] basis@[j]@ == column_of(
                    self.h0_basis@,
                    j,
                ),
            dim == 1 ==> basis@.len() == self.h1_basis.ncols && forall|j: int|
                0 <= j < self.h1_basis.ncols ==> #[trigger] basis@[j]@ == column_of(
                    self.h1_basis@,
                    j,
                ),
            dim > 1 ==> basis@.len() == 0,
    {
        let mat = if dim == 0 {
            &self.h0_basis
        } else if dim == 1 {
            &self.h1_basis
        } else {
            return Vec::new();
        };
        if mat.ncols() == 0 {
            return Vec::new();
        }
        mat.columns()
    }
}

/// The first `k` columns of `b` restricted to the increasing rows `sel` form
/// the `k × k` identity: column `f` holds `one` in row `sel[f]` and `zero` in
/// the other selected rows. Columns with this property are linearly
/// independent.
pub open spec fn identity_on_rows<T>(b: Seq<Seq<T>>, k: int, sel: Seq<int>, zero: T, one: T) -> bool {
    &&& sel.len() == k
    &&& forall|a: int, c: int| 0 <= a < c < k ==> sel[a] < sel[c]
    &&& forall|g: int| 0 <= g < k ==> 0 <= #[trigger] sel[g] < b.len()
    &&& forall|f: int, g: int|
        0 <= f < k && 0 <= g < k ==> #[trigger] b[sel[g]][f] == (if f == g {
            one
        } else {
            zero
        })
}

/// A kernel basis read off a reduced matrix is the identity on its free
/// coordinates.
proof fn lemma_kernel_values_identity<T>(
    w: Seq<Seq<T>>,
    pivots: Seq<usize>,
    n: int,
    zero: T,
    one: T,
    neg: spec_fn(T) -> T,
)
    requires
        0 <= n <= usize::MAX,
        strictly_increasing(pivots),
        forall|i: int| 0 <= i < pivots.len() ==> pivots[i] < n,
    ensures
        identity_on_rows(
            kernel_values(spec_kernel_basis(w, pivots, n), zero, one, neg),
            n - pivots.len(),
            Seq::new(free_columns(pivots, n).len(), |g: int| free_columns(pivots, n)[g] as int),
            zero,
            one,
        ),
{
    let free = free_columns(pivots, n);
    let sel = Seq::new(free.len(), |g: int| free[g] as int);
    let kb = spec_kernel_basis(w, pivots, n);
    let b = kernel_values(kb, zero, one, neg);
    lemma_kernel_nullity(pivots, n);
    lemma_free_columns(pivots, n);
    lemma_kernel_basis_shape(w, pivots, n);
    assert forall|g: int| 0 <= g < free.len() implies 0 <= #[trigger] sel[g] < b.len() by {
        assert(free[g] < n);
    }
    assert forall|f: int, g: int| 0 <= f < free.len() && 0 <= g < free.len() implies #[trigger] b[sel[g]][f]
        == (if f == g {
        one
    } else {
        zero
    }) by {
        assert(free[g] < n);
        assert(kb[free[g] as int].len() == free.len());
    }
}

/// The `n × n` identity matrix built from `zero` and `one`.
pub open spec fn identity_of<T>(n: nat, zero: T, one: T) -> Seq<Seq<T>> {
    Seq::new(n, |i: int| Seq::new(n, |j: int| if i == j { one } else { zero }))
}

impl<T> CellularSheaf<T> {
    /// d₀ with each symbolic term replaced by its value.
    pub open spec fn coboundary_values(&self, value: spec_fn(Term<T>) -> T) -> Seq<Seq<T>> {
        map_matrix(self.spec_coboundary(), value)
    }

    /// The cohomology of the sheaf as (dim H⁰, dim H¹, H⁰ basis, H¹ basis),
    /// computed with the given scalars and operations:
    /// - trivial sheaf: both groups zero, with empty bases;
    /// - no edges: H⁰ is the whole vertex space with the identity as basis,
    ///   and H¹ = 0;
    /// - otherwise H⁰ = ker(d₀), of dimension total_v − rank(d₀), and
    ///   H¹ = coker(d₀) = ker(d₀ᵀ), of dimension total_e − rank(d₀ᵀ), the
    ///   ranks and kernel bases being those the elimination finds.
    pub open spec fn spec_cohomology(
        &self,
        tol: T,
        zero: T,
        one: T,
        value: spec_fn(Term<T>) -> T,
        neg: spec_fn(T) -> T,
        mag: spec_fn(T) -> T,
        gt: spec_fn(T, T) -> bool,
        div: spec_fn(T, T) -> T,
        sm: spec_fn(T, T, T) -> T,
    ) -> (nat, nat, Seq<Seq<T>>, Seq<Seq<T>>) {
        let tv = self.spec_total_vertex_dim();
        let te = self.spec_total_edge_dim();
        match self.spec_cohomology_case() {
            CohomologyCase::Trivial => (0, 0, seq![], seq![]),
            CohomologyCase::NoEdges => (tv, 0, identity_of(tv, zero, one), seq![]),
            CohomologyCase::Coboundary => {
                let d0 = self.coboundary_values(value);
                let e0 = spec_echelon(d0, tv as int, tol, zero, mag, gt, div, sm);
                let e1 = spec_echelon(transpose_of(d0, tv as int), te as int, tol, zero, mag, gt, div, sm);
                (
                    (tv - e0.1.len()) as nat,
                    (te - e1.1.len()) as nat,
                    kernel_values(spec_kernel_basis(e0.0, e0.1, tv as int), zero, one, neg),
                    kernel_values(spec_kernel_basis(e1.0, e1.1, te as int), zero, one, neg),
                )
            },
        }
    }
}

impl<T> CellularSheaf<T> {
    /// Over an exact field, the H⁰ basis lies in ker d₀ (each basis vector
    /// is a global section: d₀·v = 0) and the H¹ basis lies in ker d₀ᵀ (each
    /// obstruction vector h has d₀ᵀ·h = 0).
    pub proof fn lemma_cohomology_bases_in_kernels(
        &self,
        tol: T,
        zero: T,
        one: T,
        value: spec_fn(Term<T>) -> T,
        neg: spec_fn(T) -> T,
        mag: spec_fn(T) -> T,
        gt: spec_fn(T, T) -> bool,
        plus: spec_fn(T, T) -> T,
        times: spec_fn(T, T) -> T,
        div: spec_fn(T, T) -> T,
        sm: spec_fn(T, T, T) -> T,
    )
        requires
            self.sizes_fit(),
            self.spec_cohomology_case() == CohomologyCase::Coboundary,
            transitive(gt),
            exact_zero_test(zero, tol, mag, gt),
            exact_ops(zero, one, div, sm),
            field_ops(zero, one, plus, times, neg, div, sm),
        ensures
            ({
                let c = self.spec_cohomology(tol, zero, one, value, neg, mag, gt, div, sm);
                let d0 = self.coboundary_values(value);
                let tv = self.spec_total_vertex_dim() as int;
                let te = self.spec_total_edge_dim() as int;
                &&& forall|f: int, r: int|
                    0 <= f < c.0 && 0 <= r < te ==> #[trigger] dot(d0[r], column_of(c.2, f), tv, zero, plus, times)
                        == zero
                &&& forall|f: int, r: int|
                    0 <= f < c.1 && 0 <= r < tv ==> #[trigger] dot(
                        transpose_of(d0, tv)[r],
                        column_of(c.3, f),
                        te,
                        zero,
                        plus,
                        times,
                    ) == zero
            }),
    {
        let d0 = self.coboundary_values(value);
        let tv = self.spec_total_vertex_dim() as int;
        let te = self.spec_total_edge_dim() as int;
        self.lemma_coboundary_rows(self.edges@.len() as int);
        assert(d0.len() == te);
        assert forall|r: int| 0 <= r < d0.len() implies #[trigger] d0[r].len() == tv by {
            assert(self.spec_coboundary()[r].len() == tv);
        }
        assert(rows_of_len(d0, tv));
        let d0t = transpose_of(d0, tv);
        assert forall|r: int| 0 <= r < d0t.len() implies #[trigger] d0t[r].len() == te by {}
        assert(rows_of_len(d0t, te));
        lemma_kernel_basis_annihilates(d0, tv, tol, zero, one, mag, gt, plus, times, neg, div, sm);
        lemma_kernel_basis_annihilates(d0t, te, tol, zero, one, mag, gt, plus, times, neg, div, sm);
        let c = self.spec_cohomology(tol, zero, one, value, neg, mag, gt, div, sm);
        let e0 = spec_echelon(d0, tv, tol, zero, mag, gt, div, sm);
        let e1 = spec_echelon(d0t, te, tol, zero, mag, gt, div, sm);
        assert(c.0 == tv - e0.1.len());
        assert(c.1 == te - e1.1.len());
        assert(c.2 == kernel_values(spec_kernel_basis(e0.0, e0.1, tv), zero, one, neg));
        assert(c.3 == kernel_values(spec_kernel_basis(e1.0, e1.1, te), zero, one, neg));
    }
}

impl<T: Copy> CellularSheaf<T> {
    /// Compute sheaf cohomology: H⁰ = ker(d₀) (global sections, perfect
    /// agreement) and H¹ = coker(d₀) = ker(d₀ᵀ) (obstructions: disagreements
    /// with no upstream cause).
    ///
    /// `value` gives the scalar of each symbolic term of d₀, `negate` negates
    /// a scalar, and the remaining operations drive the elimination (see
    /// [`crate::echelon::reduce_to_echelon`]).
    pub fn cohomology<V, N, A, G, D, S>(
        &self,
        tol: T,
        zero: T,
        one: T,
        value: V,
        negate: N,
        magnitude: A,
        greater: G,
        divide: D,
        sub_mul: S,
    ) -> (c: Cohomology<T>) where
        V: Fn(Term<T>) -> T,
        N: Fn(T) -> T + Copy,
        A: Fn(T) -> T + Copy,
        G: Fn(T, T) -> bool + Copy,
        D: Fn(T, T) -> T + Copy,
        S: Fn(T, T, T) -> T + Copy,

        requires
            self.sizes_fit(),
            self.maps_wf(),
            self.coboundary_defined(),
            forall|t: Term<T>| value.requires((t,)),
            deterministic1(value),
            forall|x: T| negate.requires((x,)),
            deterministic1(negate),
            elimination_ops(magnitude, greater, divide, sub_mul),
        ensures
            c.wf(),
            (c.h0_dim as nat, c.h1_dim as nat, c.h0_basis@, c.h1_basis@) == self.spec_cohomology(
                tol,
                zero,
                one,
                fn1(value),
                fn1(negate),
                fn1(magnitude),
                fn2(greater),
                fn2(divide),
                fn3(sub_mul),
            ),
            c.h0_dim <= self.spec_total_vertex_dim(),
            c.h1_dim <= self.spec_total_edge_dim(),
            c.h0_basis@.len() == self.spec_total_vertex_dim(),
            c.h1_basis@.len() == self.spec_total_edge_dim(),
            self.spec_cohomology_case() == CohomologyCase::Trivial ==> c.h0_dim == 0 && c.h1_dim == 0,
            self.spec_cohomology_case() == CohomologyCase::NoEdges ==> c.h0_dim
                == self.spec_total_vertex_dim() && c.h1_dim == 0,
            self.spec_cohomology_case() == CohomologyCase::NoEdges ==> forall|i: int, j: int|
                0 <= i < self.spec_total_vertex_dim() && 0 <= j < self.spec_total_vertex_dim()
                    ==> #[trigger] c.h0_basis@[i][j] == (if i == j {
                    one
                } else {
                    zero
                }),
            exists|sel: Seq<int>| #[trigger] identity_on_rows(c.h0_basis@, c.h0_dim as int, sel, zero, one),
            exists|sel: Seq<int>| #[trigger] identity_on_rows(c.h1_basis@, c.h1_dim as int, sel, zero, one),
    {
        match self.cohomology_case() {
            CohomologyCase::Trivial => {
                let c = Cohomology::trivial();
                assert(identity_on_rows(c.h0_basis@, 0, seq![], zero, one));
                assert(identity_on_rows(c.h1_basis@, 0, seq![], zero, one));
                c
            },
            CohomologyCase::NoEdges => {
                let c = Cohomology::without_edges(self.total_vertex_dim(), zero, one);
                let ghost id = identity_of(self.spec_total_vertex_dim(), zero, one);
                assert forall|i: int| 0 <= i < c.h0_basis@.len() implies #[trigger] c.h0_basis@[i] =~= id[i] by {
                    assert(c.h0_basis.rows@[i]@.len() == c.h0_basis.ncols);
                }
                assert(c.h0_basis@ =~= id);
                assert(c.h1_basis@ =~= seq![]);
                let ghost all = Seq::new(c.h0_dim as nat, |g: int| g);
                assert(identity_on_rows(c.h0_basis@, c.h0_dim as int, all, zero, one));
                assert(identity_on_rows(c.h1_basis@, 0, seq![], zero, one));
                c
            },
            CohomologyCase::Coboundary => {
                let tv = self.total_vertex_dim();
                let te = self.total_edge_dim();
                let symbolic = self.build_coboundary();
                let d0 = symbolic.map_entries(value);
                let ns0 = null_space(&d0, tol, zero, magnitude, greater, divide, sub_mul);
                let d0t = d0.transpose();
                let ns1 = null_space(&d0t, tol, zero, magnitude, greater, divide, sub_mul);
                let b0 = evaluate_kernel_basis(&ns0.basis, zero, one, negate);
                let b1 = evaluate_kernel_basis(&ns1.basis, zero, one, negate);
                proof {
                    let neg = fn1(negate);
                    lemma_kernel_values_identity(ns0.reduced@, ns0.pivot_cols@, tv as int, zero, one, neg);
                    lemma_kernel_values_identity(ns1.reduced@, ns1.pivot_cols@, te as int, zero, one, neg);
                }
                Cohomology::from_kernels(tv, te, ns0.rank, b0, ns1.rank, b1)
            },
        }
    }
}

/// Can agents on this sheaf ever reach agreement? True iff H¹ = 0.
pub fn can_agree<T>(coh: &Cohomology<T>) -> (b: bool)
    ensures
        b <==> coh.h1_dim == 0,
{
    coh.h1_dim == 0
}

} // verus!
