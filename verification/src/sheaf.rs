//! The cellular sheaf: stalk dimensions per vertex and restriction maps per
//! edge, with the offsets that lay the stalks and edge spaces end to end.

use vstd::prelude::*;

use crate::matrix::DenseMatrix;

verus! {

/// A directed edge in the sheaf's underlying graph.
///
/// `r1` maps the stalk at `v1` into the edge space and `r2` maps the stalk at
/// `v2` into the edge space.
#[derive(Clone, Debug)]
pub struct SheafEdge<T> {
    pub v1: usize,
    pub v2: usize,
    pub r1: DenseMatrix<T>,
    pub r2: DenseMatrix<T>,
}

/// A cellular sheaf on a graph: a stalk dimension for each vertex and a pair
/// of restriction maps for each edge.
#[derive(Clone, Debug)]
pub struct CellularSheaf<T> {
    pub stalk_dims: Vec<usize>,
    pub edges: Vec<SheafEdge<T>>,
}

/// The sum of the first `k` numbers of `s`.
pub open spec fn prefix_sum(s: Seq<usize>, k: int) -> nat
    decreases k,
{
    if k <= 0 {
        0
    } else {
        prefix_sum(s, k - 1) + (s[k - 1] as nat)
    }
}

/// Prefix sums grow with the prefix.
pub proof fn lemma_prefix_sum_monotone(s: Seq<usize>, a: int, b: int)
    requires
        0 <= a <= b,
    ensures
        prefix_sum(s, a) <= prefix_sum(s, b),
    decreases b - a,
{
    if a < b {
        lemma_prefix_sum_monotone(s, a, b - 1);
    }
}

impl<T> SheafEdge<T> {
    /// Two edges hold the same endpoints and restriction maps.
    pub open spec fn same_as(&self, other: &SheafEdge<T>) -> bool {
        &&& self.v1 == other.v1
        &&& self.v2 == other.v2
        &&& self.r1.ncols == other.r1.ncols
        &&& self.r1@ == other.r1@
        &&& self.r2.ncols == other.r2.ncols
        &&& self.r2@ == other.r2@
    }
}

impl<T> CellularSheaf<T> {
    /// Offset of vertex `v` in the flattened vertex space: the sum of the
    /// stalk dimensions of the vertices before it.
    pub open spec fn vertex_prefix(&self, v: int) -> nat {
        prefix_sum(self.stalk_dims@, v)
    }

    /// Dimension of the whole vertex space.
    pub open spec fn spec_total_vertex_dim(&self) -> nat {
        prefix_sum(self.stalk_dims@, self.stalk_dims@.len() as int)
    }

    /// Dimension of the space of edge `k`: the number of rows of its `r1`.
    pub open spec fn edge_dim(&self, k: int) -> nat {
        self.edges@[k].r1@.len()
    }

    /// Offset of edge `k` in the flattened edge space.
    pub open spec fn edge_prefix(&self, k: int) -> nat
        decreases k,
    {
        if k <= 0 {
            0
        } else {
            self.edge_prefix(k - 1) + self.edge_dim(k - 1)
        }
    }

    /// Dimension of the whole edge space.
    pub open spec fn spec_total_edge_dim(&self) -> nat {
        self.edge_prefix(self.edges@.len() as int)
    }

    /// The total vertex dimension fits in a `usize`.
    pub open spec fn vertex_dims_fit(&self) -> bool {
        self.spec_total_vertex_dim() <= usize::MAX
    }

    /// The total edge dimension fits in a `usize`.
    pub open spec fn edge_dims_fit(&self) -> bool {
        self.spec_total_edge_dim() <= usize::MAX
    }

    /// Both total dimensions fit in a `usize`.
    pub open spec fn sizes_fit(&self) -> bool {
        &&& self.vertex_dims_fit()
        &&& self.edge_dims_fit()
    }

    /// Every restriction map stores rows of its declared width.
    pub open spec fn maps_wf(&self) -> bool {
        forall|k: int|
            #![trigger self.edges@[k]]
            0 <= k < self.edges@.len() ==> self.edges@[k].r1.wf() && self.edges@[k].r2.wf()
    }

    /// `other` holds the same stalks and edges as `self`.
    pub open spec fn same_as(&self, other: &CellularSheaf<T>) -> bool {
        &&& self.stalk_dims@ == other.stalk_dims@
        &&& self.edges@.len() == other.edges@.len()
        &&& forall|k: int|
            0 <= k < self.edges@.len() ==> #[trigger] self.edges@[k].same_as(&other.edges@[k])
    }

    /// Edge offsets grow with the edge index.
    pub proof fn lemma_edge_prefix_monotone(&self, a: int, b: int)
        requires
            0 <= a <= b,
        ensures
            self.edge_prefix(a) <= self.edge_prefix(b),
        decreases b - a,
    {
        if a < b {
            self.lemma_edge_prefix_monotone(a, b - 1);
        }
    }

    /// Create a sheaf with the given stalk dimensions and no edges.
    pub fn new(stalk_dims: Vec<usize>) -> (s: Self)
        ensures
            s.stalk_dims@ == stalk_dims@,
            s.edges@.len() == 0,
    {
        CellularSheaf { stalk_dims, edges: Vec::new() }
    }

    /// Add an edge with restriction maps `r1` (from `v1`) and `r2` (from `v2`).
    pub fn add_edge(&mut self, v1: usize, v2: usize, r1: DenseMatrix<T>, r2: DenseMatrix<T>)
        ensures
            final(self).stalk_dims@ == old(self).stalk_dims@,
            final(self).edges@ == old(self).edges@.push((SheafEdge { v1, v2, r1, r2 })),
    {
        self.edges.push(SheafEdge { v1, v2, r1, r2 });
    }

    /// Adding an edge leaves the vertex space alone and grows the edge space
    /// by the number of rows of the new edge's `r1`; the offsets of the edges
    /// already there do not move.
    pub proof fn lemma_add_edge_dims(&self, after: &CellularSheaf<T>, e: SheafEdge<T>)
        requires
            after.stalk_dims@ == self.stalk_dims@,
            after.edges@ == self.edges@.push(e),
        ensures
            after.spec_total_vertex_dim() == self.spec_total_vertex_dim(),
            after.spec_total_edge_dim() == self.spec_total_edge_dim() + e.r1@.len(),
            forall|k: int| 0 <= k <= self.edges@.len() ==> #[trigger] after.edge_prefix(k) == self.edge_prefix(k),
    {
        assert forall|k: int| 0 <= k <= self.edges@.len() implies #[trigger] after.edge_prefix(k) == self.edge_prefix(k) by {
            self.lemma_prefix_of_extension(after, k);
        }
        self.lemma_prefix_of_extension(after, self.edges@.len() as int);
        assert(after.edges@[self.edges@.len() as int] == e);
    }

    proof fn lemma_prefix_of_extension(&self, after: &CellularSheaf<T>, k: int)
        requires
            after.edges@.len() >= self.edges@.len(),
            forall|j: int| 0 <= j < self.edges@.len() ==> after.edges@[j] == self.edges@[j],
            0 <= k <= self.edges@.len(),
        ensures
            after.edge_prefix(k) == self.edge_prefix(k),
        decreases k,
    {
        if k > 0 {
            self.lemma_prefix_of_extension(after, k - 1);
            assert(after.edges@[k - 1] == self.edges@[k - 1]);
        }
    }

    /// Total dimension of the vertex stalk space.
    pub fn total_vertex_dim(&self) -> (n: usize)
        requires
            self.vertex_dims_fit(),
        ensures
            n == self.spec_total_vertex_dim(),
    {
        let mut sum: usize = 0;
        for i in 0..self.stalk_dims.len()
            invariant
                self.vertex_dims_fit(),
                sum == prefix_sum(self.stalk_dims@, i as int),
        {
            proof {
                lemma_prefix_sum_monotone(
                    self.stalk_dims@,
                    i + 1,
                    self.stalk_dims@.len() as int,
                );
            }
            sum = sum + self.stalk_dims[i];
        }
        sum
    }

    /// Total dimension of the edge space.
    pub fn total_edge_dim(&self) -> (m: usize)
        requires
            self.edge_dims_fit(),
        ensures
            m == self.spec_total_edge_dim(),
    {
        let mut sum: usize = 0;
        for k in 0..self.edges.len()
            invariant
                self.edge_dims_fit(),
                sum == self.edge_prefix(k as int),
        {
            proof {
                self.lemma_edge_prefix_monotone(k + 1, self.edges@.len() as int);
            }
            sum = sum + self.edges[k].r1.nrows();
        }
        sum
    }

    /// Offset (in the flattened vertex vector) for vertex `v`.
    pub fn vertex_offset(&self, v: usize) -> (off: usize)
        requires
            v <= self.stalk_dims@.len(),
            self.vertex_dims_fit(),
        ensures
            off == self.vertex_prefix(v as int),
    {
        let mut sum: usize = 0;
        for i in 0..v
            invariant
                v <= self.stalk_dims@.len(),
                self.vertex_dims_fit(),
                sum == prefix_sum(self.stalk_dims@, i as int),
        {
            proof {
                lemma_prefix_sum_monotone(
                    self.stalk_dims@,
                    i + 1,
                    self.stalk_dims@.len() as int,
                );
            }
            sum = sum + self.stalk_dims[i];
        }
        sum
    }

    /// Checks that the total vertex dimension fits in a `usize`.
    pub fn check_vertex_dims(&self) -> (b: bool)
        ensures
            b == self.vertex_dims_fit(),
    {
        let mut sum: usize = 0;
        for i in 0..self.stalk_dims.len()
            invariant
                sum == prefix_sum(self.stalk_dims@, i as int),
        {
            let d = self.stalk_dims[i];
            if sum > usize::MAX - d {
                proof {
                    lemma_prefix_sum_monotone(
                        self.stalk_dims@,
                        i + 1,
                        self.stalk_dims@.len() as int,
                    );
                }
                return false;
            }
            sum = sum + d;
        }
        true
    }

    /// Checks that the total edge dimension fits in a `usize`.
    pub fn check_edge_dims(&self) -> (b: bool)
        ensures
            b == self.edge_dims_fit(),
    {
        let mut sum: usize = 0;
        for k in 0..self.edges.len()
            invariant
                sum == self.edge_prefix(k as int),
        {
            let d = self.edges[k].r1.nrows();
            if sum > usize::MAX - d {
                proof {
                    self.lemma_edge_prefix_monotone(k + 1, self.edges@.len() as int);
                }
                return false;
            }
            sum = sum + d;
        }
        true
    }

    /// Checks that both total dimensions fit in a `usize`.
    pub fn check_sizes(&self) -> (b: bool)
        ensures
            b == self.sizes_fit(),
    {
        self.check_vertex_dims() && self.check_edge_dims()
    }

    /// Checks that every restriction map stores rows of its declared width.
    pub fn check_maps(&self) -> (b: bool)
        ensures
            b == self.maps_wf(),
    {
        for k in 0..self.edges.len()
            invariant
                forall|j: int|
                    #![trigger self.edges@[j]]
                    0 <= j < k ==> self.edges@[j].r1.wf() && self.edges@[j].r2.wf(),
        {
            let e = &self.edges[k];
            if !e.r1.is_wf() || !e.r2.is_wf() {
                assert(!(self.edges@[k as int].r1.wf() && self.edges@[k as int].r2.wf()));
                return false;
            }
        }
        true
    }

    /// The stalks lie end to end: vertex `v` occupies the offsets from
    /// `vertex_prefix(v)` up to `vertex_prefix(v + 1)`, the blocks of two
    /// distinct vertices do not overlap, and the last one ends at the total
    /// vertex dimension.
    pub proof fn lemma_vertex_blocks(&self, v: int, w: int)
        requires
            0 <= v < w <= self.stalk_dims@.len(),
        ensures
            self.vertex_prefix(v + 1) == self.vertex_prefix(v) + self.stalk_dims@[v],
            self.vertex_prefix(v) + self.stalk_dims@[v] <= self.vertex_prefix(w),
            self.vertex_prefix(w) <= self.spec_total_vertex_dim(),
    {
        lemma_prefix_sum_monotone(self.stalk_dims@, v + 1, w);
        lemma_prefix_sum_monotone(self.stalk_dims@, w, self.stalk_dims@.len() as int);
    }

    /// The edge spaces lie end to end in the same way: edge `k` occupies the
    /// rows from `edge_prefix(k)` up to `edge_prefix(k + 1)`, and distinct
    /// edges do not overlap.
    pub proof fn lemma_edge_blocks(&self, k: int, l: int)
        requires
            0 <= k < l <= self.edges@.len(),
        ensures
            self.edge_prefix(k + 1) == self.edge_prefix(k) + self.edge_dim(k),
            self.edge_prefix(k) + self.edge_dim(k) <= self.edge_prefix(l),
            self.edge_prefix(l) <= self.spec_total_edge_dim(),
    {
        self.lemma_edge_prefix_monotone(k + 1, l);
        self.lemma_edge_prefix_monotone(l, self.edges@.len() as int);
    }
}

impl<T: Copy> SheafEdge<T> {
    /// An entry-by-entry copy.
    pub fn copied(&self) -> (e: Self)
        requires
            self.r1.wf(),
            self.r2.wf(),
        ensures
            e.same_as(self),
            e.r1.wf(),
            e.r2.wf(),
    {
        SheafEdge { v1: self.v1, v2: self.v2, r1: self.r1.copied(), r2: self.r2.copied() }
    }
}

impl<T: Copy> CellularSheaf<T> {
    /// An entry-by-entry copy.
    pub fn copied(&self) -> (s: Self)
        requires
            self.maps_wf(),
        ensures
            s.same_as(self),
            s.maps_wf(),
    {
        let mut stalk_dims: Vec<usize> = Vec::new();
        for i in 0..self.stalk_dims.len()
            invariant
                stalk_dims@ == self.stalk_dims@.subrange(0, i as int),
        {
            stalk_dims.push(self.stalk_dims[i]);
            assert(stalk_dims@ =~= self.stalk_dims@.subrange(0, i + 1));
        }
        assert(stalk_dims@ =~= self.stalk_dims@);
        let mut edges: Vec<SheafEdge<T>> = Vec::new();
        for k in 0..self.edges.len()
            invariant
                self.maps_wf(),
                edges@.len() == k,
                forall|j: int| #![trigger edges@[j]] 0 <= j < k ==> edges@[j].same_as(&self.edges@[j]) && edges@[j].r1.wf() && edges@[j].r2.wf(),
        {
            assert(self.edges@[k as int].r1.wf());
            let e = self.edges[k].copied();
            edges.push(e);
        }
        CellularSheaf { stalk_dims, edges }
    }
}

impl<T> CellularSheaf<T> {
    /// Sheaves with the same stalks and edges have the same edge offsets.
    proof fn lemma_same_edge_prefix(&self, other: &CellularSheaf<T>, k: int)
        requires
            self.same_as(other),
            0 <= k <= self.edges@.len(),
        ensures
            self.edge_prefix(k) == other.edge_prefix(k),
        decreases k,
    {
        if k > 0 {
            self.lemma_same_edge_prefix(other, k - 1);
            assert(self.edges@[k - 1].same_as(&other.edges@[k - 1]));
        }
    }

    /// Sheaves with the same stalks and edges have the same dimensions and
    /// offsets.
    pub proof fn lemma_same_dims(&self, other: &CellularSheaf<T>)
        requires
            self.same_as(other),
        ensures
            self.spec_total_edge_dim() == other.spec_total_edge_dim(),
            self.spec_total_vertex_dim() == other.spec_total_vertex_dim(),
            self.sizes_fit() == other.sizes_fit(),
            self.vertex_dims_fit() == other.vertex_dims_fit(),
            forall|v: int| self.vertex_prefix(v) == other.vertex_prefix(v),
            forall|k: int| 0 <= k <= self.edges@.len() ==> self.edge_prefix(k) == #[trigger] other.edge_prefix(k),
    {
        self.lemma_same_edge_prefix(other, self.edges@.len() as int);
        assert forall|k: int| 0 <= k <= self.edges@.len() implies self.edge_prefix(k) == #[trigger] other.edge_prefix(k) by {
            self.lemma_same_edge_prefix(other, k);
        }
    }
}

} // verus!
