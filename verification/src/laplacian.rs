//! Block layout of the sheaf Laplacian L = d₀ᵀ d₀.
//!
//! Each edge e = (v1, v2) adds r1ᵀr1 to the (v1, v1) block, r2ᵀr2 to the
//! (v2, v2) block, and subtracts r1ᵀr2 from the (v1, v2) block and r2ᵀr1 from
//! the (v2, v1) block. This module computes where each of those products goes.

use vstd::prelude::*;

use crate::sheaf::CellularSheaf;

verus! {

/// Which product of restriction maps a block holds.
#[derive(Clone, Copy, Debug, PartialEq, Eq)]
pub enum BlockProduct {
    R1tR1,
    R2tR2,
    R1tR2,
    R2tR1,
}

/// One product of restriction maps of an edge, placed into L: it is added to
/// (or subtracted from, when `subtract`) the `nrows × ncols` block of L whose
/// top-left entry is at (`row_offset`, `col_offset`).
#[derive(Clone, Copy, Debug, PartialEq, Eq)]
pub struct LaplacianBlock {
    pub edge: usize,
    pub product: BlockProduct,
    pub row_offset: usize,
    pub col_offset: usize,
    pub nrows: usize,
    pub ncols: usize,
    pub subtract: bool,
}

/// The product with the factors' roles exchanged: (AᵀB)ᵀ = BᵀA.
pub open spec fn transposed_product(p: BlockProduct) -> BlockProduct {
    match p {
        BlockProduct::R1tR1 => BlockProduct::R1tR1,
        BlockProduct::R2tR2 => BlockProduct::R2tR2,
        BlockProduct::R1tR2 => BlockProduct::R2tR1,
        BlockProduct::R2tR1 => BlockProduct::R1tR2,
    }
}

/// The block placed at the mirror position across the diagonal, holding the
/// transposed product.
pub open spec fn mirror(b: LaplacianBlock) -> LaplacianBlock {
    LaplacianBlock {
        edge: b.edge,
        product: transposed_product(b.product),
        row_offset: b.col_offset,
        col_offset: b.row_offset,
        nrows: b.ncols,
        ncols: b.nrows,
        subtract: b.subtract,
    }
}

/// The left factor of the product is `r1` (the product is `r1ᵀ·…`).
pub open spec fn left_is_r1(p: BlockProduct) -> bool {
    p == BlockProduct::R1tR1 || p == BlockProduct::R1tR2
}

/// The right factor of the product is `r1` (the product is `…·r1`).
pub open spec fn right_is_r1(p: BlockProduct) -> bool {
    p == BlockProduct::R1tR1 || p == BlockProduct::R2tR1
}

impl<T> CellularSheaf<T> {
    /// Block `t` (0 to 3) of edge `k`, in the order r1ᵀr1, r2ᵀr2, r1ᵀr2, r2ᵀr1.
    pub open spec fn spec_laplacian_block(&self, k: int, t: int) -> LaplacianBlock {
        let e = self.edges@[k];
        let off1 = self.vertex_prefix(e.v1 as int) as usize;
        let off2 = self.vertex_prefix(e.v2 as int) as usize;
        let d1 = self.stalk_dims@[e.v1 as int];
        let d2 = self.stalk_dims@[e.v2 as int];
        if t == 0 {
            LaplacianBlock {
                edge: k as usize,
                product: BlockProduct::R1tR1,
                row_offset: off1,
                col_offset: off1,
                nrows: d1,
                ncols: d1,
                subtract: false,
            }
        } else if t == 1 {
            LaplacianBlock {
                edge: k as usize,
                product: BlockProduct::R2tR2,
                row_offset: off2,
                col_offset: off2,
                nrows: d2,
                ncols: d2,
                subtract: false,
            }
        } else if t == 2 {
            LaplacianBlock {
                edge: k as usize,
                product: BlockProduct::R1tR2,
                row_offset: off1,
                col_offset: off2,
                nrows: d1,
                ncols: d2,
                subtract: true,
            }
        } else {
            LaplacianBlock {
                edge: k as usize,
                product: BlockProduct::R2tR1,
                row_offset: off2,
                col_offset: off1,
                nrows: d2,
                ncols: d1,
                subtract: true,
            }
        }
    }

    /// Every edge joins two vertices of the sheaf.
    pub open spec fn endpoints_in_range(&self) -> bool {
        forall|k: int|
            #![trigger self.edges@[k]]
            0 <= k < self.edges@.len() ==> self.edges@[k].v1 < self.stalk_dims@.len()
                && self.edges@[k].v2 < self.stalk_dims@.len()
    }

    /// Checks that every edge joins two vertices of the sheaf.
    pub fn check_endpoints(&self) -> (b: bool)
        ensures
            b == self.endpoints_in_range(),
    {
        let len = self.stalk_dims.len();
        for k in 0..self.edges.len()
            invariant
                len == self.stalk_dims@.len(),
                forall|j: int|
                    #![trigger self.edges@[j]]
                    0 <= j < k ==> self.edges@[j].v1 < len && self.edges@[j].v2 < len,
        {
            let e = &self.edges[k];
            if e.v1 >= len || e.v2 >= len {
                assert(!(self.edges@[k as int].v1 < len && self.edges@[k as int].v2 < len));
                return false;
            }
        }
        true
    }

    /// The placements of all products that make up L, four per edge, edge by
    /// edge.
    pub fn laplacian_layout(&self) -> (blocks: Vec<LaplacianBlock>)
        requires
            self.vertex_dims_fit(),
            self.endpoints_in_range(),
        ensures
            blocks@.len() == 4 * self.edges@.len(),
            forall|k: int, t: int|
                0 <= k < self.edges@.len() && 0 <= t < 4 ==> blocks@[4 * k + t]
                    == #[trigger] self.spec_laplacian_block(k, t),
    {
        let mut blocks: Vec<LaplacianBlock> = Vec::new();
        for k in 0..self.edges.len()
            invariant
                self.vertex_dims_fit(),
                self.endpoints_in_range(),
                blocks@.len() == 4 * k,
                forall|kk: int, t: int|
                    0 <= kk < k && 0 <= t < 4 ==> blocks@[4 * kk + t]
                        == #[trigger] self.spec_laplacian_block(kk, t),
        {
            let edge = &self.edges[k];
            proof {
                assert(edge.v1 < self.stalk_dims@.len() && edge.v2 < self.stalk_dims@.len());
                self.lemma_vertex_blocks(edge.v1 as int, self.stalk_dims@.len() as int);
                self.lemma_vertex_blocks(edge.v2 as int, self.stalk_dims@.len() as int);
            }
            let off1 = self.vertex_offset(edge.v1);
            let off2 = self.vertex_offset(edge.v2);
            let d1 = self.stalk_dims[edge.v1];
            let d2 = self.stalk_dims[edge.v2];
            let ghost prev = blocks@;
            blocks.push(
                LaplacianBlock {
                    edge: k,
                    product: BlockProduct::R1tR1,
                    row_offset: off1,
                    col_offset: off1,
                    nrows: d1,
                    ncols: d1,
                    subtract: false,
                },
            );
            blocks.push(
                LaplacianBlock {
                    edge: k,
                    product: BlockProduct::R2tR2,
                    row_offset: off2,
                    col_offset: off2,
                    nrows: d2,
                    ncols: d2,
                    subtract: false,
                },
            );
            blocks.push(
                LaplacianBlock {
                    edge: k,
                    product: BlockProduct::R1tR2,
                    row_offset: off1,
                    col_offset: off2,
                    nrows: d1,
                    ncols: d2,
                    subtract: true,
                },
            );
            blocks.push(
                LaplacianBlock {
                    edge: k,
                    product: BlockProduct::R2tR1,
                    row_offset: off2,
                    col_offset: off1,
                    nrows: d2,
                    ncols: d1,
                    subtract: true,
                },
            );
            assert forall|kk: int, t: int|
                0 <= kk < k + 1 && 0 <= t < 4 implies blocks@[4 * kk + t]
                == #[trigger] self.spec_laplacian_block(kk, t) by {
                if kk < k {
                    assert(blocks@[4 * kk + t] == prev[4 * kk + t]);
                }
            }
        }
        blocks
    }

    /// Every block of L lies inside the total_vertex_dim × total_vertex_dim
    /// matrix.
    pub proof fn lemma_laplacian_block_in_range(&self, k: int, t: int)
        requires
            self.vertex_dims_fit(),
            self.endpoints_in_range(),
            0 <= k < self.edges@.len(),
            0 <= t < 4,
        ensures
            self.spec_laplacian_block(k, t).row_offset + self.spec_laplacian_block(k, t).nrows
                <= self.spec_total_vertex_dim(),
            self.spec_laplacian_block(k, t).col_offset + self.spec_laplacian_block(k, t).ncols
                <= self.spec_total_vertex_dim(),
    {
        let e = self.edges@[k];
        self.lemma_vertex_blocks(e.v1 as int, self.stalk_dims@.len() as int);
        self.lemma_vertex_blocks(e.v2 as int, self.stalk_dims@.len() as int);
    }

    /// What each block means: a block holding r_aᵀ·r_b (a, b ∈ {1, 2}) of
    /// edge `k` sits in the rows of the endpoint `v_a` and the columns of the
    /// endpoint `v_b`, is `d_{v_a} × d_{v_b}`, and is subtracted exactly when
    /// the two factors differ; and the four blocks of an edge hold the four
    /// different products. Together, the blocks of edge `k` add
    /// [r1 | −r2]ᵀ[r1 | −r2] into the (v1, v2) rows and columns of L.
    pub proof fn lemma_laplacian_block_meaning(&self, k: int, t: int)
        requires
            self.vertex_dims_fit(),
            self.endpoints_in_range(),
            0 <= k < self.edges@.len(),
            0 <= t < 4,
        ensures
            ({
                let e = self.edges@[k];
                let b = self.spec_laplacian_block(k, t);
                let va = if left_is_r1(b.product) { e.v1 } else { e.v2 };
                let vb = if right_is_r1(b.product) { e.v1 } else { e.v2 };
                &&& b.edge == k as usize
                &&& b.row_offset == self.vertex_prefix(va as int)
                &&& b.col_offset == self.vertex_prefix(vb as int)
                &&& b.nrows == self.stalk_dims@[va as int]
                &&& b.ncols == self.stalk_dims@[vb as int]
                &&& b.subtract == (left_is_r1(b.product) != right_is_r1(b.product))
            }),
            forall|u: int|
                0 <= u < 4 && u != t ==> self.spec_laplacian_block(k, u).product
                    != self.spec_laplacian_block(k, t).product,
    {
        let e = self.edges@[k];
        self.lemma_vertex_blocks(e.v1 as int, self.stalk_dims@.len() as int);
        self.lemma_vertex_blocks(e.v2 as int, self.stalk_dims@.len() as int);
        assert(self.spec_laplacian_block(k, 0).product == BlockProduct::R1tR1);
        assert(self.spec_laplacian_block(k, 1).product == BlockProduct::R2tR2);
        assert(self.spec_laplacian_block(k, 2).product == BlockProduct::R1tR2);
        assert(self.spec_laplacian_block(k, 3).product == BlockProduct::R2tR1);
        let b = self.spec_laplacian_block(k, t);
        assert(b.row_offset == self.vertex_prefix(if left_is_r1(b.product) { e.v1 } else { e.v2 } as int));
        assert(b.col_offset == self.vertex_prefix(if right_is_r1(b.product) { e.v1 } else { e.v2 } as int));
    }

    /// The layout of L is symmetric: the r1ᵀr1 and r2ᵀr2 blocks of an edge
    /// sit on the diagonal, and the subtracted r2ᵀr1 block is the mirror
    /// image of the subtracted r1ᵀr2 block.
    pub proof fn lemma_laplacian_layout_symmetric(&self, k: int)
        requires
            self.vertex_dims_fit(),
            self.endpoints_in_range(),
            0 <= k < self.edges@.len(),
        ensures
            mirror(self.spec_laplacian_block(k, 0)) == self.spec_laplacian_block(k, 0),
            mirror(self.spec_laplacian_block(k, 1)) == self.spec_laplacian_block(k, 1),
            mirror(self.spec_laplacian_block(k, 2)) == self.spec_laplacian_block(k, 3),
            mirror(self.spec_laplacian_block(k, 3)) == self.spec_laplacian_block(k, 2),
            !self.spec_laplacian_block(k, 0).subtract && !self.spec_laplacian_block(k, 1).subtract,
            self.spec_laplacian_block(k, 2).subtract && self.spec_laplacian_block(k, 3).subtract,
    {
    }
}

} // verus!
