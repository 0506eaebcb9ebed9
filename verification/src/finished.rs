//! Completion counters: how many cells are determined, overall and per row,
//! column and block.
//!
//! The counters are maintained by the solver state, which pairs one `inc`
//! with every cell that becomes determined and one `dec` with every cell
//! that is cleared; they are never recomputed from the grid.

use crate::coord::{block_ix, block_of, in_grid, lemma_block_bound, Coord};
use vstd::prelude::*;

verus! {

/// Determined-cell counters for a grid of side `size`, tiled by blocks of
/// shape `shape` (so there are exactly `size` blocks).
pub struct Finished {
    current: usize,
    total: usize,
    rows: Vec<usize>,
    columns: Vec<usize>,
    blocks: Vec<usize>,
    shape: Coord,
}

impl Finished {
    /// The grid side the counters were sized for.
    pub closed spec fn sz(&self) -> usize {
        (self.shape.x * self.shape.y) as usize
    }

    /// The block shape the counters were sized for.
    pub closed spec fn shape_s(&self) -> Coord {
        self.shape
    }

    /// How many cells are determined.
    pub closed spec fn current_s(&self) -> usize {
        self.current
    }

    /// How many cells the grid has in all.
    pub closed spec fn total_s(&self) -> usize {
        self.total
    }

    /// Determined cells per row.
    pub closed spec fn rows_s(&self) -> Seq<usize> {
        self.rows@
    }

    /// Determined cells per column.
    pub closed spec fn columns_s(&self) -> Seq<usize> {
        self.columns@
    }

    /// Determined cells per block, indexed by flat block index.
    pub closed spec fn blocks_s(&self) -> Seq<usize> {
        self.blocks@
    }

    /// The counters have the right dimensions for their grid.
    pub closed spec fn wf(&self) -> bool {
        &&& self.shape.x >= 1
        &&& self.shape.y >= 1
        &&& self.shape.x * self.shape.y <= usize::MAX
        &&& self.sz() * self.sz() <= usize::MAX
        &&& self.total == self.sz() * self.sz()
        &&& self.rows@.len() == self.sz()
        &&& self.columns@.len() == self.sz()
        &&& self.blocks@.len() == self.sz()
    }

    /// The dimension facts that `wf` holds; spelled out for callers that
    /// reason outside this module.
    pub proof fn lemma_dims(&self)
        requires
            self.wf(),
        ensures
            self.shape_s().x >= 1,
            self.shape_s().y >= 1,
            self.sz() == self.shape_s().x * self.shape_s().y,
            self.sz() * self.sz() <= usize::MAX,
            self.total_s() == self.sz() * self.sz(),
            self.rows_s().len() == self.sz(),
            self.columns_s().len() == self.sz(),
            self.blocks_s().len() == self.sz(),
    {
    }

    /// Fresh counters for a grid of side `size` tiled by blocks of shape
    /// `blocks`, with nothing determined yet.
    pub fn new(size: usize, blocks: Coord) -> (r: Self)
        requires
            blocks.x >= 1,
            blocks.y >= 1,
            size == blocks.x * blocks.y,
            size * size <= usize::MAX,
        ensures
            r.wf(),
            r.sz() == size,
            r.shape_s() == blocks,
            r.current_s() == 0,
            r.total_s() == size * size,
            forall|i: int| 0 <= i < size ==> r.rows_s()[i] == 0,
            forall|i: int| 0 <= i < size ==> r.columns_s()[i] == 0,
            forall|i: int| 0 <= i < size ==> r.blocks_s()[i] == 0,
    {
        Self {
            current: 0,
            total: size * size,
            rows: zeroes(size),
            columns: zeroes(size),
            blocks: zeroes(size),
            shape: blocks,
        }
    }

    /// Counts one more determined cell, at `pos`.
    pub fn inc(&mut self, pos: Coord)
        requires
            old(self).wf(),
            in_grid(old(self).sz(), pos),
            old(self).current_s() < old(self).total_s(),
            old(self).rows_s()[pos.y as int] < old(self).total_s(),
            old(self).columns_s()[pos.x as int] < old(self).total_s(),
            old(self).blocks_s()[block_of(old(self).shape_s(), pos)] < old(self).total_s(),
        ensures
            final(self).wf(),
            final(self).sz() == old(self).sz(),
            final(self).shape_s() == old(self).shape_s(),
            final(self).total_s() == old(self).total_s(),
            final(self).current_s() == old(self).current_s() + 1,
            final(self).rows_s() == old(self).rows_s().update(
                pos.y as int,
                (old(self).rows_s()[pos.y as int] + 1) as usize,
            ),
            final(self).columns_s() == old(self).columns_s().update(
                pos.x as int,
                (old(self).columns_s()[pos.x as int] + 1) as usize,
            ),
            final(self).blocks_s() == old(self).blocks_s().update(
                block_of(old(self).shape_s(), pos),
                (old(self).blocks_s()[block_of(old(self).shape_s(), pos)] + 1) as usize,
            ),
    {
        proof {
            lemma_block_bound(self.sz(), self.shape, pos);
        }
        let size = self.rows.len();
        self.current = self.current + 1;
        let ry = self.rows[pos.y];
        self.rows.set(pos.y, ry + 1);
        let cx = self.columns[pos.x];
        self.columns.set(pos.x, cx + 1);
        let b = block_ix(size, self.shape, pos);
        let bv = self.blocks[b];
        self.blocks.set(b, bv + 1);
    }

    /// Counts one fewer determined cell, at `pos`.
    pub fn dec(&mut self, pos: Coord)
        requires
            old(self).wf(),
            in_grid(old(self).sz(), pos),
            old(self).current_s() >= 1,
            old(self).rows_s()[pos.y as int] >= 1,
            old(self).columns_s()[pos.x as int] >= 1,
            old(self).blocks_s()[block_of(old(self).shape_s(), pos)] >= 1,
        ensures
            final(self).wf(),
            final(self).sz() == old(self).sz(),
            final(self).shape_s() == old(self).shape_s(),
            final(self).total_s() == old(self).total_s(),
            final(self).current_s() == old(self).current_s() - 1,
            final(self).rows_s() == old(self).rows_s().update(
                pos.y as int,
                (old(self).rows_s()[pos.y as int] - 1) as usize,
            ),
            final(self).columns_s() == old(self).columns_s().update(
                pos.x as int,
                (old(self).columns_s()[pos.x as int] - 1) as usize,
            ),
            final(self).blocks_s() == old(self).blocks_s().update(
                block_of(old(self).shape_s(), pos),
                (old(self).blocks_s()[block_of(old(self).shape_s(), pos)] - 1) as usize,
            ),
    {
        proof {
            lemma_block_bound(self.sz(), self.shape, pos);
        }
        let size = self.rows.len();
        self.current = self.current - 1;
        let ry = self.rows[pos.y];
        self.rows.set(pos.y, ry - 1);
        let cx = self.columns[pos.x];
        self.columns.set(pos.x, cx - 1);
        let b = block_ix(size, self.shape, pos);
        let bv = self.blocks[b];
        self.blocks.set(b, bv - 1);
    }

    /// How many cells are determined.
    pub fn get_current(&self) -> (r: usize)
        ensures
            r == self.current_s(),
    {
        self.current
    }

    /// How many cells the grid has in all.
    pub fn get_total(&self) -> (r: usize)
        ensures
            r == self.total_s(),
    {
        self.total
    }

    /// Whether every cell is determined.
    pub fn done(&self) -> (r: bool)
        ensures
            r == (self.current_s() == self.total_s()),
    {
        self.current == self.total
    }
}

/// A vector of `n` zero counters.
fn zeroes(n: usize) -> (r: Vec<usize>)
    ensures
        r@.len() == n,
        forall|i: int| 0 <= i < n ==> r@[i] == 0,
{
    let mut r: Vec<usize> = Vec::new();
    let mut i: usize = 0;
    while i < n
        invariant
            i <= n,
            r@.len() == i,
            forall|j: int| 0 <= j < i ==> r@[j] == 0,
        decreases n - i,
    {
        r.push(0);
        i += 1;
    }
    r
}

} // verus!
