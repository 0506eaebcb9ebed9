//! Grid positions and the geometry of rows, columns and blocks.
//!
//! A grid of side `size` is tiled by rectangular blocks of `shape.x` columns
//! by `shape.y` rows, with `size == shape.x * shape.y`; there are `shape.y`
//! blocks across and `shape.x` blocks down, so there are exactly `size`
//! blocks. Cells are stored in a flat array in row-major order.

use vstd::arithmetic::mul::lemma_mul_is_commutative;
use vstd::arithmetic::div_mod::{
    lemma_div_pos_is_pos, lemma_fundamental_div_mod, lemma_fundamental_div_mod_converse,
    lemma_mod_bound, lemma_multiply_divide_lt,
};
use vstd::prelude::*;

verus! {

/// A grid position: `x` is the column, `y` is the row, both zero-based.
#[derive(Clone, Copy, Debug, PartialEq, Eq, Structural)]
pub struct Coord {
    pub x: usize,
    pub y: usize,
}

/// Whether `p` lies inside a grid of side `size`.
pub open spec fn in_grid(size: usize, p: Coord) -> bool {
    p.x < size && p.y < size
}

/// Row-major index of `p` in the flat cell array.
pub open spec fn flat_of(size: usize, p: Coord) -> int {
    p.y as int * size as int + p.x as int
}

/// The position whose row-major index is `i`.
pub open spec fn pos_of(size: usize, i: int) -> Coord {
    Coord { x: (i % (size as int)) as usize, y: (i / (size as int)) as usize }
}

pub open spec fn same_row(a: Coord, b: Coord) -> bool {
    a.y == b.y
}

pub open spec fn same_col(a: Coord, b: Coord) -> bool {
    a.x == b.x
}

/// Index of the block column that holds `p` (blocks are `shape.x` cells wide).
pub open spec fn block_col(shape: Coord, p: Coord) -> int {
    p.x as int / shape.x as int
}

/// Index of the block row that holds `p` (blocks are `shape.y` cells tall).
pub open spec fn block_row(shape: Coord, p: Coord) -> int {
    p.y as int / shape.y as int
}

/// Flat index of the block that holds `p`; blocks are numbered row-major,
/// `shape.y` to a row of blocks.
pub open spec fn block_of(shape: Coord, p: Coord) -> int {
    block_row(shape, p) * shape.y + block_col(shape, p)
}

pub open spec fn same_block(shape: Coord, a: Coord, b: Coord) -> bool {
    block_col(shape, a) == block_col(shape, b) && block_row(shape, a) == block_row(shape, b)
}

/// Two distinct positions that share a row, a column or a block constrain
/// each other.
pub open spec fn same_unit(shape: Coord, a: Coord, b: Coord) -> bool {
    a != b && (same_row(a, b) || same_col(a, b) || same_block(shape, a, b))
}

/// Distinct in-grid positions have distinct flat indices.
pub proof fn lemma_flat_injective(size: usize, a: Coord, b: Coord)
    requires
        in_grid(size, a),
        in_grid(size, b),
        flat_of(size, a) == flat_of(size, b),
    ensures
        a == b,
{
    lemma_fundamental_div_mod_converse(flat_of(size, a), size as int, a.y as int, a.x as int);
    lemma_fundamental_div_mod_converse(flat_of(size, b), size as int, b.y as int, b.x as int);
}

/// The flat index of an in-grid position lies below `size * size`.
pub proof fn lemma_flat_bound(size: usize, p: Coord)
    requires
        in_grid(size, p),
    ensures
        0 <= flat_of(size, p) < size * size,
{
    assert(p.y * size + p.x < size * size) by (nonlinear_arith)
        requires
            p.x < size,
            p.y < size,
    ;
}

/// `pos_of` inverts `flat_of`.
pub proof fn lemma_pos_of_flat(size: usize, i: int)
    requires
        size >= 1,
        0 <= i < size * size,
    ensures
        in_grid(size, pos_of(size, i)),
        flat_of(size, pos_of(size, i)) == i,
{
    lemma_fundamental_div_mod(i, size as int);
    lemma_mod_bound(i, size as int);
    lemma_div_pos_is_pos(i, size as int);
    lemma_mul_is_commutative(i / (size as int), size as int);
    assert(i / (size as int) < size) by (nonlinear_arith)
        requires
            size >= 1,
            0 <= i < size * size,
    ;
}

/// Executable form of `flat_of`.
pub fn flat_ix(size: usize, p: Coord) -> (r: usize)
    requires
        in_grid(size, p),
        size * size <= usize::MAX,
    ensures
        r == flat_of(size, p),
        r < size * size,
{
    proof {
        lemma_flat_bound(size, p);
    }
    p.y * size + p.x
}

/// Executable form of `pos_of`.
pub fn pos_at(size: usize, i: usize) -> (p: Coord)
    requires
        size >= 1,
        i < size * size,
    ensures
        p == pos_of(size, i as int),
        in_grid(size, p),
        flat_of(size, p) == i,
{
    proof {
        lemma_pos_of_flat(size, i as int);
    }
    Coord { x: i % size, y: i / size }
}

/// The block index of an in-grid position lies below `size`: there are as
/// many blocks as there are cells in one block.
pub proof fn lemma_block_bound(size: usize, shape: Coord, p: Coord)
    requires
        shape.x >= 1,
        shape.y >= 1,
        size == shape.x * shape.y,
        in_grid(size, p),
    ensures
        0 <= block_col(shape, p) < shape.y,
        0 <= block_row(shape, p) < shape.x,
        0 <= block_of(shape, p) < size,
{
    lemma_mul_is_commutative(shape.x as int, shape.y as int);
    lemma_div_pos_is_pos(p.x as int, shape.x as int);
    lemma_div_pos_is_pos(p.y as int, shape.y as int);
    lemma_multiply_divide_lt(p.x as int, shape.x as int, shape.y as int);
    lemma_multiply_divide_lt(p.y as int, shape.y as int, shape.x as int);
    assert(block_row(shape, p) * shape.y + block_col(shape, p) < shape.x * shape.y)
        by (nonlinear_arith)
        requires
            0 <= block_col(shape, p) < shape.y,
            0 <= block_row(shape, p) < shape.x,
    ;
}

/// Executable form of `block_of`.
pub fn block_ix(size: usize, shape: Coord, p: Coord) -> (r: usize)
    requires
        shape.x >= 1,
        shape.y >= 1,
        size == shape.x * shape.y,
        in_grid(size, p),
    ensures
        r == block_of(shape, p),
        r < size,
{
    proof {
        lemma_block_bound(size, shape, p);
        lemma_mul_is_commutative((p.y / shape.y) as int, shape.y as int);
        assert((p.y / shape.y) * shape.y <= block_of(shape, p));
    }
    (p.y / shape.y) * shape.y + p.x / shape.x
}

/// Executable form of `same_unit`.
pub fn same_unit_ix(shape: Coord, a: Coord, b: Coord) -> (r: bool)
    requires
        shape.x >= 1,
        shape.y >= 1,
    ensures
        r == same_unit(shape, a, b),
{
    if a == b {
        false
    } else if a.y == b.y || a.x == b.x {
        true
    } else {
        a.x / shape.x == b.x / shape.x && a.y / shape.y == b.y / shape.y
    }
}

} // verus!
