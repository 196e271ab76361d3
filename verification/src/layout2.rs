//! Addressing of 2D cells in 8×8 bit blocks.
//!
//! A grid of `W × H` cells is covered by `ceil(W/8) × ceil(H/8)` blocks, stored row by row.
//! Inside a block the cell at local `(x, y)` is bit `8y + x`.

use vstd::prelude::*;
use crate::layout3::{
    lemma_linear_decode,
    lemma_linear_encode,
    lemma_linear_index_bounds,
    linear_index,
    linear_x,
    linear_y,
    linear_z,
    volume,
    within,
};
use crate::vector::{UVec2, UVec3};

verus! {

/// Number of blocks along each axis for a grid of `size` cells, as dimensions of one plane.
pub open spec fn block_dims2(size: UVec2) -> UVec3 {
    UVec3 { x: ((size.x + 7) / 8) as u32, y: ((size.y + 7) / 8) as u32, z: 1 }
}

/// The extent of a 2D grid as dimensions of one plane.
pub open spec fn plane(size: UVec2) -> UVec3 {
    UVec3 { x: size.x, y: size.y, z: 1 }
}

/// Whether `(x, y)` lies in the space that the blocks cover.
pub open spec fn in_blocks2(nb: UVec3, x: int, y: int) -> bool {
    0 <= x < 8 * nb.x && 0 <= y < 8 * nb.y
}

/// Storage index of the block that holds cell `(x, y)`.
pub open spec fn block_index2(nb: UVec3, x: int, y: int) -> int {
    linear_index(nb, x / 8, y / 8, 0)
}

/// Bit of its block that holds cell `(x, y)`.
pub open spec fn bit_index2(x: int, y: int) -> int {
    8 * (y % 8) + x % 8
}

/// Coordinates of the cell held by bit `q` of the block stored at `blk`.
pub open spec fn cell_x2(nb: UVec3, blk: int, q: int) -> int {
    8 * linear_x(nb, blk) + q % 8
}

pub open spec fn cell_y2(nb: UVec3, blk: int, q: int) -> int {
    8 * linear_y(nb, blk) + q / 8
}

/// Resolving a cell to block and bit, then reading the coordinates back from that pair,
/// gives the cell.
pub proof fn lemma_cell_round_trip2(nb: UVec3, x: int, y: int)
    requires
        nb.z == 1,
        in_blocks2(nb, x, y),
    ensures
        0 <= block_index2(nb, x, y) < volume(nb),
        0 <= bit_index2(x, y) < 64,
        cell_x2(nb, block_index2(nb, x, y), bit_index2(x, y)) == x,
        cell_y2(nb, block_index2(nb, x, y), bit_index2(x, y)) == y,
{
    lemma_linear_index_bounds(nb, x / 8, y / 8, 0);
    lemma_linear_decode(nb, x / 8, y / 8, 0);
}

/// Reading the coordinates of a stored bit, then resolving them, gives block and bit back.
pub proof fn lemma_index_round_trip2(nb: UVec3, blk: int, q: int)
    requires
        nb.z == 1,
        0 <= blk < volume(nb),
        0 <= q < 64,
    ensures
        in_blocks2(nb, cell_x2(nb, blk, q), cell_y2(nb, blk, q)),
        block_index2(nb, cell_x2(nb, blk, q), cell_y2(nb, blk, q)) == blk,
        bit_index2(cell_x2(nb, blk, q), cell_y2(nb, blk, q)) == q,
{
    lemma_linear_encode(nb, blk);
    let bx = linear_x(nb, blk);
    let by = linear_y(nb, blk);
    assert(within(nb, bx, by, 0));
    assert(linear_index(nb, bx, by, 0) == linear_index(nb, bx, by, linear_z(nb, blk)));
}

/// Number of 8-cell blocks needed to cover `n` cells.
pub fn blocks_along2(n: u32) -> (r: u32)
    ensures
        r == (n + 7) / 8,
{
    let partial: u32 = if n % 8 != 0 {
        1
    } else {
        0
    };
    n / 8 + partial
}

/// Number of blocks along each axis for a grid of `size` cells.
pub fn block_counts2(size: UVec2) -> (nb: UVec3)
    ensures
        nb == block_dims2(size),
{
    UVec3 { x: blocks_along2(size.x), y: blocks_along2(size.y), z: 1 }
}

} // verus!
