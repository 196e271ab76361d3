//! Addressing of 3D cells in 4×4×4 bit blocks.
//!
//! A grid of `W × H × D` cells is covered by `ceil(W/4) × ceil(H/4) × ceil(D/4)` blocks,
//! stored X-major, then Y, then Z. Inside a block the cell at local `(x, y, z)` is bit
//! `x + 4y + 16z`.
//!
//! The same row-major order, all of X first, then Y, then Z, serves for whatever is laid out
//! over three dimensions: the blocks of a grid over its block counts, or one counter per
//! cell over the size of the grid. The functions named `linear_*` speak of that order over
//! any dimensions `dims`.

use vstd::prelude::*;
use vstd::arithmetic::div_mod::{
    lemma_fundamental_div_mod,
    lemma_fundamental_div_mod_converse,
    lemma_multiply_divide_lt,
    lemma_mod_bound,
};
use crate::vector::UVec3;

verus! {

/// Number of blocks along each axis for a grid of `size` cells.
pub open spec fn block_dims(size: UVec3) -> UVec3 {
    UVec3 {
        x: ((size.x + 3) / 4) as u32,
        y: ((size.y + 3) / 4) as u32,
        z: ((size.z + 3) / 4) as u32,
    }
}

/// Number of positions within `dims`.
pub open spec fn volume(dims: UVec3) -> int {
    dims.x * dims.y * dims.z
}

/// Whether `(x, y, z)` is a position within `dims`.
pub open spec fn within(dims: UVec3, x: int, y: int, z: int) -> bool {
    0 <= x < dims.x && 0 <= y < dims.y && 0 <= z < dims.z
}

/// Row-major index of the position `(x, y, z)` within `dims`.
pub open spec fn linear_index(dims: UVec3, x: int, y: int, z: int) -> int {
    (z * dims.y + y) * dims.x + x
}

/// Coordinates of the position with row-major index `i` within `dims`.
pub open spec fn linear_x(dims: UVec3, i: int) -> int {
    i % (dims.x as int)
}

pub open spec fn linear_y(dims: UVec3, i: int) -> int {
    (i / (dims.x as int)) % (dims.y as int)
}

pub open spec fn linear_z(dims: UVec3, i: int) -> int {
    (i / (dims.x as int)) / (dims.y as int)
}

/// Whether `(x, y, z)` lies in the space that the blocks cover.
pub open spec fn in_blocks(nb: UVec3, x: int, y: int, z: int) -> bool {
    0 <= x < 4 * nb.x && 0 <= y < 4 * nb.y && 0 <= z < 4 * nb.z
}

/// Storage index of the block that holds cell `(x, y, z)`.
pub open spec fn block_index(nb: UVec3, x: int, y: int, z: int) -> int {
    linear_index(nb, x / 4, y / 4, z / 4)
}

/// Bit of its block that holds cell `(x, y, z)`.
pub open spec fn bit_index(x: int, y: int, z: int) -> int {
    x % 4 + 4 * (y % 4) + 16 * (z % 4)
}

/// Coordinates of the cell held by bit `q` of the block stored at `blk`.
pub open spec fn cell_x(nb: UVec3, blk: int, q: int) -> int {
    4 * linear_x(nb, blk) + q % 4
}

pub open spec fn cell_y(nb: UVec3, blk: int, q: int) -> int {
    4 * linear_y(nb, blk) + (q / 4) % 4
}

pub open spec fn cell_z(nb: UVec3, blk: int, q: int) -> int {
    4 * linear_z(nb, blk) + q / 16
}

/// The row-major index of a position within `nb` is below the number of positions.
pub proof fn lemma_linear_index_bounds(nb: UVec3, bx: int, by: int, bz: int)
    requires
        within(nb, bx, by, bz),
    ensures
        0 <= linear_index(nb, bx, by, bz) < volume(nb),
{
    let nx = nb.x as int;
    let ny = nb.y as int;
    let nz = nb.z as int;
    assert(0 <= bz * ny + by <= (nz - 1) * ny + (ny - 1)) by (nonlinear_arith)
        requires
            0 <= bz <= nz - 1,
            0 <= by <= ny - 1,
    ;
    let row = bz * ny + by;
    assert((nz - 1) * ny + (ny - 1) == nz * ny - 1) by (nonlinear_arith);
    assert(0 <= row * nx + bx <= (nz * ny - 1) * nx + (nx - 1)) by (nonlinear_arith)
        requires
            0 <= row <= nz * ny - 1,
            0 <= bx <= nx - 1,
    ;
    assert((nz * ny - 1) * nx + (nx - 1) == nx * ny * nz - 1) by (nonlinear_arith);
}

/// Decoding the row-major index of a position gives its coordinates back.
pub proof fn lemma_linear_decode(nb: UVec3, bx: int, by: int, bz: int)
    requires
        within(nb, bx, by, bz),
    ensures
        linear_x(nb, linear_index(nb, bx, by, bz)) == bx,
        linear_y(nb, linear_index(nb, bx, by, bz)) == by,
        linear_z(nb, linear_index(nb, bx, by, bz)) == bz,
{
    let blk = linear_index(nb, bx, by, bz);
    lemma_fundamental_div_mod_converse(blk, nb.x as int, bz * nb.y + by, bx);
    lemma_fundamental_div_mod_converse(bz * nb.y + by, nb.y as int, bz, by);
}

/// Every index below the number of positions is that of the position it decodes to.
pub proof fn lemma_linear_encode(nb: UVec3, blk: int)
    requires
        0 <= blk < volume(nb),
    ensures
        within(nb, linear_x(nb, blk), linear_y(nb, blk), linear_z(nb, blk)),
        linear_index(nb, linear_x(nb, blk), linear_y(nb, blk), linear_z(nb, blk)) == blk,
{
    let nx = nb.x as int;
    let ny = nb.y as int;
    let nz = nb.z as int;
    assert(nx > 0 && ny > 0 && nz > 0) by (nonlinear_arith)
        requires
            0 <= blk < nx * ny * nz,
            nx >= 0,
            ny >= 0,
            nz >= 0,
    ;
    let row = blk / nx;
    lemma_fundamental_div_mod(blk, nx);
    lemma_fundamental_div_mod(row, ny);
    lemma_mod_bound(blk, nx);
    lemma_mod_bound(row, ny);
    assert(nx * (ny * nz) == nx * ny * nz) by (nonlinear_arith);
    lemma_multiply_divide_lt(blk, nx, ny * nz);
    lemma_multiply_divide_lt(row, ny, nz);
    assert(0 <= row) by (nonlinear_arith)
        requires
            blk == nx * row + blk % nx,
            0 <= blk,
            0 <= blk % nx < nx,
    ;
    assert(0 <= row / ny) by (nonlinear_arith)
        requires
            row == ny * (row / ny) + row % ny,
            0 <= row,
            0 <= row % ny < ny,
    ;
    assert((row / ny * ny + row % ny) * nx + blk % nx == blk) by (nonlinear_arith)
        requires
            blk == nx * row + blk % nx,
            row == ny * (row / ny) + row % ny,
    ;
}

/// Resolving a cell to block and bit, then reading the coordinates back from that pair,
/// gives the cell.
pub proof fn lemma_cell_round_trip(nb: UVec3, x: int, y: int, z: int)
    requires
        in_blocks(nb, x, y, z),
    ensures
        0 <= block_index(nb, x, y, z) < volume(nb),
        0 <= bit_index(x, y, z) < 64,
        cell_x(nb, block_index(nb, x, y, z), bit_index(x, y, z)) == x,
        cell_y(nb, block_index(nb, x, y, z), bit_index(x, y, z)) == y,
        cell_z(nb, block_index(nb, x, y, z), bit_index(x, y, z)) == z,
{
    lemma_linear_index_bounds(nb, x / 4, y / 4, z / 4);
    lemma_linear_decode(nb, x / 4, y / 4, z / 4);
}

/// Reading the coordinates of a stored bit, then resolving them, gives block and bit back.
pub proof fn lemma_index_round_trip(nb: UVec3, blk: int, q: int)
    requires
        0 <= blk < volume(nb),
        0 <= q < 64,
    ensures
        in_blocks(nb, cell_x(nb, blk, q), cell_y(nb, blk, q), cell_z(nb, blk, q)),
        block_index(nb, cell_x(nb, blk, q), cell_y(nb, blk, q), cell_z(nb, blk, q)) == blk,
        bit_index(cell_x(nb, blk, q), cell_y(nb, blk, q), cell_z(nb, blk, q)) == q,
{
    lemma_linear_encode(nb, blk);
}

/// Number of 4-cell blocks needed to cover `n` cells.
pub fn blocks_along(n: u32) -> (r: u32)
    ensures
        r == (n + 3) / 4,
{
    let partial: u32 = if n % 4 != 0 {
        1
    } else {
        0
    };
    n / 4 + partial
}

/// Number of blocks along each axis for a grid of `size` cells.
pub fn block_counts(size: UVec3) -> (nb: UVec3)
    ensures
        nb == block_dims(size),
{
    UVec3 { x: blocks_along(size.x), y: blocks_along(size.y), z: blocks_along(size.z) }
}

/// Number of positions within `nb`, where it fits the machine's index type.
pub fn volume_of(nb: UVec3) -> (n: usize)
    requires
        volume(nb) <= usize::MAX,
    ensures
        n == volume(nb),
{
    if nb.x == 0 || nb.y == 0 || nb.z == 0 {
        assert(nb.x * nb.y * nb.z == 0) by (nonlinear_arith)
            requires
                nb.x == 0 || nb.y == 0 || nb.z == 0,
        ;
        return 0;
    }
    assert(nb.x * nb.y <= nb.x * nb.y * nb.z) by (nonlinear_arith)
        requires
            nb.z >= 1,
            nb.x >= 0,
            nb.y >= 0,
    ;
    nb.x as usize * nb.y as usize * nb.z as usize
}

/// Row-major index of the position `pos` within `nb`.
pub fn linear_offset(nb: UVec3, pos: UVec3) -> (blk: usize)
    requires
        volume(nb) <= usize::MAX,
        within(nb, pos.x as int, pos.y as int, pos.z as int),
    ensures
        blk == linear_index(nb, pos.x as int, pos.y as int, pos.z as int),
        blk < volume(nb),
{
    proof {
        lemma_linear_index_bounds(nb, pos.x as int, pos.y as int, pos.z as int);
        assert(0 <= pos.z * nb.y <= pos.z * nb.y + pos.y) by (nonlinear_arith)
            requires
                pos.z >= 0,
                nb.y >= 0,
                pos.y >= 0,
        ;
        assert(pos.z * nb.y + pos.y <= (pos.z * nb.y + pos.y) * nb.x) by (nonlinear_arith)
            requires
                pos.z * nb.y + pos.y >= 0,
                nb.x >= 1,
        ;
    }
    (pos.z as usize * nb.y as usize + pos.y as usize) * nb.x as usize + pos.x as usize
}

/// The position that follows `pos` in row-major order; after the last one, the start of
/// the plane beyond `nb`.
pub fn step_linear(nb: UVec3, pos: UVec3) -> (next: UVec3)
    requires
        within(nb, pos.x as int, pos.y as int, pos.z as int),
    ensures
        linear_index(nb, next.x as int, next.y as int, next.z as int) == linear_index(
            nb,
            pos.x as int,
            pos.y as int,
            pos.z as int,
        ) + 1,
        within(nb, next.x as int, next.y as int, next.z as int) || (next.x == 0 && next.y == 0
            && next.z == nb.z),
{
    if pos.x + 1 < nb.x {
        UVec3 { x: pos.x + 1, y: pos.y, z: pos.z }
    } else if pos.y + 1 < nb.y {
        assert((pos.z * nb.y + (pos.y + 1)) * nb.x == (pos.z * nb.y + pos.y) * nb.x + nb.x)
            by (nonlinear_arith);
        UVec3 { x: 0, y: pos.y + 1, z: pos.z }
    } else {
        assert(((pos.z + 1) * nb.y) * nb.x == (pos.z * nb.y + pos.y) * nb.x + nb.x)
            by (nonlinear_arith)
            requires
                pos.y + 1 == nb.y,
        ;
        UVec3 { x: 0, y: 0, z: pos.z + 1 }
    }
}

/// The walk in row-major order starts at index 0 and ends, at the start of the plane
/// beyond `nb`, at the number of positions.
pub proof fn lemma_linear_walk(nb: UVec3)
    ensures
        linear_index(nb, 0, 0, 0) == 0,
        linear_index(nb, 0, 0, nb.z as int) == volume(nb),
        volume(nb) > 0 ==> within(nb, 0, 0, 0),
{
    assert((nb.z * nb.y + 0) * nb.x + 0 == nb.x * nb.y * nb.z) by (nonlinear_arith);
    assert((0 * nb.y + 0) * nb.x + 0 == 0) by (nonlinear_arith);
    assert(nb.x * nb.y * nb.z > 0 ==> nb.x > 0 && nb.y > 0 && nb.z > 0) by (nonlinear_arith)
        requires
            nb.x >= 0,
            nb.y >= 0,
            nb.z >= 0,
    ;
}

/// The row-major index moves by fixed strides from a position to the next one along each
/// axis.
pub proof fn lemma_linear_strides(nb: UVec3, bx: int, by: int, bz: int)
    ensures
        linear_index(nb, bx + 1, by, bz) == linear_index(nb, bx, by, bz) + 1,
        linear_index(nb, bx, by + 1, bz) == linear_index(nb, bx, by, bz) + nb.x,
        linear_index(nb, bx, by, bz + 1) == linear_index(nb, bx, by, bz) + nb.x * nb.y,
{
    assert((bz * nb.y + (by + 1)) * nb.x == (bz * nb.y + by) * nb.x + nb.x) by (nonlinear_arith);
    assert(((bz + 1) * nb.y + by) * nb.x == (bz * nb.y + by) * nb.x + nb.x * nb.y)
        by (nonlinear_arith);
}

} // verus!
