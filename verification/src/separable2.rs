//! The separable neighbor kernel in 2D: two passes of word-wide sums over byte lanes.
//!
//! An 8×8 block unpacks into 8 lanes, one per row, with one counter per cell. The sum of a
//! cell's 3×3 box is the sum along Y of the sums along X. Cells beyond the blocks count as
//! zero.

use vstd::prelude::*;
use crate::bits::{bit_val, byte_of};
use crate::grid2::Grid2;
use crate::grid3::Grid3;
use crate::lanes::{
    acc_x_row,
    acc_z_lane,
    bytes_le,
    lane_of,
    lemma_lane_of,
    lemma_x_row,
    lemma_z_lane,
    lemma_zero_lane,
    x_row,
    z_lane,
};
use crate::layout2::{bit_index2, block_index2, in_blocks2};
use crate::layout3::{
    lemma_linear_decode,
    lemma_linear_index_bounds,
    lemma_linear_strides,
    lemma_linear_walk,
    linear_index,
    linear_x,
    linear_y,
    step_linear,
    volume,
    within,
};
use crate::separable3::lanes_le;
use crate::vector::UVec3;

verus! {

/// The bit stored for the cell `(x, y)`, as a number; zero beyond the blocks.
pub open spec fn cell_bit2(data: Seq<u64>, nb: UVec3, x: int, y: int) -> int {
    if in_blocks2(nb, x, y) {
        bit_val(data[block_index2(nb, x, y)], bit_index2(x, y))
    } else {
        0
    }
}

/// The counter that a lane buffer holds for the cell `(x, y)`; zero beyond the blocks.
pub open spec fn cell_counter2(buf: Seq<u64>, nb: UVec3, x: int, y: int) -> int {
    if in_blocks2(nb, x, y) {
        byte_of(buf[8 * block_index2(nb, x, y) + y % 8], x % 8)
    } else {
        0
    }
}

/// Lane `k` of the buffer that the pass along X makes of the blocks `data`.
pub open spec fn x2_expect(data: Seq<u64>, nb: UVec3, k: int) -> u64 {
    let blk = k / 8;
    let i = k % 8;
    x_row(
        lane_of(data[blk], i),
        if linear_x(nb, blk) > 0 {
            lane_of(data[blk - 1], i)
        } else {
            0
        },
        if linear_x(nb, blk) + 1 < nb.x {
            lane_of(data[blk + 1], i)
        } else {
            0
        },
    )
}

/// Lane `k` of the buffer that the pass along Y makes of the lane buffer `inp`.
pub open spec fn y2_expect(inp: Seq<u64>, nb: UVec3, k: int) -> u64 {
    let blk = k / 8;
    let i = k % 8;
    z_lane(
        inp[k],
        if i >= 1 {
            inp[k - 1]
        } else if linear_y(nb, blk) > 0 {
            inp[k - 8 * nb.x + 7]
        } else {
            0
        },
        if i < 7 {
            inp[k + 1]
        } else if linear_y(nb, blk) + 1 < nb.y {
            inp[k + 8 * nb.x - 7]
        } else {
            0
        },
    )
}

/// `out` holds, for every cell of the blocks, the number of alive cells among the cell and
/// its two neighbors along X.
pub open spec fn x2_summed(data: Seq<u64>, out: Seq<u64>, nb: UVec3) -> bool {
    forall|x: int, y: int|
        in_blocks2(nb, x, y) ==> #[trigger] cell_counter2(out, nb, x, y) == cell_bit2(
            data,
            nb,
            x - 1,
            y,
        ) + cell_bit2(data, nb, x, y) + cell_bit2(data, nb, x + 1, y)
}

/// `out` holds, for every cell of the blocks, the sum of the counters of `inp` for the cell
/// and its two neighbors along Y.
pub open spec fn y2_summed(inp: Seq<u64>, out: Seq<u64>, nb: UVec3) -> bool {
    forall|x: int, y: int|
        in_blocks2(nb, x, y) ==> #[trigger] cell_counter2(out, nb, x, y) == cell_counter2(
            inp,
            nb,
            x,
            y - 1,
        ) + cell_counter2(inp, nb, x, y) + cell_counter2(inp, nb, x, y + 1)
}

/// Where the bit of a cell stands: in which block, and at which byte of which lane.
proof fn lemma_bit_slot2(data: Seq<u64>, nb: UVec3, x: int, y: int)
    requires
        nb.z == 1,
        in_blocks2(nb, x, y),
    ensures
        0 <= linear_index(nb, x / 8, y / 8, 0) < volume(nb),
        cell_bit2(data, nb, x, y) == byte_of(
            lane_of(data[linear_index(nb, x / 8, y / 8, 0)], y % 8),
            x % 8,
        ),
{
    lemma_linear_index_bounds(nb, x / 8, y / 8, 0);
    lemma_lane_of(data[linear_index(nb, x / 8, y / 8, 0)], y % 8, x % 8);
}

proof fn lemma_x2_cell(data: Seq<u64>, out: Seq<u64>, nb: UVec3, x: int, y: int)
    requires
        nb.z == 1,
        data.len() == volume(nb),
        out.len() == 8 * volume(nb),
        forall|k: int| 0 <= k < out.len() ==> #[trigger] out[k] == x2_expect(data, nb, k),
        in_blocks2(nb, x, y),
    ensures
        cell_counter2(out, nb, x, y) == cell_bit2(data, nb, x - 1, y) + cell_bit2(data, nb, x, y)
            + cell_bit2(data, nb, x + 1, y),
{
    let bx = x / 8;
    let by = y / 8;
    let blk = linear_index(nb, bx, by, 0);
    let i = y % 8;
    let j = x % 8;
    let k = 8 * blk + i;
    lemma_bit_slot2(data, nb, x, y);
    lemma_linear_decode(nb, bx, by, 0);
    lemma_linear_strides(nb, bx, by, 0);
    lemma_linear_strides(nb, bx - 1, by, 0);
    let b = lane_of(data[blk], i);
    let xm = if bx > 0 {
        lane_of(data[blk - 1], i)
    } else {
        0
    };
    let xp = if bx + 1 < nb.x {
        lane_of(data[blk + 1], i)
    } else {
        0
    };
    assert(k / 8 == blk && k % 8 == i);
    assert(out[k] == x2_expect(data, nb, k));
    assert(out[k] == x_row(b, xm, xp));
    lemma_lane_of(data[blk], i, j);
    if bx > 0 {
        lemma_lane_of(data[blk - 1], i, j);
    } else {
        lemma_zero_lane(7);
    }
    if bx + 1 < nb.x {
        lemma_lane_of(data[blk + 1], i, j);
    } else {
        lemma_zero_lane(0);
    }
    lemma_x_row(b, xm, xp, j);
    let left = cell_bit2(data, nb, x - 1, y);
    let right = cell_bit2(data, nb, x + 1, y);
    if j != 0 {
        lemma_bit_slot2(data, nb, x - 1, y);
        assert((x - 1) / 8 == bx && (x - 1) % 8 == j - 1);
        assert(left == byte_of(b, j - 1));
    } else if bx > 0 {
        lemma_bit_slot2(data, nb, x - 1, y);
        assert((x - 1) / 8 == bx - 1 && (x - 1) % 8 == 7);
        assert(left == byte_of(xm, 7));
    } else {
        assert(left == byte_of(xm, 7));
    }
    if j != 7 {
        lemma_bit_slot2(data, nb, x + 1, y);
        assert((x + 1) / 8 == bx && (x + 1) % 8 == j + 1);
        assert(right == byte_of(b, j + 1));
    } else if bx + 1 < nb.x {
        lemma_bit_slot2(data, nb, x + 1, y);
        assert((x + 1) / 8 == bx + 1 && (x + 1) % 8 == 0);
        assert(right == byte_of(xp, 0));
    } else {
        assert(right == byte_of(xp, 0));
    }
}

proof fn lemma_y2_cell(inp: Seq<u64>, out: Seq<u64>, nb: UVec3, x: int, y: int)
    requires
        nb.z == 1,
        inp.len() == 8 * volume(nb),
        out.len() == 8 * volume(nb),
        lanes_le(inp, 85),
        forall|k: int| 0 <= k < out.len() ==> #[trigger] out[k] == y2_expect(inp, nb, k),
        in_blocks2(nb, x, y),
    ensures
        cell_counter2(out, nb, x, y) == cell_counter2(inp, nb, x, y - 1) + cell_counter2(
            inp,
            nb,
            x,
            y,
        ) + cell_counter2(inp, nb, x, y + 1),
{
    let bx = x / 8;
    let by = y / 8;
    let blk = linear_index(nb, bx, by, 0);
    let i = y % 8;
    let j = x % 8;
    let k = 8 * blk + i;
    lemma_linear_index_bounds(nb, bx, by, 0);
    lemma_linear_decode(nb, bx, by, 0);
    lemma_linear_strides(nb, bx, by, 0);
    lemma_linear_strides(nb, bx, by - 1, 0);
    assert(k / 8 == blk && k % 8 == i);
    assert(out[k] == y2_expect(inp, nb, k));
    lemma_zero_lane(j);
    if by > 0 {
        lemma_linear_index_bounds(nb, bx, by - 1, 0);
        assert(bytes_le(inp[k - 8 * nb.x + 7], 85));
    }
    if by + 1 < nb.y {
        lemma_linear_index_bounds(nb, bx, by + 1, 0);
        assert(bytes_le(inp[k + 8 * nb.x - 7], 85));
    }
    let ym = if i >= 1 {
        inp[k - 1]
    } else if by > 0 {
        inp[k - 8 * nb.x + 7]
    } else {
        0
    };
    let yp = if i < 7 {
        inp[k + 1]
    } else if by + 1 < nb.y {
        inp[k + 8 * nb.x - 7]
    } else {
        0
    };
    let below = cell_counter2(inp, nb, x, y - 1);
    let above = cell_counter2(inp, nb, x, y + 1);
    if i > 0 {
        assert((y - 1) / 8 == by && (y - 1) % 8 == i - 1);
        assert(below == byte_of(ym, j));
    } else if by > 0 {
        assert((y - 1) / 8 == by - 1 && (y - 1) % 8 == 7);
        assert(below == byte_of(ym, j));
    } else {
        assert(below == byte_of(ym, j));
    }
    if i < 7 {
        assert((y + 1) / 8 == by && (y + 1) % 8 == i + 1);
        assert(above == byte_of(yp, j));
    } else if by + 1 < nb.y {
        assert((y + 1) / 8 == by + 1 && (y + 1) % 8 == 0);
        assert(above == byte_of(yp, j));
    } else {
        assert(above == byte_of(yp, j));
    }
    assert(bytes_le(inp[k], 85));
    if i >= 1 {
        assert(bytes_le(inp[k - 1], 85));
    }
    if i < 7 {
        assert(bytes_le(inp[k + 1], 85));
    }
    lemma_z_lane(inp[k], ym, yp, j);
}

impl Grid2 {
    /// Pass along X: from the bit blocks `src` to the lane buffer `counts`.
    pub fn acc_x(src: &Vec<u64>, counts: &mut Vec<u64>, block_count: UVec3)
        requires
            block_count.z == 1,
            src@.len() == volume(block_count),
            old(counts)@.len() == 8 * src@.len(),
        ensures
            final(counts)@.len() == old(counts)@.len(),
            x2_summed(src@, final(counts)@, block_count),
            lanes_le(final(counts)@, 3),
    {
        let n = src.len();
        let mut pos = UVec3 { x: 0, y: 0, z: 0 };
        let mut ib: usize = 0;
        proof {
            lemma_linear_walk(block_count);
        }
        assert(counts.len() == 8 * n);
        while ib < n
            invariant
                n == src@.len(),
                n == volume(block_count),
                counts@.len() == 8 * n,
                8 * n <= usize::MAX,
                ib <= n,
                ib == linear_index(block_count, pos.x as int, pos.y as int, pos.z as int),
                ib < n ==> within(block_count, pos.x as int, pos.y as int, pos.z as int),
                forall|k: int|
                    0 <= k < 8 * ib ==> #[trigger] counts@[k] == x2_expect(src@, block_count, k),
                forall|k: int| 0 <= k < 8 * ib ==> bytes_le(#[trigger] counts@[k], 3),
            decreases n - ib,
        {
            proof {
                lemma_linear_walk(block_count);
                lemma_linear_decode(block_count, pos.x as int, pos.y as int, pos.z as int);
                lemma_linear_strides(block_count, pos.x as int, pos.y as int, pos.z as int);
                lemma_linear_strides(block_count, pos.x as int - 1, pos.y as int, pos.z as int);
                if pos.x + 1 < block_count.x {
                    lemma_linear_index_bounds(
                        block_count,
                        pos.x as int + 1,
                        pos.y as int,
                        pos.z as int,
                    );
                }
            }
            // Decompress the current block into 8 x 8 bytes, one row of cells per lane.
            let b = Grid3::decompress_block(src[ib]);
            // The X- block fills the left of the current block when it is shifted right.
            let xm = if pos.x > 0 {
                Grid3::decompress_block(src[ib - 1])
            } else {
                [0u64, 0, 0, 0, 0, 0, 0, 0]
            };
            // The X+ block fills the right of the current block when it is shifted left.
            let xp = if pos.x + 1 < block_count.x {
                Grid3::decompress_block(src[ib + 1])
            } else {
                [0u64, 0, 0, 0, 0, 0, 0, 0]
            };
            let mut i: usize = 0;
            while i < 8
                invariant
                    i <= 8,
                    ib < n,
                    n == src@.len(),
                    counts@.len() == 8 * n,
                    8 * n <= usize::MAX,
                    linear_x(block_count, ib as int) == pos.x,
                    forall|l: int| 0 <= l < 8 ==> #[trigger] b[l] == lane_of(src@[ib as int], l),
                    forall|l: int|
                        0 <= l < 8 ==> #[trigger] xm[l] == (if pos.x > 0 {
                            lane_of(src@[ib - 1], l)
                        } else {
                            0
                        }),
                    forall|l: int|
                        0 <= l < 8 ==> #[trigger] xp[l] == (if pos.x + 1 < block_count.x {
                            lane_of(src@[ib + 1], l)
                        } else {
                            0
                        }),
                    forall|k: int|
                        0 <= k < 8 * ib + i ==> #[trigger] counts@[k] == x2_expect(
                            src@,
                            block_count,
                            k,
                        ),
                    forall|k: int| 0 <= k < 8 * ib + i ==> bytes_le(#[trigger] counts@[k], 3),
                decreases 8 - i,
            {
                proof {
                    lemma_lane_of(src@[ib as int], i as int, 0);
                    if pos.x > 0 {
                        lemma_lane_of(src@[ib - 1], i as int, 0);
                    }
                    if pos.x + 1 < block_count.x {
                        lemma_lane_of(src@[ib + 1], i as int, 0);
                    }
                    lemma_zero_lane(0);
                }
                let lane = acc_x_row(b[i], xm[i], xp[i]);
                counts[8 * ib + i] = lane;
                i = i + 1;
            }
            pos = step_linear(block_count, pos);
            ib = ib + 1;
        }
        proof {
            assert forall|x: int, y: int| in_blocks2(block_count, x, y) implies #[trigger]
                cell_counter2(counts@, block_count, x, y) == cell_bit2(src@, block_count, x - 1, y)
                + cell_bit2(src@, block_count, x, y) + cell_bit2(src@, block_count, x + 1, y) by {
                lemma_x2_cell(src@, counts@, block_count, x, y);
            }
        }
    }

    /// Pass along Y: from the lane buffer `src` to the lane buffer `dst`.
    ///
    /// The counters of `src` may be anything up to 85, so that three of them fit one byte.
    /// After the pass along X they are at most 3, and the sums at most 9.
    pub fn acc_y(src: &Vec<u64>, dst: &mut Vec<u64>, block_count: UVec3)
        requires
            block_count.z == 1,
            src@.len() == 8 * volume(block_count),
            old(dst)@.len() == src@.len(),
            lanes_le(src@, 85),
        ensures
            final(dst)@.len() == old(dst)@.len(),
            y2_summed(src@, final(dst)@, block_count),
            lanes_le(src@, 3) ==> lanes_le(final(dst)@, 9),
    {
        let n = src.len() / 8;
        let dy = block_count.x as usize;
        let mut pos = UVec3 { x: 0, y: 0, z: 0 };
        let mut ib: usize = 0;
        proof {
            lemma_linear_walk(block_count);
        }
        assert(dst.len() == 8 * n);
        while ib < n
            invariant
                n == volume(block_count),
                src@.len() == 8 * n,
                dst@.len() == 8 * n,
                8 * n <= usize::MAX,
                dy == block_count.x,
                lanes_le(src@, 85),
                ib <= n,
                ib == linear_index(block_count, pos.x as int, pos.y as int, pos.z as int),
                ib < n ==> within(block_count, pos.x as int, pos.y as int, pos.z as int),
                forall|k: int|
                    0 <= k < 8 * ib ==> #[trigger] dst@[k] == y2_expect(src@, block_count, k),
                lanes_le(src@, 3) ==> (forall|k: int| 0 <= k < 8 * ib ==> bytes_le(#[trigger] dst@[k], 9)),
            decreases n - ib,
        {
            proof {
                lemma_linear_walk(block_count);
                lemma_linear_decode(block_count, pos.x as int, pos.y as int, pos.z as int);
                lemma_linear_strides(block_count, pos.x as int, pos.y as int, pos.z as int);
                lemma_linear_strides(block_count, pos.x as int, pos.y as int - 1, pos.z as int);
                if pos.y > 0 {
                    lemma_linear_index_bounds(
                        block_count,
                        pos.x as int,
                        pos.y as int - 1,
                        pos.z as int,
                    );
                }
                if pos.y + 1 < block_count.y {
                    lemma_linear_index_bounds(
                        block_count,
                        pos.x as int,
                        pos.y as int + 1,
                        pos.z as int,
                    );
                }
            }
            let base = 8 * ib;
            let mut i: usize = 0;
            while i < 8
                invariant
                    i <= 8,
                    ib < n,
                    base == 8 * ib,
                    src@.len() == 8 * n,
                    dst@.len() == 8 * n,
                    8 * n <= usize::MAX,
                    dy == block_count.x,
                    lanes_le(src@, 85),
                    linear_y(block_count, ib as int) == pos.y,
                    within(block_count, pos.x as int, pos.y as int, pos.z as int),
                    pos.y > 0 ==> ib >= dy,
                    pos.y + 1 < block_count.y ==> ib + dy < n,
                    forall|k: int|
                        0 <= k < 8 * ib + i ==> #[trigger] dst@[k] == y2_expect(
                            src@,
                            block_count,
                            k,
                        ),
                    lanes_le(src@, 3) ==> (forall|k: int| 0 <= k < 8 * ib + i ==> bytes_le(#[trigger] dst@[k], 9)),
                decreases 8 - i,
            {
                let b = src[base + i];
                // y- : the row before, in this block or at the end of the Y- block
                let ym = if i >= 1 {
                    src[base + i - 1]
                } else if pos.y > 0 {
                    src[base - 8 * dy + 7]
                } else {
                    0
                };
                // y+ : the row after, in this block or at the start of the Y+ block
                let yp = if i < 7 {
                    src[base + i + 1]
                } else if pos.y + 1 < block_count.y {
                    src[base + 8 * dy]
                } else {
                    0
                };
                proof {
                    lemma_zero_lane(0);
                    assert(bytes_le(src@[base + i], 85));
                    if lanes_le(src@, 3) {
                        assert(bytes_le(src@[base + i], 3));
                    }
                    if i >= 1 {
                        assert(bytes_le(src@[base + i - 1], 85));
                        if lanes_le(src@, 3) {
                            assert(bytes_le(src@[base + i - 1], 3));
                        }
                    } else if pos.y > 0 {
                        assert(bytes_le(src@[base - 8 * dy + 7], 85));
                        if lanes_le(src@, 3) {
                            assert(bytes_le(src@[base - 8 * dy + 7], 3));
                        }
                    }
                    if i < 7 {
                        assert(bytes_le(src@[base + i + 1], 85));
                        if lanes_le(src@, 3) {
                            assert(bytes_le(src@[base + i + 1], 3));
                        }
                    } else if pos.y + 1 < block_count.y {
                        assert(bytes_le(src@[base + 8 * dy], 85));
                        if lanes_le(src@, 3) {
                            assert(bytes_le(src@[base + 8 * dy], 3));
                        }
                    }
                }
                let lane = acc_z_lane(b, ym, yp);
                dst[base + i] = lane;
                i = i + 1;
            }
            pos = step_linear(block_count, pos);
            ib = ib + 1;
        }
        proof {
            assert forall|x: int, y: int| in_blocks2(block_count, x, y) implies #[trigger]
                cell_counter2(dst@, block_count, x, y) == cell_counter2(
                src@,
                block_count,
                x,
                y - 1,
            ) + cell_counter2(src@, block_count, x, y) + cell_counter2(
                src@,
                block_count,
                x,
                y + 1,
            ) by {
                lemma_y2_cell(src@, dst@, block_count, x, y);
            }
        }
    }
}

} // verus!
