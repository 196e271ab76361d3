//! The separable neighbor kernel: three passes of word-wide sums over byte lanes.
//!
//! The sum of a cell's 3×3×3 box is the sum along Z of the sums along Y of the sums along X.
//! Each pass adds, to every counter, the counters before and after it along one axis, eight
//! counters at a time, and stitches in the faces of the neighbor blocks. Cells beyond the
//! blocks count as zero.

use vstd::prelude::*;
use crate::bits::{bit_val, byte_of};
use crate::grid3::Grid3;
use crate::lanes::{
    acc_x_lane,
    acc_y_lane_even,
    acc_y_lane_odd,
    acc_z_lane,
    bytes_le,
    lane_of,
    lemma_lane_of,
    lemma_x_lane,
    lemma_y_lane,
    lemma_z_lane,
    lemma_zero_lane,
    x_lane,
    y_lane_even,
    y_lane_odd,
    z_lane,
};
use crate::layout3::{
    bit_index,
    block_index,
    in_blocks,
    lemma_linear_decode,
    lemma_linear_index_bounds,
    lemma_linear_strides,
    lemma_linear_walk,
    linear_index,
    linear_x,
    linear_y,
    linear_z,
    step_linear,
    volume,
    within,
};
use crate::vector::UVec3;

verus! {

/// The bit stored for the cell `(x, y, z)`, as a number; zero beyond the blocks.
pub open spec fn cell_bit(data: Seq<u64>, nb: UVec3, x: int, y: int, z: int) -> int {
    if in_blocks(nb, x, y, z) {
        bit_val(data[block_index(nb, x, y, z)], bit_index(x, y, z))
    } else {
        0
    }
}

/// The counter that a lane buffer holds for the cell `(x, y, z)`; zero beyond the blocks.
pub open spec fn cell_counter(buf: Seq<u64>, nb: UVec3, x: int, y: int, z: int) -> int {
    if in_blocks(nb, x, y, z) {
        byte_of(
            buf[8 * block_index(nb, x, y, z) + bit_index(x, y, z) / 8],
            bit_index(x, y, z) % 8,
        )
    } else {
        0
    }
}

/// Lane `k` of the buffer that the pass along X makes of the blocks `data`.
pub open spec fn x_expect(data: Seq<u64>, nb: UVec3, k: int) -> u64 {
    let blk = k / 8;
    let i = k % 8;
    x_lane(
        lane_of(data[blk], i),
        if linear_x(nb, blk) > 0 {
            lane_of(data[blk - 1], i)
        } else {
            0
        },
        if linear_x(nb, blk) + 1 < nb.x {
            lane_of(data[blk + 1], i)
        } else {
            0
        },
    )
}

/// Every lane of `buf` holds counters of at most `m`.
pub open spec fn lanes_le(buf: Seq<u64>, m: u64) -> bool {
    forall|k: int| 0 <= k < buf.len() ==> bytes_le(#[trigger] buf[k], m)
}

/// `out` holds, for every cell of the blocks, the number of alive cells among the cell and
/// its two neighbors along X.
pub open spec fn x_summed(data: Seq<u64>, out: Seq<u64>, nb: UVec3) -> bool {
    forall|x: int, y: int, z: int|
        in_blocks(nb, x, y, z) ==> #[trigger] cell_counter(out, nb, x, y, z) == cell_bit(
            data,
            nb,
            x - 1,
            y,
            z,
        ) + cell_bit(data, nb, x, y, z) + cell_bit(data, nb, x + 1, y, z)
}

/// Where the counter of a cell stands: in which block, lane and byte.
proof fn lemma_counter_slot(buf: Seq<u64>, nb: UVec3, x: int, y: int, z: int)
    requires
        in_blocks(nb, x, y, z),
    ensures
        0 <= linear_index(nb, x / 4, y / 4, z / 4) < volume(nb),
        bit_index(x, y, z) == 8 * (2 * (z % 4) + (y % 4) / 2) + 4 * ((y % 4) % 2) + x % 4,
        cell_counter(buf, nb, x, y, z) == byte_of(
            buf[8 * linear_index(nb, x / 4, y / 4, z / 4) + 2 * (z % 4) + (y % 4) / 2],
            4 * ((y % 4) % 2) + x % 4,
        ),
{
    lemma_linear_index_bounds(nb, x / 4, y / 4, z / 4);
    let lx = x % 4;
    let ly = y % 4;
    let lz = z % 4;
    let q = bit_index(x, y, z);
    assert(ly == 2 * (ly / 2) + ly % 2);
    assert(q == 8 * (2 * lz + ly / 2) + (4 * (ly % 2) + lx));
    assert(0 <= 4 * (ly % 2) + lx < 8);
    assert(q / 8 == 2 * lz + ly / 2);
    assert(q % 8 == 4 * (ly % 2) + lx);
}

/// Where the bit of a cell stands: in which block, and at which byte of which lane.
proof fn lemma_bit_slot(data: Seq<u64>, nb: UVec3, x: int, y: int, z: int)
    requires
        in_blocks(nb, x, y, z),
    ensures
        0 <= linear_index(nb, x / 4, y / 4, z / 4) < volume(nb),
        cell_bit(data, nb, x, y, z) == byte_of(
            lane_of(data[linear_index(nb, x / 4, y / 4, z / 4)], 2 * (z % 4) + (y % 4) / 2),
            4 * ((y % 4) % 2) + x % 4,
        ),
{
    lemma_counter_slot(data, nb, x, y, z);
    lemma_lane_of(
        data[linear_index(nb, x / 4, y / 4, z / 4)],
        2 * (z % 4) + (y % 4) / 2,
        4 * ((y % 4) % 2) + x % 4,
    );
}

proof fn lemma_x_cell(data: Seq<u64>, out: Seq<u64>, nb: UVec3, x: int, y: int, z: int)
    requires
        data.len() == volume(nb),
        out.len() == 8 * volume(nb),
        forall|k: int| 0 <= k < out.len() ==> #[trigger] out[k] == x_expect(data, nb, k),
        in_blocks(nb, x, y, z),
    ensures
        cell_counter(out, nb, x, y, z) == cell_bit(data, nb, x - 1, y, z) + cell_bit(
            data,
            nb,
            x,
            y,
            z,
        ) + cell_bit(data, nb, x + 1, y, z),
{
    let bx = x / 4;
    let by = y / 4;
    let bz = z / 4;
    let lx = x % 4;
    let blk = linear_index(nb, bx, by, bz);
    let i = 2 * (z % 4) + (y % 4) / 2;
    let j = 4 * ((y % 4) % 2) + lx;
    let k = 8 * blk + i;
    lemma_counter_slot(out, nb, x, y, z);
    lemma_bit_slot(data, nb, x, y, z);
    lemma_linear_decode(nb, bx, by, bz);
    lemma_linear_strides(nb, bx, by, bz);
    lemma_linear_strides(nb, bx - 1, by, bz);
    let b = lane_of(data[blk], i);
    let xm = if bx > 0 {
        lane_of(data[blk - 1], i)
    } else {
        0
    };
    let xp = if bx + 1 < nb.x {
        lane_of(data[blk + 1], i)
    } else {
        0
    };
    assert(k / 8 == blk && k % 8 == i);
    assert(out[k] == x_expect(data, nb, k));
    assert(out[k] == x_lane(b, xm, xp));
    lemma_lane_of(data[blk], i, j);
    if bx > 0 {
        lemma_lane_of(data[blk - 1], i, j);
    } else {
        lemma_zero_lane(j);
    }
    if bx + 1 < nb.x {
        lemma_lane_of(data[blk + 1], i, j);
    } else {
        lemma_zero_lane(j);
    }
    lemma_x_lane(b, xm, xp, j);
    let left = cell_bit(data, nb, x - 1, y, z);
    let right = cell_bit(data, nb, x + 1, y, z);
    if lx != 0 {
        lemma_bit_slot(data, nb, x - 1, y, z);
        assert((x - 1) / 4 == bx && (x - 1) % 4 == lx - 1);
        assert(left == byte_of(b, j - 1));
    } else if bx > 0 {
        lemma_bit_slot(data, nb, x - 1, y, z);
        assert((x - 1) / 4 == bx - 1 && (x - 1) % 4 == 3);
        assert(left == byte_of(xm, j + 3));
    } else {
        lemma_zero_lane(j + 3);
        assert(left == byte_of(xm, j + 3));
    }
    if lx != 3 {
        lemma_bit_slot(data, nb, x + 1, y, z);
        assert((x + 1) / 4 == bx && (x + 1) % 4 == lx + 1);
        assert(right == byte_of(b, j + 1));
    } else if bx + 1 < nb.x {
        lemma_bit_slot(data, nb, x + 1, y, z);
        assert((x + 1) / 4 == bx + 1 && (x + 1) % 4 == 0);
        assert(right == byte_of(xp, j - 3));
    } else {
        lemma_zero_lane(j - 3);
        assert(right == byte_of(xp, j - 3));
    }
}

impl Grid3 {
    /// Pass along X: from the bit blocks `src` to the lane buffer `counts`.
    pub fn acc_x(src: &Vec<u64>, counts: &mut Vec<u64>, block_count: UVec3)
        requires
            src@.len() == volume(block_count),
            old(counts)@.len() == 8 * src@.len(),
        ensures
            final(counts)@.len() == old(counts)@.len(),
            x_summed(src@, final(counts)@, block_count),
            lanes_le(final(counts)@, 3),
    {
        let n = src.len();
        let mut pos = UVec3 { x: 0, y: 0, z: 0 };
        let mut ib: usize = 0;
        proof {
            lemma_linear_walk(block_count);
        }
        assert(counts.len() == 8 * n);
        while ib < n
            invariant
                n == src@.len(),
                n == volume(block_count),
                counts@.len() == 8 * n,
                8 * n <= usize::MAX,
                ib <= n,
                ib == linear_index(block_count, pos.x as int, pos.y as int, pos.z as int),
                ib < n ==> within(block_count, pos.x as int, pos.y as int, pos.z as int),
                forall|k: int| 0 <= k < 8 * ib ==> #[trigger] counts@[k] == x_expect(src@, block_count, k),
                forall|k: int| 0 <= k < 8 * ib ==> bytes_le(#[trigger] counts@[k], 3),
            decreases n - ib,
        {
            proof {
                lemma_linear_walk(block_count);
                lemma_linear_decode(block_count, pos.x as int, pos.y as int, pos.z as int);
                lemma_linear_strides(block_count, pos.x as int, pos.y as int, pos.z as int);
                lemma_linear_strides(block_count, pos.x as int - 1, pos.y as int, pos.z as int);
                if pos.x + 1 < block_count.x {
                    lemma_linear_index_bounds(
                        block_count,
                        pos.x as int + 1,
                        pos.y as int,
                        pos.z as int,
                    );
                }
            }
            // Decompress the current block into 8 x 8 bytes. Each byte has its lowest bit
            // set or not.
            let b = Self::decompress_block(src[ib]);
            // The X- block fills the left of the current block when it is shifted right.
            let xm = if pos.x > 0 {
                Self::decompress_block(src[ib - 1])
            } else {
                [0u64, 0, 0, 0, 0, 0, 0, 0]
            };
            // The X+ block fills the right of the current block when it is shifted left.
            let xp = if pos.x + 1 < block_count.x {
                Self::decompress_block(src[ib + 1])
            } else {
                [0u64, 0, 0, 0, 0, 0, 0, 0]
            };
            let mut i: usize = 0;
            while i < 8
                invariant
                    i <= 8,
                    ib < n,
                    n == src@.len(),
                    counts@.len() == 8 * n,
                    8 * n <= usize::MAX,
                    linear_x(block_count, ib as int) == pos.x,
                    forall|l: int| 0 <= l < 8 ==> #[trigger] b[l] == lane_of(src@[ib as int], l),
                    forall|l: int|
                        0 <= l < 8 ==> #[trigger] xm[l] == (if pos.x > 0 {
                            lane_of(src@[ib - 1], l)
                        } else {
                            0
                        }),
                    forall|l: int|
                        0 <= l < 8 ==> #[trigger] xp[l] == (if pos.x + 1 < block_count.x {
                            lane_of(src@[ib + 1], l)
                        } else {
                            0
                        }),
                    forall|k: int|
                        0 <= k < 8 * ib + i ==> #[trigger] counts@[k] == x_expect(src@, block_count, k),
                    forall|k: int| 0 <= k < 8 * ib + i ==> bytes_le(#[trigger] counts@[k], 3),
                decreases 8 - i,
            {
                proof {
                    lemma_lane_of(src@[ib as int], i as int, 0);
                    if pos.x > 0 {
                        lemma_lane_of(src@[ib - 1], i as int, 0);
                    }
                    if pos.x + 1 < block_count.x {
                        lemma_lane_of(src@[ib + 1], i as int, 0);
                    }
                    lemma_zero_lane(0);
                }
                let lane = acc_x_lane(b[i], xm[i], xp[i]);
                counts[8 * ib + i] = lane;
                i = i + 1;
            }
            pos = step_linear(block_count, pos);
            ib = ib + 1;
        }
        proof {
            assert forall|x: int, y: int, z: int| in_blocks(block_count, x, y, z) implies #[trigger]
                cell_counter(counts@, block_count, x, y, z) == cell_bit(
                src@,
                block_count,
                x - 1,
                y,
                z,
            ) + cell_bit(src@, block_count, x, y, z) + cell_bit(src@, block_count, x + 1, y, z) by {
                lemma_x_cell(src@, counts@, block_count, x, y, z);
            }
        }
    }
}

/// Lane `k` of the buffer that the pass along Y makes of the lane buffer `inp`.
pub open spec fn y_expect(inp: Seq<u64>, nb: UVec3, k: int) -> u64 {
    let blk = k / 8;
    let i = k % 8;
    if i % 2 == 0 {
        y_lane_even(
            inp[k],
            inp[k + 1],
            if linear_y(nb, blk) > 0 {
                inp[k - 8 * nb.x + 1]
            } else {
                0
            },
        )
    } else {
        y_lane_odd(
            inp[k],
            inp[k - 1],
            if linear_y(nb, blk) + 1 < nb.y {
                inp[k + 8 * nb.x - 1]
            } else {
                0
            },
        )
    }
}

/// Lane `k` of the buffer that the pass along Z makes of the lane buffer `inp`.
pub open spec fn z_expect(inp: Seq<u64>, nb: UVec3, k: int) -> u64 {
    let blk = k / 8;
    let i = k % 8;
    z_lane(
        inp[k],
        if i >= 2 {
            inp[k - 2]
        } else if linear_z(nb, blk) > 0 {
            inp[k - 8 * (nb.x * nb.y) + 6]
        } else {
            0
        },
        if i < 6 {
            inp[k + 2]
        } else if linear_z(nb, blk) + 1 < nb.z {
            inp[k + 8 * (nb.x * nb.y) - 6]
        } else {
            0
        },
    )
}

/// `out` holds, for every cell of the blocks, the sum of the counters of `inp` for the cell
/// and its two neighbors along Y.
pub open spec fn y_summed(inp: Seq<u64>, out: Seq<u64>, nb: UVec3) -> bool {
    forall|x: int, y: int, z: int|
        in_blocks(nb, x, y, z) ==> #[trigger] cell_counter(out, nb, x, y, z) == cell_counter(
            inp,
            nb,
            x,
            y - 1,
            z,
        ) + cell_counter(inp, nb, x, y, z) + cell_counter(inp, nb, x, y + 1, z)
}

/// `out` holds, for every cell of the blocks, the sum of the counters of `inp` for the cell
/// and its two neighbors along Z.
pub open spec fn z_summed(inp: Seq<u64>, out: Seq<u64>, nb: UVec3) -> bool {
    forall|x: int, y: int, z: int|
        in_blocks(nb, x, y, z) ==> #[trigger] cell_counter(out, nb, x, y, z) == cell_counter(
            inp,
            nb,
            x,
            y,
            z - 1,
        ) + cell_counter(inp, nb, x, y, z) + cell_counter(inp, nb, x, y, z + 1)
}

proof fn lemma_y_cell(inp: Seq<u64>, out: Seq<u64>, nb: UVec3, x: int, y: int, z: int)
    requires
        inp.len() == 8 * volume(nb),
        out.len() == 8 * volume(nb),
        lanes_le(inp, 85),
        forall|k: int| 0 <= k < out.len() ==> #[trigger] out[k] == y_expect(inp, nb, k),
        in_blocks(nb, x, y, z),
    ensures
        cell_counter(out, nb, x, y, z) == cell_counter(inp, nb, x, y - 1, z) + cell_counter(
            inp,
            nb,
            x,
            y,
            z,
        ) + cell_counter(inp, nb, x, y + 1, z),
{
    let bx = x / 4;
    let by = y / 4;
    let bz = z / 4;
    let lx = x % 4;
    let ly = y % 4;
    let blk = linear_index(nb, bx, by, bz);
    let i = 2 * (z % 4) + ly / 2;
    let j = 4 * (ly % 2) + lx;
    let k = 8 * blk + i;
    lemma_counter_slot(out, nb, x, y, z);
    lemma_counter_slot(inp, nb, x, y, z);
    lemma_linear_decode(nb, bx, by, bz);
    lemma_linear_strides(nb, bx, by, bz);
    lemma_linear_strides(nb, bx, by - 1, bz);
    assert(k / 8 == blk && k % 8 == i);
    assert(out[k] == y_expect(inp, nb, k));
    lemma_zero_lane((j + 4) % 8);
    if by > 0 {
        lemma_linear_index_bounds(nb, bx, by - 1, bz);
        assert(bytes_le(inp[k - 8 * nb.x + 1], 85));
    }
    if by + 1 < nb.y {
        lemma_linear_index_bounds(nb, bx, by + 1, bz);
        assert(bytes_le(inp[k + 8 * nb.x - 1], 85));
    }
    let down = cell_counter(inp, nb, x, y - 1, z);
    let up = cell_counter(inp, nb, x, y + 1, z);
    assert(bytes_le(inp[k], 85));
    if ly == 0 {
        let n = if by > 0 {
            inp[k - 8 * nb.x + 1]
        } else {
            0
        };
        assert(bytes_le(inp[k + 1], 85));
        lemma_y_lane(inp[k], inp[k + 1], n, j);
        lemma_counter_slot(inp, nb, x, y + 1, z);
        assert((y + 1) / 4 == by && (y + 1) % 4 == 1);
        assert(up == byte_of(inp[k], j + 4));
        if by > 0 {
            lemma_counter_slot(inp, nb, x, y - 1, z);
            assert((y - 1) / 4 == by - 1 && (y - 1) % 4 == 3);
            assert(down == byte_of(n, j + 4));
        } else {
            assert(down == byte_of(n, j + 4));
        }
    } else if ly == 1 {
        let n = if by > 0 {
            inp[k - 8 * nb.x + 1]
        } else {
            0
        };
        assert(bytes_le(inp[k + 1], 85));
        lemma_y_lane(inp[k], inp[k + 1], n, j);
        lemma_counter_slot(inp, nb, x, y + 1, z);
        assert((y + 1) / 4 == by && (y + 1) % 4 == 2);
        assert(up == byte_of(inp[k + 1], j - 4));
        lemma_counter_slot(inp, nb, x, y - 1, z);
        assert((y - 1) / 4 == by && (y - 1) % 4 == 0);
        assert(down == byte_of(inp[k], j - 4));
    } else if ly == 2 {
        let n = if by + 1 < nb.y {
            inp[k + 8 * nb.x - 1]
        } else {
            0
        };
        assert(bytes_le(inp[k - 1], 85));
        lemma_y_lane(inp[k], inp[k - 1], n, j);
        lemma_counter_slot(inp, nb, x, y + 1, z);
        assert((y + 1) / 4 == by && (y + 1) % 4 == 3);
        assert(up == byte_of(inp[k], j + 4));
        lemma_counter_slot(inp, nb, x, y - 1, z);
        assert((y - 1) / 4 == by && (y - 1) % 4 == 1);
        assert(down == byte_of(inp[k - 1], j + 4));
    } else {
        let n = if by + 1 < nb.y {
            inp[k + 8 * nb.x - 1]
        } else {
            0
        };
        assert(bytes_le(inp[k - 1], 85));
        lemma_y_lane(inp[k], inp[k - 1], n, j);
        lemma_counter_slot(inp, nb, x, y - 1, z);
        assert((y - 1) / 4 == by && (y - 1) % 4 == 2);
        assert(down == byte_of(inp[k], j - 4));
        if by + 1 < nb.y {
            lemma_counter_slot(inp, nb, x, y + 1, z);
            assert((y + 1) / 4 == by + 1 && (y + 1) % 4 == 0);
            assert(up == byte_of(n, j - 4));
        } else {
            assert(up == byte_of(n, j - 4));
        }
    }
}

proof fn lemma_z_cell(inp: Seq<u64>, out: Seq<u64>, nb: UVec3, x: int, y: int, z: int)
    requires
        inp.len() == 8 * volume(nb),
        out.len() == 8 * volume(nb),
        lanes_le(inp, 85),
        forall|k: int| 0 <= k < out.len() ==> #[trigger] out[k] == z_expect(inp, nb, k),
        in_blocks(nb, x, y, z),
    ensures
        cell_counter(out, nb, x, y, z) == cell_counter(inp, nb, x, y, z - 1) + cell_counter(
            inp,
            nb,
            x,
            y,
            z,
        ) + cell_counter(inp, nb, x, y, z + 1),
{
    let bx = x / 4;
    let by = y / 4;
    let bz = z / 4;
    let lz = z % 4;
    let blk = linear_index(nb, bx, by, bz);
    let i = 2 * lz + (y % 4) / 2;
    let j = 4 * ((y % 4) % 2) + x % 4;
    let k = 8 * blk + i;
    lemma_counter_slot(out, nb, x, y, z);
    lemma_counter_slot(inp, nb, x, y, z);
    lemma_linear_decode(nb, bx, by, bz);
    lemma_linear_strides(nb, bx, by, bz);
    lemma_linear_strides(nb, bx, by, bz - 1);
    assert(k / 8 == blk && k % 8 == i);
    assert(out[k] == z_expect(inp, nb, k));
    lemma_zero_lane(j);
    if bz > 0 {
        lemma_linear_index_bounds(nb, bx, by, bz - 1);
        assert(bytes_le(inp[k - 8 * (nb.x * nb.y) + 6], 85));
    }
    if bz + 1 < nb.z {
        lemma_linear_index_bounds(nb, bx, by, bz + 1);
        assert(bytes_le(inp[k + 8 * (nb.x * nb.y) - 6], 85));
    }
    let zm = if i >= 2 {
        inp[k - 2]
    } else if bz > 0 {
        inp[k - 8 * (nb.x * nb.y) + 6]
    } else {
        0
    };
    let zp = if i < 6 {
        inp[k + 2]
    } else if bz + 1 < nb.z {
        inp[k + 8 * (nb.x * nb.y) - 6]
    } else {
        0
    };
    let below = cell_counter(inp, nb, x, y, z - 1);
    let above = cell_counter(inp, nb, x, y, z + 1);
    if lz > 0 {
        lemma_counter_slot(inp, nb, x, y, z - 1);
        assert((z - 1) / 4 == bz && (z - 1) % 4 == lz - 1);
        assert(below == byte_of(zm, j));
    } else if bz > 0 {
        lemma_counter_slot(inp, nb, x, y, z - 1);
        assert((z - 1) / 4 == bz - 1 && (z - 1) % 4 == 3);
        assert(below == byte_of(zm, j));
    } else {
        assert(below == byte_of(zm, j));
    }
    if lz < 3 {
        lemma_counter_slot(inp, nb, x, y, z + 1);
        assert((z + 1) / 4 == bz && (z + 1) % 4 == lz + 1);
        assert(above == byte_of(zp, j));
    } else if bz + 1 < nb.z {
        lemma_counter_slot(inp, nb, x, y, z + 1);
        assert((z + 1) / 4 == bz + 1 && (z + 1) % 4 == 0);
        assert(above == byte_of(zp, j));
    } else {
        assert(above == byte_of(zp, j));
    }
    assert(bytes_le(inp[k], 85));
    assert(bytes_le(zm, 85));
    assert(bytes_le(zp, 85));
    lemma_z_lane(inp[k], zm, zp, j);
}

impl Grid3 {
    /// Pass along Y: from the lane buffer `src` to the lane buffer `dst`.
    ///
    /// The counters of `src` may be anything up to 85, so that three of them fit one byte.
    /// After the pass along X they are at most 3, and the sums at most 9.
    pub fn acc_y(src: &Vec<u64>, dst: &mut Vec<u64>, block_count: UVec3)
        requires
            src@.len() == 8 * volume(block_count),
            old(dst)@.len() == src@.len(),
            lanes_le(src@, 85),
        ensures
            final(dst)@.len() == old(dst)@.len(),
            y_summed(src@, final(dst)@, block_count),
            lanes_le(src@, 3) ==> lanes_le(final(dst)@, 9),
    {
        let n = src.len() / 8;
        let dy = block_count.x as usize;
        let mut pos = UVec3 { x: 0, y: 0, z: 0 };
        let mut ib: usize = 0;
        proof {
            lemma_linear_walk(block_count);
        }
        assert(dst.len() == 8 * n);
        while ib < n
            invariant
                n == volume(block_count),
                src@.len() == 8 * n,
                dst@.len() == 8 * n,
                8 * n <= usize::MAX,
                dy == block_count.x,
                lanes_le(src@, 85),
                ib <= n,
                ib == linear_index(block_count, pos.x as int, pos.y as int, pos.z as int),
                ib < n ==> within(block_count, pos.x as int, pos.y as int, pos.z as int),
                forall|k: int| 0 <= k < 8 * ib ==> #[trigger] dst@[k] == y_expect(src@, block_count, k),
                lanes_le(src@, 3) ==> (forall|k: int| 0 <= k < 8 * ib ==> bytes_le(#[trigger] dst@[k], 9)),
            decreases n - ib,
        {
            proof {
                lemma_linear_walk(block_count);
                lemma_linear_decode(block_count, pos.x as int, pos.y as int, pos.z as int);
                lemma_linear_strides(block_count, pos.x as int, pos.y as int, pos.z as int);
                lemma_linear_strides(block_count, pos.x as int, pos.y as int - 1, pos.z as int);
                if pos.y > 0 {
                    lemma_linear_index_bounds(
                        block_count,
                        pos.x as int,
                        pos.y as int - 1,
                        pos.z as int,
                    );
                }
                if pos.y + 1 < block_count.y {
                    lemma_linear_index_bounds(
                        block_count,
                        pos.x as int,
                        pos.y as int + 1,
                        pos.z as int,
                    );
                }
            }
            let base = 8 * ib;
            let mut i: usize = 0;
            while i < 8
                invariant
                    i <= 8,
                    ib < n,
                    base == 8 * ib,
                    src@.len() == 8 * n,
                    dst@.len() == 8 * n,
                    8 * n <= usize::MAX,
                    dy == block_count.x,
                    lanes_le(src@, 85),
                    linear_y(block_count, ib as int) == pos.y,
                    within(block_count, pos.x as int, pos.y as int, pos.z as int),
                    pos.y > 0 ==> ib >= dy,
                    pos.y + 1 < block_count.y ==> ib + dy < n,
                    forall|k: int|
                        0 <= k < 8 * ib + i ==> #[trigger] dst@[k] == y_expect(src@, block_count, k),
                    lanes_le(src@, 3) ==> (forall|k: int| 0 <= k < 8 * ib + i ==> bytes_le(#[trigger] dst@[k], 9)),
                decreases 8 - i,
            {
                let b = src[base + i];
                proof {
                    lemma_zero_lane(0);
                    assert(bytes_le(src@[base + i], 85));
                    if lanes_le(src@, 3) {
                        assert(bytes_le(src@[base + i], 3));
                    }
                }
                let lane = if i % 2 == 0 {
                    // The odd lane after this one holds the next rows along Y.
                    let p = src[base + i + 1];
                    // The Y- block fills the first row of the current block.
                    let from_ym = if pos.y > 0 {
                        src[base - 8 * dy + i + 1]
                    } else {
                        0
                    };
                    proof {
                        assert(bytes_le(src@[base + i + 1], 85));
                        if lanes_le(src@, 3) {
                            assert(bytes_le(src@[base + i + 1], 3));
                        }
                        if pos.y > 0 {
                            assert(bytes_le(src@[base - 8 * dy + i + 1], 85));
                            if lanes_le(src@, 3) {
                                assert(bytes_le(src@[base - 8 * dy + i + 1], 3));
                            }
                        }
                    }
                    acc_y_lane_even(b, p, from_ym)
                } else {
                    // The even lane before this one holds the previous rows along Y.
                    let p = src[base + i - 1];
                    // The Y+ block fills the last row of the current block.
                    let from_yp = if pos.y + 1 < block_count.y {
                        src[base + 8 * dy + i - 1]
                    } else {
                        0
                    };
                    proof {
                        assert(bytes_le(src@[base + i - 1], 85));
                        if lanes_le(src@, 3) {
                            assert(bytes_le(src@[base + i - 1], 3));
                        }
                        if pos.y + 1 < block_count.y {
                            assert(bytes_le(src@[base + 8 * dy + i - 1], 85));
                            if lanes_le(src@, 3) {
                                assert(bytes_le(src@[base + 8 * dy + i - 1], 3));
                            }
                        }
                    }
                    acc_y_lane_odd(b, p, from_yp)
                };
                dst[base + i] = lane;
                i = i + 1;
            }
            pos = step_linear(block_count, pos);
            ib = ib + 1;
        }
        proof {
            assert forall|x: int, y: int, z: int| in_blocks(block_count, x, y, z) implies #[trigger]
                cell_counter(dst@, block_count, x, y, z) == cell_counter(
                src@,
                block_count,
                x,
                y - 1,
                z,
            ) + cell_counter(src@, block_count, x, y, z) + cell_counter(
                src@,
                block_count,
                x,
                y + 1,
                z,
            ) by {
                lemma_y_cell(src@, dst@, block_count, x, y, z);
            }
        }
    }

    /// Pass along Z: from the lane buffer `src` to the lane buffer `dst`.
    ///
    /// The counters of `src` may be anything up to 85, so that three of them fit one byte.
    /// After the pass along Y they are at most 9, and the sums at most 27.
    pub fn acc_z(src: &Vec<u64>, dst: &mut Vec<u64>, block_count: UVec3)
        requires
            src@.len() == 8 * volume(block_count),
            old(dst)@.len() == src@.len(),
            lanes_le(src@, 85),
        ensures
            final(dst)@.len() == old(dst)@.len(),
            z_summed(src@, final(dst)@, block_count),
            lanes_le(src@, 9) ==> lanes_le(final(dst)@, 27),
    {
        let n = src.len() / 8;
        if n == 0 {
            proof {
                assert(block_count.x == 0 || block_count.y == 0 || block_count.z == 0)
                    by (nonlinear_arith)
                    requires
                        block_count.x * block_count.y * block_count.z == 0,
                ;
            }
            return;
        }
        proof {
            lemma_linear_walk(block_count);
            assert(block_count.x * block_count.y <= block_count.x * block_count.y * block_count.z)
                by (nonlinear_arith)
                requires
                    block_count.z >= 1,
                    block_count.x >= 0,
                    block_count.y >= 0,
            ;
        }
        let dz = block_count.x as usize * block_count.y as usize;
        let mut pos = UVec3 { x: 0, y: 0, z: 0 };
        let mut ib: usize = 0;
        assert(dst.len() == 8 * n);
        while ib < n
            invariant
                n == volume(block_count),
                src@.len() == 8 * n,
                dst@.len() == 8 * n,
                8 * n <= usize::MAX,
                dz == block_count.x * block_count.y,
                lanes_le(src@, 85),
                ib <= n,
                ib == linear_index(block_count, pos.x as int, pos.y as int, pos.z as int),
                ib < n ==> within(block_count, pos.x as int, pos.y as int, pos.z as int),
                forall|k: int| 0 <= k < 8 * ib ==> #[trigger] dst@[k] == z_expect(src@, block_count, k),
                lanes_le(src@, 9) ==> (forall|k: int| 0 <= k < 8 * ib ==> bytes_le(#[trigger] dst@[k], 27)),
            decreases n - ib,
        {
            proof {
                lemma_linear_walk(block_count);
                lemma_linear_decode(block_count, pos.x as int, pos.y as int, pos.z as int);
                lemma_linear_strides(block_count, pos.x as int, pos.y as int, pos.z as int);
                lemma_linear_strides(block_count, pos.x as int, pos.y as int, pos.z as int - 1);
                if pos.z > 0 {
                    lemma_linear_index_bounds(
                        block_count,
                        pos.x as int,
                        pos.y as int,
                        pos.z as int - 1,
                    );
                }
                if pos.z + 1 < block_count.z {
                    lemma_linear_index_bounds(
                        block_count,
                        pos.x as int,
                        pos.y as int,
                        pos.z as int + 1,
                    );
                }
            }
            let base = 8 * ib;
            let mut i: usize = 0;
            while i < 8
                invariant
                    i <= 8,
                    ib < n,
                    base == 8 * ib,
                    src@.len() == 8 * n,
                    dst@.len() == 8 * n,
                    8 * n <= usize::MAX,
                    dz == block_count.x * block_count.y,
                    lanes_le(src@, 85),
                    linear_z(block_count, ib as int) == pos.z,
                    within(block_count, pos.x as int, pos.y as int, pos.z as int),
                    pos.z > 0 ==> ib >= dz,
                    pos.z + 1 < block_count.z ==> ib + dz < n,
                    forall|k: int|
                        0 <= k < 8 * ib + i ==> #[trigger] dst@[k] == z_expect(src@, block_count, k),
                    lanes_le(src@, 9) ==> (forall|k: int| 0 <= k < 8 * ib + i ==> bytes_le(#[trigger] dst@[k], 27)),
                decreases 8 - i,
            {
                let b = src[base + i];
                // z- : the lane one slab below, in this block or at the top of the Z- block
                let zm = if i >= 2 {
                    src[base + i - 2]
                } else if pos.z > 0 {
                    src[base - 8 * dz + i + 6]
                } else {
                    0
                };
                // z+ : the lane one slab above, in this block or at the bottom of the Z+ block
                let zp = if i < 6 {
                    src[base + i + 2]
                } else if pos.z + 1 < block_count.z {
                    src[base + 8 * dz + i - 6]
                } else {
                    0
                };
                proof {
                    lemma_zero_lane(0);
                    assert(bytes_le(src@[base + i], 85));
                    if lanes_le(src@, 9) {
                        assert(bytes_le(src@[base + i], 9));
                    }
                    if i >= 2 {
                        assert(bytes_le(src@[base + i - 2], 85));
                        if lanes_le(src@, 9) {
                            assert(bytes_le(src@[base + i - 2], 9));
                        }
                    } else if pos.z > 0 {
                        assert(bytes_le(src@[base - 8 * dz + i + 6], 85));
                        if lanes_le(src@, 9) {
                            assert(bytes_le(src@[base - 8 * dz + i + 6], 9));
                        }
                    }
                    if i < 6 {
                        assert(bytes_le(src@[base + i + 2], 85));
                        if lanes_le(src@, 9) {
                            assert(bytes_le(src@[base + i + 2], 9));
                        }
                    } else if pos.z + 1 < block_count.z {
                        assert(bytes_le(src@[base + 8 * dz + i - 6], 85));
                        if lanes_le(src@, 9) {
                            assert(bytes_le(src@[base + 8 * dz + i - 6], 9));
                        }
                    }
                }
                let lane = acc_z_lane(b, zm, zp);
                dst[base + i] = lane;
                i = i + 1;
            }
            pos = step_linear(block_count, pos);
            ib = ib + 1;
        }
        proof {
            assert forall|x: int, y: int, z: int| in_blocks(block_count, x, y, z) implies #[trigger]
                cell_counter(dst@, block_count, x, y, z) == cell_counter(
                src@,
                block_count,
                x,
                y,
                z - 1,
            ) + cell_counter(src@, block_count, x, y, z) + cell_counter(
                src@,
                block_count,
                x,
                y,
                z + 1,
            ) by {
                lemma_z_cell(src@, dst@, block_count, x, y, z);
            }
        }
    }
}

} // verus!
