//! Byte lanes: a 4×4×4 bit block unpacked into 8 words of 8 counters each, and the word-wide
//! sums that the separable neighbor kernel makes on them.
//!
//! Lane `i` of a block holds, in byte `j`, the counter of bit `8i + j` of the block, that is of
//! the cell at block-local `x = j % 4`, `y = 2 (i % 2) + j / 4`, `z = i / 2`.

use vstd::prelude::*;
use crate::bits::{bit_val, byte_of};
use crate::grid3::Grid3;

verus! {

/// Every byte of `w` is at most `m`.
pub open spec fn bytes_le(w: u64, m: u64) -> bool {
    &&& (w & 0xFF) <= m
    &&& ((w >> 8) & 0xFF) <= m
    &&& ((w >> 16) & 0xFF) <= m
    &&& ((w >> 24) & 0xFF) <= m
    &&& ((w >> 32) & 0xFF) <= m
    &&& ((w >> 40) & 0xFF) <= m
    &&& ((w >> 48) & 0xFF) <= m
    &&& ((w >> 56) & 0xFF) <= m
}

/// The low byte `m` spread over a word, one bit per byte.
pub closed spec fn spread(m: u64) -> u64 {
    let x = m | (m << 8);
    let x = x | (x << 16);
    let x = x | (x << 32);
    let x = x & 0x8040201008040201u64;
    (x & 0x8000_0000_0000_0000u64) >> 7
        | (x & 0x0040_0000_0000_0000u64) >> 6
        | (x & 0x0000_2000_0000_0000u64) >> 5
        | (x & 0x0000_0010_0000_0000u64) >> 4
        | (x & 0x0000_0000_0800_0000u64) >> 3
        | (x & 0x0000_0000_0004_0000u64) >> 2
        | (x & 0x0000_0000_0000_0200u64) >> 1
        | (x & 0x0000_0000_0000_0001u64)
}

/// Lane `i` of the block `w`: byte `j` is bit `8i + j` of `w`.
pub closed spec fn lane_of(w: u64, i: int) -> u64 {
    spread((w >> (8 * i)) & 0xFF)
}

proof fn lemma_spread(b: u64, i: u64, j: u64)
    by (bit_vector)
    requires
        i < 8,
        j < 8,
    ensures
        (spread(b & 0xFF) >> (8 * j)) & 0xFF == (if (b >> j) & 1 == 1 {
            1u64
        } else {
            0u64
        }),
        bytes_le(spread(b & 0xFF), 1),
        (spread((b >> (8 * i)) & 0xFF) >> (8 * j)) & 0xFF == (if (b >> (8 * i + j)) & 1 == 1 {
            1u64
        } else {
            0u64
        }),
        bytes_le(spread((b >> (8 * i)) & 0xFF), 1),
        (b >> (8 * i)) & 0xFF == ((b >> (8 * i)) & 0xFF) & 0xFF,
{
}

/// The bytes of a lane are the bits of its block.
pub proof fn lemma_lane_of(w: u64, i: int, j: int)
    requires
        0 <= i < 8,
        0 <= j < 8,
    ensures
        byte_of(lane_of(w, i), j) == bit_val(w, 8 * i + j),
        bytes_le(lane_of(w, i), 1),
{
    lemma_spread(w, i as u64, j as u64);
}

proof fn lemma_zero(j: u64)
    by (bit_vector)
    requires
        j < 8,
    ensures
        (0u64 >> (8 * j)) & 0xFF == 0,
        bytes_le(0, 0),
{
}

/// The zero word is a lane of zero counters.
pub proof fn lemma_zero_lane(j: int)
    requires
        0 <= j < 8,
    ensures
        byte_of(0, j) == 0,
        bytes_le(0, 1),
        bytes_le(0, 3),
        bytes_le(0, 9),
        bytes_le(0, 85),
{
    lemma_zero(j as u64);
}

impl Grid3 {
    /// Spread the low 8 bits of `b` over the 8 bytes of the result: byte `j` is bit `j` of `b`.
    pub fn bit_to_byte(b: u64) -> (r: u64)
        ensures
            forall|j: int| 0 <= j < 8 ==> #[trigger] byte_of(r, j) == bit_val(b, j),
            bytes_le(r, 1),
            r == spread(b & 0xFF),
    {
        // Copy the lowest byte into all 7 other ones
        let m = b & 0xFF;
        let x = m | (m << 8);
        let x = x | (x << 16);
        let x = x | (x << 32);
        // Mask out all but 1 bit per byte, always a different one
        let x = x & 0x8040201008040201u64;
        // Move all bits back to the lowest bit.
        let y = (x & 0x8000_0000_0000_0000u64) >> 7
            | (x & 0x0040_0000_0000_0000u64) >> 6
            | (x & 0x0000_2000_0000_0000u64) >> 5
            | (x & 0x0000_0010_0000_0000u64) >> 4
            | (x & 0x0000_0000_0800_0000u64) >> 3
            | (x & 0x0000_0000_0004_0000u64) >> 2
            | (x & 0x0000_0000_0000_0200u64) >> 1
            | (x & 0x0000_0000_0000_0001u64);
        proof {
            lemma_spread(b, 0, 0);
            assert forall|j: int| 0 <= j < 8 implies #[trigger] byte_of(y, j) == bit_val(b, j) by {
                lemma_spread(b, 0, j as u64);
            }
        }
        y
    }

    /// Decompress a 4x4x4 bit block of 64 bits into an equivalent byte block.
    ///
    /// The layout of the input bit block and the output byte block are the same: read as 64
    /// bytes, lowest byte of the first word first, byte `q` of the output is bit `q` of the input.
    pub fn decompress_block(b: u64) -> (r: [u64; 8])
        ensures
            forall|i: int| 0 <= i < 8 ==> #[trigger] r[i] == lane_of(b, i),
            forall|q: int| 0 <= q < 64 ==> byte_of(#[trigger] r[q / 8], q % 8) == bit_val(b, q),
    {
        let r = [
            Self::bit_to_byte(b & 0xFFu64),
            Self::bit_to_byte((b >> 8) & 0xFFu64),
            Self::bit_to_byte((b >> 16) & 0xFFu64),
            Self::bit_to_byte((b >> 24) & 0xFFu64),
            Self::bit_to_byte((b >> 32) & 0xFFu64),
            Self::bit_to_byte((b >> 40) & 0xFFu64),
            Self::bit_to_byte((b >> 48) & 0xFFu64),
            Self::bit_to_byte((b >> 56) & 0xFFu64),
        ];
        proof {
            assert(b == b >> 0) by (bit_vector);
            assert forall|i: int| 0 <= i < 8 implies #[trigger] r[i] == lane_of(b, i) by {
                lemma_spread(b, i as u64, 0);
            }
            assert forall|q: int| 0 <= q < 64 implies byte_of(#[trigger] r[q / 8], q % 8) == bit_val(
                b,
                q,
            ) by {
                lemma_lane_of(b, q / 8, q % 8);
            }
        }
        r
    }
}

/// One lane after the pass along X: each counter plus its two neighbors along X.
///
/// `b` is the lane itself, `xm` and `xp` the same lane of the blocks before and after along
/// X (zero where there is none).
pub closed spec fn x_lane(b: u64, xm: u64, xp: u64) -> u64 {
    (b + ((b >> 8) & 0x00FF_FFFF_00FF_FFFFu64) + ((b << 8) & 0xFFFF_FF00_FFFF_FF00u64) + ((xm
        >> 24) & 0x0000_00FF_0000_00FFu64) + ((xp << 24) & 0xFF00_0000_FF00_0000u64)) as u64
}

/// An even lane after the pass along Y.
///
/// `b` is the lane itself, `p` the odd lane after it in its block, `n` that odd lane in the
/// block before along Y (zero where there is none).
pub closed spec fn y_lane_even(b: u64, p: u64, n: u64) -> u64 {
    (b + ((b >> 32) | (p << 32)) + (b << 32) + (n >> 32)) as u64
}

/// An odd lane after the pass along Y.
///
/// `b` is the lane itself, `p` the even lane before it in its block, `n` that even lane in
/// the block after along Y (zero where there is none).
pub closed spec fn y_lane_odd(b: u64, p: u64, n: u64) -> u64 {
    (b + (b >> 32) + ((b << 32) | (p >> 32)) + (n << 32)) as u64
}

/// One lane after the pass along Z: the lane plus the lanes one slab below and above.
pub closed spec fn z_lane(b: u64, zm: u64, zp: u64) -> u64 {
    (b + zm + zp) as u64
}

proof fn lemma_x_lane_bv(b: u64, xm: u64, xp: u64, j: u64, jm: u64, jp: u64)
    by (bit_vector)
    requires
        bytes_le(b, 85),
        bytes_le(xm, 85),
        bytes_le(xp, 85),
        j < 8,
        jm < 8,
        jp < 8,
        j % 4 != 0 ==> jm + 1 == j,
        j % 4 == 0 ==> jm == j + 3,
        j % 4 != 3 ==> jp == j + 1,
        j % 4 == 3 ==> jp + 3 == j,
    ensures
        b + ((b >> 8) & 0x00FF_FFFF_00FF_FFFFu64) + ((b << 8) & 0xFFFF_FF00_FFFF_FF00u64) + ((xm
            >> 24) & 0x0000_00FF_0000_00FFu64) + ((xp << 24) & 0xFF00_0000_FF00_0000u64)
            <= 0xFFFF_FFFF_FFFF_FFFF,
        bytes_le(b, 1) && bytes_le(xm, 1) && bytes_le(xp, 1) ==> bytes_le(x_lane(b, xm, xp), 3),
        (x_lane(b, xm, xp) >> (8 * j)) & 0xFF == ((b >> (8 * j)) & 0xFF) + (if j % 4 != 0 {
            (b >> (8 * jm)) & 0xFF
        } else {
            (xm >> (8 * jm)) & 0xFF
        }) + (if j % 4 != 3 {
            (b >> (8 * jp)) & 0xFF
        } else {
            (xp >> (8 * jp)) & 0xFF
        }),
{
}

proof fn lemma_y_lane_bv(b: u64, p: u64, n: u64, j: u64, k: u64)
    by (bit_vector)
    requires
        bytes_le(b, 85),
        bytes_le(p, 85),
        bytes_le(n, 85),
        j < 8,
        k < 8,
        j < 4 ==> k == j + 4,
        j >= 4 ==> k + 4 == j,
    ensures
        b + ((b >> 32) | (p << 32)) + (b << 32) + (n >> 32) <= 0xFFFF_FFFF_FFFF_FFFF,
        b + (b >> 32) + ((b << 32) | (p >> 32)) + (n << 32) <= 0xFFFF_FFFF_FFFF_FFFF,
        bytes_le(b, 3) && bytes_le(p, 3) && bytes_le(n, 3) ==> bytes_le(y_lane_even(b, p, n), 9),
        bytes_le(b, 3) && bytes_le(p, 3) && bytes_le(n, 3) ==> bytes_le(y_lane_odd(b, p, n), 9),
        (y_lane_even(b, p, n) >> (8 * j)) & 0xFF == ((b >> (8 * j)) & 0xFF) + ((b >> (8 * k))
            & 0xFF) + (if j < 4 {
            (n >> (8 * k)) & 0xFF
        } else {
            (p >> (8 * k)) & 0xFF
        }),
        (y_lane_odd(b, p, n) >> (8 * j)) & 0xFF == ((b >> (8 * j)) & 0xFF) + ((b >> (8 * k))
            & 0xFF) + (if j < 4 {
            (p >> (8 * k)) & 0xFF
        } else {
            (n >> (8 * k)) & 0xFF
        }),
{
}

proof fn lemma_z_lane_bv(b: u64, zm: u64, zp: u64, j: u64)
    by (bit_vector)
    requires
        bytes_le(b, 85),
        bytes_le(zm, 85),
        bytes_le(zp, 85),
        j < 8,
    ensures
        b + zm + zp <= 0xFFFF_FFFF_FFFF_FFFF,
        bytes_le(b, 9) && bytes_le(zm, 9) && bytes_le(zp, 9) ==> bytes_le(z_lane(b, zm, zp), 27),
        bytes_le(b, 3) && bytes_le(zm, 3) && bytes_le(zp, 3) ==> bytes_le(z_lane(b, zm, zp), 9),
        (z_lane(b, zm, zp) >> (8 * j)) & 0xFF == ((b >> (8 * j)) & 0xFF) + ((zm >> (8 * j))
            & 0xFF) + ((zp >> (8 * j)) & 0xFF),
{
}

/// The counters of a lane after the pass along X.
pub proof fn lemma_x_lane(b: u64, xm: u64, xp: u64, j: int)
    requires
        bytes_le(b, 85),
        bytes_le(xm, 85),
        bytes_le(xp, 85),
        0 <= j < 8,
    ensures
        bytes_le(b, 1) && bytes_le(xm, 1) && bytes_le(xp, 1) ==> bytes_le(x_lane(b, xm, xp), 3),
        byte_of(x_lane(b, xm, xp), j) == byte_of(b, j) + (if j % 4 != 0 {
            byte_of(b, j - 1)
        } else {
            byte_of(xm, j + 3)
        }) + (if j % 4 != 3 {
            byte_of(b, j + 1)
        } else {
            byte_of(xp, j - 3)
        }),
{
    let jm = if j % 4 != 0 {
        j - 1
    } else {
        j + 3
    };
    let jp = if j % 4 != 3 {
        j + 1
    } else {
        j - 3
    };
    lemma_x_lane_bv(b, xm, xp, j as u64, jm as u64, jp as u64);
}

/// The counters of a lane after the pass along Y.
pub proof fn lemma_y_lane(b: u64, p: u64, n: u64, j: int)
    requires
        bytes_le(b, 85),
        bytes_le(p, 85),
        bytes_le(n, 85),
        0 <= j < 8,
    ensures
        bytes_le(b, 3) && bytes_le(p, 3) && bytes_le(n, 3) ==> bytes_le(y_lane_even(b, p, n), 9),
        bytes_le(b, 3) && bytes_le(p, 3) && bytes_le(n, 3) ==> bytes_le(y_lane_odd(b, p, n), 9),
        byte_of(y_lane_even(b, p, n), j) == byte_of(b, j) + byte_of(b, (j + 4) % 8) + (if j < 4 {
            byte_of(n, j + 4)
        } else {
            byte_of(p, j - 4)
        }),
        byte_of(y_lane_odd(b, p, n), j) == byte_of(b, j) + byte_of(b, (j + 4) % 8) + (if j < 4 {
            byte_of(p, j + 4)
        } else {
            byte_of(n, j - 4)
        }),
{
    lemma_y_lane_bv(b, p, n, j as u64, ((j + 4) % 8) as u64);
}

/// The counters of a lane after the pass along Z.
pub proof fn lemma_z_lane(b: u64, zm: u64, zp: u64, j: int)
    requires
        bytes_le(b, 85),
        bytes_le(zm, 85),
        bytes_le(zp, 85),
        0 <= j < 8,
    ensures
        bytes_le(b, 9) && bytes_le(zm, 9) && bytes_le(zp, 9) ==> bytes_le(z_lane(b, zm, zp), 27),
        bytes_le(b, 3) && bytes_le(zm, 3) && bytes_le(zp, 3) ==> bytes_le(z_lane(b, zm, zp), 9),
        byte_of(z_lane(b, zm, zp), j) == byte_of(b, j) + byte_of(zm, j) + byte_of(zp, j),
{
    lemma_z_lane_bv(b, zm, zp, j as u64);
}

/// Sum one lane along X.
pub fn acc_x_lane(b: u64, xm: u64, xp: u64) -> (r: u64)
    requires
        bytes_le(b, 85),
        bytes_le(xm, 85),
        bytes_le(xp, 85),
    ensures
        r == x_lane(b, xm, xp),
        bytes_le(b, 1) && bytes_le(xm, 1) && bytes_le(xp, 1) ==> bytes_le(r, 3),
        forall|j: int|
            0 <= j < 8 ==> #[trigger] byte_of(r, j) == byte_of(b, j) + (if j % 4 != 0 {
                byte_of(b, j - 1)
            } else {
                byte_of(xm, j + 3)
            }) + (if j % 4 != 3 {
                byte_of(b, j + 1)
            } else {
                byte_of(xp, j - 3)
            }),
{
    proof {
        lemma_x_lane_bv(b, xm, xp, 0, 3, 1);
        assert forall|j: int| 0 <= j < 8 implies #[trigger] byte_of(x_lane(b, xm, xp), j)
            == byte_of(b, j) + (if j % 4 != 0 {
            byte_of(b, j - 1)
        } else {
            byte_of(xm, j + 3)
        }) + (if j % 4 != 3 {
            byte_of(b, j + 1)
        } else {
            byte_of(xp, j - 3)
        }) by {
            lemma_x_lane(b, xm, xp, j);
        }
    }
    // x- : shift left, clear right face (x+)
    let left = (b >> 8) & 0x00FF_FFFF_00FF_FFFFu64;
    // x+ : shift right, clear left face (x-)
    let right = (b << 8) & 0xFFFF_FF00_FFFF_FF00u64;
    // Move the right face of the X- block to the left and clear the rest
    let from_xm = (xm >> 24) & 0x0000_00FF_0000_00FFu64;
    // Move the left face of the X+ block to the right and clear the rest
    let from_xp = (xp << 24) & 0xFF00_0000_FF00_0000u64;
    b + left + right + from_xm + from_xp
}

/// Sum one even lane along Y.
pub fn acc_y_lane_even(b: u64, p: u64, n: u64) -> (r: u64)
    requires
        bytes_le(b, 85),
        bytes_le(p, 85),
        bytes_le(n, 85),
    ensures
        r == y_lane_even(b, p, n),
        bytes_le(b, 3) && bytes_le(p, 3) && bytes_le(n, 3) ==> bytes_le(r, 9),
        forall|j: int|
            0 <= j < 8 ==> #[trigger] byte_of(r, j) == byte_of(b, j) + byte_of(b, (j + 4) % 8) + (
            if j < 4 {
                byte_of(n, j + 4)
            } else {
                byte_of(p, j - 4)
            }),
{
    proof {
        lemma_y_lane_bv(b, p, n, 0, 4);
        assert forall|j: int| 0 <= j < 8 implies #[trigger] byte_of(y_lane_even(b, p, n), j)
            == byte_of(b, j) + byte_of(b, (j + 4) % 8) + (if j < 4 {
            byte_of(n, j + 4)
        } else {
            byte_of(p, j - 4)
        }) by {
            lemma_y_lane(b, p, n, j);
        }
    }
    // shift left, and move in the Y row from the adjacent lane
    let up = (b >> 32) | (p << 32);
    // shift right (shifting pads with zero)
    let down = b << 32;
    // Move the right face of the Y- block to the left
    let from_ym = n >> 32;
    b + up + down + from_ym
}

/// Sum one odd lane along Y.
pub fn acc_y_lane_odd(b: u64, p: u64, n: u64) -> (r: u64)
    requires
        bytes_le(b, 85),
        bytes_le(p, 85),
        bytes_le(n, 85),
    ensures
        r == y_lane_odd(b, p, n),
        bytes_le(b, 3) && bytes_le(p, 3) && bytes_le(n, 3) ==> bytes_le(r, 9),
        forall|j: int|
            0 <= j < 8 ==> #[trigger] byte_of(r, j) == byte_of(b, j) + byte_of(b, (j + 4) % 8) + (
            if j < 4 {
                byte_of(p, j + 4)
            } else {
                byte_of(n, j - 4)
            }),
{
    proof {
        lemma_y_lane_bv(b, p, n, 0, 4);
        assert forall|j: int| 0 <= j < 8 implies #[trigger] byte_of(y_lane_odd(b, p, n), j)
            == byte_of(b, j) + byte_of(b, (j + 4) % 8) + (if j < 4 {
            byte_of(p, j + 4)
        } else {
            byte_of(n, j - 4)
        }) by {
            lemma_y_lane(b, p, n, j);
        }
    }
    // shift left (shifting pads with zero)
    let up = b >> 32;
    // shift right, and move in the Y row from the adjacent lane
    let down = (b << 32) | (p >> 32);
    // Move the left face of the Y+ block to the right
    let from_yp = n << 32;
    b + up + down + from_yp
}

/// Sum one lane along Z.
pub fn acc_z_lane(b: u64, zm: u64, zp: u64) -> (r: u64)
    requires
        bytes_le(b, 85),
        bytes_le(zm, 85),
        bytes_le(zp, 85),
    ensures
        r == z_lane(b, zm, zp),
        bytes_le(b, 9) && bytes_le(zm, 9) && bytes_le(zp, 9) ==> bytes_le(r, 27),
        bytes_le(b, 3) && bytes_le(zm, 3) && bytes_le(zp, 3) ==> bytes_le(r, 9),
        forall|j: int|
            0 <= j < 8 ==> #[trigger] byte_of(r, j) == byte_of(b, j) + byte_of(zm, j) + byte_of(
                zp,
                j,
            ),
{
    proof {
        lemma_z_lane_bv(b, zm, zp, 0);
        assert forall|j: int| 0 <= j < 8 implies #[trigger] byte_of(z_lane(b, zm, zp), j)
            == byte_of(b, j) + byte_of(zm, j) + byte_of(zp, j) by {
            lemma_z_lane(b, zm, zp, j);
        }
    }
    b + zm + zp
}

proof fn lemma_byte_bv(w: u64, j: u64)
    by (bit_vector)
    requires
        j < 8,
    ensures
        (w >> (8 * j)) & 0xFF <= 0xFF,
{
}

/// Counter `j` of the lane `w`.
pub fn lane_byte(w: u64, j: u8) -> (r: u8)
    requires
        j < 8,
    ensures
        r == byte_of(w, j as int),
{
    proof {
        lemma_byte_bv(w, j as u64);
    }
    ((w >> (8 * j)) & 0xFF) as u8
}

/// One row of an 8×8 block after the pass along X: each counter plus its two neighbors
/// along X.
///
/// `b` is the row itself, `xm` and `xp` the same row of the blocks before and after along X
/// (zero where there is none).
pub closed spec fn x_row(b: u64, xm: u64, xp: u64) -> u64 {
    (b + (b >> 8) + (b << 8) + (xm >> 56) + (xp << 56)) as u64
}

proof fn lemma_x_row_bv(b: u64, xm: u64, xp: u64, j: u64, jm: u64, jp: u64)
    by (bit_vector)
    requires
        bytes_le(b, 85),
        bytes_le(xm, 85),
        bytes_le(xp, 85),
        j < 8,
        jm < 8,
        jp < 8,
        j != 0 ==> jm + 1 == j,
        j == 0 ==> jm == 7,
        j != 7 ==> jp == j + 1,
        j == 7 ==> jp == 0,
    ensures
        b + (b >> 8) + (b << 8) + (xm >> 56) + (xp << 56) <= 0xFFFF_FFFF_FFFF_FFFF,
        bytes_le(b, 1) && bytes_le(xm, 1) && bytes_le(xp, 1) ==> bytes_le(x_row(b, xm, xp), 3),
        (x_row(b, xm, xp) >> (8 * j)) & 0xFF == ((b >> (8 * j)) & 0xFF) + (if j != 0 {
            (b >> (8 * jm)) & 0xFF
        } else {
            (xm >> (8 * jm)) & 0xFF
        }) + (if j != 7 {
            (b >> (8 * jp)) & 0xFF
        } else {
            (xp >> (8 * jp)) & 0xFF
        }),
{
}

/// The counters of a row after the pass along X.
pub proof fn lemma_x_row(b: u64, xm: u64, xp: u64, j: int)
    requires
        bytes_le(b, 85),
        bytes_le(xm, 85),
        bytes_le(xp, 85),
        0 <= j < 8,
    ensures
        bytes_le(b, 1) && bytes_le(xm, 1) && bytes_le(xp, 1) ==> bytes_le(x_row(b, xm, xp), 3),
        byte_of(x_row(b, xm, xp), j) == byte_of(b, j) + (if j != 0 {
            byte_of(b, j - 1)
        } else {
            byte_of(xm, 7)
        }) + (if j != 7 {
            byte_of(b, j + 1)
        } else {
            byte_of(xp, 0)
        }),
{
    let jm = if j != 0 {
        j - 1
    } else {
        7
    };
    let jp = if j != 7 {
        j + 1
    } else {
        0
    };
    lemma_x_row_bv(b, xm, xp, j as u64, jm as u64, jp as u64);
}

/// Sum one row of an 8×8 block along X.
pub fn acc_x_row(b: u64, xm: u64, xp: u64) -> (r: u64)
    requires
        bytes_le(b, 85),
        bytes_le(xm, 85),
        bytes_le(xp, 85),
    ensures
        r == x_row(b, xm, xp),
        bytes_le(b, 1) && bytes_le(xm, 1) && bytes_le(xp, 1) ==> bytes_le(r, 3),
        forall|j: int|
            0 <= j < 8 ==> #[trigger] byte_of(r, j) == byte_of(b, j) + (if j != 0 {
                byte_of(b, j - 1)
            } else {
                byte_of(xm, 7)
            }) + (if j != 7 {
                byte_of(b, j + 1)
            } else {
                byte_of(xp, 0)
            }),
{
    proof {
        lemma_x_row_bv(b, xm, xp, 0, 7, 1);
        assert forall|j: int| 0 <= j < 8 implies #[trigger] byte_of(x_row(b, xm, xp), j)
            == byte_of(b, j) + (if j != 0 {
            byte_of(b, j - 1)
        } else {
            byte_of(xm, 7)
        }) + (if j != 7 {
            byte_of(b, j + 1)
        } else {
            byte_of(xp, 0)
        }) by {
            lemma_x_row(b, xm, xp, j);
        }
    }
    // x- : shift left; the X+ block fills the last cell
    let left = (b >> 8) + (xp << 56);
    // x+ : shift right; the X- block fills the first cell
    let right = (b << 8) + (xm >> 56);
    b + left + right
}

} // verus!
