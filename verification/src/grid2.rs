//! The 2D grid: storage, cell access and fills.

use vstd::prelude::*;
use crate::bits::{
    bit_of,
    lemma_bits_of_ones,
    lemma_bits_of_zero,
    lemma_word_from_bits,
    test_bit,
    with_bit,
};
use crate::layout2::{
    bit_index2,
    block_counts2,
    block_dims2,
    block_index2,
    cell_x2,
    cell_y2,
    lemma_cell_round_trip2,
    lemma_index_round_trip2,
};
use crate::layout3::{
    lemma_linear_decode,
    lemma_linear_walk,
    linear_index,
    linear_offset,
    step_linear,
    volume,
    volume_of,
    within,
};
use crate::vector::{IVec2, UVec2, UVec3};

verus! {

/// 2D cellular automaton grid.
///
/// Each cell in the grid is encoded as a bit, and can be alive (`1`) or dead (`0`).
#[derive(Clone)]
pub struct Grid2 {
    /// Grid size, in number of cells.
    pub size: UVec2,
    /// Bit blocks encoding the state of all cells in the grid, one per 8×8 tile of cells.
    ///
    /// The blocks are laid out in X-major order, that is all X blocks for
    /// Y=0, then all X blocks for Y=1, etc.
    pub data: Vec<u64>,
}

/// Whether bit `q` of the block stored at `blk` holds a cell of a grid of `size` cells.
pub open spec fn slot_in_range2(size: UVec2, blk: int, q: int) -> bool {
    let nb = block_dims2(size);
    &&& cell_x2(nb, blk, q) < size.x
    &&& cell_y2(nb, blk, q) < size.y
}

impl Grid2 {
    /// Whether `(x, y)` is a cell of the grid.
    pub open spec fn in_range(&self, x: int, y: int) -> bool {
        0 <= x < self.size.x && 0 <= y < self.size.y
    }

    /// The bit stored for `(x, y)`, a position in the space that the blocks cover.
    pub open spec fn stored(&self, x: int, y: int) -> bool {
        bit_of(self.data@[block_index2(block_dims2(self.size), x, y)], bit_index2(x, y))
    }

    /// Whether `(x, y)` is a cell of the grid and alive.
    pub open spec fn alive(&self, x: int, y: int) -> bool {
        self.in_range(x, y) && self.stored(x, y)
    }

    /// What `cell` returns at `pos`.
    pub open spec fn spec_cell(&self, pos: IVec2) -> Option<bool> {
        if self.in_range(pos.x as int, pos.y as int) {
            Some(self.stored(pos.x as int, pos.y as int))
        } else {
            None
        }
    }

    /// Whether `after` is this grid with the cell `(x, y)` set to `value` and every other
    /// cell as it was.
    pub open spec fn set_to(&self, after: &Grid2, x: int, y: int, value: bool) -> bool {
        &&& after.wf()
        &&& after.size == self.size
        &&& forall|a: int, b: int| #[trigger]
            after.alive(a, b) == (if a == x && b == y {
                value
            } else {
                self.alive(a, b)
            })
    }

    /// A grid is well-formed once filled: it has one block per tile, and the bits of the
    /// fringe blocks that lie beyond the grid are zero.
    pub open spec fn wf(&self) -> bool {
        &&& self.data@.len() == volume(block_dims2(self.size))
        &&& forall|blk: int, q: int|
            0 <= blk < self.data@.len() && 0 <= q < 64 && #[trigger] bit_of(self.data@[blk], q)
                ==> slot_in_range2(self.size, blk, q)
    }

    /// Addressing round trip: for every cell of the grid, the block and bit that it resolves
    /// to name a stored bit of the grid, and the coordinates read back from that pair are
    /// those of the cell.
    pub proof fn lemma_addressing_round_trip(&self, x: int, y: int)
        requires
            self.in_range(x, y),
        ensures
            0 <= block_index2(block_dims2(self.size), x, y) < volume(block_dims2(self.size)),
            0 <= bit_index2(x, y) < 64,
            cell_x2(
                block_dims2(self.size),
                block_index2(block_dims2(self.size), x, y),
                bit_index2(x, y),
            ) == x,
            cell_y2(
                block_dims2(self.size),
                block_index2(block_dims2(self.size), x, y),
                bit_index2(x, y),
            ) == y,
    {
        lemma_cell_round_trip2(block_dims2(self.size), x, y);
    }

    /// Accessor round trip: after a cell of the grid is set to a value, reading that cell
    /// gives the value.
    pub proof fn lemma_set_cell_then_cell(&self, after: &Grid2, pos: IVec2, value: bool)
        requires
            self.wf(),
            self.in_range(pos.x as int, pos.y as int),
            self.set_to(after, pos.x as int, pos.y as int, value),
        ensures
            after.spec_cell(pos) == Some(value),
    {
        assert(after.alive(pos.x as int, pos.y as int) == value);
    }

    /// The cells of a grid determine its blocks: two well-formed grids of one size with the
    /// same alive cells hold the same blocks.
    pub proof fn lemma_cells_determine_blocks(&self, other: &Grid2)
        requires
            self.wf(),
            other.wf(),
            self.size == other.size,
            forall|x: int, y: int| #[trigger] self.alive(x, y) == other.alive(x, y),
        ensures
            self.data@ == other.data@,
    {
        let nb = block_dims2(self.size);
        assert forall|blk: int| 0 <= blk < self.data@.len() implies #[trigger] self.data@[blk]
            == other.data@[blk] by {
            assert forall|q: int| 0 <= q < 64 implies #[trigger] bit_of(self.data@[blk], q)
                == bit_of(other.data@[blk], q) by {
                lemma_index_round_trip2(nb, blk, q);
                let x = cell_x2(nb, blk, q);
                let y = cell_y2(nb, blk, q);
                assert(self.alive(x, y) == other.alive(x, y));
                if !slot_in_range2(self.size, blk, q) {
                    assert(!bit_of(self.data@[blk], q));
                    assert(!bit_of(other.data@[blk], q));
                }
            }
            lemma_word_from_bits(self.data@[blk], other.data@[blk]);
        }
        assert(self.data@ =~= other.data@);
    }

    /// Create a new empty grid of the given size.
    ///
    /// The grid is not allocated until `fill` or `fill_rand` is called.
    pub fn new(size: UVec2) -> (grid: Self)
        ensures
            grid.size == size,
            grid.data@.len() == 0,
    {
        Self { size, data: Vec::new() }
    }

    /// Get the number of bit blocks to allocate for a given grid size.
    ///
    /// A bit block is a single `u64` value encoding the alive/dead state of a
    /// 8x8 block of 64 cells.
    pub fn get_bitblock_count(size: UVec2) -> (n: usize)
        requires
            volume(block_dims2(size)) <= usize::MAX,
        ensures
            n == volume(block_dims2(size)),
    {
        volume_of(block_counts2(size))
    }

    /// The block at `pos` of a grid of `size` cells in which a cell is alive where its draw,
    /// one of the 64 from `base` on, is `true`.
    fn drawn_block(size: UVec2, pos: UVec3, draws: &[bool], base: usize) -> (m: u64)
        requires
            within(block_dims2(size), pos.x as int, pos.y as int, pos.z as int),
            base + 64 <= draws@.len(),
        ensures
            forall|q: int|
                0 <= q < 64 ==> #[trigger] bit_of(m, q) == (draws@[base + q] && 8 * pos.x + q % 8
                    < size.x && 8 * pos.y + q / 8 < size.y),
    {
        let x0: u32 = 8 * pos.x;
        let y0: u32 = 8 * pos.y;
        let mut m: u64 = 0;
        let mut q: u8 = 0;
        proof {
            assert forall|i: int| 0 <= i < 64 implies !#[trigger] bit_of(m, i) by {
                lemma_bits_of_zero(i);
            }
        }
        assert(draws.len() == draws@.len());
        while q < 64
            invariant
                q <= 64,
                base + 64 <= draws@.len(),
                draws@.len() <= usize::MAX,
                x0 == 8 * pos.x,
                y0 == 8 * pos.y,
                x0 < size.x,
                y0 < size.y,
                forall|i: int|
                    0 <= i < q ==> #[trigger] bit_of(m, i) == (draws@[base + i] && 8 * pos.x + i % 8
                        < size.x && 8 * pos.y + i / 8 < size.y),
                forall|i: int| q <= i < 64 ==> !#[trigger] bit_of(m, i),
            decreases 64 - q,
        {
            let lx: u32 = (q % 8) as u32;
            let ly: u32 = (q / 8) as u32;
            if draws[base + q as usize] && lx < size.x - x0 && ly < size.y - y0 {
                m = with_bit(m, q, true);
            }
            q = q + 1;
        }
        m
    }

    /// The block at `pos` of a grid of `size` cells in which every cell is alive.
    fn full_block(size: UVec2, pos: UVec3) -> (m: u64)
        requires
            within(block_dims2(size), pos.x as int, pos.y as int, pos.z as int),
        ensures
            forall|q: int|
                0 <= q < 64 ==> #[trigger] bit_of(m, q) == (8 * pos.x + q % 8 < size.x && 8 * pos.y
                    + q / 8 < size.y),
    {
        let x0: u32 = 8 * pos.x;
        let y0: u32 = 8 * pos.y;
        if size.x - x0 >= 8 && size.y - y0 >= 8 {
            proof {
                assert forall|q: int| 0 <= q < 64 implies #[trigger] bit_of(
                    0xFFFF_FFFF_FFFF_FFFFu64,
                    q,
                ) by {
                    lemma_bits_of_ones(q);
                }
            }
            return 0xFFFF_FFFF_FFFF_FFFFu64;
        }
        let mut m: u64 = 0;
        let mut q: u8 = 0;
        proof {
            assert forall|i: int| 0 <= i < 64 implies !#[trigger] bit_of(m, i) by {
                lemma_bits_of_zero(i);
            }
        }
        while q < 64
            invariant
                q <= 64,
                x0 == 8 * pos.x,
                y0 == 8 * pos.y,
                x0 < size.x,
                y0 < size.y,
                forall|i: int|
                    0 <= i < q ==> #[trigger] bit_of(m, i) == (8 * pos.x + i % 8 < size.x && 8
                        * pos.y + i / 8 < size.y),
                forall|i: int| q <= i < 64 ==> !#[trigger] bit_of(m, i),
            decreases 64 - q,
        {
            let lx: u32 = (q % 8) as u32;
            let ly: u32 = (q / 8) as u32;
            if lx < size.x - x0 && ly < size.y - y0 {
                m = with_bit(m, q, true);
            }
            q = q + 1;
        }
        m
    }

    /// Fill the grid with the given `value`.
    ///
    /// The bits of fringe blocks that lie beyond the grid stay zero.
    pub fn fill(&mut self, value: bool)
        requires
            volume(block_dims2(old(self).size)) <= usize::MAX,
        ensures
            final(self).size == old(self).size,
            final(self).wf(),
            forall|x: int, y: int|
                #[trigger] final(self).alive(x, y) == (value && final(self).in_range(x, y)),
    {
        let size = self.size;
        let nb = block_counts2(size);
        let total = volume_of(nb);
        let mut data: Vec<u64> = Vec::with_capacity(total);
        let mut pos = UVec3 { x: 0, y: 0, z: 0 };
        proof {
            lemma_linear_walk(nb);
        }
        while data.len() < total
            invariant
                nb == block_dims2(size),
                total == volume(nb),
                data@.len() <= total,
                data@.len() == linear_index(nb, pos.x as int, pos.y as int, pos.z as int),
                data@.len() < total ==> within(nb, pos.x as int, pos.y as int, pos.z as int),
                forall|blk: int, q: int|
                    0 <= blk < data@.len() && 0 <= q < 64 ==> #[trigger] bit_of(data@[blk], q) == (
                    value && slot_in_range2(size, blk, q)),
            decreases total - data@.len(),
        {
            let ghost blk = data@.len() as int;
            let block = if value {
                Self::full_block(size, pos)
            } else {
                0
            };
            proof {
                lemma_linear_decode(nb, pos.x as int, pos.y as int, pos.z as int);
                assert forall|q: int| 0 <= q < 64 implies #[trigger] bit_of(block, q) == (value
                    && slot_in_range2(size, blk, q)) by {
                    lemma_bits_of_zero(q);
                }
                lemma_linear_walk(nb);
            }
            data.push(block);
            pos = step_linear(nb, pos);
        }
        self.data = data;
        proof {
            assert forall|x: int, y: int| #[trigger]
                self.alive(x, y) == (value && self.in_range(x, y)) by {
                if self.in_range(x, y) {
                    lemma_cell_round_trip2(nb, x, y);
                }
            }
        }
    }

    /// Fill the grid from the outcomes of random draws.
    ///
    /// `draws` holds one outcome per bit of storage, block after block: a cell of the grid is
    /// alive where its draw is `true`. The draws that fall on the bits of fringe blocks beyond
    /// the grid are left unused, and those bits stay zero. With draws that are each `true`
    /// with the same probability, that probability is the fill ratio: the proportion of alive
    /// cells.
    pub fn fill_rand(&mut self, draws: &[bool])
        requires
            draws@.len() == 64 * volume(block_dims2(old(self).size)),
        ensures
            final(self).size == old(self).size,
            final(self).wf(),
            forall|x: int, y: int|
                #[trigger] final(self).alive(x, y) == (final(self).in_range(x, y) && draws@[64
                    * block_index2(block_dims2(final(self).size), x, y) + bit_index2(x, y)]),
    {
        let size = self.size;
        let nb = block_counts2(size);
        let total = draws.len() / 64;
        let mut data: Vec<u64> = Vec::with_capacity(total);
        let mut pos = UVec3 { x: 0, y: 0, z: 0 };
        proof {
            lemma_linear_walk(nb);
        }
        while data.len() < total
            invariant
                nb == block_dims2(size),
                total == volume(nb),
                draws@.len() == 64 * total,
                draws@.len() <= usize::MAX,
                data@.len() <= total,
                data@.len() == linear_index(nb, pos.x as int, pos.y as int, pos.z as int),
                data@.len() < total ==> within(nb, pos.x as int, pos.y as int, pos.z as int),
                forall|blk: int, q: int|
                    0 <= blk < data@.len() && 0 <= q < 64 ==> #[trigger] bit_of(data@[blk], q) == (
                    draws@[64 * blk + q] && slot_in_range2(size, blk, q)),
            decreases total - data@.len(),
        {
            proof {
                lemma_linear_decode(nb, pos.x as int, pos.y as int, pos.z as int);
                lemma_linear_walk(nb);
            }
            let block = Self::drawn_block(size, pos, draws, 64 * data.len());
            data.push(block);
            pos = step_linear(nb, pos);
        }
        self.data = data;
        proof {
            assert forall|x: int, y: int| #[trigger]
                self.alive(x, y) == (self.in_range(x, y) && draws@[64 * block_index2(nb, x, y)
                    + bit_index2(x, y)]) by {
                if self.in_range(x, y) {
                    lemma_cell_round_trip2(nb, x, y);
                }
            }
        }
    }

    /// Array index and bit of the cell `(x, y)` of the grid.
    pub fn slot(&self, x: u32, y: u32) -> (r: (usize, u8))
        requires
            volume(block_dims2(self.size)) <= usize::MAX,
            self.in_range(x as int, y as int),
        ensures
            r.0 == block_index2(block_dims2(self.size), x as int, y as int),
            r.1 == bit_index2(x as int, y as int),
            r.0 < volume(block_dims2(self.size)),
            r.1 < 64,
    {
        let nb = block_counts2(self.size);
        let index = linear_offset(nb, UVec3 { x: x / 8, y: y / 8, z: 0 });
        let bit = (8 * (y % 8) + x % 8) as u8;
        (index, bit)
    }

    /// The state of the cell `(x, y)` of the grid.
    pub fn cell_at(&self, x: u32, y: u32) -> (alive: bool)
        requires
            self.wf(),
            self.in_range(x as int, y as int),
        ensures
            alive == self.stored(x as int, y as int),
    {
        assert(self.data.len() == self.data@.len());
        let (index, bit) = self.slot(x, y);
        test_bit(self.data[index], bit)
    }

    /// Set the state of the cell `(x, y)` of the grid.
    pub fn set_cell_at(&mut self, x: u32, y: u32, value: bool)
        requires
            old(self).wf(),
            old(self).in_range(x as int, y as int),
        ensures
            old(self).set_to(final(self), x as int, y as int, value),
    {
        assert(self.data.len() == self.data@.len());
        let (index, bit) = self.slot(x, y);
        let ghost nb = block_dims2(self.size);
        let ghost before = self.data@;
        let block = with_bit(self.data[index], bit, value);
        self.data[index] = block;
        proof {
            lemma_cell_round_trip2(nb, x as int, y as int);
            assert forall|blk: int, q: int|
                0 <= blk < self.data@.len() && 0 <= q < 64 && #[trigger] bit_of(
                    self.data@[blk],
                    q,
                ) implies slot_in_range2(self.size, blk, q) by {
                if blk == index && q == bit {
                } else {
                    assert(bit_of(before[blk], q));
                }
            }
            assert forall|a: int, b: int| #[trigger]
                self.alive(a, b) == (if a == x && b == y {
                    value
                } else {
                    old(self).alive(a, b)
                }) by {
                if self.in_range(a, b) {
                    lemma_cell_round_trip2(nb, a, b);
                }
            }
        }
    }

    /// The state of the cell at `pos`, or `None` where `pos` is not a cell of the grid.
    ///
    /// Only a cell of the grid asks for a filled grid: beyond the grid the answer is `None`
    /// in any state of the grid.
    pub fn cell(&self, pos: IVec2) -> (r: Option<bool>)
        requires
            self.in_range(pos.x as int, pos.y as int) ==> self.wf(),
        ensures
            r == self.spec_cell(pos),
    {
        if pos.x < 0 || pos.y < 0 || pos.x as u32 >= self.size.x || pos.y as u32 >= self.size.y {
            None
        } else {
            Some(self.cell_at(pos.x as u32, pos.y as u32))
        }
    }

    /// Set the state of the cell at `pos`. Does nothing where `pos` is not a cell of the grid.
    ///
    /// Only a cell of the grid asks for a filled grid: beyond the grid nothing is done in any
    /// state of the grid.
    pub fn set_cell(&mut self, pos: IVec2, value: bool)
        requires
            old(self).in_range(pos.x as int, pos.y as int) ==> old(self).wf(),
        ensures
            old(self).in_range(pos.x as int, pos.y as int) ==> old(self).set_to(
                final(self),
                pos.x as int,
                pos.y as int,
                value,
            ),
            !old(self).in_range(pos.x as int, pos.y as int) ==> *final(self) == *old(self),
    {
        if pos.x < 0 || pos.y < 0 || pos.x as u32 >= self.size.x || pos.y as u32 >= self.size.y {
        } else {
            self.set_cell_at(pos.x as u32, pos.y as u32, value);
        }
    }
}

} // verus!
