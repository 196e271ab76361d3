//! The 3D grid: storage, cell access and fills.

use vstd::prelude::*;
use crate::bits::{
    bit_of,
    lemma_bits_of_ones,
    lemma_bits_of_zero,
    lemma_word_from_bits,
    test_bit,
    with_bit,
};
use crate::layout3::{
    bit_index,
    linear_index,
    volume_of,
    block_counts,
    block_dims,
    within,
    block_index,
    linear_offset,
    volume,
    cell_x,
    cell_y,
    cell_z,
    lemma_linear_decode,
    lemma_linear_walk,
    lemma_cell_round_trip,
    lemma_index_round_trip,
    step_linear,
};
use crate::vector::{IVec3, UVec3};

verus! {

/// 3D cellular automaton grid.
///
/// Each cell in the grid is encoded as a bit, and can be alive (`1`) or dead (`0`).
#[derive(Clone)]
pub struct Grid3 {
    /// Grid size, in number of cells.
    pub size: UVec3,
    /// Bit blocks encoding the state of all cells in the grid, one per 4×4×4 tile of cells.
    ///
    /// The blocks are laid out in X-major and Z-minor order, that is all X blocks for
    /// Y=Z=0, then all X blocks for Z=0 and Y=1, etc.
    pub data: Vec<u64>,
}

/// Whether bit `q` of the block stored at `blk` holds a cell of a grid of `size` cells.
pub open spec fn slot_in_range(size: UVec3, blk: int, q: int) -> bool {
    let nb = block_dims(size);
    &&& cell_x(nb, blk, q) < size.x
    &&& cell_y(nb, blk, q) < size.y
    &&& cell_z(nb, blk, q) < size.z
}

impl Grid3 {
    /// Whether `(x, y, z)` is a cell of the grid.
    pub open spec fn in_range(&self, x: int, y: int, z: int) -> bool {
        0 <= x < self.size.x && 0 <= y < self.size.y && 0 <= z < self.size.z
    }

    /// The bit stored for `(x, y, z)`, a position in the space that the blocks cover.
    pub open spec fn stored(&self, x: int, y: int, z: int) -> bool {
        bit_of(self.data@[block_index(block_dims(self.size), x, y, z)], bit_index(x, y, z))
    }

    /// Whether `(x, y, z)` is a cell of the grid and alive.
    pub open spec fn alive(&self, x: int, y: int, z: int) -> bool {
        self.in_range(x, y, z) && self.stored(x, y, z)
    }

    /// What `cell` returns at `pos`.
    pub open spec fn spec_cell(&self, pos: IVec3) -> Option<bool> {
        if self.in_range(pos.x as int, pos.y as int, pos.z as int) {
            Some(self.stored(pos.x as int, pos.y as int, pos.z as int))
        } else {
            None
        }
    }

    /// Whether `after` is this grid with the cell `(x, y, z)` set to `value` and every other
    /// cell as it was.
    pub open spec fn set_to(&self, after: &Grid3, x: int, y: int, z: int, value: bool) -> bool {
        &&& after.wf()
        &&& after.size == self.size
        &&& forall|a: int, b: int, c: int| #[trigger]
            after.alive(a, b, c) == (if a == x && b == y && c == z {
                value
            } else {
                self.alive(a, b, c)
            })
    }

    /// A grid is well-formed once filled: it has one block per tile, and the bits of the
    /// fringe blocks that lie beyond the grid are zero.
    pub open spec fn wf(&self) -> bool {
        &&& self.data@.len() == volume(block_dims(self.size))
        &&& forall|blk: int, q: int|
            0 <= blk < self.data@.len() && 0 <= q < 64 && #[trigger] bit_of(self.data@[blk], q)
                ==> slot_in_range(self.size, blk, q)
    }

    /// Addressing round trip: for every cell of the grid, the block and bit that it resolves
    /// to name a stored bit of the grid, and the coordinates read back from that pair are
    /// those of the cell.
    pub proof fn lemma_addressing_round_trip(&self, x: int, y: int, z: int)
        requires
            self.in_range(x, y, z),
        ensures
            0 <= block_index(block_dims(self.size), x, y, z) < volume(block_dims(self.size)),
            0 <= bit_index(x, y, z) < 64,
            cell_x(
                block_dims(self.size),
                block_index(block_dims(self.size), x, y, z),
                bit_index(x, y, z),
            ) == x,
            cell_y(
                block_dims(self.size),
                block_index(block_dims(self.size), x, y, z),
                bit_index(x, y, z),
            ) == y,
            cell_z(
                block_dims(self.size),
                block_index(block_dims(self.size), x, y, z),
                bit_index(x, y, z),
            ) == z,
    {
        lemma_cell_round_trip(block_dims(self.size), x, y, z);
    }

    /// Accessor round trip: after a cell of the grid is set to a value, reading that cell
    /// gives the value.
    pub proof fn lemma_set_cell_then_cell(&self, after: &Grid3, pos: IVec3, value: bool)
        requires
            self.wf(),
            self.in_range(pos.x as int, pos.y as int, pos.z as int),
            self.set_to(after, pos.x as int, pos.y as int, pos.z as int, value),
        ensures
            after.spec_cell(pos) == Some(value),
    {
        assert(after.alive(pos.x as int, pos.y as int, pos.z as int) == value);
    }

    /// The cells of a grid determine its blocks: two well-formed grids of one size with the
    /// same alive cells hold the same blocks.
    pub proof fn lemma_cells_determine_blocks(&self, other: &Grid3)
        requires
            self.wf(),
            other.wf(),
            self.size == other.size,
            forall|x: int, y: int, z: int| #[trigger] self.alive(x, y, z) == other.alive(x, y, z),
        ensures
            self.data@ == other.data@,
    {
        let nb = block_dims(self.size);
        assert forall|blk: int| 0 <= blk < self.data@.len() implies #[trigger] self.data@[blk]
            == other.data@[blk] by {
            assert forall|q: int| 0 <= q < 64 implies #[trigger] bit_of(self.data@[blk], q)
                == bit_of(other.data@[blk], q) by {
                lemma_index_round_trip(nb, blk, q);
                let x = cell_x(nb, blk, q);
                let y = cell_y(nb, blk, q);
                let z = cell_z(nb, blk, q);
                assert(self.alive(x, y, z) == other.alive(x, y, z));
                if !slot_in_range(self.size, blk, q) {
                    assert(!bit_of(self.data@[blk], q));
                    assert(!bit_of(other.data@[blk], q));
                }
            }
            lemma_word_from_bits(self.data@[blk], other.data@[blk]);
        }
        assert(self.data@ =~= other.data@);
    }

    /// Create a new empty grid of the given size.
    ///
    /// The grid is not allocated until `fill` or `fill_rand` is called.
    pub fn new(size: UVec3) -> (grid: Self)
        ensures
            grid.size == size,
            grid.data@.len() == 0,
    {
        Self { size, data: Vec::new() }
    }

    /// Get the number of bit blocks to allocate for a given grid size.
    ///
    /// A bit block is a single `u64` value encoding the alive/dead state of a
    /// 4x4x4 block of 64 cells.
    pub fn get_bitblock_count(size: UVec3) -> (n: usize)
        requires
            volume(block_dims(size)) <= usize::MAX,
        ensures
            n == volume(block_dims(size)),
    {
        volume_of(block_counts(size))
    }

    /// The block at `pos` of a grid of `size` cells in which every cell is alive.
    fn full_block(size: UVec3, pos: UVec3) -> (m: u64)
        requires
            within(block_dims(size), pos.x as int, pos.y as int, pos.z as int),
        ensures
            forall|q: int|
                0 <= q < 64 ==> #[trigger] bit_of(m, q) == (4 * pos.x + q % 4 < size.x && 4 * pos.y
                    + (q / 4) % 4 < size.y && 4 * pos.z + q / 16 < size.z),
    {
        let x0: u32 = 4 * pos.x;
        let y0: u32 = 4 * pos.y;
        let z0: u32 = 4 * pos.z;
        if size.x - x0 >= 4 && size.y - y0 >= 4 && size.z - z0 >= 4 {
            proof {
                assert forall|q: int| 0 <= q < 64 implies #[trigger] bit_of(
                    0xFFFF_FFFF_FFFF_FFFFu64,
                    q,
                ) by {
                    lemma_bits_of_ones(q);
                }
            }
            return 0xFFFF_FFFF_FFFF_FFFFu64;
        }
        let mut m: u64 = 0;
        let mut q: u8 = 0;
        proof {
            assert forall|i: int| 0 <= i < 64 implies !#[trigger] bit_of(m, i) by {
                lemma_bits_of_zero(i);
            }
        }
        while q < 64
            invariant
                q <= 64,
                x0 == 4 * pos.x,
                y0 == 4 * pos.y,
                z0 == 4 * pos.z,
                x0 < size.x,
                y0 < size.y,
                z0 < size.z,
                forall|i: int|
                    0 <= i < q ==> #[trigger] bit_of(m, i) == (4 * pos.x + i % 4 < size.x && 4
                        * pos.y + (i / 4) % 4 < size.y && 4 * pos.z + i / 16 < size.z),
                forall|i: int| q <= i < 64 ==> !#[trigger] bit_of(m, i),
            decreases 64 - q,
        {
            let lx: u32 = (q % 4) as u32;
            let ly: u32 = ((q / 4) % 4) as u32;
            let lz: u32 = (q / 16) as u32;
            if lx < size.x - x0 && ly < size.y - y0 && lz < size.z - z0 {
                m = with_bit(m, q, true);
            }
            q = q + 1;
        }
        m
    }

    /// Fill the grid with the given `value`.
    ///
    /// The bits of fringe blocks that lie beyond the grid stay zero.
    pub fn fill(&mut self, value: bool)
        requires
            volume(block_dims(old(self).size)) <= usize::MAX,
        ensures
            final(self).size == old(self).size,
            final(self).wf(),
            forall|x: int, y: int, z: int|
                #[trigger] final(self).alive(x, y, z) == (value && final(self).in_range(x, y, z)),
    {
        let size = self.size;
        let nb = block_counts(size);
        let total = volume_of(nb);
        let mut data: Vec<u64> = Vec::with_capacity(total);
        let mut pos = UVec3 { x: 0, y: 0, z: 0 };
        proof {
            lemma_linear_walk(nb);
        }
        while data.len() < total
            invariant
                nb == block_dims(size),
                total == volume(nb),
                data@.len() <= total,
                data@.len() == linear_index(nb, pos.x as int, pos.y as int, pos.z as int),
                data@.len() < total ==> within(nb, pos.x as int, pos.y as int, pos.z as int),
                forall|blk: int, q: int|
                    0 <= blk < data@.len() && 0 <= q < 64 ==> #[trigger] bit_of(data@[blk], q) == (
                    value && slot_in_range(size, blk, q)),
            decreases total - data@.len(),
        {
            let ghost blk = data@.len() as int;
            let block = if value {
                Self::full_block(size, pos)
            } else {
                0
            };
            proof {
                lemma_linear_decode(nb, pos.x as int, pos.y as int, pos.z as int);
                assert forall|q: int| 0 <= q < 64 implies #[trigger] bit_of(block, q) == (value
                    && slot_in_range(size, blk, q)) by {
                    lemma_bits_of_zero(q);
                }
                lemma_linear_walk(nb);
            }
            data.push(block);
            pos = step_linear(nb, pos);
        }
        self.data = data;
        proof {
            assert forall|x: int, y: int, z: int| #[trigger]
                self.alive(x, y, z) == (value && self.in_range(x, y, z)) by {
                if self.in_range(x, y, z) {
                    lemma_cell_round_trip(nb, x, y, z);
                }
            }
        }
    }

    /// The block at `pos` of a grid of `size` cells in which a cell is alive where its draw,
    /// one of the 64 from `base` on, is `true`.
    fn drawn_block(size: UVec3, pos: UVec3, draws: &[bool], base: usize) -> (m: u64)
        requires
            within(block_dims(size), pos.x as int, pos.y as int, pos.z as int),
            base + 64 <= draws@.len(),
        ensures
            forall|q: int|
                0 <= q < 64 ==> #[trigger] bit_of(m, q) == (draws@[base + q] && 4 * pos.x + q % 4
                    < size.x && 4 * pos.y + (q / 4) % 4 < size.y && 4 * pos.z + q / 16 < size.z),
    {
        let x0: u32 = 4 * pos.x;
        let y0: u32 = 4 * pos.y;
        let z0: u32 = 4 * pos.z;
        let mut m: u64 = 0;
        let mut q: u8 = 0;
        proof {
            assert forall|i: int| 0 <= i < 64 implies !#[trigger] bit_of(m, i) by {
                lemma_bits_of_zero(i);
            }
        }
        assert(draws.len() == draws@.len());
        while q < 64
            invariant
                q <= 64,
                base + 64 <= draws@.len(),
                draws@.len() <= usize::MAX,
                x0 == 4 * pos.x,
                y0 == 4 * pos.y,
                z0 == 4 * pos.z,
                x0 < size.x,
                y0 < size.y,
                z0 < size.z,
                forall|i: int|
                    0 <= i < q ==> #[trigger] bit_of(m, i) == (draws@[base + i] && 4 * pos.x + i % 4
                        < size.x && 4 * pos.y + (i / 4) % 4 < size.y && 4 * pos.z + i / 16
                        < size.z),
                forall|i: int| q <= i < 64 ==> !#[trigger] bit_of(m, i),
            decreases 64 - q,
        {
            let lx: u32 = (q % 4) as u32;
            let ly: u32 = ((q / 4) % 4) as u32;
            let lz: u32 = (q / 16) as u32;
            if draws[base + q as usize] && lx < size.x - x0 && ly < size.y - y0 && lz < size.z
                - z0 {
                m = with_bit(m, q, true);
            }
            q = q + 1;
        }
        m
    }

    /// Fill the grid from the outcomes of random draws.
    ///
    /// `draws` holds one outcome per bit of storage, block after block: a cell of the grid is
    /// alive where its draw is `true`. The draws that fall on the bits of fringe blocks beyond
    /// the grid are left unused, and those bits stay zero. With draws that are each `true`
    /// with the same probability, that probability is the fill ratio: the proportion of alive
    /// cells.
    pub fn fill_rand(&mut self, draws: &[bool])
        requires
            draws@.len() == 64 * volume(block_dims(old(self).size)),
        ensures
            final(self).size == old(self).size,
            final(self).wf(),
            forall|x: int, y: int, z: int|
                #[trigger] final(self).alive(x, y, z) == (final(self).in_range(x, y, z) && draws@[64
                    * block_index(block_dims(final(self).size), x, y, z) + bit_index(x, y, z)]),
    {
        let size = self.size;
        let nb = block_counts(size);
        let total = draws.len() / 64;
        let mut data: Vec<u64> = Vec::with_capacity(total);
        let mut pos = UVec3 { x: 0, y: 0, z: 0 };
        proof {
            lemma_linear_walk(nb);
        }
        while data.len() < total
            invariant
                nb == block_dims(size),
                total == volume(nb),
                draws@.len() == 64 * total,
                draws@.len() <= usize::MAX,
                data@.len() <= total,
                data@.len() == linear_index(nb, pos.x as int, pos.y as int, pos.z as int),
                data@.len() < total ==> within(nb, pos.x as int, pos.y as int, pos.z as int),
                forall|blk: int, q: int|
                    0 <= blk < data@.len() && 0 <= q < 64 ==> #[trigger] bit_of(data@[blk], q) == (
                    draws@[64 * blk + q] && slot_in_range(size, blk, q)),
            decreases total - data@.len(),
        {
            proof {
                lemma_linear_decode(nb, pos.x as int, pos.y as int, pos.z as int);
                lemma_linear_walk(nb);
            }
            let block = Self::drawn_block(size, pos, draws, 64 * data.len());
            data.push(block);
            pos = step_linear(nb, pos);
        }
        self.data = data;
        proof {
            assert forall|x: int, y: int, z: int| #[trigger]
                self.alive(x, y, z) == (self.in_range(x, y, z) && draws@[64 * block_index(
                    nb,
                    x,
                    y,
                    z,
                ) + bit_index(x, y, z)]) by {
                if self.in_range(x, y, z) {
                    lemma_cell_round_trip(nb, x, y, z);
                }
            }
        }
    }

    /// Array index and bit of the cell `(x, y, z)` of the grid.
    pub fn slot(&self, x: u32, y: u32, z: u32) -> (r: (usize, u8))
        requires
            volume(block_dims(self.size)) <= usize::MAX,
            self.in_range(x as int, y as int, z as int),
        ensures
            r.0 == block_index(block_dims(self.size), x as int, y as int, z as int),
            r.1 == bit_index(x as int, y as int, z as int),
            r.0 < volume(block_dims(self.size)),
            r.1 < 64,
    {
        let nb = block_counts(self.size);
        let index = linear_offset(nb, UVec3 { x: x / 4, y: y / 4, z: z / 4 });
        let bit = (x % 4 + 4 * (y % 4) + 16 * (z % 4)) as u8;
        (index, bit)
    }

    /// Resolve the position of a cell in the grid to its array index and bit.
    pub fn resolve(&self, pos: IVec3) -> (r: Option<(usize, u8)>)
        requires
            self.in_range(pos.x as int, pos.y as int, pos.z as int) ==> volume(
                block_dims(self.size),
            ) <= usize::MAX,
        ensures
            r is Some <==> self.in_range(pos.x as int, pos.y as int, pos.z as int),
            r matches Some((index, bit)) ==> {
                &&& index == block_index(
                    block_dims(self.size),
                    pos.x as int,
                    pos.y as int,
                    pos.z as int,
                )
                &&& bit == bit_index(pos.x as int, pos.y as int, pos.z as int)
                &&& index < volume(block_dims(self.size))
                &&& bit < 64
            },
    {
        if pos.x < 0 || pos.y < 0 || pos.z < 0 || pos.x as u32 >= self.size.x || pos.y as u32
            >= self.size.y || pos.z as u32 >= self.size.z {
            None
        } else {
            Some(self.slot(pos.x as u32, pos.y as u32, pos.z as u32))
        }
    }

    /// Resolve the position of a cell in the grid to its array index and bit mask.
    pub fn resolve_bit(&self, pos: IVec3) -> (r: Option<(usize, u64)>)
        requires
            self.in_range(pos.x as int, pos.y as int, pos.z as int) ==> volume(
                block_dims(self.size),
            ) <= usize::MAX,
        ensures
            r is Some <==> self.in_range(pos.x as int, pos.y as int, pos.z as int),
            r matches Some((index, mask)) ==> {
                &&& index == block_index(
                    block_dims(self.size),
                    pos.x as int,
                    pos.y as int,
                    pos.z as int,
                )
                &&& mask == 1u64 << bit_index(pos.x as int, pos.y as int, pos.z as int)
            },
    {
        match self.resolve(pos) {
            Some((index, bit)) => Some((index, 1u64 << bit)),
            None => None,
        }
    }

    /// The state of the cell `(x, y, z)` of the grid.
    pub fn cell_at(&self, x: u32, y: u32, z: u32) -> (alive: bool)
        requires
            self.wf(),
            self.in_range(x as int, y as int, z as int),
        ensures
            alive == self.stored(x as int, y as int, z as int),
    {
        assert(self.data.len() == self.data@.len());
        let (index, bit) = self.slot(x, y, z);
        test_bit(self.data[index], bit)
    }

    /// Set the state of the cell `(x, y, z)` of the grid.
    pub fn set_cell_at(&mut self, x: u32, y: u32, z: u32, value: bool)
        requires
            old(self).wf(),
            old(self).in_range(x as int, y as int, z as int),
        ensures
            old(self).set_to(final(self), x as int, y as int, z as int, value),
    {
        assert(self.data.len() == self.data@.len());
        let (index, bit) = self.slot(x, y, z);
        let ghost nb = block_dims(self.size);
        let ghost before = self.data@;
        let block = with_bit(self.data[index], bit, value);
        self.data[index] = block;
        proof {
            lemma_cell_round_trip(nb, x as int, y as int, z as int);
            assert forall|blk: int, q: int|
                0 <= blk < self.data@.len() && 0 <= q < 64 && #[trigger] bit_of(
                    self.data@[blk],
                    q,
                ) implies slot_in_range(self.size, blk, q) by {
                if blk == index && q == bit {
                } else {
                    assert(bit_of(before[blk], q));
                }
            }
            assert forall|a: int, b: int, c: int| #[trigger]
                self.alive(a, b, c) == (if a == x && b == y && c == z {
                    value
                } else {
                    old(self).alive(a, b, c)
                }) by {
                if self.in_range(a, b, c) {
                    lemma_cell_round_trip(nb, a, b, c);
                }
            }
        }
    }

    /// The state of the cell at `pos`, or `None` where `pos` is not a cell of the grid.
    ///
    /// Only a cell of the grid asks for a filled grid: beyond the grid the answer is `None`
    /// in any state of the grid.
    pub fn cell(&self, pos: IVec3) -> (r: Option<bool>)
        requires
            self.in_range(pos.x as int, pos.y as int, pos.z as int) ==> self.wf(),
        ensures
            r == self.spec_cell(pos),
    {
        if pos.x < 0 || pos.y < 0 || pos.z < 0 || pos.x as u32 >= self.size.x || pos.y as u32
            >= self.size.y || pos.z as u32 >= self.size.z {
            None
        } else {
            Some(self.cell_at(pos.x as u32, pos.y as u32, pos.z as u32))
        }
    }

    /// Set the state of the cell at `pos`. Does nothing where `pos` is not a cell of the grid.
    ///
    /// Only a cell of the grid asks for a filled grid: beyond the grid nothing is done in any
    /// state of the grid.
    pub fn set_cell(&mut self, pos: IVec3, value: bool)
        requires
            old(self).in_range(pos.x as int, pos.y as int, pos.z as int) ==> old(self).wf(),
        ensures
            old(self).in_range(pos.x as int, pos.y as int, pos.z as int) ==> old(self).set_to(
                final(self),
                pos.x as int,
                pos.y as int,
                pos.z as int,
                value,
            ),
            !old(self).in_range(pos.x as int, pos.y as int, pos.z as int) ==> *final(self) == *old(
                self,
            ),
    {
        if pos.x < 0 || pos.y < 0 || pos.z < 0 || pos.x as u32 >= self.size.x || pos.y as u32
            >= self.size.y || pos.z as u32 >= self.size.z {
        } else {
            self.set_cell_at(pos.x as u32, pos.y as u32, pos.z as u32, value);
        }
    }
}

} // verus!
