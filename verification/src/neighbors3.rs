//! Neighbor counts on the 3D grid: what a count is, the cell-by-cell reference counter, and
//! the separable counter over whole blocks.

use vstd::prelude::*;
use crate::bits::{bit_of, bit_val, byte_of, test_bit};
use crate::grid3::{slot_in_range, Grid3};
use crate::lanes::{lane_byte, lane_of, lemma_lane_of};
use crate::layout3::{
    bit_index,
    block_counts,
    block_dims,
    block_index,
    cell_x,
    cell_y,
    cell_z,
    in_blocks,
    lemma_cell_round_trip,
    lemma_index_round_trip,
    lemma_linear_decode,
    lemma_linear_index_bounds,
    lemma_linear_walk,
    linear_index,
    linear_x,
    linear_y,
    linear_z,
    step_linear,
    volume,
    volume_of,
    within,
};
use crate::separable3::{
    cell_bit,
    cell_counter,
    x_summed,
    y_summed,
    z_summed,
};
use crate::vector::{IVec3, UVec3};

verus! {

/// A cell state as a number: 1 for alive, 0 for dead.
pub open spec fn flag(alive: bool) -> int {
    if alive {
        1
    } else {
        0
    }
}

impl Grid3 {
    /// The state at `(x, y, z)` as a number, where every position beyond the grid is taken
    /// to hold `default`.
    pub open spec fn value(&self, x: int, y: int, z: int, default: bool) -> int {
        if self.in_range(x, y, z) {
            flag(self.stored(x, y, z))
        } else {
            flag(default)
        }
    }

    /// Sum of the states at `(x, y, z)` and its two neighbors along X.
    pub open spec fn row_sum(&self, x: int, y: int, z: int, default: bool) -> int {
        self.value(x - 1, y, z, default) + self.value(x, y, z, default) + self.value(
            x + 1,
            y,
            z,
            default,
        )
    }

    /// Sum of the states of the 3×3 cells around `(x, y, z)` in its Z plane.
    pub open spec fn slab_sum(&self, x: int, y: int, z: int, default: bool) -> int {
        self.row_sum(x, y - 1, z, default) + self.row_sum(x, y, z, default) + self.row_sum(
            x,
            y + 1,
            z,
            default,
        )
    }

    /// Sum of the states of the 3×3×3 cells around `(x, y, z)`, itself included.
    pub open spec fn box_sum(&self, x: int, y: int, z: int, default: bool) -> int {
        self.slab_sum(x, y, z - 1, default) + self.slab_sum(x, y, z, default) + self.slab_sum(
            x,
            y,
            z + 1,
            default,
        )
    }

    /// Number of alive cells among the 26 Moore neighbors of `(x, y, z)`, where every
    /// neighbor beyond the grid is taken to hold `default`.
    pub open spec fn neighbor_count(&self, x: int, y: int, z: int, default: bool) -> int {
        self.box_sum(x, y, z, default) - self.value(x, y, z, default)
    }

    /// The state at `(x, y, z)` as a number, with `default` beyond the grid.
    fn value_at(&self, x: i64, y: i64, z: i64, default: bool) -> (v: u8)
        requires
            self.wf(),
        ensures
            v == self.value(x as int, y as int, z as int, default),
            v <= 1,
    {
        assert(self.data.len() == self.data@.len());
        let alive = if x < 0 || y < 0 || z < 0 || x >= self.size.x as i64 || y
            >= self.size.y as i64 || z >= self.size.z as i64 {
            default
        } else {
            let (index, bit) = self.slot(x as u32, y as u32, z as u32);
            test_bit(self.data[index], bit)
        };
        if alive {
            1
        } else {
            0
        }
    }

    fn row_sum_at(&self, x: i64, y: i64, z: i64, default: bool) -> (v: u8)
        requires
            self.wf(),
            -0x1_0000_0000 <= x <= 0x1_0000_0000,
        ensures
            v == self.row_sum(x as int, y as int, z as int, default),
            v <= 3,
    {
        self.value_at(x - 1, y, z, default) + self.value_at(x, y, z, default) + self.value_at(
            x + 1,
            y,
            z,
            default,
        )
    }

    fn slab_sum_at(&self, x: i64, y: i64, z: i64, default: bool) -> (v: u8)
        requires
            self.wf(),
            -0x1_0000_0000 <= x <= 0x1_0000_0000,
            -0x1_0000_0000 <= y <= 0x1_0000_0000,
        ensures
            v == self.slab_sum(x as int, y as int, z as int, default),
            v <= 9,
    {
        self.row_sum_at(x, y - 1, z, default) + self.row_sum_at(x, y, z, default)
            + self.row_sum_at(x, y + 1, z, default)
    }

    /// Number of alive Moore neighbors of `(x, y, z)`.
    fn count_at(&self, x: i64, y: i64, z: i64, default: bool) -> (count: u8)
        requires
            self.wf(),
            -0x1_0000_0000 <= x <= 0x1_0000_0000,
            -0x1_0000_0000 <= y <= 0x1_0000_0000,
            -0x1_0000_0000 <= z <= 0x1_0000_0000,
        ensures
            count == self.neighbor_count(x as int, y as int, z as int, default),
            count <= 26,
    {
        let total = self.slab_sum_at(x, y, z - 1, default) + self.slab_sum_at(x, y, z, default)
            + self.slab_sum_at(x, y, z + 1, default);
        total - self.value_at(x, y, z, default)
    }

    /// Count the number of alive neighbor cells at the given position, one cell at a time.
    ///
    /// If the position is on the edges of the grid, assume some neighbor exists
    /// outside the grid with a value of `default`. For `default = false`, this
    /// counts the actual neighbors without any change. For `default = true`,
    /// this adds a virtual boundary condition around the grid.
    pub fn count_neighbors_single(&self, pos: IVec3, default: bool) -> (count: u8)
        requires
            self.wf(),
        ensures
            count == self.neighbor_count(pos.x as int, pos.y as int, pos.z as int, default),
            count <= 26,
    {
        self.count_at(pos.x as i64, pos.y as i64, pos.z as i64, default)
    }

    /// Count the alive neighbors of every cell of the grid, one cell at a time.
    ///
    /// The counts come in row-major cell order: all cells along X for Y=Z=0 first.
    pub fn count_neighbors_ref(&self, default: bool) -> (counts: Vec<u8>)
        requires
            self.wf(),
            volume(self.size) <= usize::MAX,
        ensures
            self.counted_by_cell(counts@, default),
    {
        let size = self.size;
        let capacity = volume_of(size);
        let mut counts: Vec<u8> = Vec::with_capacity(capacity);
        let mut pos = UVec3 { x: 0, y: 0, z: 0 };
        proof {
            lemma_linear_walk(size);
        }
        while counts.len() < capacity
            invariant
                self.wf(),
                size == self.size,
                capacity == volume(size),
                counts@.len() <= capacity,
                counts@.len() == linear_index(size, pos.x as int, pos.y as int, pos.z as int),
                counts@.len() < capacity ==> within(size, pos.x as int, pos.y as int, pos.z as int),
                forall|k: int|
                    0 <= k < counts@.len() ==> #[trigger] counts@[k] == self.neighbor_count(
                        linear_x(size, k),
                        linear_y(size, k),
                        linear_z(size, k),
                        default,
                    ),
            decreases capacity - counts@.len(),
        {
            proof {
                lemma_linear_walk(size);
                lemma_linear_decode(size, pos.x as int, pos.y as int, pos.z as int);
            }
            let count = self.count_at(pos.x as i64, pos.y as i64, pos.z as i64, default);
            counts.push(count);
            pos = step_linear(size, pos);
        }
        proof {
            assert forall|x: int, y: int, z: int| self.in_range(x, y, z) implies counts@[linear_index(
                size,
                x,
                y,
                z,
            )] == #[trigger] self.neighbor_count(x, y, z, default) by {
                lemma_linear_index_bounds(size, x, y, z);
                lemma_linear_decode(size, x, y, z);
            }
        }
        counts
    }
}

impl Grid3 {
    /// In a well-formed grid the stored bit of every position is its state with dead cells
    /// beyond the grid: the bits of the fringe are zero.
    pub proof fn lemma_cell_bit_is_value(&self, x: int, y: int, z: int)
        requires
            self.wf(),
        ensures
            cell_bit(self.data@, block_dims(self.size), x, y, z) == self.value(x, y, z, false),
    {
        let nb = block_dims(self.size);
        if in_blocks(nb, x, y, z) {
            lemma_cell_round_trip(nb, x, y, z);
            if !self.in_range(x, y, z) {
                let blk = block_index(nb, x, y, z);
                let q = bit_index(x, y, z);
                if bit_of(self.data@[blk], q) {
                    assert(slot_in_range(self.size, blk, q));
                }
            }
        }
    }

    /// After the three passes, the counter of every cell of the blocks is the sum of its
    /// 3×3×3 box.
    proof fn lemma_passes_sum_box(&self, xs: Seq<u64>, ys: Seq<u64>, zs: Seq<u64>)
        requires
            self.wf(),
            x_summed(self.data@, xs, block_dims(self.size)),
            y_summed(xs, ys, block_dims(self.size)),
            z_summed(ys, zs, block_dims(self.size)),
        ensures
            forall|x: int, y: int, z: int|
                in_blocks(block_dims(self.size), x, y, z) ==> #[trigger] cell_counter(
                    zs,
                    block_dims(self.size),
                    x,
                    y,
                    z,
                ) == self.box_sum(x, y, z, false),
    {
        let nb = block_dims(self.size);
        assert forall|x: int, y: int, z: int| 0 <= x < 4 * nb.x implies #[trigger] cell_counter(
            xs,
            nb,
            x,
            y,
            z,
        ) == self.row_sum(x, y, z, false) by {
            self.lemma_cell_bit_is_value(x - 1, y, z);
            self.lemma_cell_bit_is_value(x, y, z);
            self.lemma_cell_bit_is_value(x + 1, y, z);
        }
        assert forall|x: int, y: int, z: int|
            0 <= x < 4 * nb.x && 0 <= y < 4 * nb.y implies #[trigger] cell_counter(ys, nb, x, y, z)
            == self.slab_sum(x, y, z, false) by {
            assert(cell_counter(xs, nb, x, y - 1, z) == self.row_sum(x, y - 1, z, false));
            assert(cell_counter(xs, nb, x, y, z) == self.row_sum(x, y, z, false));
            assert(cell_counter(xs, nb, x, y + 1, z) == self.row_sum(x, y + 1, z, false));
        }
        assert forall|x: int, y: int, z: int| in_blocks(nb, x, y, z) implies #[trigger] cell_counter(
            zs,
            nb,
            x,
            y,
            z,
        ) == self.box_sum(x, y, z, false) by {
            assert(cell_counter(ys, nb, x, y, z - 1) == self.slab_sum(x, y, z - 1, false));
            assert(cell_counter(ys, nb, x, y, z) == self.slab_sum(x, y, z, false));
            assert(cell_counter(ys, nb, x, y, z + 1) == self.slab_sum(x, y, z + 1, false));
        }
    }

    /// Whether `lanes` holds, for every cell of the blocks, the sum of its 3×3×3 box.
    pub open spec fn box_summed(&self, lanes: Seq<u64>) -> bool {
        forall|x: int, y: int, z: int|
            in_blocks(block_dims(self.size), x, y, z) ==> #[trigger] cell_counter(
                lanes,
                block_dims(self.size),
                x,
                y,
                z,
            ) == self.box_sum(x, y, z, false)
    }

    /// Whether entry `k` of `counts` is the counter that `lanes` holds for it, less the bit
    /// of the grid that it stands for.
    pub open spec fn entry_done(&self, lanes: Seq<u64>, counts: Seq<u8>, k: int) -> bool {
        counts[k] == byte_of(lanes[k / 8], k % 8) - byte_of(
            lane_of(self.data@[k / 64], (k % 64) / 8),
            k % 8,
        )
    }

    /// The counter that the passes leave for bit `q` of block `blk`, less the bit itself, is
    /// the neighbor count of the cell that the bit stands for.
    proof fn lemma_count_entry(&self, lanes: Seq<u64>, blk: int, q: int)
        requires
            self.wf(),
            lanes.len() == 8 * self.data@.len(),
            0 <= blk < self.data@.len(),
            0 <= q < 64,
            self.box_summed(lanes),
        ensures
            0 <= byte_of(lanes[8 * blk + q / 8], q % 8) <= 255,
            byte_of(lanes[8 * blk + q / 8], q % 8) - byte_of(
                lane_of(self.data@[blk], q / 8),
                q % 8,
            ) == self.neighbor_count(
                cell_x(block_dims(self.size), blk, q),
                cell_y(block_dims(self.size), blk, q),
                cell_z(block_dims(self.size), blk, q),
                false,
            ),
            0 <= byte_of(lane_of(self.data@[blk], q / 8), q % 8) <= byte_of(
                lanes[8 * blk + q / 8],
                q % 8,
            ),
    {
        let nb = block_dims(self.size);
        let x = cell_x(nb, blk, q);
        let y = cell_y(nb, blk, q);
        let z = cell_z(nb, blk, q);
        lemma_index_round_trip(nb, blk, q);
        self.lemma_cell_bit_is_value(x, y, z);
        lemma_lane_of(self.data@[blk], q / 8, q % 8);
        assert(cell_counter(lanes, nb, x, y, z) == self.box_sum(x, y, z, false));
        assert(cell_bit(self.data@, nb, x, y, z) == bit_val(self.data@[blk], q));
        self.lemma_box_holds_cell(x, y, z);
    }

    /// The sum of a box is at least the state of the cell in its middle.
    proof fn lemma_box_holds_cell(&self, x: int, y: int, z: int)
        ensures
            0 <= self.value(x, y, z, false) <= self.box_sum(x, y, z, false),
    {
        assert(self.row_sum(x, y, z, false) >= self.value(x, y, z, false));
        assert(self.row_sum(x, y - 1, z, false) >= 0);
        assert(self.row_sum(x, y + 1, z, false) >= 0);
        assert(self.slab_sum(x, y, z, false) >= self.value(x, y, z, false));
        assert(self.slab_sum(x, y, z - 1, false) >= 0) by {
            assert(self.row_sum(x, y - 1, z - 1, false) >= 0);
            assert(self.row_sum(x, y, z - 1, false) >= 0);
            assert(self.row_sum(x, y + 1, z - 1, false) >= 0);
        }
        assert(self.slab_sum(x, y, z + 1, false) >= 0) by {
            assert(self.row_sum(x, y - 1, z + 1, false) >= 0);
            assert(self.row_sum(x, y, z + 1, false) >= 0);
            assert(self.row_sum(x, y + 1, z + 1, false) >= 0);
        }
    }

    /// Count Moore 26-neighbors of every cell with a separable sum.
    ///
    /// The counts come in storage order, one per bit of every block: the count of the cell
    /// `(x, y, z)` stands at 64 times its block's index plus its bit. Cells beyond the grid
    /// always count as dead, whatever `_default` is; the positions of the fringe get the count
    /// of their alive neighbors too.
    pub fn count_neighbors_separable_m(&self, _default: bool) -> (counts: Vec<u8>)
        requires
            self.wf(),
            64 * self.data@.len() <= usize::MAX,
        ensures
            self.counted_by_block(counts@),
    {
        let block_count = block_counts(self.size);
        let n = self.data.len();

        // Over-allocate entire blocks to avoid having to bound-check the writes
        let mut lanes: Vec<u64> = vec![0u64; 8 * n];
        let mut lanes2: Vec<u64> = vec![0u64; 8 * n];

        // Separable sum over X then Y then Z
        Self::acc_x(&self.data, &mut lanes, block_count);
        let ghost xs = lanes@;
        Self::acc_y(&lanes, &mut lanes2, block_count);
        Self::acc_z(&lanes2, &mut lanes, block_count);
        proof {
            self.lemma_passes_sum_box(xs, lanes2@, lanes@);
            assert(self.box_summed(lanes@));
        }

        // Remove self, because we count only neighbors
        let mut counts: Vec<u8> = Vec::with_capacity(64 * n);
        let mut ib: usize = 0;
        while ib < n
            invariant
                self.wf(),
                n == self.data@.len(),
                64 * n <= usize::MAX,
                lanes@.len() == 8 * n,
                self.box_summed(lanes@),
                ib <= n,
                counts@.len() == 64 * ib,
                forall|k: int| 0 <= k < counts@.len() ==> self.entry_done(lanes@, counts@, k),
            decreases n - ib,
        {
            let b = Self::decompress_block(self.data[ib]);
            let mut q: usize = 0;
            while q < 64
                invariant
                    self.wf(),
                    n == self.data@.len(),
                    64 * n <= usize::MAX,
                    lanes@.len() == 8 * n,
                    self.box_summed(lanes@),
                    ib < n,
                    q <= 64,
                    counts@.len() == 64 * ib + q,
                    forall|i: int| 0 <= i < 8 ==> #[trigger] b[i] == lane_of(self.data@[ib as int], i),
                    forall|k: int| 0 <= k < counts@.len() ==> self.entry_done(lanes@, counts@, k),
                decreases 64 - q,
            {
                let i = q / 8;
                let j = (q % 8) as u8;
                proof {
                    self.lemma_count_entry(lanes@, ib as int, q as int);
                }
                let sum = lane_byte(lanes[8 * ib + i], j);
                let own = lane_byte(b[i], j);
                let ghost before = counts@;
                counts.push(sum - own);
                proof {
                    assert(self.entry_done(lanes@, counts@, 64 * ib + q));
                    assert forall|k: int| 0 <= k < counts@.len() implies self.entry_done(
                        lanes@,
                        counts@,
                        k,
                    ) by {
                        if k < before.len() {
                            assert(self.entry_done(lanes@, before, k));
                        }
                    }
                }
                q = q + 1;
            }
            ib = ib + 1;
        }
        proof {
            assert forall|x: int, y: int, z: int| in_blocks(block_count, x, y, z) implies counts@[64
                * block_index(block_count, x, y, z) + bit_index(x, y, z)]
                == #[trigger] self.neighbor_count(x, y, z, false) by {
                lemma_cell_round_trip(block_count, x, y, z);
                let k = 64 * block_index(block_count, x, y, z) + bit_index(x, y, z);
                assert(self.entry_done(lanes@, counts@, k));
                self.lemma_count_entry(
                    lanes@,
                    block_index(block_count, x, y, z),
                    bit_index(x, y, z),
                );
            }
        }
        counts
    }
}

impl Grid3 {
    /// Whether `counts` holds the neighbor count of every position that the blocks cover, in
    /// storage order, with dead cells beyond the grid.
    pub open spec fn counted_by_block(&self, counts: Seq<u8>) -> bool {
        &&& counts.len() == 64 * self.data@.len()
        &&& forall|x: int, y: int, z: int|
            in_blocks(block_dims(self.size), x, y, z) ==> counts[64 * block_index(
                block_dims(self.size),
                x,
                y,
                z,
            ) + bit_index(x, y, z)] == #[trigger] self.neighbor_count(x, y, z, false)
    }

    /// Whether `counts` holds the neighbor count of every cell of the grid, in row-major
    /// cell order, with `default` beyond the grid.
    pub open spec fn counted_by_cell(&self, counts: Seq<u8>, default: bool) -> bool {
        &&& counts.len() == volume(self.size)
        &&& forall|x: int, y: int, z: int|
            self.in_range(x, y, z) ==> counts[linear_index(self.size, x, y, z)]
                == #[trigger] self.neighbor_count(x, y, z, default)
    }

    /// The separable counter and the reference counter with dead cells beyond the grid agree
    /// at every cell of the grid.
    pub proof fn lemma_counters_agree(
        &self,
        separable: Seq<u8>,
        reference: Seq<u8>,
        x: int,
        y: int,
        z: int,
    )
        requires
            self.wf(),
            self.counted_by_block(separable),
            self.counted_by_cell(reference, false),
            self.in_range(x, y, z),
        ensures
            separable[64 * block_index(block_dims(self.size), x, y, z) + bit_index(x, y, z)]
                == reference[linear_index(self.size, x, y, z)],
    {
        assert(in_blocks(block_dims(self.size), x, y, z));
        assert(separable[64 * block_index(block_dims(self.size), x, y, z) + bit_index(x, y, z)]
            == self.neighbor_count(x, y, z, false));
        assert(reference[linear_index(self.size, x, y, z)] == self.neighbor_count(
            x,
            y,
            z,
            false,
        ));
    }

    /// A grid has no more cells than its blocks have bits.
    pub proof fn lemma_cells_fit_blocks(&self)
        ensures
            volume(self.size) <= 64 * volume(block_dims(self.size)),
    {
        let nb = block_dims(self.size);
        assert(self.size.x * self.size.y * self.size.z <= (4 * nb.x) * (4 * nb.y) * (4 * nb.z))
            by (nonlinear_arith)
            requires
                0 <= self.size.x <= 4 * nb.x,
                0 <= self.size.y <= 4 * nb.y,
                0 <= self.size.z <= 4 * nb.z,
        ;
        assert((4 * nb.x) * (4 * nb.y) * (4 * nb.z) == 64 * (nb.x * nb.y * nb.z))
            by (nonlinear_arith);
    }

    /// Count the number of alive neighbor cells of every cell of the grid.
    ///
    /// The counts come in row-major cell order: all cells along X for Y=Z=0 first. For
    /// `default = false` the neighbors beyond the grid count as dead, and the separable
    /// counter does the work. For `default = true` they count as alive, a virtual boundary
    /// around the grid, and the reference counter does it.
    pub fn count_neighbors(&self, default: bool) -> (counts: Vec<u8>)
        requires
            self.wf(),
            64 * self.data@.len() <= usize::MAX,
        ensures
            self.counted_by_cell(counts@, default),
    {
        proof {
            self.lemma_cells_fit_blocks();
        }
        if default {
            return self.count_neighbors_ref(true);
        }
        let by_block = self.count_neighbors_separable_m(false);
        let size = self.size;
        let capacity = volume_of(size);
        let mut counts: Vec<u8> = Vec::with_capacity(capacity);
        let mut pos = UVec3 { x: 0, y: 0, z: 0 };
        proof {
            lemma_linear_walk(size);
        }
        while counts.len() < capacity
            invariant
                self.wf(),
                size == self.size,
                capacity == volume(size),
                64 * self.data@.len() <= usize::MAX,
                self.counted_by_block(by_block@),
                counts@.len() <= capacity,
                counts@.len() == linear_index(size, pos.x as int, pos.y as int, pos.z as int),
                counts@.len() < capacity ==> within(size, pos.x as int, pos.y as int, pos.z as int),
                forall|k: int|
                    0 <= k < counts@.len() ==> #[trigger] counts@[k] == self.neighbor_count(
                        linear_x(size, k),
                        linear_y(size, k),
                        linear_z(size, k),
                        false,
                    ),
            decreases capacity - counts@.len(),
        {
            proof {
                lemma_linear_walk(size);
                lemma_linear_decode(size, pos.x as int, pos.y as int, pos.z as int);
                assert(in_blocks(block_dims(size), pos.x as int, pos.y as int, pos.z as int));
                assert(by_block@[64 * block_index(
                    block_dims(size),
                    pos.x as int,
                    pos.y as int,
                    pos.z as int,
                ) + bit_index(pos.x as int, pos.y as int, pos.z as int)] == self.neighbor_count(
                    pos.x as int,
                    pos.y as int,
                    pos.z as int,
                    false,
                ));
            }
            let (index, bit) = self.slot(pos.x, pos.y, pos.z);
            counts.push(by_block[64 * index + bit as usize]);
            pos = step_linear(size, pos);
        }
        proof {
            assert forall|x: int, y: int, z: int| self.in_range(x, y, z) implies counts@[linear_index(
                size,
                x,
                y,
                z,
            )] == #[trigger] self.neighbor_count(x, y, z, false) by {
                lemma_linear_index_bounds(size, x, y, z);
                lemma_linear_decode(size, x, y, z);
            }
        }
        counts
    }
}

} // verus!
