//! Neighbor counts on the 2D grid: what a count is, the cell-by-cell reference counter, and
//! the separable counter over whole blocks.

use vstd::prelude::*;
use crate::bits::{bit_of, bit_val, byte_of};
use crate::grid2::{slot_in_range2, Grid2};
use crate::grid3::Grid3;
use crate::lanes::{lane_byte, lane_of, lemma_lane_of};
use crate::layout2::{
    bit_index2,
    block_counts2,
    block_dims2,
    block_index2,
    cell_x2,
    cell_y2,
    in_blocks2,
    lemma_cell_round_trip2,
    lemma_index_round_trip2,
};
use crate::neighbors3::flag;
use crate::separable2::{cell_bit2, cell_counter2, x2_summed, y2_summed};
use crate::vector::IVec2;

verus! {

impl Grid2 {
    /// The state at `(x, y)` as a number, where every position beyond the grid is taken to
    /// hold `default`.
    pub open spec fn value(&self, x: int, y: int, default: bool) -> int {
        if self.in_range(x, y) {
            flag(self.stored(x, y))
        } else {
            flag(default)
        }
    }

    /// Sum of the states at `(x, y)` and its two neighbors along X.
    pub open spec fn row_sum(&self, x: int, y: int, default: bool) -> int {
        self.value(x - 1, y, default) + self.value(x, y, default) + self.value(x + 1, y, default)
    }

    /// Sum of the states of the 3×3 cells around `(x, y)`, itself included.
    pub open spec fn box_sum(&self, x: int, y: int, default: bool) -> int {
        self.row_sum(x, y - 1, default) + self.row_sum(x, y, default) + self.row_sum(
            x,
            y + 1,
            default,
        )
    }

    /// Number of alive cells among the 8 Moore neighbors of `(x, y)`, where every neighbor
    /// beyond the grid is taken to hold `default`.
    pub open spec fn neighbor_count(&self, x: int, y: int, default: bool) -> int {
        self.box_sum(x, y, default) - self.value(x, y, default)
    }

    /// Whether `counts` holds the neighbor count of every position that the blocks cover, in
    /// storage order, with dead cells beyond the grid.
    pub open spec fn counted_by_block(&self, counts: Seq<u8>) -> bool {
        &&& counts.len() == 64 * self.data@.len()
        &&& forall|x: int, y: int|
            in_blocks2(block_dims2(self.size), x, y) ==> counts[64 * block_index2(
                block_dims2(self.size),
                x,
                y,
            ) + bit_index2(x, y)] == #[trigger] self.neighbor_count(x, y, false)
    }

    /// The state at `(x, y)` as a number, with `default` beyond the grid.
    fn value_at(&self, x: i64, y: i64, default: bool) -> (v: u8)
        requires
            self.wf(),
        ensures
            v == self.value(x as int, y as int, default),
            v <= 1,
    {
        let alive = if x < 0 || y < 0 || x >= self.size.x as i64 || y >= self.size.y as i64 {
            default
        } else {
            self.cell_at(x as u32, y as u32)
        };
        if alive {
            1
        } else {
            0
        }
    }

    fn row_sum_at(&self, x: i64, y: i64, default: bool) -> (v: u8)
        requires
            self.wf(),
            -0x1_0000_0000 <= x <= 0x1_0000_0000,
        ensures
            v == self.row_sum(x as int, y as int, default),
            v <= 3,
    {
        self.value_at(x - 1, y, default) + self.value_at(x, y, default) + self.value_at(
            x + 1,
            y,
            default,
        )
    }

    /// Count the number of alive neighbor cells at the given position.
    ///
    /// If the position is on the edges of the grid, assume some neighbor exists
    /// outside the grid with a value of `default`. For `default = false`, this
    /// counts the actual neighbors without any change. For `default = true`,
    /// this adds a virtual boundary condition around the grid. This is useful
    /// to ensure the resulting geometry is closed.
    pub fn count_neighbors(&self, pos: IVec2, default: bool) -> (count: u8)
        requires
            self.wf(),
        ensures
            count == self.neighbor_count(pos.x as int, pos.y as int, default),
            count <= 8,
    {
        let x = pos.x as i64;
        let y = pos.y as i64;
        let total = self.row_sum_at(x, y - 1, default) + self.row_sum_at(x, y, default)
            + self.row_sum_at(x, y + 1, default);
        total - self.value_at(x, y, default)
    }

    /// In a well-formed grid the stored bit of every position is its state with dead cells
    /// beyond the grid: the bits of the fringe are zero.
    pub proof fn lemma_cell_bit_is_value(&self, x: int, y: int)
        requires
            self.wf(),
        ensures
            cell_bit2(self.data@, block_dims2(self.size), x, y) == self.value(x, y, false),
    {
        let nb = block_dims2(self.size);
        if in_blocks2(nb, x, y) {
            lemma_cell_round_trip2(nb, x, y);
            if !self.in_range(x, y) {
                let blk = block_index2(nb, x, y);
                let q = bit_index2(x, y);
                if bit_of(self.data@[blk], q) {
                    assert(slot_in_range2(self.size, blk, q));
                }
            }
        }
    }

    /// Whether `lanes` holds, for every cell of the blocks, the sum of its 3×3 box.
    pub open spec fn box_summed(&self, lanes: Seq<u64>) -> bool {
        forall|x: int, y: int|
            in_blocks2(block_dims2(self.size), x, y) ==> #[trigger] cell_counter2(
                lanes,
                block_dims2(self.size),
                x,
                y,
            ) == self.box_sum(x, y, false)
    }

    /// Whether entry `k` of `counts` is the counter that `lanes` holds for it, less the bit
    /// of the grid that it stands for.
    pub open spec fn entry_done(&self, lanes: Seq<u64>, counts: Seq<u8>, k: int) -> bool {
        counts[k] == byte_of(lanes[k / 8], k % 8) - byte_of(
            lane_of(self.data@[k / 64], (k % 64) / 8),
            k % 8,
        )
    }

    /// After the two passes, the counter of every cell of the blocks is the sum of its 3×3
    /// box.
    proof fn lemma_passes_sum_box(&self, xs: Seq<u64>, ys: Seq<u64>)
        requires
            self.wf(),
            x2_summed(self.data@, xs, block_dims2(self.size)),
            y2_summed(xs, ys, block_dims2(self.size)),
        ensures
            self.box_summed(ys),
    {
        let nb = block_dims2(self.size);
        assert forall|x: int, y: int| 0 <= x < 8 * nb.x implies #[trigger] cell_counter2(
            xs,
            nb,
            x,
            y,
        ) == self.row_sum(x, y, false) by {
            self.lemma_cell_bit_is_value(x - 1, y);
            self.lemma_cell_bit_is_value(x, y);
            self.lemma_cell_bit_is_value(x + 1, y);
        }
        assert forall|x: int, y: int| in_blocks2(nb, x, y) implies #[trigger] cell_counter2(
            ys,
            nb,
            x,
            y,
        ) == self.box_sum(x, y, false) by {
            assert(cell_counter2(xs, nb, x, y - 1) == self.row_sum(x, y - 1, false));
            assert(cell_counter2(xs, nb, x, y) == self.row_sum(x, y, false));
            assert(cell_counter2(xs, nb, x, y + 1) == self.row_sum(x, y + 1, false));
        }
    }

    /// The counter that the passes leave for bit `q` of block `blk`, less the bit itself, is
    /// the neighbor count of the cell that the bit stands for.
    proof fn lemma_count_entry(&self, lanes: Seq<u64>, blk: int, q: int)
        requires
            self.wf(),
            lanes.len() == 8 * self.data@.len(),
            0 <= blk < self.data@.len(),
            0 <= q < 64,
            self.box_summed(lanes),
        ensures
            0 <= byte_of(lanes[8 * blk + q / 8], q % 8) <= 255,
            byte_of(lanes[8 * blk + q / 8], q % 8) - byte_of(
                lane_of(self.data@[blk], q / 8),
                q % 8,
            ) == self.neighbor_count(
                cell_x2(block_dims2(self.size), blk, q),
                cell_y2(block_dims2(self.size), blk, q),
                false,
            ),
            0 <= byte_of(lane_of(self.data@[blk], q / 8), q % 8) <= byte_of(
                lanes[8 * blk + q / 8],
                q % 8,
            ),
    {
        let nb = block_dims2(self.size);
        let x = cell_x2(nb, blk, q);
        let y = cell_y2(nb, blk, q);
        lemma_index_round_trip2(nb, blk, q);
        self.lemma_cell_bit_is_value(x, y);
        lemma_lane_of(self.data@[blk], q / 8, q % 8);
        assert(cell_counter2(lanes, nb, x, y) == self.box_sum(x, y, false));
        assert(cell_counter2(lanes, nb, x, y) == byte_of(lanes[8 * blk + q / 8], q % 8));
        assert(cell_bit2(self.data@, nb, x, y) == bit_val(self.data@[blk], q));
        assert(byte_of(lane_of(self.data@[blk], q / 8), q % 8) == self.value(x, y, false));
        self.lemma_box_holds_cell(x, y);
    }

    /// The sum of a box is at least the state of the cell in its middle, and at most 9.
    proof fn lemma_box_holds_cell(&self, x: int, y: int)
        ensures
            0 <= self.value(x, y, false) <= self.box_sum(x, y, false) <= 9,
    {
        assert(self.value(x, y, false) <= self.row_sum(x, y, false) <= 3);
        assert(0 <= self.row_sum(x, y - 1, false) <= 3);
        assert(0 <= self.row_sum(x, y + 1, false) <= 3);
    }

    /// Count Moore 8-neighbors of every cell with a separable sum.
    ///
    /// The counts come in storage order, one per bit of every block: the count of the cell
    /// `(x, y)` stands at 64 times its block's index plus its bit. Cells beyond the grid
    /// count as dead; the positions of the fringe get the count of their alive neighbors too.
    pub fn count_neighbors_separable(&self) -> (counts: Vec<u8>)
        requires
            self.wf(),
            64 * self.data@.len() <= usize::MAX,
        ensures
            self.counted_by_block(counts@),
    {
        let block_count = block_counts2(self.size);
        let n = self.data.len();

        // Over-allocate entire blocks to avoid having to bound-check the writes
        let mut lanes: Vec<u64> = vec![0u64; 8 * n];
        let mut lanes2: Vec<u64> = vec![0u64; 8 * n];

        // Separable sum over X then Y
        Self::acc_x(&self.data, &mut lanes, block_count);
        Self::acc_y(&lanes, &mut lanes2, block_count);
        proof {
            self.lemma_passes_sum_box(lanes@, lanes2@);
        }

        // Remove self, because we count only neighbors
        let mut counts: Vec<u8> = Vec::with_capacity(64 * n);
        let mut ib: usize = 0;
        while ib < n
            invariant
                self.wf(),
                n == self.data@.len(),
                64 * n <= usize::MAX,
                lanes2@.len() == 8 * n,
                self.box_summed(lanes2@),
                ib <= n,
                counts@.len() == 64 * ib,
                forall|k: int| 0 <= k < counts@.len() ==> self.entry_done(lanes2@, counts@, k),
            decreases n - ib,
        {
            let b = Grid3::decompress_block(self.data[ib]);
            let mut q: usize = 0;
            while q < 64
                invariant
                    self.wf(),
                    n == self.data@.len(),
                    64 * n <= usize::MAX,
                    lanes2@.len() == 8 * n,
                    self.box_summed(lanes2@),
                    ib < n,
                    q <= 64,
                    counts@.len() == 64 * ib + q,
                    forall|i: int| 0 <= i < 8 ==> #[trigger] b[i] == lane_of(self.data@[ib as int], i),
                    forall|k: int| 0 <= k < counts@.len() ==> self.entry_done(lanes2@, counts@, k),
                decreases 64 - q,
            {
                let i = q / 8;
                let j = (q % 8) as u8;
                proof {
                    self.lemma_count_entry(lanes2@, ib as int, q as int);
                }
                let sum = lane_byte(lanes2[8 * ib + i], j);
                let own = lane_byte(b[i], j);
                let ghost before = counts@;
                counts.push(sum - own);
                proof {
                    assert(self.entry_done(lanes2@, counts@, 64 * ib + q));
                    assert forall|k: int| 0 <= k < counts@.len() implies self.entry_done(
                        lanes2@,
                        counts@,
                        k,
                    ) by {
                        if k < before.len() {
                            assert(self.entry_done(lanes2@, before, k));
                        }
                    }
                }
                q = q + 1;
            }
            ib = ib + 1;
        }
        proof {
            assert forall|x: int, y: int| in_blocks2(block_count, x, y) implies counts@[64
                * block_index2(block_count, x, y) + bit_index2(x, y)]
                == #[trigger] self.neighbor_count(x, y, false) by {
                lemma_cell_round_trip2(block_count, x, y);
                let k = 64 * block_index2(block_count, x, y) + bit_index2(x, y);
                assert(self.entry_done(lanes2@, counts@, k));
                self.lemma_count_entry(
                    lanes2@,
                    block_index2(block_count, x, y),
                    bit_index2(x, y),
                );
            }
        }
        counts
    }

    /// The separable counter and the reference counter with dead cells beyond the grid agree
    /// at every cell of the grid.
    pub proof fn lemma_counters_agree(&self, separable: Seq<u8>, reference: u8, x: int, y: int)
        requires
            self.wf(),
            self.counted_by_block(separable),
            self.in_range(x, y),
            reference == self.neighbor_count(x, y, false),
        ensures
            separable[64 * block_index2(block_dims2(self.size), x, y) + bit_index2(x, y)]
                == reference,
    {
        assert(in_blocks2(block_dims2(self.size), x, y));
        assert(separable[64 * block_index2(block_dims2(self.size), x, y) + bit_index2(x, y)]
            == self.neighbor_count(x, y, false));
    }
}

} // verus!
