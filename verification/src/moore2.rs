//! The neighbor count of a 2D cell as a number of cells: the alive cells among its 8 Moore
//! neighbors.

use vstd::prelude::*;
use crate::grid2::Grid2;
use crate::layout2::{bit_index2, block_dims2, block_index2, in_blocks2};

verus! {

/// Whether `q` is one of the 8 Moore neighbors of the position `(x, y)`: another position, at
/// most one step away along both axes.
pub open spec fn is_moore_neighbor2(x: int, y: int, q: (int, int)) -> bool {
    &&& q != (x, y)
    &&& x - 1 <= q.0 <= x + 1
    &&& y - 1 <= q.1 <= y + 1
}

/// The `i`-th position of the 3×3 box around `(x, y)`, in row-major order. The 4th is
/// `(x, y)` itself.
pub open spec fn box_position2(x: int, y: int, i: int) -> (int, int) {
    (x + i % 3 - 1, y + i / 3 - 1)
}

/// The place of `q` in the 3×3 box around `(x, y)`, in row-major order.
pub open spec fn box_place2(x: int, y: int, q: (int, int)) -> int {
    (q.0 - x + 1) + 3 * (q.1 - y + 1)
}

impl Grid2 {
    /// The alive cells among the Moore neighbors of `(x, y)`.
    pub open spec fn alive_neighbors(&self, x: int, y: int) -> Set<(int, int)> {
        Set::new(|q: (int, int)| is_moore_neighbor2(x, y, q) && self.alive(q.0, q.1))
    }

    /// Whether the `i`-th position of the box around `(x, y)` is an alive neighbor.
    pub open spec fn counts_at(&self, x: int, y: int, i: int) -> bool {
        let q = box_position2(x, y, i);
        i != 4 && self.alive(q.0, q.1)
    }

    /// The alive neighbors among the first `n` positions of the box.
    pub open spec fn neighbors_upto(&self, x: int, y: int, n: int) -> Set<(int, int)>
        decreases n,
    {
        if n <= 0 {
            Set::empty()
        } else if self.counts_at(x, y, n - 1) {
            self.neighbors_upto(x, y, n - 1).insert(box_position2(x, y, n - 1))
        } else {
            self.neighbors_upto(x, y, n - 1)
        }
    }

    /// The number of alive neighbors among the first `n` positions of the box.
    pub open spec fn count_upto(&self, x: int, y: int, n: int) -> int
        decreases n,
    {
        if n <= 0 {
            0
        } else {
            self.count_upto(x, y, n - 1) + (if self.counts_at(x, y, n - 1) {
                1int
            } else {
                0int
            })
        }
    }

    proof fn lemma_neighbors_upto(&self, x: int, y: int, n: int)
        requires
            0 <= n <= 9,
        ensures
            self.neighbors_upto(x, y, n).finite(),
            self.neighbors_upto(x, y, n).len() == self.count_upto(x, y, n),
            0 <= self.count_upto(x, y, n) <= n,
            forall|q: (int, int)| #[trigger]
                self.neighbors_upto(x, y, n).contains(q) <==> (is_moore_neighbor2(x, y, q)
                    && box_place2(x, y, q) < n && self.alive(q.0, q.1)),
        decreases n,
    {
        if n > 0 {
            self.lemma_neighbors_upto(x, y, n - 1);
            let before = self.neighbors_upto(x, y, n - 1);
            let p = box_position2(x, y, n - 1);
            assert(box_place2(x, y, p) == n - 1);
            assert forall|q: (int, int)| #[trigger]
                self.neighbors_upto(x, y, n).contains(q) <==> (is_moore_neighbor2(x, y, q)
                    && box_place2(x, y, q) < n && self.alive(q.0, q.1)) by {
                if is_moore_neighbor2(x, y, q) && box_place2(x, y, q) == n - 1 {
                    assert(q.0 == p.0 && q.1 == p.1);
                    assert(q == p);
                    assert(n - 1 != 4);
                }
                if q == p && self.counts_at(x, y, n - 1) {
                    assert(is_moore_neighbor2(x, y, q));
                }
                assert(before.contains(q) <==> (is_moore_neighbor2(x, y, q) && box_place2(x, y, q)
                    < n - 1 && self.alive(q.0, q.1)));
            }
            if self.counts_at(x, y, n - 1) {
                assert(!before.contains(p));
            }
        }
    }

    /// The neighbor count with dead cells beyond the grid is the number of alive cells among
    /// the 8 Moore neighbors; it is at most 8.
    pub proof fn lemma_count_is_cardinality(&self, x: int, y: int)
        ensures
            self.alive_neighbors(x, y).finite(),
            self.neighbor_count(x, y, false) == self.alive_neighbors(x, y).len(),
            0 <= self.neighbor_count(x, y, false) <= 8,
    {
        self.lemma_neighbors_upto(x, y, 9);
        assert(self.neighbors_upto(x, y, 9) =~= self.alive_neighbors(x, y)) by {
            assert forall|q: (int, int)| is_moore_neighbor2(x, y, q) implies box_place2(x, y, q)
                < 9 by {}
        }
        self.lemma_count_row(x, y, 0);
        self.lemma_count_row(x, y, 1);
        self.lemma_count_row(x, y, 2);
        assert(self.count_upto(x, y, 0) == 0);
    }

    /// The share of one row of the box in the count: the sum of the row, less the cell itself
    /// in the middle row.
    proof fn lemma_count_row(&self, x: int, y: int, r: int)
        requires
            0 <= r < 3,
        ensures
            self.count_upto(x, y, 3 * r + 3) == self.count_upto(x, y, 3 * r) + self.row_sum(
                x,
                y + r - 1,
                false,
            ) - (if r == 1 {
                self.value(x, y, false)
            } else {
                0
            }),
            0 <= self.row_sum(x, y + r - 1, false) <= 3,
            r == 1 ==> self.value(x, y, false) <= self.row_sum(x, y, false),
    {
        self.lemma_count_step(x, y, 0, r);
        self.lemma_count_step(x, y, 1, r);
        self.lemma_count_step(x, y, 2, r);
    }

    /// One step of the count: the position counts for its state, but for the cell itself.
    proof fn lemma_count_step(&self, x: int, y: int, c: int, r: int)
        requires
            0 <= c < 3,
            0 <= r < 3,
        ensures
            self.count_upto(x, y, 3 * r + c + 1) == self.count_upto(x, y, 3 * r + c) + (if c == 1
                && r == 1 {
                0
            } else {
                self.value(x + c - 1, y + r - 1, false)
            }),
            0 <= self.value(x + c - 1, y + r - 1, false) <= 1,
    {
        let i = 3 * r + c;
        assert(i / 3 == r);
        assert(i % 3 == c);
        assert(box_position2(x, y, i) == (x + c - 1, y + r - 1));
        assert(i == 4 <==> (c == 1 && r == 1));
    }

    /// What the separable counter holds for a cell of the grid is the number of alive cells
    /// among its 8 Moore neighbors.
    pub proof fn lemma_separable_counts_neighbors(&self, separable: Seq<u8>, x: int, y: int)
        requires
            self.wf(),
            self.counted_by_block(separable),
            self.in_range(x, y),
        ensures
            separable[64 * block_index2(block_dims2(self.size), x, y) + bit_index2(x, y)]
                == self.alive_neighbors(x, y).len(),
            self.alive_neighbors(x, y).len() <= 8,
    {
        self.lemma_count_is_cardinality(x, y);
        assert(in_blocks2(block_dims2(self.size), x, y));
        assert(separable[64 * block_index2(block_dims2(self.size), x, y) + bit_index2(x, y)]
            == self.neighbor_count(x, y, false));
    }
}

} // verus!
