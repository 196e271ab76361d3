//! The neighbor count of a cell as a number of cells: the alive cells among its 26 Moore
//! neighbors.

use vstd::prelude::*;
use crate::grid3::Grid3;
use crate::layout3::{bit_index, block_dims, block_index, linear_index};

verus! {

/// Whether `q` is one of the 26 Moore neighbors of the position `(x, y, z)`: another position,
/// at most one step away along every axis.
pub open spec fn is_moore_neighbor(x: int, y: int, z: int, q: (int, int, int)) -> bool {
    &&& q != (x, y, z)
    &&& x - 1 <= q.0 <= x + 1
    &&& y - 1 <= q.1 <= y + 1
    &&& z - 1 <= q.2 <= z + 1
}

/// The `i`-th position of the 3×3×3 box around `(x, y, z)`, in row-major order. The 13th is
/// `(x, y, z)` itself.
pub open spec fn box_position(x: int, y: int, z: int, i: int) -> (int, int, int) {
    (x + i % 3 - 1, y + (i / 3) % 3 - 1, z + i / 9 - 1)
}

/// The place of `q` in the 3×3×3 box around `(x, y, z)`, in row-major order.
pub open spec fn box_place(x: int, y: int, z: int, q: (int, int, int)) -> int {
    (q.0 - x + 1) + 3 * (q.1 - y + 1) + 9 * (q.2 - z + 1)
}

impl Grid3 {
    /// The alive cells among the Moore neighbors of `(x, y, z)`.
    pub open spec fn alive_neighbors(&self, x: int, y: int, z: int) -> Set<(int, int, int)> {
        Set::new(|q: (int, int, int)| is_moore_neighbor(x, y, z, q) && self.alive(q.0, q.1, q.2))
    }

    /// Whether the `i`-th position of the box around `(x, y, z)` is an alive neighbor.
    pub open spec fn counts_at(&self, x: int, y: int, z: int, i: int) -> bool {
        let q = box_position(x, y, z, i);
        i != 13 && self.alive(q.0, q.1, q.2)
    }

    /// The alive neighbors among the first `n` positions of the box.
    pub open spec fn neighbors_upto(&self, x: int, y: int, z: int, n: int) -> Set<(int, int, int)>
        decreases n,
    {
        if n <= 0 {
            Set::empty()
        } else if self.counts_at(x, y, z, n - 1) {
            self.neighbors_upto(x, y, z, n - 1).insert(box_position(x, y, z, n - 1))
        } else {
            self.neighbors_upto(x, y, z, n - 1)
        }
    }

    /// The number of alive neighbors among the first `n` positions of the box.
    pub open spec fn count_upto(&self, x: int, y: int, z: int, n: int) -> int
        decreases n,
    {
        if n <= 0 {
            0
        } else {
            self.count_upto(x, y, z, n - 1) + (if self.counts_at(x, y, z, n - 1) {
                1int
            } else {
                0int
            })
        }
    }

    proof fn lemma_neighbors_upto(&self, x: int, y: int, z: int, n: int)
        requires
            0 <= n <= 27,
        ensures
            self.neighbors_upto(x, y, z, n).finite(),
            self.neighbors_upto(x, y, z, n).len() == self.count_upto(x, y, z, n),
            0 <= self.count_upto(x, y, z, n) <= n,
            forall|q: (int, int, int)| #[trigger]
                self.neighbors_upto(x, y, z, n).contains(q) <==> (is_moore_neighbor(x, y, z, q)
                    && box_place(x, y, z, q) < n && self.alive(q.0, q.1, q.2)),
        decreases n,
    {
        if n > 0 {
            self.lemma_neighbors_upto(x, y, z, n - 1);
            let before = self.neighbors_upto(x, y, z, n - 1);
            let p = box_position(x, y, z, n - 1);
            assert(box_place(x, y, z, p) == n - 1);
            assert forall|q: (int, int, int)| #[trigger]
                self.neighbors_upto(x, y, z, n).contains(q) <==> (is_moore_neighbor(x, y, z, q)
                    && box_place(x, y, z, q) < n && self.alive(q.0, q.1, q.2)) by {
                if is_moore_neighbor(x, y, z, q) && box_place(x, y, z, q) == n - 1 {
                    assert(q.0 == p.0 && q.1 == p.1 && q.2 == p.2);
                    assert(q == p);
                    assert(n - 1 != 13);
                }
                if q == p && self.counts_at(x, y, z, n - 1) {
                    assert(is_moore_neighbor(x, y, z, q));
                }
                assert(before.contains(q) <==> (is_moore_neighbor(x, y, z, q) && box_place(
                    x,
                    y,
                    z,
                    q,
                ) < n - 1 && self.alive(q.0, q.1, q.2)));
            }
            if self.counts_at(x, y, z, n - 1) {
                assert(!before.contains(p));
            }
        }
    }

    /// The neighbor count with dead cells beyond the grid is the number of alive cells among
    /// the 26 Moore neighbors; it is at most 26.
    pub proof fn lemma_count_is_cardinality(&self, x: int, y: int, z: int)
        ensures
            self.alive_neighbors(x, y, z).finite(),
            self.neighbor_count(x, y, z, false) == self.alive_neighbors(x, y, z).len(),
            0 <= self.neighbor_count(x, y, z, false) <= 26,
    {
        self.lemma_neighbors_upto(x, y, z, 27);
        assert(self.neighbors_upto(x, y, z, 27) =~= self.alive_neighbors(x, y, z)) by {
            assert forall|q: (int, int, int)| is_moore_neighbor(x, y, z, q) implies box_place(
                x,
                y,
                z,
                q,
            ) < 27 by {}
        }
        self.lemma_count_is_box(x, y, z);
    }

    /// Counting the box position by position gives the sum of the box less the cell itself.
    proof fn lemma_count_is_box(&self, x: int, y: int, z: int)
        ensures
            self.count_upto(x, y, z, 27) == self.neighbor_count(x, y, z, false),
            self.neighbor_count(x, y, z, false) <= 26,
    {
        self.lemma_count_plane(x, y, z, 0);
        self.lemma_count_plane(x, y, z, 1);
        self.lemma_count_plane(x, y, z, 2);
        assert(self.count_upto(x, y, z, 0) == 0);
    }

    /// The share of one plane of the box in the count: the sum of the plane, less the cell
    /// itself in the middle plane.
    proof fn lemma_count_plane(&self, x: int, y: int, z: int, k: int)
        requires
            0 <= k < 3,
        ensures
            self.count_upto(x, y, z, 9 * k + 9) == self.count_upto(x, y, z, 9 * k) + self.slab_sum(
                x,
                y,
                z + k - 1,
                false,
            ) - (if k == 1 {
                self.value(x, y, z, false)
            } else {
                0
            }),
            0 <= self.slab_sum(x, y, z + k - 1, false) <= 9,
            k == 1 ==> self.value(x, y, z, false) <= self.slab_sum(x, y, z, false),
    {
        self.lemma_count_row(x, y, z, 0, k);
        self.lemma_count_row(x, y, z, 1, k);
        self.lemma_count_row(x, y, z, 2, k);
    }

    /// The share of one row of the box in the count: the sum of the row, less the cell itself
    /// in the middle row of the middle plane.
    proof fn lemma_count_row(&self, x: int, y: int, z: int, r: int, k: int)
        requires
            0 <= r < 3,
            0 <= k < 3,
        ensures
            self.count_upto(x, y, z, 9 * k + 3 * r + 3) == self.count_upto(x, y, z, 9 * k + 3 * r)
                + self.row_sum(x, y + r - 1, z + k - 1, false) - (if k == 1 && r == 1 {
                self.value(x, y, z, false)
            } else {
                0
            }),
            0 <= self.row_sum(x, y + r - 1, z + k - 1, false) <= 3,
            k == 1 && r == 1 ==> self.value(x, y, z, false) <= self.row_sum(x, y, z, false),
    {
        self.lemma_count_step(x, y, z, 0, r, k);
        self.lemma_count_step(x, y, z, 1, r, k);
        self.lemma_count_step(x, y, z, 2, r, k);
    }

    /// One step of the count: the position counts for its state, but for the cell itself.
    proof fn lemma_count_step(&self, x: int, y: int, z: int, c: int, r: int, k: int)
        requires
            0 <= c < 3,
            0 <= r < 3,
            0 <= k < 3,
        ensures
            self.count_upto(x, y, z, 9 * k + 3 * r + c + 1) == self.count_upto(
                x,
                y,
                z,
                9 * k + 3 * r + c,
            ) + (if c == 1 && r == 1 && k == 1 {
                0
            } else {
                self.value(x + c - 1, y + r - 1, z + k - 1, false)
            }),
            0 <= self.value(x + c - 1, y + r - 1, z + k - 1, false) <= 1,
    {
        let i = 9 * k + 3 * r + c;
        assert(i / 9 == k);
        assert((i / 3) % 3 == r) by {
            assert(i / 3 == 3 * k + r);
        }
        assert(i % 3 == c);
        assert(box_position(x, y, z, i) == (x + c - 1, y + r - 1, z + k - 1));
        assert(i == 13 <==> (c == 1 && r == 1 && k == 1));
    }

    /// What the separable counter holds for a cell of the grid is the number of alive cells
    /// among its 26 Moore neighbors, as the reference counter finds it.
    pub proof fn lemma_separable_counts_neighbors(
        &self,
        separable: Seq<u8>,
        reference: Seq<u8>,
        x: int,
        y: int,
        z: int,
    )
        requires
            self.wf(),
            self.counted_by_block(separable),
            self.counted_by_cell(reference, false),
            self.in_range(x, y, z),
        ensures
            separable[64 * block_index(block_dims(self.size), x, y, z) + bit_index(x, y, z)]
                == self.alive_neighbors(x, y, z).len(),
            reference[linear_index(self.size, x, y, z)] == self.alive_neighbors(x, y, z).len(),
            self.alive_neighbors(x, y, z).len() <= 26,
    {
        self.lemma_counters_agree(separable, reference, x, y, z);
        self.lemma_count_is_cardinality(x, y, z);
        assert(reference[linear_index(self.size, x, y, z)] == self.neighbor_count(
            x,
            y,
            z,
            false,
        ));
    }
}

} // verus!
