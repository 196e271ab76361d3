//! One generation of a 2D automaton: the rule applied to every cell of the grid at once.

use vstd::prelude::*;
use crate::grid2::Grid2;
use crate::layout2::{bit_index2, block_dims2, block_index2, in_blocks2, plane};
use crate::layout3::{
    lemma_linear_decode,
    lemma_linear_index_bounds,
    lemma_linear_walk,
    linear_index,
    step_linear,
    volume,
    within,
};
use crate::rule::Rule2;
use crate::vector::UVec3;

verus! {

impl Grid2 {
    /// Whether `(x, y)` is a cell on one of the outer edges of the grid.
    pub open spec fn on_border(&self, x: int, y: int) -> bool {
        self.in_range(x, y) && (x == 0 || y == 0 || x == self.size.x - 1 || y == self.size.y - 1)
    }

    /// Whether the cell `(x, y)` is alive in the next generation.
    ///
    /// With `alive_border`, the cells on the outer edges are alive whatever the rule says.
    /// Every other cell follows the rule, by its state and the number of its alive neighbors
    /// in this generation; beyond the grid nothing is alive.
    pub open spec fn next_alive(&self, rule: Rule2, alive_border: bool, x: int, y: int) -> bool {
        if alive_border && self.on_border(x, y) {
            true
        } else {
            rule.next_state(self.alive(x, y), self.neighbor_count(x, y, false))
        }
    }

    /// Whether `after` is the generation that follows this one.
    pub open spec fn steps_to(&self, after: &Grid2, rule: Rule2, alive_border: bool) -> bool {
        &&& after.wf()
        &&& after.size == self.size
        &&& forall|x: int, y: int|
            self.in_range(x, y) ==> #[trigger] after.alive(x, y) == self.next_alive(
                rule,
                alive_border,
                x,
                y,
            )
    }

    /// Apply the given cellular automaton rule once to the entire grid, and with
    /// `alive_border` force every cell on the outer edges of the grid alive.
    ///
    /// The neighbor counts are all taken from the current generation before any cell is
    /// written.
    pub fn apply_rule_border(&mut self, rule: &Rule2, alive_border: bool)
        requires
            old(self).wf(),
            64 * old(self).data@.len() <= usize::MAX,
        ensures
            old(self).steps_to(final(self), *rule, alive_border),
    {
        let ghost before = *self;
        let size = self.size;
        let counts = self.count_neighbors_separable();
        if size.x == 0 || size.y == 0 {
            return;
        }
        let imax = size.x - 1;
        let jmax = size.y - 1;
        let dims = UVec3 { x: size.x, y: size.y, z: 1 };
        let mut pos = UVec3 { x: 0, y: 0, z: 0 };
        proof {
            lemma_linear_walk(dims);
        }
        while pos.z < 1
            invariant
                before.wf(),
                before.size == size,
                self.wf(),
                self.size == size,
                dims == plane(size),
                imax == size.x - 1,
                jmax == size.y - 1,
                within(dims, pos.x as int, pos.y as int, pos.z as int) || (pos.x == 0 && pos.y == 0
                    && pos.z == 1),
                64 * before.data@.len() <= usize::MAX,
                before.counted_by_block(counts@),
                forall|x: int, y: int|
                    before.in_range(x, y) ==> #[trigger] self.alive(x, y) == (if linear_index(
                        dims,
                        x,
                        y,
                        0,
                    ) < linear_index(dims, pos.x as int, pos.y as int, pos.z as int) {
                        before.next_alive(*rule, alive_border, x, y)
                    } else {
                        before.alive(x, y)
                    }),
            decreases volume(dims) - linear_index(dims, pos.x as int, pos.y as int, pos.z as int),
        {
            let ghost here = linear_index(dims, pos.x as int, pos.y as int, pos.z as int);
            let ghost current = *self;
            proof {
                lemma_linear_index_bounds(dims, pos.x as int, pos.y as int, pos.z as int);
                lemma_linear_walk(dims);
                assert(self.data.len() == self.data@.len());
            }
            let alive = self.cell_at(pos.x, pos.y);
            proof {
                assert(self.alive(pos.x as int, pos.y as int) == before.alive(
                    pos.x as int,
                    pos.y as int,
                ));
                assert(in_blocks2(block_dims2(size), pos.x as int, pos.y as int));
                assert(counts@[64 * block_index2(block_dims2(size), pos.x as int, pos.y as int)
                    + bit_index2(pos.x as int, pos.y as int)] == before.neighbor_count(
                    pos.x as int,
                    pos.y as int,
                    false,
                ));
            }
            let next = if alive_border && (pos.x == 0 || pos.y == 0 || pos.x == imax || pos.y
                == jmax) {
                true
            } else {
                let (index, offset) = self.slot(pos.x, pos.y);
                let c = counts[index * 64 + offset as usize];
                rule.next(alive, c)
            };
            assert(next == before.next_alive(*rule, alive_border, pos.x as int, pos.y as int));
            self.set_cell_at(pos.x, pos.y, next);
            let ghost at = pos;
            pos = step_linear(dims, pos);
            proof {
                assert forall|x: int, y: int| before.in_range(x, y) implies #[trigger] self.alive(
                    x,
                    y,
                ) == (if linear_index(dims, x, y, 0) < here + 1 {
                    before.next_alive(*rule, alive_border, x, y)
                } else {
                    before.alive(x, y)
                }) by {
                    lemma_linear_decode(dims, x, y, 0);
                    lemma_linear_decode(dims, at.x as int, at.y as int, at.z as int);
                    assert(current.alive(x, y) == (if linear_index(dims, x, y, 0) < here {
                        before.next_alive(*rule, alive_border, x, y)
                    } else {
                        before.alive(x, y)
                    }));
                }
            }
        }
        proof {
            assert forall|x: int, y: int| before.in_range(x, y) implies #[trigger] self.alive(x, y)
                == before.next_alive(*rule, alive_border, x, y) by {
                lemma_linear_index_bounds(dims, x, y, 0);
            }
        }
    }

    /// Apply the given cellular automaton rule once to the entire grid.
    pub fn apply_rule(&mut self, rule: &Rule2)
        requires
            old(self).wf(),
            64 * old(self).data@.len() <= usize::MAX,
        ensures
            old(self).steps_to(final(self), *rule, false),
    {
        self.apply_rule_border(rule, false)
    }

    /// Apply the smoothing rule once to the entire grid.
    pub fn smooth(&mut self)
        requires
            old(self).wf(),
            64 * old(self).data@.len() <= usize::MAX,
        ensures
            old(self).steps_to(final(self), Rule2::spec_smooth(), false),
    {
        let rule = Rule2::smooth();
        self.apply_rule_border(&rule, false)
    }
}

} // verus!
