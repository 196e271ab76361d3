//! One generation of a 3D automaton: the rule applied to every cell of the grid at once.

use vstd::prelude::*;
use crate::grid3::Grid3;
use crate::layout3::{
    bit_index,
    block_dims,
    block_index,
    in_blocks,
    lemma_linear_decode,
    lemma_linear_index_bounds,
    lemma_linear_walk,
    linear_index,
    step_linear,
    volume,
    within,
};
use crate::rule::Rule3;
use crate::vector::UVec3;

verus! {

impl Grid3 {
    /// Whether `(x, y, z)` is a cell on one of the outer faces of the grid.
    pub open spec fn on_border(&self, x: int, y: int, z: int) -> bool {
        self.in_range(x, y, z) && (x == 0 || y == 0 || z == 0 || x == self.size.x - 1 || y
            == self.size.y - 1 || z == self.size.z - 1)
    }

    /// Whether the cell `(x, y, z)` is alive in the next generation.
    ///
    /// With `alive_border`, the cells on the outer faces are alive whatever the rule says.
    /// Every other cell follows the rule, by its state and the number of its alive neighbors
    /// in this generation; beyond the grid nothing is alive.
    pub open spec fn next_alive(
        &self,
        rule: Rule3,
        alive_border: bool,
        x: int,
        y: int,
        z: int,
    ) -> bool {
        if alive_border && self.on_border(x, y, z) {
            true
        } else {
            rule.next_state(self.alive(x, y, z), self.neighbor_count(x, y, z, false))
        }
    }

    /// Whether `after` is the generation that follows this one.
    pub open spec fn steps_to(&self, after: &Grid3, rule: Rule3, alive_border: bool) -> bool {
        &&& after.wf()
        &&& after.size == self.size
        &&& forall|x: int, y: int, z: int|
            self.in_range(x, y, z) ==> #[trigger] after.alive(x, y, z) == self.next_alive(
                rule,
                alive_border,
                x,
                y,
                z,
            )
    }

    /// Apply the given cellular automaton rule once to the entire grid, and with
    /// `alive_border` force every cell on the outer faces of the grid alive.
    ///
    /// The neighbor counts are all taken from the current generation before any cell is
    /// written.
    pub fn apply_rule_border(&mut self, rule: &Rule3, alive_border: bool)
        requires
            old(self).wf(),
            64 * old(self).data@.len() <= usize::MAX,
        ensures
            old(self).steps_to(final(self), *rule, alive_border),
    {
        let ghost before = *self;
        let size = self.size;
        let counts = self.count_neighbors_separable_m(false);
        if size.x == 0 || size.y == 0 || size.z == 0 {
            return;
        }
        let imax = size.x - 1;
        let jmax = size.y - 1;
        let kmax = size.z - 1;
        let mut pos = UVec3 { x: 0, y: 0, z: 0 };
        proof {
            lemma_linear_walk(size);
        }
        while pos.z < size.z
            invariant
                before.wf(),
                before.size == size,
                self.wf(),
                self.size == size,
                imax == size.x - 1,
                jmax == size.y - 1,
                kmax == size.z - 1,
                within(size, pos.x as int, pos.y as int, pos.z as int) || (pos.x == 0 && pos.y == 0
                    && pos.z == size.z),
                64 * before.data@.len() <= usize::MAX,
                before.counted_by_block(counts@),
                forall|x: int, y: int, z: int|
                    before.in_range(x, y, z) ==> #[trigger] self.alive(x, y, z) == (if linear_index(
                        size,
                        x,
                        y,
                        z,
                    ) < linear_index(size, pos.x as int, pos.y as int, pos.z as int) {
                        before.next_alive(*rule, alive_border, x, y, z)
                    } else {
                        before.alive(x, y, z)
                    }),
            decreases volume(size) - linear_index(size, pos.x as int, pos.y as int, pos.z as int),
        {
            let ghost here = linear_index(size, pos.x as int, pos.y as int, pos.z as int);
            let ghost current = *self;
            proof {
                lemma_linear_index_bounds(size, pos.x as int, pos.y as int, pos.z as int);
                lemma_linear_walk(size);
                assert(self.data.len() == self.data@.len());
            }
            let alive = self.cell_at(pos.x, pos.y, pos.z);
            proof {
                assert(self.alive(pos.x as int, pos.y as int, pos.z as int) == before.alive(
                    pos.x as int,
                    pos.y as int,
                    pos.z as int,
                ));
                assert(in_blocks(block_dims(size), pos.x as int, pos.y as int, pos.z as int));
                assert(counts@[64 * block_index(
                    block_dims(size),
                    pos.x as int,
                    pos.y as int,
                    pos.z as int,
                ) + bit_index(pos.x as int, pos.y as int, pos.z as int)] == before.neighbor_count(
                    pos.x as int,
                    pos.y as int,
                    pos.z as int,
                    false,
                ));
            }
            let next = if alive_border && (pos.x == 0 || pos.y == 0 || pos.z == 0 || pos.x == imax
                || pos.y == jmax || pos.z == kmax) {
                true
            } else {
                let (index, offset) = self.slot(pos.x, pos.y, pos.z);
                let c = counts[index * 64 + offset as usize];
                rule.next(alive, c)
            };
            assert(next == before.next_alive(
                *rule,
                alive_border,
                pos.x as int,
                pos.y as int,
                pos.z as int,
            ));
            self.set_cell_at(pos.x, pos.y, pos.z, next);
            let ghost at = pos;
            pos = step_linear(size, pos);
            proof {
                assert forall|x: int, y: int, z: int| before.in_range(x, y, z) implies #[trigger]
                    self.alive(x, y, z) == (if linear_index(size, x, y, z) < here + 1 {
                        before.next_alive(*rule, alive_border, x, y, z)
                    } else {
                        before.alive(x, y, z)
                    }) by {
                    lemma_linear_decode(size, x, y, z);
                    lemma_linear_decode(size, at.x as int, at.y as int, at.z as int);
                    assert(current.alive(x, y, z) == (if linear_index(size, x, y, z) < here {
                        before.next_alive(*rule, alive_border, x, y, z)
                    } else {
                        before.alive(x, y, z)
                    }));
                }
            }
        }
        proof {
            assert forall|x: int, y: int, z: int| before.in_range(x, y, z) implies #[trigger]
                self.alive(x, y, z) == before.next_alive(*rule, alive_border, x, y, z) by {
                lemma_linear_index_bounds(size, x, y, z);
            }
        }
    }

    /// Apply the given cellular automaton rule once to the entire grid.
    pub fn apply_rule(&mut self, rule: &Rule3)
        requires
            old(self).wf(),
            64 * old(self).data@.len() <= usize::MAX,
        ensures
            old(self).steps_to(final(self), *rule, false),
    {
        self.apply_rule_ref(rule)
    }

    /// Single-threaded implementation of `apply_rule`.
    pub fn apply_rule_ref(&mut self, rule: &Rule3)
        requires
            old(self).wf(),
            64 * old(self).data@.len() <= usize::MAX,
        ensures
            old(self).steps_to(final(self), *rule, false),
    {
        self.apply_rule_border(rule, false)
    }

    /// Apply the smoothing rule once to the entire grid.
    pub fn smooth(&mut self)
        requires
            old(self).wf(),
            64 * old(self).data@.len() <= usize::MAX,
        ensures
            old(self).steps_to(final(self), Rule3::spec_smooth(), false),
    {
        self.smooth_ref()
    }

    /// Single-threaded implementation of `smooth`.
    pub fn smooth_ref(&mut self)
        requires
            old(self).wf(),
            64 * old(self).data@.len() <= usize::MAX,
        ensures
            old(self).steps_to(final(self), Rule3::spec_smooth(), false),
    {
        let rule = Rule3::smooth();
        self.apply_rule_border(&rule, false)
    }
}

} // verus!
