//! Walks over the grid: sequences of cells, each reached from the one before
//! it by a king move, and their lengths.

use crate::cell::CellType;
use crate::distance::{Length, Step};
use crate::grid::GridView;
use vstd::prelude::*;

verus! {

impl GridView {
    /// The king move that leads from the cell with index `a` to its
    /// neighbour `b`: straight where the two share a side, diagonal where
    /// they share a corner only.
    pub open spec fn step(self, a: int, b: int) -> Step {
        if self.dist_squared(a, b) == 1 {
            Step::Straight
        } else {
            Step::Diagonal
        }
    }

    /// The cell from which a walk from `start` enters its cell number `i`.
    pub open spec fn walk_source(self, start: int, path: Seq<int>, i: int) -> int {
        if i == 0 {
            start
        } else {
            path[i - 1]
        }
    }

    /// Whether `path` is a walk from `start`: the cells after `start`, in
    /// order, each on the grid, none an obstacle, each adjacent to the one
    /// before it. The start itself is no part of `path` and may be of any
    /// kind.
    pub open spec fn is_walk(self, start: int, path: Seq<int>) -> bool {
        forall|i: int|
            0 <= i < path.len() ==> {
                &&& 0 <= #[trigger] path[i] < self.cells.len()
                &&& self.cells[path[i]].cell_type != CellType::Obstacle
                &&& self.adjacent(self.walk_source(start, path, i), path[i])
            }
    }

    /// Whether `path` is a walk from `start` that ends on the cell `end`.
    pub open spec fn is_walk_to(self, start: int, end: int, path: Seq<int>) -> bool {
        self.is_walk(start, path) && path.len() > 0 && path.last() == end
    }

    /// The length of a walk from `start`: 1 for each move to a side
    /// neighbour and √2 for each move to a corner neighbour.
    pub open spec fn walk_length(self, start: int, path: Seq<int>) -> Length
        decreases path.len(),
    {
        if path.len() == 0 {
            Length::zero()
        } else {
            self.walk_length(start, path.drop_last()).plus(
                self.step(self.walk_source(start, path, path.len() - 1), path.last()),
            )
        }
    }

    /// The first `i + 1` cells of a walk are the first `i` and one move
    /// more.
    pub proof fn lemma_walk_length_grows(self, start: int, path: Seq<int>, i: int)
        requires
            0 <= i < path.len(),
        ensures
            self.walk_length(start, path.take(i + 1)) == self.walk_length(
                start,
                path.take(i),
            ).plus(self.step(self.walk_source(start, path, i), path[i])),
    {
        let longer = path.take(i + 1);
        assert(longer.drop_last() == path.take(i));
        assert(longer.last() == path[i]);
        assert(self.walk_source(start, longer, i) == self.walk_source(start, path, i));
    }

    /// No part of a walk from its start on is longer than more of it.
    pub proof fn lemma_walk_length_monotone(self, start: int, path: Seq<int>, i: int, j: int)
        requires
            0 <= i <= j <= path.len(),
        ensures
            self.walk_length(start, path.take(i)).le(self.walk_length(start, path.take(j))),
        decreases j - i,
    {
        let short = self.walk_length(start, path.take(i));
        if i == j {
            short.lemma_lt_irreflexive();
        } else {
            let middle = self.walk_length(start, path.take(j - 1));
            let long = self.walk_length(start, path.take(j));
            self.lemma_walk_length_monotone(start, path, i, j - 1);
            self.lemma_walk_length_grows(start, path, j - 1);
            let step = self.step(self.walk_source(start, path, j - 1), path[j - 1]);
            middle.lemma_plus_is_longer(step);
            middle.lemma_lt_asymmetric(long);
            short.lemma_le_transitive(middle, long);
        }
    }
}

} // verus!
