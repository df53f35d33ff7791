//! Dijkstra's search as a state machine over mathematical values.
//!
//! A [`Search`] is the state between two steps: the grid, whose cells carry
//! the tentative distances and the marks of the settled cells, and the
//! predecessor of each cell that has been reached. The functions here say
//! what one relaxation, one round and the whole run do to it, and which
//! path is read off at the end. `crate::dijkstra` computes exactly this.

use crate::cell::{Cell, CellType};
use crate::distance::Distance;
use crate::grid::GridView;
use vstd::prelude::*;

verus! {

/// The state of a search.
pub struct Search {
    /// The cells, with their distances so far and the marks of the settled
    /// ones.
    pub grid: GridView,
    /// For each cell, the cell from which its distance was last lowered.
    pub prev: Seq<Option<usize>>,
}

impl GridView {
    /// The number of visited cells among the first `k`.
    pub open spec fn settled_below(self, k: nat) -> nat
        decreases k,
    {
        if k == 0 {
            0
        } else {
            self.settled_below((k - 1) as nat) + if self.cells[k - 1].visited {
                1nat
            } else {
                0nat
            }
        }
    }

    /// The number of visited cells.
    pub open spec fn settled(self) -> nat {
        self.settled_below(self.cells.len())
    }

    /// The same grid at the outset of a search from `start`: no cell
    /// visited, the start at distance zero, every other cell at infinite
    /// distance.
    pub open spec fn unsearched(self, start: int) -> GridView {
        GridView {
            cells: Seq::new(
                self.cells.len(),
                |i: int|
                    Cell {
                        visited: false,
                        distance: if i == start {
                            Distance::zero()
                        } else {
                            Distance::Infinite
                        },
                        ..self.cells[i]
                    },
            ),
            ..self
        }
    }

    /// Whether `other` is this grid but for the marks and the distances of
    /// its cells.
    pub open spec fn same_layout(self, other: GridView) -> bool {
        &&& self.width == other.width
        &&& self.height == other.height
        &&& self.cells.len() == other.cells.len()
        &&& forall|i: int|
            0 <= i < self.cells.len() ==> {
                &&& (#[trigger] self.cells[i]).id == other.cells[i].id
                &&& self.cells[i].cell_type == other.cells[i].cell_type
                &&& self.cells[i].total_width == other.cells[i].total_width
            }
    }
}

impl Search {
    /// The state at the outset of a search on `grid` from `start`.
    pub open spec fn begin(grid: GridView, start: int) -> Search {
        Search { grid: grid.unsearched(start), prev: Seq::new(grid.cells.len(), |i: int| None) }
    }

    /// Relaxes the move from `u` to `v`: where the way through `u` is
    /// strictly shorter than the distance of `v` so far, `v` takes that
    /// distance and `u` as its predecessor.
    pub open spec fn relax(self, u: int, v: int) -> Search {
        let through = self.grid.cells[u].distance.plus(self.grid.step(u, v));
        if through.lt(self.grid.cells[v].distance) {
            Search {
                grid: self.grid.with_cell(v, Cell { distance: through, ..self.grid.cells[v] }),
                prev: self.prev.update(v, Some(u as usize)),
            }
        } else {
            self
        }
    }

    /// Relaxes the moves from `u` to the cells of `around` from place `k`
    /// on, in order, and stops behind the goal.
    pub open spec fn relax_from(self, u: int, around: Seq<int>, k: nat) -> Search
        decreases around.len() - k,
    {
        if k >= around.len() {
            self
        } else {
            let relaxed = self.relax(u, around[k as int]);
            if self.grid.cells[around[k as int]].cell_type == CellType::Goal {
                relaxed
            } else {
                relaxed.relax_from(u, around, k + 1)
            }
        }
    }

    /// The state with the cell `u` marked as visited.
    pub open spec fn visit(self, u: int) -> Search {
        Search {
            grid: self.grid.with_cell(u, Cell { visited: true, ..self.grid.cells[u] }),
            ..self
        }
    }

    /// One round: settles the nearest candidate and relaxes the moves to
    /// its neighbours.
    pub open spec fn settle(self) -> Search {
        let u = self.grid.nearest();
        let visited = self.visit(u);
        visited.relax_from(u, visited.grid.neighbors(u), 0)
    }

    /// `n` rounds.
    pub open spec fn rounds(self, n: nat) -> Search
        decreases n,
    {
        if n == 0 {
            self
        } else {
            self.settle().rounds((n - 1) as nat)
        }
    }

    /// The whole search on `grid` from `start`: one round for each cell.
    pub open spec fn run(grid: GridView, start: int) -> Search {
        Search::begin(grid, start).rounds(grid.cells.len())
    }

    /// The number of moves that the distance of the cell `v` stands for.
    pub open spec fn hops(self, v: int) -> nat {
        self.grid.cells[v].distance.hops()
    }

    /// The cells on the way to `v` along the predecessors, from the one
    /// behind the first cell without a predecessor up to `v` itself; empty
    /// where `v` has no predecessor. A predecessor is followed only where
    /// it is fewer moves away, as every predecessor that a search sets is.
    pub open spec fn trail(self, v: int) -> Seq<int>
        decreases self.hops(v),
    {
        match self.prev[v] {
            Some(u) => if self.hops(u as int) < self.hops(v) {
                self.trail(u as int).push(v)
            } else {
                Seq::empty()
            },
            None => Seq::empty(),
        }
    }
}

/// The path that a search on `grid` from `start` finds: the cells from
/// behind the start up to the goal, or no cell where the search did not
/// reach the goal or there is none.
pub open spec fn route(grid: GridView, start: int) -> Seq<int> {
    match grid.goal() {
        Some(goal) => Search::run(grid, start).trail(goal),
        None => Seq::empty(),
    }
}

} // verus!
