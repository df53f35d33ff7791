//! What holds of every state of a search, and why each step keeps it.

use crate::cell::{Cell, CellType};
use crate::distance::Distance;
use crate::grid::GridView;
use crate::search::Search;
use vstd::prelude::*;

verus! {

impl GridView {
    /// Whether `other` differs from this grid in the distances of its cells
    /// at most.
    pub open spec fn same_marks(self, other: GridView) -> bool {
        &&& self.same_layout(other)
        &&& forall|i: int|
            0 <= i < self.cells.len() ==> (#[trigger] self.cells[i]).visited
                == other.cells[i].visited
    }

    /// A grid of the layout of a grid is a grid: the marks and the
    /// distances have no part in it.
    pub proof fn lemma_layout_wf(self, other: GridView)
        requires
            self.wf(),
            other.same_layout(self),
        ensures
            other.wf(),
    {
        assert forall|i: int| 0 <= i < other.cells.len() implies (#[trigger] other.cells[i]).id
            == i by {
            assert(self.cells[i].id == i);
        }
        assert forall|a: int, b: int| #[trigger]
            other.is_goal_at(a) && #[trigger] other.is_goal_at(b) implies a == b by {
            assert(other.cells[a].cell_type == self.cells[a].cell_type);
            assert(other.cells[b].cell_type == self.cells[b].cell_type);
            assert(self.is_goal_at(a) && self.is_goal_at(b));
        }
    }

    /// At most `k` of the first `k` cells are visited, and all of them only
    /// where the count says so.
    pub proof fn lemma_settled_below_bound(self, k: nat)
        requires
            k <= self.cells.len(),
        ensures
            self.settled_below(k) <= k,
            self.settled_below(k) == k <==> forall|i: int|
                0 <= i < k ==> (#[trigger] self.cells[i]).visited,
        decreases k,
    {
        if k > 0 {
            self.lemma_settled_below_bound((k - 1) as nat);
            if self.settled_below(k) == k {
                assert forall|i: int| 0 <= i < k implies (#[trigger] self.cells[i]).visited by {}
            }
            if forall|i: int| 0 <= i < k ==> (#[trigger] self.cells[i]).visited {
                assert(self.cells[k - 1].visited);
            }
        }
    }

    /// While not every cell is counted as visited, one is unvisited.
    pub proof fn lemma_unvisited_left(self)
        requires
            self.settled() < self.cells.len(),
        ensures
            self.has_unvisited(),
    {
        self.lemma_settled_below_bound(self.cells.len());
    }

    /// Replacing one cell changes the count by that cell's mark.
    pub proof fn lemma_settled_with_cell(self, i: int, cell: Cell, k: nat)
        requires
            0 <= i < self.cells.len(),
            k <= self.cells.len(),
        ensures
            self.with_cell(i, cell).settled_below(k) == self.settled_below(k) + if i < k {
                (if cell.visited {
                    1int
                } else {
                    0int
                }) - (if self.cells[i].visited {
                    1int
                } else {
                    0int
                })
            } else {
                0int
            },
        decreases k,
    {
        if k > 0 {
            self.lemma_settled_with_cell(i, cell, (k - 1) as nat);
        }
    }
}

impl Search {
    /// What holds of the cell `v` during a search from `start`: its
    /// distance stands for no more moves than cells have been settled, and
    /// it is finite exactly if `v` is the start or has a predecessor; a
    /// predecessor is a settled cell next to `v`, and the distance of `v`
    /// is that of the predecessor and one move more.
    pub open spec fn linked(self, start: int, v: int) -> bool {
        let cell = self.grid.cells[v];
        &&& cell.distance.hops() <= self.grid.settled()
        &&& cell.visited ==> cell.distance.hops() < self.grid.settled()
        &&& match self.prev[v] {
            None => if v == start {
                cell.distance == Distance::zero()
            } else {
                cell.distance is Infinite
            },
            Some(u) => {
                &&& v != start
                &&& u < self.grid.cells.len()
                &&& self.grid.cells[u as int].visited
                &&& self.grid.adjacent(u as int, v)
                &&& cell.cell_type != CellType::Obstacle
                &&& self.grid.cells[u as int].distance is Finite
                &&& cell.distance == self.grid.cells[u as int].distance.plus(
                    self.grid.step(u as int, v),
                )
            },
        }
    }

    /// What holds of every state of a search on `base` from `start`.
    pub open spec fn inv(self, base: GridView, start: int) -> bool {
        &&& self.grid.wf()
        &&& self.grid.same_layout(base)
        &&& self.prev.len() == self.grid.cells.len()
        &&& 0 <= start < self.grid.cells.len()
        &&& self.prev[start] is None
        &&& forall|v: int| 0 <= v < self.grid.cells.len() ==> #[trigger] self.linked(start, v)
    }

    /// Whether the move from `u` to `v` may be relaxed: `u` is settled, and
    /// `v` is an open cell next to it.
    pub open spec fn relaxable(self, u: int, v: int) -> bool {
        &&& 0 <= u < self.grid.cells.len()
        &&& 0 <= v < self.grid.cells.len()
        &&& self.grid.cells[u].visited
        &&& self.grid.adjacent(u, v)
        &&& self.grid.open_at(v)
    }

    /// The outset of a search is a state of it, with no cell settled.
    pub proof fn lemma_begin_inv(base: GridView, start: int)
        requires
            base.wf(),
            0 <= start < base.cells.len(),
        ensures
            Search::begin(base, start).inv(base, start),
            Search::begin(base, start).grid.settled() == 0,
    {
        let begin = Search::begin(base, start);
        base.lemma_layout_wf(begin.grid);
        begin.grid.lemma_settled_below_bound(begin.grid.cells.len());
        Self::lemma_none_settled(begin.grid, begin.grid.cells.len());
        assert forall|v: int| 0 <= v < begin.grid.cells.len() implies #[trigger] begin.linked(
            start,
            v,
        ) by {}
    }

    proof fn lemma_none_settled(grid: GridView, k: nat)
        requires
            k <= grid.cells.len(),
            forall|i: int| 0 <= i < grid.cells.len() ==> !(#[trigger] grid.cells[i]).visited,
        ensures
            grid.settled_below(k) == 0,
        decreases k,
    {
        if k > 0 {
            Self::lemma_none_settled(grid, (k - 1) as nat);
        }
    }

    /// Relaxing a move keeps the invariant, and changes no mark.
    pub proof fn lemma_relax_inv(self, base: GridView, start: int, u: int, v: int)
        requires
            self.inv(base, start),
            self.relaxable(u, v),
        ensures
            self.relax(u, v).inv(base, start),
            self.relax(u, v).grid.same_marks(self.grid),
            self.relax(u, v).grid.settled() == self.grid.settled(),
    {
        let next = self.relax(u, v);
        let through = self.grid.cells[u].distance.plus(self.grid.step(u, v));
        assert(self.linked(start, u));
        assert(self.linked(start, v));
        assert(self.linked(start, start));
        self.grid.lemma_settled_below_bound(self.grid.cells.len());
        if through.lt(self.grid.cells[v].distance) {
            let cell = Cell { distance: through, ..self.grid.cells[v] };
            self.grid.lemma_settled_with_cell(v, cell, self.grid.cells.len());
            assert(next.grid.settled() == self.grid.settled());
            assert(next.grid.same_layout(self.grid));
            self.grid.lemma_layout_wf(next.grid);
            assert(next.grid.same_layout(base)) by {
                assert forall|i: int| 0 <= i < next.grid.cells.len() implies {
                    &&& (#[trigger] next.grid.cells[i]).id == base.cells[i].id
                    &&& next.grid.cells[i].cell_type == base.cells[i].cell_type
                    &&& next.grid.cells[i].total_width == base.cells[i].total_width
                } by {
                    assert(self.grid.cells[i].id == base.cells[i].id);
                }
            }
            assert(v != start) by {
                through.lemma_zero_is_least();
            }
            assert forall|w: int| 0 <= w < next.grid.cells.len() implies #[trigger] next.linked(
                start,
                w,
            ) by {
                assert(self.linked(start, w));
                if w != v {
                    if self.prev[w] is Some {
                        assert(self.prev[w].unwrap() != v);
                    }
                }
            }
        }
    }

    /// Relaxing the moves to a list of cells keeps the invariant, and
    /// changes no mark.
    pub proof fn lemma_relax_from_inv(
        self,
        base: GridView,
        start: int,
        u: int,
        around: Seq<int>,
        k: nat,
    )
        requires
            self.inv(base, start),
            forall|j: int| k <= j < around.len() ==> self.relaxable(u, #[trigger] around[j]),
        ensures
            self.relax_from(u, around, k).inv(base, start),
            self.relax_from(u, around, k).grid.same_marks(self.grid),
            self.relax_from(u, around, k).grid.settled() == self.grid.settled(),
        decreases around.len() - k,
    {
        if k < around.len() {
            let v = around[k as int];
            let relaxed = self.relax(u, v);
            self.lemma_relax_inv(base, start, u, v);
            if self.grid.cells[v].cell_type != CellType::Goal {
                assert forall|j: int| k + 1 <= j < around.len() implies relaxed.relaxable(
                    u,
                    #[trigger] around[j],
                ) by {
                    assert(self.relaxable(u, around[j]));
                    assert(relaxed.grid.cells[u].visited == self.grid.cells[u].visited);
                    assert(relaxed.grid.cells[around[j]].visited
                        == self.grid.cells[around[j]].visited);
                }
                relaxed.lemma_relax_from_inv(base, start, u, around, k + 1);
                let last = relaxed.relax_from(u, around, k + 1);
                assert(last.grid.same_marks(self.grid)) by {
                    assert forall|i: int| 0 <= i < last.grid.cells.len() implies {
                        &&& (#[trigger] last.grid.cells[i]).visited == self.grid.cells[i].visited
                        &&& last.grid.cells[i].id == self.grid.cells[i].id
                        &&& last.grid.cells[i].cell_type == self.grid.cells[i].cell_type
                        &&& last.grid.cells[i].total_width == self.grid.cells[i].total_width
                    } by {
                        assert(relaxed.grid.cells[i].visited == self.grid.cells[i].visited);
                    }
                }
            }
        } else {
            assert forall|i: int| 0 <= i < self.grid.cells.len() implies (
            #[trigger] self.grid.cells[i]).visited == self.grid.cells[i].visited by {}
        }
    }

    /// Marking an unvisited cell keeps the invariant, and settles one cell
    /// more.
    pub proof fn lemma_visit_inv(self, base: GridView, start: int, u: int)
        requires
            self.inv(base, start),
            0 <= u < self.grid.cells.len(),
            !self.grid.cells[u].visited,
        ensures
            self.visit(u).inv(base, start),
            self.visit(u).grid.settled() == self.grid.settled() + 1,
    {
        let next = self.visit(u);
        let cell = Cell { visited: true, ..self.grid.cells[u] };
        self.grid.lemma_settled_with_cell(u, cell, self.grid.cells.len());
        assert(next.grid.same_layout(self.grid));
        self.grid.lemma_layout_wf(next.grid);
        assert(next.grid.same_layout(base)) by {
            assert forall|i: int| 0 <= i < next.grid.cells.len() implies {
                &&& (#[trigger] next.grid.cells[i]).id == base.cells[i].id
                &&& next.grid.cells[i].cell_type == base.cells[i].cell_type
                &&& next.grid.cells[i].total_width == base.cells[i].total_width
            } by {
                assert(self.grid.cells[i].id == base.cells[i].id);
            }
        }
        assert forall|w: int| 0 <= w < next.grid.cells.len() implies #[trigger] next.linked(
            start,
            w,
        ) by {
            assert(self.linked(start, w));
        }
    }

    /// Among unvisited cells there is a nearest candidate.
    pub proof fn lemma_nearest_exists(grid: GridView)
        requires
            grid.has_unvisited(),
        ensures
            grid.is_nearest_at(grid.nearest()),
    {
        let best = Self::lemma_nearest_below(grid, grid.cells.len());
        let some = choose|i: int| 0 <= i < grid.cells.len() && !(#[trigger] grid.cells[i]).visited;
        assert(!grid.cells[some].visited);
        assert(grid.is_nearest_at(best.unwrap()));
    }

    proof fn lemma_nearest_below(grid: GridView, k: nat) -> (best: Option<int>)
        requires
            k <= grid.cells.len(),
        ensures
            best is None ==> forall|j: int| 0 <= j < k ==> (#[trigger] grid.cells[j]).visited,
            best matches Some(b) ==> {
                &&& 0 <= b < k
                &&& !grid.cells[b].visited
                &&& forall|j: int|
                    0 <= j < k && !(#[trigger] grid.cells[j]).visited
                        ==> !grid.cells[j].distance.lt(grid.cells[b].distance)
                &&& forall|j: int|
                    0 <= j < b && !(#[trigger] grid.cells[j]).visited ==> grid.cells[b].distance.lt(
                        grid.cells[j].distance,
                    )
            },
        decreases k,
    {
        if k == 0 {
            None
        } else {
            let before = Self::lemma_nearest_below(grid, (k - 1) as nat);
            let i = k - 1;
            grid.cells[i].distance.lemma_lt_irreflexive();
            if grid.cells[i].visited {
                before
            } else {
                match before {
                    None => Some(i),
                    Some(b) => {
                        let here = grid.cells[i].distance;
                        let there = grid.cells[b].distance;
                        if here.lt(there) {
                            assert forall|j: int|
                                0 <= j < i && !(#[trigger] grid.cells[j]).visited implies {
                                &&& !grid.cells[j].distance.lt(here)
                                &&& here.lt(grid.cells[j].distance)
                            } by {
                                here.lemma_lt_asymmetric(there);
                                here.lemma_not_longer_transitive(there, grid.cells[j].distance);
                                here.lemma_lt_asymmetric(grid.cells[j].distance);
                            }
                            Some(i)
                        } else {
                            Some(b)
                        }
                    },
                }
            }
        }
    }

    /// A round keeps the invariant, and settles one cell more.
    pub proof fn lemma_settle_inv(self, base: GridView, start: int)
        requires
            self.inv(base, start),
            self.grid.has_unvisited(),
        ensures
            self.settle().inv(base, start),
            self.settle().grid.settled() == self.grid.settled() + 1,
    {
        Self::lemma_nearest_exists(self.grid);
        let u = self.grid.nearest();
        let visited = self.visit(u);
        self.lemma_visit_inv(base, start, u);
        let around = visited.grid.neighbors(u);
        visited.grid.lemma_neighbors_sound(u, 9);
        assert forall|j: int| 0 <= j < around.len() implies visited.relaxable(
            u,
            #[trigger] around[j],
        ) by {}
        visited.lemma_relax_from_inv(base, start, u, around, 0);
    }

    /// Rounds keep the invariant; as many of them as cells are unsettled
    /// settle every cell.
    pub proof fn lemma_rounds_inv(self, base: GridView, start: int, n: nat)
        requires
            self.inv(base, start),
            self.grid.settled() + n == self.grid.cells.len(),
        ensures
            self.rounds(n).inv(base, start),
            self.rounds(n).grid.settled() == self.grid.cells.len(),
        decreases n,
    {
        if n > 0 {
            self.grid.lemma_unvisited_left();
            self.lemma_settle_inv(base, start);
            self.settle().lemma_rounds_inv(base, start, (n - 1) as nat);
        }
    }

    /// The whole search ends in a state of it, with every cell settled.
    pub proof fn lemma_run_inv(base: GridView, start: int)
        requires
            base.wf(),
            0 <= start < base.cells.len(),
        ensures
            Search::run(base, start).inv(base, start),
            forall|i: int|
                0 <= i < base.cells.len() ==> (#[trigger] Search::run(
                    base,
                    start,
                ).grid.cells[i]).visited,
    {
        Self::lemma_begin_inv(base, start);
        let begin = Search::begin(base, start);
        begin.lemma_rounds_inv(base, start, base.cells.len());
        let end = Search::run(base, start);
        end.grid.lemma_settled_below_bound(end.grid.cells.len());
    }

    /// A cell with a predecessor is one move farther than it, and its trail
    /// is the predecessor's trail and the cell itself.
    pub proof fn lemma_trail_unfolds(self, base: GridView, start: int, v: int)
        requires
            self.inv(base, start),
            0 <= v < self.grid.cells.len(),
            self.prev[v] is Some,
        ensures
            ({
                let u = self.prev[v].unwrap() as int;
                &&& 0 <= u < self.grid.cells.len()
                &&& self.hops(v) == self.hops(u) + 1
                &&& self.trail(v) == self.trail(u).push(v)
                &&& self.grid.cells[u].distance@ is Some
                &&& self.grid.cells[v].distance@ == Some(
                    self.grid.cells[u].distance@.unwrap().plus(base.step(u, v)),
                )
                &&& base.adjacent(u, v)
                &&& u != start ==> self.prev[u] is Some
            }),
    {
        let u = self.prev[v].unwrap() as int;
        assert(self.linked(start, v));
        assert(self.linked(start, u));
        self.grid.lemma_settled_below_bound(self.grid.cells.len());
    }

    /// The trail of a cell is a walk from the start that never comes back
    /// to the start. It is empty for a cell without a predecessor; else it
    /// ends on the cell, and its length is the cell's distance.
    pub proof fn lemma_trail_is_walk(self, base: GridView, start: int, v: int)
        requires
            self.inv(base, start),
            0 <= v < self.grid.cells.len(),
        ensures
            base.is_walk(start, self.trail(v)),
            forall|i: int| 0 <= i < self.trail(v).len() ==> #[trigger] self.trail(v)[i] != start,
            self.prev[v] is None ==> self.trail(v).len() == 0,
            self.prev[v] is Some ==> {
                &&& self.trail(v).len() == self.hops(v)
                &&& self.trail(v).len() > 0
                &&& self.trail(v).last() == v
                &&& self.grid.cells[v].distance@ == Some(base.walk_length(start, self.trail(v)))
            },
        decreases self.hops(v),
    {
        if self.prev[v] is Some {
            let u = self.prev[v].unwrap() as int;
            let short = self.trail(u);
            let long = self.trail(v);
            self.lemma_trail_unfolds(base, start, v);
            self.lemma_trail_is_walk(base, start, u);
            assert(self.linked(start, v));
            assert(self.linked(start, u));
            assert(long.drop_last() == short);
            assert(base.walk_source(start, long, long.len() - 1) == u);
            assert forall|i: int| 0 <= i < long.len() implies {
                &&& 0 <= #[trigger] long[i] < base.cells.len()
                &&& base.cells[long[i]].cell_type != CellType::Obstacle
                &&& base.adjacent(base.walk_source(start, long, i), long[i])
            } by {
                if i < short.len() {
                    assert(long[i] == short[i]);
                    assert(base.walk_source(start, long, i) == base.walk_source(start, short, i));
                }
            }
            assert forall|i: int| 0 <= i < long.len() implies #[trigger] long[i] != start by {
                if i < short.len() {
                    assert(long[i] == short[i]);
                }
            }
            if u == start {
                assert(self.grid.cells[u].distance == Distance::zero());
                assert(short.len() == 0);
            } else {
                assert(self.prev[u] is Some);
            }
            assert(self.grid.cells[u].distance@ == Some(base.walk_length(start, short)));
            assert(long.len() == self.hops(v));
            assert(long.last() == v);
            assert(base.walk_length(start, long) == base.walk_length(start, short).plus(
                base.step(u, v),
            ));
        }
    }
}

} // verus!
