//! Why the path found is a shortest one.
//!
//! The argument is the classical one for Dijkstra's search, with one twist:
//! a round stops relaxing behind the goal. The cells settled are never
//! farther than the candidates, and every move out of a settled cell has
//! been relaxed, or else the move from that cell to the goal has. A cell from
//! which the goal is one move away has no business going anywhere else, so
//! no walk to the goal is shorter than the distance found for the goal.

use crate::cell::CellType;
use crate::distance::{Length, Step};
use crate::grid::GridView;
use crate::search::Search;
use vstd::prelude::*;

verus! {

impl GridView {
    /// Whether the cell `goal` is of the kind `Goal`, and no other cell is.
    pub open spec fn sole_goal(self, goal: int) -> bool {
        &&& 0 <= goal < self.cells.len()
        &&& forall|i: int|
            0 <= i < self.cells.len() ==> ((#[trigger] self.cells[i]).cell_type == CellType::Goal
                <==> i == goal)
    }

    /// The goal of a grid is the only cell of its kind.
    pub proof fn lemma_sole_goal(self, goal: int)
        requires
            self.wf(),
            self.is_goal_at(goal),
        ensures
            self.sole_goal(goal),
    {
        assert forall|i: int| 0 <= i < self.cells.len() implies ((
        #[trigger] self.cells[i]).cell_type == CellType::Goal <==> i == goal) by {
            if self.cells[i].cell_type == CellType::Goal {
                assert(self.is_goal_at(i));
            }
        }
    }
}

impl Search {
    /// Whether the way to `v` through `u` is no shorter than the distance
    /// of `v`: nothing is to be gained by relaxing the move.
    pub open spec fn within_reach(self, u: int, v: int) -> bool {
        !self.grid.cells[u].distance.plus(self.grid.step(u, v)).lt(self.grid.cells[v].distance)
    }

    /// A settled cell `x` is no farther than a candidate `y`.
    pub open spec fn ordered(self, x: int, y: int) -> bool {
        self.grid.cells[x].visited && !self.grid.cells[y].visited
            ==> !self.grid.cells[y].distance.lt(self.grid.cells[x].distance)
    }

    /// The cell `x`, if settled, is no farther than the cell `u`.
    pub open spec fn behind(self, u: int, x: int) -> bool {
        self.grid.cells[x].visited ==> !self.grid.cells[u].distance.lt(
            self.grid.cells[x].distance,
        )
    }

    /// The move from a settled cell `u` to a neighbour `v` that is no
    /// obstacle gains nothing, or else the goal is next to `u` and the move
    /// there gains nothing.
    pub open spec fn edge_settled(self, goal: int, u: int, v: int) -> bool {
        self.grid.cells[u].visited && self.grid.adjacent(u, v) && self.grid.cells[v].cell_type
            != CellType::Obstacle ==> self.within_reach(u, v) || (self.grid.adjacent(u, goal)
            && self.within_reach(u, goal))
    }

    /// What holds between the rounds of a search for the only goal `goal`.
    pub open spec fn settled_well(self, goal: int) -> bool {
        &&& forall|x: int, y: int|
            0 <= x < self.grid.cells.len() && 0 <= y < self.grid.cells.len()
                ==> #[trigger] self.ordered(x, y)
        &&& forall|u: int, v: int|
            0 <= u < self.grid.cells.len() && 0 <= v < self.grid.cells.len()
                ==> #[trigger] self.edge_settled(goal, u, v)
    }

    /// What holds within the round that settles `u`.
    pub open spec fn settling(self, goal: int, u: int) -> bool {
        &&& forall|x: int, y: int|
            0 <= x < self.grid.cells.len() && 0 <= y < self.grid.cells.len()
                ==> #[trigger] self.ordered(x, y)
        &&& forall|x: int| 0 <= x < self.grid.cells.len() ==> #[trigger] self.behind(u, x)
        &&& forall|w: int, v: int|
            0 <= w < self.grid.cells.len() && 0 <= v < self.grid.cells.len() && w != u
                ==> #[trigger] self.edge_settled(goal, w, v)
    }

    /// Whether `later` has the marks of this state, no cell farther than
    /// here, and every settled cell at the distance it has here.
    pub open spec fn lowered_to(self, later: Search) -> bool {
        &&& later.grid.same_marks(self.grid)
        &&& forall|c: int|
            0 <= c < self.grid.cells.len() ==> {
                &&& !(#[trigger] self.grid.cells[c]).distance.lt(later.grid.cells[c].distance)
                &&& self.grid.cells[c].visited ==> later.grid.cells[c].distance
                    == self.grid.cells[c].distance
            }
    }

    /// A move that gains nothing gains nothing later either.
    pub proof fn lemma_within_reach_stays(self, later: Search, u: int, v: int)
        requires
            self.lowered_to(later),
            0 <= u < self.grid.cells.len(),
            0 <= v < self.grid.cells.len(),
            self.grid.cells[u].visited,
            self.within_reach(u, v),
        ensures
            later.within_reach(u, v),
    {
        let through = self.grid.cells[u].distance.plus(self.grid.step(u, v));
        assert(self.grid.cells[u].visited);
        assert(!self.grid.cells[v].distance.lt(later.grid.cells[v].distance));
        later.grid.cells[v].distance.lemma_not_longer_transitive(
            self.grid.cells[v].distance,
            through,
        );
    }

    /// What was settled about a move stays settled later.
    pub proof fn lemma_edge_settled_stays(self, later: Search, goal: int, u: int, v: int)
        requires
            self.lowered_to(later),
            0 <= u < self.grid.cells.len(),
            0 <= v < self.grid.cells.len(),
            0 <= goal < self.grid.cells.len(),
            self.edge_settled(goal, u, v),
        ensures
            later.edge_settled(goal, u, v),
    {
        assert(later.grid.cells[u].visited == self.grid.cells[u].visited);
        assert(later.grid.cells[v].cell_type == self.grid.cells[v].cell_type);
        if self.grid.cells[u].visited && self.grid.adjacent(u, v) && self.grid.cells[v].cell_type
            != CellType::Obstacle {
            if self.within_reach(u, v) {
                self.lemma_within_reach_stays(later, u, v);
            } else {
                self.lemma_within_reach_stays(later, u, goal);
            }
        }
    }

    /// Lowering twice is lowering.
    pub proof fn lemma_lowered_twice(self, middle: Search, later: Search)
        requires
            self.lowered_to(middle),
            middle.lowered_to(later),
        ensures
            self.lowered_to(later),
    {
        assert forall|c: int| 0 <= c < self.grid.cells.len() implies {
            &&& !(#[trigger] self.grid.cells[c]).distance.lt(later.grid.cells[c].distance)
            &&& self.grid.cells[c].visited ==> later.grid.cells[c].distance
                == self.grid.cells[c].distance
            &&& later.grid.cells[c].visited == self.grid.cells[c].visited
            &&& later.grid.cells[c].id == self.grid.cells[c].id
            &&& later.grid.cells[c].cell_type == self.grid.cells[c].cell_type
            &&& later.grid.cells[c].total_width == self.grid.cells[c].total_width
        } by {
            assert(!middle.grid.cells[c].distance.lt(later.grid.cells[c].distance));
            assert(middle.grid.cells[c].visited == self.grid.cells[c].visited);
            later.grid.cells[c].distance.lemma_not_longer_transitive(
                middle.grid.cells[c].distance,
                self.grid.cells[c].distance,
            );
        }
    }

    /// Relaxing a move within the round of `u` keeps what holds within the
    /// round, lowers distances only, and leaves the move without gain.
    pub proof fn lemma_relax_settling(self, base: GridView, start: int, goal: int, u: int, v: int)
        requires
            self.inv(base, start),
            0 <= goal < self.grid.cells.len(),
            self.settling(goal, u),
            self.relaxable(u, v),
        ensures
            self.relax(u, v).settling(goal, u),
            self.lowered_to(self.relax(u, v)),
            self.relax(u, v).within_reach(u, v),
    {
        let next = self.relax(u, v);
        let near = self.grid.cells[u].distance;
        let through = near.plus(self.grid.step(u, v));
        let old = self.grid.cells[v].distance;
        self.lemma_relax_inv(base, start, u, v);
        assert(self.linked(start, u));
        self.grid.lemma_settled_below_bound(self.grid.cells.len());
        through.lemma_lt_irreflexive();
        through.lemma_lt_asymmetric(old);
        assert(self.lowered_to(next)) by {
            assert forall|c: int| 0 <= c < self.grid.cells.len() implies {
                &&& !(#[trigger] self.grid.cells[c]).distance.lt(next.grid.cells[c].distance)
                &&& self.grid.cells[c].visited ==> next.grid.cells[c].distance
                    == self.grid.cells[c].distance
            } by {
                self.grid.cells[c].distance.lemma_lt_irreflexive();
            }
        }
        assert forall|x: int| 0 <= x < next.grid.cells.len() implies #[trigger] next.behind(
            u,
            x,
        ) by {
            assert(self.behind(u, x));
        }
        assert forall|x: int, y: int|
            0 <= x < next.grid.cells.len() && 0 <= y < next.grid.cells.len() implies #[trigger] next.ordered(
            x,
            y,
        ) by {
            assert(self.ordered(x, y));
            assert(self.behind(u, x));
            if y == v && through.lt(old) && self.grid.cells[x].visited {
                near.lemma_plus_is_longer(self.grid.step(u, v));
                near.lemma_lt_asymmetric(through);
                self.grid.cells[x].distance.lemma_not_longer_transitive(near, through);
            }
        }
        assert forall|w: int, c: int|
            0 <= w < next.grid.cells.len() && 0 <= c < next.grid.cells.len() && w
                != u implies #[trigger] next.edge_settled(goal, w, c) by {
            assert(self.edge_settled(goal, w, c));
            self.lemma_edge_settled_stays(next, goal, w, c);
        }
    }

    /// The move from `u` to `v` gains nothing, or the move from `u` to the
    /// goal next to it gains nothing.
    pub open spec fn reaches(self, goal: int, u: int, v: int) -> bool {
        self.within_reach(u, v) || (self.grid.adjacent(u, goal) && self.within_reach(u, goal))
    }

    /// Relaxing the moves to a list of cells keeps what holds within the
    /// round and lowers distances only. It leaves each of the moves without
    /// gain, or, where it stopped behind the goal, the move to the goal.
    pub proof fn lemma_relax_from_settling(
        self,
        base: GridView,
        start: int,
        goal: int,
        u: int,
        around: Seq<int>,
        k: nat,
    )
        requires
            self.inv(base, start),
            base.sole_goal(goal),
            self.settling(goal, u),
            forall|j: int| k <= j < around.len() ==> self.relaxable(u, #[trigger] around[j]),
        ensures
            self.relax_from(u, around, k).settling(goal, u),
            self.lowered_to(self.relax_from(u, around, k)),
            forall|j: int|
                k <= j < around.len() ==> self.relax_from(u, around, k).reaches(
                    goal,
                    u,
                    #[trigger] around[j],
                ),
        decreases around.len() - k,
    {
        let last = self.relax_from(u, around, k);
        if k < around.len() {
            let v = around[k as int];
            let relaxed = self.relax(u, v);
            assert(self.relaxable(u, v));
            self.lemma_relax_inv(base, start, u, v);
            self.lemma_relax_settling(base, start, goal, u, v);
            assert(self.grid.cells[v].cell_type == base.cells[v].cell_type);
            if self.grid.cells[v].cell_type == CellType::Goal {
                assert(v == goal);
                assert forall|j: int| k <= j < around.len() implies last.reaches(
                    goal,
                    u,
                    #[trigger] around[j],
                ) by {}
            } else {
                assert forall|j: int| k + 1 <= j < around.len() implies relaxed.relaxable(
                    u,
                    #[trigger] around[j],
                ) by {
                    assert(self.relaxable(u, around[j]));
                    assert(relaxed.grid.cells[u].visited == self.grid.cells[u].visited);
                    assert(relaxed.grid.cells[around[j]].visited
                        == self.grid.cells[around[j]].visited);
                }
                relaxed.lemma_relax_from_settling(base, start, goal, u, around, k + 1);
                self.lemma_lowered_twice(relaxed, last);
                assert forall|j: int| k <= j < around.len() implies last.reaches(
                    goal,
                    u,
                    #[trigger] around[j],
                ) by {
                    if j == k {
                        assert(relaxed.grid.cells[u].visited == self.grid.cells[u].visited);
                        relaxed.lemma_within_reach_stays(last, u, v);
                    }
                }
            }
        } else {
            assert(self.lowered_to(self)) by {
                assert forall|c: int| 0 <= c < self.grid.cells.len() implies !(
                #[trigger] self.grid.cells[c]).distance.lt(self.grid.cells[c].distance) by {
                    self.grid.cells[c].distance.lemma_lt_irreflexive();
                }
            }
        }
    }

    /// A round keeps what holds between the rounds.
    pub proof fn lemma_settle_settled_well(self, base: GridView, start: int, goal: int)
        requires
            self.inv(base, start),
            base.sole_goal(goal),
            self.settled_well(goal),
            self.grid.has_unvisited(),
        ensures
            self.settle().settled_well(goal),
    {
        Self::lemma_nearest_exists(self.grid);
        let u = self.grid.nearest();
        let visited = self.visit(u);
        let around = visited.grid.neighbors(u);
        let last = self.settle();
        self.lemma_visit_inv(base, start, u);
        assert(visited.settling(goal, u)) by {
            assert forall|x: int, y: int|
                0 <= x < visited.grid.cells.len() && 0 <= y
                    < visited.grid.cells.len() implies #[trigger] visited.ordered(x, y) by {
                assert(self.ordered(x, y));
                if x == u && !self.grid.cells[y].visited {
                    assert(!self.grid.cells[y].distance.lt(self.grid.cells[u].distance));
                }
            }
            assert forall|x: int| 0 <= x < visited.grid.cells.len() implies #[trigger] visited.behind(
                u,
                x,
            ) by {
                assert(self.ordered(x, u));
                self.grid.cells[u].distance.lemma_lt_irreflexive();
            }
            assert forall|w: int, v: int|
                0 <= w < visited.grid.cells.len() && 0 <= v < visited.grid.cells.len() && w
                    != u implies #[trigger] visited.edge_settled(goal, w, v) by {
                assert(self.edge_settled(goal, w, v));
            }
        }
        visited.grid.lemma_neighbors_sound(u, 9);
        assert forall|j: int| 0 <= j < around.len() implies visited.relaxable(
            u,
            #[trigger] around[j],
        ) by {}
        visited.lemma_relax_from_inv(base, start, u, around, 0);
        visited.lemma_relax_from_settling(base, start, goal, u, around, 0);
        last.grid.lemma_settled_below_bound(last.grid.cells.len());
        assert forall|w: int, v: int|
            0 <= w < last.grid.cells.len() && 0 <= v
                < last.grid.cells.len() implies #[trigger] last.edge_settled(goal, w, v) by {
            if w == u && last.grid.adjacent(u, v) && last.grid.cells[v].cell_type
                != CellType::Obstacle {
                let near = last.grid.cells[u].distance;
                let step = last.grid.step(u, v);
                assert(last.grid.cells[v].visited == visited.grid.cells[v].visited);
                assert(last.grid.cells[v].cell_type == visited.grid.cells[v].cell_type);
                if last.grid.cells[v].visited {
                    assert(last.behind(u, v));
                    assert(last.linked(start, u));
                    if near is Finite {
                        near.lemma_plus_is_longer(step);
                        near.lemma_lt_asymmetric(near.plus(step));
                        last.grid.cells[v].distance.lemma_not_longer_transitive(
                            near,
                            near.plus(step),
                        );
                    }
                } else {
                    visited.grid.lemma_neighbors_complete(u, v);
                    let j = choose|j: int| 0 <= j < around.len() && around[j] == v;
                    assert(last.reaches(goal, u, around[j]));
                }
            }
        }
    }

    /// Rounds keep what holds between them.
    pub proof fn lemma_rounds_settled_well(
        self,
        base: GridView,
        start: int,
        goal: int,
        n: nat,
    )
        requires
            self.inv(base, start),
            base.sole_goal(goal),
            self.settled_well(goal),
            self.grid.settled() + n == self.grid.cells.len(),
        ensures
            self.rounds(n).settled_well(goal),
        decreases n,
    {
        if n > 0 {
            self.grid.lemma_unvisited_left();
            self.lemma_settle_inv(base, start);
            self.lemma_settle_settled_well(base, start, goal);
            self.settle().lemma_rounds_settled_well(base, start, goal, (n - 1) as nat);
        }
    }

    /// At the end of a search for the only goal, every move out of a cell
    /// gains nothing, or else the move from that cell to the goal gains
    /// nothing.
    pub proof fn lemma_run_settled_well(base: GridView, start: int, goal: int)
        requires
            base.wf(),
            0 <= start < base.cells.len(),
            base.sole_goal(goal),
        ensures
            Search::run(base, start).settled_well(goal),
    {
        let begin = Search::begin(base, start);
        Self::lemma_begin_inv(base, start);
        assert(begin.settled_well(goal)) by {
            assert forall|x: int, y: int|
                0 <= x < begin.grid.cells.len() && 0 <= y
                    < begin.grid.cells.len() implies #[trigger] begin.ordered(x, y) by {}
            assert forall|u: int, v: int|
                0 <= u < begin.grid.cells.len() && 0 <= v
                    < begin.grid.cells.len() implies #[trigger] begin.edge_settled(goal, u, v) by {}
        }
        begin.lemma_rounds_settled_well(base, start, goal, base.cells.len());
    }

    /// Whether the distance of the cell `c` is finite and no longer than
    /// `length`.
    pub open spec fn no_farther_than(self, c: int, length: Length) -> bool {
        self.grid.cells[c].distance@ matches Some(found) && found.le(length)
    }

    /// Where the move from a settled cell `c` to `v` gains nothing, `v` is
    /// no farther than a way to `c` and that move.
    pub proof fn lemma_bound_moves(self, base: GridView, start: int, c: int, v: int, so_far: Length)
        requires
            self.inv(base, start),
            0 <= c < self.grid.cells.len(),
            0 <= v < self.grid.cells.len(),
            self.grid.cells[c].visited,
            self.no_farther_than(c, so_far),
            self.within_reach(c, v),
        ensures
            self.no_farther_than(v, so_far.plus(base.step(c, v))),
    {
        assert(self.linked(start, c));
        self.grid.lemma_settled_below_bound(self.grid.cells.len());
        let near = self.grid.cells[c].distance;
        let found = near@.unwrap();
        let step = base.step(c, v);
        assert(step == self.grid.step(c, v));
        near.lemma_plus_is_longer(step);
        so_far.lemma_plus_keeps_order(found, step);
        let there = self.grid.cells[v].distance@.unwrap();
        there.lemma_le_transitive(found.plus(step), so_far.plus(step));
    }

    /// One move of a walk: where `c` is no farther than the walk so far,
    /// the next cell `v` is no farther than the walk up to it, or else the
    /// goal is another cell and no farther than the walk so far and the
    /// move from `c` to it.
    proof fn lemma_walk_moves(
        self,
        base: GridView,
        start: int,
        goal: int,
        c: int,
        v: int,
        so_far: Length,
    )
        requires
            self.inv(base, start),
            0 <= c < self.grid.cells.len(),
            0 <= v < self.grid.cells.len(),
            0 <= goal < self.grid.cells.len(),
            self.grid.cells[c].visited,
            self.edge_settled(goal, c, v),
            base.adjacent(c, v),
            base.cells[v].cell_type != CellType::Obstacle,
            self.no_farther_than(c, so_far),
        ensures
            self.no_farther_than(v, so_far.plus(base.step(c, v))) || (v != goal
                && self.no_farther_than(goal, so_far.plus(base.step(c, goal)))),
    {
        assert(self.grid.cells[v].cell_type == base.cells[v].cell_type);
        assert(self.grid.adjacent(c, v));
        if self.within_reach(c, v) {
            self.lemma_bound_moves(base, start, c, v, so_far);
        } else {
            self.lemma_bound_moves(base, start, c, goal, so_far);
        }
    }

    /// Whether this is the end of a search on `base` from `start` for the
    /// only goal `goal`.
    #[verifier::opaque]
    pub open spec fn ended_well(self, base: GridView, start: int, goal: int) -> bool {
        &&& self.inv(base, start)
        &&& base.sole_goal(goal)
        &&& self.settled_well(goal)
        &&& forall|c: int|
            0 <= c < self.grid.cells.len() ==> (#[trigger] self.grid.cells[c]).visited
    }

    /// At the end of a search, the cell behind move number `at` of a walk
    /// is bound as `lemma_walk_moves` says.
    proof fn lemma_walk_moves_at(
        self,
        base: GridView,
        start: int,
        goal: int,
        walk: Seq<int>,
        at: int,
    )
        requires
            self.ended_well(base, start, goal),
            base.is_walk(start, walk),
            0 <= at < walk.len(),
            self.no_farther_than(
                base.walk_source(start, walk, at),
                base.walk_length(start, walk.take(at)),
            ),
        ensures
            self.no_farther_than(walk[at], base.walk_length(start, walk.take(at + 1))) || (walk[at]
                != goal && self.no_farther_than(
                goal,
                base.walk_length(start, walk.take(at)).plus(
                    base.step(base.walk_source(start, walk, at), goal),
                ),
            )),
    {
        reveal(Search::ended_well);
        let c = base.walk_source(start, walk, at);
        let v = walk[at];
        assert(0 <= v < base.cells.len());
        assert(0 <= c < base.cells.len()) by {
            if at > 0 {
                assert(0 <= walk[at - 1] < base.cells.len());
            }
        }
        assert(self.grid.cells[c].visited);
        assert(self.edge_settled(goal, c, v));
        base.lemma_walk_length_grows(start, walk, at);
        self.lemma_walk_moves(base, start, goal, c, v, base.walk_length(start, walk.take(at)));
    }

    /// At the end of a search the start is as far as the empty walk is long.
    proof fn lemma_walk_starts(self, base: GridView, start: int, goal: int, walk: Seq<int>)
        requires
            self.ended_well(base, start, goal),
        ensures
            self.no_farther_than(start, base.walk_length(start, walk.take(0))),
    {
        reveal(Search::ended_well);
        assert(self.linked(start, start));
        assert(walk.take(0).len() == 0);
        Length::zero().lemma_lt_irreflexive();
    }

    /// Along a walk to the goal, the distance found for each cell is no
    /// longer than the walk up to that cell, until the distance found for
    /// the goal is no longer than the whole walk.
    pub proof fn lemma_walk_bound(
        self,
        base: GridView,
        start: int,
        goal: int,
        walk: Seq<int>,
        i: nat,
    )
        requires
            self.ended_well(base, start, goal),
            base.is_walk_to(start, goal, walk),
            i <= walk.len(),
        ensures
            self.no_farther_than(
                base.walk_source(start, walk, i as int),
                base.walk_length(start, walk.take(i as int)),
            ) || self.no_farther_than(goal, base.walk_length(start, walk)),
        decreases i,
    {
        let whole = base.walk_length(start, walk);
        if i == 0 {
            self.lemma_walk_starts(base, start, goal, walk);
        } else {
            let at = (i - 1) as int;
            self.lemma_walk_bound(base, start, goal, walk, (i - 1) as nat);
            if !self.no_farther_than(goal, whole) {
                self.lemma_walk_moves_at(base, start, goal, walk, at);
                if !self.no_farther_than(walk[at], base.walk_length(start, walk.take(at + 1))) {
                    let direct = base.step(base.walk_source(start, walk, at), goal);
                    base.lemma_detour_is_longer(start, walk, at, direct);
                    let there = self.grid.cells[goal].distance@.unwrap();
                    there.lemma_le_transitive(
                        base.walk_length(start, walk.take(at)).plus(direct),
                        whole,
                    );
                }
            }
        }
    }
}

impl GridView {
    /// A walk that goes on for two moves or more behind its cell number
    /// `at` is longer than its part up to there and one move.
    proof fn lemma_detour_is_longer(self, start: int, walk: Seq<int>, at: int, direct: Step)
        requires
            0 <= at,
            at + 1 < walk.len(),
        ensures
            self.walk_length(start, walk.take(at)).plus(direct).le(self.walk_length(start, walk)),
    {
        let so_far = self.walk_length(start, walk.take(at));
        let whole = self.walk_length(start, walk);
        let first = self.step(self.walk_source(start, walk, at), walk[at]);
        let second = self.step(self.walk_source(start, walk, at + 1), walk[at + 1]);
        let round = so_far.plus(first).plus(second);
        assert(walk.take(walk.len() as int) == walk);
        self.lemma_walk_length_grows(start, walk, at);
        self.lemma_walk_length_grows(start, walk, at + 1);
        so_far.lemma_two_moves_are_longer(direct, first, second);
        so_far.plus(direct).lemma_lt_asymmetric(round);
        self.lemma_walk_length_monotone(start, walk, at + 2, walk.len() as int);
        so_far.plus(direct).lemma_le_transitive(round, whole);
    }
}

} // verus!
