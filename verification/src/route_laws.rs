//! What holds of the path that a search finds.

use crate::cell::CellType;
use crate::grid::GridView;
use crate::search::{route, Search};
use vstd::prelude::*;

verus! {

/// The path found is a walk from the start: every cell of it lies on the
/// grid, is no obstacle and is adjacent to the cell before it, the first to
/// the start. It never comes back to the start. Where it is not empty it
/// ends on the goal, and its length is the distance that the search leaves
/// in the goal.
pub proof fn lemma_route_is_walk(grid: GridView, start: int)
    requires
        grid.wf(),
        0 <= start < grid.cells.len(),
    ensures
        grid.is_walk(start, route(grid, start)),
        forall|k: int|
            0 <= k < route(grid, start).len() ==> #[trigger] route(grid, start)[k] != start,
        route(grid, start).len() > 0 ==> {
            &&& grid.goal() == Some(route(grid, start).last())
            &&& grid.is_walk_to(start, grid.goal().unwrap(), route(grid, start))
            &&& Search::run(grid, start).grid.cells[grid.goal().unwrap()].distance@ == Some(
                grid.walk_length(start, route(grid, start)),
            )
        },
{
    if grid.has_goal() {
        grid.lemma_goal_exists();
        let goal = grid.goal().unwrap();
        Search::lemma_run_inv(grid, start);
        Search::run(grid, start).lemma_trail_is_walk(grid, start, goal);
    }
}

/// No cell of the path found is an obstacle, however the obstacles lie
/// between the start and the goal.
pub proof fn lemma_route_avoids_obstacles(grid: GridView, start: int)
    requires
        grid.wf(),
        0 <= start < grid.cells.len(),
    ensures
        forall|k: int|
            0 <= k < route(grid, start).len() ==> {
                &&& 0 <= #[trigger] route(grid, start)[k] < grid.cells.len()
                &&& grid.cells[route(grid, start)[k]].cell_type != CellType::Obstacle
            },
{
    lemma_route_is_walk(grid, start);
}

/// A goal whose neighbours are all obstacles is not reached, unless the
/// search starts on one of those neighbours.
pub proof fn lemma_enclosed_goal_unreached(grid: GridView, start: int)
    requires
        grid.wf(),
        0 <= start < grid.cells.len(),
        grid.goal() is Some,
        forall|c: int|
            0 <= c < grid.cells.len() && grid.adjacent(c, grid.goal().unwrap()) ==> (
            #[trigger] grid.cells[c]).cell_type == CellType::Obstacle,
        !grid.adjacent(start, grid.goal().unwrap()),
    ensures
        route(grid, start).len() == 0,
{
    let path = route(grid, start);
    lemma_route_is_walk(grid, start);
    if path.len() > 0 {
        let last = path.len() - 1;
        let source = grid.walk_source(start, path, last);
        assert(grid.adjacent(source, path[last]));
        if last > 0 {
            assert(0 <= path[last - 1] < grid.cells.len());
            assert(grid.cells[source].cell_type == CellType::Obstacle);
        }
    }
}

/// The search reaches the goal wherever a walk leads from the start to it,
/// and the path found is a shortest one: no walk from the start to the goal
/// is shorter.
pub proof fn lemma_route_is_shortest(grid: GridView, start: int, goal: int, walk: Seq<int>)
    requires
        grid.wf(),
        0 <= start < grid.cells.len(),
        grid.is_goal_at(goal),
        goal != start,
        grid.is_walk_to(start, goal, walk),
    ensures
        grid.is_walk_to(start, goal, route(grid, start)),
        grid.walk_length(start, route(grid, start)).le(grid.walk_length(start, walk)),
{
    let end = Search::run(grid, start);
    grid.lemma_sole_goal(goal);
    grid.lemma_goal_found(goal);
    Search::lemma_run_inv(grid, start);
    Search::lemma_run_settled_well(grid, start, goal);
    assert(end.ended_well(grid, start, goal)) by {
        reveal(Search::ended_well);
    }
    end.lemma_walk_bound(grid, start, goal, walk, walk.len());
    assert(walk.take(walk.len() as int) == walk);
    assert(end.no_farther_than(goal, grid.walk_length(start, walk)));
    assert(end.linked(start, goal));
    end.lemma_trail_is_walk(grid, start, goal);
}

/// A search looks at the layout alone: on two grids that differ in the
/// marks and the distances of their cells at most, it runs alike and finds
/// the same path.
pub proof fn lemma_search_ignores_marks(grid: GridView, other: GridView, start: int)
    requires
        grid.wf(),
        other.same_layout(grid),
    ensures
        Search::run(grid, start) == Search::run(other, start),
        grid.goal() == other.goal(),
        route(grid, start) == route(other, start),
{
    assert(grid.unsearched(start).cells =~= other.unsearched(start).cells);
    assert(Search::begin(grid, start).prev =~= Search::begin(other, start).prev);
    assert(Search::begin(grid, start) == Search::begin(other, start));
    lemma_goal_of_layout(grid, other);
}

/// Grids of the same layout have the same goal.
pub proof fn lemma_goal_of_layout(grid: GridView, other: GridView)
    requires
        grid.wf(),
        other.same_layout(grid),
    ensures
        other.wf(),
        grid.has_goal() == other.has_goal(),
        grid.goal() == other.goal(),
{
    grid.lemma_layout_wf(other);
    if grid.has_goal() {
        let goal = grid.goal().unwrap();
        assert(other.cells[goal].cell_type == grid.cells[goal].cell_type);
        assert(other.is_goal_at(goal));
        other.lemma_goal_found(goal);
    }
    if other.has_goal() {
        let goal = other.goal().unwrap();
        assert(other.cells[goal].cell_type == grid.cells[goal].cell_type);
        assert(grid.is_goal_at(goal));
        grid.lemma_goal_found(goal);
    }
}

} // verus!
