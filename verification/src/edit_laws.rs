//! What holds of an edit.

use crate::cell::{CellType, Drawing};
use crate::grid::GridView;
use crate::model::START;
use crate::route_laws::{lemma_goal_of_layout, lemma_route_is_walk, lemma_search_ignores_marks};
use crate::search::{route, Search};
use vstd::prelude::*;

verus! {

/// The editor's start is a cell of every grid.
pub proof fn lemma_start_on_grid(grid: GridView)
    requires
        grid.wf(),
    ensures
        0 <= START < grid.cells.len(),
{
    assert(grid.width * grid.height > 0) by (nonlinear_arith)
        requires
            grid.width > 0,
            grid.height > 0,
    ;
}

/// An edit leaves a grid a grid. In particular it never leaves two goals:
/// painting a goal moves the goal, and neither clearing the marks nor
/// marking a path adds one.
pub proof fn lemma_toggled_wf(grid: GridView, i: int, drawing: Drawing)
    requires
        grid.wf(),
        0 <= i < grid.cells.len(),
    ensures
        grid.toggled(i, drawing).wf(),
        forall|a: int, b: int|
            grid.toggled(i, drawing).is_goal_at(a) && grid.toggled(i, drawing).is_goal_at(b) ==> a
                == b,
{
    let edited = grid.painted(i, drawing).cleared();
    grid.lemma_painted_cleared_wf(i, drawing);
    lemma_start_on_grid(edited);
    if edited.has_goal() {
        Search::lemma_run_inv(edited, START as int);
        Search::run(edited, START as int).grid.lemma_marked_wf(route(edited, START as int));
    }
    let after = grid.toggled(i, drawing);
    assert forall|a: int, b: int| after.is_goal_at(a) && after.is_goal_at(b) implies a == b by {}
}

/// Without a goal nothing is searched: where the grid has no goal once the
/// cell is painted, the edit only paints the cell and clears the marks. It
/// leaves every cell unvisited and of the kind `Default` or `Obstacle`.
pub proof fn lemma_toggle_without_goal(grid: GridView, i: int, drawing: Drawing)
    requires
        0 <= i < grid.cells.len(),
        !grid.painted(i, drawing).has_goal(),
    ensures
        grid.toggled(i, drawing) == grid.painted(i, drawing).cleared(),
        forall|c: int|
            0 <= c < grid.cells.len() ==> {
                let cell = #[trigger] grid.toggled(i, drawing).cells[c];
                &&& !cell.visited
                &&& cell.cell_type == CellType::Default || cell.cell_type == CellType::Obstacle
            },
{
    let painted = grid.painted(i, drawing);
    let cleared = painted.cleared();
    if cleared.has_goal() {
        let c = choose|c: int| cleared.is_goal_at(c);
        assert(painted.is_goal_at(c));
    }
    assert forall|c: int| 0 <= c < grid.cells.len() implies {
        let cell = #[trigger] cleared.cells[c];
        &&& !cell.visited
        &&& cell.cell_type == CellType::Default || cell.cell_type == CellType::Obstacle
    } by {
        assert(!painted.is_goal_at(c));
    }
}

/// The same edit a second time changes nothing, as long as the first one
/// found no path or it was the goal itself that was painted: the grid after
/// the second edit is the grid after the first, and so are the cells of the
/// kind `Path`.
///
/// A goal that lies elsewhere is turned into a cell of the path by the
/// first edit and cleared away by the second, which then finds no goal.
pub proof fn lemma_toggle_twice(grid: GridView, i: int, drawing: Drawing)
    requires
        grid.wf(),
        0 <= i < grid.cells.len(),
        route(grid.painted(i, drawing).cleared(), START as int).len() == 0 || grid.painted(
            i,
            drawing,
        ).cleared().is_goal_at(i),
    ensures
        grid.toggled(i, drawing).toggled(i, drawing) == grid.toggled(i, drawing),
        forall|c: int|
            0 <= c < grid.cells.len() ==> (grid.toggled(i, drawing).toggled(
                i,
                drawing,
            ).cells[c].cell_type == CellType::Path) == ((
            #[trigger] grid.toggled(i, drawing).cells[c]).cell_type == CellType::Path),
{
    let start = START as int;
    let first = grid.painted(i, drawing).cleared();
    let once = grid.toggled(i, drawing);
    let second = once.painted(i, drawing).cleared();
    let twice = once.toggled(i, drawing);
    let path = route(first, start);
    grid.lemma_painted_cleared_wf(i, drawing);
    lemma_start_on_grid(first);
    if drawing == Drawing::Goal {
        assert(first.is_goal_at(i));
    }
    if first.has_goal() {
        let end = Search::run(first, start);
        Search::lemma_run_inv(first, start);
        lemma_route_is_walk(first, start);
        assert(once == end.grid.marked(path));
        assert forall|c: int| 0 <= c < first.cells.len() implies {
            &&& (#[trigger] second.cells[c]).id == first.cells[c].id
            &&& second.cells[c].cell_type == first.cells[c].cell_type
            &&& second.cells[c].total_width == first.cells[c].total_width
        } by {
            assert(end.grid.cells[c].cell_type == first.cells[c].cell_type);
            assert(end.grid.cells[c].id == first.cells[c].id);
            assert(end.grid.cells[c].total_width == first.cells[c].total_width);
            if c != i {
                // no cell but the painted one is the goal, where the first
                // edit found a path or painted a goal
                if first.cells[c].cell_type == CellType::Goal {
                    assert(first.is_goal_at(c));
                    assert(!path.contains(c));
                }
                if path.contains(c) {
                    let k = choose|k: int| 0 <= k < path.len() && path[k] == c;
                    assert(first.cells[path[k]].cell_type != CellType::Obstacle);
                }
            }
        }
        assert(second.same_layout(first));
        lemma_search_ignores_marks(first, second, start);
        lemma_goal_of_layout(first, second);
        assert(twice == once);
    } else {
        assert(once == first);
        assert(second.cells =~= first.cells);
        assert(second == first);
    }
}

} // verus!
