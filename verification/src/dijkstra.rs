//! The search itself.

use crate::cell::{Cell, CellType};
use crate::distance::{Distance, Step};
use crate::grid::{Grid, GridView};
use crate::route_laws::lemma_route_is_shortest;
use crate::search::{route, Search};
use vstd::prelude::*;

verus! {

/// Brings every cell to the outset of a search from `start`.
fn prepare(grid: &mut Grid, start: usize)
    requires
        start < old(grid).data.len(),
    ensures
        final(grid)@ == old(grid)@.unsearched(start as int),
{
    let mut i: usize = 0;
    while i < grid.data.len()
        invariant
            i <= grid.data.len(),
            grid.width == old(grid).width,
            grid.height == old(grid).height,
            grid.data.len() == old(grid).data.len(),
            forall|j: int|
                0 <= j < i ==> #[trigger] grid.data[j] == old(grid)@.unsearched(
                    start as int,
                ).cells[j],
            forall|j: int| i <= j < grid.data.len() ==> #[trigger] grid.data[j] == old(grid).data[j],
        decreases grid.data.len() - i,
    {
        let mut cell = grid.data[i];
        cell.visited = false;
        cell.distance =
        if i == start {
            Distance::origin()
        } else {
            Distance::Infinite
        };
        grid.data.set(i, cell);
        i += 1;
    }
    assert(grid@.cells =~= old(grid)@.unsearched(start as int).cells);
}

/// A table of `n` cells without a predecessor.
fn no_predecessors(n: usize) -> (prevs: Vec<Option<usize>>)
    ensures
        prevs@ == Seq::new(n as nat, |i: int| None::<usize>),
{
    let mut prevs: Vec<Option<usize>> = Vec::new();
    let mut i: usize = 0;
    while i < n
        invariant
            i <= n,
            prevs.len() == i,
            forall|j: int| 0 <= j < i ==> #[trigger] prevs[j] is None,
        decreases n - i,
    {
        prevs.push(None);
        i += 1;
    }
    assert(prevs@ =~= Seq::new(n as nat, |i: int| None::<usize>));
    prevs
}

/// Settles the cell `u` and relaxes the moves to its neighbours: one round
/// of the search, for the nearest candidate `u`.
fn settle(
    grid: &mut Grid,
    prevs: &mut Vec<Option<usize>>,
    u: usize,
    Ghost(base): Ghost<GridView>,
    Ghost(start): Ghost<int>,
)
    requires
        (Search { grid: old(grid)@, prev: old(prevs)@ }).inv(base, start),
        old(grid)@.is_nearest_at(u as int),
    ensures
        (Search { grid: final(grid)@, prev: final(prevs)@ }) == (Search {
            grid: old(grid)@,
            prev: old(prevs)@,
        }).settle(),
{
    let ghost before = Search { grid: grid@, prev: prevs@ };
    proof {
        before.grid.lemma_nearest_found(u as int);
        before.lemma_visit_inv(base, start, u as int);
    }
    let mut settled = grid.data[u];
    settled.visited = true;
    grid.data.set(u, settled);
    let ghost visited = before.visit(u as int);
    assert(grid@ == visited.grid);
    let around = grid.get_neighbors(&settled);
    let ghost ids = visited.grid.neighbors(u as int);
    let ghost target = visited.relax_from(u as int, ids, 0);
    let ghost mut now = visited;
    proof {
        visited.grid.lemma_neighbors_sound(u as int, 9);
        assert(around@.len() == ids.len());
    }
    let mut k: usize = 0;
    while k < around.len()
        invariant_except_break
            now.relax_from(u as int, ids, k as nat) == target,
        invariant
            k <= around.len(),
            around@.len() == ids.len(),
            forall|j: int| 0 <= j < ids.len() ==> (#[trigger] around[j]).id == ids[j],
            forall|j: int| 0 <= j < ids.len() ==> visited.relaxable(u as int, #[trigger] ids[j]),
            now == (Search { grid: grid@, prev: prevs@ }),
            now.inv(base, start),
            now.grid.same_marks(visited.grid),
            u < grid.data.len(),
            settled == visited.grid.cells[u as int],
        ensures
            now == target,
            now == (Search { grid: grid@, prev: prevs@ }),
        decreases around.len() - k,
    {
        let v = around[k].id;
        proof {
            assert(visited.relaxable(u as int, ids[k as int]));
            assert(now.relaxable(u as int, v as int));
            assert(now.linked(start, u as int));
            now.grid.lemma_settled_below_bound(now.grid.cells.len());
            now.lemma_relax_inv(base, start, u as int, v as int);
        }
        let from = grid.data[u];
        let to = grid.data[v];
        let step = if grid.dist_squared(&from, &to) == 1 {
            Step::Straight
        } else {
            Step::Diagonal
        };
        let through = from.distance.extend(step);
        if through.less_than(&to.distance) {
            let mut reached = to;
            reached.distance = through;
            grid.data.set(v, reached);
            prevs.set(v, Some(u));
        }
        proof {
            let next = now.relax(u as int, v as int);
            assert(grid@.cells =~= next.grid.cells);
            assert(prevs@ =~= next.prev);
            assert(next.grid.same_marks(visited.grid)) by {
                assert forall|i: int| 0 <= i < next.grid.cells.len() implies {
                    &&& (#[trigger] next.grid.cells[i]).visited == visited.grid.cells[i].visited
                    &&& next.grid.cells[i].id == visited.grid.cells[i].id
                    &&& next.grid.cells[i].cell_type == visited.grid.cells[i].cell_type
                    &&& next.grid.cells[i].total_width == visited.grid.cells[i].total_width
                } by {
                    assert(now.grid.cells[i].visited == visited.grid.cells[i].visited);
                }
            }
            now = next;
        }
        if to.cell_type == CellType::Goal {
            break ;
        }
        k += 1;
    }
}

/// Dijkstra's search over king moves from the cell `start` to the goal of
/// the grid.
///
/// Returns the cells of the path found, from behind the start up to the
/// goal, as the grid holds them after the search; no cell where the search
/// does not reach the goal, or starts on it. The path is a walk over cells
/// that are no obstacles. The search reaches the goal whenever a walk leads
/// there, and no walk is shorter than the path.
///
/// In the grid every cell is left visited, with the distance that the
/// search found for it.
pub fn dijkstra(grid: &mut Grid, start: usize) -> (path: Vec<Cell>)
    requires
        old(grid).wf(),
        start < old(grid).data.len(),
        old(grid)@.has_goal(),
    ensures
        final(grid)@ == Search::run(old(grid)@, start as int).grid,
        final(grid).wf(),
        final(grid)@.same_layout(old(grid)@),
        forall|i: int| 0 <= i < final(grid).data.len() ==> (#[trigger] final(grid).data[i]).visited,
        path@ == route(old(grid)@, start as int).map_values(|i: int| final(grid).data[i]),
        forall|k: int|
            0 <= k < path.len() ==> (#[trigger] path[k]).id == route(old(grid)@, start as int)[k],
        old(grid)@.is_walk(start as int, route(old(grid)@, start as int)),
        forall|k: int| 0 <= k < path.len() ==> (#[trigger] path[k]).id != start,
        path.len() > 0 ==> old(grid)@.goal() == Some(path[path.len() - 1].id as int),
        forall|other: Seq<int>|
            old(grid)@.goal().unwrap() != start && #[trigger] old(grid)@.is_walk_to(
                start as int,
                old(grid)@.goal().unwrap(),
                other,
            ) ==> path.len() > 0 && old(grid)@.walk_length(
                start as int,
                route(old(grid)@, start as int),
            ).le(old(grid)@.walk_length(start as int, other)),
{
    let ghost base = grid@;
    let goal = grid.get_goal().unwrap().id;
    let n = grid.data.len();
    prepare(grid, start);
    let mut prevs = no_predecessors(n);
    let ghost mut state = Search::begin(base, start as int);
    proof {
        Search::lemma_begin_inv(base, start as int);
    }
    let mut remaining = n;
    while remaining > 0
        invariant
            state == (Search { grid: grid@, prev: prevs@ }),
            state.inv(base, start as int),
            state.grid.settled() + remaining == n,
            n == base.cells.len(),
            state.rounds(remaining as nat) == Search::run(base, start as int),
        decreases remaining,
    {
        proof {
            state.grid.lemma_unvisited_left();
        }
        let u = grid.smallest_distance().id;
        proof {
            state.lemma_settle_inv(base, start as int);
        }
        settle(grid, &mut prevs, u, Ghost(base), Ghost(start as int));
        proof {
            state = state.settle();
        }
        remaining -= 1;
    }
    let ghost end = state;
    let mut reversed: Vec<usize> = Vec::new();
    let mut at = goal;
    let mut link = prevs[at];
    while link.is_some()
        invariant
            end == (Search { grid: grid@, prev: prevs@ }),
            end.inv(base, start as int),
            at < prevs.len(),
            link == prevs[at as int],
            end.trail(goal as int) == end.trail(at as int) + reversed@.map_values(
                |i: usize| i as int,
            ).reverse(),
            forall|j: int| 0 <= j < reversed.len() ==> (#[trigger] reversed[j]) < prevs.len(),
        decreases end.hops(at as int),
    {
        proof {
            end.lemma_trail_unfolds(base, start as int, at as int);
            let ghost before = reversed@.map_values(|i: usize| i as int);
            let ghost after = reversed@.push(at).map_values(|i: usize| i as int);
            assert(after == before.push(at as int));
            assert(after.reverse() =~= seq![at as int] + before.reverse());
            assert(end.trail(link.unwrap() as int).push(at as int) + before.reverse()
                =~= end.trail(link.unwrap() as int) + after.reverse());
        }
        reversed.push(at);
        at = link.unwrap();
        link = prevs[at];
    }
    let ghost ids = route(base, start as int);
    proof {
        assert(end.trail(at as int) =~= Seq::empty());
        assert(ids == reversed@.map_values(|i: usize| i as int).reverse());
    }
    let mut path: Vec<Cell> = Vec::new();
    let mut i = reversed.len();
    while i > 0
        invariant
            i <= reversed.len(),
            path.len() == reversed.len() - i,
            prevs.len() == grid.data.len(),
            forall|j: int| 0 <= j < reversed.len() ==> (#[trigger] reversed[j]) < prevs.len(),
            forall|j: int|
                0 <= j < path.len() ==> #[trigger] path[j] == grid.data[reversed[reversed.len() - 1
                    - j] as int],
        decreases i,
    {
        i -= 1;
        path.push(grid.data[reversed[i]]);
    }
    proof {
        assert(path@ =~= ids.map_values(|i: int| grid.data[i]));
        Search::lemma_run_inv(base, start as int);
        end.lemma_trail_is_walk(base, start as int, goal as int);
        assert forall|k: int| 0 <= k < path.len() implies (#[trigger] path[k]).id == ids[k] by {
            assert(0 <= ids[k] < base.cells.len());
            assert(end.grid.cells[ids[k]].id == ids[k]);
        }
        assert forall|other: Seq<int>|
            goal != start && #[trigger] base.is_walk_to(
                start as int,
                goal as int,
                other,
            ) implies path.len() > 0 && base.walk_length(start as int, ids).le(
            base.walk_length(start as int, other),
        ) by {
            lemma_route_is_shortest(base, start as int, goal as int, other);
        }
    }
    path
}

} // verus!
