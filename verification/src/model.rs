//! The editor's state and what each message does to it: painting a cell,
//! then clearing the marks of the last search and searching anew.

use crate::cell::{Cell, CellType, Drawing};
use crate::dijkstra::dijkstra;
use crate::edit_laws::lemma_toggle_without_goal;
use crate::grid::{Grid, GridView};
use crate::search::{route, Search};
use vstd::prelude::*;

verus! {

/// The cell from which every search of the editor starts.
pub const START: usize = 0;

/// The side of the editor's square grid, in cells.
pub const SIDE: usize = 30;

/// What the user did.
#[derive(Clone, Copy, Debug, PartialEq, Eq)]
pub enum Msg {
    /// The pointer went down: strokes paint from now on.
    DrawingStart,
    /// The pointer went up.
    DrawingStop,
    /// The drawing mode was chosen.
    DrawDefault,
    DrawObstacle,
    DrawGoal,
    /// The pointer moved over the cell with this index.
    ToggleCell(usize),
    /// The cell with this index was clicked.
    ForceToggle(usize),
}

/// The state of the editor.
pub struct Model {
    pub grid: Grid,
    /// What a stroke paints.
    pub drawing: Drawing,
    /// Whether the pointer is down.
    pub is_drawing: bool,
}

/// The state of the editor as a mathematical value.
pub struct ModelView {
    pub grid: GridView,
    pub drawing: Drawing,
    pub is_drawing: bool,
}

impl View for Model {
    type V = ModelView;

    open spec fn view(&self) -> ModelView {
        ModelView { grid: self.grid@, drawing: self.drawing, is_drawing: self.is_drawing }
    }
}

impl GridView {
    /// The grid without the marks of a search: no cell visited, and every
    /// cell of the kind `Path` back to `Default`.
    pub open spec fn cleared(self) -> GridView {
        GridView {
            cells: Seq::new(
                self.cells.len(),
                |i: int|
                    Cell {
                        visited: false,
                        cell_type: if self.cells[i].cell_type == CellType::Path {
                            CellType::Default
                        } else {
                            self.cells[i].cell_type
                        },
                        ..self.cells[i]
                    },
            ),
            ..self
        }
    }

    /// The grid with the cells of `path` turned to the kind `Path`.
    pub open spec fn marked(self, path: Seq<int>) -> GridView {
        GridView {
            cells: Seq::new(
                self.cells.len(),
                |i: int|
                    if path.contains(i) {
                        Cell { cell_type: CellType::Path, ..self.cells[i] }
                    } else {
                        self.cells[i]
                    },
            ),
            ..self
        }
    }

    /// The grid after a search from `start`, with the path found marked on
    /// it; the grid as it is where it has no goal.
    pub open spec fn searched(self, start: int) -> GridView {
        if self.has_goal() {
            Search::run(self, start).grid.marked(route(self, start))
        } else {
            self
        }
    }

    /// The grid after one edit: the cell `i` painted, and the goal moved
    /// there where a goal is painted; the old marks cleared; and the path
    /// from the editor's start marked where there is a goal.
    pub open spec fn toggled(self, i: int, drawing: Drawing) -> GridView {
        self.painted(i, drawing).cleared().searched(START as int)
    }
}

impl GridView {
    /// Clearing the marks leaves a grid a grid, with the goal it had.
    pub proof fn lemma_cleared_wf(self)
        requires
            self.wf(),
        ensures
            self.cleared().wf(),
            forall|i: int| self.cleared().is_goal_at(i) == self.is_goal_at(i),
    {
        let cleared = self.cleared();
        assert forall|c: int| 0 <= c < cleared.cells.len() implies (#[trigger] cleared.cells[c]).id
            == c by {
            assert(self.cells[c].id == c);
        }
        assert forall|a: int, b: int| #[trigger]
            cleared.is_goal_at(a) && #[trigger] cleared.is_goal_at(b) implies a == b by {
            assert(self.is_goal_at(a) && self.is_goal_at(b));
        }
    }

    /// Painting a cell and clearing the marks leaves a grid a grid.
    pub proof fn lemma_painted_cleared_wf(self, i: int, drawing: Drawing)
        requires
            self.wf(),
            0 <= i < self.cells.len(),
        ensures
            self.painted(i, drawing).cleared().wf(),
    {
        self.lemma_painted_wf(i, drawing);
        self.painted(i, drawing).lemma_cleared_wf();
    }

    /// Marking a path leaves a grid a grid: it adds no goal.
    pub proof fn lemma_marked_wf(self, path: Seq<int>)
        requires
            self.wf(),
        ensures
            self.marked(path).wf(),
    {
        let marked = self.marked(path);
        assert forall|i: int| 0 <= i < marked.cells.len() implies (#[trigger] marked.cells[i]).id
            == i by {
            assert(self.cells[i].id == i);
        }
        assert forall|a: int, b: int| #[trigger]
            marked.is_goal_at(a) && #[trigger] marked.is_goal_at(b) implies a == b by {
            assert(self.is_goal_at(a) && self.is_goal_at(b));
        }
    }
}

impl ModelView {
    /// The style class of the button that sends `msg`: `"toggled"` for the
    /// button of the current drawing mode, nothing for any other.
    pub open spec fn button_class(self, msg: Msg) -> Seq<char> {
        if msg == Msg::DrawDefault && self.drawing == Drawing::Default || msg == Msg::DrawObstacle
            && self.drawing == Drawing::Obstacle || msg == Msg::DrawGoal && self.drawing
            == Drawing::Goal {
            "toggled"@
        } else {
            ""@
        }
    }

    /// The state with the cell `i` edited.
    pub open spec fn toggled(self, i: int) -> ModelView {
        ModelView { grid: self.grid.toggled(i, self.drawing), ..self }
    }

    /// Whether `msg` can be applied: a cell that it edits is on the grid.
    pub open spec fn accepts(self, msg: Msg) -> bool {
        match msg {
            Msg::ToggleCell(i) => self.is_drawing ==> i < self.grid.cells.len(),
            Msg::ForceToggle(i) => i < self.grid.cells.len(),
            _ => true,
        }
    }

    /// The state after `msg`.
    pub open spec fn updated(self, msg: Msg) -> ModelView {
        match msg {
            Msg::DrawingStart => ModelView { is_drawing: true, ..self },
            Msg::DrawingStop => ModelView { is_drawing: false, ..self },
            Msg::ToggleCell(i) => if self.is_drawing {
                self.toggled(i as int)
            } else {
                self
            },
            Msg::ForceToggle(i) => self.toggled(i as int),
            Msg::DrawDefault => ModelView { drawing: Drawing::Default, ..self },
            Msg::DrawObstacle => ModelView { drawing: Drawing::Obstacle, ..self },
            Msg::DrawGoal => ModelView { drawing: Drawing::Goal, ..self },
        }
    }
}

impl Model {
    /// The editor's grid is a grid: in particular it has one goal at most.
    pub open spec fn wf(&self) -> bool {
        self.grid.wf()
    }

    /// The editor as it opens: a fresh square grid, painting obstacles, the
    /// pointer up.
    pub fn create() -> (model: Model)
        ensures
            model.wf(),
            model.grid.width == SIDE,
            model.grid.height == SIDE,
            forall|i: int|
                0 <= i < SIDE * SIDE ==> #[trigger] model.grid.data[i] == Cell::fresh(
                    i as usize,
                    SIDE,
                ),
            model.drawing == Drawing::Obstacle,
            !model.is_drawing,
    {
        let grid = Grid::new(SIDE, SIDE);
        Model { grid, drawing: Drawing::Obstacle, is_drawing: false }
    }

    /// The style class of the button that sends `msg`.
    pub fn button_class_str(&self, msg: &Msg) -> (class: &'static str)
        ensures
            class@ == self@.button_class(*msg),
    {
        let chosen = match msg {
            Msg::DrawDefault => self.drawing == Drawing::Default,
            Msg::DrawObstacle => self.drawing == Drawing::Obstacle,
            Msg::DrawGoal => self.drawing == Drawing::Goal,
            _ => false,
        };
        if chosen {
            "toggled"
        } else {
            ""
        }
    }

    /// Whether `msg` can be applied: a cell that it edits is on the grid.
    pub fn accepts(&self, msg: &Msg) -> (accepted: bool)
        ensures
            accepted == self@.accepts(*msg),
    {
        match msg {
            Msg::ToggleCell(i) => !self.is_drawing || *i < self.grid.data.len(),
            Msg::ForceToggle(i) => *i < self.grid.data.len(),
            _ => true,
        }
    }

    /// One edit: paints the cell `cell_id` in the current drawing mode,
    /// clears the marks of the last search, and, where the grid has a goal,
    /// searches from the editor's start and marks the path found, the goal
    /// included. Painting a goal moves the goal, so no edit leaves two of
    /// them. Without a goal nothing is searched, and every cell is left
    /// unvisited and of the kind `Default` or `Obstacle`.
    pub fn toggle_cell(&mut self, cell_id: usize)
        requires
            old(self).wf(),
            cell_id < old(self).grid.data.len(),
        ensures
            final(self).wf(),
            final(self)@ == old(self)@.toggled(cell_id as int),
            final(self).grid.width == old(self).grid.width,
            final(self).grid.height == old(self).grid.height,
            final(self).grid.data.len() == old(self).grid.data.len(),
            forall|a: int, b: int|
                final(self)@.grid.is_goal_at(a) && final(self)@.grid.is_goal_at(b) ==> a == b,
            !old(self)@.grid.painted(cell_id as int, old(self).drawing).has_goal() ==> forall|
                c: int,
            |
                0 <= c < final(self).grid.data.len() ==> {
                    let cell = #[trigger] final(self).grid.data[c];
                    &&& !cell.visited
                    &&& cell.cell_type == CellType::Default || cell.cell_type
                        == CellType::Obstacle
                },
    {
        let drawing = self.drawing;
        self.grid.manipulate_cell(cell_id, &drawing);
        clear(&mut self.grid);
        let ghost cleared = self.grid@;
        proof {
            old(self)@.grid.lemma_painted_cleared_wf(cell_id as int, drawing);
            if !old(self)@.grid.painted(cell_id as int, drawing).has_goal() {
                lemma_toggle_without_goal(old(self)@.grid, cell_id as int, drawing);
            }
        }
        if self.grid.get_goal().is_some() {
            let path = dijkstra(&mut self.grid, START);
            proof {
                assert(path@.map_values(|cell: Cell| cell.id as int) =~= route(
                    cleared,
                    START as int,
                ));
                self.grid@.lemma_marked_wf(route(cleared, START as int));
            }
            mark(&mut self.grid, &path);
        }
    }

    /// Applies a message, and says whether the view is to be drawn again:
    /// it always is.
    pub fn update(&mut self, msg: Msg) -> (redraw: bool)
        requires
            old(self).wf(),
            old(self)@.accepts(msg),
        ensures
            redraw,
            final(self).wf(),
            final(self)@ == old(self)@.updated(msg),
            final(self).grid.width == old(self).grid.width,
            final(self).grid.height == old(self).grid.height,
            final(self).grid.data.len() == old(self).grid.data.len(),
    {
        match msg {
            Msg::DrawingStart => {
                self.is_drawing = true;
            },
            Msg::DrawingStop => {
                self.is_drawing = false;
            },
            Msg::ToggleCell(x) => {
                if self.is_drawing {
                    self.toggle_cell(x);
                }
            },
            Msg::ForceToggle(x) => {
                self.toggle_cell(x);
            },
            Msg::DrawDefault => {
                self.drawing = Drawing::Default;
            },
            Msg::DrawObstacle => {
                self.drawing = Drawing::Obstacle;
            },
            Msg::DrawGoal => {
                self.drawing = Drawing::Goal;
            },
        }
        true
    }

    /// New properties from outside: the editor has none, so nothing changes
    /// and nothing is to be drawn again.
    pub fn change(&mut self) -> (redraw: bool)
        ensures
            !redraw,
            *final(self) == *old(self),
    {
        false
    }
}

/// Turns the cells of `path` to the kind `Path`.
fn mark(grid: &mut Grid, path: &Vec<Cell>)
    requires
        forall|j: int| 0 <= j < path.len() ==> (#[trigger] path[j]).id < old(grid).data.len(),
    ensures
        final(grid)@ == old(grid)@.marked(path@.map_values(|cell: Cell| cell.id as int)),
{
    let ghost ids = path@.map_values(|cell: Cell| cell.id as int);
    let mut k: usize = 0;
    assert(grid@.cells =~= old(grid)@.marked(ids.take(0)).cells);
    while k < path.len()
        invariant
            k <= path.len(),
            ids == path@.map_values(|cell: Cell| cell.id as int),
            forall|j: int| 0 <= j < path.len() ==> (#[trigger] path[j]).id < old(grid).data.len(),
            grid@ == old(grid)@.marked(ids.take(k as int)),
        decreases path.len() - k,
    {
        let id = path[k].id;
        let mut cell = grid.data[id];
        cell.cell_type = CellType::Path;
        grid.data.set(id, cell);
        proof {
            let before = ids.take(k as int);
            let after = ids.take(k + 1);
            assert(after == before.push(id as int));
            assert forall|i: int| after.contains(i) == (before.contains(i) || i == id) by {
                if before.contains(i) {
                    let j = choose|j: int| 0 <= j < before.len() && before[j] == i;
                    assert(after[j] == i);
                }
                if i == id {
                    assert(after[k as int] == i);
                }
            }
            assert(grid@.cells =~= old(grid)@.marked(after).cells);
        }
        k += 1;
    }
    assert(ids.take(ids.len() as int) == ids);
}

/// Clears the marks of the last search.
fn clear(grid: &mut Grid)
    ensures
        final(grid)@ == old(grid)@.cleared(),
{
    let mut i: usize = 0;
    while i < grid.data.len()
        invariant
            i <= grid.data.len(),
            grid.width == old(grid).width,
            grid.height == old(grid).height,
            grid.data.len() == old(grid).data.len(),
            forall|j: int| 0 <= j < i ==> #[trigger] grid.data[j] == old(grid)@.cleared().cells[j],
            forall|j: int| i <= j < grid.data.len() ==> #[trigger] grid.data[j] == old(grid).data[j],
        decreases grid.data.len() - i,
    {
        let mut cell = grid.data[i];
        if cell.cell_type == CellType::Path {
            cell.cell_type = CellType::Default;
        }
        cell.visited = false;
        grid.data.set(i, cell);
        i += 1;
    }
    assert(grid@.cells =~= old(grid)@.cleared().cells);
}

} // verus!
