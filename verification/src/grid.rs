//! The grid: a rectangle of cells stored row by row, with the conversion
//! between indices and coordinates, the neighbourhood of a cell, and the
//! queries that a search needs.

use crate::cell::{Cell, CellType, Drawing};
use vstd::prelude::*;

verus! {

/// A rectangle of `width × height` cells. The cell at column `x` of row `y`
/// is stored at index `x + width·y`.
#[derive(Debug)]
pub struct Grid {
    pub width: usize,
    pub height: usize,
    pub data: Vec<Cell>,
}

/// A grid as a mathematical value.
pub struct GridView {
    pub width: nat,
    pub height: nat,
    pub cells: Seq<Cell>,
}

impl View for Grid {
    type V = GridView;

    open spec fn view(&self) -> GridView {
        GridView { width: self.width as nat, height: self.height as nat, cells: self.data@ }
    }
}

impl GridView {
    /// The grid has cells, exactly `width·height` of them and no more than
    /// a machine can index, each cell knows its own index, and at most one
    /// cell is the goal.
    pub open spec fn wf(self) -> bool {
        &&& self.width > 0
        &&& self.height > 0
        &&& self.cells.len() == self.width * self.height
        &&& self.cells.len() <= usize::MAX
        &&& forall|i: int| 0 <= i < self.cells.len() ==> (#[trigger] self.cells[i]).id == i
        &&& forall|i: int, j: int|
            #[trigger] self.is_goal_at(i) && #[trigger] self.is_goal_at(j) ==> i == j
    }

    /// Whether column `x` of row `y` lies on the grid.
    pub open spec fn contains(self, x: int, y: int) -> bool {
        0 <= x < self.width && 0 <= y < self.height
    }

    /// The column and the row of the cell with index `id`. An index beyond
    /// the last row wraps round to the first.
    pub open spec fn coord(self, id: int) -> (int, int) {
        (id % (self.width as int), (id / (self.width as int)) % (self.height as int))
    }

    /// The index of the cell at column `x` of row `y`.
    pub open spec fn index(self, x: int, y: int) -> int {
        x + self.width * y
    }

    /// The square of the Euclidean distance between the cells with indices
    /// `a` and `b`.
    pub open spec fn dist_squared(self, a: int, b: int) -> int {
        let (ax, ay) = self.coord(a);
        let (bx, by) = self.coord(b);
        (ax - bx) * (ax - bx) + (ay - by) * (ay - by)
    }

    /// Two different cells that touch, by a side or by a corner.
    pub open spec fn adjacent(self, a: int, b: int) -> bool {
        let (ax, ay) = self.coord(a);
        let (bx, by) = self.coord(b);
        a != b && -1 <= ax - bx <= 1 && -1 <= ay - by <= 1
    }

    /// Whether the cell with index `i` is the goal: a cell of the grid of
    /// the kind `Goal`.
    pub open spec fn is_goal_at(self, i: int) -> bool {
        0 <= i < self.cells.len() && self.cells[i].cell_type == CellType::Goal
    }

    /// Whether the grid has a goal.
    pub open spec fn has_goal(self) -> bool {
        exists|i: int| #[trigger] self.is_goal_at(i)
    }

    /// The index of the goal, if there is one.
    pub open spec fn goal(self) -> Option<int> {
        if self.has_goal() {
            Some(choose|i: int| self.is_goal_at(i))
        } else {
            None
        }
    }

    /// Whether the cell with index `i` is the nearest candidate: unvisited,
    /// with no unvisited cell at a shorter distance, and the first of those
    /// at its distance.
    pub open spec fn is_nearest_at(self, i: int) -> bool {
        &&& 0 <= i < self.cells.len()
        &&& !self.cells[i].visited
        &&& forall|j: int|
            0 <= j < self.cells.len() && !(#[trigger] self.cells[j]).visited
                ==> !self.cells[j].distance.lt(self.cells[i].distance)
        &&& forall|j: int|
            0 <= j < i && !(#[trigger] self.cells[j]).visited ==> self.cells[i].distance.lt(
                self.cells[j].distance,
            )
    }

    /// Whether some cell is still unvisited.
    pub open spec fn has_unvisited(self) -> bool {
        exists|i: int| 0 <= i < self.cells.len() && !(#[trigger] self.cells[i]).visited
    }

    /// The index of the nearest candidate.
    pub open spec fn nearest(self) -> int {
        choose|i: int| self.is_nearest_at(i)
    }

    /// The cell at place `k` of the 3×3 block around the cell with index
    /// `id`, the places counted from 0 to 8, column by column from the upper
    /// left corner. There is none at the centre nor outside the grid.
    pub open spec fn block_slot(self, id: int, k: int) -> Option<int> {
        let (x, y) = self.coord(id);
        let nx = x + k / 3 - 1;
        let ny = y + k % 3 - 1;
        if k != 4 && self.contains(nx, ny) {
            Some(self.index(nx, ny))
        } else {
            None
        }
    }

    /// Whether a search may still step on the cell with index `i`: it is
    /// neither visited nor an obstacle.
    pub open spec fn open_at(self, i: int) -> bool {
        !self.cells[i].visited && self.cells[i].cell_type != CellType::Obstacle
    }

    /// The open cells at the first `k` places of the block around `id`, in
    /// the order of the places.
    pub open spec fn neighbors_below(self, id: int, k: nat) -> Seq<int>
        decreases k,
    {
        if k == 0 {
            Seq::empty()
        } else {
            let before = self.neighbors_below(id, (k - 1) as nat);
            match self.block_slot(id, k - 1) {
                Some(c) => if self.open_at(c) {
                    before.push(c)
                } else {
                    before
                },
                None => before,
            }
        }
    }

    /// The indices of the up to 8 open cells around the cell with index
    /// `id`.
    pub open spec fn neighbors(self, id: int) -> Seq<int> {
        self.neighbors_below(id, 9)
    }

    /// The grid with the cell at index `i` replaced.
    pub open spec fn with_cell(self, i: int, cell: Cell) -> GridView {
        GridView { cells: self.cells.update(i, cell), ..self }
    }

    /// The grid with the cell `i` painted. Painting a goal moves the goal:
    /// a cell that was the goal before becomes a cell of the kind
    /// `Default`. No other cell changes.
    pub open spec fn painted(self, i: int, drawing: Drawing) -> GridView {
        GridView {
            cells: Seq::new(
                self.cells.len(),
                |c: int|
                    if c == i {
                        Cell { cell_type: drawing.paints(), ..self.cells[c] }
                    } else if drawing == Drawing::Goal && self.cells[c].cell_type
                        == CellType::Goal {
                        Cell { cell_type: CellType::Default, ..self.cells[c] }
                    } else {
                        self.cells[c]
                    },
            ),
            ..self
        }
    }

    /// Painting a cell leaves a grid a grid: it has one goal at most.
    pub proof fn lemma_painted_wf(self, i: int, drawing: Drawing)
        requires
            self.wf(),
            0 <= i < self.cells.len(),
        ensures
            self.painted(i, drawing).wf(),
    {
        let painted = self.painted(i, drawing);
        assert forall|c: int| 0 <= c < painted.cells.len() implies (#[trigger] painted.cells[c]).id
            == c by {
            assert(self.cells[c].id == c);
        }
        assert forall|a: int, b: int| #[trigger]
            painted.is_goal_at(a) && #[trigger] painted.is_goal_at(b) implies a == b by {
            if drawing != Drawing::Goal {
                assert(self.is_goal_at(a) && self.is_goal_at(b));
            }
        }
    }

    /// `goal` is the cell that `is_goal_at` describes.
    pub proof fn lemma_goal_found(self, i: int)
        requires
            self.wf(),
            self.is_goal_at(i),
        ensures
            self.goal() == Some(i),
    {
        assert(self.is_goal_at(choose|k: int| self.is_goal_at(k)));
    }

    /// Where a goal exists, `goal` gives its index.
    pub proof fn lemma_goal_exists(self)
        requires
            self.has_goal(),
        ensures
            self.goal() is Some,
            self.is_goal_at(self.goal().unwrap()),
    {
    }

    /// At most one cell is the nearest candidate.
    pub proof fn lemma_nearest_unique(self, i: int, j: int)
        requires
            self.is_nearest_at(i),
            self.is_nearest_at(j),
        ensures
            i == j,
    {
        if i < j {
            assert(!self.cells[i].visited);
        } else if j < i {
            assert(!self.cells[j].visited);
        }
    }

    /// `nearest` is the cell that `is_nearest_at` describes.
    pub proof fn lemma_nearest_found(self, i: int)
        requires
            self.is_nearest_at(i),
        ensures
            self.nearest() == i,
    {
        self.lemma_nearest_unique(i, self.nearest());
    }

    /// Decoding an index and encoding the coordinates again gives the index
    /// back, for every index of the grid.
    pub proof fn lemma_index_of_coord(self, id: int)
        requires
            0 <= id < self.width * self.height,
        ensures
            self.contains(self.coord(id).0, self.coord(id).1),
            self.index(self.coord(id).0, self.coord(id).1) == id,
    {
        let w = self.width as int;
        let h = self.height as int;
        assert(w > 0 && h > 0) by (nonlinear_arith)
            requires
                0 <= id < w * h,
                w >= 0,
                h >= 0,
        ;
        assert(0 <= id / w < h && id == w * (id / w) + id % w && 0 <= id % w < w)
            by (nonlinear_arith)
            requires
                0 <= id < w * h,
                w > 0,
                h > 0,
        ;
        assert((id / w) % h == id / w) by (nonlinear_arith)
            requires
                0 <= id / w < h,
        ;
    }

    /// Encoding coordinates of the grid and decoding the index again gives
    /// the coordinates back.
    pub proof fn lemma_coord_of_index(self, x: int, y: int)
        requires
            self.contains(x, y),
        ensures
            0 <= self.index(x, y) < self.width * self.height,
            self.coord(self.index(x, y)) == (x, y),
    {
        let w = self.width as int;
        let h = self.height as int;
        let id = x + w * y;
        assert(0 <= id < w * h) by (nonlinear_arith)
            requires
                id == x + w * y,
                0 <= x < w,
                0 <= y < h,
        ;
        assert(id / w == y && id % w == x) by (nonlinear_arith)
            requires
                id == x + w * y,
                0 <= x < w,
                0 <= y,
        ;
        assert(y % h == y) by (nonlinear_arith)
            requires
                0 <= y < h,
        ;
    }

    /// The cell at a place of the block around `id` lies on the grid and is
    /// adjacent to `id`.
    pub proof fn lemma_block_slot(self, id: int, k: int)
        requires
            self.wf(),
            0 <= id,
            0 <= k < 9,
            self.block_slot(id, k) is Some,
        ensures
            0 <= self.block_slot(id, k).unwrap() < self.cells.len(),
            self.adjacent(id, self.block_slot(id, k).unwrap()),
            self.coord(self.block_slot(id, k).unwrap()) == (
                self.coord(id).0 + k / 3 - 1,
                self.coord(id).1 + k % 3 - 1,
            ),
    {
        let (x, y) = self.coord(id);
        self.lemma_coord_of_index(x + k / 3 - 1, y + k % 3 - 1);
    }

    /// Every neighbour is a cell of the grid, adjacent and open.
    pub proof fn lemma_neighbors_sound(self, id: int, k: nat)
        requires
            self.wf(),
            0 <= id,
            k <= 9,
        ensures
            forall|j: int|
                0 <= j < self.neighbors_below(id, k).len() ==> {
                    let c = #[trigger] self.neighbors_below(id, k)[j];
                    0 <= c < self.cells.len() && self.adjacent(id, c) && self.open_at(c)
                },
        decreases k,
    {
        if k > 0 {
            let before = self.neighbors_below(id, (k - 1) as nat);
            let all = self.neighbors_below(id, k);
            self.lemma_neighbors_sound(id, (k - 1) as nat);
            if self.block_slot(id, k - 1) is Some {
                self.lemma_block_slot(id, k - 1);
            }
            assert forall|j: int| 0 <= j < all.len() implies {
                let c = #[trigger] all[j];
                0 <= c < self.cells.len() && self.adjacent(id, c) && self.open_at(c)
            } by {
                if j < before.len() {
                    assert(all[j] == before[j]);
                }
            }
        }
    }

    /// An open cell at a place of the block around `id` is listed among the
    /// neighbours.
    proof fn lemma_slot_listed(self, id: int, k: int, upto: nat)
        requires
            0 <= k < upto <= 9,
            self.block_slot(id, k) is Some,
            self.open_at(self.block_slot(id, k).unwrap()),
        ensures
            self.neighbors_below(id, upto).contains(self.block_slot(id, k).unwrap()),
        decreases upto,
    {
        let c = self.block_slot(id, k).unwrap();
        let before = self.neighbors_below(id, (upto - 1) as nat);
        let all = self.neighbors_below(id, upto);
        if k == upto - 1 {
            assert(all == before.push(c));
            assert(all[all.len() - 1] == c);
        } else {
            self.lemma_slot_listed(id, k, (upto - 1) as nat);
            let j = choose|j: int| 0 <= j < before.len() && before[j] == c;
            assert(all[j] == c);
        }
    }

    /// Every open cell next to a cell is among its neighbours.
    pub proof fn lemma_neighbors_complete(self, u: int, v: int)
        requires
            self.wf(),
            0 <= u < self.cells.len(),
            0 <= v < self.cells.len(),
            self.adjacent(u, v),
            self.open_at(v),
        ensures
            self.neighbors(u).contains(v),
    {
        let (ux, uy) = self.coord(u);
        let (vx, vy) = self.coord(v);
        self.lemma_index_of_coord(u);
        self.lemma_index_of_coord(v);
        let k = 3 * (vx - ux + 1) + (vy - uy + 1);
        assert(k / 3 == vx - ux + 1 && k % 3 == vy - uy + 1);
        assert(self.block_slot(u, k) == Some(v));
        self.lemma_slot_listed(u, k, 9);
    }

    /// A cell has no more than 8 neighbours.
    pub proof fn lemma_neighbors_count(self, id: int, k: nat)
        requires
            k <= 9,
        ensures
            self.neighbors_below(id, k).len() <= if k <= 4 {
                k
            } else {
                (k - 1) as nat
            },
        decreases k,
    {
        if k > 0 {
            self.lemma_neighbors_count(id, (k - 1) as nat);
        }
    }

    /// The coordinates of every index lie on the grid.
    pub proof fn lemma_coord_on_grid(self, id: int)
        requires
            self.width > 0,
            self.height > 0,
            0 <= id,
        ensures
            self.contains(self.coord(id).0, self.coord(id).1),
    {
        let w = self.width as int;
        let h = self.height as int;
        assert(0 <= id % w < w && 0 <= (id / w) % h < h) by (nonlinear_arith)
            requires
                w > 0,
                h > 0,
                0 <= id,
        ;
    }
}

impl Grid {
    pub open spec fn wf(&self) -> bool {
        self@.wf()
    }

    /// A grid of fresh cells.
    pub fn new(width: usize, height: usize) -> (grid: Grid)
        requires
            width > 0,
            height > 0,
            width * height <= usize::MAX,
        ensures
            grid.wf(),
            grid.width == width,
            grid.height == height,
            forall|i: int|
                0 <= i < width * height ==> #[trigger] grid.data[i] == Cell::fresh(
                    i as usize,
                    width,
                ),
    {
        let total: usize = width * height;
        let mut data: Vec<Cell> = Vec::new();
        let mut x: usize = 0;
        while x < total
            invariant
                x <= total,
                data.len() == x,
                forall|i: int| 0 <= i < x ==> #[trigger] data[i] == Cell::fresh(i as usize, width),
            decreases total - x,
        {
            data.push(Cell::new(x, width));
            x += 1;
        }
        let grid = Grid { width, height, data };
        assert forall|i: int| !#[trigger] grid@.is_goal_at(i) by {
            if 0 <= i < grid.data.len() {
                assert(grid.data[i] == Cell::fresh(i as usize, width));
            }
        }
        grid
    }

    /// Paints the cell with index `cell_id`. Painting a goal moves the
    /// goal there: a cell that was the goal before becomes a cell of the
    /// kind `Default`, so that the grid never has two goals. No other cell
    /// changes.
    pub fn manipulate_cell(&mut self, cell_id: usize, drawing: &Drawing)
        requires
            cell_id < old(self).data.len(),
        ensures
            final(self)@ == old(self)@.painted(cell_id as int, *drawing),
            old(self).wf() ==> final(self).wf(),
    {
        let ghost painted = self@.painted(cell_id as int, *drawing);
        if *drawing == Drawing::Goal {
            let mut i: usize = 0;
            while i < self.data.len()
                invariant
                    i <= self.data.len(),
                    cell_id < self.data.len(),
                    *drawing == Drawing::Goal,
                    self.width == old(self).width,
                    self.height == old(self).height,
                    self.data.len() == old(self).data.len(),
                    painted == old(self)@.painted(cell_id as int, *drawing),
                    forall|j: int|
                        0 <= j < i && j != cell_id ==> #[trigger] self.data[j] == painted.cells[j],
                    forall|j: int|
                        i <= j < self.data.len() || j == cell_id ==> #[trigger] self.data[j]
                            == old(self).data[j],
                decreases self.data.len() - i,
            {
                if i != cell_id && self.data[i].cell_type == CellType::Goal {
                    let mut cell = self.data[i];
                    cell.cell_type = CellType::Default;
                    self.data.set(i, cell);
                }
                i += 1;
            }
        }
        let mut cell = self.data[cell_id];
        cell.manipulate(drawing);
        self.data.set(cell_id, cell);
        proof {
            assert(self@.cells =~= painted.cells);
            if old(self).wf() {
                old(self)@.lemma_painted_wf(cell_id as int, *drawing);
            }
        }
    }

    /// The column and the row of the cell with index `cell_id`.
    pub fn coord_from_id(&self, cell_id: usize) -> (coord: (usize, usize))
        requires
            self.width > 0,
            self.height > 0,
        ensures
            (coord.0 as int, coord.1 as int) == self@.coord(cell_id as int),
            self@.contains(coord.0 as int, coord.1 as int),
    {
        proof {
            self@.lemma_coord_on_grid(cell_id as int);
        }
        (cell_id % self.width, (cell_id / self.width) % self.height)
    }

    /// The index of the cell at column `x` of row `y`.
    pub fn id_from_coord(&self, x: usize, y: usize) -> (id: usize)
        requires
            x + self.width * y <= usize::MAX,
        ensures
            id == self@.index(x as int, y as int),
    {
        assert(self.width * y <= usize::MAX) by (nonlinear_arith)
            requires
                x + self.width * y <= usize::MAX,
                0 <= x,
        ;
        x + self.width * y
    }

    /// The goal cell, if the grid has one.
    pub fn get_goal(&self) -> (goal: Option<&Cell>)
        requires
            self.wf(),
        ensures
            match goal {
                Some(cell) => self@.goal() == Some(cell.id as int)
                    && self@.is_goal_at(cell.id as int)
                    && *cell == self.data[cell.id as int],
                None => !self@.has_goal() && self@.goal() is None && forall|i: int|
                    0 <= i < self.data.len() ==> (#[trigger] self.data[i]).cell_type
                        != CellType::Goal,
            },
    {
        let mut i: usize = 0;
        while i < self.data.len()
            invariant
                i <= self.data.len(),
                self.wf(),
                forall|j: int| 0 <= j < i ==> (#[trigger] self.data[j]).cell_type != CellType::Goal,
            decreases self.data.len() - i,
        {
            if self.data[i].cell_type == CellType::Goal {
                proof {
                    assert(self@.is_goal_at(i as int));
                    self@.lemma_goal_found(i as int);
                }
                return Some(&self.data[i]);
            }
            i += 1;
        }
        None
    }

    /// The square of the Euclidean distance between two cells, from their
    /// coordinates: 1 between side neighbours, 2 between corner neighbours.
    pub fn dist_squared(&self, u: &Cell, v: &Cell) -> (squared: u128)
        requires
            self.wf(),
        ensures
            squared == self@.dist_squared(u.id as int, v.id as int),
    {
        let (u_x, u_y) = self.coord_from_id(u.id);
        let (v_x, v_y) = self.coord_from_id(v.id);
        let dx: u128 = if u_x < v_x {
            (v_x - u_x) as u128
        } else {
            (u_x - v_x) as u128
        };
        let dy: u128 = if u_y < v_y {
            (v_y - u_y) as u128
        } else {
            (u_y - v_y) as u128
        };
        proof {
            let w = self.width as int;
            let h = self.height as int;
            assert(w * h == self.data.len());
            assert(dx * dx + dy * dy <= (w * h) * (w * h)) by (nonlinear_arith)
                requires
                    0 <= dx < w,
                    0 <= dy < h,
            ;
            assert((w * h) * (w * h) <= 0xffff_ffff_ffff_ffff * 0xffff_ffff_ffff_ffff)
                by (nonlinear_arith)
                requires
                    0 <= w * h <= 0xffff_ffff_ffff_ffff,
            ;
            assert(dx * dx == (u_x - v_x) * (u_x - v_x)) by (nonlinear_arith)
                requires
                    dx == u_x - v_x || dx == v_x - u_x,
            ;
            assert(dy * dy == (u_y - v_y) * (u_y - v_y)) by (nonlinear_arith)
                requires
                    dy == u_y - v_y || dy == v_y - u_y,
            ;
            assert(0 <= dx * dx && 0 <= dy * dy) by (nonlinear_arith);
        }
        dx * dx + dy * dy
    }

    /// The nearest candidate of a search: the unvisited cell at the smallest
    /// distance, and the first of them in storage where several are equally
    /// near.
    pub fn smallest_distance(&self) -> (cell: &Cell)
        requires
            self.wf(),
            self@.has_unvisited(),
        ensures
            self@.is_nearest_at(cell.id as int),
            cell.id == self@.nearest(),
            *cell == self.data[cell.id as int],
    {
        let mut best: Option<usize> = None;
        let mut i: usize = 0;
        while i < self.data.len()
            invariant
                self.wf(),
                i <= self.data.len(),
                best is None ==> forall|j: int| 0 <= j < i ==> (#[trigger] self.data[j]).visited,
                best matches Some(b) ==> {
                    &&& b < i
                    &&& !self.data[b as int].visited
                    &&& forall|j: int|
                        0 <= j < i && !(#[trigger] self.data[j]).visited
                            ==> !self.data[j].distance.lt(self.data[b as int].distance)
                    &&& forall|j: int|
                        0 <= j < b && !(#[trigger] self.data[j]).visited
                            ==> self.data[b as int].distance.lt(self.data[j].distance)
                },
            decreases self.data.len() - i,
        {
            if !self.data[i].visited {
                proof {
                    self.data[i as int].distance.lemma_lt_irreflexive();
                }
                match best {
                    None => {
                        best = Some(i);
                    },
                    Some(b) => {
                        if self.data[i].distance.less_than(&self.data[b].distance) {
                            proof {
                                let here = self.data[i as int].distance;
                                let there = self.data[b as int].distance;
                                assert forall|j: int|
                                    0 <= j < i && !(#[trigger] self.data[j]).visited implies {
                                    &&& !self.data[j].distance.lt(here)
                                    &&& here.lt(self.data[j].distance)
                                } by {
                                    here.lemma_lt_asymmetric(there);
                                    here.lemma_not_longer_transitive(there, self.data[j].distance);
                                    here.lemma_lt_asymmetric(self.data[j].distance);
                                }
                            }
                            best = Some(i);
                        }
                    },
                }
            }
            i += 1;
        }
        proof {
            let some = choose|j: int| 0 <= j < self.data.len() && !(#[trigger] self@.cells[j]).visited;
            assert(!self.data[some].visited);
            let b = best.unwrap();
            assert(self@.is_nearest_at(b as int));
            self@.lemma_nearest_found(b as int);
        }
        &self.data[best.unwrap()]
    }

    /// The up to 8 cells around `cell` that a search may still step on:
    /// those on the grid that are neither visited nor obstacles, column by
    /// column from the upper left corner.
    pub fn get_neighbors(&self, cell: &Cell) -> (neighbors: Vec<Cell>)
        requires
            self.wf(),
        ensures
            neighbors@ == self@.neighbors(cell.id as int).map_values(|i: int| self.data[i]),
            neighbors.len() <= 8,
            forall|j: int|
                0 <= j < neighbors.len() ==> {
                    let c = (#[trigger] neighbors[j]).id as int;
                    &&& c < self.data.len()
                    &&& neighbors[j] == self.data[c]
                    &&& self@.adjacent(cell.id as int, c)
                    &&& self@.open_at(c)
                },
            cell.id < self.data.len() ==> forall|c: int|
                0 <= c < self.data.len() && self@.adjacent(cell.id as int, c) && #[trigger] self@.open_at(c)
                    ==> exists|j: int| 0 <= j < neighbors.len() && (#[trigger] neighbors[j]).id == c,
    {
        let mut perm: Vec<Cell> = Vec::new();
        let (x, y) = self.coord_from_id(cell.id);
        let mut k: usize = 0;
        while k < 9
            invariant
                self.wf(),
                k <= 9,
                (x as int, y as int) == self@.coord(cell.id as int),
                self@.contains(x as int, y as int),
                perm@ == self@.neighbors_below(cell.id as int, k as nat).map_values(
                    |i: int| self.data[i],
                ),
            decreases 9 - k,
        {
            let ghost before = self@.neighbors_below(cell.id as int, k as nat);
            if k != 4 {
                match (shifted(x, k / 3, self.width), shifted(y, k % 3, self.height)) {
                    (Some(x_n), Some(y_n)) => {
                        proof {
                            self@.lemma_coord_of_index(x_n as int, y_n as int);
                            assert(self@.index(x_n as int, y_n as int) < self.data.len());
                        }
                        let id_n = self.id_from_coord(x_n, y_n);
                        let cell = self.data[id_n];
                        if !(cell.visited || cell.cell_type == CellType::Obstacle) {
                            perm.push(cell);
                            assert(perm@ == before.push(id_n as int).map_values(
                                |i: int| self.data[i],
                            ));
                        }
                    },
                    _ => {},
                }
            }
            k += 1;
        }
        proof {
            let ids = self@.neighbors(cell.id as int);
            self@.lemma_neighbors_count(cell.id as int, 9);
            self@.lemma_neighbors_sound(cell.id as int, 9);
            assert forall|j: int| 0 <= j < perm.len() implies (#[trigger] perm[j]).id == ids[j] by {
                assert(0 <= ids[j] < self.data.len());
                assert(self@.cells[ids[j]].id == ids[j]);
            }
            if cell.id < self.data.len() {
                assert forall|c: int|
                    0 <= c < self.data.len() && self@.adjacent(cell.id as int, c)
                        && #[trigger] self@.open_at(c) implies exists|j: int|
                    0 <= j < perm.len() && (#[trigger] perm[j]).id == c by {
                    self@.lemma_neighbors_complete(cell.id as int, c);
                    let j = choose|j: int| 0 <= j < ids.len() && ids[j] == c;
                    assert(perm[j].id == c);
                }
            }
        }
        perm
    }

    /// The cells row by row: `height` rows of `width` cells each.
    pub fn rows(&self) -> (rows: Vec<Vec<Cell>>)
        requires
            self.wf(),
        ensures
            rows.len() == self.height,
            forall|y: int| 0 <= y < self.height ==> (#[trigger] rows[y]).len() == self.width,
            forall|x: int, y: int|
                0 <= x < self.width && 0 <= y < self.height ==> #[trigger] rows[y][x]
                    == self.data[self@.index(x, y)],
    {
        let mut rows: Vec<Vec<Cell>> = Vec::new();
        let mut y: usize = 0;
        while y < self.height
            invariant
                self.wf(),
                y <= self.height,
                rows.len() == y,
                forall|r: int| 0 <= r < y ==> (#[trigger] rows[r]).len() == self.width,
                forall|x: int, r: int|
                    0 <= x < self.width && 0 <= r < y ==> #[trigger] rows[r][x]
                        == self.data[self@.index(x, r)],
            decreases self.height - y,
        {
            let mut row: Vec<Cell> = Vec::new();
            let mut x: usize = 0;
            while x < self.width
                invariant
                    self.wf(),
                    y < self.height,
                    x <= self.width,
                    row.len() == x,
                    forall|c: int| 0 <= c < x ==> #[trigger] row[c] == self.data[self@.index(c, y as int)],
                decreases self.width - x,
            {
                proof {
                    self@.lemma_coord_of_index(x as int, y as int);
                    assert(self@.index(x as int, y as int) < self.data.len());
                }
                let id = self.id_from_coord(x, y);
                row.push(self.data[id]);
                x += 1;
            }
            rows.push(row);
            y += 1;
        }
        rows
    }
}

/// `v + k - 1`, where that lies from 0 up to `limit`, the limit excluded.
fn shifted(v: usize, k: usize, limit: usize) -> (moved: Option<usize>)
    requires
        v < limit,
        k <= 2,
    ensures
        match moved {
            Some(n) => n == v + k - 1 && n < limit,
            None => !(0 <= v + k - 1 < limit),
        },
{
    if k == 0 {
        if v == 0 {
            None
        } else {
            Some(v - 1)
        }
    } else if v + (k - 1) < limit {
        Some(v + (k - 1))
    } else {
        None
    }
}

} // verus!
