//! The cells of the grid and what can be painted on them.

use crate::distance::Distance;
use vstd::prelude::*;

verus! {

/// What a cell is. The kinds exclude one another.
#[derive(Clone, Copy, Debug, PartialEq, Eq, Structural)]
pub enum CellType {
    Default,
    Obstacle,
    Goal,
    Path,
}

/// What the user is currently painting.
#[derive(Clone, Copy, Debug, PartialEq, Eq, Structural)]
pub enum Drawing {
    Default,
    Obstacle,
    Goal,
}

/// One position of the grid.
#[derive(Clone, Copy, Debug, PartialEq, Eq)]
pub struct Cell {
    /// The cell's row-major index in its grid.
    pub id: usize,
    pub cell_type: CellType,
    /// Set once a search has settled the cell.
    pub visited: bool,
    /// The shortest distance from the start that a search has found so far.
    pub distance: Distance,
    /// The number of cells in a row of the grid, from which the cell's size
    /// on screen derives.
    pub total_width: usize,
}

impl Drawing {
    /// The kind of cell that this drawing mode paints.
    pub open spec fn paints(self) -> CellType {
        match self {
            Drawing::Default => CellType::Default,
            Drawing::Obstacle => CellType::Obstacle,
            Drawing::Goal => CellType::Goal,
        }
    }
}

impl CellType {
    /// The style classes of a cell of this kind.
    pub open spec fn class_name(self) -> Seq<char> {
        match self {
            CellType::Default => "cell default"@,
            CellType::Obstacle => "cell obstacle"@,
            CellType::Goal => "cell goal"@,
            CellType::Path => "cell path"@,
        }
    }
}

impl Cell {
    /// A fresh cell: of the default kind, unvisited, at infinite distance.
    pub open spec fn fresh(id: usize, total_width: usize) -> Cell {
        Cell {
            id,
            cell_type: CellType::Default,
            visited: false,
            distance: Distance::Infinite,
            total_width,
        }
    }

    pub fn new(id: usize, total_width: usize) -> (cell: Cell)
        ensures
            cell == Cell::fresh(id, total_width),
    {
        Cell {
            id,
            cell_type: CellType::Default,
            visited: false,
            distance: Distance::Infinite,
            total_width,
        }
    }

    /// The style classes by which the cell is drawn.
    pub fn class_str(&self) -> (class: &'static str)
        ensures
            class@ == self.cell_type.class_name(),
    {
        match self.cell_type {
            CellType::Default => "cell default",
            CellType::Obstacle => "cell obstacle",
            CellType::Goal => "cell goal",
            CellType::Path => "cell path",
        }
    }

    /// The side of the cell's square on screen, in hundredths of the
    /// viewport's width, as an exact fraction: the numerator
    /// `100 - total_width` and the denominator `total_width`.
    pub fn side_length(&self) -> (fraction: (i128, usize))
        ensures
            fraction.0 == 100 - self.total_width,
            fraction.1 == self.total_width,
    {
        (100i128 - self.total_width as i128, self.total_width)
    }

    pub fn id(&self) -> (id: usize)
        ensures
            id == self.id,
    {
        self.id
    }

    /// Paints the cell: its kind becomes the one that `drawing` paints, and
    /// nothing else changes.
    pub fn manipulate(&mut self, drawing: &Drawing)
        ensures
            *final(self) == (Cell { cell_type: drawing.paints(), ..*old(self) }),
    {
        self.cell_type =
        match drawing {
            Drawing::Default => CellType::Default,
            Drawing::Obstacle => CellType::Obstacle,
            Drawing::Goal => CellType::Goal,
        };
    }
}

} // verus!
