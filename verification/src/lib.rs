//! Shortest paths for a grid editor.
//!
//! A rectangular grid of cells, on which a user paints obstacles and a goal,
//! and Dijkstra's search over king moves from a start cell to the goal. After
//! every edit the editor clears the marks of the last search, searches
//! anew, and marks the path found.
//!
//! - [`cell`] and [`grid`] hold the data: the cells, the conversion between
//!   indices and coordinates, and the neighbourhood of a cell.
//! - [`distance`] holds the lengths of paths: sums of moves of length 1 and
//!   of length √2, compared exactly; [`order`] proves that the comparison is
//!   the order of those real numbers.
//! - [`search`] says what the search computes, as a state machine, and
//!   [`dijkstra`] computes it. [`state_laws`] and [`shortest`] prove what
//!   holds of its states, [`walk`] and [`route_laws`] what holds of the path
//!   found: it is a walk that avoids the obstacles, and a shortest one.
//! - [`model`] holds the editor's state and its messages; [`edit_laws`]
//!   proves what holds of an edit.

pub mod cell;
pub mod dijkstra;
pub mod distance;
pub mod edit_laws;
pub mod grid;
pub mod model;
pub mod order;
pub mod route_laws;
pub mod search;
pub mod shortest;
pub mod state_laws;
pub mod walk;
