//! A* shortest-path search on a rectangular grid of cell markers.
//!
//! The grid is a vector of rows of [`grid::Symbol`] markers. A search starts
//! at the unique `Start` cell, ends at the unique `Finish` cell, moves in the
//! four axis-aligned directions, and marks the discovered path with `Route`
//! markers in a copy of the input grid.

pub mod grid;
pub mod heuristic;
pub mod node;
pub mod solver;
