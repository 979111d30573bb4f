//! Minimum-cost routes over a grid of digit costs, where a route must keep
//! going straight for a bounded number of cells between turns.

pub mod direction;
pub mod grid;
pub mod laws;
pub mod model;
pub mod parse;
pub mod puzzle;
mod frontier;
mod search;
mod table;

pub use direction::Direction;
pub use grid::Grid;
pub use model::{Key, State};
pub use puzzle::{first, run, second};
