//! Terrain maps by collapse: every cell of a grid starts with the symbols its
//! borders allow, the most constrained cell is given one of its symbols by a
//! weighted draw, and the choice spreads to the cells around it, until the
//! map is solved or the choices contradict each other.

pub mod direction;
pub mod grid;
pub mod rules;
pub mod sampler;
pub mod symbols;
pub mod tile;
pub mod wave;

pub use direction::Direction;
pub use grid::Grid;
pub use rules::{EmptyDomain, SymbolMap};
pub use tile::{CellState, Contradiction, Tile};
