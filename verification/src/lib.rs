//! Conway's Game of Life on a sparse grid of integer coordinates.
//!
//! [`SquareGrid`] holds the alive cells and steps from one generation to
//! the next. [`rules`] states the rule that a step follows, [`order`] the
//! order in which a grid holds its cells, and [`laws`] what follows from
//! both. [`plane`] compares the grid with the unbounded plane, and
//! [`render`] turns a window of the grid into text.

pub mod grid;
pub mod laws;
pub mod order;
pub mod patterns;
pub mod plane;
pub mod render;
pub mod rules;
pub mod seqs;
pub mod store;

pub use crate::grid::SquareGrid;
pub use crate::patterns::insert_glider;
pub use crate::render::{generation_line, viewport};
