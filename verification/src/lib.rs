//! Wave-function-collapse tiling of a square grid.
//!
//! A grid of `n * n` cells is filled with T-shaped tiles so that the edges of
//! orthogonally adjacent tiles agree.  Every cell keeps a list of candidate
//! tiles; collapsing a cell fixes its tile and narrows its four neighbours.

pub mod candidates;
pub mod consistency;
pub mod entropy;
pub mod error;
pub mod grid;
pub mod lookahead;
pub mod progress;
pub mod random;
pub mod solver;
pub mod tile;
