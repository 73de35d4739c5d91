//! Small verified puzzle solvers.
//!
//! The heart of the crate is the sliding-tile (15-puzzle) solver: an
//! [`board::Arrangement`] places the fifteen numbered tiles and the blank on a
//! 4x4 grid, [`parity::is_solvable`] decides whether the solved arrangement is
//! reachable, and [`search::solve`] runs a heuristic-guided best-first search
//! whose result is proved to be a legal move sequence that reaches the solved
//! arrangement.  Beside it stand three smaller verified programs: a
//! minesweeper adjacency counter, a family of integer summation functions, and
//! a chain-repairing iterator.

pub mod board;
pub mod chain;
pub mod laws;
pub mod mines;
pub mod parity;
pub mod search;
pub mod sums;
