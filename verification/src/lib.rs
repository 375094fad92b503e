//! A verified constraint-satisfaction engine for 9x9 sudoku.
//!
//! The crate offers a [`board::Board`] of 81 optional digits, a placement
//! validator [`board::is_valid_placement`], and a backtracking solver
//! [`solver::solve`] that either completes a board or restores it unchanged.

pub mod board;
pub mod solver;
