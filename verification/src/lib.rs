//! A 9x9 Sudoku engine: constraint checking over rows, columns and boxes,
//! a backtracking solver that can distinguish zero, one, and multiple
//! completions, a random full-grid generator, and a reducer that clears
//! cells while keeping the puzzle uniquely solvable.

use vstd::prelude::*;

pub mod boundary;
pub mod checker;
pub mod generator;
pub mod grid;
pub mod laws;
pub mod reducer;
pub mod rng;
pub mod solver;

pub use boundary::{generate_board, get_possible_values, solve_value, BoardError};
pub use checker::Check;
pub use grid::Board;
pub use rng::BoardRng;
pub use solver::{Solutions, SolverOptions};

verus! {

} // verus!
