//! A Sudoku solver and generator built on constraint propagation and
//! backtracking search.
use vstd::prelude::*;

pub mod topology;
pub mod model;
pub mod state;
pub mod random;
pub mod solver;
pub mod laws;

pub use topology::{Config, SquareId};
pub use state::{State, SquareValue, StartValue, StartState, GenerateError, distinct_digits};
pub use solver::{Solver, Generator, StartStateHandler, StringStartStateHandler, MAX_ATTEMPTS};

verus! {

} // verus!
