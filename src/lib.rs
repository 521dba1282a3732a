pub mod candidates;
pub mod cell;
pub mod grid;
pub mod parser;
pub mod solver;
pub mod strategy;
pub mod sudoku;
pub mod types;

pub use crate::candidates::Candidates;
pub use crate::cell::{Cell, CellState};
pub use crate::sudoku::{GridError, Sudoku};
pub use crate::solver::{Solver, SolverError};
pub use crate::grid::{Grid, Value};
pub use crate::parser::{parse_grid, parse_sudoku};
pub use crate::strategy::StrategySolver;
