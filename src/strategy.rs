use vstd::prelude::*;

use crate::sudoku::Sudoku;

pub mod algorithms;
pub mod grid;
pub mod step;
pub mod steps;
pub mod strategy_solver;

pub use self::strategy_solver::{StrategySolver, Technique};

use self::step::Step;

verus! {

/// A `Strategy` is a distinct way to apply logic to eliminate candidates or determine
/// the next digit.
pub trait Strategy {
    /// Finds the next step, or None when the technique does not apply.
    fn find(&self, sudoku: &Sudoku) -> (r: Option<Step>)
        requires
            sudoku.wf(),
        ensures
            r matches Some(step) ==> step.wf() && step.progresses(sudoku@),
            r matches Some(step) ==> (step.placed() matches Some((i, _)) ==> !sudoku@[i as int].solved()),
    ;

    /// Returns the name of the strategy.
    fn name(&self) -> String;
}

} // verus!
