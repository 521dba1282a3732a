use vstd::prelude::*;

use crate::strategy::algorithms::locked::{find_locked, is_locked, locked_elims, locked_step};
use crate::strategy::step::Step;
use crate::strategy::Strategy;
use crate::sudoku::Sudoku;

verus! {

/// Finds a digit whose candidates in a row or column lie within one block; it leaves the
/// rest of that block.
pub struct LockedCandidate {}

impl LockedCandidate {
    pub fn new() -> Self {
        Self {  }
    }
}

impl Strategy for LockedCandidate {
    fn find(&self, sudoku: &Sudoku) -> (r: Option<Step>)
        ensures
            r is None <==> forall|l: int, t: int, d: int|
                0 <= l < 18 && is_locked(sudoku@, 0, l, t, d) ==> locked_elims(sudoku@, 0, l, t, d, 9).len() == 0,
            r matches Some(st) ==> exists|l: int, t: int, d: int|
                0 <= l < 18 && #[trigger] locked_step(sudoku@, 0, l, t, d, st) && forall|l2: int, t2: int, d2: int|
                    (0 <= l2 < l || (l2 == l && d2 < d)) && is_locked(sudoku@, 0, l2, t2, d2) ==> locked_elims(sudoku@, 0, l2, t2, d2, 9).len() == 0,
    {
        let mut l: usize = 0;
        while l < 18
            invariant
                l <= 18,
                sudoku.wf(),
                forall|l2: int, t: int, d: int|
                    0 <= l2 < l && is_locked(sudoku@, 0, l2, t, d) ==> locked_elims(sudoku@, 0, l2, t, d, 9).len() == 0,
            decreases 18 - l,
        {
            if let Some(step) = find_locked(sudoku, 0, l) {
                return Some(step);
            }
            l += 1;
        }
        None
    }

    fn name(&self) -> (r: String)
        ensures
            r@ == "Locked Candidate"@,
    {
        "Locked Candidate".to_owned()
    }
}

} // verus!
