use vstd::prelude::*;

use crate::strategy::algorithms::locked::{find_locked, is_locked, locked_elims, locked_step};
use crate::strategy::step::Step;
use crate::strategy::Strategy;
use crate::sudoku::Sudoku;

verus! {

/// Finds a digit whose candidates in a block lie within one row or column; it leaves the
/// rest of that row or column.
pub struct PointingTuple {}

impl PointingTuple {
    pub fn new() -> Self {
        Self {  }
    }
}

impl Strategy for PointingTuple {
    fn find(&self, sudoku: &Sudoku) -> (r: Option<Step>)
        ensures
            r is None <==> forall|kind: int, l: int, t: int, d: int|
                (kind == 1 || kind == 2) && 18 <= l < 27 && is_locked(sudoku@, kind, l, t, d)
                    ==> locked_elims(sudoku@, kind, l, t, d, 9).len() == 0,
            r matches Some(st) ==> exists|kind: int, l: int, t: int, d: int|
                (kind == 1 || kind == 2) && 18 <= l < 27 && #[trigger] locked_step(sudoku@, kind, l, t, d, st)
                    && forall|k2: int, l2: int, t2: int, d2: int|
                    (1 <= k2 < kind || (k2 == kind && 18 <= l2 < l) || (k2 == kind && l2 == l && d2 < d)) && 18 <= l2 < 27
                        && is_locked(sudoku@, k2, l2, t2, d2) ==> locked_elims(sudoku@, k2, l2, t2, d2, 9).len() == 0,
    {
        let mut kind: usize = 1;
        while kind <= 2
            invariant
                1 <= kind <= 3,
                sudoku.wf(),
                forall|k2: int, l2: int, t: int, d: int|
                    1 <= k2 < kind && 18 <= l2 < 27 && is_locked(sudoku@, k2, l2, t, d) ==> locked_elims(sudoku@, k2, l2, t, d, 9).len() == 0,
            decreases 3 - kind,
        {
            let mut l: usize = 18;
            while l < 27
                invariant
                    18 <= l <= 27,
                    1 <= kind <= 2,
                    sudoku.wf(),
                    forall|k2: int, l2: int, t: int, d: int|
                        1 <= k2 < kind && 18 <= l2 < 27 && is_locked(sudoku@, k2, l2, t, d) ==> locked_elims(sudoku@, k2, l2, t, d, 9).len() == 0,
                    forall|l2: int, t: int, d: int|
                        18 <= l2 < l && is_locked(sudoku@, kind as int, l2, t, d) ==> locked_elims(sudoku@, kind as int, l2, t, d, 9).len() == 0,
                decreases 27 - l,
            {
                if let Some(step) = find_locked(sudoku, kind, l) {
                    return Some(step);
                }
                l += 1;
            }
            kind += 1;
        }
        None
    }

    fn name(&self) -> (r: String)
        ensures
            r@ == "Pointing Tuple"@,
    {
        "Pointing Tuple".to_owned()
    }
}

} // verus!
