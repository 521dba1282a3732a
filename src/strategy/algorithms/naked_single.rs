use vstd::prelude::*;

use crate::candidates::lemma_digits;
use crate::cell::Cell;
use crate::strategy::step::{with_candidate, Step};
use crate::strategy::Strategy;
use crate::sudoku::Sudoku;
use crate::types::{house, house_indices, lemma_house_upto};

verus! {

/// Cell `i` is unsolved with exactly one candidate.
pub open spec fn is_naked_single(s: Seq<Cell>, i: int) -> bool {
    !s[i].solved() && s[i].count() == 1
}

/// `step` places digit `d` in cell `i`, the first naked single of `s`, and eliminates `d`
/// from the house of `i`.
pub open spec fn naked_single_step(s: Seq<Cell>, i: int, d: int, step: Step) -> bool {
    &&& 0 <= i < 81
    &&& is_naked_single(s, i)
    &&& forall|j: int| 0 <= j < i ==> !is_naked_single(s, j)
    &&& s[i].has(d)
    &&& step.placed() == Some((i as usize, d as u8))
    &&& step.elims() == with_candidate(s, house(i), d)
    &&& step.locks().len() == 0
}

/// Finds a cell with a single candidate.
#[derive(Debug)]
pub struct NakedSingle {}

impl NakedSingle {
    pub fn new() -> Self {
        Self {  }
    }
}

impl Strategy for NakedSingle {
    fn find(&self, sudoku: &Sudoku) -> (r: Option<Step>)
        ensures
            r is None <==> forall|i: int| 0 <= i < 81 ==> !is_naked_single(sudoku@, i),
            r matches Some(st) ==> exists|i: int, d: int| naked_single_step(sudoku@, i, d, st),
    {
        let mut i: usize = 0;
        while i < 81
            invariant
                i <= 81,
                sudoku.wf(),
                forall|j: int| 0 <= j < i ==> !is_naked_single(sudoku@, j),
            decreases 81 - i,
        {
            let cell = sudoku.get(i);
            let candidates = cell.candidates();
            if cell.is_empty() && candidates.count() == 1 {
                let digits = candidates.iter();
                proof {
                    lemma_digits(candidates, 9);
                }
                let d = digits[0];
                let mut step = Step::new();
                step.set_digit(i, d);
                let cells = house_indices(i);
                proof {
                    lemma_house_upto(i as int, 81);
                }
                step.eliminate_in(sudoku, &cells, d);
                proof {
                    assert(step.elims() =~= with_candidate(sudoku@, house(i as int), d as int));
                    assert(naked_single_step(sudoku@, i as int, d as int, step));
                }
                return Some(step);
            }
            i += 1;
        }
        None
    }

    fn name(&self) -> (r: String)
        ensures
            r@ == "Naked Single"@,
    {
        "Naked Single".to_owned()
    }
}

} // verus!
