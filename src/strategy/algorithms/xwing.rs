use vstd::prelude::*;

use crate::strategy::algorithms::lex_less;
use crate::strategy::algorithms::fish::{find_fish, fish_elims, fish_step, is_fish};
use crate::strategy::step::Step;
use crate::strategy::Strategy;
use crate::sudoku::Sudoku;

verus! {

/// Finds an X-Wing: two rows whose candidates for a digit lie in the same two columns, or the converse.
pub struct XWing {}

impl XWing {
    pub fn new() -> Self {
        Self {  }
    }
}

impl Strategy for XWing {
    fn find(&self, sudoku: &Sudoku) -> (r: Option<Step>)
        ensures
            r is None <==> forall|by_rows: bool, d: int, c: Seq<usize>|
                is_fish(sudoku@, by_rows, d, c, 2) ==> fish_elims(sudoku@, by_rows, d, c, 81).len() == 0,
            r matches Some(st) ==> exists|by_rows: bool, d: int, c: Seq<usize>|
                #[trigger] fish_step(sudoku@, by_rows, d, c, 2, st) && forall|r2: bool, d2: int, c2: Seq<usize>|
                    ((r2 && !by_rows) || (r2 == by_rows && (d2 < d || (d2 == d && lex_less(c2, c))))) && is_fish(sudoku@, r2, d2, c2, 2)
                        ==> fish_elims(sudoku@, r2, d2, c2, 81).len() == 0,
    {
        if let Some(step) = find_fish(2, sudoku, true) {
            return Some(step);
        }
        find_fish(2, sudoku, false)
    }

    fn name(&self) -> (r: String)
        ensures
            r@ == "XWing (Fish)"@,
    {
        "XWing (Fish)".to_owned()
    }
}

} // verus!
