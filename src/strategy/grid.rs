use vstd::prelude::*;

use crate::cell::{Cell, CellState};
use crate::sudoku::{candidates_initialized, same_digits, GridError, Sudoku};
use crate::types::{house, line_cell};

verus! {

/// A working copy of a Sudoku, with all cells and candidates, addressed by row and column.
#[derive(Debug)]
pub struct Grid {
    /// The board worked on
    sudoku: Sudoku,
}

impl Grid {
    /// The cells of the grid.
    pub closed spec fn view(&self) -> Seq<Cell> {
        self.sudoku@
    }

    /// The grid is well formed (see `Sudoku::wf`).
    pub open spec fn wf(&self) -> bool {
        crate::sudoku::board_wf(self@)
    }

    /// Creates a grid from a Sudoku.
    pub fn new(sudoku: &Sudoku) -> (r: Self)
        ensures
            r@ == sudoku@,
    {
        Grid { sudoku: sudoku.duplicate() }
    }

    /// Sets the candidates of every unsolved cell to the digits that its house leaves free.
    pub fn init_candidates(&mut self)
        requires
            old(self).wf(),
        ensures
            final(self).wf(),
            same_digits(old(self)@, final(self)@),
            candidates_initialized(final(self)@),
    {
        self.sudoku.init_candidates();
    }

    /// Returns an iterator over all cells in index order.
    pub fn cells(&self) -> (r: std::slice::Iter<'_, Cell>)
        ensures
            vstd::std_specs::slice::into_iter_elts(r) == self@,
    {
        self.sudoku.iter()
    }

    /// Returns the cell at row `row`, column `col`.
    pub fn get(&self, row: u8, col: u8) -> (r: &Cell)
        requires
            self.wf(),
            row < 9,
            col < 9,
        ensures
            *r == self@[row * 9 + col],
    {
        self.sudoku.get((col + row * 9) as usize)
    }

    /// Places digit `digit` at row `row`, column `col`.
    pub fn set(&mut self, row: u8, col: u8, digit: u8)
        requires
            old(self).wf(),
            row < 9,
            col < 9,
            1 <= digit <= 9,
        ensures
            final(self).wf(),
            final(self)@[row * 9 + col].st() == CellState::Number(digit),
            forall|i: int| 0 <= i < 81 && i != row * 9 + col ==> #[trigger] final(self)@[i] == old(self)@[i],
    {
        self.sudoku.set_digit((col + row * 9) as usize, digit);
    }

    /// Returns true if every cell holds a digit.
    pub fn is_solved(&self) -> (r: bool)
        requires
            self.wf(),
        ensures
            r == forall|i: int| 0 <= i < 81 ==> #[trigger] self@[i].solved(),
    {
        self.sudoku.is_solved()
    }

    /// Returns the cells of row `row` from left to right.
    pub fn get_row(&self, row: u8) -> (r: Vec<Cell>)
        requires
            self.wf(),
            row < 9,
        ensures
            r@.len() == 9,
            forall|p: int| 0 <= p < 9 ==> #[trigger] r@[p] == self@[row * 9 + p],
    {
        self.sudoku.get_row(row)
    }

    /// Returns the cells of column `col` from top to bottom.
    pub fn get_col(&self, col: u8) -> (r: Vec<Cell>)
        requires
            self.wf(),
            col < 9,
        ensures
            r@.len() == 9,
            forall|p: int| 0 <= p < 9 ==> #[trigger] r@[p] == self@[p * 9 + col],
    {
        self.sudoku.get_col(col)
    }

    /// Returns the cells of the block that holds row `row`, column `col`.
    pub fn get_block(&self, row: u8, col: u8) -> (r: Vec<Cell>)
        requires
            self.wf(),
            row < 9,
            col < 9,
        ensures
            r@.len() == 9,
            forall|p: int|
                0 <= p < 9 ==> #[trigger] r@[p] == self@[line_cell(18 + (row / 3) * 3 + col / 3, p)],
    {
        self.sudoku.get_block(((row / 3) * 3 + col / 3) as usize)
    }

    /// Returns the house of cell `index`: the cells that see it, in ascending order.
    pub fn get_house(&self, index: u8) -> (r: Vec<Cell>)
        requires
            self.wf(),
            index < 81,
        ensures
            r@ == crate::sudoku::cells_at(self@, house(index as int)),
    {
        self.sudoku.get_house(index as usize)
    }

    /// Returns the digits of the grid as a new Sudoku.
    pub fn sudoku(&self) -> (r: Result<Sudoku, GridError>)
        requires
            self.wf(),
        ensures
            r matches Ok(s) ==> s.wf() && forall|i: int| 0 <= i < 81 ==> #[trigger] s@[i].value() == self@[i].value(),
            r is Ok,
    {
        let digits = self.sudoku.digits();
        proof {
            assert forall|i: int| 0 <= i < 81 implies #[trigger] digits@[i] <= 9 by {
                if self@[i].solved() {
                    assert(1 <= self@[i].value() <= 9);
                }
            }
        }
        Sudoku::new(digits)
    }
}

} // verus!
