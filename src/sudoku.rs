use vstd::prelude::*;

use crate::candidates::Candidates;
use crate::cell::{Cell, CellState};
use crate::types::{
    house, house_indices, house_upto, lemma_house_upto, line_cell, line_indices, sees,
};

verus! {

/// Errors when building a grid.
#[derive(Debug, Clone, Copy, PartialEq, Eq, Structural)]
pub enum GridError {
    /// The text holds a character that is neither a digit, a placeholder nor white space;
    /// the byte offset of the first such character
    ParseError(usize),
    /// A value above 9 among the fields
    InvalidDigit(u8),
    /// The number of fields is not 81
    WrongFieldCount(usize),
}

/// True when digit `d` is placed in no cell that sees cell `i`.
pub open spec fn free(s: Seq<Cell>, i: int, d: int) -> bool {
    1 <= d <= 9 && forall|j: int| 0 <= j < 81 && sees(i, j) ==> #[trigger] s[j].value() != d
}

/// Every unsolved cell holds exactly the digits that its house leaves free.
pub open spec fn candidates_initialized(s: Seq<Cell>) -> bool {
    forall|i: int, d: int|
        0 <= i < 81 && !s[i].solved() ==> #[trigger] s[i].has(d) == free(s, i, d)
}

/// The board well formed: 81 cells, each knowing its index, each placed digit in 1..=9.
pub open spec fn board_wf(s: Seq<Cell>) -> bool {
    &&& s.len() == 81
    &&& forall|i: int| 0 <= i < 81 ==> #[trigger] s[i].idx() == i
    &&& forall|i: int| 0 <= i < 81 && #[trigger] s[i].solved() ==> 1 <= s[i].value() <= 9
}

/// Two boards with the same placed digits in the same cells.
pub open spec fn same_digits(a: Seq<Cell>, b: Seq<Cell>) -> bool {
    forall|i: int|
        #![trigger a[i].value()]
        #![trigger b[i].value()]
        0 <= i < 81 ==> a[i].solved() == b[i].solved() && a[i].value() == b[i].value()
}

/// Board `t` is what initializing the candidates makes of board `s`: the same digits, and
/// every unsolved cell holds the digits that its house leaves free.
pub open spec fn initialized_from(s: Seq<Cell>, t: Seq<Cell>) -> bool {
    &&& board_wf(t)
    &&& same_digits(s, t)
    &&& forall|i: int| 0 <= i < 81 && #[trigger] s[i].solved() ==> t[i] == s[i]
    &&& candidates_initialized(t)
}

/// Initializing the candidates of a board a second time leaves every cell as the first time
/// made it: the same digits and the same candidate sets.
pub proof fn lemma_init_candidates_idempotent(s0: Seq<Cell>, s1: Seq<Cell>, s2: Seq<Cell>)
    requires
        board_wf(s0),
        initialized_from(s0, s1),
        initialized_from(s1, s2),
    ensures
        forall|i: int|
            0 <= i < 81 ==> #[trigger] s2[i].solved() == s1[i].solved() && s2[i].value() == s1[i].value()
                && forall|d: int| s2[i].has(d) == s1[i].has(d),
{
    assert forall|i: int| 0 <= i < 81 implies #[trigger] s2[i].solved() == s1[i].solved() && s2[i].value()
        == s1[i].value() && forall|d: int| s2[i].has(d) == s1[i].has(d) by {
        assert(s1[i].value() == s2[i].value());
        if !s1[i].solved() {
            assert forall|d: int| s2[i].has(d) == s1[i].has(d) by {
                assert(s2[i].has(d) == free(s2, i, d));
                assert(s1[i].has(d) == free(s1, i, d));
                if free(s1, i, d) {
                    assert forall|j: int| 0 <= j < 81 && sees(i, j) implies #[trigger] s2[j].value() != d by {
                        assert(s1[j].value() == s2[j].value());
                    }
                }
                if free(s2, i, d) {
                    assert forall|j: int| 0 <= j < 81 && sees(i, j) implies #[trigger] s1[j].value() != d by {
                        assert(s1[j].value() == s2[j].value());
                    }
                }
            }
        }
    }
}

/// The cells `cells` of board `s`, in that order.
pub open spec fn cells_at(s: Seq<Cell>, cells: Seq<usize>) -> Seq<Cell> {
    cells.map_values(|j: usize| s[j as int])
}

/// The main Sudoku board: 81 cells in row-major order.
///
/// ```text
///              0    1    2    3    4    5    6    7    8   Columns
///           ┏━━━━┯━━━━┯━━━━┳━━━━┯━━━━┯━━━━┳━━━━┯━━━━┯━━━━┓
///       0   ┃  0 ┃  1 ┃  2 ┃  3 ┃  4 ┃  5 ┃  6 ┃  7 ┃  8 ┃
///       1   ┃  9 ┃ 10 ┃ 11 ┃ 12 ┃ 13 ┃ 14 ┃ 15 ┃ 16 ┃ 17 ┃
///      ...
///       8   ┃ 72 ┃ 73 ┃ 74 ┃ 75 ┃ 76 ┃ 77 ┃ 78 ┃ 79 ┃ 80 ┃
///           ┗━━━━┷━━━━┷━━━━┻━━━━┷━━━━┷━━━━┻━━━━┷━━━━┷━━━━┛
///     Rows
/// ```
///
/// Blocks are numbered 0 1 2 / 3 4 5 / 6 7 8, three per band of rows.
#[derive(Debug, Clone, PartialEq, Eq)]
pub struct Sudoku {
    /// The list of all cells on the grid
    cells: Vec<Cell>,
}

impl Sudoku {
    /// The cells of the board.
    pub closed spec fn view(&self) -> Seq<Cell> {
        self.cells@
    }

    /// The board is well formed (see `board_wf`).
    pub open spec fn wf(&self) -> bool {
        board_wf(self@)
    }

    /// True when every cell holds a digit.
    pub open spec fn spec_solved(&self) -> bool {
        forall|i: int| 0 <= i < 81 ==> #[trigger] self@[i].solved()
    }

    /// Creates a grid from 81 values in row-major order: 0 for an empty cell, 1-9 for a
    /// digit. Empty cells start without candidates; see `init_candidates`.
    pub fn new(fields: Vec<u8>) -> (r: Result<Self, GridError>)
        ensures
            fields@.len() != 81 <==> r == Err::<Self, GridError>(
                GridError::WrongFieldCount(fields@.len() as usize),
            ),
            (fields@.len() == 81 && forall|i: int| 0 <= i < 81 ==> #[trigger] fields@[i] <= 9)
                <==> r is Ok,
            r matches Err(GridError::InvalidDigit(v)) ==> v > 9 && exists|i: int|
                0 <= i < fields@.len() && fields@[i] == v && forall|k: int| 0 <= k < i ==> #[trigger] fields@[k] <= 9,
            !(r matches Err(GridError::ParseError(_))),
            r matches Ok(s) ==> {
                &&& s.wf()
                &&& forall|i: int| 0 <= i < 81 ==> #[trigger] s@[i].value() == fields@[i]
                &&& forall|i: int, d: int| 0 <= i < 81 ==> !#[trigger] s@[i].has(d)
            },
    {
        if fields.len() != 81 {
            return Err(GridError::WrongFieldCount(fields.len()));
        }
        let mut cells: Vec<Cell> = Vec::new();
        let mut i: usize = 0;
        while i < 81
            invariant
                i <= 81,
                fields@.len() == 81,
                cells@.len() == i,
                forall|k: int| 0 <= k < i ==> #[trigger] fields@[k] <= 9,
                forall|k: int| 0 <= k < i ==> #[trigger] cells@[k].idx() == k,
                forall|k: int|
                    0 <= k < i ==> #[trigger] cells@[k].value() == fields@[k] && cells@[k].solved()
                        == (fields@[k] != 0),
                forall|k: int, d: int| 0 <= k < i ==> !#[trigger] cells@[k].has(d),
            decreases 81 - i,
        {
            let value = fields[i];
            if value == 0 {
                let cell = Cell::empty(i);
                cells.push(cell);
                proof {
                    assert(cells@[i as int] == cell);
                    assert(cell.value() == 0);
                }
            } else if value <= 9 {
                let cell = Cell::number(i, value);
                cells.push(cell);
                proof {
                    assert(cells@[i as int] == cell);
                }
            } else {
                proof {
                    assert(fields@[i as int] == value);
                }
                return Err(GridError::InvalidDigit(value));
            }
            i += 1;
        }
        let sudoku = Sudoku { cells };
        assert(sudoku@ == cells@);
        Ok(sudoku)
    }

    /// Creates an empty board: 81 unsolved cells without candidates.
    pub fn empty() -> (r: Self)
        ensures
            r.wf(),
            forall|i: int| 0 <= i < 81 ==> !(#[trigger] r@[i]).solved(),
    {
        let mut cells: Vec<Cell> = Vec::new();
        let mut i: usize = 0;
        while i < 81
            invariant
                i <= 81,
                cells@.len() == i,
                forall|k: int| 0 <= k < i ==> #[trigger] cells@[k].idx() == k && !cells@[k].solved(),
            decreases 81 - i,
        {
            let cell = Cell::empty(i);
            cells.push(cell);
            proof {
                assert(cells@[i as int] == cell);
            }
            i += 1;
        }
        let r = Sudoku { cells };
        assert(r@ == cells@);
        assert forall|i: int| 0 <= i < 81 implies r@[i].idx() == i && !r@[i].solved() by {
            assert(cells@[i].idx() == i);
        }
        r
    }

    /// Sets the candidates of every unsolved cell to the digits that its house leaves free.
    ///
    /// Candidates narrowed before are overwritten.
    pub fn init_candidates(&mut self)
        requires
            old(self).wf(),
        ensures
            final(self).wf(),
            same_digits(old(self)@, final(self)@),
            forall|i: int| 0 <= i < 81 && #[trigger] old(self)@[i].solved() ==> final(self)@[i] == old(self)@[i],
            candidates_initialized(final(self)@),
            initialized_from(old(self)@, final(self)@),
    {
        let ghost start = self@;
        let mut index: usize = 0;
        while index < 81
            invariant
                index <= 81,
                board_wf(start),
                board_wf(self@),
                same_digits(start, self@),
                forall|i: int| 0 <= i < 81 && #[trigger] start[i].solved() ==> self@[i] == start[i],
                forall|i: int| index <= i < 81 ==> #[trigger] self@[i] == start[i],
                forall|i: int, d: int|
                    0 <= i < index && !start[i].solved() ==> #[trigger] self@[i].has(d) == free(
                        start,
                        i,
                        d,
                    ),
            decreases 81 - index,
        {
            if self.cells[index].is_empty() {
                let neighbors = house_indices(index);
                proof {
                    lemma_house_upto(index as int, 81);
                }
                let mut candidates = Candidates::all();
                let mut t: usize = 0;
                while t < neighbors.len()
                    invariant
                        t <= neighbors@.len(),
                        index < 81,
                        neighbors@ == house(index as int),
                        forall|k: int|
                            0 <= k < neighbors@.len() ==> #[trigger] neighbors@[k] < 81 && sees(
                                index as int,
                                neighbors@[k] as int,
                            ),
                        board_wf(self@),
                        same_digits(start, self@),
                        forall|d: int|
                            #[trigger] candidates.has(d) == (1 <= d <= 9 && forall|q: int|
                                0 <= q < t ==> self@[neighbors@[q] as int].value() != d),
                    decreases neighbors@.len() - t,
                {
                    let j = neighbors[t];
                    let ghost prev = candidates;
                    if self.cells[j].is_digit() {
                        let digit = self.cells[j].digit();
                        candidates.unset(digit);
                    }
                    proof {
                        assert forall|d: int| #[trigger] candidates.has(d) == (1 <= d <= 9
                            && forall|q: int|
                            0 <= q < t + 1 ==> self@[neighbors@[q] as int].value() != d) by {
                            if candidates.has(d) {
                                assert forall|q: int|
                                    0 <= q < t + 1 implies self@[neighbors@[q] as int].value()
                                    != d by {
                                    if q < t {
                                        assert(prev.has(d));
                                    }
                                }
                            }
                        }
                    }
                    t += 1;
                }
                proof {
                    assert forall|d: int| #[trigger] candidates.has(d) == free(
                        start,
                        index as int,
                        d,
                    ) by {
                        if candidates.has(d) {
                            assert forall|j: int|
                                0 <= j < 81 && sees(index as int, j) implies #[trigger] start[j].value()
                                != d by {
                                let q = choose|q: int|
                                    0 <= q < neighbors@.len() && neighbors@[q] == j as usize;
                                assert(self@[neighbors@[q] as int].value() != d);
                            }
                        }
                        if free(start, index as int, d) {
                            assert forall|q: int| 0 <= q < neighbors@.len() implies self@[neighbors@[q] as int].value()
                                != d by {
                                let j = neighbors@[q] as int;
                                assert(start[j].value() != d);
                            }
                        }
                    }
                }
                let ghost before = self@;
                self.cells.set(index, Cell::with_state(index, CellState::Candidates(candidates)));
                proof {
                    assert forall|i: int, d: int|
                        0 <= i < index + 1 && !start[i].solved() implies #[trigger] self@[i].has(d)
                        == free(start, i, d) by {
                        if i < index {
                            assert(self@[i] == before[i]);
                        }
                    }
                }
            }
            index += 1;
        }
        proof {
            assert forall|i: int, d: int|
                0 <= i < 81 && !self@[i].solved() implies #[trigger] self@[i].has(d) == free(
                self@,
                i,
                d,
            ) by {
                assert(free(self@, i, d) == free(start, i, d)) by {
                    if free(start, i, d) {
                        assert forall|j: int| 0 <= j < 81 && sees(i, j) implies #[trigger] self@[j].value()
                            != d by {
                            assert(start[j].value() != d);
                        }
                    }
                    if free(self@, i, d) {
                        assert forall|j: int| 0 <= j < 81 && sees(i, j) implies #[trigger] start[j].value()
                            != d by {
                            assert(self@[j].value() != d);
                        }
                    }
                }
            }
        }
    }

    /// Returns the cell at `index`.
    pub fn get(&self, index: usize) -> (r: &Cell)
        requires
            self.wf(),
            index < 81,
        ensures
            *r == self@[index as int],
    {
        &self.cells[index]
    }

    /// Returns the cell at `index` for changing it.
    pub fn get_mut(&mut self, index: usize) -> (r: &mut Cell)
        requires
            old(self).wf(),
            index < 81,
        ensures
            *r == old(self)@[index as int],
            final(self)@ == old(self)@.update(index as int, *final(r)),
    {
        &mut self.cells[index]
    }

    /// Places digit `digit` at `index`.
    pub fn set_digit(&mut self, index: usize, digit: u8)
        requires
            old(self).wf(),
            index < 81,
            1 <= digit <= 9,
        ensures
            final(self).wf(),
            final(self)@[index as int].st() == CellState::Number(digit),
            forall|i: int| 0 <= i < 81 && i != index ==> #[trigger] final(self)@[i] == old(self)@[i],
    {
        let mut cell = self.cells[index];
        cell.set_digit(digit);
        self.cells.set(index, cell);
    }

    /// Removes candidate `candidate` from the cell at `index`; a placed digit is left as it is.
    pub fn unset_candidate(&mut self, index: usize, candidate: u8)
        requires
            old(self).wf(),
            index < 81,
            1 <= candidate <= 9,
        ensures
            final(self).wf(),
            same_digits(old(self)@, final(self)@),
            old(self)@[index as int].solved() ==> final(self)@ == old(self)@,
            forall|d: int|
                #[trigger] final(self)@[index as int].has(d) == (d != candidate && old(self)@[index as int].has(d)),
            forall|i: int| 0 <= i < 81 && i != index ==> #[trigger] final(self)@[i] == old(self)@[i],
    {
        let mut cell = self.cells[index];
        cell.unset_candidate(candidate);
        self.cells.set(index, cell);
        proof {
            if old(self)@[index as int].solved() {
                assert(self@ =~= old(self)@);
            }
        }
    }

    /// Returns a copy of the board.
    pub fn duplicate(&self) -> (r: Self)
        ensures
            r@ == self@,
    {
        let mut cells: Vec<Cell> = Vec::new();
        let mut i: usize = 0;
        while i < self.cells.len()
            invariant
                i <= self.cells@.len(),
                cells@ == self.cells@.take(i as int),
            decreases self.cells@.len() - i,
        {
            cells.push(self.cells[i]);
            proof {
                assert(self.cells@.take(i + 1) == self.cells@.take(i as int).push(self.cells@[i as int]));
            }
            i += 1;
        }
        proof {
            assert(self.cells@.take(self.cells@.len() as int) == self.cells@);
        }
        Sudoku { cells }
    }

    /// Makes the cell at `index` unsolved, without candidates.
    pub fn unset(&mut self, index: usize)
        requires
            old(self).wf(),
            index < 81,
        ensures
            final(self).wf(),
            !final(self)@[index as int].solved(),
            forall|d: int| !#[trigger] final(self)@[index as int].has(d),
            forall|i: int| 0 <= i < 81 && i != index ==> #[trigger] final(self)@[i] == old(self)@[i],
    {
        let mut cell = self.cells[index];
        cell.unset();
        self.cells.set(index, cell);
    }

    /// Returns true if every cell holds a digit.
    ///
    /// Whether rows, columns and blocks hold each digit once is not checked.
    pub fn is_solved(&self) -> (r: bool)
        requires
            self.wf(),
        ensures
            r == self.spec_solved(),
    {
        let mut i: usize = 0;
        while i < 81
            invariant
                i <= 81,
                self.wf(),
                forall|k: int| 0 <= k < i ==> #[trigger] self@[k].solved(),
            decreases 81 - i,
        {
            if !self.cells[i].is_digit() {
                return false;
            }
            i += 1;
        }
        true
    }

    /// Returns the cells of line `l` (see `line_cell`) in position order.
    pub fn line(&self, l: usize) -> (r: Vec<Cell>)
        requires
            self.wf(),
            l < 27,
        ensures
            r@.len() == 9,
            forall|p: int| 0 <= p < 9 ==> #[trigger] r@[p] == self@[line_cell(l as int, p)],
    {
        let indices = line_indices(l);
        let mut out: Vec<Cell> = Vec::new();
        let mut p: usize = 0;
        while p < 9
            invariant
                p <= 9,
                self.wf(),
                l < 27,
                indices@.len() == 9,
                forall|q: int| 0 <= q < 9 ==> #[trigger] indices@[q] == line_cell(l as int, q),
                out@.len() == p,
                forall|q: int| 0 <= q < p ==> #[trigger] out@[q] == self@[line_cell(l as int, q)],
            decreases 9 - p,
        {
            let j = indices[p];
            out.push(self.cells[j]);
            p += 1;
        }
        out
    }

    /// Returns the cells of lines `first..first + 9`, one vector per line.
    fn lines(&self, first: usize) -> (r: Vec<Vec<Cell>>)
        requires
            self.wf(),
            first + 9 <= 27,
        ensures
            r@.len() == 9,
            forall|k: int, p: int|
                0 <= k < 9 && 0 <= p < 9 ==> (#[trigger] r@[k]@[p]) == self@[line_cell(
                    first + k,
                    p,
                )] && r@[k]@.len() == 9,
    {
        let mut out: Vec<Vec<Cell>> = Vec::new();
        let mut k: usize = 0;
        while k < 9
            invariant
                k <= 9,
                self.wf(),
                first + 9 <= 27,
                out@.len() == k,
                forall|k2: int, p: int|
                    0 <= k2 < k && 0 <= p < 9 ==> (#[trigger] out@[k2]@[p]) == self@[line_cell(
                        first + k2,
                        p,
                    )] && out@[k2]@.len() == 9,
            decreases 9 - k,
        {
            out.push(self.line(first + k));
            k += 1;
        }
        out
    }

    /// Returns the cells of row `row` from left to right.
    pub fn get_row(&self, row: u8) -> (r: Vec<Cell>)
        requires
            self.wf(),
            row < 9,
        ensures
            r@.len() == 9,
            forall|p: int| 0 <= p < 9 ==> #[trigger] r@[p] == self@[row * 9 + p],
    {
        self.line(row as usize)
    }

    /// Returns all rows, from top to bottom.
    pub fn get_rows(&self) -> (r: Vec<Vec<Cell>>)
        requires
            self.wf(),
        ensures
            r@.len() == 9,
            forall|k: int, p: int|
                0 <= k < 9 && 0 <= p < 9 ==> (#[trigger] r@[k]@[p]) == self@[k * 9 + p]
                    && r@[k]@.len() == 9,
    {
        self.lines(0)
    }

    /// Returns the cells of column `col` from top to bottom.
    pub fn get_col(&self, col: u8) -> (r: Vec<Cell>)
        requires
            self.wf(),
            col < 9,
        ensures
            r@.len() == 9,
            forall|p: int| 0 <= p < 9 ==> #[trigger] r@[p] == self@[p * 9 + col],
    {
        self.line(9 + col as usize)
    }

    /// Returns all columns, from left to right.
    pub fn get_cols(&self) -> (r: Vec<Vec<Cell>>)
        requires
            self.wf(),
        ensures
            r@.len() == 9,
            forall|k: int, p: int|
                0 <= k < 9 && 0 <= p < 9 ==> (#[trigger] r@[k]@[p]) == self@[p * 9 + k]
                    && r@[k]@.len() == 9,
    {
        self.lines(9)
    }

    /// Returns the cells of block `index` in position order.
    pub fn get_block(&self, index: usize) -> (r: Vec<Cell>)
        requires
            self.wf(),
            index < 9,
        ensures
            r@.len() == 9,
            forall|p: int| 0 <= p < 9 ==> #[trigger] r@[p] == self@[line_cell(18 + index, p)],
    {
        self.line(18 + index)
    }

    /// Returns all blocks in block order.
    pub fn get_blocks(&self) -> (r: Vec<Vec<Cell>>)
        requires
            self.wf(),
        ensures
            r@.len() == 9,
            forall|k: int, p: int|
                0 <= k < 9 && 0 <= p < 9 ==> (#[trigger] r@[k]@[p]) == self@[line_cell(18 + k, p)]
                    && r@[k]@.len() == 9,
    {
        self.lines(18)
    }

    /// Returns the house of cell `index`: the cells that see it, in ascending order.
    pub fn get_house(&self, index: usize) -> (r: Vec<Cell>)
        requires
            self.wf(),
            index < 81,
        ensures
            r@ == cells_at(self@, house(index as int)),
    {
        let indices = house_indices(index);
        proof {
            lemma_house_upto(index as int, 81);
        }
        let mut out: Vec<Cell> = Vec::new();
        let mut t: usize = 0;
        while t < indices.len()
            invariant
                t <= indices@.len(),
                self.wf(),
                indices@ == house(index as int),
                forall|k: int| 0 <= k < indices@.len() ==> #[trigger] indices@[k] < 81,
                out@ == cells_at(self@, indices@.take(t as int)),
            decreases indices@.len() - t,
        {
            out.push(self.cells[indices[t]]);
            proof {
                assert(indices@.take(t + 1) == indices@.take(t as int).push(indices@[t as int]));
                assert(out@ =~= cells_at(self@, indices@.take(t + 1)));
            }
            t += 1;
        }
        proof {
            assert(indices@.take(indices@.len() as int) == indices@);
        }
        out
    }

    /// Returns an iterator over all cells in index order.
    pub fn iter(&self) -> (r: std::slice::Iter<'_, Cell>)
        ensures
            vstd::std_specs::slice::into_iter_elts(r) == self@,
    {
        self.cells.as_slice().iter()
    }

    /// Returns the digits of all cells in index order, 0 for an unsolved cell.
    pub fn digits(&self) -> (r: Vec<u8>)
        requires
            self.wf(),
        ensures
            r@.len() == 81,
            forall|i: int| 0 <= i < 81 ==> #[trigger] r@[i] == self@[i].value(),
    {
        let mut out: Vec<u8> = Vec::new();
        let mut i: usize = 0;
        while i < 81
            invariant
                i <= 81,
                self.wf(),
                out@.len() == i,
                forall|k: int| 0 <= k < i ==> #[trigger] out@[k] == self@[k].value(),
            decreases 81 - i,
        {
            out.push(self.cells[i].digit());
            i += 1;
        }
        out
    }
}

} // verus!
