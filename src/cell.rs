use vstd::prelude::*;

use crate::candidates::Candidates;
use crate::types::{block_index, block_of, cells_see, col_index, col_of, row_index, row_of, sees};

verus! {

/// The state of a single cell: a placed digit or the digits still possible.
#[derive(Debug, Clone, Copy, PartialEq, Eq, Structural)]
pub enum CellState {
    /// A placed digit
    Number(u8),
    /// The candidates of an unsolved cell
    Candidates(Candidates),
}

impl CellState {
    /// True when the state is an unsolved cell holding candidate `d`.
    pub open spec fn has(self, d: int) -> bool {
        match self {
            CellState::Candidates(c) => c.has(d),
            CellState::Number(_) => false,
        }
    }

    /// The placed digit, or 0 for an unsolved cell.
    pub open spec fn value(self) -> int {
        match self {
            CellState::Candidates(_) => 0,
            CellState::Number(d) => d as int,
        }
    }

    /// The number of candidates: 0 for a placed digit.
    pub open spec fn count(self) -> nat {
        match self {
            CellState::Candidates(c) => c.len(),
            CellState::Number(_) => 0,
        }
    }

    /// The candidates in ascending order: none for a placed digit.
    pub open spec fn digits(self) -> Seq<u8> {
        match self {
            CellState::Candidates(c) => c.digits(),
            CellState::Number(_) => Seq::empty(),
        }
    }

    /// Creates an unsolved state without candidates.
    pub fn empty() -> (r: Self)
        ensures
            r is Candidates,
            forall|d: int| !#[trigger] r.has(d),
    {
        CellState::Candidates(Candidates::empty())
    }

    /// Creates the state of a placed digit.
    pub fn number(digit: u8) -> (r: Self)
        ensures
            r == CellState::Number(digit),
    {
        CellState::Number(digit)
    }

    /// Places digit `digit`.
    pub fn set_digit(&mut self, digit: u8)
        requires
            1 <= digit <= 9,
        ensures
            *final(self) == CellState::Number(digit),
    {
        *self = CellState::Number(digit);
    }

    /// Returns the digit of the cell, either 1-9 or 0 if unsolved.
    pub fn digit(&self) -> (r: u8)
        ensures
            r == self.value(),
    {
        match self {
            CellState::Candidates(_) => 0,
            CellState::Number(digit) => *digit,
        }
    }

    /// Returns true if the state is unsolved and holds candidate `candidate`.
    pub fn has_candidate(&self, candidate: u8) -> (r: bool)
        requires
            1 <= candidate <= 9,
        ensures
            r == self.has(candidate as int),
    {
        match self {
            CellState::Candidates(candidates) => candidates.get(candidate),
            CellState::Number(_) => false,
        }
    }

    /// Removes candidate `candidate` from an unsolved state; returns false, changing
    /// nothing, for a placed digit.
    pub fn unset_candidate(&mut self, candidate: u8) -> (r: bool)
        requires
            1 <= candidate <= 9,
        ensures
            r == (*old(self) is Candidates),
            r ==> *final(self) is Candidates,
            !r ==> *final(self) == *old(self),
            forall|d: int| #[trigger] final(self).has(d) == (d != candidate && old(self).has(d)),
    {
        match self {
            CellState::Candidates(candidates) => {
                candidates.unset(candidate);
                true
            },
            CellState::Number(_) => false,
        }
    }

    /// Makes the state unsolved with the given candidates.
    pub fn set_candidates(&mut self, candidates: Candidates)
        ensures
            *final(self) == CellState::Candidates(candidates),
    {
        *self = CellState::Candidates(candidates);
    }

    /// Returns the candidates: none for a placed digit.
    pub fn candidates(&self) -> (r: Candidates)
        ensures
            forall|d: int| #[trigger] r.has(d) == self.has(d),
            r.len() == self.count(),
            r.digits() == self.digits(),
            self matches CellState::Candidates(c) ==> r == c,
    {
        match self {
            CellState::Candidates(candidates) => *candidates,
            _ => {
                let e = Candidates::empty();
                proof {
                    crate::candidates::lemma_count_bound(e, 9);
                    lemma_no_digits(e, 9);
                }
                e
            },
        }
    }

    /// Returns the candidates in ascending order: none for a placed digit.
    pub fn candidates_vec(&self) -> (r: Vec<u8>)
        ensures
            r@ == self.digits(),
    {
        match self {
            CellState::Candidates(candidates) => candidates.iter(),
            _ => Vec::new(),
        }
    }

    /// Returns true if the state is a placed digit.
    pub fn is_digit(&self) -> (r: bool)
        ensures
            r == (self is Number),
    {
        match self {
            CellState::Number(_) => true,
            CellState::Candidates(_) => false,
        }
    }

    /// Returns true if the state is unsolved.
    pub fn is_empty(&self) -> (r: bool)
        ensures
            r == (self is Candidates),
    {
        match self {
            CellState::Number(_) => false,
            CellState::Candidates(_) => true,
        }
    }

    /// Makes the state unsolved without candidates.
    pub fn unset(&mut self)
        ensures
            *final(self) is Candidates,
            forall|d: int| !#[trigger] final(self).has(d),
    {
        *self = CellState::Candidates(Candidates::empty())
    }
}

/// A set without digits lists none.
proof fn lemma_no_digits(c: Candidates, n: int)
    requires
        forall|d: int| !#[trigger] c.has(d),
    ensures
        c.digits_upto(n) == Seq::<u8>::empty(),
    decreases n,
{
    if n > 0 {
        lemma_no_digits(c, n - 1);
    }
}

/// A single cell of the grid: its linear index and its state.
#[derive(Debug, Clone, Copy, PartialEq, Eq, Structural)]
pub struct Cell {
    /// The linear index on the board, see `Sudoku`
    index: usize,
    /// The state of the cell
    state: CellState,
}

impl Cell {
    /// The linear index of the cell.
    pub closed spec fn idx(self) -> int {
        self.index as int
    }

    /// The state of the cell.
    pub closed spec fn st(self) -> CellState {
        self.state
    }

    /// True when the cell is unsolved and holds candidate `d`.
    pub open spec fn has(self, d: int) -> bool {
        self.st().has(d)
    }

    /// True when a digit is placed in the cell.
    pub open spec fn solved(self) -> bool {
        self.st() is Number
    }

    /// The placed digit, or 0 for an unsolved cell.
    pub open spec fn value(self) -> int {
        self.st().value()
    }

    /// The number of candidates: 0 for a placed digit.
    pub open spec fn count(self) -> nat {
        self.st().count()
    }

    /// Creates an unsolved cell without candidates.
    pub fn empty(index: usize) -> (r: Self)
        ensures
            r.idx() == index,
            !r.solved(),
            forall|d: int| !#[trigger] r.has(d),
    {
        Self { index, state: CellState::empty() }
    }

    /// Creates a cell holding digit `digit`.
    pub fn number(index: usize, digit: u8) -> (r: Self)
        ensures
            r.idx() == index,
            r.st() == CellState::Number(digit),
    {
        Self { index, state: CellState::number(digit) }
    }

    /// Creates a cell with the given state.
    pub fn with_state(index: usize, state: CellState) -> (r: Self)
        ensures
            r.idx() == index,
            r.st() == state,
    {
        Self { index, state }
    }

    /// Places digit `digit`.
    pub fn set_digit(&mut self, digit: u8)
        requires
            1 <= digit <= 9,
        ensures
            final(self).idx() == old(self).idx(),
            final(self).st() == CellState::Number(digit),
    {
        self.state.set_digit(digit);
    }

    /// Returns the digit of the cell, either 1-9 or 0 if unsolved.
    pub fn digit(&self) -> (r: u8)
        ensures
            r == self.value(),
    {
        self.state.digit()
    }

    /// Returns true if the cell is unsolved and holds candidate `candidate`.
    pub fn has_candidate(&self, candidate: u8) -> (r: bool)
        requires
            1 <= candidate <= 9,
        ensures
            r == self.has(candidate as int),
    {
        self.state.has_candidate(candidate)
    }

    /// Makes the cell unsolved with the given candidates.
    pub fn set_candidates(&mut self, candidates: Candidates)
        ensures
            final(self).idx() == old(self).idx(),
            final(self).st() == CellState::Candidates(candidates),
    {
        self.state.set_candidates(candidates);
    }

    /// Removes candidate `candidate` from an unsolved cell; returns false, changing nothing,
    /// for a placed digit.
    pub fn unset_candidate(&mut self, candidate: u8) -> (r: bool)
        requires
            1 <= candidate <= 9,
        ensures
            final(self).idx() == old(self).idx(),
            r == !old(self).solved(),
            !final(self).solved() == !old(self).solved(),
            !r ==> *final(self) == *old(self),
            forall|d: int| #[trigger] final(self).has(d) == (d != candidate && old(self).has(d)),
    {
        self.state.unset_candidate(candidate)
    }

    /// Removes each of the given candidates from an unsolved cell.
    pub fn unset_candidates(&mut self, candidates: &[u8])
        requires
            forall|j: int| 0 <= j < candidates@.len() ==> 1 <= #[trigger] candidates@[j] <= 9,
        ensures
            final(self).idx() == old(self).idx(),
            final(self).solved() == old(self).solved(),
            old(self).solved() ==> *final(self) == *old(self),
            forall|d: int|
                #[trigger] final(self).has(d) == (old(self).has(d) && !candidates@.contains(
                    d as u8,
                )),
    {
        let ghost start = *self;
        let mut i: usize = 0;
        while i < candidates.len()
            invariant
                i <= candidates@.len(),
                forall|j: int| 0 <= j < candidates@.len() ==> 1 <= #[trigger] candidates@[j] <= 9,
                self.idx() == start.idx(),
                self.solved() == start.solved(),
                start.solved() ==> *self == start,
                forall|d: int|
                    #[trigger] self.has(d) == (start.has(d) && !candidates@.take(i as int).contains(
                        d as u8,
                    )),
            decreases candidates@.len() - i,
        {
            let c = candidates[i];
            let ghost prev = *self;
            self.unset_candidate(c);
            proof {
                assert(candidates@.take(i + 1) == candidates@.take(i as int).push(c));
                assert forall|d: int| #[trigger]
                    self.has(d) == (start.has(d) && !candidates@.take(i + 1).contains(
                        d as u8,
                    )) by {
                    assert(self.has(d) == (d != c && prev.has(d)));
                    assert(prev.has(d) == (start.has(d) && !candidates@.take(i as int).contains(
                        d as u8,
                    )));
                    let before = candidates@.take(i as int);
                    let after = candidates@.take(i + 1);
                    let x = d as u8;
                    if after.contains(x) {
                        let k = choose|k: int| 0 <= k < after.len() && after[k] == x;
                        if k < before.len() {
                            assert(before[k] == x);
                        }
                    }
                    if before.contains(x) {
                        let k = choose|k: int| 0 <= k < before.len() && before[k] == x;
                        assert(after[k] == x);
                    }
                    if x == c {
                        assert(after[i as int] == x);
                    }
                }
            }
            i += 1;
        }
        assert(candidates@.take(candidates@.len() as int) == candidates@);
    }

    /// Returns the candidates: none for a placed digit.
    pub fn candidates(&self) -> (r: Candidates)
        ensures
            forall|d: int| #[trigger] r.has(d) == self.has(d),
            r.len() == self.count(),
            r.digits() == self.st().digits(),
            self.st() matches CellState::Candidates(c) ==> r == c,
    {
        self.state.candidates()
    }

    /// Returns the candidates in ascending order: none for a placed digit.
    pub fn candidates_vec(&self) -> (r: Vec<u8>)
        ensures
            r@ == self.st().digits(),
    {
        self.state.candidates_vec()
    }

    /// Returns true if a digit is placed in the cell.
    pub fn is_digit(&self) -> (r: bool)
        ensures
            r == self.solved(),
    {
        self.state.is_digit()
    }

    /// Returns true if the cell is unsolved.
    pub fn is_empty(&self) -> (r: bool)
        ensures
            r == !self.solved(),
    {
        self.state.is_empty()
    }

    /// Makes the cell unsolved without candidates.
    pub fn unset(&mut self)
        ensures
            final(self).idx() == old(self).idx(),
            !final(self).solved(),
            forall|d: int| !#[trigger] final(self).has(d),
    {
        self.state.unset();
    }

    /// Returns the state of the cell.
    pub fn state(&self) -> (r: CellState)
        ensures
            r == self.st(),
    {
        self.state
    }

    /// Returns the linear index of the cell.
    pub fn index(&self) -> (r: usize)
        ensures
            r == self.idx(),
    {
        self.index
    }

    /// Returns the row of the cell.
    pub fn row(&self) -> (r: usize)
        requires
            self.idx() < 81,
        ensures
            r == row_of(self.idx()),
    {
        row_index(self.index)
    }

    /// Returns the column of the cell.
    pub fn col(&self) -> (r: usize)
        requires
            self.idx() < 81,
        ensures
            r == col_of(self.idx()),
    {
        col_index(self.index)
    }

    /// Returns the block of the cell.
    pub fn block(&self) -> (r: usize)
        requires
            self.idx() < 81,
        ensures
            r == block_of(self.idx()),
    {
        block_index(self.index)
    }

    /// Returns true if this cell sees `other`: they differ and share a row, column or block.
    pub fn sees(&self, other: &Cell) -> (r: bool)
        requires
            self.idx() < 81,
            other.idx() < 81,
        ensures
            r == sees(self.idx(), other.idx()),
    {
        cells_see(self.index, other.index)
    }
}

} // verus!
