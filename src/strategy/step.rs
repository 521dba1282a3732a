use vstd::prelude::*;

use crate::candidates::Candidates;
use crate::cell::Cell;

verus! {

/// The concatenation `f(0) + f(1) + ... + f(n - 1)`.
pub open spec fn scan<T>(n: int, f: spec_fn(int) -> Seq<T>) -> Seq<T>
    decreases n,
{
    if n <= 0 {
        Seq::empty()
    } else {
        scan(n - 1, f) + f(n - 1)
    }
}

/// Extending a scan by one term.
pub proof fn lemma_scan_next<T>(n: int, f: spec_fn(int) -> Seq<T>)
    requires
        n >= 0,
    ensures
        scan(n + 1, f) == scan(n, f) + f(n),
{
}

/// The pair `(i, d)` when `cond` holds, else nothing.
pub open spec fn pair_if(cond: bool, i: int, d: int) -> Seq<(usize, u8)> {
    if cond {
        seq![(i as usize, d as u8)]
    } else {
        Seq::empty()
    }
}

/// The cells among `cells` that hold candidate `d`, each paired with `d`, in the order of
/// `cells`.
pub open spec fn with_candidate(s: Seq<Cell>, cells: Seq<usize>, d: int) -> Seq<(usize, u8)> {
    scan(cells.len() as int, |k: int| pair_if(s[cells[k] as int].has(d), cells[k] as int, d))
}

/// The candidates below `n` of cell `i` other than `d`, each paired with `i`, in ascending
/// order.
pub open spec fn others_upto(s: Seq<Cell>, i: int, d: int, n: int) -> Seq<(usize, u8)>
    decreases n,
{
    if n <= 0 {
        Seq::empty()
    } else {
        others_upto(s, i, d, n - 1) + pair_if(n - 1 != d && s[i].has(n - 1), i, n - 1)
    }
}

/// The candidates of cell `i` other than `d`, each paired with `i`, in ascending order.
pub open spec fn others_of(s: Seq<Cell>, i: int, d: int) -> Seq<(usize, u8)> {
    others_upto(s, i, d, 10)
}

/// A single solving step: a digit to place, candidates to eliminate, and the candidates
/// that make up the pattern found.
#[derive(Debug, Clone, PartialEq)]
pub struct Step {
    /// The cell index and digit to place
    digit: Option<(usize, u8)>,
    /// The candidates to eliminate, each with its cell index
    eliminated_candidates: Vec<(usize, u8)>,
    /// The candidates of the pattern, each with its cell index
    locked_candidates: Vec<(usize, Candidates)>,
}

impl Step {
    /// The digit to place, with its cell.
    pub closed spec fn placed(&self) -> Option<(usize, u8)> {
        self.digit
    }

    /// The eliminations.
    pub closed spec fn elims(&self) -> Seq<(usize, u8)> {
        self.eliminated_candidates@
    }

    /// The candidates of the pattern.
    pub closed spec fn locks(&self) -> Seq<(usize, Candidates)> {
        self.locked_candidates@
    }

    /// Every index names a cell and every digit lies in 1..=9.
    pub open spec fn wf(&self) -> bool {
        &&& (self.placed() matches Some((i, d)) ==> i < 81 && 1 <= d <= 9)
        &&& forall|k: int|
            0 <= k < self.elims().len() ==> (#[trigger] self.elims()[k]).0 < 81 && 1
                <= self.elims()[k].1 <= 9
    }

    /// True when candidate `d` of cell `i` is eliminated.
    pub open spec fn eliminates(&self, i: int, d: int) -> bool {
        exists|k: int|
            0 <= k < self.elims().len() && (#[trigger] self.elims()[k]).0 == i
                && self.elims()[k].1 == d
    }

    /// Applying the step changes the board `s`: it places a digit in an unsolved cell, or it
    /// eliminates a candidate that a cell holds.
    pub open spec fn progresses(&self, s: Seq<Cell>) -> bool {
        ||| (self.placed() matches Some((i, _)) && !s[i as int].solved())
        ||| exists|k: int|
            0 <= k < self.elims().len() && s[(#[trigger] self.elims()[k]).0 as int].has(
                self.elims()[k].1 as int,
            )
    }

    /// Every elimination names a candidate that its cell holds on board `s`.
    pub open spec fn elims_held(&self, s: Seq<Cell>) -> bool {
        forall|k: int|
            0 <= k < self.elims().len() ==> (#[trigger] self.elims()[k]).0 < 81 && s[self.elims()[
                k].0 as int].has(self.elims()[k].1 as int)
    }

    /// Creates an empty step.
    pub fn new() -> (r: Self)
        ensures
            r.placed() is None,
            r.elims().len() == 0,
            r.locks().len() == 0,
    {
        Self { digit: None, eliminated_candidates: vec![], locked_candidates: vec![] }
    }

    /// Sets the digit to place.
    pub fn set_digit(&mut self, index: usize, digit: u8)
        requires
            1 <= digit <= 9,
        ensures
            final(self).placed() == Some((index, digit)),
            final(self).elims() == old(self).elims(),
            final(self).locks() == old(self).locks(),
            old(self).wf() && index < 81 ==> final(self).wf(),
    {
        self.digit = Some((index, digit));
    }

    /// Marks candidate `candidate` of cell `index` for elimination.
    pub fn eliminate_candidate(&mut self, index: usize, candidate: u8)
        ensures
            final(self).placed() == old(self).placed(),
            final(self).elims() == old(self).elims().push((index, candidate)),
            final(self).locks() == old(self).locks(),
            old(self).wf() && index < 81 && 1 <= candidate <= 9 ==> final(self).wf(),
    {
        self.eliminated_candidates.push((index, candidate));
    }

    /// Records candidates of cell `index` as part of the pattern.
    pub fn lock_candidate(&mut self, index: usize, candidates: Candidates)
        ensures
            final(self).placed() == old(self).placed(),
            final(self).elims() == old(self).elims(),
            final(self).locks() == old(self).locks().push((index, candidates)),
            old(self).wf() ==> final(self).wf(),
    {
        self.locked_candidates.push((index, candidates));
    }

    /// Returns the list of eliminated candidates.
    pub fn eliminated_candidates(&self) -> (r: &Vec<(usize, u8)>)
        ensures
            r@ == self.elims(),
    {
        &self.eliminated_candidates
    }

    /// Returns the candidates of the pattern.
    pub fn locked_candidates(&self) -> (r: &Vec<(usize, Candidates)>)
        ensures
            r@ == self.locks(),
    {
        &self.locked_candidates
    }

    /// Returns true if this step places a digit.
    pub fn has_digit(&self) -> (r: bool)
        ensures
            r == self.placed() is Some,
    {
        self.digit.is_some()
    }

    /// Returns the digit to place, with its cell.
    pub fn digit(&self) -> (r: Option<&(usize, u8)>)
        ensures
            r matches Some(p) ==> self.placed() == Some(*p),
            r is None ==> self.placed() is None,
    {
        self.digit.as_ref()
    }

    /// Marks candidate `d` for elimination in each of `cells` that holds it, in order.
    pub fn eliminate_in(&mut self, s: &crate::sudoku::Sudoku, cells: &Vec<usize>, d: u8)
        requires
            s.wf(),
            1 <= d <= 9,
            forall|k: int| 0 <= k < cells@.len() ==> #[trigger] cells@[k] < 81,
        ensures
            final(self).placed() == old(self).placed(),
            final(self).elims() == old(self).elims() + with_candidate(s@, cells@, d as int),
            final(self).locks() == old(self).locks(),
            old(self).wf() ==> final(self).wf(),
    {
        let ghost start = self.elims();
        let ghost f = |k: int| pair_if(s@[cells@[k] as int].has(d as int), cells@[k] as int, d as int);
        let mut t: usize = 0;
        while t < cells.len()
            invariant
                t <= cells@.len(),
                s.wf(),
                1 <= d <= 9,
                forall|k: int| 0 <= k < cells@.len() ==> #[trigger] cells@[k] < 81,
                f == (|k: int| pair_if(s@[cells@[k] as int].has(d as int), cells@[k] as int, d as int)),
                self.placed() == old(self).placed(),
                self.locks() == old(self).locks(),
                self.elims() == start + scan(t as int, f),
                old(self).wf() ==> self.wf(),
            decreases cells@.len() - t,
        {
            let j = cells[t];
            if s.get(j).has_candidate(d) {
                self.eliminate_candidate(j, d);
            }
            proof {
                lemma_scan_next(t as int, f);
                assert(self.elims() =~= start + scan(t + 1, f));
            }
            t += 1;
        }
    }

    /// Marks every candidate of cell `index` other than `d` for elimination, in ascending
    /// order.
    pub fn eliminate_others(&mut self, s: &crate::sudoku::Sudoku, index: usize, d: u8)
        requires
            s.wf(),
            index < 81,
        ensures
            final(self).placed() == old(self).placed(),
            final(self).elims() == old(self).elims() + others_of(s@, index as int, d as int),
            final(self).locks() == old(self).locks(),
            old(self).wf() ==> final(self).wf(),
    {
        let ghost start = self.elims();
        proof {
            assert(others_upto(s@, index as int, d as int, 0) =~= Seq::<(usize, u8)>::empty());
            assert(!s@[index as int].has(0));
            assert(others_upto(s@, index as int, d as int, 1) =~= Seq::<(usize, u8)>::empty());
            assert(start + others_upto(s@, index as int, d as int, 1) =~= start);
        }
        let mut x: u8 = 1;
        while x <= 9
            invariant
                1 <= x <= 10,
                s.wf(),
                index < 81,
                self.placed() == old(self).placed(),
                self.locks() == old(self).locks(),
                self.elims() == start + others_upto(s@, index as int, d as int, x as int),
                old(self).wf() ==> self.wf(),
            decreases 10 - x,
        {
            if x != d && s.get(index).has_candidate(x) {
                self.eliminate_candidate(index, x);
            }
            proof {
                assert(self.elims() =~= start + others_upto(s@, index as int, d as int, x + 1));
            }
            x += 1;
        }
    }
}

} // verus!
