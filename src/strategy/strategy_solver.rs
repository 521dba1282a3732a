use vstd::prelude::*;

use crate::candidates::lemma_count_sub;
use crate::cell::{Cell, CellState};
use crate::solver::{extends, Solver, SolverError};
use crate::strategy::algorithms::lex_less;
use crate::strategy::algorithms::fish::{fish_elims, fish_step, is_fish};
use crate::strategy::algorithms::hidden_single::{hidden_single_step, is_hidden_single, HiddenSingle};
use crate::strategy::algorithms::hidden_subset::{hidden_elims, hidden_subset_step, is_hidden_subset, HiddenSubset};
use crate::strategy::algorithms::jellyfish::Jellyfish;
use crate::strategy::algorithms::locked::{is_locked, locked_elims, locked_step};
use crate::strategy::algorithms::locked_candidate::LockedCandidate;
use crate::strategy::algorithms::naked_single::{is_naked_single, naked_single_step, NakedSingle};
use crate::strategy::algorithms::naked_subset::{is_naked_subset, naked_elims, naked_subset_step, NakedSubset};
use crate::strategy::algorithms::ywing::{is_ywing, ywing_elims, ywing_step};
use crate::strategy::algorithms::pointing_tuple::PointingTuple;
use crate::strategy::algorithms::swordfish::Swordfish;
use crate::strategy::algorithms::xwing::XWing;
use crate::strategy::algorithms::ywing::YWing;
use crate::strategy::step::Step;
use crate::strategy::Strategy;
use crate::sudoku::{board_wf, initialized_from, Sudoku};
use crate::types::{house, house_indices, lemma_house_upto, sees};

verus! {

/// One technique of the catalogue.
pub enum Technique {
    NakedSingle(NakedSingle),
    HiddenSingle(HiddenSingle),
    NakedSubset(NakedSubset),
    HiddenSubset(HiddenSubset),
    LockedCandidate(LockedCandidate),
    PointingTuple(PointingTuple),
    XWing(XWing),
    Swordfish(Swordfish),
    Jellyfish(Jellyfish),
    YWing(YWing),
}

impl Technique {
    /// The technique finds no step on board `s`: its pattern does not occur there, or
    /// eliminates nothing.
    pub open spec fn finds_nothing(&self, s: Seq<Cell>) -> bool {
        match self {
            Technique::NakedSingle(_) => forall|i: int| 0 <= i < 81 ==> !is_naked_single(s, i),
            Technique::HiddenSingle(_) => forall|l: int, d: int, p: int| !is_hidden_single(s, l, d, p),
            Technique::NakedSubset(t) => forall|l: int, c: Seq<usize>|
                is_naked_subset(s, l, c, t.size()) ==> naked_elims(s, l, c, 9).len() == 0,
            Technique::HiddenSubset(t) => forall|l: int, c: Seq<usize>|
                is_hidden_subset(s, l, c, t.size()) ==> hidden_elims(s, l, c, 9).len() == 0,
            Technique::LockedCandidate(_) => forall|l: int, t: int, d: int|
                0 <= l < 18 && is_locked(s, 0, l, t, d) ==> locked_elims(s, 0, l, t, d, 9).len() == 0,
            Technique::PointingTuple(_) => forall|kind: int, l: int, t: int, d: int|
                (kind == 1 || kind == 2) && 18 <= l < 27 && is_locked(s, kind, l, t, d)
                    ==> locked_elims(s, kind, l, t, d, 9).len() == 0,
            Technique::XWing(_) => forall|by_rows: bool, d: int, c: Seq<usize>|
                is_fish(s, by_rows, d, c, 2) ==> fish_elims(s, by_rows, d, c, 81).len() == 0,
            Technique::Swordfish(t) => forall|by_rows: bool, d: int, c: Seq<usize>|
                is_fish(s, by_rows, d, c, t.size()) ==> fish_elims(s, by_rows, d, c, 81).len() == 0,
            Technique::Jellyfish(_) => forall|by_rows: bool, d: int, c: Seq<usize>|
                is_fish(s, by_rows, d, c, 4) ==> fish_elims(s, by_rows, d, c, 81).len() == 0,
            Technique::YWing(_) => forall|p: int, a: int, b: int, z: int|
                is_ywing(s, p, a, b, z) ==> ywing_elims(s, p, a, b, z, 81).len() == 0,
        }
    }
}

impl Technique {
    /// `st` is a step that the technique may return on board `s`: what its `find` promises.
    pub open spec fn finds(&self, s: Seq<Cell>, st: Step) -> bool {
        match self {
            Technique::NakedSingle(_) => exists|i: int, d: int| naked_single_step(s, i, d, st),
            Technique::HiddenSingle(_) => exists|l: int, d: int, p: int| #[trigger] hidden_single_step(s, l, d, p, st) && forall|l2: int, d2: int, q2: int| (l2 < l || (l2 == l && d2 < d)) ==> !is_hidden_single(s, l2, d2, q2),
            Technique::NakedSubset(t) => exists|l: int, c: Seq<usize>| #[trigger] naked_subset_step(s, l, c, t.size(), st) && forall|l2: int, c2: Seq<usize>| (l2 < l || (l2 == l && lex_less(c2, c))) && is_naked_subset(s, l2, c2, t.size()) ==> naked_elims(s, l2, c2, 9).len() == 0,
            Technique::HiddenSubset(t) => exists|l: int, c: Seq<usize>| #[trigger] hidden_subset_step(s, l, c, t.size(), st) && forall|l2: int, c2: Seq<usize>| (l2 < l || (l2 == l && lex_less(c2, c))) && is_hidden_subset(s, l2, c2, t.size()) ==> hidden_elims(s, l2, c2, 9).len() == 0,
            Technique::LockedCandidate(_) => exists|l: int, t: int, d: int| 0 <= l < 18 && #[trigger] locked_step(s, 0, l, t, d, st) && forall|l2: int, t2: int, d2: int| (0 <= l2 < l || (l2 == l && d2 < d)) && is_locked(s, 0, l2, t2, d2) ==> locked_elims(s, 0, l2, t2, d2, 9).len() == 0,
            Technique::PointingTuple(_) => exists|kind: int, l: int, t: int, d: int| (kind == 1 || kind == 2) && 18 <= l < 27 && #[trigger] locked_step(s, kind, l, t, d, st) && forall|k2: int, l2: int, t2: int, d2: int| (1 <= k2 < kind || (k2 == kind && 18 <= l2 < l) || (k2 == kind && l2 == l && d2 < d)) && 18 <= l2 < 27 && is_locked(s, k2, l2, t2, d2) ==> locked_elims(s, k2, l2, t2, d2, 9).len() == 0,
            Technique::XWing(_) => exists|by_rows: bool, d: int, c: Seq<usize>| #[trigger] fish_step(s, by_rows, d, c, 2, st) && forall|r2: bool, d2: int, c2: Seq<usize>| ((r2 && !by_rows) || (r2 == by_rows && (d2 < d || (d2 == d && lex_less(c2, c))))) && is_fish(s, r2, d2, c2, 2) ==> fish_elims(s, r2, d2, c2, 81).len() == 0,
            Technique::Swordfish(t) => exists|by_rows: bool, d: int, c: Seq<usize>| #[trigger] fish_step(s, by_rows, d, c, t.size(), st) && forall|r2: bool, d2: int, c2: Seq<usize>| ((r2 && !by_rows) || (r2 == by_rows && (d2 < d || (d2 == d && lex_less(c2, c))))) && is_fish(s, r2, d2, c2, t.size()) ==> fish_elims(s, r2, d2, c2, 81).len() == 0,
            Technique::Jellyfish(_) => exists|by_rows: bool, d: int, c: Seq<usize>| #[trigger] fish_step(s, by_rows, d, c, 4, st) && forall|r2: bool, d2: int, c2: Seq<usize>| ((r2 && !by_rows) || (r2 == by_rows && (d2 < d || (d2 == d && lex_less(c2, c))))) && is_fish(s, r2, d2, c2, 4) ==> fish_elims(s, r2, d2, c2, 81).len() == 0,
            Technique::YWing(_) => exists|p: int, a: int, b: int, z: int| #[trigger] ywing_step(s, p, a, b, z, st) && forall|pv: int, a2: int, b2: int, z2: int| (pv < p || (pv == p && a2 < a) || (pv == p && a2 == a && b2 < b)) && is_ywing(s, pv, a2, b2, z2) ==> ywing_elims(s, pv, a2, b2, z2, 81).len() == 0,
        }
    }
}

/// `st` is the step of the first technique of `techs` that finds one on board `s`.
pub open spec fn first_finds(techs: Seq<Technique>, s: Seq<Cell>, st: Step) -> bool {
    exists|j: int|
        0 <= j < techs.len() && (forall|k: int| 0 <= k < j ==> (#[trigger] techs[k]).finds_nothing(s))
            && #[trigger] techs[j].finds(s, st)
}

/// The solver with catalogue `techs`, started on board `s0`, takes `steps` through the
/// boards `boards`: the first is `s0` with its candidates initialized; each step comes from
/// the first technique that finds one on a board not yet solved, and applying it gives the
/// next board.
pub open spec fn run(techs: Seq<Technique>, s0: Seq<Cell>, steps: Seq<Step>, boards: Seq<Seq<Cell>>) -> bool {
    &&& boards.len() == steps.len() + 1
    &&& initialized_from(s0, boards[0])
    &&& forall|k: int|
        0 <= k < steps.len() ==> {
            &&& board_wf(#[trigger] boards[k])
            &&& !(forall|i: int| 0 <= i < 81 ==> #[trigger] boards[k][i].solved())
            &&& first_finds(techs, boards[k], steps[k])
            &&& applied(boards[k], steps[k], boards[k + 1])
        }
}

impl Strategy for Technique {
    fn find(&self, sudoku: &Sudoku) -> (r: Option<Step>)
        ensures
            r is None <==> self.finds_nothing(sudoku@),
            r matches Some(st) ==> self.finds(sudoku@, st),
    {
        match self {
            Technique::NakedSingle(t) => t.find(sudoku),
            Technique::HiddenSingle(t) => t.find(sudoku),
            Technique::NakedSubset(t) => t.find(sudoku),
            Technique::HiddenSubset(t) => t.find(sudoku),
            Technique::LockedCandidate(t) => t.find(sudoku),
            Technique::PointingTuple(t) => t.find(sudoku),
            Technique::XWing(t) => t.find(sudoku),
            Technique::Swordfish(t) => t.find(sudoku),
            Technique::Jellyfish(t) => t.find(sudoku),
            Technique::YWing(t) => t.find(sudoku),
        }
    }

    fn name(&self) -> String {
        match self {
            Technique::NakedSingle(t) => t.name(),
            Technique::HiddenSingle(t) => t.name(),
            Technique::NakedSubset(t) => t.name(),
            Technique::HiddenSubset(t) => t.name(),
            Technique::LockedCandidate(t) => t.name(),
            Technique::PointingTuple(t) => t.name(),
            Technique::XWing(t) => t.name(),
            Technique::Swordfish(t) => t.name(),
            Technique::Jellyfish(t) => t.name(),
            Technique::YWing(t) => t.name(),
        }
    }
}

/// The cell in which `step` places a digit, or -1.
pub open spec fn placed_cell(step: Step) -> int {
    match step.placed() {
        Some((i, _)) => i as int,
        None => -1,
    }
}

/// The digit that `step` places, or 0.
pub open spec fn placed_value(step: Step) -> int {
    match step.placed() {
        Some((_, d)) => d as int,
        None => 0,
    }
}

/// `step` places a digit in cell `i`.
pub open spec fn placed_at(step: Step, i: int) -> bool {
    step.placed() is Some && placed_cell(step) == i
}

/// `step` places digit `d` in a cell that sees cell `i`.
pub open spec fn placed_near(step: Step, i: int, d: int) -> bool {
    step.placed() is Some && sees(placed_cell(step), i) && placed_value(step) == d
}

/// Cell `i` of board `t` is cell `i` of board `s` after applying `step`: a placed cell
/// holds its digit; any other cell keeps its digit, loses the eliminated candidates, and
/// loses the placed digit when it sees the placed cell.
pub open spec fn cell_applied(s: Seq<Cell>, step: Step, t: Seq<Cell>, i: int) -> bool {
    if placed_at(step, i) {
        t[i].idx() == i && t[i].st() == CellState::Number(placed_value(step) as u8)
    } else {
        &&& t[i].idx() == s[i].idx()
        &&& t[i].solved() == s[i].solved()
        &&& t[i].value() == s[i].value()
        &&& forall|d: int|
            #[trigger] t[i].has(d) == (s[i].has(d) && !step.eliminates(i, d) && !placed_near(step, i, d))
    }
}

/// Board `t` is board `s` after applying `step`.
pub open spec fn applied(s: Seq<Cell>, step: Step, t: Seq<Cell>) -> bool {
    forall|i: int| 0 <= i < 81 ==> #[trigger] cell_applied(s, step, t, i)
}

/// The weight of a cell: 0 when solved, else one more than its number of candidates.
pub open spec fn weight(c: Cell) -> nat {
    if c.solved() {
        0
    } else {
        1 + c.count()
    }
}

/// The total weight of the first `n` cells.
pub open spec fn measure(s: Seq<Cell>, n: int) -> nat
    decreases n,
{
    if n <= 0 {
        0
    } else {
        measure(s, n - 1) + weight(s[n - 1])
    }
}

/// A board whose cells weigh no more weighs no more, and weighs less when one cell does.
proof fn lemma_measure(s: Seq<Cell>, t: Seq<Cell>, n: int)
    requires
        n <= s.len(),
        n <= t.len(),
        forall|i: int| 0 <= i < n ==> #[trigger] weight(t[i]) <= weight(s[i]),
    ensures
        measure(t, n) <= measure(s, n),
        (exists|i: int| 0 <= i < n && #[trigger] weight(t[i]) < weight(s[i])) ==> measure(t, n) < measure(s, n),
    decreases n,
{
    if n > 0 {
        lemma_measure(s, t, n - 1);
    }
}

/// A cell that keeps its state kind and loses candidates only weighs no more; losing one
/// makes it weigh less.
proof fn lemma_cell_weight(a: Cell, b: Cell)
    requires
        !a.solved(),
        !b.solved(),
        forall|d: int| #[trigger] b.has(d) ==> a.has(d),
    ensures
        b.count() <= a.count(),
        weight(b) <= weight(a),
        (exists|d: int| 1 <= d <= 9 && a.has(d) && !b.has(d)) ==> weight(b) < weight(a),
{
    match (a.st(), b.st()) {
        (CellState::Candidates(ca), CellState::Candidates(cb)) => {
            assert(forall|e: int| #[trigger] cb.has(e) ==> ca.has(e)) by {
                assert forall|e: int| #[trigger] cb.has(e) implies ca.has(e) by {
                    assert(b.has(e));
                }
            }
            lemma_count_sub(ca, cb, 9);
        },
        _ => {},
    }
}

/// The strategy solver: it applies the first step that a technique of its catalogue finds,
/// in catalogue order, until the grid is solved or no technique applies.
pub struct StrategySolver {
    /// The techniques, in the order in which they are tried
    strategies: Vec<Technique>,
}

impl StrategySolver {
    /// The techniques in the order in which they are tried.
    pub closed spec fn techniques(&self) -> Seq<Technique> {
        self.strategies@
    }

    /// Creates a solver with the full catalogue: Naked Single, Hidden Single, Naked Subset
    /// (2, 3, 4), Hidden Subset (2, 3, 4), Locked Candidate, Pointing Tuple, X-Wing,
    /// Swordfish, Jellyfish and Y-Wing, in that order.
    pub fn new() -> (r: Self)
        ensures
            r.techniques().len() == 14,
            r.techniques()[0] is NakedSingle,
            r.techniques()[1] is HiddenSingle,
            r.techniques()[2] matches Technique::NakedSubset(t) && t.size() == 2,
            r.techniques()[3] matches Technique::NakedSubset(t) && t.size() == 3,
            r.techniques()[4] matches Technique::NakedSubset(t) && t.size() == 4,
            r.techniques()[5] matches Technique::HiddenSubset(t) && t.size() == 2,
            r.techniques()[6] matches Technique::HiddenSubset(t) && t.size() == 3,
            r.techniques()[7] matches Technique::HiddenSubset(t) && t.size() == 4,
            r.techniques()[8] is LockedCandidate,
            r.techniques()[9] is PointingTuple,
            r.techniques()[10] is XWing,
            r.techniques()[11] matches Technique::Swordfish(t) && t.size() == 3,
            r.techniques()[12] is Jellyfish,
            r.techniques()[13] is YWing,
    {
        let mut solver = StrategySolver { strategies: Vec::new() };
        solver.add_default_strategies();
        solver
    }

    /// Adds the full catalogue, in the order of `new`, to an empty solver.
    fn add_default_strategies(&mut self)
        requires
            old(self).techniques().len() == 0,
        ensures
            final(self).techniques().len() == 14,
            final(self).techniques()[0] is NakedSingle,
            final(self).techniques()[1] is HiddenSingle,
            final(self).techniques()[2] matches Technique::NakedSubset(t) && t.size() == 2,
            final(self).techniques()[3] matches Technique::NakedSubset(t) && t.size() == 3,
            final(self).techniques()[4] matches Technique::NakedSubset(t) && t.size() == 4,
            final(self).techniques()[5] matches Technique::HiddenSubset(t) && t.size() == 2,
            final(self).techniques()[6] matches Technique::HiddenSubset(t) && t.size() == 3,
            final(self).techniques()[7] matches Technique::HiddenSubset(t) && t.size() == 4,
            final(self).techniques()[8] is LockedCandidate,
            final(self).techniques()[9] is PointingTuple,
            final(self).techniques()[10] is XWing,
            final(self).techniques()[11] matches Technique::Swordfish(t) && t.size() == 3,
            final(self).techniques()[12] is Jellyfish,
            final(self).techniques()[13] is YWing,
    {
        self.push_strategy(Technique::NakedSingle(NakedSingle::new()));
        self.push_strategy(Technique::HiddenSingle(HiddenSingle::new()));
        self.push_strategy(Technique::NakedSubset(NakedSubset::pair()));
        self.push_strategy(Technique::NakedSubset(NakedSubset::triple()));
        self.push_strategy(Technique::NakedSubset(NakedSubset::quadruple()));
        self.push_strategy(Technique::HiddenSubset(HiddenSubset::pair()));
        self.push_strategy(Technique::HiddenSubset(HiddenSubset::triple()));
        self.push_strategy(Technique::HiddenSubset(HiddenSubset::quadruple()));
        self.push_strategy(Technique::LockedCandidate(LockedCandidate::new()));
        self.push_strategy(Technique::PointingTuple(PointingTuple::new()));
        self.push_strategy(Technique::XWing(XWing::new()));
        self.push_strategy(Technique::Swordfish(Swordfish::new()));
        self.push_strategy(Technique::Jellyfish(Jellyfish::new()));
        self.push_strategy(Technique::YWing(YWing::new()));
    }

    /// Adds a technique at the end of the catalogue.
    pub fn push_strategy(&mut self, strategy: Technique)
        ensures
            final(self).techniques() == old(self).techniques().push(strategy),
    {
        self.strategies.push(strategy);
    }

    /// Returns the step of the first technique of the catalogue that finds one.
    fn find_step(&self, sudoku: &Sudoku) -> (r: Option<Step>)
        requires
            sudoku.wf(),
        ensures
            r matches Some(step) ==> step.wf() && step.progresses(sudoku@),
            r matches Some(step) ==> (step.placed() matches Some((i, _)) ==> !sudoku@[i as int].solved()),
            r is None <==> forall|k: int| 0 <= k < self.techniques().len() ==> (#[trigger] self.techniques()[k]).finds_nothing(sudoku@),
            r matches Some(st) ==> first_finds(self.techniques(), sudoku@, st),
    {
        let mut k: usize = 0;
        while k < self.strategies.len()
            invariant
                k <= self.strategies@.len(),
                sudoku.wf(),
                forall|k2: int| 0 <= k2 < k ==> (#[trigger] self.techniques()[k2]).finds_nothing(sudoku@),
            decreases self.strategies@.len() - k,
        {
            let found = self.strategies[k].find(sudoku);
            if found.is_some() {
                proof {
                    assert(!self.techniques()[k as int].finds_nothing(sudoku@));
                    assert(self.techniques()[k as int].finds(sudoku@, found->0));
                }
                return found;
            }
            k += 1;
        }
        None
    }

    /// Applies `step`: removes each eliminated candidate, then places the digit, if any, and
    /// removes it from the candidates of the placed cell's house.
    pub fn apply(&self, step: &Step, sudoku: &mut Sudoku)
        requires
            old(sudoku).wf(),
            step.wf(),
        ensures
            final(sudoku).wf(),
            applied(old(sudoku)@, *step, final(sudoku)@),
            forall|i: int|
                0 <= i < 81 ==> #[trigger] final(sudoku)@[i].count() <= old(sudoku)@[i].count() && (
                old(sudoku)@[i].solved() ==> final(sudoku)@[i].solved()),
            step.progresses(old(sudoku)@) ==> measure(final(sudoku)@, 81) < measure(old(sudoku)@, 81),
    {
        let ghost start = sudoku@;
        let elims = step.eliminated_candidates();
        let mut k: usize = 0;
        while k < elims.len()
            invariant
                k <= elims@.len(),
                elims@ == step.elims(),
                step.wf(),
                sudoku.wf(),
                start == old(sudoku)@,
                board_wf(start),
                forall|i: int|
                    0 <= i < 81 ==> #[trigger] sudoku@[i].solved() == start[i].solved() && sudoku@[i].value()
                        == start[i].value() && sudoku@[i].idx() == start[i].idx(),
                forall|i: int, d: int|
                    0 <= i < 81 ==> #[trigger] sudoku@[i].has(d) == (start[i].has(d) && !exists|k2: int|
                        0 <= k2 < k && step.elims()[k2].0 == i && step.elims()[k2].1 == d),
            decreases elims@.len() - k,
        {
            let (i, c) = elims[k];
            proof {
                assert(step.elims()[k as int].0 < 81);
            }
            let ghost before = sudoku@;
            sudoku.unset_candidate(i, c);
            proof {
                assert forall|i2: int, d: int| 0 <= i2 < 81 implies #[trigger] sudoku@[i2].has(d) == (start[i2].has(d)
                    && !exists|k2: int| 0 <= k2 < k + 1 && step.elims()[k2].0 == i2 && step.elims()[k2].1 == d) by {
                    if i2 == i && d == c {
                        assert(step.elims()[k as int].0 == i2 && step.elims()[k as int].1 == d);
                    }
                    if exists|k2: int| 0 <= k2 < k + 1 && step.elims()[k2].0 == i2 && step.elims()[k2].1 == d {
                        let k2 = choose|k2: int| 0 <= k2 < k + 1 && step.elims()[k2].0 == i2 && step.elims()[k2].1 == d;
                        if k2 < k {
                            assert(!before[i2].has(d));
                        }
                    }
                    assert(before[i2].has(d) == (start[i2].has(d) && !exists|k2: int|
                        0 <= k2 < k && step.elims()[k2].0 == i2 && step.elims()[k2].1 == d));
                }
                assert forall|i2: int| 0 <= i2 < 81 implies #[trigger] sudoku@[i2].solved() == start[i2].solved() && sudoku@[i2].value()
                    == start[i2].value() && sudoku@[i2].idx() == start[i2].idx() by {
                    assert(before[i2].value() == start[i2].value());
                    assert(before[i2].solved() == start[i2].solved());
                }
            }
            k += 1;
        }
        let ghost mid = sudoku@;
        proof {
            assert forall|i: int, d: int| 0 <= i < 81 implies #[trigger] mid[i].has(d) == (start[i].has(d) && !step.eliminates(i, d)) by {
                assert(mid[i].has(d) == (start[i].has(d) && !exists|k2: int|
                    0 <= k2 < elims@.len() && step.elims()[k2].0 == i && step.elims()[k2].1 == d));
            }
        }
        if let Some(pair) = step.digit() {
            let p = pair.0;
            let v = pair.1;
            proof {
                assert(p == placed_cell(*step) && v == placed_value(*step));
            }
            sudoku.set_digit(p, v);
            let cells = house_indices(p);
            proof {
                lemma_house_upto(p as int, 81);
            }
            let ghost placed = sudoku@;
            proof {
                assert(board_wf(mid));
            }
            let mut t: usize = 0;
            while t < cells.len()
                invariant
                    t <= cells@.len(),
                    p < 81,
                    1 <= v <= 9,
                    cells@ == house(p as int),
                    forall|k2: int| 0 <= k2 < cells@.len() ==> #[trigger] cells@[k2] < 81 && sees(p as int, cells@[k2] as int),
                    forall|j: int| 0 <= j < 81 && sees(p as int, j) ==> house(p as int).contains(j as usize),
                    sudoku.wf(),
                    start == old(sudoku)@,
                    board_wf(start),
                    board_wf(mid),
                    board_wf(placed),
                    p == placed_cell(*step),
                    v == placed_value(*step),
                    step.placed() is Some,
                    forall|i: int, d: int| 0 <= i < 81 ==> #[trigger] mid[i].has(d) == (start[i].has(d) && !step.eliminates(i, d)),
                    forall|i: int|
                        0 <= i < 81 ==> #[trigger] mid[i].solved() == start[i].solved() && mid[i].value()
                            == start[i].value() && mid[i].idx() == start[i].idx(),
                    forall|i: int| 0 <= i < 81 && i != p ==> #[trigger] placed[i] == mid[i],
                    placed[p as int].st() == CellState::Number(v),
                    sudoku@[p as int] == placed[p as int],
                    forall|i: int|
                        0 <= i < 81 ==> #[trigger] sudoku@[i].solved() == placed[i].solved() && sudoku@[i].value()
                            == placed[i].value() && sudoku@[i].idx() == placed[i].idx(),
                    forall|i: int, d: int|
                        0 <= i < 81 ==> #[trigger] sudoku@[i].has(d) == (placed[i].has(d) && !(d == v
                            && cells@.take(t as int).contains(i as usize))),
                decreases cells@.len() - t,
            {
                let j = cells[t];
                let ghost before = sudoku@;
                sudoku.unset_candidate(j, v);
                proof {
                    assert(cells@.take(t + 1) == cells@.take(t as int).push(j));
                    assert forall|i: int, d: int| 0 <= i < 81 implies #[trigger] sudoku@[i].has(d) == (placed[i].has(d)
                        && !(d == v && cells@.take(t + 1).contains(i as usize))) by {
                        assert(before[i].has(d) == (placed[i].has(d) && !(d == v && cells@.take(t as int).contains(i as usize))));
                        if cells@.take(t + 1).contains(i as usize) {
                            let k2 = choose|k2: int| 0 <= k2 < t + 1 && #[trigger] cells@.take(t + 1)[k2] == i as usize;
                            if k2 < t {
                                assert(cells@.take(t as int)[k2] == i as usize);
                            }
                        }
                        if cells@.take(t as int).contains(i as usize) {
                            let k2 = choose|k2: int| 0 <= k2 < t && #[trigger] cells@.take(t as int)[k2] == i as usize;
                            assert(cells@.take(t + 1)[k2] == i as usize);
                        }
                        if i == j {
                            assert(cells@.take(t + 1)[t as int] == i as usize);
                        }
                    }
                    assert forall|i: int| 0 <= i < 81 implies #[trigger] sudoku@[i].solved() == placed[i].solved() && sudoku@[i].value()
                        == placed[i].value() && sudoku@[i].idx() == placed[i].idx() by {
                        assert(before[i].value() == placed[i].value());
                        assert(before[i].solved() == placed[i].solved());
                    }
                    assert(!sees(p as int, p as int));
                    assert(sudoku@[p as int] == before[p as int]);
                }
                t += 1;
            }
            proof {
                assert(cells@.take(cells@.len() as int) == cells@);
                assert forall|i: int| 0 <= i < 81 implies #[trigger] cell_applied(start, *step, sudoku@, i) by {
                    if i != p {
                        assert(placed[i] == mid[i]);
                        assert forall|d: int| #[trigger] sudoku@[i].has(d) == (start[i].has(d) && !step.eliminates(i, d)
                            && !placed_near(*step, i, d)) by {
                            assert(mid[i].has(d) == (start[i].has(d) && !step.eliminates(i, d)));
                            if sees(p as int, i) {
                                assert(cells@.contains(i as usize));
                            }
                            if cells@.contains(i as usize) {
                                let k2 = choose|k2: int| 0 <= k2 < cells@.len() && #[trigger] cells@[k2] == i as usize;
                                assert(sees(p as int, cells@[k2] as int));
                            }
                        }
                        assert(mid[i].solved() == start[i].solved());
                        assert(sudoku@[i].solved() == placed[i].solved());
                    }
                }
            }
        } else {
            proof {
                assert(step.placed() is None);
                assert forall|i: int| 0 <= i < 81 implies #[trigger] cell_applied(start, *step, sudoku@, i) by {
                    assert(sudoku@[i] == mid[i]);
                    assert(mid[i].solved() == start[i].solved());
                    assert forall|d: int| #[trigger] sudoku@[i].has(d) == (start[i].has(d) && !step.eliminates(i, d)
                        && !placed_near(*step, i, d)) by {
                        assert(mid[i].has(d) == (start[i].has(d) && !step.eliminates(i, d)));
                    }
                }
            }
        }
        proof {
            let now = sudoku@;
            assert forall|i: int| 0 <= i < 81 implies #[trigger] weight(now[i]) <= weight(start[i]) && now[i].count() <= start[i].count()
                && (start[i].solved() ==> now[i].solved()) by {
                assert(cell_applied(start, *step, now, i));
                if !now[i].solved() && !start[i].solved() {
                    lemma_cell_weight(start[i], now[i]);
                }
            }
            if step.progresses(start) {
                if step.placed() is Some && !start[placed_cell(*step)].solved() {
                    let p = placed_cell(*step);
                    assert(cell_applied(start, *step, now, p));
                    assert(weight(now[p]) < weight(start[p]));
                } else {
                    let k = choose|k: int| 0 <= k < step.elims().len() && start[(#[trigger] step.elims()[k]).0 as int].has(
                        step.elims()[k].1 as int);
                    let i = step.elims()[k].0 as int;
                    let d = step.elims()[k].1 as int;
                    assert(step.eliminates(i, d));
                    assert(cell_applied(start, *step, now, i));
                    if !placed_at(*step, i) {
                        lemma_cell_weight(start[i], now[i]);
                    }
                    assert(weight(now[i]) < weight(start[i]));
                }
            }
            lemma_measure(start, now, 81);
            assert forall|i: int| 0 <= i < 81 implies #[trigger] now[i].count() <= start[i].count() && (
                start[i].solved() ==> now[i].solved()) by {
                assert(weight(now[i]) <= weight(start[i]));
            }
        }
    }

    /// Solves the Sudoku by applying steps: initializes the candidates, then, until the grid
    /// is solved, applies the step of the first technique of the catalogue that finds one.
    /// With `check_step`, the brute force solver confirms a unique solution after every step.
    pub fn solve(&self, sudoku: &Sudoku, check_step: bool) -> (r: Result<(Sudoku, Vec<Step>), SolverError>)
        requires
            sudoku.wf(),
        ensures
            r matches Ok((s, steps)) ==> s.wf() && s.spec_solved() && extends(sudoku@, s@)
                && exists|boards: Seq<Seq<Cell>>| #[trigger] run(self.techniques(), sudoku@, steps@, boards) && boards.last() == s@,
            r matches Err(e) ==> e == SolverError::StrategyNotFound || (check_step && (e == SolverError::Unsolvable
                || e is TooManySolutions)),
            r == Err::<(Sudoku, Vec<Step>), SolverError>(SolverError::StrategyNotFound) ==> exists|steps: Seq<Step>, boards: Seq<Seq<Cell>>|
                #[trigger] run(self.techniques(), sudoku@, steps, boards) && board_wf(boards.last()) && extends(sudoku@, boards.last())
                    && !(forall|i: int| 0 <= i < 81 ==> #[trigger] boards.last()[i].solved())
                    && forall|k: int| 0 <= k < self.techniques().len() ==> (#[trigger] self.techniques()[k]).finds_nothing(boards.last()),
    {
        let mut board = sudoku.duplicate();
        board.init_candidates();
        let mut steps: Vec<Step> = Vec::new();
        let ghost mut boards: Seq<Seq<Cell>> = seq![board@];
        proof {
            assert(run(self.techniques(), sudoku@, steps@, boards));
        }
        loop
            invariant
                board.wf(),
                sudoku.wf(),
                extends(sudoku@, board@),
                run(self.techniques(), sudoku@, steps@, boards),
                boards.last() == board@,
            decreases measure(board@, 81),
        {
            if board.is_solved() {
                let ghost bs = board@;
                let ghost ss = steps@;
                let res: Result<(Sudoku, Vec<Step>), SolverError> = Ok((board, steps));
                proof {
                    assert(res->Ok_0.0@ == bs);
                    assert(res->Ok_0.1@ == ss);
                    assert(run(self.techniques(), sudoku@, ss, boards) && boards.last() == bs);
                }
                return res;
            }
            match self.find_step(&board) {
                Some(step) => {
                    let ghost before = board@;
                    proof {
                        assert(!board.spec_solved());
                    }
                    let ghost taken = steps@;
                    self.apply(&step, &mut board);
                    proof {
                        assert forall|i: int| 0 <= i < 81 && #[trigger] sudoku@[i].solved() implies board@[i].solved()
                            && board@[i].value() == sudoku@[i].value() by {
                            assert(cell_applied(before, step, board@, i));
                        }
                    }
                    steps.push(step);
                    proof {
                        let prev = boards;
                        boards = boards.push(board@);
                        assert(steps@ == taken.push(step));
                        assert forall|k: int| 0 <= k < steps@.len() implies {
                            &&& board_wf(#[trigger] boards[k])
                            &&& !(forall|i: int| 0 <= i < 81 ==> #[trigger] boards[k][i].solved())
                            &&& first_finds(self.techniques(), boards[k], steps@[k])
                            &&& applied(boards[k], steps@[k], boards[k + 1])
                        } by {
                            if k < taken.len() {
                                assert(boards[k] == prev[k]);
                                assert(boards[k + 1] == prev[k + 1]);
                                assert(steps@[k] == taken[k]);
                            } else {
                                assert(boards[k] == before);
                                assert(steps@[k] == step);
                            }
                        }
                        assert(run(self.techniques(), sudoku@, steps@, boards));
                    }
                    if check_step {
                        match Solver::find_unique(&board) {
                            Ok(_) => {},
                            Err(e) => {
                                return Err(e);
                            },
                        }
                    }
                },
                None => {
                    proof {
                        assert(board_wf(board@));
                        assert(run(self.techniques(), sudoku@, steps@, boards));
                    }
                    return Err(SolverError::StrategyNotFound);
                },
            }
        }
    }
}

} // verus!
