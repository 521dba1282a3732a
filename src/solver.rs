use vstd::prelude::*;

use crate::cell::Cell;
use crate::sudoku::{board_wf, same_digits, Sudoku};
use crate::types::{house, house_indices, lemma_house_upto, lemma_line_cell, lemma_line_sees, line_cell, sees};

verus! {

/// Errors of the solvers.
#[derive(Debug, Clone, Copy, PartialEq, Eq, Structural)]
pub enum SolverError {
    /// No technique finds the next step, though the grid is not solved
    StrategyNotFound,
    /// There is no solution
    Unsolvable,
    /// There is more than one solution; the number found
    TooManySolutions(u32),
    /// There are too few given clues; their number
    TooFewClues(u32),
}

/// Board `s` keeps every digit placed in board `input`.
pub open spec fn extends(input: Seq<Cell>, s: Seq<Cell>) -> bool {
    forall|i: int|
        0 <= i < 81 && #[trigger] input[i].solved() ==> s[i].solved() && s[i].value() == input[i].value()
}

/// No two cells of `s` that see each other hold the same digit, unless both were placed in
/// board `input`.
pub open spec fn no_conflicts(input: Seq<Cell>, s: Seq<Cell>) -> bool {
    forall|i: int, j: int|
        0 <= i < 81 && 0 <= j < 81 && sees(i, j) && #[trigger] s[i].solved() && #[trigger] s[j].solved()
            && !(input[i].solved() && input[j].solved()) ==> s[i].value() != s[j].value()
}

/// Board `s` is a solution of board `input`: every cell holds a digit, the digits of
/// `input` are kept, and no digit added repeats in a row, column or block.
pub open spec fn is_solution(input: Seq<Cell>, s: Seq<Cell>) -> bool {
    &&& board_wf(s)
    &&& forall|i: int| 0 <= i < 81 ==> #[trigger] s[i].solved()
    &&& extends(input, s)
    &&& no_conflicts(input, s)
}

/// The digits placed in `s` that see each other differ.
pub open spec fn givens_consistent(s: Seq<Cell>) -> bool {
    forall|i: int, j: int|
        0 <= i < 81 && 0 <= j < 81 && sees(i, j) && #[trigger] s[i].solved() && #[trigger] s[j].solved()
            ==> s[i].value() != s[j].value()
}

/// The number of positions below `n` of line `l` whose cell holds digit `d`.
pub open spec fn digit_count(s: Seq<Cell>, l: int, d: int, n: int) -> nat
    decreases n,
{
    if n <= 0 {
        0
    } else {
        digit_count(s, l, d, n - 1) + if s[line_cell(l, n - 1)].value() == d {
            1nat
        } else {
            0nat
        }
    }
}

/// The counts of the digits `1..=m` among the first `n` positions of line `l`, summed.
spec fn digit_total(s: Seq<Cell>, l: int, n: int, m: int) -> nat
    decreases m,
{
    if m <= 0 {
        0
    } else {
        digit_total(s, l, n, m - 1) + digit_count(s, l, m, n)
    }
}

/// One more position adds one to the total when its digit is among `1..=m`.
proof fn lemma_total_step(s: Seq<Cell>, l: int, n: int, m: int)
    requires
        n >= 0,
    ensures
        digit_total(s, l, n + 1, m) == digit_total(s, l, n, m) + if 1 <= s[line_cell(l, n)].value() <= m {
            1nat
        } else {
            0nat
        },
    decreases m,
{
    if m > 0 {
        lemma_total_step(s, l, n, m - 1);
    }
}

/// Nine positions holding digits of `1..=9` make a total of nine.
proof fn lemma_total(s: Seq<Cell>, l: int, n: int)
    requires
        0 <= n <= 9,
        forall|p: int| 0 <= p < n ==> 1 <= #[trigger] s[line_cell(l, p)].value() <= 9,
    ensures
        digit_total(s, l, n, 9) == n,
    decreases n,
{
    if n > 0 {
        lemma_total(s, l, n - 1);
        lemma_total_step(s, l, n - 1, 9);
    } else {
        lemma_total_zero(s, l, 9);
    }
}

/// No positions, no digits.
proof fn lemma_total_zero(s: Seq<Cell>, l: int, m: int)
    ensures
        digit_total(s, l, 0, m) == 0,
    decreases m,
{
    if m > 0 {
        lemma_total_zero(s, l, m - 1);
    }
}

/// A digit that no position holds counts zero.
proof fn lemma_count_zero(s: Seq<Cell>, l: int, d: int, n: int)
    requires
        forall|p: int| 0 <= p < n ==> #[trigger] s[line_cell(l, p)].value() != d,
    ensures
        digit_count(s, l, d, n) == 0,
    decreases n,
{
    if n > 0 {
        lemma_count_zero(s, l, d, n - 1);
    }
}

/// Where the positions hold distinct digits, each digit counts at most once.
proof fn lemma_count_once(s: Seq<Cell>, l: int, d: int, n: int)
    requires
        n <= 9,
        forall|p: int, q: int|
            0 <= p < 9 && 0 <= q < 9 && p != q ==> #[trigger] s[line_cell(l, p)].value() != #[trigger] s[line_cell(l, q)].value(),
    ensures
        digit_count(s, l, d, n) <= 1,
    decreases n,
{
    if n > 0 {
        lemma_count_once(s, l, d, n - 1);
        if s[line_cell(l, n - 1)].value() == d {
            assert forall|p: int| 0 <= p < n - 1 implies #[trigger] s[line_cell(l, p)].value() != d by {
                assert(s[line_cell(l, p)].value() != s[line_cell(l, n - 1)].value());
            }
            lemma_count_zero(s, l, d, n - 1);
        }
    }
}

/// Counts of at most one that sum to `m` over `m` digits are all one.
proof fn lemma_all_once(s: Seq<Cell>, l: int, n: int, m: int)
    requires
        0 <= m <= 9,
        forall|d: int| 1 <= d <= m ==> #[trigger] digit_count(s, l, d, n) <= 1,
    ensures
        digit_total(s, l, n, m) <= m,
        digit_total(s, l, n, m) == m ==> forall|d: int| 1 <= d <= m ==> #[trigger] digit_count(s, l, d, n) == 1,
    decreases m,
{
    if m > 0 {
        lemma_all_once(s, l, n, m - 1);
    }
}

/// A solution of a board whose given digits do not clash holds each digit exactly once in
/// every row, column and block.
pub proof fn lemma_solution_houses(input: Seq<Cell>, s: Seq<Cell>)
    requires
        board_wf(input),
        givens_consistent(input),
        is_solution(input, s),
    ensures
        forall|l: int, d: int| 0 <= l < 27 && 1 <= d <= 9 ==> #[trigger] digit_count(s, l, d, 9) == 1,
{
    assert forall|l: int, d: int| 0 <= l < 27 && 1 <= d <= 9 implies #[trigger] digit_count(s, l, d, 9) == 1 by {
        assert forall|p: int, q: int|
            0 <= p < 9 && 0 <= q < 9 && p != q implies #[trigger] s[line_cell(l, p)].value() != #[trigger] s[line_cell(l, q)].value() by {
            lemma_line_sees(l, p, q);
            lemma_line_cell(l, p);
            lemma_line_cell(l, q);
            let a = line_cell(l, p);
            let b = line_cell(l, q);
            assert(s[a].solved() && s[b].solved());
            if input[a].solved() && input[b].solved() {
                assert(s[a].value() == input[a].value());
                assert(s[b].value() == input[b].value());
            }
        }
        assert forall|p: int| 0 <= p < 9 implies 1 <= #[trigger] s[line_cell(l, p)].value() <= 9 by {
            lemma_line_cell(l, p);
            assert(s[line_cell(l, p)].solved());
        }
        lemma_total(s, l, 9);
        assert forall|d2: int| 1 <= d2 <= 9 implies #[trigger] digit_count(s, l, d2, 9) <= 1 by {
            lemma_count_once(s, l, d2, 9);
        }
        lemma_all_once(s, l, 9, 9);
    }
}

/// Board `t` holds the digit of every cell that board `b` has solved.
pub open spec fn agrees(b: Seq<Cell>, t: Seq<Cell>) -> bool {
    forall|i: int| 0 <= i < 81 && #[trigger] b[i].solved() ==> t[i].value() == b[i].value()
}

/// One of the boards `sols` has the digits of board `t`.
pub open spec fn found(sols: Seq<Sudoku>, t: Seq<Cell>) -> bool {
    exists|k: int| 0 <= k < sols.len() && same_digits(#[trigger] sols[k]@, t)
}

/// No two of the boards `sols` have the same digits.
pub open spec fn pairwise_distinct(sols: Seq<Sudoku>) -> bool {
    forall|k1: int, k2: int| 0 <= k1 < k2 < sols.len() ==> !same_digits(#[trigger] sols[k1]@, #[trigger] sols[k2]@)
}

/// `ss` lists every solution of board `input` once: each entry is a solution, no two have
/// the same digits, and every solution has the digits of an entry.
pub open spec fn all_solutions(input: Seq<Cell>, ss: Seq<Seq<Cell>>) -> bool {
    &&& forall|k: int| 0 <= k < ss.len() ==> is_solution(input, #[trigger] ss[k])
    &&& forall|k1: int, k2: int| 0 <= k1 < k2 < ss.len() ==> !same_digits(#[trigger] ss[k1], #[trigger] ss[k2])
    &&& forall|t: Seq<Cell>| #[trigger] is_solution(input, t) ==> exists|k: int| 0 <= k < ss.len() && same_digits(#[trigger] ss[k], t)
}

/// Boards found by a sound, complete search without repeats list every solution once.
proof fn lemma_all_solutions(input: Seq<Cell>, sols: Seq<Sudoku>)
    requires
        forall|k: int| 0 <= k < sols.len() ==> is_solution(input, (#[trigger] sols[k])@),
        forall|t: Seq<Cell>| is_solution(input, t) ==> #[trigger] found(sols, t),
        pairwise_distinct(sols),
    ensures
        all_solutions(input, sols.map_values(|b: Sudoku| b@)),
{
    let ss = sols.map_values(|b: Sudoku| b@);
    assert forall|t: Seq<Cell>| #[trigger] is_solution(input, t) implies exists|k: int| 0 <= k < ss.len() && same_digits(#[trigger] ss[k], t) by {
        assert(found(sols, t));
        let k = choose|k: int| 0 <= k < sols.len() && same_digits(#[trigger] sols[k]@, t);
        assert(ss[k] == sols[k]@);
    }
    assert forall|k1: int, k2: int| 0 <= k1 < k2 < ss.len() implies !same_digits(#[trigger] ss[k1], #[trigger] ss[k2]) by {
        assert(ss[k1] == sols[k1]@);
        assert(ss[k2] == sols[k2]@);
    }
    assert forall|k: int| 0 <= k < ss.len() implies is_solution(input, #[trigger] ss[k]) by {
        assert(ss[k] == sols[k]@);
    }
}

/// The brute force solver: it tries every digit in every empty cell.
#[derive(Debug)]
pub struct Solver {
    /// The list of all solutions
    solutions: Vec<Sudoku>,
}

impl Solver {
    /// The solutions found.
    pub closed spec fn sols(&self) -> Seq<Sudoku> {
        self.solutions@
    }

    /// Tries to find a single unique solution for the given Sudoku.
    pub fn find_unique(sudoku: &Sudoku) -> (r: Result<Sudoku, SolverError>)
        requires
            sudoku.wf(),
        ensures
            r matches Ok(s) ==> is_solution(sudoku@, s@),
            r matches Ok(s) ==> forall|t: Seq<Cell>| #[trigger] is_solution(sudoku@, t) ==> same_digits(s@, t),
            r == Err::<Sudoku, SolverError>(SolverError::Unsolvable) <==> forall|t: Seq<Cell>| !#[trigger] is_solution(sudoku@, t),
            r matches Err(e) ==> e == SolverError::Unsolvable || (e matches SolverError::TooManySolutions(n) && n >= 2),
            r matches Err(SolverError::TooManySolutions(n)) ==> exists|ss: Seq<Seq<Cell>>|
                #[trigger] all_solutions(sudoku@, ss) && (ss.len() == n || (n == 4294967295 && ss.len() >= n)),
            r matches Err(SolverError::TooManySolutions(_)) ==> exists|t1: Seq<Cell>, t2: Seq<Cell>|
                is_solution(sudoku@, t1) && is_solution(sudoku@, t2) && !same_digits(t1, t2),
    {
        let solver = Self::find_all(sudoku);
        let n = solver.solutions.len();
        proof {
            lemma_all_solutions(sudoku@, solver.sols());
            assert(solver.sols().map_values(|b: Sudoku| b@).len() == n);
            if n > 0 {
                assert(is_solution(sudoku@, solver.sols()[0]@));
            }
        }
        if n == 1 {
            let s = solver.solutions[0].duplicate();
            proof {
                assert forall|t: Seq<Cell>| #[trigger] is_solution(sudoku@, t) implies same_digits(s@, t) by {
                    assert(found(solver.sols(), t));
                    let k = choose|k: int| 0 <= k < solver.sols().len() && same_digits(#[trigger] solver.sols()[k]@, t);
                    assert(k == 0);
                }
            }
            Ok(s)
        } else if n == 0 {
            proof {
                assert forall|t: Seq<Cell>| !#[trigger] is_solution(sudoku@, t) by {
                    if is_solution(sudoku@, t) {
                        assert(found(solver.sols(), t));
                    }
                }
            }
            Err(SolverError::Unsolvable)
        } else if n > 4294967295 {
            proof {
                assert(is_solution(sudoku@, solver.sols()[1]@));
                assert(!same_digits(solver.sols()[0]@, solver.sols()[1]@));
            }
            Err(SolverError::TooManySolutions(4294967295))
        } else {
            proof {
                assert(is_solution(sudoku@, solver.sols()[1]@));
                assert(!same_digits(solver.sols()[0]@, solver.sols()[1]@));
            }
            Err(SolverError::TooManySolutions(n as u32))
        }
    }

    /// Finds all solutions of the given Sudoku.
    /// **NOTE** can take a while to run.
    pub fn find_all(sudoku: &Sudoku) -> (r: Solver)
        requires
            sudoku.wf(),
        ensures
            forall|k: int| 0 <= k < r.sols().len() ==> is_solution(sudoku@, (#[trigger] r.sols()[k])@),
            forall|t: Seq<Cell>| is_solution(sudoku@, t) ==> #[trigger] found(r.sols(), t),
            pairwise_distinct(r.sols()),
    {
        let mut solver = Self { solutions: Vec::new() };
        let mut board = sudoku.duplicate();
        solver.solve_sudoku(&mut board, 0, Ghost(sudoku@));
        proof {
            assert forall|t: Seq<Cell>| is_solution(sudoku@, t) implies agrees(sudoku@, t) by {
                assert forall|i: int| 0 <= i < 81 && #[trigger] sudoku@[i].solved() implies t[i].value() == sudoku@[i].value() by {
                    assert(extends(sudoku@, t));
                }
            }
        }
        solver
    }

    /// Brute force search from cell `start_index` on, recording every solution.
    fn solve_sudoku(&mut self, sudoku: &mut Sudoku, start_index: usize, Ghost(input): Ghost<Seq<Cell>>)
        requires
            old(sudoku).wf(),
            board_wf(input),
            start_index <= 81,
            extends(input, old(sudoku)@),
            no_conflicts(input, old(sudoku)@),
            forall|i: int| 0 <= i < start_index ==> #[trigger] old(sudoku)@[i].solved(),
            forall|k: int| 0 <= k < old(self).sols().len() ==> is_solution(input, (#[trigger] old(self).sols()[k])@),
            pairwise_distinct(old(self).sols()),
            forall|k: int| 0 <= k < old(self).sols().len() ==> !agrees(old(sudoku)@, (#[trigger] old(self).sols()[k])@),
        ensures
            final(sudoku).wf(),
            pairwise_distinct(final(self).sols()),
            forall|k: int| old(self).sols().len() <= k < final(self).sols().len() ==> agrees(old(sudoku)@, (#[trigger] final(self).sols()[k])@),
            same_digits(old(sudoku)@, final(sudoku)@),
            forall|k: int| 0 <= k < final(self).sols().len() ==> is_solution(input, (#[trigger] final(self).sols()[k])@),
            old(self).sols().len() <= final(self).sols().len(),
            forall|k: int| 0 <= k < old(self).sols().len() ==> #[trigger] final(self).sols()[k] == old(self).sols()[k],
            forall|t: Seq<Cell>| is_solution(input, t) && agrees(old(sudoku)@, t) ==> #[trigger] found(final(self).sols(), t),
        decreases 81 - start_index,
    {
        if sudoku.is_solved() {
            let solved = sudoku.duplicate();
            self.solutions.push(solved);
            proof {
                assert forall|k: int| 0 <= k < self.sols().len() implies is_solution(input, (#[trigger] self.sols()[k])@) by {
                    if k < old(self).sols().len() {
                        assert(self.sols()[k] == old(self).sols()[k]);
                    }
                }
                let last = self.sols().len() - 1;
                assert(self.sols()[last]@ == sudoku@);
                assert forall|i: int| 0 <= i < 81 && #[trigger] sudoku@[i].solved() implies self.sols()[last]@[i].value() == sudoku@[i].value() by {}
                assert forall|k1: int, k2: int| 0 <= k1 < k2 < self.sols().len() implies !same_digits(#[trigger] self.sols()[k1]@, #[trigger] self.sols()[k2]@) by {
                    if k2 == last {
                        assert(self.sols()[k1] == old(self).sols()[k1]);
                        assert(!agrees(sudoku@, old(self).sols()[k1]@));
                        let i = choose|i: int| 0 <= i < 81 && #[trigger] sudoku@[i].solved() && old(self).sols()[k1]@[i].value() != sudoku@[i].value();
                        assert(self.sols()[k1]@[i].value() != self.sols()[k2]@[i].value());
                    } else {
                        assert(self.sols()[k1] == old(self).sols()[k1]);
                        assert(self.sols()[k2] == old(self).sols()[k2]);
                    }
                }
                assert forall|t: Seq<Cell>| is_solution(input, t) && agrees(old(sudoku)@, t) implies #[trigger] found(self.sols(), t) by {
                    assert(self.sols()[last]@ == sudoku@);
                    assert forall|i: int| 0 <= i < 81 implies #[trigger] sudoku@[i].value() == t[i].value() by {
                        assert(sudoku@[i].solved());
                        assert(t[i].solved());
                    }
                    assert(same_digits(self.sols()[last]@, t));
                }
            }
            return;
        }
        let ghost entry = sudoku@;
        let mut index = start_index;
        while index < 81
            invariant
                start_index <= index <= 81,
                sudoku@ == entry,
                entry == old(sudoku)@,
                board_wf(entry),
                sudoku.wf(),
                board_wf(input),
                extends(input, entry),
                no_conflicts(input, entry),
                forall|i: int| 0 <= i < index ==> #[trigger] entry[i].solved(),
                !(forall|i: int| 0 <= i < 81 ==> #[trigger] entry[i].solved()),
                forall|k: int| 0 <= k < self.sols().len() ==> is_solution(input, (#[trigger] self.sols()[k])@),
                self.sols() == old(self).sols(),
                pairwise_distinct(old(self).sols()),
                forall|k: int| 0 <= k < old(self).sols().len() ==> !agrees(entry, (#[trigger] old(self).sols()[k])@),
            decreases 81 - index,
        {
            if sudoku.get(index).is_empty() {
                proof {
                    assert forall|t: Seq<Cell>| is_solution(input, t) && agrees(entry, t) && t[index as int].value() < 1 implies #[trigger] found(self.sols(), t) by {
                        assert(t[index as int].solved());
                    }
                }
                let mut value: u8 = 1;
                while value <= 9
                    invariant
                        1 <= value <= 10,
                        start_index <= index < 81,
                        entry == old(sudoku)@,
                        board_wf(entry),
                        !entry[index as int].solved(),
                        sudoku.wf(),
                        same_digits(entry, sudoku@),
                        board_wf(input),
                        extends(input, entry),
                        no_conflicts(input, entry),
                        forall|i: int| 0 <= i < index ==> #[trigger] entry[i].solved(),
                        forall|k: int| 0 <= k < self.sols().len() ==> is_solution(input, (#[trigger] self.sols()[k])@),
                        old(self).sols().len() <= self.sols().len(),
                        forall|k: int| 0 <= k < old(self).sols().len() ==> #[trigger] self.sols()[k] == old(self).sols()[k],
                        forall|t: Seq<Cell>|
                            is_solution(input, t) && agrees(entry, t) && t[index as int].value() < value ==> #[trigger] found(self.sols(), t),
                        pairwise_distinct(self.sols()),
                        forall|k: int| 0 <= k < old(self).sols().len() ==> !agrees(entry, (#[trigger] old(self).sols()[k])@),
                        forall|k: int|
                            old(self).sols().len() <= k < self.sols().len() ==> agrees(entry, (#[trigger] self.sols()[k])@)
                                && self.sols()[k]@[index as int].value() < value,
                    decreases 10 - value,
                {
                    let ghost sols_before = self.sols();
                    if Self::possible(sudoku, index, value) {
                        let ghost before = sudoku@;
                        sudoku.set_digit(index, value);
                        proof {
                            assert forall|i: int| 0 <= i < index + 1 implies #[trigger] sudoku@[i].solved() by {
                                if i < index {
                                    assert(entry[i].solved());
                                    assert(before[i].value() == entry[i].value());
                                }
                            }
                            assert forall|i: int| 0 <= i < 81 && #[trigger] input[i].solved() implies sudoku@[i].solved()
                                && sudoku@[i].value() == input[i].value() by {
                                assert(entry[i].solved());
                                if i == index {
                                    assert(false);
                                }
                                assert(before[i].value() == entry[i].value());
                            }
                            assert forall|i: int, j: int|
                                0 <= i < 81 && 0 <= j < 81 && sees(i, j) && #[trigger] sudoku@[i].solved() && #[trigger] sudoku@[j].solved()
                                    && !(input[i].solved() && input[j].solved()) implies sudoku@[i].value() != sudoku@[j].value() by {
                                assert(before[i].value() == entry[i].value());
                                assert(before[j].value() == entry[j].value());
                                if i == index {
                                    assert(before[j].value() != value);
                                } else if j == index {
                                    assert(sees(j, i));
                                    assert(before[i].value() != value);
                                } else {
                                    assert(entry[i].solved() && entry[j].solved());
                                }
                            }
                        }
                        let ghost placed = sudoku@;
                        proof {
                            assert forall|k: int| 0 <= k < self.sols().len() implies !agrees(placed, (#[trigger] self.sols()[k])@) by {
                                if k < old(self).sols().len() {
                                    assert(self.sols()[k] == old(self).sols()[k]);
                                    assert(!agrees(entry, self.sols()[k]@));
                                    let i = choose|i: int| 0 <= i < 81 && #[trigger] entry[i].solved() && self.sols()[k]@[i].value() != entry[i].value();
                                    assert(i != index);
                                    assert(placed[i] == before[i]);
                                    assert(before[i].value() == entry[i].value());
                                    assert(placed[i].solved());
                                } else {
                                    assert(placed[index as int].solved());
                                    assert(self.sols()[k]@[index as int].value() != placed[index as int].value());
                                }
                            }
                        }
                        self.solve_sudoku(sudoku, index + 1, Ghost(input));
                        let ghost searched = sudoku@;
                        sudoku.unset(index);
                        proof {
                            assert forall|k: int| 0 <= k < old(self).sols().len() implies #[trigger] self.sols()[k] == old(self).sols()[k] by {
                                assert(self.sols()[k] == sols_before[k]);
                            }
                            assert forall|k: int|
                                old(self).sols().len() <= k < self.sols().len() implies agrees(entry, (#[trigger] self.sols()[k])@)
                                    && self.sols()[k]@[index as int].value() < value + 1 by {
                                if k < sols_before.len() {
                                    assert(self.sols()[k] == sols_before[k]);
                                } else {
                                    assert(agrees(placed, self.sols()[k]@));
                                    assert(placed[index as int].solved());
                                    assert forall|i: int| 0 <= i < 81 && #[trigger] entry[i].solved() implies self.sols()[k]@[i].value() == entry[i].value() by {
                                        assert(i != index);
                                        assert(placed[i] == before[i]);
                                        assert(before[i].value() == entry[i].value());
                                        assert(placed[i].solved());
                                    }
                                }
                            }
                            assert forall|t: Seq<Cell>|
                                is_solution(input, t) && agrees(entry, t) && t[index as int].value() < value + 1 implies #[trigger] found(self.sols(), t) by {
                                if t[index as int].value() == value {
                                    assert forall|i: int| 0 <= i < 81 && #[trigger] placed[i].solved() implies t[i].value() == placed[i].value() by {
                                        if i != index {
                                            assert(placed[i] == before[i]);
                                            assert(before[i].value() == entry[i].value());
                                        }
                                    }
                                    assert(agrees(placed, t));
                                } else {
                                    assert(found(sols_before, t));
                                    let k = choose|k: int| 0 <= k < sols_before.len() && same_digits(#[trigger] sols_before[k]@, t);
                                    assert(self.sols()[k] == sols_before[k]);
                                }
                            }
                            assert forall|i: int| 0 <= i < 81 implies entry[i].solved() == #[trigger] sudoku@[i].solved()
                                && entry[i].value() == sudoku@[i].value() by {
                                if i != index {
                                    assert(before[i].value() == entry[i].value());
                                    assert(placed[i] == before[i]);
                                    assert(searched[i].value() == placed[i].value());
                                    assert(sudoku@[i] == searched[i]);
                                }
                            }
                        }
                    } else {
                        proof {
                            assert forall|t: Seq<Cell>|
                                is_solution(input, t) && agrees(entry, t) && t[index as int].value() < value + 1 implies #[trigger] found(self.sols(), t) by {
                                assert(t.len() == 81);
                                if t[index as int].value() == value {
                                    let j = choose|j: int| 0 <= j < 81 && sees(index as int, j) && #[trigger] sudoku@[j].value() == value;
                                    assert(sudoku@[j].value() == entry[j].value());
                                    assert(entry[j].solved());
                                    assert(t[j].value() == value);
                                    assert(!input[index as int].solved());
                                    assert(t[index as int].solved() && t[j].solved());
                                } else {
                                    assert(found(self.sols(), t));
                                }
                            }
                        }
                    }
                    value += 1;
                }
                proof {
                    assert forall|t: Seq<Cell>| is_solution(input, t) && agrees(old(sudoku)@, t) implies #[trigger] found(self.sols(), t) by {
                        assert(t[index as int].solved());
                        assert(1 <= t[index as int].value() <= 9);
                    }
                }
                return;
            }
            index += 1;
        }
        proof {
            assert(forall|i: int| 0 <= i < 81 ==> #[trigger] entry[i].solved());
        }
    }

    /// Returns true if no cell that sees cell `index` holds digit `value`.
    fn possible(sudoku: &Sudoku, index: usize, value: u8) -> (r: bool)
        requires
            sudoku.wf(),
            index < 81,
        ensures
            r == forall|j: int| 0 <= j < 81 && sees(index as int, j) ==> #[trigger] sudoku@[j].value() != value,
    {
        let cells = house_indices(index);
        proof {
            lemma_house_upto(index as int, 81);
        }
        let mut t: usize = 0;
        while t < cells.len()
            invariant
                t <= cells@.len(),
                sudoku.wf(),
                index < 81,
                cells@ == house(index as int),
                forall|k: int| 0 <= k < cells@.len() ==> #[trigger] cells@[k] < 81 && sees(index as int, cells@[k] as int),
                forall|k: int| 0 <= k < t ==> sudoku@[#[trigger] cells@[k] as int].value() != value,
            decreases cells@.len() - t,
        {
            if sudoku.get(cells[t]).digit() == value {
                return false;
            }
            t += 1;
        }
        proof {
            assert forall|j: int| 0 <= j < 81 && sees(index as int, j) implies #[trigger] sudoku@[j].value() != value by {
                let k = choose|k: int| 0 <= k < cells@.len() && cells@[k] == j as usize;
                assert(sudoku@[cells@[k] as int].value() != value);
            }
        }
        true
    }

    /// Returns the solutions found.
    pub fn solutions(&self) -> (r: &[Sudoku])
        ensures
            r@ == self.sols(),
    {
        self.solutions.as_slice()
    }
}

} // verus!
