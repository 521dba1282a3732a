use vstd::prelude::*;

use crate::candidates::Candidates;
use crate::cell::Cell;
use crate::strategy::algorithms::hidden_single::{count_in_line, line_count};
use crate::strategy::algorithms::{combinations, lemma_lex_asymmetric, lex_less, is_combination};
use crate::strategy::step::{pair_if, Step};
use crate::strategy::Strategy;
use crate::sudoku::Sudoku;
use crate::types::{line_cell, line_index};

verus! {

/// Digit `x` is one of the digits `c[t] + 1` of the combination `c`.
pub open spec fn chosen(c: Seq<usize>, x: int) -> bool {
    exists|t: int| 0 <= t < c.len() && c[t] + 1 == x
}

/// The cell at position `p` of line `l` holds one of the digits of `c`.
pub open spec fn covers(s: Seq<Cell>, l: int, c: Seq<usize>, p: int) -> bool {
    exists|x: int| chosen(c, x) && #[trigger] s[line_cell(l, p)].has(x)
}

/// The number of positions below `n` of line `l` whose cell holds one of the digits of `c`.
pub open spec fn cover_count(s: Seq<Cell>, l: int, c: Seq<usize>, n: int) -> nat
    decreases n,
{
    if n <= 0 {
        0
    } else {
        cover_count(s, l, c, n - 1) + if covers(s, l, c, n - 1) {
            1nat
        } else {
            0nat
        }
    }
}

/// The `k` digits of `c` each have a cell in line `l`, and between them they have exactly
/// `k` cells there.
pub open spec fn is_hidden_subset(s: Seq<Cell>, l: int, c: Seq<usize>, k: int) -> bool {
    &&& 0 <= l < 27
    &&& is_combination(c, 9, k)
    &&& forall|t: int| 0 <= t < k ==> #[trigger] line_count(s, l, c[t] + 1, 9) > 0
    &&& cover_count(s, l, c, 9) == k
}

/// The candidates below `m` outside `c` of the cell at position `p` of line `l`, when that
/// cell belongs to the hidden subset, each paired with the cell.
pub open spec fn hidden_cell_elims(s: Seq<Cell>, l: int, c: Seq<usize>, p: int, m: int) -> Seq<
    (usize, u8),
>
    decreases m,
{
    if m <= 0 {
        Seq::empty()
    } else {
        hidden_cell_elims(s, l, c, p, m - 1) + pair_if(
            covers(s, l, c, p) && !chosen(c, m - 1) && s[line_cell(l, p)].has(m - 1),
            line_cell(l, p),
            m - 1,
        )
    }
}

/// The eliminations of the hidden subset `c` of line `l` in the cells at positions below
/// `n`: every other candidate of the subset's cells.
pub open spec fn hidden_elims(s: Seq<Cell>, l: int, c: Seq<usize>, n: int) -> Seq<(usize, u8)>
    decreases n,
{
    if n <= 0 {
        Seq::empty()
    } else {
        hidden_elims(s, l, c, n - 1) + hidden_cell_elims(s, l, c, n - 1, 10)
    }
}

/// The cells at positions below `n` of line `l` that hold one of the digits of `c`, in
/// position order.
pub open spec fn hidden_cells(s: Seq<Cell>, l: int, c: Seq<usize>, n: int) -> Seq<usize>
    decreases n,
{
    if n <= 0 {
        Seq::empty()
    } else if covers(s, l, c, n - 1) {
        hidden_cells(s, l, c, n - 1).push(line_cell(l, n - 1) as usize)
    } else {
        hidden_cells(s, l, c, n - 1)
    }
}

/// `locks` records each cell of the hidden subset `c` of line `l` among the positions below
/// `n`, in position order, with its candidates among the subset's digits.
pub open spec fn hidden_locks(s: Seq<Cell>, l: int, c: Seq<usize>, n: int, locks: Seq<(usize, Candidates)>) -> bool {
    let cells = hidden_cells(s, l, c, n);
    &&& locks.len() == cells.len()
    &&& forall|q: int|
        0 <= q < cells.len() ==> (#[trigger] locks[q]).0 == cells[q] && forall|x: int|
            #[trigger] locks[q].1.has(x) == (chosen(c, x) && s[cells[q] as int].has(x))
}

/// `step` eliminates what the hidden subset `c` of line `l` allows, and records each cell of
/// the subset with its candidates among the subset's digits.
pub open spec fn hidden_subset_step(s: Seq<Cell>, l: int, c: Seq<usize>, k: int, step: Step) -> bool {
    &&& is_hidden_subset(s, l, c, k)
    &&& step.placed() is None
    &&& step.elims() == hidden_elims(s, l, c, 9)
    &&& step.elims().len() > 0
    &&& hidden_locks(s, l, c, 9, step.locks())
}

/// Finds `count` digits that only `count` cells of a line can hold; those cells lose their
/// other candidates.
#[derive(Debug)]
pub struct HiddenSubset {
    count: u8,
}

impl HiddenSubset {
    /// The size of the subsets searched.
    pub closed spec fn size(&self) -> int {
        self.count as int
    }

    /// Creates a new Hidden Subset for pairs.
    pub fn pair() -> (r: Self)
        ensures
            r.size() == 2,
    {
        Self { count: 2 }
    }

    /// Creates a new Hidden Subset for triples.
    pub fn triple() -> (r: Self)
        ensures
            r.size() == 3,
    {
        Self { count: 3 }
    }

    /// Creates a new Hidden Subset for quadruples.
    pub fn quadruple() -> (r: Self)
        ensures
            r.size() == 4,
    {
        Self { count: 4 }
    }

    /// The set of the digits `c[t] + 1`.
    fn digit_set(c: &Vec<usize>) -> (r: Candidates)
        requires
            forall|t: int| 0 <= t < c@.len() ==> #[trigger] c@[t] < 9,
        ensures
            forall|x: int| #[trigger] r.has(x) == chosen(c@, x),
    {
        let mut set = Candidates::empty();
        let mut t: usize = 0;
        while t < c.len()
            invariant
                t <= c@.len(),
                forall|t2: int| 0 <= t2 < c@.len() ==> #[trigger] c@[t2] < 9,
                forall|x: int|
                    #[trigger] set.has(x) == exists|t2: int| 0 <= t2 < t && c@[t2] + 1 == x,
            decreases c@.len() - t,
        {
            set.set((c[t] + 1) as u8);
            proof {
                assert forall|x: int| #[trigger] set.has(x) == exists|t2: int|
                    0 <= t2 < t + 1 && c@[t2] + 1 == x by {
                    if x == c@[t as int] + 1 {
                        assert(c@[t as int] + 1 == x);
                    }
                }
            }
            t += 1;
        }
        set
    }

    /// Returns whether the cell at position `p` of line `l` holds one of the digits of `c`,
    /// and those of its candidates that do.
    fn common_digits(sudoku: &Sudoku, l: usize, p: usize, c: &Vec<usize>, digits: &Candidates) -> (r: (bool, Candidates))
        requires
            sudoku.wf(),
            l < 27,
            p < 9,
            forall|x: int| #[trigger] digits.has(x) == chosen(c@, x),
        ensures
            r.0 == covers(sudoku@, l as int, c@, p as int),
            forall|x: int|
                #[trigger] r.1.has(x) == (chosen(c@, x) && sudoku@[line_cell(l as int, p as int)].has(x)),
    {
        let cell = sudoku.get(line_index(l, p));
        let common = Candidates::intersect(&cell.candidates(), digits);
        let inside = !common.is_empty();
        proof {
            if inside {
                let x = choose|x: int| 1 <= x <= 9 && common.has(x);
                assert(sudoku@[line_cell(l as int, p as int)].has(x));
            }
            if covers(sudoku@, l as int, c@, p as int) {
                let x = choose|x: int|
                    chosen(c@, x) && #[trigger] sudoku@[line_cell(l as int, p as int)].has(x);
                assert(common.has(x));
            }
        }
        (inside, common)
    }

    /// Returns whether each digit of `c` has a cell in line `l`, and how many cells of the
    /// line hold one of them.
    fn survey(sudoku: &Sudoku, l: usize, c: &Vec<usize>, digits: &Candidates) -> (r: (bool, usize))
        requires
            sudoku.wf(),
            l < 27,
            forall|t: int| 0 <= t < c@.len() ==> #[trigger] c@[t] < 9,
            forall|x: int| #[trigger] digits.has(x) == chosen(c@, x),
        ensures
            r.0 == forall|t: int|
                0 <= t < c@.len() ==> #[trigger] line_count(sudoku@, l as int, c@[t] + 1, 9) > 0,
            r.1 == cover_count(sudoku@, l as int, c@, 9),
    {
        let mut present = true;
        let mut t: usize = 0;
        while t < c.len()
            invariant
                t <= c@.len(),
                sudoku.wf(),
                l < 27,
                forall|t2: int| 0 <= t2 < c@.len() ==> #[trigger] c@[t2] < 9,
                present == forall|t2: int|
                    0 <= t2 < t ==> #[trigger] line_count(sudoku@, l as int, c@[t2] + 1, 9) > 0,
            decreases c@.len() - t,
        {
            let (n, _) = count_in_line(sudoku, l, (c[t] + 1) as u8);
            proof {
                assert(((c@[t as int] + 1) as u8) as int == c@[t as int] + 1);
            }
            if n == 0 {
                present = false;
            }
            t += 1;
        }
        let mut cells: usize = 0;
        let mut p: usize = 0;
        while p < 9
            invariant
                p <= 9,
                sudoku.wf(),
                l < 27,
                forall|x: int| #[trigger] digits.has(x) == chosen(c@, x),
                cells == cover_count(sudoku@, l as int, c@, p as int),
                cells <= p,
            decreases 9 - p,
        {
            let (inside, _) = Self::common_digits(sudoku, l, p, c, digits);
            if inside {
                cells += 1;
            }
            p += 1;
        }
        (present, cells)
    }

    /// Returns the step of the hidden subset `c` of line `l`, whose digits are `digits`.
    fn subset_step(sudoku: &Sudoku, l: usize, c: &Vec<usize>, digits: &Candidates) -> (r: Step)
        requires
            sudoku.wf(),
            l < 27,
            forall|t: int| 0 <= t < c@.len() ==> #[trigger] c@[t] < 9,
            forall|x: int| #[trigger] digits.has(x) == chosen(c@, x),
        ensures
            r.placed() is None,
            r.wf(),
            r.elims_held(sudoku@),
            r.elims() == hidden_elims(sudoku@, l as int, c@, 9),
            hidden_locks(sudoku@, l as int, c@, 9, r.locks()),
    {
        let mut step = Step::new();
        let mut p: usize = 0;
        while p < 9
            invariant
                p <= 9,
                sudoku.wf(),
                l < 27,
                forall|x: int| #[trigger] digits.has(x) == chosen(c@, x),
                step.placed() is None,
                step.wf(),
                step.elims_held(sudoku@),
                step.elims() == hidden_elims(sudoku@, l as int, c@, p as int),
                hidden_locks(sudoku@, l as int, c@, p as int, step.locks()),
            decreases 9 - p,
        {
            let i = line_index(l, p);
            let (inside, common) = Self::common_digits(sudoku, l, p, c, digits);
            let ghost base = step.elims();
            proof {
                assert(hidden_cell_elims(sudoku@, l as int, c@, p as int, 0) =~= Seq::<
                    (usize, u8),
                >::empty());
                assert(!sudoku@[line_cell(l as int, p as int)].has(0));
                assert(hidden_cell_elims(sudoku@, l as int, c@, p as int, 1) =~= Seq::<
                    (usize, u8),
                >::empty());
                assert(step.elims() =~= base + hidden_cell_elims(sudoku@, l as int, c@, p as int, 1));
            }
            let mut x: u8 = 1;
            while x <= 9
                invariant
                    1 <= x <= 10,
                    p < 9,
                    sudoku.wf(),
                    l < 27,
                    i == line_cell(l as int, p as int),
                    i < 81,
                    inside == covers(sudoku@, l as int, c@, p as int),
                    forall|x2: int| #[trigger] digits.has(x2) == chosen(c@, x2),
                    step.placed() is None,
                    step.wf(),
                    step.elims_held(sudoku@),
                    hidden_locks(sudoku@, l as int, c@, p as int, step.locks()),
                    step.elims() == base + hidden_cell_elims(sudoku@, l as int, c@, p as int, x as int),
                decreases 10 - x,
            {
                if inside && !digits.get(x) && sudoku.get(i).has_candidate(x) {
                    step.eliminate_candidate(i, x);
                }
                proof {
                    assert(step.elims() =~= base + hidden_cell_elims(
                        sudoku@,
                        l as int,
                        c@,
                        p as int,
                        x + 1,
                    ));
                }
                x += 1;
            }
            if inside {
                let ghost before = step.locks();
                step.lock_candidate(i, common);
                proof {
                    let cells = hidden_cells(sudoku@, l as int, c@, p + 1);
                    assert(cells == hidden_cells(sudoku@, l as int, c@, p as int).push(i));
                    assert forall|q: int| 0 <= q < cells.len() implies (#[trigger] step.locks()[q]).0 == cells[q] && forall|x: int|
                        #[trigger] step.locks()[q].1.has(x) == (chosen(c@, x) && sudoku@[cells[q] as int].has(x)) by {
                        if q < before.len() {
                            assert(step.locks()[q] == before[q]);
                        } else {
                            assert(step.locks()[q] == (i, common));
                        }
                    }
                }
            } else {
                proof {
                    assert(hidden_cells(sudoku@, l as int, c@, p + 1) == hidden_cells(sudoku@, l as int, c@, p as int));
                }
            }
            proof {
                assert(step.elims() =~= hidden_elims(sudoku@, l as int, c@, p + 1));
            }
            p += 1;
        }
        step
    }

    /// Searches line `l` for a subset of the combinations `combos`, in their order, whose step
    /// eliminates something.
    fn find_tuple(&self, sudoku: &Sudoku, l: usize, combos: &Vec<Vec<usize>>) -> (r: Option<Step>)
        requires
            sudoku.wf(),
            l < 27,
            forall|j: int| 0 <= j < combos@.len() ==> is_combination(#[trigger] combos@[j]@, 9, self.size()),
            forall|c: Seq<usize>| is_combination(c, 9, self.size()) ==> exists|j: int|
                0 <= j < combos@.len() && #[trigger] combos@[j]@ == c,
            forall|j1: int, j2: int| 0 <= j1 < j2 < combos@.len() ==> lex_less(#[trigger] combos@[j1]@, #[trigger] combos@[j2]@),
        ensures
            r is None <==> forall|c: Seq<usize>|
                is_hidden_subset(sudoku@, l as int, c, self.size()) ==> hidden_elims(sudoku@, l as int, c, 9).len() == 0,
            r matches Some(st) ==> exists|c: Seq<usize>| #[trigger] hidden_subset_step(sudoku@, l as int, c, self.size(), st)
                && forall|c2: Seq<usize>| lex_less(c2, c) && is_hidden_subset(sudoku@, l as int, c2, self.size())
                    ==> hidden_elims(sudoku@, l as int, c2, 9).len() == 0,
            r matches Some(st) ==> st.wf() && st.progresses(sudoku@),
    {
        let mut j: usize = 0;
        while j < combos.len()
            invariant
                j <= combos@.len(),
                l < 27,
                sudoku.wf(),
                forall|j2: int| 0 <= j2 < combos@.len() ==> is_combination(#[trigger] combos@[j2]@, 9, self.size()),
                forall|c: Seq<usize>| is_combination(c, 9, self.size()) ==> exists|j2: int|
                    0 <= j2 < combos@.len() && #[trigger] combos@[j2]@ == c,
                forall|j1: int, j2: int| 0 <= j1 < j2 < combos@.len() ==> lex_less(#[trigger] combos@[j1]@, #[trigger] combos@[j2]@),
                forall|j2: int|
                    0 <= j2 < j && is_hidden_subset(sudoku@, l as int, #[trigger] combos@[j2]@, self.size())
                        ==> hidden_elims(sudoku@, l as int, combos@[j2]@, 9).len() == 0,
            decreases combos@.len() - j,
        {
            let c = &combos[j];
            proof {
                assert(is_combination(combos@[j as int]@, 9, self.size()));
            }
            let digits = Self::digit_set(c);
            let (present, cells) = Self::survey(sudoku, l, c, &digits);
            if present && cells == self.count as usize {
                let step = Self::subset_step(sudoku, l, c, &digits);
                if step.eliminated_candidates().len() > 0 {
                    proof {
                        assert(hidden_subset_step(sudoku@, l as int, c@, self.size(), step));
                        let e = step.elims()[0];
                        assert(sudoku@[e.0 as int].has(e.1 as int));
                    }
                    proof {
                        assert forall|c2: Seq<usize>| lex_less(c2, c@) && is_hidden_subset(sudoku@, l as int, c2, self.size())
                            implies hidden_elims(sudoku@, l as int, c2, 9).len() == 0 by {
                            let j2 = choose|j2: int| 0 <= j2 < combos@.len() && #[trigger] combos@[j2]@ == c2;
                            if j2 > j {
                                assert(lex_less(combos@[j as int]@, combos@[j2]@));
                                lemma_lex_asymmetric(combos@[j as int]@, combos@[j2]@);
                            }
                        }
                    }
                    let res = Some(step);
                    proof {
                        assert(res->0.locks() == step.locks());
                    }
                    return res;
                }
            }
            j += 1;
        }
        proof {
            assert forall|c: Seq<usize>| is_hidden_subset(sudoku@, l as int, c, self.size()) implies hidden_elims(
                sudoku@,
                l as int,
                c,
                9,
            ).len() == 0 by {
                let j2 = choose|j2: int| 0 <= j2 < combos@.len() && #[trigger] combos@[j2]@ == c;
            }
        }
        None
    }
}

impl Strategy for HiddenSubset {
    fn find(&self, sudoku: &Sudoku) -> (r: Option<Step>)
        ensures
            r is None <==> forall|l: int, c: Seq<usize>|
                is_hidden_subset(sudoku@, l, c, self.size()) ==> hidden_elims(sudoku@, l, c, 9).len()
                    == 0,
            r matches Some(st) ==> exists|l: int, c: Seq<usize>|
                #[trigger] hidden_subset_step(sudoku@, l, c, self.size(), st) && forall|l2: int, c2: Seq<usize>|
                    (l2 < l || (l2 == l && lex_less(c2, c))) && is_hidden_subset(sudoku@, l2, c2, self.size())
                        ==> hidden_elims(sudoku@, l2, c2, 9).len() == 0,
    {
        let combos = combinations(9, self.count as usize);
        let mut l: usize = 0;
        while l < 27
            invariant
                l <= 27,
                sudoku.wf(),
                forall|j: int| 0 <= j < combos@.len() ==> is_combination(#[trigger] combos@[j]@, 9, self.size()),
                forall|c: Seq<usize>| is_combination(c, 9, self.size()) ==> exists|j: int|
                    0 <= j < combos@.len() && #[trigger] combos@[j]@ == c,
                forall|j1: int, j2: int| 0 <= j1 < j2 < combos@.len() ==> lex_less(#[trigger] combos@[j1]@, #[trigger] combos@[j2]@),
                forall|l2: int, c: Seq<usize>|
                    l2 < l && is_hidden_subset(sudoku@, l2, c, self.size()) ==> hidden_elims(sudoku@, l2, c, 9).len() == 0,
            decreases 27 - l,
        {
            let found = self.find_tuple(sudoku, l, &combos);
            if found.is_some() {
                return found;
            }
            proof {
                assert forall|l2: int, c: Seq<usize>|
                    l2 < l + 1 && is_hidden_subset(sudoku@, l2, c, self.size()) implies hidden_elims(sudoku@, l2, c, 9).len() == 0 by {}
            }
            l += 1;
        }
        None
    }

    fn name(&self) -> (r: String)
        ensures
            r@ == "Hidden Subset"@,
    {
        "Hidden Subset".to_owned()
    }
}

} // verus!
