use vstd::prelude::*;

use crate::candidates::Candidates;
use crate::cell::{Cell, CellState};
use crate::strategy::algorithms::{combinations, lemma_lex_asymmetric, lex_less, combo_contains, is_combination};
use crate::strategy::step::{pair_if, Step};
use crate::strategy::Strategy;
use crate::sudoku::Sudoku;
use crate::types::{line_cell, line_index};

verus! {

/// Some cell at the positions `c` of line `l` holds candidate `d`.
pub open spec fn union_has(s: Seq<Cell>, l: int, c: Seq<usize>, d: int) -> bool {
    exists|t: int| 0 <= t < c.len() && #[trigger] s[line_cell(l, c[t] as int)].has(d)
}

/// The number of digits among `1..=n` that some cell at the positions `c` of line `l`
/// holds.
pub open spec fn union_count(s: Seq<Cell>, l: int, c: Seq<usize>, n: int) -> nat
    decreases n,
{
    if n <= 0 {
        0
    } else {
        union_count(s, l, c, n - 1) + if union_has(s, l, c, n) {
            1nat
        } else {
            0nat
        }
    }
}

/// The `k` cells at the positions `c` of line `l` are unsolved and hold `k` digits between
/// them.
pub open spec fn is_naked_subset(s: Seq<Cell>, l: int, c: Seq<usize>, k: int) -> bool {
    &&& 0 <= l < 27
    &&& is_combination(c, 9, k)
    &&& forall|t: int| 0 <= t < k ==> !(#[trigger] s[line_cell(l, c[t] as int)]).solved()
    &&& union_count(s, l, c, 9) == k
}

/// The candidates below `m` of the cell at position `p` of line `l` that belong to the
/// subset `c` and that the cell can lose, each paired with the cell.
pub open spec fn naked_cell_elims(s: Seq<Cell>, l: int, c: Seq<usize>, p: int, m: int) -> Seq<
    (usize, u8),
>
    decreases m,
{
    if m <= 0 {
        Seq::empty()
    } else {
        naked_cell_elims(s, l, c, p, m - 1) + pair_if(
            !c.contains(p as usize) && union_has(s, l, c, m - 1) && s[line_cell(l, p)].has(m - 1),
            line_cell(l, p),
            m - 1,
        )
    }
}

/// The eliminations of the naked subset `c` of line `l` in the cells at positions below
/// `n`: the subset's digits, removed from the other cells of the line.
pub open spec fn naked_elims(s: Seq<Cell>, l: int, c: Seq<usize>, n: int) -> Seq<(usize, u8)>
    decreases n,
{
    if n <= 0 {
        Seq::empty()
    } else {
        naked_elims(s, l, c, n - 1) + naked_cell_elims(s, l, c, n - 1, 10)
    }
}

/// `step` eliminates what the naked subset `c` of line `l` allows and records the subset's
/// cells with their candidates.
pub open spec fn naked_subset_step(s: Seq<Cell>, l: int, c: Seq<usize>, k: int, step: Step) -> bool {
    &&& is_naked_subset(s, l, c, k)
    &&& step.placed() is None
    &&& step.elims() == naked_elims(s, l, c, 9)
    &&& step.elims().len() > 0
    &&& subset_locks(s, l, c, step.locks())
}

/// `locks` lists the cells at the positions `c` of line `l`, in order, each with its
/// candidates.
pub open spec fn subset_locks(s: Seq<Cell>, l: int, c: Seq<usize>, locks: Seq<(usize, Candidates)>) -> bool {
    &&& locks.len() == c.len()
    &&& forall|t: int|
        0 <= t < c.len() ==> (#[trigger] locks[t]).0 == line_cell(l, c[t] as int) && s[line_cell(
            l,
            c[t] as int,
        )].st() == CellState::Candidates(locks[t].1)
}

/// Finds `count` cells of a line whose candidates hold `count` digits between them; these
/// digits leave the other cells of the line.
#[derive(Debug)]
pub struct NakedSubset {
    count: usize,
}

/// The number of digits held by a set agrees with the union it stands for.
proof fn lemma_union_count(s: Seq<Cell>, l: int, c: Seq<usize>, u: Candidates, n: int)
    requires
        forall|d: int| 1 <= d <= 9 ==> #[trigger] u.has(d) == union_has(s, l, c, d),
        n <= 9,
    ensures
        u.count_upto(n) == union_count(s, l, c, n),
    decreases n,
{
    if n > 0 {
        lemma_union_count(s, l, c, u, n - 1);
    }
}

impl NakedSubset {
    /// The size of the subsets searched.
    pub closed spec fn size(&self) -> int {
        self.count as int
    }

    /// Creates a new Naked Subset for pairs.
    pub fn pair() -> (r: Self)
        ensures
            r.size() == 2,
    {
        Self { count: 2 }
    }

    /// Creates a new Naked Subset for triples.
    pub fn triple() -> (r: Self)
        ensures
            r.size() == 3,
    {
        Self { count: 3 }
    }

    /// Creates a new Naked Subset for quadruples.
    pub fn quadruple() -> (r: Self)
        ensures
            r.size() == 4,
    {
        Self { count: 4 }
    }

    /// Checks the cells at positions `c` of line `l`: returns whether all are unsolved, and
    /// the union of their candidates.
    fn subset_union(sudoku: &Sudoku, l: usize, c: &Vec<usize>) -> (r: (bool, Candidates))
        requires
            sudoku.wf(),
            l < 27,
            forall|t: int| 0 <= t < c@.len() ==> #[trigger] c@[t] < 9,
        ensures
            r.0 == forall|t: int|
                0 <= t < c@.len() ==> !(#[trigger] sudoku@[line_cell(l as int, c@[t] as int)]).solved(),
            forall|d: int| #[trigger] r.1.has(d) == union_has(sudoku@, l as int, c@, d),
    {
        let mut all_empty = true;
        let mut union = Candidates::empty();
        let mut t: usize = 0;
        while t < c.len()
            invariant
                t <= c@.len(),
                sudoku.wf(),
                l < 27,
                forall|t2: int| 0 <= t2 < c@.len() ==> #[trigger] c@[t2] < 9,
                all_empty == forall|t2: int|
                    0 <= t2 < t ==> !(#[trigger] sudoku@[line_cell(l as int, c@[t2] as int)]).solved(),
                forall|d: int|
                    #[trigger] union.has(d) == exists|t2: int|
                        0 <= t2 < t && #[trigger] sudoku@[line_cell(l as int, c@[t2] as int)].has(d),
            decreases c@.len() - t,
        {
            let cell = sudoku.get(line_index(l, c[t]));
            if !cell.is_empty() {
                all_empty = false;
            }
            let ghost prev = union;
            union = Candidates::union(&union, &cell.candidates());
            proof {
                assert forall|d: int| #[trigger] union.has(d) == exists|t2: int|
                    0 <= t2 < t + 1 && #[trigger] sudoku@[line_cell(l as int, c@[t2] as int)].has(
                        d,
                    ) by {
                    if union.has(d) && !prev.has(d) {
                        assert(sudoku@[line_cell(l as int, c@[t as int] as int)].has(d));
                    }
                }
            }
            t += 1;
        }
        (all_empty, union)
    }

    /// Returns the step of the naked subset `c` of line `l`, whose candidates are `union`.
    fn subset_step(sudoku: &Sudoku, l: usize, c: &Vec<usize>, union: &Candidates) -> (r: Step)
        requires
            sudoku.wf(),
            l < 27,
            forall|t: int| 0 <= t < c@.len() ==> #[trigger] c@[t] < 9,
            forall|t: int|
                0 <= t < c@.len() ==> !(#[trigger] sudoku@[line_cell(l as int, c@[t] as int)]).solved(),
            forall|d: int| #[trigger] union.has(d) == union_has(sudoku@, l as int, c@, d),
        ensures
            r.placed() is None,
            r.wf(),
            r.elims_held(sudoku@),
            r.elims() == naked_elims(sudoku@, l as int, c@, 9),
            subset_locks(sudoku@, l as int, c@, r.locks()),
    {
        let mut step = Step::new();
        let mut p: usize = 0;
        while p < 9
            invariant
                p <= 9,
                sudoku.wf(),
                l < 27,
                forall|d: int| #[trigger] union.has(d) == union_has(sudoku@, l as int, c@, d),
                step.placed() is None,
                step.wf(),
                step.elims_held(sudoku@),
                step.locks().len() == 0,
                step.elims() == naked_elims(sudoku@, l as int, c@, p as int),
            decreases 9 - p,
        {
            let i = line_index(l, p);
            let inside = combo_contains(c, p);
            let ghost base = step.elims();
            proof {
                assert(naked_cell_elims(sudoku@, l as int, c@, p as int, 0) =~= Seq::<
                    (usize, u8),
                >::empty());
                assert(naked_cell_elims(sudoku@, l as int, c@, p as int, 1) =~= Seq::<
                    (usize, u8),
                >::empty()) by {
                    assert(!sudoku@[line_cell(l as int, p as int)].has(0));
                }
                assert(step.elims() =~= base + naked_cell_elims(sudoku@, l as int, c@, p as int, 1));
            }
            let mut x: u8 = 1;
            while x <= 9
                invariant
                    1 <= x <= 10,
                    p < 9,
                    sudoku.wf(),
                    l < 27,
                    i == line_cell(l as int, p as int),
                    i < 81,
                    inside == c@.contains(p),
                    forall|d: int| #[trigger] union.has(d) == union_has(sudoku@, l as int, c@, d),
                    step.placed() is None,
                    step.wf(),
                    step.elims_held(sudoku@),
                    step.locks().len() == 0,
                    step.elims() == base + naked_cell_elims(sudoku@, l as int, c@, p as int, x as int),
                decreases 10 - x,
            {
                if !inside && union.get(x) && sudoku.get(i).has_candidate(x) {
                    step.eliminate_candidate(i, x);
                }
                proof {
                    assert(step.elims() =~= base + naked_cell_elims(
                        sudoku@,
                        l as int,
                        c@,
                        p as int,
                        x + 1,
                    ));
                }
                x += 1;
            }
            proof {
                assert(step.elims() =~= naked_elims(sudoku@, l as int, c@, p + 1));
            }
            p += 1;
        }
        let mut t: usize = 0;
        while t < c.len()
            invariant
                t <= c@.len(),
                sudoku.wf(),
                l < 27,
                forall|t2: int| 0 <= t2 < c@.len() ==> #[trigger] c@[t2] < 9,
                forall|t2: int|
                    0 <= t2 < c@.len() ==> !(#[trigger] sudoku@[line_cell(l as int, c@[t2] as int)]).solved(),
                step.placed() is None,
                step.wf(),
                step.elims_held(sudoku@),
                step.elims() == naked_elims(sudoku@, l as int, c@, 9),
                step.locks().len() == t,
                forall|t2: int|
                    0 <= t2 < t ==> (#[trigger] step.locks()[t2]).0 == line_cell(l as int, c@[t2] as int)
                        && sudoku@[line_cell(l as int, c@[t2] as int)].st() == CellState::Candidates(
                        step.locks()[t2].1,
                    ),
            decreases c@.len() - t,
        {
            let i = line_index(l, c[t]);
            let cell = sudoku.get(i);
            proof {
                assert(!sudoku@[line_cell(l as int, c@[t as int] as int)].solved());
            }
            step.lock_candidate(i, cell.candidates());
            t += 1;
        }
        step
    }

    /// Searches line `l` for a subset of the combinations `combos`, in their order, whose step
    /// eliminates something.
    fn find_tuple(&self, sudoku: &Sudoku, l: usize, combos: &Vec<Vec<usize>>) -> (r: Option<Step>)
        requires
            sudoku.wf(),
            l < 27,
            forall|j: int| 0 <= j < combos@.len() ==> is_combination(#[trigger] combos@[j]@, 9, self.size()),
            forall|c: Seq<usize>| is_combination(c, 9, self.size()) ==> exists|j: int|
                0 <= j < combos@.len() && #[trigger] combos@[j]@ == c,
            forall|j1: int, j2: int| 0 <= j1 < j2 < combos@.len() ==> lex_less(#[trigger] combos@[j1]@, #[trigger] combos@[j2]@),
        ensures
            r is None <==> forall|c: Seq<usize>|
                is_naked_subset(sudoku@, l as int, c, self.size()) ==> naked_elims(sudoku@, l as int, c, 9).len() == 0,
            r matches Some(st) ==> exists|c: Seq<usize>| #[trigger] naked_subset_step(sudoku@, l as int, c, self.size(), st)
                && forall|c2: Seq<usize>| lex_less(c2, c) && is_naked_subset(sudoku@, l as int, c2, self.size())
                    ==> naked_elims(sudoku@, l as int, c2, 9).len() == 0,
            r matches Some(st) ==> st.wf() && st.progresses(sudoku@),
    {
        let mut j: usize = 0;
        while j < combos.len()
            invariant
                j <= combos@.len(),
                l < 27,
                sudoku.wf(),
                forall|j2: int| 0 <= j2 < combos@.len() ==> is_combination(#[trigger] combos@[j2]@, 9, self.size()),
                forall|c: Seq<usize>| is_combination(c, 9, self.size()) ==> exists|j2: int|
                    0 <= j2 < combos@.len() && #[trigger] combos@[j2]@ == c,
                forall|j1: int, j2: int| 0 <= j1 < j2 < combos@.len() ==> lex_less(#[trigger] combos@[j1]@, #[trigger] combos@[j2]@),
                forall|j2: int|
                    0 <= j2 < j && is_naked_subset(sudoku@, l as int, #[trigger] combos@[j2]@, self.size())
                        ==> naked_elims(sudoku@, l as int, combos@[j2]@, 9).len() == 0,
            decreases combos@.len() - j,
        {
            let c = &combos[j];
            proof {
                assert(is_combination(combos@[j as int]@, 9, self.size()));
            }
            let (all_empty, union) = Self::subset_union(sudoku, l, c);
            if all_empty && union.count() == self.count {
                let step = Self::subset_step(sudoku, l, c, &union);
                proof {
                    lemma_union_count(sudoku@, l as int, c@, union, 9);
                }
                if step.eliminated_candidates().len() > 0 {
                    proof {
                        assert(naked_subset_step(sudoku@, l as int, c@, self.size(), step));
                        assert(step.elims_held(sudoku@));
                        let e = step.elims()[0];
                        assert(sudoku@[e.0 as int].has(e.1 as int));
                        assert(step.progresses(sudoku@));
                        assert(step.wf());
                        assert(is_naked_subset(sudoku@, l as int, c@, self.size()));
                        assert(naked_elims(sudoku@, l as int, c@, 9).len() > 0);
                    }
                    proof {
                        assert forall|c2: Seq<usize>| lex_less(c2, c@) && is_naked_subset(sudoku@, l as int, c2, self.size())
                            implies naked_elims(sudoku@, l as int, c2, 9).len() == 0 by {
                            let j2 = choose|j2: int| 0 <= j2 < combos@.len() && #[trigger] combos@[j2]@ == c2;
                            if j2 > j {
                                assert(lex_less(combos@[j as int]@, combos@[j2]@));
                                lemma_lex_asymmetric(combos@[j as int]@, combos@[j2]@);
                            }
                        }
                    }
                    let res = Some(step);
                    proof {
                        assert(res->0.locks() == step.locks());
                    }
                    return res;
                }
            } else {
                proof {
                    if all_empty {
                        lemma_union_count(sudoku@, l as int, c@, union, 9);
                    }
                }
            }
            j += 1;
        }
        proof {
            assert forall|c: Seq<usize>| is_naked_subset(sudoku@, l as int, c, self.size()) implies naked_elims(
                sudoku@,
                l as int,
                c,
                9,
            ).len() == 0 by {
                let j2 = choose|j2: int| 0 <= j2 < combos@.len() && #[trigger] combos@[j2]@ == c;
            }
        }
        None
    }
}

impl Strategy for NakedSubset {
    fn find(&self, sudoku: &Sudoku) -> (r: Option<Step>)
        ensures
            r is None <==> forall|l: int, c: Seq<usize>|
                is_naked_subset(sudoku@, l, c, self.size()) ==> naked_elims(sudoku@, l, c, 9).len()
                    == 0,
            r matches Some(st) ==> exists|l: int, c: Seq<usize>|
                #[trigger] naked_subset_step(sudoku@, l, c, self.size(), st) && forall|l2: int, c2: Seq<usize>|
                    (l2 < l || (l2 == l && lex_less(c2, c))) && is_naked_subset(sudoku@, l2, c2, self.size())
                        ==> naked_elims(sudoku@, l2, c2, 9).len() == 0,
    {
        let combos = combinations(9, self.count);
        let mut l: usize = 0;
        while l < 27
            invariant
                l <= 27,
                sudoku.wf(),
                forall|j: int| 0 <= j < combos@.len() ==> is_combination(#[trigger] combos@[j]@, 9, self.size()),
                forall|c: Seq<usize>| is_combination(c, 9, self.size()) ==> exists|j: int|
                    0 <= j < combos@.len() && #[trigger] combos@[j]@ == c,
                forall|j1: int, j2: int| 0 <= j1 < j2 < combos@.len() ==> lex_less(#[trigger] combos@[j1]@, #[trigger] combos@[j2]@),
                forall|l2: int, c: Seq<usize>|
                    l2 < l && is_naked_subset(sudoku@, l2, c, self.size()) ==> naked_elims(sudoku@, l2, c, 9).len() == 0,
            decreases 27 - l,
        {
            let found = self.find_tuple(sudoku, l, &combos);
            if found.is_some() {
                return found;
            }
            proof {
                assert forall|l2: int, c: Seq<usize>|
                    l2 < l + 1 && is_naked_subset(sudoku@, l2, c, self.size()) implies naked_elims(sudoku@, l2, c, 9).len() == 0 by {}
            }
            l += 1;
        }
        None
    }

    fn name(&self) -> (r: String)
        ensures
            r@ == "Naked Subset"@,
    {
        "Naked Subset".to_owned()
    }
}

} // verus!
