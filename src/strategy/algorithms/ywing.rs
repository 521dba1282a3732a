use vstd::prelude::*;

use crate::candidates::{lemma_digits, Candidates};
use crate::cell::{Cell, CellState};
use crate::strategy::step::{pair_if, Step};
use crate::strategy::Strategy;
use crate::sudoku::Sudoku;
use crate::types::{cells_see, sees};

verus! {

/// Cell `i` is unsolved with exactly two candidates.
pub open spec fn is_bivalue(s: Seq<Cell>, i: int) -> bool {
    !s[i].solved() && s[i].count() == 2
}

/// The number of digits among `1..=n` that cells `a` and `b` both hold.
pub open spec fn shared_count(s: Seq<Cell>, a: int, b: int, n: int) -> nat
    decreases n,
{
    if n <= 0 {
        0
    } else {
        shared_count(s, a, b, n - 1) + if s[a].has(n) && s[b].has(n) {
            1nat
        } else {
            0nat
        }
    }
}

/// Pivot `p` with candidates `x < y` sees the pincers `a`, holding `x`, and `b`, holding
/// `y`; the pincers do not see each other, are bivalue, and share the one digit `z`, which
/// `p` lacks.
pub open spec fn is_ywing(s: Seq<Cell>, p: int, a: int, b: int, z: int) -> bool {
    &&& 0 <= p < 81
    &&& 0 <= a < 81
    &&& 0 <= b < 81
    &&& is_bivalue(s, p)
    &&& is_bivalue(s, a)
    &&& is_bivalue(s, b)
    &&& a != b
    &&& sees(a, p)
    &&& sees(b, p)
    &&& !sees(a, b)
    &&& s[a].has(s[p].st().digits()[0] as int)
    &&& s[b].has(s[p].st().digits()[1] as int)
    &&& shared_count(s, a, b, 9) == 1
    &&& s[a].has(z)
    &&& s[b].has(z)
    &&& !s[p].has(z)
}

/// The eliminations of the Y-Wing among cells below `n`: candidate `z` of each cell other
/// than the pivot that sees both pincers.
pub open spec fn ywing_elims(s: Seq<Cell>, p: int, a: int, b: int, z: int, n: int) -> Seq<(usize, u8)>
    decreases n,
{
    if n <= 0 {
        Seq::empty()
    } else {
        ywing_elims(s, p, a, b, z, n - 1) + pair_if(
            n - 1 != p && s[n - 1].has(z) && sees(n - 1, a) && sees(n - 1, b),
            n - 1,
            z,
        )
    }
}

/// The cells among the first `n` that are `p`, `a` or `b`, ascending.
pub open spec fn trio_cells(p: int, a: int, b: int, n: int) -> Seq<usize>
    decreases n,
{
    if n <= 0 {
        Seq::empty()
    } else if n - 1 == p || n - 1 == a || n - 1 == b {
        trio_cells(p, a, b, n - 1).push((n - 1) as usize)
    } else {
        trio_cells(p, a, b, n - 1)
    }
}

/// `locks` lists the cells `cells` in order, each with its candidates on board `s`.
pub open spec fn cell_locks(s: Seq<Cell>, cells: Seq<usize>, locks: Seq<(usize, Candidates)>) -> bool {
    &&& locks.len() == cells.len()
    &&& forall|q: int|
        0 <= q < cells.len() ==> (#[trigger] locks[q]).0 == cells[q] && s[cells[q] as int].st()
            == CellState::Candidates(locks[q].1)
}

/// `step` eliminates what the Y-Wing allows and records its three cells.
pub open spec fn ywing_step(s: Seq<Cell>, p: int, a: int, b: int, z: int, step: Step) -> bool {
    &&& is_ywing(s, p, a, b, z)
    &&& step.placed() is None
    &&& step.elims() == ywing_elims(s, p, a, b, z, 81)
    &&& step.elims().len() > 0
    &&& cell_locks(s, trio_cells(p, a, b, 81), step.locks())
}

/// Finds a Y-Wing: a bivalue pivot and two bivalue pincers.
pub struct YWing {}

impl YWing {
    pub fn new() -> Self {
        Self {  }
    }

    /// Builds the step of the Y-Wing with pivot `p`, pincers `a` and `b`, on digit `z`.
    fn build(sudoku: &Sudoku, p: usize, a: usize, b: usize, z: u8) -> (r: Step)
        requires
            sudoku.wf(),
            p < 81,
            a < 81,
            b < 81,
            1 <= z <= 9,
            !sudoku@[p as int].solved(),
            !sudoku@[a as int].solved(),
            !sudoku@[b as int].solved(),
        ensures
            r.placed() is None,
            r.wf(),
            r.elims_held(sudoku@),
            r.elims() == ywing_elims(sudoku@, p as int, a as int, b as int, z as int, 81),
            cell_locks(sudoku@, trio_cells(p as int, a as int, b as int, 81), r.locks()),
    {
        let mut step = Step::new();
        let mut j: usize = 0;
        while j < 81
            invariant
                j <= 81,
                sudoku.wf(),
                p < 81,
                a < 81,
                b < 81,
                1 <= z <= 9,
                !sudoku@[p as int].solved(),
                !sudoku@[a as int].solved(),
                !sudoku@[b as int].solved(),
                step.placed() is None,
                step.wf(),
                step.elims_held(sudoku@),
                step.elims() == ywing_elims(sudoku@, p as int, a as int, b as int, z as int, j as int),
                cell_locks(sudoku@, trio_cells(p as int, a as int, b as int, j as int), step.locks()),
            decreases 81 - j,
        {
            let ghost before = step.locks();
            let cell = sudoku.get(j);
            if j != p && cell.has_candidate(z) && cells_see(j, a) && cells_see(j, b) {
                step.eliminate_candidate(j, z);
            }
            if j == p || j == a || j == b {
                step.lock_candidate(j, cell.candidates());
            }
            proof {
                assert(step.elims() =~= ywing_elims(sudoku@, p as int, a as int, b as int, z as int, j + 1));
                let cells = trio_cells(p as int, a as int, b as int, j + 1);
                assert forall|q: int| 0 <= q < cells.len() implies (#[trigger] step.locks()[q]).0 == cells[q]
                    && sudoku@[cells[q] as int].st() == CellState::Candidates(step.locks()[q].1) by {
                    if q < before.len() {
                        assert(step.locks()[q] == before[q]);
                    }
                }
            }
            j += 1;
        }
        step
    }
}

impl Strategy for YWing {
    fn find(&self, sudoku: &Sudoku) -> (r: Option<Step>)
        ensures
            r is None <==> forall|p: int, a: int, b: int, z: int|
                is_ywing(sudoku@, p, a, b, z) ==> ywing_elims(sudoku@, p, a, b, z, 81).len() == 0,
            r matches Some(st) ==> exists|p: int, a: int, b: int, z: int|
                #[trigger] ywing_step(sudoku@, p, a, b, z, st) && forall|pv: int, a2: int, b2: int, z2: int|
                    (pv < p || (pv == p && a2 < a) || (pv == p && a2 == a && b2 < b)) && is_ywing(sudoku@, pv, a2, b2, z2)
                        ==> ywing_elims(sudoku@, pv, a2, b2, z2, 81).len() == 0,
    {
        let mut p: usize = 0;
        while p < 81
            invariant
                p <= 81,
                sudoku.wf(),
                forall|pv: int, a: int, b: int, z: int|
                    pv < p && is_ywing(sudoku@, pv, a, b, z) ==> ywing_elims(sudoku@, pv, a, b, z, 81).len() == 0,
            decreases 81 - p,
        {
            let pivot = sudoku.get(p);
            let pc = pivot.candidates();
            if pivot.is_empty() && pc.count() == 2 {
                let digits = pivot.candidates_vec();
                proof {
                    lemma_digits(pc, 9);
                }
                proof {
                    assert(digits@ == pc.digits());
                    assert(pc.digits().len() == 2);
                    assert(1 <= pc.digits()[0] <= 9);
                    assert(1 <= pc.digits()[1] <= 9);
                }
                let x = digits[0];
                let y = digits[1];
                let mut a: usize = 0;
                while a < 81
                    invariant
                        a <= 81,
                        p < 81,
                        sudoku.wf(),
                        is_bivalue(sudoku@, p as int),
                        sudoku@[p as int].st().digits().len() == 2,
                        x == sudoku@[p as int].st().digits()[0],
                        y == sudoku@[p as int].st().digits()[1],
                        1 <= x <= 9,
                        1 <= y <= 9,
                        *pivot == sudoku@[p as int],
                        forall|pv: int, a2: int, b: int, z: int|
                            pv < p && is_ywing(sudoku@, pv, a2, b, z) ==> ywing_elims(sudoku@, pv, a2, b, z, 81).len() == 0,
                        forall|a2: int, b: int, z: int|
                            a2 < a && is_ywing(sudoku@, p as int, a2, b, z) ==> ywing_elims(sudoku@, p as int, a2, b, z, 81).len() == 0,
                    decreases 81 - a,
                {
                    let lhs = sudoku.get(a);
                    if a != p && lhs.is_empty() && lhs.candidates().count() == 2 && cells_see(a, p) && lhs.has_candidate(x) {
                        let mut b: usize = 0;
                        while b < 81
                            invariant
                                b <= 81,
                                a < 81,
                                p < 81,
                                sudoku.wf(),
                                is_bivalue(sudoku@, p as int),
                                is_bivalue(sudoku@, a as int),
                                sudoku@[p as int].st().digits().len() == 2,
                                x == sudoku@[p as int].st().digits()[0],
                                y == sudoku@[p as int].st().digits()[1],
                                1 <= x <= 9,
                                1 <= y <= 9,
                                *pivot == sudoku@[p as int],
                                *lhs == sudoku@[a as int],
                                a != p,
                                sees(a as int, p as int),
                                sudoku@[a as int].has(x as int),
                                forall|pv: int, a2: int, b2: int, z: int|
                                    pv < p && is_ywing(sudoku@, pv, a2, b2, z) ==> ywing_elims(sudoku@, pv, a2, b2, z, 81).len() == 0,
                                forall|a2: int, b2: int, z: int|
                                    a2 < a && is_ywing(sudoku@, p as int, a2, b2, z) ==> ywing_elims(sudoku@, p as int, a2, b2, z, 81).len() == 0,
                                forall|b2: int, z: int|
                                    b2 < b && is_ywing(sudoku@, p as int, a as int, b2, z) ==> ywing_elims(sudoku@, p as int, a as int, b2, z, 81).len() == 0,
                            decreases 81 - b,
                        {
                            let rhs = sudoku.get(b);
                            if b != p && b != a && rhs.is_empty() && rhs.candidates().count() == 2
                                && cells_see(b, p) && !cells_see(a, b) && rhs.has_candidate(y) {
                                let shared = Candidates::intersect(&lhs.candidates(), &rhs.candidates());
                                proof {
                                    lemma_shared(sudoku@, a as int, b as int, shared, 9);
                                }
                                if shared.count() == 1 {
                                    let zs = shared.iter();
                                    proof {
                                        lemma_digits(shared, 9);
                                    }
                                    let z = zs[0];
                                    proof {
                                        assert(zs@ == shared.digits());
                                        assert(1 <= z <= 9);
                                        assert(shared.has(z as int));
                                        assert forall|z2: int| is_ywing(sudoku@, p as int, a as int, b as int, z2) implies z2 == z by {
                                            assert(shared.has(z2));
                                            assert(zs@.contains(z2 as u8));
                                        }
                                    }
                                    if !pivot.has_candidate(z) {
                                        let step = Self::build(sudoku, p, a, b, z);
                                        if step.eliminated_candidates().len() > 0 {
                                            proof {
                                                assert(is_ywing(sudoku@, p as int, a as int, b as int, z as int));
                                                assert(ywing_step(sudoku@, p as int, a as int, b as int, z as int, step));
                                                let e = step.elims()[0];
                                                assert(sudoku@[e.0 as int].has(e.1 as int));
                                            }
                                            let res = Some(step);
                                            proof {
                                                assert(res->0.locks() == step.locks());
                                            }
                                            return res;
                                        }
                                    }
                                }
                            }
                            b += 1;
                        }
                    }
                    a += 1;
                }
            }
            p += 1;
        }
        None
    }

    fn name(&self) -> (r: String)
        ensures
            r@ == "YWing"@,
    {
        "YWing".to_owned()
    }
}

/// The number of digits that two cells share agrees with their intersection.
proof fn lemma_shared(s: Seq<Cell>, a: int, b: int, shared: Candidates, n: int)
    requires
        forall|d: int| #[trigger] shared.has(d) == (s[a].has(d) && s[b].has(d)),
        n <= 9,
    ensures
        shared.count_upto(n) == shared_count(s, a, b, n),
    decreases n,
{
    if n > 0 {
        lemma_shared(s, a, b, shared, n - 1);
    }
}

} // verus!
