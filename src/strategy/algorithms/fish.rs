use vstd::prelude::*;

use crate::candidates::Candidates;
use crate::cell::Cell;
use crate::strategy::algorithms::hidden_single::{count_in_line, in_line, line_count};
use crate::strategy::algorithms::{combinations, combo_contains, is_combination, lemma_lex_asymmetric, lex_less};
use crate::strategy::step::{pair_if, Step};
use crate::sudoku::Sudoku;
use crate::types::{col_index, col_of, line_cell, line_index, row_index, row_of};

verus! {

/// The line of base number `b`: row `b` when the base lines are rows, else column `b`.
pub open spec fn base_line(by_rows: bool, b: int) -> int {
    if by_rows {
        b
    } else {
        9 + b
    }
}

/// The base number of cell `j`: its row when the base lines are rows, else its column.
pub open spec fn base_of(by_rows: bool, j: int) -> int {
    if by_rows {
        row_of(j)
    } else {
        col_of(j)
    }
}

/// The cover number of cell `j`: its column when the base lines are rows, else its row.
pub open spec fn cover_of(by_rows: bool, j: int) -> int {
    if by_rows {
        col_of(j)
    } else {
        row_of(j)
    }
}

/// The number of base lines among the first `m` of `c` that have candidate `d` at position
/// `p`.
pub open spec fn lines_at(s: Seq<Cell>, by_rows: bool, d: int, c: Seq<usize>, p: int, m: int) -> nat
    decreases m,
{
    if m <= 0 {
        0
    } else {
        lines_at(s, by_rows, d, c, p, m - 1) + if in_line(
            s,
            base_line(by_rows, c[m - 1] as int),
            p,
            d,
        ) {
            1nat
        } else {
            0nat
        }
    }
}

/// Position `p` is a cover line of the fish: some base line of `c` has candidate `d` there.
pub open spec fn is_cover(s: Seq<Cell>, by_rows: bool, d: int, c: Seq<usize>, p: int) -> bool {
    lines_at(s, by_rows, d, c, p, c.len() as int) > 0
}

/// The number of cover lines below `n`.
pub open spec fn cover_lines(s: Seq<Cell>, by_rows: bool, d: int, c: Seq<usize>, n: int) -> nat
    decreases n,
{
    if n <= 0 {
        0
    } else {
        cover_lines(s, by_rows, d, c, n - 1) + if is_cover(s, by_rows, d, c, n - 1) {
            1nat
        } else {
            0nat
        }
    }
}

/// The `k` base lines `c` hold candidate `d` at least twice each, their candidates lie in
/// exactly `k` cover lines, and each cover line meets them at least twice.
pub open spec fn is_fish(s: Seq<Cell>, by_rows: bool, d: int, c: Seq<usize>, k: int) -> bool {
    &&& 1 <= d <= 9
    &&& is_combination(c, 9, k)
    &&& forall|t: int| 0 <= t < k ==> #[trigger] line_count(s, base_line(by_rows, c[t] as int), d, 9) >= 2
    &&& cover_lines(s, by_rows, d, c, 9) == k
    &&& forall|p: int| 0 <= p < 9 ==> #[trigger] lines_at(s, by_rows, d, c, p, k) != 1
}

/// The eliminations of the fish among cells below `n`: candidate `d` of each cell outside
/// the base lines that lies on a cover line.
pub open spec fn fish_elims(s: Seq<Cell>, by_rows: bool, d: int, c: Seq<usize>, n: int) -> Seq<
    (usize, u8),
>
    decreases n,
{
    if n <= 0 {
        Seq::empty()
    } else {
        fish_elims(s, by_rows, d, c, n - 1) + pair_if(
            s[n - 1].has(d) && !c.contains(base_of(by_rows, n - 1) as usize) && is_cover(
                s,
                by_rows,
                d,
                c,
                cover_of(by_rows, n - 1),
            ),
            n - 1,
            d,
        )
    }
}

/// The cells of the fish below `n`: those of the base lines with candidate `d`, ascending.
pub open spec fn fish_cells(s: Seq<Cell>, by_rows: bool, d: int, c: Seq<usize>, n: int) -> Seq<
    usize,
>
    decreases n,
{
    if n <= 0 {
        Seq::empty()
    } else if s[n - 1].has(d) && c.contains(base_of(by_rows, n - 1) as usize) {
        fish_cells(s, by_rows, d, c, n - 1).push((n - 1) as usize)
    } else {
        fish_cells(s, by_rows, d, c, n - 1)
    }
}

/// `locks` lists the cells `cells` in order, each with the single digit `d`.
pub open spec fn single_locks(cells: Seq<usize>, d: int, locks: Seq<(usize, Candidates)>) -> bool {
    &&& locks.len() == cells.len()
    &&& forall|q: int|
        0 <= q < cells.len() ==> (#[trigger] locks[q]).0 == cells[q] && forall|x: int|
            #[trigger] locks[q].1.has(x) == (x == d)
}

/// `step` eliminates what the fish on digit `d` with base lines `c` allows and records the
/// fish's cells.
pub open spec fn fish_step(s: Seq<Cell>, by_rows: bool, d: int, c: Seq<usize>, k: int, step: Step) -> bool {
    &&& is_fish(s, by_rows, d, c, k)
    &&& step.placed() is None
    &&& step.elims() == fish_elims(s, by_rows, d, c, 81)
    &&& step.elims().len() > 0
    &&& single_locks(fish_cells(s, by_rows, d, c, 81), d, step.locks())
}

/// Counts, for each position `p`, the base lines of `c` with candidate `d` there.
fn count_lines(sudoku: &Sudoku, by_rows: bool, d: u8, c: &Vec<usize>) -> (r: Vec<usize>)
    requires
        sudoku.wf(),
        1 <= d <= 9,
        forall|t: int| 0 <= t < c@.len() ==> #[trigger] c@[t] < 9,
    ensures
        r@.len() == 9,
        forall|p: int| 0 <= p < 9 ==> #[trigger] r@[p] == lines_at(sudoku@, by_rows, d as int, c@, p, c@.len() as int),
{
    let mut counts: Vec<usize> = Vec::new();
    let mut p: usize = 0;
    while p < 9
        invariant
            p <= 9,
            sudoku.wf(),
            1 <= d <= 9,
            forall|t: int| 0 <= t < c@.len() ==> #[trigger] c@[t] < 9,
            counts@.len() == p,
            forall|q2: int| 0 <= q2 < p ==> #[trigger] counts@[q2] == lines_at(sudoku@, by_rows, d as int, c@, q2, c@.len() as int),
        decreases 9 - p,
    {
        let mut n: usize = 0;
        let mut t: usize = 0;
        while t < c.len()
            invariant
                t <= c@.len(),
                p < 9,
                sudoku.wf(),
                1 <= d <= 9,
                forall|t2: int| 0 <= t2 < c@.len() ==> #[trigger] c@[t2] < 9,
                n == lines_at(sudoku@, by_rows, d as int, c@, p as int, t as int),
                n <= t,
            decreases c@.len() - t,
        {
            let l = if by_rows { c[t] } else { 9 + c[t] };
            if sudoku.get(line_index(l, p)).has_candidate(d) {
                n += 1;
            }
            t += 1;
        }
        counts.push(n);
        p += 1;
    }
    counts
}

/// Checks the base lines `c` for a fish on digit `d`.
fn fish_shape(sudoku: &Sudoku, by_rows: bool, d: u8, c: &Vec<usize>, counts: &Vec<usize>) -> (r: bool)
    requires
        sudoku.wf(),
        1 <= d <= 9,
        forall|t: int| 0 <= t < c@.len() ==> #[trigger] c@[t] < 9,
        counts@.len() == 9,
        forall|p: int| 0 <= p < 9 ==> #[trigger] counts@[p] == lines_at(sudoku@, by_rows, d as int, c@, p, c@.len() as int),
    ensures
        r == ((forall|t: int| 0 <= t < c@.len() ==> #[trigger] line_count(sudoku@, base_line(by_rows, c@[t] as int), d as int, 9) >= 2)
            && cover_lines(sudoku@, by_rows, d as int, c@, 9) == c@.len()
            && forall|p: int| 0 <= p < 9 ==> #[trigger] lines_at(sudoku@, by_rows, d as int, c@, p, c@.len() as int) != 1),
{
    let mut t: usize = 0;
    while t < c.len()
        invariant
            t <= c@.len(),
            sudoku.wf(),
            1 <= d <= 9,
            forall|t2: int| 0 <= t2 < c@.len() ==> #[trigger] c@[t2] < 9,
            forall|t2: int| 0 <= t2 < t ==> #[trigger] line_count(sudoku@, base_line(by_rows, c@[t2] as int), d as int, 9) >= 2,
        decreases c@.len() - t,
    {
        let l = if by_rows { c[t] } else { 9 + c[t] };
        let (n, _) = count_in_line(sudoku, l, d);
        proof {
            assert(l == base_line(by_rows, c@[t as int] as int));
        }
        if n < 2 {
            proof {
                assert(line_count(sudoku@, base_line(by_rows, c@[t as int] as int), d as int, 9) < 2);
            }
            return false;
        }
        t += 1;
    }
    let mut covered: usize = 0;
    let mut p: usize = 0;
    while p < 9
        invariant
            p <= 9,
            counts@.len() == 9,
            forall|q2: int| 0 <= q2 < 9 ==> #[trigger] counts@[q2] == lines_at(sudoku@, by_rows, d as int, c@, q2, c@.len() as int),
            covered == cover_lines(sudoku@, by_rows, d as int, c@, p as int),
            covered <= p,
            forall|q2: int| 0 <= q2 < p ==> #[trigger] lines_at(sudoku@, by_rows, d as int, c@, q2, c@.len() as int) != 1,
        decreases 9 - p,
    {
        if counts[p] == 1 {
            return false;
        }
        if counts[p] > 0 {
            covered += 1;
        }
        p += 1;
    }
    covered == c.len()
}

/// Builds the step of the fish on digit `d` with base lines `c`.
fn fish_build(sudoku: &Sudoku, by_rows: bool, d: u8, c: &Vec<usize>, counts: &Vec<usize>) -> (r: Step)
    requires
        sudoku.wf(),
        1 <= d <= 9,
        counts@.len() == 9,
        forall|p: int| 0 <= p < 9 ==> #[trigger] counts@[p] == lines_at(sudoku@, by_rows, d as int, c@, p, c@.len() as int),
    ensures
        r.placed() is None,
        r.wf(),
        r.elims_held(sudoku@),
        r.elims() == fish_elims(sudoku@, by_rows, d as int, c@, 81),
        single_locks(fish_cells(sudoku@, by_rows, d as int, c@, 81), d as int, r.locks()),
{
    let mut step = Step::new();
    let mut j: usize = 0;
    while j < 81
        invariant
            j <= 81,
            sudoku.wf(),
            1 <= d <= 9,
            counts@.len() == 9,
            forall|p: int| 0 <= p < 9 ==> #[trigger] counts@[p] == lines_at(sudoku@, by_rows, d as int, c@, p, c@.len() as int),
            step.placed() is None,
            step.wf(),
            step.elims_held(sudoku@),
            step.elims() == fish_elims(sudoku@, by_rows, d as int, c@, j as int),
            single_locks(fish_cells(sudoku@, by_rows, d as int, c@, j as int), d as int, step.locks()),
        decreases 81 - j,
    {
        let base = if by_rows { row_index(j) } else { col_index(j) };
        let cover = if by_rows { col_index(j) } else { row_index(j) };
        let ghost before = step.locks();
        if sudoku.get(j).has_candidate(d) {
            if combo_contains(c, base) {
                step.lock_candidate(j, Candidates::single(d));
            } else if counts[cover] > 0 {
                step.eliminate_candidate(j, d);
            }
        }
        proof {
            assert(step.elims() =~= fish_elims(sudoku@, by_rows, d as int, c@, j + 1));
            let cells = fish_cells(sudoku@, by_rows, d as int, c@, j + 1);
            assert forall|q: int| 0 <= q < cells.len() implies (#[trigger] step.locks()[q]).0 == cells[q] && forall|x: int|
                #[trigger] step.locks()[q].1.has(x) == (x == d) by {
                if q < before.len() {
                    assert(step.locks()[q] == before[q]);
                }
            }
        }
        j += 1;
    }
    step
}

/// Finds a fish of `size` base lines: rows when `by_rows`, else columns.
pub fn find_fish(size: usize, sudoku: &Sudoku, by_rows: bool) -> (r: Option<Step>)
    requires
        sudoku.wf(),
    ensures
        r is None <==> forall|d: int, c: Seq<usize>|
            is_fish(sudoku@, by_rows, d, c, size as int) ==> fish_elims(sudoku@, by_rows, d, c, 81).len() == 0,
        r matches Some(st) ==> exists|d: int, c: Seq<usize>|
            #[trigger] fish_step(sudoku@, by_rows, d, c, size as int, st) && forall|d2: int, c2: Seq<usize>|
                (d2 < d || (d2 == d && lex_less(c2, c))) && is_fish(sudoku@, by_rows, d2, c2, size as int)
                    ==> fish_elims(sudoku@, by_rows, d2, c2, 81).len() == 0,
        r matches Some(st) ==> st.wf() && st.progresses(sudoku@),
{
    let combos = combinations(9, size);
    let mut d: u8 = 1;
    while d <= 9
        invariant
            1 <= d <= 10,
            sudoku.wf(),
            forall|j: int| 0 <= j < combos@.len() ==> is_combination(#[trigger] combos@[j]@, 9, size as int),
            forall|c: Seq<usize>| is_combination(c, 9, size as int) ==> exists|j: int|
                0 <= j < combos@.len() && #[trigger] combos@[j]@ == c,
            forall|j1: int, j2: int| 0 <= j1 < j2 < combos@.len() ==> lex_less(#[trigger] combos@[j1]@, #[trigger] combos@[j2]@),
            forall|d2: int, c: Seq<usize>|
                d2 < d && is_fish(sudoku@, by_rows, d2, c, size as int) ==> fish_elims(sudoku@, by_rows, d2, c, 81).len() == 0,
        decreases 10 - d,
    {
        let mut j: usize = 0;
        while j < combos.len()
            invariant
                j <= combos@.len(),
                1 <= d <= 9,
                sudoku.wf(),
                forall|j2: int| 0 <= j2 < combos@.len() ==> is_combination(#[trigger] combos@[j2]@, 9, size as int),
                forall|c: Seq<usize>| is_combination(c, 9, size as int) ==> exists|j2: int|
                    0 <= j2 < combos@.len() && #[trigger] combos@[j2]@ == c,
                forall|j1: int, j2: int| 0 <= j1 < j2 < combos@.len() ==> lex_less(#[trigger] combos@[j1]@, #[trigger] combos@[j2]@),
                forall|d2: int, c: Seq<usize>|
                    d2 < d && is_fish(sudoku@, by_rows, d2, c, size as int) ==> fish_elims(sudoku@, by_rows, d2, c, 81).len() == 0,
                forall|j2: int|
                    0 <= j2 < j && is_fish(sudoku@, by_rows, d as int, #[trigger] combos@[j2]@, size as int)
                        ==> fish_elims(sudoku@, by_rows, d as int, combos@[j2]@, 81).len() == 0,
            decreases combos@.len() - j,
        {
            let c = &combos[j];
            proof {
                assert(is_combination(combos@[j as int]@, 9, size as int));
            }
            let counts = count_lines(sudoku, by_rows, d, c);
            if fish_shape(sudoku, by_rows, d, c, &counts) {
                let step = fish_build(sudoku, by_rows, d, c, &counts);
                if step.eliminated_candidates().len() > 0 {
                    proof {
                        assert(fish_step(sudoku@, by_rows, d as int, c@, size as int, step));
                        let e = step.elims()[0];
                        assert(sudoku@[e.0 as int].has(e.1 as int));
                    }
                    proof {
                        assert forall|d2: int, c2: Seq<usize>|
                            (d2 < d || (d2 == d && lex_less(c2, c@))) && is_fish(sudoku@, by_rows, d2, c2, size as int)
                            implies fish_elims(sudoku@, by_rows, d2, c2, 81).len() == 0 by {
                            if d2 == d {
                                let j2 = choose|j2: int| 0 <= j2 < combos@.len() && #[trigger] combos@[j2]@ == c2;
                                if j2 > j {
                                    assert(lex_less(combos@[j as int]@, combos@[j2]@));
                                    lemma_lex_asymmetric(combos@[j as int]@, combos@[j2]@);
                                }
                            }
                        }
                    }
                    let res = Some(step);
                    proof {
                        assert(res->0.locks() == step.locks());
                    }
                    return res;
                }
            }
            j += 1;
        }
        proof {
            assert forall|d2: int, c: Seq<usize>|
                d2 < d + 1 && is_fish(sudoku@, by_rows, d2, c, size as int) implies fish_elims(sudoku@, by_rows, d2, c, 81).len() == 0 by {
                if d2 == d {
                    let j2 = choose|j2: int| 0 <= j2 < combos@.len() && #[trigger] combos@[j2]@ == c;
                }
            }
        }
        d += 1;
    }
    None
}

} // verus!
