use vstd::prelude::*;

use crate::candidates::Candidates;
use crate::cell::Cell;
use crate::strategy::algorithms::fish::single_locks;
use crate::strategy::step::{pair_if, Step};
use crate::sudoku::Sudoku;
use crate::types::{block_index, block_of, col_index, col_of, line_cell, line_index, row_index, row_of};

verus! {

/// The position in its line of element `q` of segment `t`. In kind 2 (the columns of a block)
/// segment `t` is positions `t, t + 3, t + 6`; otherwise it is positions `3t..3t + 3`.
pub open spec fn seg_pos(kind: int, t: int, q: int) -> int {
    if kind == 2 {
        t + 3 * q
    } else {
        3 * t + q
    }
}

/// The cell of element `q` of segment `t` of line `l`.
pub open spec fn seg_cell(kind: int, l: int, t: int, q: int) -> int {
    line_cell(l, seg_pos(kind, t, q))
}

/// The line that a segment holding cell `i` is confined to, and from which the eliminations
/// come: its block in kind 0, its row in kind 1 and its column in kind 2.
pub open spec fn target_line(kind: int, i: int) -> int {
    if kind == 0 {
        18 + block_of(i)
    } else if kind == 1 {
        row_of(i)
    } else {
        9 + col_of(i)
    }
}

/// The number of the first `n` cells of segment `t` of line `l` with candidate `d`.
pub open spec fn seg_count(s: Seq<Cell>, kind: int, l: int, t: int, d: int, n: int) -> nat
    decreases n,
{
    if n <= 0 {
        0
    } else {
        seg_count(s, kind, l, t, d, n - 1) + if s[seg_cell(kind, l, t, n - 1)].has(d) {
            1nat
        } else {
            0nat
        }
    }
}

/// Within line `l`, the candidates `d` lie in segment `t` alone, in two cells or more.
pub open spec fn is_locked(s: Seq<Cell>, kind: int, l: int, t: int, d: int) -> bool {
    &&& 1 <= d <= 9
    &&& 0 <= t < 3
    &&& seg_count(s, kind, l, t, d, 3) >= 2
    &&& forall|t2: int| 0 <= t2 < 3 && t2 != t ==> #[trigger] seg_count(s, kind, l, t2, d, 3) == 0
}

/// Cell `i` is one of the cells of segment `t` of line `l`.
pub open spec fn in_segment(kind: int, l: int, t: int, i: int) -> bool {
    exists|q: int| 0 <= q < 3 && #[trigger] seg_cell(kind, l, t, q) == i
}

/// The eliminations of the locked candidate `d` among the first `n` positions of the target
/// line of segment `t`: each cell there outside the segment with candidate `d`.
pub open spec fn locked_elims(s: Seq<Cell>, kind: int, l: int, t: int, d: int, n: int) -> Seq<
    (usize, u8),
>
    decreases n,
{
    if n <= 0 {
        Seq::empty()
    } else {
        let i = line_cell(target_line(kind, seg_cell(kind, l, t, 0)), n - 1);
        locked_elims(s, kind, l, t, d, n - 1) + pair_if(
            s[i].has(d) && !in_segment(kind, l, t, i),
            i,
            d,
        )
    }
}

/// The first `n` cells of segment `t` of line `l` with candidate `d`, in order.
pub open spec fn locked_cells(s: Seq<Cell>, kind: int, l: int, t: int, d: int, n: int) -> Seq<usize>
    decreases n,
{
    if n <= 0 {
        Seq::empty()
    } else if s[seg_cell(kind, l, t, n - 1)].has(d) {
        locked_cells(s, kind, l, t, d, n - 1).push(seg_cell(kind, l, t, n - 1) as usize)
    } else {
        locked_cells(s, kind, l, t, d, n - 1)
    }
}

/// `step` eliminates what the candidates `d` locked in segment `t` of line `l` allow, and
/// records the segment's cells with `d`.
pub open spec fn locked_step(s: Seq<Cell>, kind: int, l: int, t: int, d: int, step: Step) -> bool {
    &&& is_locked(s, kind, l, t, d)
    &&& step.placed() is None
    &&& step.elims() == locked_elims(s, kind, l, t, d, 9)
    &&& step.elims().len() > 0
    &&& single_locks(locked_cells(s, kind, l, t, d, 3), d, step.locks())
}

/// Returns the cell of element `q` of segment `t` of line `l`.
fn segment_cell(kind: usize, l: usize, t: usize, q: usize) -> (r: usize)
    requires
        kind <= 2,
        l < 27,
        t < 3,
        q < 3,
    ensures
        r == seg_cell(kind as int, l as int, t as int, q as int),
        r < 81,
{
    let p = if kind == 2 { t + 3 * q } else { 3 * t + q };
    line_index(l, p)
}

/// Returns the number of cells of segment `t` of line `l` with candidate `d`.
fn segment_count(sudoku: &Sudoku, kind: usize, l: usize, t: usize, d: u8) -> (r: usize)
    requires
        sudoku.wf(),
        kind <= 2,
        l < 27,
        t < 3,
        1 <= d <= 9,
    ensures
        r == seg_count(sudoku@, kind as int, l as int, t as int, d as int, 3),
{
    let mut n: usize = 0;
    let mut q: usize = 0;
    while q < 3
        invariant
            q <= 3,
            sudoku.wf(),
            kind <= 2,
            l < 27,
            t < 3,
            1 <= d <= 9,
            n == seg_count(sudoku@, kind as int, l as int, t as int, d as int, q as int),
            n <= q,
        decreases 3 - q,
    {
        if sudoku.get(segment_cell(kind, l, t, q)).has_candidate(d) {
            n += 1;
        }
        q += 1;
    }
    n
}

/// Builds the step of the candidates `d` locked in segment `t` of line `l`.
fn locked_build(sudoku: &Sudoku, kind: usize, l: usize, t: usize, d: u8) -> (r: Step)
    requires
        sudoku.wf(),
        kind <= 2,
        l < 27,
        t < 3,
        1 <= d <= 9,
    ensures
        r.placed() is None,
        r.wf(),
        r.elims_held(sudoku@),
        r.elims() == locked_elims(sudoku@, kind as int, l as int, t as int, d as int, 9),
        single_locks(locked_cells(sudoku@, kind as int, l as int, t as int, d as int, 3), d as int, r.locks()),
{
    let mut step = Step::new();
    let mut q: usize = 0;
    while q < 3
        invariant
            q <= 3,
            sudoku.wf(),
            kind <= 2,
            l < 27,
            t < 3,
            1 <= d <= 9,
            step.placed() is None,
            step.wf(),
            step.elims().len() == 0,
            single_locks(locked_cells(sudoku@, kind as int, l as int, t as int, d as int, q as int), d as int, step.locks()),
        decreases 3 - q,
    {
        let i = segment_cell(kind, l, t, q);
        let ghost before = step.locks();
        if sudoku.get(i).has_candidate(d) {
            step.lock_candidate(i, Candidates::single(d));
        }
        proof {
            let cells = locked_cells(sudoku@, kind as int, l as int, t as int, d as int, q + 1);
            assert forall|k: int| 0 <= k < cells.len() implies (#[trigger] step.locks()[k]).0 == cells[k] && forall|x: int|
                #[trigger] step.locks()[k].1.has(x) == (x == d) by {
                if k < before.len() {
                    assert(step.locks()[k] == before[k]);
                }
            }
        }
        q += 1;
    }
    let first = segment_cell(kind, l, t, 0);
    let target = if kind == 0 {
        18 + block_index(first)
    } else if kind == 1 {
        row_index(first)
    } else {
        9 + col_index(first)
    };
    let s0 = segment_cell(kind, l, t, 0);
    let s1 = segment_cell(kind, l, t, 1);
    let s2 = segment_cell(kind, l, t, 2);
    let mut p: usize = 0;
    while p < 9
        invariant
            p <= 9,
            sudoku.wf(),
            kind <= 2,
            l < 27,
            t < 3,
            1 <= d <= 9,
            target == target_line(kind as int, seg_cell(kind as int, l as int, t as int, 0)),
            target < 27,
            s0 == seg_cell(kind as int, l as int, t as int, 0),
            s1 == seg_cell(kind as int, l as int, t as int, 1),
            s2 == seg_cell(kind as int, l as int, t as int, 2),
            step.placed() is None,
            step.wf(),
            step.elims_held(sudoku@),
            step.elims() == locked_elims(sudoku@, kind as int, l as int, t as int, d as int, p as int),
            single_locks(locked_cells(sudoku@, kind as int, l as int, t as int, d as int, 3), d as int, step.locks()),
        decreases 9 - p,
    {
        let i = line_index(target, p);
        let inside = i == s0 || i == s1 || i == s2;
        proof {
            if in_segment(kind as int, l as int, t as int, i as int) {
                let q = choose|q: int| 0 <= q < 3 && #[trigger] seg_cell(kind as int, l as int, t as int, q) == i;
                assert(q == 0 || q == 1 || q == 2);
            }
            if inside {
                if i == s0 {
                    assert(seg_cell(kind as int, l as int, t as int, 0) == i);
                } else if i == s1 {
                    assert(seg_cell(kind as int, l as int, t as int, 1) == i);
                } else {
                    assert(seg_cell(kind as int, l as int, t as int, 2) == i);
                }
            }
        }
        if !inside && sudoku.get(i).has_candidate(d) {
            step.eliminate_candidate(i, d);
        }
        proof {
            assert(step.elims() =~= locked_elims(sudoku@, kind as int, l as int, t as int, d as int, p + 1));
        }
        p += 1;
    }
    step
}

/// Finds candidates of one digit that line `l` holds in a single segment, in two cells or
/// more, and that the segment's target line holds elsewhere.
pub fn find_locked(sudoku: &Sudoku, kind: usize, l: usize) -> (r: Option<Step>)
    requires
        sudoku.wf(),
        kind <= 2,
        l < 27,
    ensures
        r is None <==> forall|t: int, d: int|
            is_locked(sudoku@, kind as int, l as int, t, d) ==> locked_elims(sudoku@, kind as int, l as int, t, d, 9).len() == 0,
        r matches Some(st) ==> exists|t: int, d: int|
            #[trigger] locked_step(sudoku@, kind as int, l as int, t, d, st) && forall|t2: int, d2: int|
                d2 < d && is_locked(sudoku@, kind as int, l as int, t2, d2) ==> locked_elims(sudoku@, kind as int, l as int, t2, d2, 9).len() == 0,
        r matches Some(st) ==> st.wf() && st.progresses(sudoku@),
{
    let mut d: u8 = 1;
    while d <= 9
        invariant
            1 <= d <= 10,
            sudoku.wf(),
            kind <= 2,
            l < 27,
            forall|t: int, d2: int|
                d2 < d && is_locked(sudoku@, kind as int, l as int, t, d2) ==> locked_elims(sudoku@, kind as int, l as int, t, d2, 9).len() == 0,
        decreases 10 - d,
    {
        let n0 = segment_count(sudoku, kind, l, 0, d);
        let n1 = segment_count(sudoku, kind, l, 1, d);
        let n2 = segment_count(sudoku, kind, l, 2, d);
        let t: usize = if n1 == 0 && n2 == 0 {
            0
        } else if n0 == 0 && n2 == 0 {
            1
        } else {
            2
        };
        let n = if t == 0 { n0 } else if t == 1 { n1 } else { n2 };
        let alone = (t == 0 && n1 == 0 && n2 == 0) || (t == 1 && n0 == 0 && n2 == 0) || (t == 2 && n0 == 0 && n1 == 0);
        proof {
            assert forall|t2: int| is_locked(sudoku@, kind as int, l as int, t2, d as int) implies t2 == t && alone && n >= 2 by {
                assert(seg_count(sudoku@, kind as int, l as int, t2, d as int, 3) >= 2);
            }
        }
        if alone && n >= 2 {
            let step = locked_build(sudoku, kind, l, t, d);
            if step.eliminated_candidates().len() > 0 {
                proof {
                    assert(is_locked(sudoku@, kind as int, l as int, t as int, d as int));
                    assert(locked_step(sudoku@, kind as int, l as int, t as int, d as int, step));
                    let e = step.elims()[0];
                    assert(sudoku@[e.0 as int].has(e.1 as int));
                }
                let res = Some(step);
                proof {
                    assert(res->0.locks() == step.locks());
                }
                return res;
            }
        }
        d += 1;
    }
    None
}

} // verus!
