use vstd::prelude::*;

use crate::cell::Cell;
use crate::strategy::step::{others_of, with_candidate, Step};
use crate::strategy::Strategy;
use crate::sudoku::Sudoku;
use crate::types::{house, house_indices, lemma_house_upto, line_cell, line_index};

verus! {

/// The cell at position `p` of line `l` holds candidate `d`.
pub open spec fn in_line(s: Seq<Cell>, l: int, p: int, d: int) -> bool {
    s[line_cell(l, p)].has(d)
}

/// The number of positions below `n` of line `l` whose cell holds candidate `d`.
pub open spec fn line_count(s: Seq<Cell>, l: int, d: int, n: int) -> nat
    decreases n,
{
    if n <= 0 {
        0
    } else {
        line_count(s, l, d, n - 1) + if in_line(s, l, n - 1, d) {
            1nat
        } else {
            0nat
        }
    }
}

/// Position `p` holds the only cell of line `l` with candidate `d`.
pub open spec fn is_hidden_single(s: Seq<Cell>, l: int, d: int, p: int) -> bool {
    &&& 0 <= l < 27
    &&& 1 <= d <= 9
    &&& 0 <= p < 9
    &&& in_line(s, l, p, d)
    &&& line_count(s, l, d, 9) == 1
}

/// `step` places digit `d` in its only cell `i` of a line, eliminates the other candidates
/// of `i`, and eliminates `d` from the house of `i`.
pub open spec fn hidden_single_step(s: Seq<Cell>, l: int, d: int, p: int, step: Step) -> bool {
    let i = line_cell(l, p);
    &&& is_hidden_single(s, l, d, p)
    &&& step.placed() == Some((i as usize, d as u8))
    &&& step.elims() == others_of(s, i, d) + with_candidate(s, house(i), d)
    &&& step.locks().len() == 0
}

/// Finds a digit that only one cell of a row, column or block can hold.
#[derive(Debug)]
pub struct HiddenSingle {}

impl HiddenSingle {
    pub fn new() -> Self {
        Self {  }
    }

    /// Searches line `l` for a digit that only one of its cells holds, digits in ascending
    /// order.
    fn find_single(sudoku: &Sudoku, l: usize) -> (r: Option<Step>)
        requires
            sudoku.wf(),
            l < 27,
        ensures
            r is None <==> forall|d: int, p: int| !is_hidden_single(sudoku@, l as int, d, p),
            r matches Some(st) ==> exists|d: int, p: int|
                #[trigger] hidden_single_step(sudoku@, l as int, d, p, st) && forall|d2: int, q2: int|
                    d2 < d ==> !is_hidden_single(sudoku@, l as int, d2, q2),
            r matches Some(st) ==> st.wf() && st.progresses(sudoku@),
            r matches Some(st) ==> (st.placed() matches Some((i, _)) ==> !sudoku@[i as int].solved()),
    {
        let mut d: u8 = 1;
        while d <= 9
            invariant
                1 <= d <= 10,
                l < 27,
                sudoku.wf(),
                forall|d2: int, p: int| d2 < d ==> !is_hidden_single(sudoku@, l as int, d2, p),
            decreases 10 - d,
        {
            let (count, p) = count_in_line(sudoku, l, d);
            if count == 1 {
                let i = line_index(l, p);
                let mut step = Step::new();
                step.set_digit(i, d);
                step.eliminate_others(sudoku, i, d);
                let cells = house_indices(i);
                proof {
                    lemma_house_upto(i as int, 81);
                }
                step.eliminate_in(sudoku, &cells, d);
                proof {
                    assert(step.elims() =~= others_of(sudoku@, i as int, d as int)
                        + with_candidate(sudoku@, house(i as int), d as int));
                    assert(hidden_single_step(sudoku@, l as int, d as int, p as int, step));
                }
                return Some(step);
            }
            d += 1;
        }
        None
    }
}

/// Returns the number of cells of line `l` that hold candidate `d`, and the position of the
/// last of them.
pub(crate) fn count_in_line(sudoku: &Sudoku, l: usize, d: u8) -> (r: (usize, usize))
    requires
        sudoku.wf(),
        l < 27,
        1 <= d <= 9,
    ensures
        r.0 == line_count(sudoku@, l as int, d as int, 9),
        r.1 < 9,
        r.0 > 0 ==> in_line(sudoku@, l as int, r.1 as int, d as int),
{
    let mut count: usize = 0;
    let mut last: usize = 0;
    let mut p: usize = 0;
    while p < 9
        invariant
            p <= 9,
            sudoku.wf(),
            l < 27,
            1 <= d <= 9,
            count == line_count(sudoku@, l as int, d as int, p as int),
            count <= p,
            last < 9,
            count > 0 ==> in_line(sudoku@, l as int, last as int, d as int),
        decreases 9 - p,
    {
        if sudoku.get(line_index(l, p)).has_candidate(d) {
            count += 1;
            last = p;
        }
        p += 1;
    }
    (count, last)
}

impl Strategy for HiddenSingle {
    fn find(&self, sudoku: &Sudoku) -> (r: Option<Step>)
        ensures
            r is None <==> forall|l: int, d: int, p: int| !is_hidden_single(sudoku@, l, d, p),
            r matches Some(st) ==> exists|l: int, d: int, p: int|
                #[trigger] hidden_single_step(sudoku@, l, d, p, st) && forall|l2: int, d2: int, q2: int|
                    (l2 < l || (l2 == l && d2 < d)) ==> !is_hidden_single(sudoku@, l2, d2, q2),
    {
        let mut l: usize = 0;
        while l < 27
            invariant
                l <= 27,
                sudoku.wf(),
                forall|l2: int, d: int, p: int| l2 < l ==> !is_hidden_single(sudoku@, l2, d, p),
            decreases 27 - l,
        {
            let found = Self::find_single(sudoku, l);
            if found.is_some() {
                return found;
            }
            l += 1;
        }
        None
    }

    fn name(&self) -> (r: String)
        ensures
            r@ == "Hidden Single"@,
    {
        "Hidden Single".to_owned()
    }
}

} // verus!
