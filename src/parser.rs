use vstd::prelude::*;

use vstd::string::StringSliceAdditionalSpecFns;

use crate::grid::{value_of, Grid};
use crate::sudoku::{GridError, Sudoku};

verus! {

/// Byte `c` separates fields: a space, a tab, a carriage return or a line feed.
pub open spec fn is_space(c: u8) -> bool {
    c == 32 || c == 9 || c == 13 || c == 10
}

/// Byte `c` is a field: a digit `0`-`9`, or `-` or `.` for an empty cell.
pub open spec fn is_field(c: u8) -> bool {
    (48 <= c <= 57) || c == 45 || c == 46
}

/// The value of field byte `c`: 0 for `-`, `.` and `0`, else its digit.
pub open spec fn field_value(c: u8) -> u8 {
    if 49 <= c <= 57 {
        (c - 48) as u8
    } else {
        0
    }
}

/// The values of the fields among the first `n` bytes of `b`, in order.
pub open spec fn fields_upto(b: Seq<u8>, n: int) -> Seq<u8>
    decreases n,
{
    if n <= 0 {
        Seq::empty()
    } else if is_field(b[n - 1]) {
        fields_upto(b, n - 1).push(field_value(b[n - 1]))
    } else {
        fields_upto(b, n - 1)
    }
}

/// The text holds only white space and fields.
pub open spec fn well_formed(b: Seq<u8>) -> bool {
    forall|j: int| 0 <= j < b.len() ==> is_space(#[trigger] b[j]) || is_field(b[j])
}

/// Reads the fields of a grid from text: `1`-`9` for a digit and `0`, `-` or `.` for an
/// empty cell (value 0), with white space anywhere between them.
pub fn parse_fields(grid: &str) -> (r: Result<Vec<u8>, GridError>)
    ensures
        well_formed(grid.spec_bytes()) <==> r is Ok,
        r matches Ok(f) ==> f@ == fields_upto(grid.spec_bytes(), grid.spec_bytes().len() as int),
        r matches Ok(f) ==> forall|i: int| 0 <= i < f@.len() ==> #[trigger] f@[i] <= 9,
        r matches Err(e) ==> e matches GridError::ParseError(k) && {
            &&& k < grid.spec_bytes().len()
            &&& !is_space(grid.spec_bytes()[k as int]) && !is_field(grid.spec_bytes()[k as int])
            &&& forall|j: int| 0 <= j < k ==> is_space(#[trigger] grid.spec_bytes()[j]) || is_field(grid.spec_bytes()[j])
        },
{
    let bytes = grid.as_bytes();
    let mut fields: Vec<u8> = Vec::new();
    let mut k: usize = 0;
    while k < bytes.len()
        invariant
            k <= bytes@.len(),
            bytes@ == grid.spec_bytes(),
            fields@ == fields_upto(bytes@, k as int),
            forall|j: int| 0 <= j < k ==> is_space(#[trigger] bytes@[j]) || is_field(bytes@[j]),
        decreases bytes@.len() - k,
    {
        let c = bytes[k];
        if c == 45 || c == 46 {
            fields.push(0);
        } else if 48 <= c && c <= 57 {
            fields.push(c - 48);
        } else if !(c == 32 || c == 9 || c == 13 || c == 10) {
            return Err(GridError::ParseError(k));
        }
        k += 1;
    }
    proof {
        assert forall|i: int| 0 <= i < fields@.len() implies #[trigger] fields@[i] <= 9 by {
            lemma_fields_small(bytes@, k as int, i);
        }
    }
    Ok(fields)
}

/// Parses a grid from text (see `parse_fields`); empty cells start without candidates.
pub fn parse_sudoku(grid: &str) -> (r: Result<Sudoku, GridError>)
    ensures
        !well_formed(grid.spec_bytes()) <==> r is Err && r->Err_0 is ParseError,
        !(r matches Err(GridError::InvalidDigit(_))),
        r matches Err(GridError::WrongFieldCount(n)) ==> n == fields_upto(grid.spec_bytes(), grid.spec_bytes().len() as int).len() && n != 81,
        r matches Ok(s) ==> {
            let f = fields_upto(grid.spec_bytes(), grid.spec_bytes().len() as int);
            &&& f.len() == 81
            &&& s.wf()
            &&& forall|i: int| 0 <= i < 81 ==> #[trigger] s@[i].value() == f[i]
            &&& forall|i: int, d: int| 0 <= i < 81 ==> !#[trigger] s@[i].has(d)
        },
        (well_formed(grid.spec_bytes()) && fields_upto(grid.spec_bytes(), grid.spec_bytes().len() as int).len() == 81) ==> r is Ok,
{
    let fields = match parse_fields(grid) {
        Ok(f) => f,
        Err(e) => {
            return Err(e);
        },
    };
    let count = fields.len();
    let r = Sudoku::new(fields);
    proof {
        if count == 81 {
            assert(r is Ok);
        } else {
            assert(r == Err::<Sudoku, GridError>(GridError::WrongFieldCount(count)));
        }
    }
    r
}

/// Parses a grid of digits from text, see `parse_fields`.
pub fn parse_grid(grid: &str) -> (r: Result<Grid, GridError>)
    ensures
        !well_formed(grid.spec_bytes()) <==> r is Err && r->Err_0 is ParseError,
        !(r matches Err(GridError::InvalidDigit(_))),
        r matches Err(GridError::WrongFieldCount(n)) ==> n == fields_upto(grid.spec_bytes(), grid.spec_bytes().len() as int).len() && n != 81,
        r matches Ok(g) ==> {
            let f = fields_upto(grid.spec_bytes(), grid.spec_bytes().len() as int);
            &&& f.len() == 81
            &&& g@.len() == 81
            &&& forall|i: int| 0 <= i < 81 ==> #[trigger] g@[i] == value_of(f[i])
        },
        (well_formed(grid.spec_bytes()) && fields_upto(grid.spec_bytes(), grid.spec_bytes().len() as int).len() == 81) ==> r is Ok,
{
    let fields = match parse_fields(grid) {
        Ok(f) => f,
        Err(e) => {
            return Err(e);
        },
    };
    let count = fields.len();
    let r = Grid::new(fields);
    proof {
        if count == 81 {
            assert(r is Ok);
        } else {
            assert(r == Err::<Grid, GridError>(GridError::WrongFieldCount(count)));
        }
    }
    r
}

/// Every field value is at most 9.
proof fn lemma_fields_small(b: Seq<u8>, n: int, i: int)
    requires
        0 <= i < fields_upto(b, n).len(),
        n <= b.len(),
    ensures
        fields_upto(b, n)[i] <= 9,
    decreases n,
{
    if n > 0 {
        if is_field(b[n - 1]) && i == fields_upto(b, n - 1).len() {
        } else {
            lemma_fields_small(b, n - 1, i);
        }
    }
}

} // verus!
