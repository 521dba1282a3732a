use vstd::prelude::*;

use crate::sudoku::GridError;

verus! {

/// The value of a field of a grid of digits.
#[derive(Debug, Clone, Copy, PartialEq, Eq, Structural)]
pub enum Value {
    /// There is no value set, initial value of a field
    Unset,
    /// Set to a number
    Number(u8),
}

/// The field value that number `n` stands for: 0 is unset.
pub open spec fn value_of(n: u8) -> Value {
    if n == 0 {
        Value::Unset
    } else {
        Value::Number(n)
    }
}

/// A grid of digits without candidates: 81 fields in row-major order.
#[derive(Debug)]
pub struct Grid {
    /// The list of all fields
    fields: Vec<Value>,
}

impl Grid {
    /// The fields of the grid.
    pub closed spec fn view(&self) -> Seq<Value> {
        self.fields@
    }

    /// Creates a grid from 81 values in row-major order: 0 for an empty field, 1-9 for a
    /// digit.
    pub fn new(fields: Vec<u8>) -> (r: Result<Self, GridError>)
        ensures
            fields@.len() != 81 <==> r == Err::<Self, GridError>(
                GridError::WrongFieldCount(fields@.len() as usize),
            ),
            (fields@.len() == 81 && forall|i: int| 0 <= i < 81 ==> #[trigger] fields@[i] <= 9)
                <==> r is Ok,
            r matches Err(GridError::InvalidDigit(v)) ==> v > 9 && exists|i: int|
                0 <= i < fields@.len() && fields@[i] == v && forall|k: int| 0 <= k < i ==> #[trigger] fields@[k] <= 9,
            !(r matches Err(GridError::ParseError(_))),
            r matches Ok(g) ==> g@.len() == 81 && forall|i: int|
                0 <= i < 81 ==> #[trigger] g@[i] == value_of(fields@[i]),
    {
        if fields.len() != 81 {
            return Err(GridError::WrongFieldCount(fields.len()));
        }
        let mut values: Vec<Value> = Vec::new();
        let mut i: usize = 0;
        while i < 81
            invariant
                i <= 81,
                fields@.len() == 81,
                values@.len() == i,
                forall|k: int| 0 <= k < i ==> #[trigger] fields@[k] <= 9,
                forall|k: int| 0 <= k < i ==> #[trigger] values@[k] == value_of(fields@[k]),
            decreases 81 - i,
        {
            let n = fields[i];
            if n == 0 {
                values.push(Value::Unset);
            } else if n <= 9 {
                values.push(Value::Number(n));
            } else {
                proof {
                    assert(fields@[i as int] == n);
                }
                return Err(GridError::InvalidDigit(n));
            }
            i += 1;
        }
        Ok(Grid { fields: values })
    }

    /// Returns the fields in row-major order.
    pub fn values(&self) -> (r: &Vec<Value>)
        ensures
            r@ == self@,
    {
        &self.fields
    }
}

} // verus!
