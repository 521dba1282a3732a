use vstd::prelude::*;

verus! {

/// The row of the cell with linear index `i`.
pub open spec fn row_of(i: int) -> int {
    i / 9
}

/// The column of the cell with linear index `i`.
pub open spec fn col_of(i: int) -> int {
    i % 9
}

/// The block of the cell with linear index `i`: blocks are numbered row by row, three per
/// band.
pub open spec fn block_of(i: int) -> int {
    (row_of(i) / 3) * 3 + col_of(i) / 3
}

/// Cell `a` sees cell `b`: they differ and share a row, a column or a block.
pub open spec fn sees(a: int, b: int) -> bool {
    a != b && (row_of(a) == row_of(b) || col_of(a) == col_of(b) || block_of(a) == block_of(b))
}

/// The linear index of position `p` on line `l`. Lines `0..9` are the rows, `9..18` the
/// columns and `18..27` the blocks; positions run left to right, top to bottom.
pub open spec fn line_cell(l: int, p: int) -> int {
    if l < 9 {
        l * 9 + p
    } else if l < 18 {
        p * 9 + (l - 9)
    } else {
        ((l - 18) / 3 * 3 + p / 3) * 9 + ((l - 18) % 3) * 3 + p % 3
    }
}

/// The cells of a line lie on the board, in that line, and at distinct positions.
pub proof fn lemma_line_cell(l: int, p: int)
    requires
        0 <= l < 27,
        0 <= p < 9,
    ensures
        0 <= line_cell(l, p) < 81,
        l < 9 ==> row_of(line_cell(l, p)) == l && col_of(line_cell(l, p)) == p,
        9 <= l < 18 ==> col_of(line_cell(l, p)) == l - 9 && row_of(line_cell(l, p)) == p,
        18 <= l ==> block_of(line_cell(l, p)) == l - 18 && row_of(line_cell(l, p)) % 3 == p / 3
            && col_of(line_cell(l, p)) % 3 == p % 3,
{
    let x = line_cell(l, p);
    if l >= 18 {
        let b = l - 18;
        let r = (b / 3) * 3 + p / 3;
        let c = (b % 3) * 3 + p % 3;
        assert(0 <= c < 9);
        assert(0 <= r < 9);
        assert(x == r * 9 + c);
        assert(x / 9 == r && x % 9 == c) by (nonlinear_arith)
            requires
                x == r * 9 + c,
                0 <= c < 9,
                0 <= r,
        ;
        assert(r / 3 == b / 3 && r % 3 == p / 3) by (nonlinear_arith)
            requires
                r == (b / 3) * 3 + p / 3,
                0 <= p / 3 < 3,
                0 <= b,
        ;
        assert(c / 3 == b % 3 && c % 3 == p % 3) by (nonlinear_arith)
            requires
                c == (b % 3) * 3 + p % 3,
                0 <= p % 3 < 3,
                0 <= b % 3,
        ;
    } else if l >= 9 {
        assert(x == p * 9 + (l - 9));
        assert(x / 9 == p && x % 9 == l - 9) by (nonlinear_arith)
            requires
                x == p * 9 + (l - 9),
                0 <= l - 9 < 9,
                0 <= p,
        ;
    } else {
        assert(x / 9 == l && x % 9 == p) by (nonlinear_arith)
            requires
                x == l * 9 + p,
                0 <= p < 9,
                0 <= l,
        ;
    }
}

/// Two positions of a line hold distinct cells, which see each other.
pub proof fn lemma_line_sees(l: int, p: int, q: int)
    requires
        0 <= l < 27,
        0 <= p < 9,
        0 <= q < 9,
        p != q,
    ensures
        sees(line_cell(l, p), line_cell(l, q)),
{
    lemma_line_cell(l, p);
    lemma_line_cell(l, q);
    if l >= 18 {
        let a = line_cell(l, p);
        let b = line_cell(l, q);
        if a == b {
            assert(p / 3 == q / 3 && p % 3 == q % 3);
            assert(p == (p / 3) * 3 + p % 3);
            assert(q == (q / 3) * 3 + q % 3);
        }
    }
}

/// The cells that see cell `i`, among the first `n` cells, in ascending order.
pub open spec fn house_upto(i: int, n: int) -> Seq<usize>
    decreases n,
{
    if n <= 0 {
        Seq::empty()
    } else if sees(i, n - 1) {
        house_upto(i, n - 1).push((n - 1) as usize)
    } else {
        house_upto(i, n - 1)
    }
}

/// The house of cell `i`: every cell that sees it, in ascending order.
pub open spec fn house(i: int) -> Seq<usize> {
    house_upto(i, 81)
}

/// Every entry of a house prefix is a cell below `n` that sees `i`.
pub proof fn lemma_house_upto(i: int, n: int)
    requires
        n <= 81,
    ensures
        forall|k: int|
            0 <= k < house_upto(i, n).len() ==> #[trigger] house_upto(i, n)[k] < n && sees(
                i,
                house_upto(i, n)[k] as int,
            ),
        forall|j: int| 0 <= j < n && sees(i, j) ==> house_upto(i, n).contains(j as usize),
    decreases n,
{
    if n > 0 {
        lemma_house_upto(i, n - 1);
        let prev = house_upto(i, n - 1);
        assert forall|j: int| 0 <= j < n && sees(i, j) implies house_upto(i, n).contains(
            j as usize,
        ) by {
            if j < n - 1 {
                let k = choose|k: int| 0 <= k < prev.len() && prev[k] == j as usize;
                if sees(i, n - 1) {
                    assert(house_upto(i, n)[k] == j as usize);
                }
            } else {
                assert(house_upto(i, n).last() == j as usize);
            }
        }
    }
}

/// Returns the row of linear index `index`.
pub fn row_index(index: usize) -> (r: usize)
    requires
        index < 81,
    ensures
        r == row_of(index as int),
        r < 9,
{
    index / 9
}

/// Returns the column of linear index `index`.
pub fn col_index(index: usize) -> (r: usize)
    requires
        index < 81,
    ensures
        r == col_of(index as int),
        r < 9,
{
    index % 9
}

/// Returns the block of linear index `index`.
pub fn block_index(index: usize) -> (r: usize)
    requires
        index < 81,
    ensures
        r == block_of(index as int),
        r < 9,
{
    (index / 9 / 3) * 3 + (index % 9) / 3
}

/// Returns the linear index of position `p` on line `l` (see `line_cell`).
pub fn line_index(l: usize, p: usize) -> (r: usize)
    requires
        l < 27,
        p < 9,
    ensures
        r == line_cell(l as int, p as int),
        r < 81,
{
    if l < 9 {
        l * 9 + p
    } else if l < 18 {
        p * 9 + (l - 9)
    } else {
        let b = l - 18;
        (b / 3 * 3 + p / 3) * 9 + (b % 3) * 3 + p % 3
    }
}

/// Returns true if cell `a` sees cell `b`.
pub fn cells_see(a: usize, b: usize) -> (r: bool)
    requires
        a < 81,
        b < 81,
    ensures
        r == sees(a as int, b as int),
{
    a != b && (row_index(a) == row_index(b) || col_index(a) == col_index(b) || block_index(a)
        == block_index(b))
}

/// Returns the house of cell `index`: every cell that sees it, in ascending order.
pub fn house_indices(index: usize) -> (r: Vec<usize>)
    requires
        index < 81,
    ensures
        r@ == house(index as int),
{
    let mut out: Vec<usize> = Vec::new();
    let mut j: usize = 0;
    while j < 81
        invariant
            j <= 81,
            index < 81,
            out@ == house_upto(index as int, j as int),
        decreases 81 - j,
    {
        if cells_see(index, j) {
            out.push(j);
        }
        j += 1;
    }
    out
}

/// The cells of line `l` in position order.
pub fn line_indices(l: usize) -> (r: Vec<usize>)
    requires
        l < 27,
    ensures
        r@.len() == 9,
        forall|p: int| 0 <= p < 9 ==> #[trigger] r@[p] == line_cell(l as int, p),
{
    let mut out: Vec<usize> = Vec::new();
    let mut p: usize = 0;
    while p < 9
        invariant
            p <= 9,
            l < 27,
            out@.len() == p,
            forall|q: int| 0 <= q < p ==> #[trigger] out@[q] == line_cell(l as int, q),
        decreases 9 - p,
    {
        out.push(line_index(l, p));
        p += 1;
    }
    out
}

/// A block index.
#[derive(Debug, Clone, Copy, PartialEq, Eq, Structural)]
pub struct Block(u8);

/// A single column value.
#[derive(Debug, Clone, Copy, PartialEq, Eq, Structural)]
pub struct Col(u8);

/// A single row value.
#[derive(Debug, Clone, Copy, PartialEq, Eq, Structural)]
pub struct Row(u8);

/// A position on the board: row and column.
#[derive(Debug, Clone, Copy, PartialEq, Eq, Structural)]
pub struct Pos(u8, u8);

/// A linear index on the board.
#[derive(Debug, Clone, Copy, PartialEq, Eq, Structural)]
pub struct Index(u8);

impl Index {
    /// The linear index held.
    pub closed spec fn value(self) -> int {
        self.0 as int
    }

    /// Creates a new index.
    pub fn new(index: u8) -> (r: Self)
        requires
            index < 81,
        ensures
            r.value() == index,
    {
        Index(index)
    }

    /// Returns the row on the board.
    pub fn row(&self) -> (r: Row)
        requires
            self.value() < 81,
        ensures
            r.value() == row_of(self.value()),
    {
        Row(self.0 / 9)
    }

    /// Returns the column on the board.
    pub fn col(&self) -> (r: Col)
        requires
            self.value() < 81,
        ensures
            r.value() == col_of(self.value()),
    {
        Col(self.0 % 9)
    }

    /// Returns the position on the board.
    pub fn pos(&self) -> (r: Pos)
        requires
            self.value() < 81,
        ensures
            r.row_value() == row_of(self.value()),
            r.col_value() == col_of(self.value()),
    {
        Pos(self.0 / 9, self.0 % 9)
    }

    /// Returns the block of the index.
    ///
    ///   0 0 0 1 1 1 2 2 2
    ///   0 0 0 1 1 1 2 2 2
    ///   0 0 0 1 1 1 2 2 2
    ///   3 3 3 4 4 4 5 5 5
    ///   3 3 3 4 4 4 5 5 5
    ///   3 3 3 4 4 4 5 5 5
    ///   6 6 6 7 7 7 8 8 8
    ///   6 6 6 7 7 7 8 8 8
    ///   6 6 6 7 7 7 8 8 8
    pub fn block(&self) -> (r: Block)
        requires
            self.value() < 81,
        ensures
            r.value() == block_of(self.value()),
    {
        self.pos().block()
    }
}

impl Pos {
    /// The row held.
    pub closed spec fn row_value(self) -> int {
        self.0 as int
    }

    /// The column held.
    pub closed spec fn col_value(self) -> int {
        self.1 as int
    }

    /// Returns the block of the position.
    pub fn block(&self) -> (r: Block)
        requires
            self.row_value() < 9,
            self.col_value() < 9,
        ensures
            r.value() == (self.row_value() / 3) * 3 + self.col_value() / 3,
    {
        Block((self.0 / 3) * 3 + self.1 / 3)
    }
}

impl Block {
    /// The block number held.
    pub closed spec fn value(self) -> int {
        self.0 as int
    }

    /// Creates a new block.
    pub fn new(block: u8) -> (r: Self)
        requires
            block < 9,
        ensures
            r.value() == block,
    {
        Self(block)
    }

    /// Returns the cells of this block in position order.
    pub fn indices(&self) -> (r: Vec<usize>)
        requires
            self.value() < 9,
        ensures
            r@.len() == 9,
            forall|p: int| 0 <= p < 9 ==> #[trigger] r@[p] == line_cell(18 + self.value(), p),
    {
        line_indices(18 + self.0 as usize)
    }
}

impl Row {
    /// The row number held.
    pub closed spec fn value(self) -> int {
        self.0 as int
    }

    /// Creates a new row.
    pub fn new(row: u8) -> (r: Self)
        requires
            row < 9,
        ensures
            r.value() == row,
    {
        Self(row)
    }

    /// Returns the cells of this row from left to right.
    pub fn indices(&self) -> (r: Vec<usize>)
        requires
            self.value() < 9,
        ensures
            r@.len() == 9,
            forall|p: int| 0 <= p < 9 ==> #[trigger] r@[p] == line_cell(self.value(), p),
    {
        line_indices(self.0 as usize)
    }
}

impl Col {
    /// The column number held.
    pub closed spec fn value(self) -> int {
        self.0 as int
    }

    /// Creates a new column.
    pub fn new(col: u8) -> (r: Self)
        requires
            col < 9,
        ensures
            r.value() == col,
    {
        Self(col)
    }

    /// Returns the cells of this column from top to bottom.
    pub fn indices(&self) -> (r: Vec<usize>)
        requires
            self.value() < 9,
        ensures
            r@.len() == 9,
            forall|p: int| 0 <= p < 9 ==> #[trigger] r@[p] == line_cell(9 + self.value(), p),
    {
        line_indices(9 + self.0 as usize)
    }
}

} // verus!
