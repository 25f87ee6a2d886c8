use vstd::prelude::*;

verus! {

/// A cell position `0..81` in row-major order.
pub type Index = usize;

/// A coordinate `0..9` on either axis.
pub type Coordinate = usize;

/// A digit `1..=9`.
pub type Value = u8;

/// A cell's content: a digit, or `None` when the cell is empty.
pub type ValueOption = Option<u8>;

/// A Sudoku digit.
pub open spec fn is_digit(v: u8) -> bool {
    1 <= v <= 9
}

/// A cell that is empty or holds a digit.
pub open spec fn valid_cell(c: Option<u8>) -> bool {
    match c {
        Some(v) => is_digit(v),
        None => true,
    }
}

/// Eighty-one cells, each empty or holding a digit.
pub open spec fn valid_cells(cells: Seq<Option<u8>>) -> bool {
    cells.len() == 81 && forall|i: int| 0 <= i < 81 ==> valid_cell(#[trigger] cells[i])
}

/// The row of cell `i`.
pub open spec fn row_of(i: int) -> int {
    i / 9
}

/// The column of cell `i`.
pub open spec fn col_of(i: int) -> int {
    i % 9
}

/// Cell `x + 9 * y` lies at column `x` and row `y`.
pub proof fn lemma_coords(x: int, y: int)
    requires
        0 <= x < 9,
        0 <= y,
    ensures
        row_of(x + 9 * y) == y,
        col_of(x + 9 * y) == x,
{
    vstd::arithmetic::div_mod::lemma_fundamental_div_mod_converse(x + 9 * y, 9, y, x);
}

/// Every cell has a column and a row on the board.
pub proof fn lemma_split(i: int)
    requires
        0 <= i < 81,
    ensures
        0 <= col_of(i) < 9,
        0 <= row_of(i) < 9,
        i == col_of(i) + 9 * row_of(i),
{
    vstd::arithmetic::div_mod::lemma_fundamental_div_mod(i, 9);
}

/// The row-major index of the cell at column `x` and row `y` of a board
/// `width` cells wide.
pub fn index(x: usize, y: usize, width: usize) -> (r: usize)
    requires
        x + y * width <= usize::MAX,
    ensures
        r == x + y * width,
{
    x + y * width
}

} // verus!
