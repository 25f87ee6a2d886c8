use crate::visitor::{AcceptVisitor, Visitor};
use vstd::prelude::*;

verus! {

/// A plain 9×9 grid addressed by column and row.
#[derive(Debug)]
pub struct Board {
    pub cells: [[Option<u8>; 9]; 9],
}

impl Board {
    /// A grid whose column `x` is `cells[x]`.
    pub fn new(cells: [[Option<u8>; 9]; 9]) -> (r: Board)
        ensures
            r.cells == cells,
    {
        Board { cells }
    }

    /// A grid with every cell empty.
    pub fn new_empty() -> (r: Board)
        ensures
            forall|x: int, y: int| 0 <= x < 9 && 0 <= y < 9 ==> r.cells@[x]@[y] is None,
    {
        Board { cells: [[None; 9]; 9] }
    }

    /// The cell at column `x` and row `y`.
    pub fn cell(&self, x: usize, y: usize) -> (r: Option<u8>)
        requires
            x < 9,
            y < 9,
        ensures
            r == self.cells@[x as int]@[y as int],
    {
        self.cells[x][y]
    }
}

impl AcceptVisitor<Board> for Board {
    fn accept<V: Visitor<Board>>(&self, visitor: &V) -> V::Result {
        visitor.visit(self)
    }
}

} // verus!
