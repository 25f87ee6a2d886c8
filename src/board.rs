use crate::game::{
    build_default_index_to_group_lookup, build_set_of_default_groups, default_groups,
    lemma_default_covers, lookup_valid,
};
use crate::indexbitset::IndexBitSet;
use crate::prelude::index;
use vstd::prelude::*;

verus! {

/// A classic board: eighty-one cells in row-major order and, for each cell,
/// the 3×3 box it lies in.
pub struct Board {
    pub width: usize,
    pub height: usize,
    pub cells: [Option<u8>; 81],
    pub groups: Vec<IndexBitSet>,
    pub group_lookup: [u8; 81],
}

impl Board {
    pub open spec fn wf(&self) -> bool {
        &&& self.width == 9
        &&& self.height == 9
        &&& default_groups(self.groups@)
        &&& lookup_valid(self.groups@, self.group_lookup@)
    }

    /// A board from values in row-major order.
    pub fn new(cells: [Option<u8>; 81]) -> (r: Board)
        ensures
            r.wf(),
            r.cells@ == cells@,
    {
        let groups = build_set_of_default_groups();
        proof {
            lemma_default_covers(groups@);
        }
        let group_lookup = build_default_index_to_group_lookup(&groups);
        Board { width: 9, height: 9, cells, groups, group_lookup }
    }

    /// A board with every cell empty.
    pub fn new_empty() -> (r: Board)
        ensures
            r.wf(),
            forall|i: int| 0 <= i < 81 ==> r.cells@[i] is None,
    {
        Board::new([None; 81])
    }

    /// The cell at column `x` and row `y`.
    pub fn cell(&self, x: usize, y: usize) -> (r: Option<u8>)
        requires
            self.wf(),
            x < self.width,
            y < self.height,
        ensures
            r == self.cells@[x + 9 * y],
    {
        self.cells[index(x, y, self.width)]
    }
}

} // verus!
