use crate::game_state::{grid_ok, validate_grid};
use crate::indexbitset::{IndexBitSet, CELLS};
use crate::prelude::{col_of, index, lemma_coords, lemma_split, row_of, valid_cells};
use crate::state::State;
use crate::visitor::{AcceptVisitor, Visitor};
use vstd::prelude::*;

verus! {

/// Why a puzzle cannot be set up or solved.
#[derive(Debug, Clone, Copy, PartialEq, Eq, Structural)]
pub enum SudokuError {
    /// The regions do not cover the board with nine cells each, or the grid
    /// holds something other than digits and empty cells.
    InvalidPuzzle,
    /// Every branch of the search failed.
    NoSolution,
}

/// The classic 3×3 box of cell `i`, boxes numbered row by row.
pub open spec fn box_of(i: int) -> int {
    (row_of(i) / 3) * 3 + col_of(i) / 3
}

/// The cells of classic box `k`.
pub open spec fn box_set(k: int) -> Set<usize> {
    Set::new(|i: usize| i < 81 && box_of(i as int) == k)
}

/// Some region holds cell `i`.
pub open spec fn in_some_group(groups: Seq<IndexBitSet>, i: usize) -> bool {
    exists|g: int| 0 <= g < groups.len() && #[trigger] groups[g]@.contains(i)
}

/// Every cell lies in some region.
pub open spec fn covers(groups: Seq<IndexBitSet>) -> bool {
    forall|i: usize| i < 81 ==> #[trigger] in_some_group(groups, i)
}

/// Region bit sets that can be looked up by a byte and cover the board.
pub open spec fn regions_valid(groups: Seq<IndexBitSet>) -> bool {
    &&& groups.len() <= 255
    &&& forall|g: int| 0 <= g < groups.len() ==> (#[trigger] groups[g]).wf()
    &&& covers(groups)
}

/// Every region has nine cells.
pub open spec fn regions_sized(groups: Seq<IndexBitSet>) -> bool {
    forall|g: int| 0 <= g < groups.len() ==> (#[trigger] groups[g])@.len() == 9
}

/// `lookup[i]` is the last region that holds cell `i`.
pub open spec fn lookup_valid(groups: Seq<IndexBitSet>, lookup: Seq<u8>) -> bool {
    &&& lookup.len() == 81
    &&& forall|i: usize|
        #![trigger lookup[i as int]]
        i < 81 ==> {
            &&& lookup[i as int] < groups.len()
            &&& groups[lookup[i as int] as int]@.contains(i)
            &&& forall|g: int| lookup[i as int] < g < groups.len() ==> !groups[g]@.contains(i)
        }
}

/// The nine classic boxes, in order.
pub open spec fn default_groups(groups: Seq<IndexBitSet>) -> bool {
    &&& groups.len() == 9
    &&& forall|k: int| 0 <= k < 9 ==> (#[trigger] groups[k])@ == box_set(k) && groups[k].wf()
}

/// The digits `1..=9` in order.
pub open spec fn digits_seq() -> Seq<u8> {
    seq![1u8, 2, 3, 4, 5, 6, 7, 8, 9]
}

/// Something that gives the eighty-one initial cells of a puzzle.
pub trait IntoValues: Sized {
    /// The cells given, in row-major order.
    spec fn cells(&self) -> Seq<Option<u8>>;

    fn into(self) -> (r: [Option<u8>; 81])
        ensures
            r@ == self.cells(),
    ;
}

/// Raw digits, zero standing for an empty cell.
pub open spec fn cell_of_raw(v: u8) -> Option<u8> {
    if v == 0 {
        None
    } else {
        Some(v)
    }
}

impl IntoValues for [u8; 81] {
    open spec fn cells(&self) -> Seq<Option<u8>> {
        self@.map_values(|v: u8| cell_of_raw(v))
    }

    fn into(self) -> (r: [Option<u8>; 81]) {
        let mut values: [Option<u8>; 81] = [None; 81];
        let mut i: usize = 0;
        while i < CELLS
            invariant
                i <= 81,
                forall|j: int| 0 <= j < i ==> values@[j] == cell_of_raw(self@[j]),
            decreases 81 - i,
        {
            if self[i] == 0 {
                values[i] = None;
            } else {
                values[i] = Some(self[i]);
            }
            i = i + 1;
        }
        proof {
            assert(values@ =~= self.cells());
        }
        values
    }
}

impl IntoValues for [Option<u8>; 81] {
    open spec fn cells(&self) -> Seq<Option<u8>> {
        self@
    }

    fn into(self) -> (r: [Option<u8>; 81]) {
        self
    }
}

/// An immutable puzzle description: the initial grid, its regions and, for
/// each cell, the region it is looked up in.
pub struct Game {
    pub width: usize,
    pub height: usize,
    pub valid_symbols: [u8; 9],
    pub initial_state: State,
    pub groups: Vec<IndexBitSet>,
    pub group_lookup: [u8; 81],
}

impl AcceptVisitor<State> for Game {
    fn accept<V: Visitor<State>>(&self, visitor: &V) -> V::Result {
        visitor.visit(&self.initial_state)
    }
}

pub(crate) proof fn lemma_default_covers(groups: Seq<IndexBitSet>)
    requires
        default_groups(groups),
    ensures
        covers(groups),
{
    assert forall|i: usize| i < 81 implies #[trigger] in_some_group(groups, i) by {
        lemma_split(i as int);
        let k = box_of(i as int);
        assert(groups[k]@ == box_set(k));
        assert(groups[k]@.contains(i));
    }
}

impl Game {
    pub open spec fn wf(&self) -> bool {
        &&& self.width == 9
        &&& self.height == 9
        &&& self.valid_symbols@ == digits_seq()
        &&& self.initial_state.wf()
        &&& regions_valid(self.groups@)
        &&& lookup_valid(self.groups@, self.group_lookup@)
    }

    /// A classic puzzle, with the nine 3×3 boxes as its regions.
    pub fn new<S: IntoValues>(state: S) -> (r: Game)
        requires
            valid_cells(state.cells()),
        ensures
            r.wf(),
            r.initial_state@ == state.cells(),
            default_groups(r.groups@),
    {
        let symbols = build_default_symbols();
        let groups = build_set_of_default_groups();
        proof {
            lemma_default_covers(groups@);
        }
        let group_lookup = build_default_index_to_group_lookup(&groups);
        Game {
            width: 9,
            height: 9,
            valid_symbols: symbols,
            initial_state: State::new(IntoValues::into(state)),
            groups,
            group_lookup,
        }
    }

    /// A puzzle with the given regions in place of the classic boxes; the
    /// puzzle is refused unless each region has nine cells, the regions cover
    /// the board, every cell is empty or a digit, and no row, column or
    /// region holds a digit twice.
    pub fn new_with_groups<S: IntoValues>(state: S, groups: Vec<IndexBitSet>) -> (r: Result<
        Game,
        SudokuError,
    >)
        requires
            forall|g: int| 0 <= g < groups@.len() ==> (#[trigger] groups@[g]).wf(),
        ensures
            r is Ok <==> (valid_cells(state.cells()) && regions_valid(groups@) && regions_sized(
                groups@,
            ) && grid_ok(state.cells(), groups@, true)),
            r matches Err(e) ==> e == SudokuError::InvalidPuzzle,
            r matches Ok(game) ==> game.wf() && game.initial_state@ == state.cells()
                && game.groups@ == groups@,
    {
        let symbols = build_default_symbols();
        let values = IntoValues::into(state);
        if !cells_valid(&values) || !groups_valid(&groups) {
            return Err(SudokuError::InvalidPuzzle);
        }
        let initial_state = State::new(values);
        if !validate_grid(&initial_state, &groups, true) {
            return Err(SudokuError::InvalidPuzzle);
        }
        let group_lookup = build_default_index_to_group_lookup(&groups);
        Ok(Game { width: 9, height: 9, valid_symbols: symbols, initial_state, groups, group_lookup })
    }

    /// A classic puzzle with every cell empty.
    pub fn new_empty() -> (r: Game)
        ensures
            r.wf(),
            forall|i: int| 0 <= i < 81 ==> r.initial_state@[i] is None,
            default_groups(r.groups@),
    {
        let symbols = build_default_symbols();
        let groups = build_set_of_default_groups();
        proof {
            lemma_default_covers(groups@);
        }
        let group_lookup = build_default_index_to_group_lookup(&groups);
        Game {
            width: 9,
            height: 9,
            valid_symbols: symbols,
            initial_state: State::new([None; 81]),
            groups,
            group_lookup,
        }
    }

    /// A classic puzzle that the deduction steps solve without guessing.
    pub fn new_example() -> (r: Game)
        ensures
            r.wf(),
            default_groups(r.groups@),
            r.initial_state@ == classic_givens().map_values(|v: u8| cell_of_raw(v)),
    {
        let x = 0u8;
        let cells: [u8; 81] = [
            5, 3, x, x, 7, x, x, x, x,
            6, x, x, 1, 9, 5, x, x, x,
            x, 9, 8, x, x, x, x, 6, x,
            8, x, x, x, 6, x, x, x, 3,
            4, x, x, 8, x, 3, x, x, 1,
            7, x, x, x, 2, x, x, x, 6,
            x, 6, x, x, x, x, 2, 8, x,
            x, x, x, 4, 1, 9, x, x, 5,
            x, x, x, x, 8, x, x, 7, 9,
        ];
        proof {
            assert(cells@ =~= classic_givens());
            assert forall|i: int| 0 <= i < 81 implies crate::prelude::valid_cell(
                #[trigger] cells.cells()[i],
            ) by {
                assert(cells@[i] <= 9);
            }
        }
        Game::new(cells)
    }

    /// A puzzle with nine irregular regions: region `g` is the set of cells
    /// `i` with `nonomino_regions()[i] == g`.
    pub fn new_example_nonomino() -> (r: Game)
        ensures
            r.wf(),
            r.groups@.len() == 9,
            forall|g: int|
                0 <= g < 9 ==> (#[trigger] r.groups@[g])@ == Set::new(
                    |i: usize| i < 81 && nonomino_regions()[i as int] == g,
                ),
            r.initial_state@ == nonomino_givens().map_values(|v: u8| cell_of_raw(v)),
    {
        let regions: [u8; 81] = [
            0, 0, 0, 1, 2, 2, 2, 2, 2,
            0, 0, 0, 1, 1, 1, 2, 2, 2,
            0, 3, 3, 3, 3, 1, 1, 1, 2,
            0, 0, 3, 4, 4, 4, 4, 1, 1,
            3, 3, 3, 3, 4, 5, 5, 5, 5,
            6, 6, 4, 4, 4, 4, 5, 8, 8,
            7, 6, 6, 6, 5, 5, 5, 5, 8,
            7, 7, 7, 6, 6, 6, 8, 8, 8,
            7, 7, 7, 7, 7, 6, 8, 8, 8,
        ];
        proof {
            assert(regions@ =~= nonomino_regions());
        }
        let groups = build_groups_from_layout(&regions, 9);
        proof {
            assert forall|i: usize| i < 81 implies #[trigger] in_some_group(groups@, i) by {
                assert(groups@[regions@[i as int] as int]@.contains(i));
            }
        }
        let group_lookup = build_default_index_to_group_lookup(&groups);
        let x = 0u8;
        let cells: [u8; 81] = [
            3, x, x, x, x, x, x, x, 4,
            x, x, 2, x, 6, x, 1, x, x,
            x, 1, x, 9, x, 8, x, 2, x,
            x, x, 5, x, x, x, 6, x, x,
            x, 2, x, x, x, x, x, 1, x,
            x, x, 9, x, x, x, 8, x, x,
            x, 8, x, 3, x, 4, x, 6, x,
            x, x, 4, x, 1, x, 9, x, x,
            5, x, x, x, x, x, x, x, 7,
        ];
        proof {
            assert(cells@ =~= nonomino_givens());
            assert forall|i: int| 0 <= i < 81 implies crate::prelude::valid_cell(
                #[trigger] cells.cells()[i],
            ) by {
                assert(cells@[i] <= 9);
            }
        }
        let initial_state = State::new(IntoValues::into(cells));
        Game {
            width: 9,
            height: 9,
            valid_symbols: build_default_symbols(),
            initial_state,
            groups,
            group_lookup,
        }
    }

    /// A puzzle with the nine classic boxes and four overlapping windows.
    pub fn new_example_hypersudoku() -> (r: Game)
        ensures
            r.wf(),
            r.groups@.len() == 13,
            forall|k: int| 0 <= k < 9 ==> (#[trigger] r.groups@[k])@ == box_set(k),
            r.groups@[9]@ == set![10usize, 11, 12, 19, 20, 21, 28, 29, 30],
            r.groups@[10]@ == set![14usize, 15, 16, 23, 24, 25, 32, 33, 34],
            r.groups@[11]@ == set![46usize, 47, 48, 55, 56, 57, 64, 65, 66],
            r.groups@[12]@ == set![50usize, 51, 52, 59, 60, 61, 68, 69, 70],
            r.initial_state@ == hypersudoku_givens().map_values(|v: u8| cell_of_raw(v)),
    {
        let mut groups = build_set_of_default_groups();
        let ghost boxes = groups@;
        groups.push(IndexBitSet::default().with_value(10).with_value(11).with_value(12).with_value(19).with_value(20).with_value(21).with_value(28).with_value(29).with_value(30));
        groups.push(IndexBitSet::default().with_value(14).with_value(15).with_value(16).with_value(23).with_value(24).with_value(25).with_value(32).with_value(33).with_value(34));
        groups.push(IndexBitSet::default().with_value(46).with_value(47).with_value(48).with_value(55).with_value(56).with_value(57).with_value(64).with_value(65).with_value(66));
        groups.push(IndexBitSet::default().with_value(50).with_value(51).with_value(52).with_value(59).with_value(60).with_value(61).with_value(68).with_value(69).with_value(70));
        proof {
            assert forall|k: int| 0 <= k < 9 implies (#[trigger] groups@[k]) == boxes[k] by {}
            assert forall|i: usize| i < 81 implies #[trigger] in_some_group(groups@, i) by {
                lemma_split(i as int);
                let k = box_of(i as int);
                assert(groups@[k]@ == box_set(k));
                assert(groups@[k]@.contains(i));
            }
        }
        let group_lookup = build_default_index_to_group_lookup(&groups);
        let x = 0u8;
        let cells: [u8; 81] = [
            x, x, x, x, x, x, x, 1, x,
            x, x, 2, x, x, x, x, 3, 4,
            x, x, x, x, 5, 1, x, x, x,
            x, x, x, x, x, 6, 5, x, x,
            x, 7, x, 3, x, x, x, 8, x,
            x, x, 3, x, x, x, x, x, x,
            x, x, x, x, 8, x, x, x, x,
            5, 8, x, x, x, x, 9, x, x,
            6, 9, x, x, x, x, x, x, x,
        ];
        proof {
            assert(cells@ =~= hypersudoku_givens());
            assert forall|i: int| 0 <= i < 81 implies crate::prelude::valid_cell(
                #[trigger] cells.cells()[i],
            ) by {
                assert(cells@[i] <= 9);
            }
        }
        let initial_state = State::new(IntoValues::into(cells));
        Game {
            width: 9,
            height: 9,
            valid_symbols: build_default_symbols(),
            initial_state,
            groups,
            group_lookup,
        }
    }

    /// The cell of the initial grid at column `x` and row `y`.
    pub fn cell(&self, x: usize, y: usize) -> (r: Option<u8>)
        requires
            self.wf(),
            x < 9,
            y < 9,
        ensures
            r == self.initial_state@[x + 9 * y],
    {
        self.initial_state.cell_at_xy(x, y, self.width, self.height)
    }

    /// A copy of the initial grid.
    pub fn fork_state(&self) -> (r: State)
        ensures
            r == self.initial_state,
    {
        self.initial_state.clone()
    }

    /// The region that the cell at column `x` and row `y` is looked up in.
    pub fn group_id(&self, x: usize, y: usize) -> (r: u8)
        requires
            self.wf(),
            x < 9,
            y < 9,
        ensures
            r == self.group_lookup@[x + 9 * y],
            r < self.groups@.len(),
            self.groups@[r as int]@.contains((x + 9 * y) as usize),
    {
        self.group_lookup[index(x, y, self.width)]
    }

    /// The region that the cell at column `x` and row `y` is looked up in.
    pub fn group_at(&self, x: usize, y: usize) -> (r: &IndexBitSet)
        requires
            self.wf(),
            x < 9,
            y < 9,
        ensures
            *r == self.groups@[self.group_lookup@[x + 9 * y] as int],
            r@.contains((x + 9 * y) as usize),
    {
        let idx = self.group_id(x, y);
        &self.groups[idx as usize]
    }

    /// The digits a cell may hold.
    pub fn valid_symbols(&self) -> (r: &[u8; 9])
        requires
            self.wf(),
        ensures
            r@ == digits_seq(),
    {
        &self.valid_symbols
    }
}

/// The givens of the classic example, row by row, zero for an empty cell.
pub open spec fn classic_givens() -> Seq<u8> {
    seq![
        5u8, 3, 0, 0, 7, 0, 0, 0, 0,
        6, 0, 0, 1, 9, 5, 0, 0, 0,
        0, 9, 8, 0, 0, 0, 0, 6, 0,
        8, 0, 0, 0, 6, 0, 0, 0, 3,
        4, 0, 0, 8, 0, 3, 0, 0, 1,
        7, 0, 0, 0, 2, 0, 0, 0, 6,
        0, 6, 0, 0, 0, 0, 2, 8, 0,
        0, 0, 0, 4, 1, 9, 0, 0, 5,
        0, 0, 0, 0, 8, 0, 0, 7, 9,
    ]
}

/// The givens of the nonomino example, row by row, zero for an empty cell.
pub open spec fn nonomino_givens() -> Seq<u8> {
    seq![
        3u8, 0, 0, 0, 0, 0, 0, 0, 4,
        0, 0, 2, 0, 6, 0, 1, 0, 0,
        0, 1, 0, 9, 0, 8, 0, 2, 0,
        0, 0, 5, 0, 0, 0, 6, 0, 0,
        0, 2, 0, 0, 0, 0, 0, 1, 0,
        0, 0, 9, 0, 0, 0, 8, 0, 0,
        0, 8, 0, 3, 0, 4, 0, 6, 0,
        0, 0, 4, 0, 1, 0, 9, 0, 0,
        5, 0, 0, 0, 0, 0, 0, 0, 7,
    ]
}

/// The region of each cell of the nonomino example.
pub open spec fn nonomino_regions() -> Seq<u8> {
    seq![
        0u8, 0, 0, 1, 2, 2, 2, 2, 2,
        0, 0, 0, 1, 1, 1, 2, 2, 2,
        0, 3, 3, 3, 3, 1, 1, 1, 2,
        0, 0, 3, 4, 4, 4, 4, 1, 1,
        3, 3, 3, 3, 4, 5, 5, 5, 5,
        6, 6, 4, 4, 4, 4, 5, 8, 8,
        7, 6, 6, 6, 5, 5, 5, 5, 8,
        7, 7, 7, 6, 6, 6, 8, 8, 8,
        7, 7, 7, 7, 7, 6, 8, 8, 8,
    ]
}

/// The givens of the hypersudoku example, row by row, zero for an empty cell.
pub open spec fn hypersudoku_givens() -> Seq<u8> {
    seq![
        0u8, 0, 0, 0, 0, 0, 0, 1, 0,
        0, 0, 2, 0, 0, 0, 0, 3, 4,
        0, 0, 0, 0, 5, 1, 0, 0, 0,
        0, 0, 0, 0, 0, 6, 5, 0, 0,
        0, 7, 0, 3, 0, 0, 0, 8, 0,
        0, 0, 3, 0, 0, 0, 0, 0, 0,
        0, 0, 0, 0, 8, 0, 0, 0, 0,
        5, 8, 0, 0, 0, 0, 9, 0, 0,
        6, 9, 0, 0, 0, 0, 0, 0, 0,
    ]
}

/// Regions from a layout that names the region of each cell: region `g`
/// holds the cells `i` with `layout[i] == g`.
fn build_groups_from_layout(layout: &[u8; 81], count: usize) -> (r: Vec<IndexBitSet>)
    requires
        count <= 255,
        forall|i: int| 0 <= i < 81 ==> (#[trigger] layout@[i]) < count,
    ensures
        r@.len() == count,
        forall|g: int| 0 <= g < count ==> (#[trigger] r@[g]).wf(),
        forall|g: int|
            0 <= g < count ==> (#[trigger] r@[g])@ == Set::new(|i: usize| i < 81 && layout@[i as int] == g),
{
    let mut groups: Vec<IndexBitSet> = Vec::new();
    let mut g: usize = 0;
    while g < count
        invariant
            g <= count,
            groups@.len() == g,
            forall|h: int| 0 <= h < g ==> (#[trigger] groups@[h]).wf() && groups@[h]@ == Set::<usize>::empty(),
        decreases count - g,
    {
        groups.push(IndexBitSet::default());
        g = g + 1;
    }
    let mut i: usize = 0;
    while i < CELLS
        invariant
            i <= 81,
            count <= 255,
            forall|j: int| 0 <= j < 81 ==> (#[trigger] layout@[j]) < count,
            groups@.len() == count,
            forall|h: int| 0 <= h < count ==> (#[trigger] groups@[h]).wf(),
            forall|h: int|
                0 <= h < count ==> (#[trigger] groups@[h])@ == Set::new(
                    |j: usize| j < i && layout@[j as int] == h,
                ),
        decreases 81 - i,
    {
        let h = layout[i] as usize;
        let mut set = groups[h];
        set.insert(i);
        groups[h] = set;
        proof {
            assert forall|k: int| 0 <= k < count implies (#[trigger] groups@[k])@ == Set::new(
                |j: usize| j < i + 1 && layout@[j as int] == k,
            ) by {
                assert(groups@[k]@ =~= Set::new(|j: usize| j < i + 1 && layout@[j as int] == k));
            }
        }
        i = i + 1;
    }
    proof {
        assert forall|k: int| 0 <= k < count implies (#[trigger] groups@[k])@ == Set::new(
            |j: usize| j < 81 && layout@[j as int] == k,
        ) by {
            assert(groups@[k]@ =~= Set::new(|j: usize| j < 81 && layout@[j as int] == k));
        }
    }
    groups
}

/// Whether every cell is empty or holds a digit.
fn cells_valid(values: &[Option<u8>; 81]) -> (r: bool)
    ensures
        r == valid_cells(values@),
{
    let mut i: usize = 0;
    while i < CELLS
        invariant
            i <= 81,
            forall|j: int| 0 <= j < i ==> crate::prelude::valid_cell(#[trigger] values@[j]),
        decreases 81 - i,
    {
        match values[i] {
            Some(v) => {
                if v == 0 || v > 9 {
                    return false;
                }
            },
            None => {},
        }
        i = i + 1;
    }
    true
}

/// The digits `1..=9`.
fn build_default_symbols() -> (r: [u8; 9])
    ensures
        r@ == digits_seq(),
{
    let r = [1u8, 2, 3, 4, 5, 6, 7, 8, 9];
    proof {
        assert(r@ =~= digits_seq());
    }
    r
}

/// The classic box whose top left cell is at column `x_offset` and row `y_offset`.
pub fn build_default_group(x_offset: usize, y_offset: usize) -> (r: IndexBitSet)
    requires
        x_offset < 9,
        y_offset < 9,
        x_offset % 3 == 0,
        y_offset % 3 == 0,
    ensures
        r.wf(),
        r@ == box_set(y_offset + x_offset / 3),
{
    let ghost k = y_offset + x_offset / 3;
    let mut set = IndexBitSet::default();
    let mut y = y_offset;
    while y < y_offset + 3
        invariant
            x_offset < 9,
            y_offset < 9,
            x_offset % 3 == 0,
            y_offset % 3 == 0,
            k == y_offset + x_offset / 3,
            y_offset <= y <= y_offset + 3,
            set.wf(),
            set@ == Set::new(|i: usize| i < 81 && box_of(i as int) == k && row_of(i as int) < y),
        decreases y_offset + 3 - y,
    {
        let a = index(x_offset, y, 9);
        let b = index(x_offset + 1, y, 9);
        let c = index(x_offset + 2, y, 9);
        let ghost before = set@;
        set.insert(a);
        set.insert(b);
        set.insert(c);
        proof {
            lemma_coords(x_offset as int, y as int);
            lemma_coords(x_offset + 1, y as int);
            lemma_coords(x_offset + 2, y as int);
            let next = Set::new(
                |i: usize| i < 81 && box_of(i as int) == k && row_of(i as int) < y + 1,
            );
            assert forall|i: usize| #[trigger] set@.contains(i) == next.contains(i) by {
                if i < 81 {
                    lemma_split(i as int);
                }
            }
            assert(set@ =~= next);
        }
        y = y + 1;
    }
    proof {
        let full = box_set(k);
        assert forall|i: usize| #[trigger] set@.contains(i) == full.contains(i) by {
            if i < 81 {
                lemma_split(i as int);
            }
        }
        assert(set@ =~= full);
    }
    set
}

/// The nine classic boxes, numbered row by row.
pub fn build_set_of_default_groups() -> (r: Vec<IndexBitSet>)
    ensures
        default_groups(r@),
{
    let mut groups: Vec<IndexBitSet> = Vec::new();
    let mut gy: usize = 0;
    while gy < 3
        invariant
            gy <= 3,
            groups@.len() == 3 * gy,
            forall|k: int| 0 <= k < groups@.len() ==> (#[trigger] groups@[k])@ == box_set(k) && groups@[k].wf(),
        decreases 3 - gy,
    {
        let mut gx: usize = 0;
        while gx < 3
            invariant
                gy < 3,
                gx <= 3,
                groups@.len() == 3 * gy + gx,
                forall|k: int| 0 <= k < groups@.len() ==> (#[trigger] groups@[k])@ == box_set(k) && groups@[k].wf(),
            decreases 3 - gx,
        {
            let set = build_default_group(3 * gx, 3 * gy);
            groups.push(set);
            gx = gx + 1;
        }
        gy = gy + 1;
    }
    groups
}

/// Whether the regions have nine cells each and together cover the board.
fn groups_valid(groups: &Vec<IndexBitSet>) -> (r: bool)
    requires
        forall|g: int| 0 <= g < groups@.len() ==> (#[trigger] groups@[g]).wf(),
    ensures
        r == (regions_valid(groups@) && regions_sized(groups@)),
{
    if groups.len() > 255 {
        return false;
    }
    let mut g: usize = 0;
    while g < groups.len()
        invariant
            g <= groups@.len(),
            forall|h: int| 0 <= h < g ==> (#[trigger] groups@[h])@.len() == 9,
        decreases groups@.len() - g,
    {
        if groups[g].len() != 9 {
            return false;
        }
        g = g + 1;
    }
    let mut i: usize = 0;
    while i < CELLS
        invariant
            i <= 81,
            forall|j: usize| j < i ==> #[trigger] in_some_group(groups@, j),
        decreases 81 - i,
    {
        let mut found = false;
        let mut h: usize = 0;
        while h < groups.len()
            invariant
                h <= groups@.len(),
                found ==> in_some_group(groups@, i),
                !found ==> forall|h2: int| 0 <= h2 < h ==> !(#[trigger] groups@[h2]@.contains(i)),
            decreases groups@.len() - h,
        {
            if groups[h].contains(i) {
                found = true;
                proof {
                    assert(groups@[h as int]@.contains(i));
                }
            }
            h = h + 1;
        }
        if !found {
            proof {
                assert(!in_some_group(groups@, i));
                assert(!covers(groups@));
            }
            return false;
        }
        i = i + 1;
    }
    true
}

/// For each cell, the last region that holds it.
pub(crate) fn build_default_index_to_group_lookup(groups: &Vec<IndexBitSet>) -> (r: [u8; 81])
    requires
        regions_valid(groups@),
    ensures
        lookup_valid(groups@, r@),
{
    let mut lookup: [u8; 81] = [0u8; 81];
    let mut gid: usize = 0;
    while gid < groups.len()
        invariant
            gid <= groups@.len(),
            regions_valid(groups@),
            forall|i: usize|
                #![trigger lookup@[i as int]]
                i < 81 ==> {
                    ||| {
                        &&& lookup@[i as int] < gid
                        &&& groups@[lookup@[i as int] as int]@.contains(i)
                        &&& forall|g: int| lookup@[i as int] < g < gid ==> !groups@[g]@.contains(i)
                    }
                    ||| forall|g: int| 0 <= g < gid ==> !groups@[g]@.contains(i)
                },
        decreases groups@.len() - gid,
    {
        let mut idx: usize = 0;
        while idx < CELLS
            invariant
                gid < groups@.len(),
                idx <= 81,
                regions_valid(groups@),
                forall|i: usize|
                    #![trigger lookup@[i as int]]
                    idx <= i < 81 ==> {
                        ||| {
                            &&& lookup@[i as int] < gid
                            &&& groups@[lookup@[i as int] as int]@.contains(i)
                            &&& forall|g: int| lookup@[i as int] < g < gid ==> !groups@[g]@.contains(i)
                        }
                        ||| forall|g: int| 0 <= g < gid ==> !groups@[g]@.contains(i)
                    },
                forall|i: usize|
                    #![trigger lookup@[i as int]]
                    i < idx ==> {
                        ||| {
                            &&& lookup@[i as int] < gid + 1
                            &&& groups@[lookup@[i as int] as int]@.contains(i)
                            &&& forall|g: int| lookup@[i as int] < g < gid + 1 ==> !groups@[g]@.contains(i)
                        }
                        ||| forall|g: int| 0 <= g < gid + 1 ==> !groups@[g]@.contains(i)
                    },
            decreases 81 - idx,
        {
            if groups[gid].contains(idx) {
                lookup[idx] = gid as u8;
            }
            idx = idx + 1;
        }
        gid = gid + 1;
    }
    proof {
        assert forall|i: usize| i < 81 implies {
            &&& lookup@[i as int] < groups@.len()
            &&& groups@[lookup@[i as int] as int]@.contains(i)
            &&& forall|g: int| lookup@[i as int] < g < groups@.len() ==> !groups@[g]@.contains(i)
        } by {
            assert(in_some_group(groups@, i));
        }
    }
    lookup
}

} // verus!
