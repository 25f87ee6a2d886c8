use crate::game::{digits_seq, Game};
use crate::indexbitset::{IndexBitSet, CELLS};
use crate::placement::Placement;
use crate::prelude::{col_of, index, is_digit, lemma_coords, lemma_split, row_of, valid_cell, valid_cells};
use crate::state::{state_id_of, State, StateId};
use crate::valuebitset::ValueBitSet;
use crate::visitor::{AcceptVisitor, Visitor};
use std::rc::Rc;
use vstd::prelude::*;

verus! {

/// Which peers to collect: all of them, the empty ones, or the filled ones.
#[derive(Debug, Clone, Copy, PartialEq, Eq, Structural)]
pub enum CollectType {
    All,
    Empty,
    Filled,
}

/// Whether a cell with content `c` is collected under `how`.
pub open spec fn collects(how: CollectType, c: Option<u8>) -> bool {
    match how {
        CollectType::All => true,
        CollectType::Empty => c is None,
        CollectType::Filled => c is Some,
    }
}

/// Some region holds both cells.
pub open spec fn share_group(groups: Seq<IndexBitSet>, i: usize, j: usize) -> bool {
    exists|g: int| 0 <= g < groups.len() && #[trigger] groups[g]@.contains(i) && groups[g]@.contains(j)
}

/// Cells `i` and `j` share a row, a column or a region (a cell is its own peer).
pub open spec fn is_peer(groups: Seq<IndexBitSet>, i: usize, j: usize) -> bool {
    &&& i < 81
    &&& j < 81
    &&& {
        ||| row_of(i as int) == row_of(j as int)
        ||| col_of(i as int) == col_of(j as int)
        ||| share_group(groups, i, j)
    }
}

/// The peers of `i` that `how` collects, without `i` itself if `exclude_self`.
pub open spec fn peer_set(
    groups: Seq<IndexBitSet>,
    cells: Seq<Option<u8>>,
    i: usize,
    exclude_self: bool,
    how: CollectType,
) -> Set<usize> {
    Set::new(
        |j: usize|
            is_peer(groups, i, j) && !(exclude_self && j == i) && collects(how, cells[j as int]),
    )
}

/// The cells of row `y`.
pub open spec fn row_set(y: int) -> Set<usize> {
    Set::new(|j: usize| j < 81 && row_of(j as int) == y)
}

/// The cells of column `x`.
pub open spec fn column_set(x: int) -> Set<usize> {
    Set::new(|j: usize| j < 81 && col_of(j as int) == x)
}

/// No digit twice among the cells of `unit`, and, unless `allow_empty`, no
/// empty cell either.
pub open spec fn unit_ok(cells: Seq<Option<u8>>, unit: Set<usize>, allow_empty: bool) -> bool {
    &&& forall|a: usize, b: usize|
        #![trigger unit.contains(a), unit.contains(b)]
        unit.contains(a) && unit.contains(b) && a != b && cells[a as int] is Some ==> cells[a as int]
            != cells[b as int]
    &&& allow_empty || forall|a: usize| #[trigger] unit.contains(a) ==> cells[a as int] is Some
}

/// Every row, column and region passes [`unit_ok`].
pub open spec fn grid_ok(cells: Seq<Option<u8>>, groups: Seq<IndexBitSet>, allow_empty: bool) -> bool {
    &&& forall|y: int| 0 <= y < 9 ==> #[trigger] unit_ok(cells, row_set(y), allow_empty)
    &&& forall|x: int| 0 <= x < 9 ==> #[trigger] unit_ok(cells, column_set(x), allow_empty)
    &&& forall|g: int| 0 <= g < groups.len() ==> #[trigger] unit_ok(cells, groups[g]@, allow_empty)
}

/// The digits held by the cells of `unit`.
pub open spec fn unit_digits(cells: Seq<Option<u8>>, unit: Set<usize>) -> Set<u8> {
    unit.map(|i: usize| cells[i as int]->0)
}

/// The digits `1..=9`.
pub open spec fn all_digits() -> Set<u8> {
    Set::new(|v: u8| is_digit(v))
}

/// A unit of nine cells with no empty cell and no digit twice holds each
/// digit exactly once: its digits are `1..=9`.
pub proof fn lemma_full_unit_is_permutation(cells: Seq<Option<u8>>, unit: Set<usize>)
    requires
        valid_cells(cells),
        unit.finite(),
        unit.len() == 9,
        forall|i: usize| #[trigger] unit.contains(i) ==> i < 81,
        unit_ok(cells, unit, false),
    ensures
        unit_digits(cells, unit) == all_digits(),
{
    let f = |i: usize| cells[i as int]->0;
    assert(vstd::relations::injective_on(f, unit)) by {
        assert forall|a: usize, b: usize| unit.contains(a) && unit.contains(b) && #[trigger] f(a) == #[trigger] f(b) implies a == b by {
            if a != b {
                assert(unit.contains(a) && unit.contains(b));
                assert(cells[a as int] is Some && cells[b as int] is Some);
            }
        }
    }
    let digits = unit.map(f);
    vstd::set_lib::lemma_map_size(unit, digits, f);
    assert(digits.subset_of(all_digits())) by {
        assert forall|v: u8| #[trigger] digits.contains(v) implies all_digits().contains(v) by {
            let i = choose|i: usize| unit.contains(i) && f(i) == v;
            assert(valid_cell(cells[i as int]));
            assert(cells[i as int] is Some);
        }
    }
    assert(all_digits() =~= set![1u8, 2, 3, 4, 5, 6, 7, 8, 9]);
    assert(set![1u8, 2, 3, 4, 5, 6, 7, 8, 9].len() == 9);
    vstd::set_lib::lemma_subset_equality(digits, all_digits());
}

proof fn lemma_row_set_size(y: int)
    requires
        0 <= y < 9,
    ensures
        row_set(y).finite(),
        row_set(y).len() == 9,
{
    let lo = (9 * y) as usize;
    let hi = (9 * y + 9) as usize;
    assert(row_set(y) =~= Set::range(lo, hi)) by {
        assert forall|j: usize| #[trigger] row_set(y).contains(j) == Set::range(lo, hi).contains(j) by {
            if j < 81 {
                lemma_split(j as int);
            }
            if lo <= j < hi {
                lemma_coords(j - lo, y);
            }
        }
    }
    vstd::set_lib::range_set_properties(lo, hi);
}

proof fn lemma_column_set_size(x: int)
    requires
        0 <= x < 9,
    ensures
        column_set(x).finite(),
        column_set(x).len() == 9,
{
    let f = |k: usize| (x + 9 * k) as usize;
    let rows = Set::range(0usize, 9usize);
    vstd::set_lib::range_set_properties(0usize, 9usize);
    assert(column_set(x) =~= rows.map(f)) by {
        assert forall|j: usize| #[trigger] column_set(x).contains(j) == rows.map(f).contains(j) by {
            if column_set(x).contains(j) {
                lemma_split(j as int);
                let k = row_of(j as int) as usize;
                assert(rows.contains(k) && f(k) == j);
            }
            if rows.map(f).contains(j) {
                let k = choose|k: usize| rows.contains(k) && f(k) == j;
                lemma_coords(x, k as int);
            }
        }
    }
    assert(vstd::relations::injective_on(f, rows));
    vstd::set_lib::lemma_map_size(rows, column_set(x), f);
}

/// A grid that passes the complete check holds each digit exactly once in
/// every row, every column and every region of nine cells.
pub proof fn lemma_complete_grid_is_permutation(cells: Seq<Option<u8>>, groups: Seq<IndexBitSet>)
    requires
        valid_cells(cells),
        grid_ok(cells, groups, false),
        forall|g: int| 0 <= g < groups.len() ==> (#[trigger] groups[g]).wf(),
    ensures
        forall|y: int| 0 <= y < 9 ==> #[trigger] unit_digits(cells, row_set(y)) == all_digits(),
        forall|x: int| 0 <= x < 9 ==> #[trigger] unit_digits(cells, column_set(x)) == all_digits(),
        forall|g: int|
            0 <= g < groups.len() && (#[trigger] groups[g])@.len() == 9 ==> unit_digits(cells, groups[g]@)
                == all_digits(),
{
    assert forall|y: int| 0 <= y < 9 implies #[trigger] unit_digits(cells, row_set(y)) == all_digits() by {
        lemma_row_set_size(y);
        assert(unit_ok(cells, row_set(y), false));
        lemma_full_unit_is_permutation(cells, row_set(y));
    }
    assert forall|x: int| 0 <= x < 9 implies #[trigger] unit_digits(cells, column_set(x)) == all_digits() by {
        lemma_column_set_size(x);
        assert(unit_ok(cells, column_set(x), false));
        lemma_full_unit_is_permutation(cells, column_set(x));
    }
    assert forall|g: int|
        0 <= g < groups.len() && (#[trigger] groups[g])@.len() == 9 implies unit_digits(cells, groups[g]@)
            == all_digits() by {
        groups[g].lemma_finite();
        assert(unit_ok(cells, groups[g]@, false));
        lemma_full_unit_is_permutation(cells, groups[g]@);
    }
}

/// The filled peers of `i` as placements.
pub open spec fn is_peer_placement(
    groups: Seq<IndexBitSet>,
    cells: Seq<Option<u8>>,
    i: usize,
    exclude_self: bool,
    p: Placement,
) -> bool {
    peer_set(groups, cells, i, exclude_self, CollectType::Filled).contains(p.index) && cells[p.index as int]
        == Some(p.value)
}

/// A node of the search: the grid so far, its empty cells, and the puzzle
/// it belongs to.
pub struct GameState {
    pub empty_cells: IndexBitSet,
    pub game: Rc<Game>,
    pub state: State,
}

impl Clone for GameState {
    /// A node with the same grid, sharing the puzzle.
    fn clone(&self) -> (r: GameState)
        ensures
            r == *self,
    {
        GameState { game: Rc::clone(&self.game), state: self.state.clone(), empty_cells: self.empty_cells }
    }
}

impl AcceptVisitor<GameState> for GameState {
    fn accept<V: Visitor<GameState>>(&self, visitor: &V) -> V::Result {
        visitor.visit(self)
    }
}

impl PartialEq for GameState {
    /// Nodes are equal when their grids are.
    fn eq(&self, other: &GameState) -> (r: bool)
        ensures
            r == (self.cells() == other.cells()),
    {
        self.state == other.state
    }
}

impl vstd::std_specs::cmp::PartialEqSpecImpl for GameState {
    open spec fn obeys_eq_spec() -> bool {
        true
    }

    open spec fn eq_spec(&self, other: &GameState) -> bool {
        self.cells() == other.cells()
    }
}

impl Eq for GameState {
}

impl GameState {
    pub open spec fn wf(&self) -> bool {
        &&& self.game.wf()
        &&& self.state.wf()
        &&& self.empty_cells.wf()
        &&& forall|i: usize| #[trigger]
            self.empty_cells@.contains(i) <==> i < 81 && self.state@[i as int] is None
    }

    /// The regions of the puzzle.
    pub open spec fn regions(&self) -> Seq<IndexBitSet> {
        self.game.groups@
    }

    /// The cells of the grid.
    pub open spec fn cells(&self) -> Seq<Option<u8>> {
        self.state@
    }

    /// The search's first node: the puzzle's initial grid.
    pub fn new(game: Game) -> (r: GameState)
        requires
            game.wf(),
        ensures
            r.wf(),
            *r.game == game,
            r.state == game.initial_state,
    {
        let state = game.fork_state();
        let missing = state.empty_cells();
        GameState { game: Rc::new(game), state, empty_cells: missing }
    }

    /// The filled peers of cell `index`, in ascending order of index.
    pub fn peers_by_index(&self, index: usize, exclude_self: bool) -> (r: Vec<Placement>)
        requires
            self.wf(),
            index < CELLS,
        ensures
            forall|p: Placement|
                r@.contains(p) <==> is_peer_placement(
                    self.regions(),
                    self.cells(),
                    index,
                    exclude_self,
                    p,
                ),
            forall|a: int, b: int| 0 <= a < b < r@.len() ==> r@[a].index < r@[b].index,
    {
        let (x, y) = self.index_to_xy(index);
        self.peers_by_xy(x, y, exclude_self)
    }

    /// The peers of cell `index` that `how` collects.
    pub fn peer_indexes_by_index(&self, index: usize, exclude_self: bool, how: CollectType) -> (r:
        IndexBitSet)
        requires
            self.wf(),
            index < CELLS,
        ensures
            r.wf(),
            r@ == peer_set(self.regions(), self.cells(), index, exclude_self, how),
    {
        let (x, y) = self.index_to_xy(index);
        self.peer_indexes_by_xy(x, y, exclude_self, how)
    }

    /// The filled peers of the cell at column `x` and row `y`, in ascending
    /// order of index.
    pub fn peers_by_xy(&self, x: usize, y: usize, exclude_self: bool) -> (r: Vec<Placement>)
        requires
            self.wf(),
            x < 9,
            y < 9,
        ensures
            forall|p: Placement|
                r@.contains(p) <==> is_peer_placement(
                    self.regions(),
                    self.cells(),
                    (x + 9 * y) as usize,
                    exclude_self,
                    p,
                ),
            forall|a: int, b: int| 0 <= a < b < r@.len() ==> r@[a].index < r@[b].index,
    {
        let ghost i = (x + 9 * y) as usize;
        let indexes = self.peer_indexes_by_xy(x, y, exclude_self, CollectType::Filled);
        let mut set: Vec<Placement> = Vec::new();
        let mut k: usize = 0;
        while k < CELLS
            invariant
                self.wf(),
                k <= 81,
                indexes@ == peer_set(self.regions(), self.cells(), i, exclude_self, CollectType::Filled),
                forall|p: Placement|
                    set@.contains(p) <==> p.index < k && is_peer_placement(
                        self.regions(),
                        self.cells(),
                        i,
                        exclude_self,
                        p,
                    ),
                forall|a: int| 0 <= a < set@.len() ==> set@[a].index < k,
                forall|a: int, b: int| 0 <= a < b < set@.len() ==> set@[a].index < set@[b].index,
            decreases 81 - k,
        {
            let ghost before = set@;
            if indexes.contains(k) {
                self.collect_if_set(&mut set, k);
            }
            proof {
                assert forall|p: Placement|
                    set@.contains(p) <==> p.index < k + 1 && is_peer_placement(
                        self.regions(),
                        self.cells(),
                        i,
                        exclude_self,
                        p,
                    ) by {
                    if set@.contains(p) && !before.contains(p) {
                        assert(set@.last() == p);
                    }
                    if p.index == k && is_peer_placement(self.regions(), self.cells(), i, exclude_self, p) {
                        assert(set@.last() == p);
                        assert(set@.contains(set@.last()));
                    }
                    if before.contains(p) {
                        let j = choose|j: int| 0 <= j < before.len() && before[j] == p;
                        assert(set@[j] == p);
                    }
                }
            }
            k = k + 1;
        }
        set
    }

    /// The peers of the cell at column `x` and row `y` that `how` collects.
    pub fn peer_indexes_by_xy(&self, x: usize, y: usize, exclude_self: bool, how: CollectType) -> (r:
        IndexBitSet)
        requires
            self.wf(),
            x < 9,
            y < 9,
        ensures
            r.wf(),
            r@ == peer_set(self.regions(), self.cells(), (x + 9 * y) as usize, exclude_self, how),
    {
        let column = self.get_column_indexes(x, y, exclude_self, &how);
        let row = self.get_row_indexes(x, y, exclude_self, &how);
        let group = self.get_group_indexes(x, y, exclude_self, &how);
        let r = column.with_union(&row).with_union(&group);
        proof {
            let i = (x + 9 * y) as usize;
            lemma_coords(x as int, y as int);
            let target = peer_set(self.regions(), self.cells(), i, exclude_self, how);
            assert forall|j: usize| #[trigger] r@.contains(j) == target.contains(j) by {
                if j < 81 {
                    lemma_split(j as int);
                }
                if share_group(self.regions(), i, j) {
                    let g = choose|g: int|
                        0 <= g < self.regions().len() && #[trigger] self.regions()[g]@.contains(i)
                            && self.regions()[g]@.contains(j);
                    self.regions()[g].lemma_finite();
                }
            }
            assert(r@ =~= target);
        }
        r
    }

    /// Writes `value` at `index`.
    pub fn apply(&mut self, index: usize, value: u8)
        requires
            old(self).wf(),
            index < CELLS,
            is_digit(value),
        ensures
            final(self).wf(),
            final(self).game == old(self).game,
            final(self).cells() == old(self).cells().update(index as int, Some(value)),
    {
        self.state.apply(index, value);
        self.empty_cells.remove(index);
    }

    /// Writes the placement's digit at its cell.
    pub fn apply_move(&mut self, placement: &Placement)
        requires
            old(self).wf(),
            placement.index < CELLS,
            is_digit(placement.value),
        ensures
            final(self).wf(),
            final(self).game == old(self).game,
            final(self).cells() == old(self).cells().update(
                placement.index as int,
                Some(placement.value),
            ),
    {
        self.apply(placement.index, placement.value)
    }

    /// A new node with `value` written at `index`, sharing the puzzle; this
    /// node is unchanged.
    pub fn apply_and_fork(&self, index: usize, value: u8) -> (r: GameState)
        requires
            self.wf(),
            index < CELLS,
            is_digit(value),
        ensures
            r.wf(),
            r.game == self.game,
            r.cells() == self.cells().update(index as int, Some(value)),
    {
        let state = self.state.apply_and_fork(index, value);
        let missing = state.empty_cells();
        GameState { game: Rc::clone(&self.game), state, empty_cells: missing }
    }

    /// The digits a cell may hold.
    pub fn valid_symbols(&self) -> (r: &[u8; 9])
        requires
            self.wf(),
        ensures
            r@ == digits_seq(),
    {
        self.game.valid_symbols()
    }

    /// The cell at column `x` and row `y`.
    pub fn cell(&self, x: usize, y: usize) -> (r: Option<u8>)
        requires
            self.wf(),
            x < 9,
            y < 9,
        ensures
            r == self.cells()[x + 9 * y],
    {
        self.state.cell_at_xy(x, y, self.game.width, self.game.height)
    }

    /// The identity of the grid.
    pub fn id(&self) -> (r: &StateId)
        requires
            self.wf(),
        ensures
            r@ == state_id_of(self.cells()),
    {
        &self.state.id
    }

    /// The cells of row `y` that `how` collects, without the one at column
    /// `x_reference` if `exclude_self`.
    fn get_row_indexes(
        &self,
        x_reference: usize,
        y: usize,
        exclude_self: bool,
        how: &CollectType,
    ) -> (r: IndexBitSet)
        requires
            self.wf(),
            y < 9,
        ensures
            r.wf(),
            forall|j: usize|
                #[trigger] r@.contains(j) <==> j < 81 && row_of(j as int) == y && !(exclude_self
                    && col_of(j as int) == x_reference) && collects(*how, self.cells()[j as int]),
    {
        let mut set = IndexBitSet::default();
        let mut x: usize = 0;
        while x < 9
            invariant
                self.wf(),
                y < 9,
                x <= 9,
                set.wf(),
                forall|j: usize|
                    #[trigger] set@.contains(j) <==> j < 81 && row_of(j as int) == y && col_of(j as int)
                        < x && !(exclude_self && col_of(j as int) == x_reference) && collects(
                        *how,
                        self.cells()[j as int],
                    ),
            decreases 9 - x,
        {
            if !(exclude_self && x == x_reference) {
                let index = self.xy_to_index(x, y);
                self.collect_index_if(&mut set, index, how);
            }
            proof {
                lemma_coords(x as int, y as int);
                assert forall|j: usize|
                    #[trigger] set@.contains(j) <==> j < 81 && row_of(j as int) == y && col_of(j as int)
                        < x + 1 && !(exclude_self && col_of(j as int) == x_reference) && collects(
                        *how,
                        self.cells()[j as int],
                    ) by {
                    if j < 81 {
                        lemma_split(j as int);
                    }
                }
            }
            x = x + 1;
        }
        proof {
            assert forall|j: usize| #[trigger] set@.contains(j) implies col_of(j as int) < 9 by {
                if j < 81 {
                    lemma_split(j as int);
                }
            }
        }
        set
    }

    /// The cells of column `x` that `how` collects, without the one at row
    /// `y_reference` if `exclude_self`.
    fn get_column_indexes(
        &self,
        x: usize,
        y_reference: usize,
        exclude_self: bool,
        how: &CollectType,
    ) -> (r: IndexBitSet)
        requires
            self.wf(),
            x < 9,
        ensures
            r.wf(),
            forall|j: usize|
                #[trigger] r@.contains(j) <==> j < 81 && col_of(j as int) == x && !(exclude_self
                    && row_of(j as int) == y_reference) && collects(*how, self.cells()[j as int]),
    {
        let mut set = IndexBitSet::default();
        let mut y: usize = 0;
        while y < 9
            invariant
                self.wf(),
                x < 9,
                y <= 9,
                set.wf(),
                forall|j: usize|
                    #[trigger] set@.contains(j) <==> j < 81 && col_of(j as int) == x && row_of(j as int)
                        < y && !(exclude_self && row_of(j as int) == y_reference) && collects(
                        *how,
                        self.cells()[j as int],
                    ),
            decreases 9 - y,
        {
            if !(exclude_self && y == y_reference) {
                let index = self.xy_to_index(x, y);
                self.collect_index_if(&mut set, index, how);
            }
            proof {
                lemma_coords(x as int, y as int);
                assert forall|j: usize|
                    #[trigger] set@.contains(j) <==> j < 81 && col_of(j as int) == x && row_of(j as int)
                        < y + 1 && !(exclude_self && row_of(j as int) == y_reference) && collects(
                        *how,
                        self.cells()[j as int],
                    ) by {
                    if j < 81 {
                        lemma_split(j as int);
                    }
                }
            }
            y = y + 1;
        }
        proof {
            assert forall|j: usize| #[trigger] set@.contains(j) implies row_of(j as int) < 9 by {
                if j < 81 {
                    lemma_split(j as int);
                }
            }
        }
        set
    }

    /// The cells that share a region with the cell at column `x` and row `y`
    /// and that `how` collects, without that cell if `exclude_self`.
    fn get_group_indexes(&self, x: usize, y: usize, exclude_self: bool, how: &CollectType) -> (r:
        IndexBitSet)
        requires
            self.wf(),
            x < 9,
            y < 9,
        ensures
            r.wf(),
            forall|j: usize|
                #[trigger] r@.contains(j) <==> share_group(self.regions(), (x + 9 * y) as usize, j)
                    && !(exclude_self && j == x + 9 * y) && collects(*how, self.cells()[j as int]),
    {
        let index_reference = self.xy_to_index(x, y);
        let groups = &self.game.groups;
        let mut set = IndexBitSet::default();
        let mut g: usize = 0;
        while g < groups.len()
            invariant
                self.wf(),
                groups@ == self.regions(),
                index_reference < 81,
                g <= groups@.len(),
                set.wf(),
                forall|j: usize|
                    #[trigger] set@.contains(j) <==> (exists|h: int|
                        0 <= h < g && #[trigger] groups@[h]@.contains(index_reference)
                            && groups@[h]@.contains(j)) && !(exclude_self && j == index_reference)
                        && collects(*how, self.cells()[j as int]),
            decreases groups@.len() - g,
        {
            let group = &groups[g];
            let ghost before = set@;
            if group.contains(index_reference) {
                let mut m: usize = 0;
                while m < CELLS
                    invariant
                        self.wf(),
                        groups@ == self.regions(),
                        g < groups@.len(),
                        *group == groups@[g as int],
                        group@.contains(index_reference),
                        m <= 81,
                        set.wf(),
                        forall|j: usize|
                            #[trigger] set@.contains(j) <==> before.contains(j) || (j < m
                                && group@.contains(j) && !(exclude_self && j == index_reference)
                                && collects(*how, self.cells()[j as int])),
                    decreases 81 - m,
                {
                    if group.contains(m) && !(exclude_self && m == index_reference) {
                        self.collect_index_if(&mut set, m, how);
                    }
                    m = m + 1;
                }
                proof {
                    group.lemma_finite();
                }
            }
            proof {
                assert forall|j: usize|
                    #[trigger] set@.contains(j) <==> (exists|h: int|
                        0 <= h < g + 1 && #[trigger] groups@[h]@.contains(index_reference)
                            && groups@[h]@.contains(j)) && !(exclude_self && j == index_reference)
                        && collects(*how, self.cells()[j as int]) by {
                    if set@.contains(j) && !before.contains(j) {
                        assert(groups@[g as int]@.contains(index_reference) && groups@[g as int]@.contains(j));
                    }
                    if (exists|h: int|
                        0 <= h < g + 1 && #[trigger] groups@[h]@.contains(index_reference)
                            && groups@[h]@.contains(j)) && !(exclude_self && j == index_reference)
                        && collects(*how, self.cells()[j as int]) {
                        let h = choose|h: int|
                            0 <= h < g + 1 && #[trigger] groups@[h]@.contains(index_reference)
                                && groups@[h]@.contains(j);
                        if h == g {
                            groups@[h].lemma_finite();
                        }
                    }
                }
            }
            g = g + 1;
        }
        set
    }

    /// The cell at `index`.
    fn cell_at_index(&self, index: usize) -> (r: Option<u8>)
        requires
            self.wf(),
            index < CELLS,
        ensures
            r == self.cells()[index as int],
    {
        self.state.cell_at_index(index, self.game.width, self.game.height)
    }

    /// Appends the placement at `index` if that cell is filled.
    fn collect_if_set(&self, set: &mut Vec<Placement>, index: usize)
        requires
            self.wf(),
            index < CELLS,
        ensures
            match self.cells()[index as int] {
                Some(v) => final(set)@ == old(set)@.push(Placement { index, value: v }),
                None => final(set)@ == old(set)@,
            },
    {
        if let Some(value) = self.cell_at_index(index) {
            set.push(Placement::new(value, index));
        }
    }

    /// Adds `index` to the set if `condition` collects that cell.
    fn collect_index_if(&self, set: &mut IndexBitSet, index: usize, condition: &CollectType)
        requires
            self.wf(),
            old(set).wf(),
            index < CELLS,
        ensures
            final(set).wf(),
            final(set)@ == if collects(*condition, self.cells()[index as int]) {
                old(set)@.insert(index)
            } else {
                old(set)@
            },
    {
        let cell = self.cell_at_index(index);
        match condition {
            CollectType::All => set.insert(index),
            CollectType::Empty => {
                if cell.is_none() {
                    set.insert(index);
                }
            },
            CollectType::Filled => {
                if cell.is_some() {
                    set.insert(index);
                }
            },
        }
    }

    /// The row-major index of the cell at column `x` and row `y`.
    pub fn xy_to_index(&self, x: usize, y: usize) -> (r: usize)
        requires
            self.wf(),
            x < 9,
            y < 9,
        ensures
            r == x + 9 * y,
            r < 81,
    {
        index(x, y, self.game.width)
    }

    /// The column and row of cell `index`.
    pub fn index_to_xy(&self, index: usize) -> (r: (usize, usize))
        requires
            self.wf(),
            index < CELLS,
        ensures
            r.0 == col_of(index as int),
            r.1 == row_of(index as int),
            r.0 < 9,
            r.1 < 9,
            index == r.0 + 9 * r.1,
    {
        proof {
            lemma_split(index as int);
        }
        let x = index % self.game.width;
        let y = index / self.game.width;
        (x, y)
    }

    /// Whether every row, every column and every region holds no digit
    /// twice and, unless `allow_empty`, no empty cell.
    pub fn validate(&self, allow_empty: bool) -> (r: bool)
        requires
            self.wf(),
        ensures
            r == grid_ok(self.cells(), self.regions(), allow_empty),
    {
        validate_grid(&self.state, &self.game.groups, allow_empty)
    }
}

/// Whether every row, every column and every region of `groups` holds no
/// digit twice and, unless `allow_empty`, no empty cell.
pub fn validate_grid(state: &State, groups: &Vec<IndexBitSet>, allow_empty: bool) -> (r: bool)
    requires
        state.wf(),
        forall|g: int| 0 <= g < groups@.len() ==> (#[trigger] groups@[g]).wf(),
    ensures
        r == grid_ok(state@, groups@, allow_empty),
{
    let mut y: usize = 0;
    while y < 9
        invariant
            state.wf(),
            y <= 9,
            forall|y2: int| 0 <= y2 < y ==> #[trigger] unit_ok(state@, row_set(y2), allow_empty),
        decreases 9 - y,
    {
        if !validate_row(state, y, allow_empty) {
            return false;
        }
        y = y + 1;
    }
    let mut x: usize = 0;
    while x < 9
        invariant
            state.wf(),
            x <= 9,
            forall|y2: int| 0 <= y2 < 9 ==> #[trigger] unit_ok(state@, row_set(y2), allow_empty),
            forall|x2: int| 0 <= x2 < x ==> #[trigger] unit_ok(state@, column_set(x2), allow_empty),
        decreases 9 - x,
    {
        if !validate_column(state, x, allow_empty) {
            return false;
        }
        x = x + 1;
    }
    let mut g: usize = 0;
    while g < groups.len()
        invariant
            state.wf(),
            forall|h: int| 0 <= h < groups@.len() ==> (#[trigger] groups@[h]).wf(),
            g <= groups@.len(),
            forall|y2: int| 0 <= y2 < 9 ==> #[trigger] unit_ok(state@, row_set(y2), allow_empty),
            forall|x2: int| 0 <= x2 < 9 ==> #[trigger] unit_ok(state@, column_set(x2), allow_empty),
            forall|g2: int| 0 <= g2 < g ==> #[trigger] unit_ok(state@, groups@[g2]@, allow_empty),
        decreases groups@.len() - g,
    {
        if !validate_group(state, &groups[g], allow_empty) {
            return false;
        }
        g = g + 1;
    }
    true
}

/// Whether row `y` passes [`unit_ok`].
fn validate_row(state: &State, y: usize, allow_empty: bool) -> (r: bool)
    requires
        state.wf(),
        y < 9,
    ensures
        r == unit_ok(state@, row_set(y as int), allow_empty),
{
    let mut unit = IndexBitSet::default();
    let mut k: usize = 0;
    while k < CELLS
        invariant
            k <= 81,
            unit.wf(),
            forall|j: usize| #[trigger] unit@.contains(j) <==> j < k && row_of(j as int) == y,
        decreases 81 - k,
    {
        if k / 9 == y {
            unit.insert(k);
        }
        k = k + 1;
    }
    proof {
        assert(unit@ =~= row_set(y as int));
    }
    validate_unit(state, &unit, allow_empty)
}

/// Whether column `x` passes [`unit_ok`].
fn validate_column(state: &State, x: usize, allow_empty: bool) -> (r: bool)
    requires
        state.wf(),
        x < 9,
    ensures
        r == unit_ok(state@, column_set(x as int), allow_empty),
{
    let mut unit = IndexBitSet::default();
    let mut k: usize = 0;
    while k < CELLS
        invariant
            k <= 81,
            unit.wf(),
            forall|j: usize| #[trigger] unit@.contains(j) <==> j < k && col_of(j as int) == x,
        decreases 81 - k,
    {
        if k % 9 == x {
            unit.insert(k);
        }
        k = k + 1;
    }
    proof {
        assert(unit@ =~= column_set(x as int));
    }
    validate_unit(state, &unit, allow_empty)
}

/// Whether `group` passes [`unit_ok`].
fn validate_group(state: &State, group: &IndexBitSet, allow_empty: bool) -> (r: bool)
    requires
        state.wf(),
        group.wf(),
    ensures
        r == unit_ok(state@, group@, allow_empty),
{
    validate_unit(state, group, allow_empty)
}

/// Whether the cells of `unit` hold no digit twice and, unless
/// `allow_empty`, no empty cell.
fn validate_unit(state: &State, unit: &IndexBitSet, allow_empty: bool) -> (r: bool)
    requires
        state.wf(),
        unit.wf(),
    ensures
        r == unit_ok(state@, unit@, allow_empty),
{
    let ghost cells = state@;
    let mut seen = ValueBitSet::default();
    let mut full = true;
    let mut k: usize = 0;
    while k < CELLS
        invariant
            state.wf(),
            cells == state@,
            k <= 81,
            seen.wf(),
            forall|v: u8|
                #[trigger] seen@.contains(v) <==> exists|a: usize|
                    a < k && #[trigger] unit@.contains(a) && cells[a as int] == Some(v),
            forall|a: usize, b: usize|
                #![trigger unit@.contains(a), unit@.contains(b)]
                a < k && b < k && unit@.contains(a) && unit@.contains(b) && a != b
                    && cells[a as int] is Some ==> cells[a as int] != cells[b as int],
            full <==> forall|a: usize| a < k && #[trigger] unit@.contains(a) ==> cells[a as int] is Some,
        decreases 81 - k,
    {
        if unit.contains(k) {
            match state.cell_at_index(k, 9, 9) {
                Some(v) => {
                    if seen.contains(v) {
                        proof {
                            let a = choose|a: usize|
                                a < k && #[trigger] unit@.contains(a) && cells[a as int] == Some(v);
                            assert(unit@.contains(a) && unit@.contains(k) && a != k);
                        }
                        return false;
                    }
                    proof {
                        assert(valid_cell(cells[k as int]));
                    }
                    seen.insert(v);
                    proof {
                        assert forall|u: u8|
                            #[trigger] seen@.contains(u) <==> exists|a: usize|
                                a < k + 1 && #[trigger] unit@.contains(a) && cells[a as int] == Some(u) by {
                            if u == v {
                                assert(unit@.contains(k) && cells[k as int] == Some(u));
                            }
                        }
                    }
                },
                None => {
                    full = false;
                },
            }
        }
        k = k + 1;
    }
    proof {
        unit.lemma_finite();
    }
    full || allow_empty
}

} // verus!
