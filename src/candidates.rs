use crate::game_state::{is_peer, is_peer_placement, peer_set, CollectType, GameState};
use crate::indexbitset::CELLS;
use crate::placement::Placement;
use crate::prelude::is_digit;
use crate::valuebitset::ValueBitSet;
use vstd::prelude::*;

verus! {

/// The digits still allowed at one cell.
#[derive(Debug, Clone, Copy)]
pub struct MoveCandidates {
    pub index: usize,
    pub moves: ValueBitSet,
}

impl MoveCandidates {
    /// The candidates of cell `index` given as placements at that cell.
    pub fn from_iter(index: usize, moves: Vec<Placement>) -> (r: MoveCandidates)
        requires
            forall|k: int|
                0 <= k < moves@.len() ==> (#[trigger] moves@[k]).index == index && is_digit(
                    moves@[k].value,
                ),
        ensures
            r.index == index,
            r.moves.wf(),
            forall|v: u8| #[trigger]
                r.moves@.contains(v) <==> exists|k: int|
                    0 <= k < moves@.len() && #[trigger] moves@[k].value == v,
    {
        let mut set = ValueBitSet::default();
        let mut k: usize = 0;
        while k < moves.len()
            invariant
                k <= moves@.len(),
                set.wf(),
                forall|j: int|
                    0 <= j < moves@.len() ==> (#[trigger] moves@[j]).index == index && is_digit(
                        moves@[j].value,
                    ),
                forall|v: u8| #[trigger]
                    set@.contains(v) <==> exists|j: int| 0 <= j < k && #[trigger] moves@[j].value == v,
            decreases moves@.len() - k,
        {
            set.insert(moves[k].value);
            proof {
                assert forall|v: u8| #[trigger]
                    set@.contains(v) <==> exists|j: int|
                        0 <= j < k + 1 && #[trigger] moves@[j].value == v by {
                    if v == moves@[k as int].value {
                        assert(moves@[k as int].value == v);
                    }
                }
            }
            k = k + 1;
        }
        MoveCandidates { index, moves: set }
    }

    /// Whether exactly one digit is left.
    pub fn is_trivial(&self) -> (r: bool)
        ensures
            r == (self.moves@.len() == 1),
    {
        self.moves.len() == 1
    }

    /// The digits left, as a set.
    pub fn value_hashset(&self) -> (r: ValueBitSet)
        ensures
            r == self.moves,
    {
        self.moves
    }

    /// The number of digits left.
    pub fn len(&self) -> (r: usize)
        ensures
            r == self.moves@.len(),
    {
        self.moves.len()
    }

    /// Whether no digit is left.
    pub fn empty(&self) -> (r: bool)
        requires
            self.moves.wf(),
        ensures
            r == (self.moves@ == Set::<u8>::empty()),
    {
        self.moves.is_empty()
    }
}

/// The number of cells among the first `n` that have candidates.
pub open spec fn count_cells(cells: Seq<Set<u8>>, n: nat) -> nat
    decreases n,
{
    if n == 0 {
        0
    } else if cells[n - 1] != Set::<u8>::empty() {
        count_cells(cells, (n - 1) as nat) + 1
    } else {
        count_cells(cells, (n - 1) as nat)
    }
}

/// The number of candidates of the first `n` cells.
pub open spec fn count_candidates(cells: Seq<Set<u8>>, n: nat) -> nat
    decreases n,
{
    if n == 0 {
        0
    } else {
        count_candidates(cells, (n - 1) as nat) + cells[n - 1].len()
    }
}

proof fn lemma_count_cells_zero(cells: Seq<Set<u8>>, n: nat)
    ensures
        (count_cells(cells, n) == 0) == (forall|i: int| 0 <= i < n ==> cells[i] == Set::<u8>::empty()),
    decreases n,
{
    if n > 0 {
        lemma_count_cells_zero(cells, (n - 1) as nat);
    }
}

proof fn lemma_count_cells_bound(cells: Seq<Set<u8>>, n: nat)
    ensures
        count_cells(cells, n) <= n,
    decreases n,
{
    if n > 0 {
        lemma_count_cells_bound(cells, (n - 1) as nat);
    }
}

proof fn lemma_count_candidates_bound(cells: Seq<Set<u8>>, n: nat)
    requires
        n <= cells.len(),
        forall|i: int| 0 <= i < n ==> (#[trigger] cells[i]).len() <= 9,
    ensures
        count_candidates(cells, n) <= 9 * n,
    decreases n,
{
    if n > 0 {
        lemma_count_candidates_bound(cells, (n - 1) as nat);
    }
}

/// A digit at a peer of cell `i` (the cell itself included) equals `v`.
pub open spec fn peer_digit(groups: Seq<crate::indexbitset::IndexBitSet>, cells: Seq<Option<u8>>, i: usize, v: u8) -> bool {
    exists|j: usize| #[trigger] is_peer(groups, i, j) && cells[j as int] == Some(v)
}

/// No candidate is a digit that a peer of its cell holds.
pub open spec fn candidates_sound(
    groups: Seq<crate::indexbitset::IndexBitSet>,
    cells: Seq<Option<u8>>,
    cands: Seq<Set<u8>>,
) -> bool {
    forall|i: int, v: u8| 0 <= i < 81 && #[trigger] cands[i].contains(v) ==> !peer_digit(groups, cells, i as usize, v)
}

/// Every empty cell has as candidates all digits that no peer holds.
pub open spec fn candidates_complete(
    groups: Seq<crate::indexbitset::IndexBitSet>,
    cells: Seq<Option<u8>>,
    cands: Seq<Set<u8>>,
) -> bool {
    forall|i: int, v: u8|
        0 <= i < 81 && cells[i] is None && is_digit(v) && !peer_digit(groups, cells, i as usize, v)
            ==> #[trigger] cands[i].contains(v)
}

/// The candidate store: for each of the eighty-one cells, the digits still
/// allowed there. A cell with no digit left has no entry.
#[derive(Debug, Clone, Copy)]
pub struct SetOfMoveCandidates {
    pub moves: [ValueBitSet; 81],
}

impl View for SetOfMoveCandidates {
    type V = Seq<Set<u8>>;

    open spec fn view(&self) -> Seq<Set<u8>> {
        self.moves@.map_values(|b: ValueBitSet| b@)
    }
}

impl SetOfMoveCandidates {
    pub open spec fn wf(&self) -> bool {
        forall|i: int| 0 <= i < 81 ==> (#[trigger] self.moves@[i]).wf()
    }

    /// Cell `i` has an entry.
    pub open spec fn has(&self, i: int) -> bool {
        0 <= i < 81 && self@[i] != Set::<u8>::empty()
    }

    /// No cell has an entry.
    pub open spec fn is_empty_spec(&self) -> bool {
        forall|i: int| 0 <= i < 81 ==> self@[i] == Set::<u8>::empty()
    }

    /// The number of cells with an entry.
    pub open spec fn len_spec(&self) -> nat {
        count_cells(self@, 81)
    }

    /// A store with no entry.
    pub fn new() -> (r: SetOfMoveCandidates)
        ensures
            r.wf(),
            r@.len() == 81,
            r.is_empty_spec(),
    {
        let empty = ValueBitSet::default();
        let r = SetOfMoveCandidates { moves: [empty; 81] };
        proof {
            assert forall|i: int| 0 <= i < 81 implies (#[trigger] r.moves@[i]) == empty by {}
        }
        r
    }

    /// A store holding the union of the given cells' candidates.
    pub fn from_iter(candidates: Vec<MoveCandidates>) -> (r: SetOfMoveCandidates)
        requires
            forall|k: int|
                0 <= k < candidates@.len() ==> (#[trigger] candidates@[k]).index < CELLS
                    && candidates@[k].moves.wf(),
        ensures
            r.wf(),
            forall|i: int, v: u8|
                0 <= i < 81 ==> (#[trigger] r@[i].contains(v) <==> exists|k: int|
                    0 <= k < candidates@.len() && #[trigger] candidates@[k].index == i
                        && candidates@[k].moves@.contains(v)),
    {
        let mut r = SetOfMoveCandidates::new();
        let mut k: usize = 0;
        while k < candidates.len()
            invariant
                k <= candidates@.len(),
                r.wf(),
                forall|j: int|
                    0 <= j < candidates@.len() ==> (#[trigger] candidates@[j]).index < CELLS
                        && candidates@[j].moves.wf(),
                forall|i: int, v: u8|
                    0 <= i < 81 ==> (#[trigger] r@[i].contains(v) <==> exists|j: int|
                        0 <= j < k && #[trigger] candidates@[j].index == i
                            && candidates@[j].moves@.contains(v)),
            decreases candidates@.len() - k,
        {
            let c = candidates[k];
            let ghost before = r@;
            let mut cell = r.moves[c.index];
            cell.union(&c.moves);
            r.moves[c.index] = cell;
            proof {
                assert(r@[c.index as int] == before[c.index as int].union(c.moves@));
                assert forall|i: int| 0 <= i < 81 && i != c.index implies #[trigger] r@[i] == before[i] by {
                    assert(r@[i] == r.moves@[i]@);
                }
                assert forall|i: int, v: u8|
                    0 <= i < 81 implies (#[trigger] r@[i].contains(v) <==> exists|j: int|
                        0 <= j < k + 1 && #[trigger] candidates@[j].index == i
                            && candidates@[j].moves@.contains(v)) by {
                    if i == c.index && c.moves@.contains(v) {
                        assert(candidates@[k as int].index == i);
                    }
                    if i != c.index {
                        assert(r@[i] == before[i]);
                    }
                }
            }
            k = k + 1;
        }
        r
    }

    /// The number of cells with an entry.
    pub fn len(&self) -> (r: usize)
        requires
            self.wf(),
        ensures
            r == self.len_spec(),
            r <= 81,
    {
        let mut count: usize = 0;
        let mut i: usize = 0;
        while i < CELLS
            invariant
                self.wf(),
                i <= 81,
                count == count_cells(self@, i as nat),
            decreases 81 - i,
        {
            proof {
                lemma_count_cells_bound(self@, i as nat);
            }
            if !self.moves[i].is_empty() {
                count = count + 1;
            }
            i = i + 1;
        }
        proof {
            lemma_count_cells_bound(self@, 81);
        }
        count
    }

    /// The number of candidates over all cells.
    pub fn total_len(&self) -> (r: usize)
        requires
            self.wf(),
        ensures
            r == count_candidates(self@, 81),
    {
        proof {
            assert forall|i: int| 0 <= i < 81 implies (#[trigger] self@[i]).len() <= 9 by {
                self.moves@[i].lemma_finite();
            }
        }
        let mut size: usize = 0;
        let mut i: usize = 0;
        while i < CELLS
            invariant
                self.wf(),
                i <= 81,
                size == count_candidates(self@, i as nat),
                forall|j: int| 0 <= j < 81 ==> (#[trigger] self@[j]).len() <= 9,
            decreases 81 - i,
        {
            proof {
                lemma_count_candidates_bound(self@, (i + 1) as nat);
            }
            size = size + self.moves[i].len();
            i = i + 1;
        }
        size
    }

    /// Whether no cell has an entry.
    pub fn is_empty(&self) -> (r: bool)
        requires
            self.wf(),
        ensures
            r == self.is_empty_spec(),
    {
        proof {
            lemma_count_cells_zero(self@, 81);
        }
        self.len() == 0
    }

    /// Adds one candidate, creating the cell's entry if needed.
    pub fn add(&mut self, candidate: Placement)
        requires
            old(self).wf(),
            candidate.index < CELLS,
            is_digit(candidate.value),
        ensures
            final(self).wf(),
            final(self)@ == old(self)@.update(
                candidate.index as int,
                old(self)@[candidate.index as int].insert(candidate.value),
            ),
    {
        self.moves[candidate.index].insert(candidate.value);
        proof {
            assert(self@ =~= old(self)@.update(
                candidate.index as int,
                old(self)@[candidate.index as int].insert(candidate.value),
            ));
        }
    }

    /// Adds every candidate given.
    pub fn add_many(&mut self, candidates: Vec<Placement>)
        requires
            old(self).wf(),
            forall|k: int|
                0 <= k < candidates@.len() ==> (#[trigger] candidates@[k]).index < CELLS
                    && is_digit(candidates@[k].value),
        ensures
            final(self).wf(),
            forall|i: int, v: u8|
                0 <= i < 81 ==> (#[trigger] final(self)@[i].contains(v) <==> old(self)@[i].contains(v)
                    || exists|k: int|
                    0 <= k < candidates@.len() && #[trigger] candidates@[k].index == i
                        && candidates@[k].value == v),
    {
        let mut k: usize = 0;
        while k < candidates.len()
            invariant
                k <= candidates@.len(),
                self.wf(),
                forall|j: int|
                    0 <= j < candidates@.len() ==> (#[trigger] candidates@[j]).index < CELLS
                        && is_digit(candidates@[j].value),
                forall|i: int, v: u8|
                    0 <= i < 81 ==> (#[trigger] self@[i].contains(v) <==> old(self)@[i].contains(v)
                        || exists|j: int|
                        0 <= j < k && #[trigger] candidates@[j].index == i && candidates@[j].value
                            == v),
            decreases candidates@.len() - k,
        {
            let c = candidates[k];
            let ghost before = self@;
            self.add(c);
            proof {
                assert forall|i: int, v: u8|
                    0 <= i < 81 implies (#[trigger] self@[i].contains(v) <==> old(self)@[i].contains(v)
                        || exists|j: int|
                        0 <= j < k + 1 && #[trigger] candidates@[j].index == i
                            && candidates@[j].value == v) by {
                    if i == c.index && v == c.value {
                        assert(candidates@[k as int].index == i);
                    }
                }
            }
            k = k + 1;
        }
    }

    /// Drops the entry of cell `index`; tells whether any entry is left.
    pub fn remove_index(&mut self, index: usize) -> (r: bool)
        requires
            old(self).wf(),
        ensures
            final(self).wf(),
            final(self)@ == if index < CELLS {
                old(self)@.update(index as int, Set::<u8>::empty())
            } else {
                old(self)@
            },
            r == !final(self).is_empty_spec(),
    {
        if index < CELLS {
            self.moves[index] = ValueBitSet::default();
            proof {
                assert(self@ =~= old(self)@.update(index as int, Set::<u8>::empty()));
            }
        }
        !self.is_empty()
    }

    /// Drops the entries of the given cells; tells whether any entry is left.
    pub fn remove_indexes(&mut self, indexes: Vec<usize>) -> (r: bool)
        requires
            old(self).wf(),
        ensures
            final(self).wf(),
            forall|i: int|
                0 <= i < 81 ==> #[trigger] final(self)@[i] == if indexes@.contains(i as usize) {
                    Set::<u8>::empty()
                } else {
                    old(self)@[i]
                },
            r == !final(self).is_empty_spec(),
    {
        let mut k: usize = 0;
        while k < indexes.len()
            invariant
                k <= indexes@.len(),
                self.wf(),
                forall|i: int|
                    0 <= i < 81 ==> #[trigger] self@[i] == if exists|j: int|
                        0 <= j < k && #[trigger] indexes@[j] == i as usize {
                        Set::<u8>::empty()
                    } else {
                        old(self)@[i]
                    },
            decreases indexes@.len() - k,
        {
            self.remove_index(indexes[k]);
            proof {
                assert forall|i: int|
                    0 <= i < 81 implies #[trigger] self@[i] == if exists|j: int|
                        0 <= j < k + 1 && #[trigger] indexes@[j] == i as usize {
                        Set::<u8>::empty()
                    } else {
                        old(self)@[i]
                    } by {
                    if i == indexes@[k as int] {
                        assert(indexes@[k as int] == i as usize);
                    }
                }
            }
            k = k + 1;
        }
        !self.is_empty()
    }

    /// Removes one candidate; the cell's entry goes once its last digit is
    /// gone. Tells whether any entry is left.
    pub fn remove_candidate(&mut self, candidate: &Placement) -> (r: bool)
        requires
            old(self).wf(),
        ensures
            final(self).wf(),
            final(self)@ == if candidate.index < CELLS {
                old(self)@.update(
                    candidate.index as int,
                    old(self)@[candidate.index as int].remove(candidate.value),
                )
            } else {
                old(self)@
            },
            r == !final(self).is_empty_spec(),
    {
        if candidate.index < CELLS && is_digit_exec(candidate.value) {
            self.moves[candidate.index].remove(candidate.value);
            proof {
                assert(self@ =~= old(self)@.update(
                    candidate.index as int,
                    old(self)@[candidate.index as int].remove(candidate.value),
                ));
            }
        } else if candidate.index < CELLS {
            proof {
                old(self).moves@[candidate.index as int].lemma_finite();
                assert(old(self)@[candidate.index as int].remove(candidate.value) =~= old(self)@[candidate.index as int]);
                assert(self@ =~= old(self)@.update(
                    candidate.index as int,
                    old(self)@[candidate.index as int].remove(candidate.value),
                ));
            }
        }
        !self.is_empty()
    }

    /// Removes every candidate given; tells whether any entry is left.
    pub fn remove_candidates(&mut self, candidates: Vec<Placement>) -> (r: bool)
        requires
            old(self).wf(),
        ensures
            final(self).wf(),
            forall|i: int, v: u8|
                0 <= i < 81 ==> (#[trigger] final(self)@[i].contains(v) <==> old(self)@[i].contains(v)
                    && !exists|k: int|
                    0 <= k < candidates@.len() && #[trigger] candidates@[k].index == i
                        && candidates@[k].value == v),
            r == !final(self).is_empty_spec(),
    {
        let mut k: usize = 0;
        while k < candidates.len()
            invariant
                k <= candidates@.len(),
                self.wf(),
                forall|i: int, v: u8|
                    0 <= i < 81 ==> (#[trigger] self@[i].contains(v) <==> old(self)@[i].contains(v)
                        && !exists|j: int|
                        0 <= j < k && #[trigger] candidates@[j].index == i && candidates@[j].value
                            == v),
            decreases candidates@.len() - k,
        {
            let c = candidates[k];
            self.remove_candidate(&c);
            proof {
                assert forall|i: int, v: u8|
                    0 <= i < 81 implies (#[trigger] self@[i].contains(v) <==> old(self)@[i].contains(v)
                        && !exists|j: int|
                        0 <= j < k + 1 && #[trigger] candidates@[j].index == i
                            && candidates@[j].value == v) by {
                    if i == c.index && v == c.value {
                        assert(candidates@[k as int].index == i);
                    }
                }
            }
            k = k + 1;
        }
        !self.is_empty()
    }

    /// The cells with an entry and their digits, in ascending order of index.
    pub fn iter(&self) -> (r: Vec<MoveCandidates>)
        requires
            self.wf(),
        ensures
            forall|k: int|
                0 <= k < r@.len() ==> self.has((#[trigger] r@[k]).index as int) && r@[k].moves
                    == self.moves@[r@[k].index as int],
            forall|i: int| #[trigger] self.has(i) ==> exists|k: int| 0 <= k < r@.len() && #[trigger] r@[k].index == i,
            forall|a: int, b: int| 0 <= a < b < r@.len() ==> r@[a].index < r@[b].index,
    {
        let mut out: Vec<MoveCandidates> = Vec::new();
        let mut i: usize = 0;
        while i < CELLS
            invariant
                self.wf(),
                i <= 81,
                forall|k: int|
                    0 <= k < out@.len() ==> self.has((#[trigger] out@[k]).index as int)
                        && out@[k].moves == self.moves@[out@[k].index as int] && out@[k].index < i,
                forall|j: int| 0 <= j < i && #[trigger] self.has(j) ==> exists|k: int| 0 <= k < out@.len() && #[trigger] out@[k].index == j,
                forall|a: int, b: int| 0 <= a < b < out@.len() ==> out@[a].index < out@[b].index,
            decreases 81 - i,
        {
            let ghost old_out = out@;
            proof {
                assert(self@[i as int] == self.moves@[i as int]@);
            }
            if !self.moves[i].is_empty() {
                out.push(MoveCandidates { index: i, moves: self.moves[i] });
                proof {
                    assert(out@[out@.len() - 1].index == i);
                }
            }
            proof {
                assert forall|j: int| 0 <= j < i + 1 && #[trigger] self.has(j) implies exists|k: int|
                    0 <= k < out@.len() && #[trigger] out@[k].index == j by {
                    if j < i {
                        let k = choose|k: int| 0 <= k < old_out.len() && #[trigger] old_out[k].index == j;
                        assert(out@[k] == old_out[k]);
                    } else {
                        assert(out@[out@.len() - 1].index == j);
                    }
                }
            }
            i = i + 1;
        }
        out
    }

    /// The cells with an entry and their digits, in ascending order of index.
    pub fn into_iter(self) -> (r: Vec<MoveCandidates>)
        requires
            self.wf(),
        ensures
            forall|k: int|
                0 <= k < r@.len() ==> self.has((#[trigger] r@[k]).index as int) && r@[k].moves
                    == self.moves@[r@[k].index as int],
            forall|i: int| #[trigger] self.has(i) ==> exists|k: int| 0 <= k < r@.len() && #[trigger] r@[k].index == i,
            forall|a: int, b: int| 0 <= a < b < r@.len() ==> r@[a].index < r@[b].index,
    {
        self.iter()
    }

    /// Drops the entries with no digit left; there are none, since a cell's
    /// entry goes with its last digit.
    pub fn trim(&mut self)
        ensures
            *final(self) == *old(self),
    {
    }

    /// Whether cell `index` has an entry.
    pub fn contains_key(&self, index: &usize) -> (r: bool)
        requires
            self.wf(),
        ensures
            r == self.has(*index as int),
    {
        *index < CELLS && !self.moves[*index].is_empty()
    }

    /// The digits left at cell `index`.
    pub fn values_at(&self, index: usize) -> (r: ValueBitSet)
        requires
            index < CELLS,
        ensures
            r == self.moves@[index as int],
    {
        self.moves[index]
    }
}

impl SetOfMoveCandidates {
    /// Every cell's digits form a finite set of at most nine.
    pub proof fn lemma_finite(&self)
        requires
            self.wf(),
        ensures
            forall|i: int| 0 <= i < 81 ==> (#[trigger] self@[i]).finite() && self@[i].len() <= 9,
            count_candidates(self@, 81) <= 729,
    {
        assert forall|i: int| 0 <= i < 81 implies (#[trigger] self@[i]).finite() && self@[i].len() <= 9 by {
            self.moves@[i].lemma_finite();
        }
        lemma_count_candidates_bound(self@, 81);
    }
}

/// Cells that lose digits lower the counts.
pub proof fn lemma_count_shrinks(old: Seq<Set<u8>>, new: Seq<Set<u8>>, n: nat)
    requires
        n <= old.len(),
        n <= new.len(),
        forall|i: int| 0 <= i < n ==> (#[trigger] old[i]).finite() && new[i].subset_of(old[i]),
    ensures
        count_candidates(new, n) <= count_candidates(old, n),
        (exists|i: int, v: u8| 0 <= i < n && #[trigger] old[i].contains(v) && !new[i].contains(v))
            ==> count_candidates(new, n) < count_candidates(old, n),
    decreases n,
{
    if n > 0 {
        let m = (n - 1) as nat;
        lemma_count_shrinks(old, new, m);
        vstd::set_lib::lemma_len_subset(new[m as int], old[m as int]);
        if exists|i: int, v: u8| 0 <= i < n && #[trigger] old[i].contains(v) && !new[i].contains(v) {
            let (i, v) = choose|i: int, v: u8| 0 <= i < n && #[trigger] old[i].contains(v) && !new[i].contains(v);
            if i == m {
                vstd::set_lib::lemma_len_subset(new[m as int], old[m as int].remove(v));
            }
        }
    }
}

/// Whether `v` is a digit.
fn is_digit_exec(v: u8) -> (r: bool)
    ensures
        r == is_digit(v),
{
    1 <= v && v <= 9
}

/// The candidate store of a node: at each empty cell, the digits of
/// `valid_symbols` that no peer holds.
pub fn find_move_candidates(state: &GameState, valid_symbols: &ValueBitSet) -> (r: SetOfMoveCandidates)
    requires
        state.wf(),
        valid_symbols.wf(),
    ensures
        r.wf(),
        forall|i: int, v: u8|
            0 <= i < 81 ==> (#[trigger] r@[i].contains(v) <==> state.cells()[i] is None
                && valid_symbols@.contains(v) && !peer_digit(state.regions(), state.cells(), i as usize, v)),
        candidates_sound(state.regions(), state.cells(), r@),
        (forall|v: u8| is_digit(v) ==> #[trigger] valid_symbols@.contains(v)) ==> candidates_complete(
            state.regions(),
            state.cells(),
            r@,
        ),
{
    let mut candidates = SetOfMoveCandidates::new();
    let mut index: usize = 0;
    while index < CELLS
        invariant
            state.wf(),
            valid_symbols.wf(),
            index <= 81,
            candidates.wf(),
            forall|i: int, v: u8|
                0 <= i < 81 ==> (#[trigger] candidates@[i].contains(v) <==> i < index
                    && state.cells()[i] is None && valid_symbols@.contains(v) && !peer_digit(
                    state.regions(),
                    state.cells(),
                    i as usize,
                    v,
                )),
        decreases 81 - index,
    {
        let ghost before = candidates@;
        if state.empty_cells.contains(index) {
            let missing_values = collect_missing_values(index, state, valid_symbols);
            candidates.moves[index] = missing_values;
            proof {
                assert(candidates@[index as int] == missing_values@);
            }
        }
        proof {
            assert forall|i: int| 0 <= i < 81 && i != index implies #[trigger] candidates@[i] == before[i] by {
                assert(candidates@[i] == candidates.moves@[i]@);
            }
            assert forall|i: int, v: u8|
                0 <= i < 81 implies (#[trigger] candidates@[i].contains(v) <==> i < index + 1
                    && state.cells()[i] is None && valid_symbols@.contains(v) && !peer_digit(
                    state.regions(),
                    state.cells(),
                    i as usize,
                    v,
                )) by {
                if i == index && state.cells()[i] is Some {
                    assert(!state.empty_cells@.contains(index));
                }
            }
        }
        index = index + 1;
    }
    candidates
}

/// The digits of `valid_symbols` that no peer of `index` holds.
fn collect_missing_values(index: usize, state: &GameState, valid_symbols: &ValueBitSet) -> (r:
    ValueBitSet)
    requires
        state.wf(),
        valid_symbols.wf(),
        index < CELLS,
    ensures
        r.wf(),
        forall|v: u8| #[trigger]
            r@.contains(v) <==> valid_symbols@.contains(v) && !peer_digit(
                state.regions(),
                state.cells(),
                index,
                v,
            ),
{
    let cell_values = state.peers_by_index(index, false);
    proof {
        assert forall|k: int| 0 <= k < cell_values@.len() implies is_digit(#[trigger] cell_values@[k].value) by {
            assert(cell_values@.contains(cell_values@[k]));
            assert(crate::prelude::valid_cell(state.cells()[cell_values@[k].index as int]));
        }
    }
    let value_set = to_value_set(&cell_values);
    let mut missing = ValueBitSet::default();
    proof {
        valid_symbols.lemma_finite();
        assert forall|u: u8| #[trigger] missing@.contains(u) <==> u < 1 && valid_symbols@.contains(u)
            && !value_set@.contains(u) by {
            if valid_symbols@.contains(u) {
                assert(is_digit(u));
            }
        }
    }
    let mut v: u8 = 1;
    while v <= 9
        invariant
            1 <= v <= 10,
            missing.wf(),
            valid_symbols.wf(),
            forall|u: u8| #[trigger]
                missing@.contains(u) <==> u < v && valid_symbols@.contains(u) && !value_set@.contains(u),
        decreases 10 - v,
    {
        if valid_symbols.contains(v) && !value_set.contains(v) {
            missing.insert(v);
        }
        v = v + 1;
    }
    proof {
        valid_symbols.lemma_finite();
        assert forall|u: u8| #[trigger]
            missing@.contains(u) <==> valid_symbols@.contains(u) && !peer_digit(
                state.regions(),
                state.cells(),
                index,
                u,
            ) by {
            if valid_symbols@.contains(u) {
                assert(is_digit(u));
            }
            if peer_digit(state.regions(), state.cells(), index, u) {
                let j = choose|j: usize| #[trigger] is_peer(state.regions(), index, j) && state.cells()[j as int] == Some(u);
                let p = Placement { index: j, value: u };
                assert(peer_set(state.regions(), state.cells(), index, false, CollectType::Filled).contains(j));
                assert(is_peer_placement(state.regions(), state.cells(), index, false, p));
                assert(cell_values@.contains(p));
                let k = choose|k: int| 0 <= k < cell_values@.len() && cell_values@[k] == p;
                assert(cell_values@[k].value == u);
                assert(value_set@.contains(u));
            }
            if value_set@.contains(u) {
                let k = choose|k: int| 0 <= k < cell_values@.len() && #[trigger] cell_values@[k].value == u;
                let p = cell_values@[k];
                assert(cell_values@.contains(p));
                assert(is_peer_placement(state.regions(), state.cells(), index, false, p));
                assert(is_peer(state.regions(), index, p.index));
                assert(state.cells()[p.index as int] == Some(u));
                assert(peer_digit(state.regions(), state.cells(), index, u));
            }
        }
    }
    missing
}

/// The digits of the placements.
pub(crate) fn to_value_set(set: &Vec<Placement>) -> (r: ValueBitSet)
    requires
        forall|k: int| 0 <= k < set@.len() ==> is_digit(#[trigger] set@[k].value),
    ensures
        r.wf(),
        forall|v: u8| #[trigger]
            r@.contains(v) <==> exists|k: int| 0 <= k < set@.len() && #[trigger] set@[k].value == v,
{
    let mut values = ValueBitSet::default();
    let mut k: usize = 0;
    while k < set.len()
        invariant
            k <= set@.len(),
            values.wf(),
            forall|j: int| 0 <= j < set@.len() ==> is_digit(#[trigger] set@[j].value),
            forall|v: u8| #[trigger]
                values@.contains(v) <==> exists|j: int| 0 <= j < k && #[trigger] set@[j].value == v,
        decreases set@.len() - k,
    {
        values.insert(set[k].value);
        proof {
            assert forall|v: u8| #[trigger]
                values@.contains(v) <==> exists|j: int| 0 <= j < k + 1 && #[trigger] set@[j].value == v by {
                if v == set@[k as int].value {
                    assert(set@[k as int].value == v);
                }
            }
        }
        k = k + 1;
    }
    values
}

} // verus!
