use crate::candidates::{to_value_set, SetOfMoveCandidates};
use crate::game_state::{is_peer, is_peer_placement, peer_set, CollectType, GameState};
use crate::indexbitset::{IndexBitSet, CELLS};
use crate::placement::Placement;
use crate::prelude::{col_of, is_digit, row_of, valid_cell};
use crate::valuebitset::ValueBitSet;
use vstd::prelude::*;

verus! {

/// What a deduction step found.
pub enum StrategyMove {
    /// Nothing.
    NoChange,
    /// These digits were written into the grid; each must be eliminated
    /// from its cell's peers.
    Applied(Vec<Placement>),
    /// These candidates are no longer possible.
    EliminateOnly(Vec<Placement>),
}

/// A deduction step proved the branch contradictory.
#[derive(Debug, Clone, Copy, PartialEq, Eq, Structural)]
pub enum StrategyError {
    BoardInvalid,
}

/// `new` is `old` with the digits of `ps` written at their cells.
pub open spec fn placed(old: Seq<Option<u8>>, new: Seq<Option<u8>>, ps: Seq<Placement>) -> bool {
    &&& new.len() == old.len()
    &&& forall|k: int| 0 <= k < ps.len() ==> new[#[trigger] ps[k].index as int] == Some(ps[k].value)
    &&& forall|i: int|
        0 <= i < old.len() && !(exists|k: int| 0 <= k < ps.len() && #[trigger] ps[k].index == i)
            ==> new[i] == old[i]
}

/// The placements are in strictly ascending order of cell.
pub open spec fn ascending(ps: Seq<Placement>) -> bool {
    forall|a: int, b: int| 0 <= a < b < ps.len() ==> ps[a].index < ps[b].index
}

/// Empty cell `i` has `d` as its only candidate.
pub open spec fn lone_single(cells: Seq<Option<u8>>, cands: Seq<Set<u8>>, i: int, d: u8) -> bool {
    0 <= i < 81 && cells[i] is None && cands[i] == Set::<u8>::empty().insert(d)
}

/// Some peer of `i` other than `i` itself holds `v`.
pub open spec fn other_peer_digit(
    groups: Seq<IndexBitSet>,
    cells: Seq<Option<u8>>,
    i: usize,
    v: u8,
) -> bool {
    exists|j: usize| #[trigger] is_peer(groups, i, j) && j != i && cells[j as int] == Some(v)
}

/// The candidates of `i` that no other peer of `i` holds.
pub open spec fn free_candidates(
    groups: Seq<IndexBitSet>,
    cells: Seq<Option<u8>>,
    cands: Seq<Set<u8>>,
    i: int,
) -> Set<u8> {
    cands[i].filter(|v: u8| !other_peer_digit(groups, cells, i as usize, v))
}

/// Of the candidates of empty cell `i`, only `d` is held by no other peer.
pub open spec fn hidden_single(
    groups: Seq<IndexBitSet>,
    cells: Seq<Option<u8>>,
    cands: Seq<Set<u8>>,
    i: int,
    d: u8,
) -> bool {
    0 <= i < 81 && cells[i] is None && free_candidates(groups, cells, cands, i) == Set::<u8>::empty().insert(d)
}

/// Writes the only candidate of every empty cell that has exactly one, and
/// lists what it wrote.
pub fn simple_moves(state: &mut GameState, candidates: &SetOfMoveCandidates) -> (r: Vec<Placement>)
    requires
        old(state).wf(),
        candidates.wf(),
    ensures
        final(state).wf(),
        final(state).game == old(state).game,
        ascending(r@),
        forall|p: Placement|
            r@.contains(p) <==> lone_single(old(state).cells(), candidates@, p.index as int, p.value),
        placed(old(state).cells(), final(state).cells(), r@),
{
    match lone_singles(state, candidates) {
        Ok(StrategyMove::Applied(ps)) => ps,
        _ => {
            let none: Vec<Placement> = Vec::new();
            proof {
                assert(state.cells() =~= old(state).cells());
            }
            none
        },
    }
}

/// The one digit of a set of one digit.
fn sole_digit(set: &ValueBitSet) -> (r: u8)
    requires
        set.wf(),
        set@.len() == 1,
    ensures
        is_digit(r),
        set@ == Set::<u8>::empty().insert(r),
{
    proof {
        set.lemma_finite();
    }
    let mut v: u8 = 1;
    while v < 9 && !set.contains(v)
        invariant
            1 <= v <= 9,
            set.wf(),
            set@.len() == 1,
            forall|u: u8| 1 <= u < v ==> !(#[trigger] set@.contains(u)),
        decreases 9 - v,
    {
        v = v + 1;
    }
    proof {
        set.lemma_finite();
        if !set@.contains(v) {
            assert(set@ =~= Set::<u8>::empty()) by {
                assert forall|u: u8| !(#[trigger] set@.contains(u)) by {
                    if set@.contains(u) {
                        assert(is_digit(u));
                    }
                }
            }
        }
        assert(set@.contains(v));
        assert(set@.remove(v).len() == 0);
        set@.remove(v).lemma_len0_is_empty();
        assert(set@ =~= Set::<u8>::empty().insert(v)) by {
            assert forall|u: u8| #[trigger] set@.contains(u) implies u == v by {
                if u != v {
                    assert(set@.remove(v).contains(u));
                }
            }
        }
    }
    v
}

/// Writes the only candidate of every empty cell that has exactly one.
pub fn lone_singles(state: &mut GameState, candidates: &SetOfMoveCandidates) -> (r: Result<
    StrategyMove,
    StrategyError,
>)
    requires
        old(state).wf(),
        candidates.wf(),
    ensures
        final(state).wf(),
        final(state).game == old(state).game,
        match r {
            Ok(StrategyMove::Applied(ps)) => {
                &&& ps@.len() > 0
                &&& ascending(ps@)
                &&& forall|p: Placement|
                    ps@.contains(p) <==> lone_single(
                        old(state).cells(),
                        candidates@,
                        p.index as int,
                        p.value,
                    )
                &&& placed(old(state).cells(), final(state).cells(), ps@)
            },
            Ok(StrategyMove::NoChange) => {
                &&& forall|i: int, d: u8| !lone_single(old(state).cells(), candidates@, i, d)
                &&& final(state).cells() == old(state).cells()
            },
            _ => false,
        },
        (forall|i: int, d: u8| !lone_single(old(state).cells(), candidates@, i, d)) ==> {
            &&& r matches Ok(StrategyMove::NoChange)
            &&& final(state).cells() == old(state).cells()
        },
{
    let ghost cells0 = state.cells();
    let mut applied: Vec<Placement> = Vec::new();
    let mut i: usize = 0;
    while i < CELLS
        invariant
            i <= 81,
            state.wf(),
            candidates.wf(),
            state.game == old(state).game,
            cells0 == old(state).cells(),
            forall|j: int| i <= j < 81 ==> state.cells()[j] == cells0[j],
            ascending(applied@),
            forall|k: int| 0 <= k < applied@.len() ==> (#[trigger] applied@[k]).index < i,
            forall|p: Placement|
                applied@.contains(p) <==> p.index < i && lone_single(
                    cells0,
                    candidates@,
                    p.index as int,
                    p.value,
                ),
            placed(cells0, state.cells(), applied@),
        decreases 81 - i,
    {
        let ghost before = applied@;
        let ghost cells_before = state.cells();
        let ghost empty_before = state.empty_cells@;
        let set = candidates.values_at(i);
        if state.empty_cells.contains(i) && set.len() == 1 {
            let d = sole_digit(&set);
            state.apply(i, d);
            applied.push(Placement::new(d, i));
            proof {
                assert(applied@.last() == Placement { index: i, value: d });
                assert forall|u: u8| lone_single(cells0, candidates@, i as int, u) implies u
                    == applied@.last().value by {
                    assert(set@.contains(u));
                }
            }
        }
        proof {
            assert(candidates@[i as int] == set@);
            assert forall|p: Placement|
                applied@.contains(p) <==> p.index < i + 1 && lone_single(
                    cells0,
                    candidates@,
                    p.index as int,
                    p.value,
                ) by {
                if before.contains(p) {
                    let k = choose|k: int| 0 <= k < before.len() && before[k] == p;
                    assert(applied@[k] == p);
                }
                if applied@.contains(p) && !before.contains(p) {
                    assert(applied@.last() == p);
                }
                if p.index == i && lone_single(cells0, candidates@, p.index as int, p.value) {
                    set.lemma_finite();
                    assert(set@.len() == 1);
                    assert(empty_before.contains(i));
                    assert(applied@.last().value == p.value);
                    assert(applied@.last() == p);
                    assert(applied@.contains(applied@.last()));
                }
            }
            assert forall|j: int|
                0 <= j < 81 && !(exists|k: int| 0 <= k < applied@.len() && #[trigger] applied@[k].index == j)
                    implies state.cells()[j] == cells0[j] by {
                if j < i {
                    assert(!(exists|k: int| 0 <= k < before.len() && #[trigger] before[k].index == j)) by {
                        if exists|k: int| 0 <= k < before.len() && #[trigger] before[k].index == j {
                            let k = choose|k: int| 0 <= k < before.len() && #[trigger] before[k].index == j;
                            assert(applied@[k].index == j);
                        }
                    }
                }
            }
            assert forall|k: int| 0 <= k < applied@.len() implies state.cells()[#[trigger] applied@[k].index as int]
                == Some(applied@[k].value) by {
                if k < before.len() {
                    assert(applied@[k] == before[k]);
                }
            }
        }
        i = i + 1;
    }
    if applied.len() == 0 {
        proof {
            assert forall|j: int, d: u8| !lone_single(cells0, candidates@, j, d) by {
                if lone_single(cells0, candidates@, j, d) {
                    assert(applied@.contains(Placement { index: j as usize, value: d }));
                }
            }
            assert(state.cells() =~= cells0);
        }
        Ok(StrategyMove::NoChange)
    } else {
        proof {
            let p = applied@[0];
            assert(applied@.contains(p));
            assert(lone_single(cells0, candidates@, p.index as int, p.value));
        }
        Ok(StrategyMove::Applied(applied))
    }
}

/// The candidates of empty cell `i` that no other peer holds.
fn free_values(state: &GameState, candidates: &SetOfMoveCandidates, i: usize) -> (r: ValueBitSet)
    requires
        state.wf(),
        candidates.wf(),
        i < CELLS,
    ensures
        r.wf(),
        r@ == free_candidates(state.regions(), state.cells(), candidates@, i as int),
{
    let peers = state.peers_by_index(i, true);
    proof {
        assert forall|k: int| 0 <= k < peers@.len() implies is_digit(#[trigger] peers@[k].value) by {
            assert(peers@.contains(peers@[k]));
            assert(valid_cell(state.cells()[peers@[k].index as int]));
        }
    }
    let peer_values = to_value_set(&peers);
    let set = candidates.values_at(i);
    let mut free = ValueBitSet::default();
    proof {
        set.lemma_finite();
        assert forall|u: u8| #[trigger] free@.contains(u) <==> u < 1 && set@.contains(u)
            && !peer_values@.contains(u) by {
            if set@.contains(u) {
                assert(is_digit(u));
            }
        }
    }
    let mut v: u8 = 1;
    while v <= 9
        invariant
            1 <= v <= 10,
            free.wf(),
            set.wf(),
            forall|u: u8| #[trigger]
                free@.contains(u) <==> u < v && set@.contains(u) && !peer_values@.contains(u),
        decreases 10 - v,
    {
        if set.contains(v) && !peer_values.contains(v) {
            free.insert(v);
        }
        v = v + 1;
    }
    proof {
        set.lemma_finite();
        assert(candidates@[i as int] == set@);
        let target = free_candidates(state.regions(), state.cells(), candidates@, i as int);
        assert forall|u: u8| #[trigger] free@.contains(u) == target.contains(u) by {
            if set@.contains(u) {
                assert(is_digit(u));
            }
            if other_peer_digit(state.regions(), state.cells(), i, u) {
                let j = choose|j: usize| #[trigger] is_peer(state.regions(), i, j) && j != i
                    && state.cells()[j as int] == Some(u);
                let p = Placement { index: j, value: u };
                assert(peer_set(state.regions(), state.cells(), i, true, CollectType::Filled).contains(j));
                assert(is_peer_placement(state.regions(), state.cells(), i, true, p));
                assert(peers@.contains(p));
                let k = choose|k: int| 0 <= k < peers@.len() && peers@[k] == p;
                assert(peers@[k].value == u);
                assert(peer_values@.contains(u));
            }
            if peer_values@.contains(u) {
                let k = choose|k: int| 0 <= k < peers@.len() && #[trigger] peers@[k].value == u;
                let p = peers@[k];
                assert(peers@.contains(p));
                assert(is_peer_placement(state.regions(), state.cells(), i, true, p));
                assert(is_peer(state.regions(), i, p.index));
                assert(other_peer_digit(state.regions(), state.cells(), i, u));
            }
        }
        assert(free@ =~= target);
    }
    free
}

/// Writes, at every empty cell, the one candidate that no other peer holds,
/// where there is exactly one such candidate. Every cell is judged on the
/// grid as it was before this step.
pub fn hidden_singles(state: &mut GameState, candidates: &SetOfMoveCandidates) -> (r: Result<
    StrategyMove,
    StrategyError,
>)
    requires
        old(state).wf(),
        candidates.wf(),
    ensures
        final(state).wf(),
        final(state).game == old(state).game,
        match r {
            Ok(StrategyMove::Applied(ps)) => {
                &&& ps@.len() > 0
                &&& ascending(ps@)
                &&& forall|p: Placement|
                    ps@.contains(p) <==> hidden_single(
                        old(state).regions(),
                        old(state).cells(),
                        candidates@,
                        p.index as int,
                        p.value,
                    )
                &&& placed(old(state).cells(), final(state).cells(), ps@)
            },
            Ok(StrategyMove::NoChange) => {
                &&& forall|i: int, d: u8|
                    !hidden_single(old(state).regions(), old(state).cells(), candidates@, i, d)
                &&& final(state).cells() == old(state).cells()
            },
            _ => false,
        },
{
    let ghost cells0 = state.cells();
    let ghost groups = state.regions();
    let mut applied: Vec<Placement> = Vec::new();
    let mut i: usize = 0;
    while i < CELLS
        invariant
            i <= 81,
            state.wf(),
            candidates.wf(),
            *state == *old(state),
            cells0 == state.cells(),
            groups == state.regions(),
            ascending(applied@),
            forall|k: int| 0 <= k < applied@.len() ==> (#[trigger] applied@[k]).index < i && is_digit(applied@[k].value),
            forall|p: Placement|
                applied@.contains(p) <==> p.index < i && hidden_single(
                    groups,
                    cells0,
                    candidates@,
                    p.index as int,
                    p.value,
                ),
        decreases 81 - i,
    {
        let ghost before = applied@;
        if state.empty_cells.contains(i) {
            let free = free_values(state, candidates, i);
            if free.len() == 1 {
                let d = sole_digit(&free);
                applied.push(Placement::new(d, i));
                proof {
                    assert(applied@.last() == Placement { index: i, value: d });
                    assert forall|u: u8| hidden_single(groups, cells0, candidates@, i as int, u) implies u
                        == applied@.last().value by {
                        assert(free@.contains(u));
                    }
                }
            } else {
                proof {
                    assert forall|u: u8| !hidden_single(groups, cells0, candidates@, i as int, u) by {
                        if hidden_single(groups, cells0, candidates@, i as int, u) {
                            assert(free@.len() == 1);
                        }
                    }
                }
            }
        }
        proof {
            assert forall|p: Placement|
                applied@.contains(p) <==> p.index < i + 1 && hidden_single(
                    groups,
                    cells0,
                    candidates@,
                    p.index as int,
                    p.value,
                ) by {
                if before.contains(p) {
                    let k = choose|k: int| 0 <= k < before.len() && before[k] == p;
                    assert(applied@[k] == p);
                }
                if applied@.contains(p) && !before.contains(p) {
                    assert(applied@.last() == p);
                }
                if p.index == i && hidden_single(groups, cells0, candidates@, p.index as int, p.value) {
                    assert(state.empty_cells@.contains(i));
                    assert(applied@.last() == p);
                    assert(applied@.contains(applied@.last()));
                }
            }
        }
        i = i + 1;
    }
    if applied.len() == 0 {
        proof {
            assert forall|j: int, d: u8| !hidden_single(groups, cells0, candidates@, j, d) by {
                if hidden_single(groups, cells0, candidates@, j, d) {
                    assert(applied@.contains(Placement { index: j as usize, value: d }));
                }
            }
        }
        return Ok(StrategyMove::NoChange);
    }
    let mut k: usize = 0;
    while k < applied.len()
        invariant
            k <= applied@.len(),
            state.wf(),
            state.game == old(state).game,
            cells0 == old(state).cells(),
            ascending(applied@),
            forall|j: int| 0 <= j < applied@.len() ==> (#[trigger] applied@[j]).index < CELLS && is_digit(applied@[j].value),
            placed(cells0, state.cells(), applied@.take(k as int)),
        decreases applied@.len() - k,
    {
        let ghost cells_before = state.cells();
        state.apply_move(&applied[k]);
        proof {
            let ps = applied@.take(k + 1);
            assert forall|j: int| 0 <= j < ps.len() implies state.cells()[#[trigger] ps[j].index as int]
                == Some(ps[j].value) by {
                if j < k {
                    assert(applied@.take(k as int)[j] == ps[j]);
                    assert(ps[j].index < applied@[k as int].index);
                }
            }
            assert forall|j: int|
                0 <= j < 81 && !(exists|m: int| 0 <= m < ps.len() && #[trigger] ps[m].index == j)
                    implies state.cells()[j] == cells0[j] by {
                assert(ps[k as int].index != j);
                if exists|m: int| 0 <= m < k && #[trigger] applied@.take(k as int)[m].index == j {
                    let m = choose|m: int| 0 <= m < k && #[trigger] applied@.take(k as int)[m].index == j;
                    assert(ps[m].index == j);
                }
            }
        }
        k = k + 1;
    }
    proof {
        assert(applied@.take(k as int) == applied@);
    }
    Ok(StrategyMove::Applied(applied))
}

/// Cells `c` and `p` are distinct empty peers with the same two candidates.
pub open spec fn twins(
    groups: Seq<IndexBitSet>,
    cells: Seq<Option<u8>>,
    cands: Seq<Set<u8>>,
    c: usize,
    p: usize,
) -> bool {
    &&& c < 81
    &&& p < 81
    &&& c != p
    &&& cells[c as int] is None
    &&& cells[p as int] is None
    &&& is_peer(groups, c, p)
    &&& cands[c as int].len() == 2
    &&& cands[c as int] == cands[p as int]
}

/// One row, one column or one region holds all three cells.
pub open spec fn share_unit(groups: Seq<IndexBitSet>, a: usize, b: usize, e: usize) -> bool {
    ||| row_of(a as int) == row_of(b as int) && row_of(b as int) == row_of(e as int)
    ||| col_of(a as int) == col_of(b as int) && col_of(b as int) == col_of(e as int)
    ||| exists|g: int|
        0 <= g < groups.len() && #[trigger] groups[g]@.contains(a) && groups[g]@.contains(b)
            && groups[g]@.contains(e)
}

/// A cell is the twin of two others that share a unit with it: three cells
/// of one unit with the same two candidates.
pub open spec fn twins_conflict(
    groups: Seq<IndexBitSet>,
    cells: Seq<Option<u8>>,
    cands: Seq<Set<u8>>,
) -> bool {
    exists|c: usize, p: usize, q: usize|
        #![trigger twins(groups, cells, cands, c, p), twins(groups, cells, cands, c, q)]
        twins(groups, cells, cands, c, p) && twins(groups, cells, cands, c, q) && p != q
            && share_unit(groups, c, p, q)
}

/// Candidate `v` of cell `e` is ruled out by twins that share a unit with `e`.
pub open spec fn twin_elimination(
    groups: Seq<IndexBitSet>,
    cells: Seq<Option<u8>>,
    cands: Seq<Set<u8>>,
    e: usize,
    v: u8,
) -> bool {
    exists|c: usize, p: usize|
        #[trigger] twins(groups, cells, cands, c, p) && e < 81 && e != c && e != p && share_unit(
            groups,
            c,
            p,
            e,
        ) && cands[c as int].contains(v) && cands[e as int].contains(v)
}

proof fn lemma_twins_symmetric(
    groups: Seq<IndexBitSet>,
    cells: Seq<Option<u8>>,
    cands: Seq<Set<u8>>,
    c: usize,
    p: usize,
)
    requires
        twins(groups, cells, cands, c, p),
    ensures
        twins(groups, cells, cands, p, c),
{
    if crate::game_state::share_group(groups, c, p) {
        let g = choose|g: int|
            0 <= g < groups.len() && #[trigger] groups[g]@.contains(c) && groups[g]@.contains(p);
        assert(groups[g]@.contains(p) && groups[g]@.contains(c));
    }
}

proof fn lemma_share_unit_swap(groups: Seq<IndexBitSet>, a: usize, b: usize, e: usize)
    requires
        share_unit(groups, a, b, e),
    ensures
        share_unit(groups, b, a, e),
        share_unit(groups, a, e, b),
{
    if exists|g: int|
        0 <= g < groups.len() && #[trigger] groups[g]@.contains(a) && groups[g]@.contains(b)
            && groups[g]@.contains(e) {
        let g = choose|g: int|
            0 <= g < groups.len() && #[trigger] groups[g]@.contains(a) && groups[g]@.contains(b)
                && groups[g]@.contains(e);
        assert(groups[g]@.contains(b) && groups[g]@.contains(a) && groups[g]@.contains(e));
        assert(groups[g]@.contains(a) && groups[g]@.contains(e) && groups[g]@.contains(b));
    }
}

/// Whether both sets hold the same digits.
fn same_values(a: &ValueBitSet, b: &ValueBitSet) -> (r: bool)
    requires
        a.wf(),
        b.wf(),
    ensures
        r == (a@ == b@),
{
    let mut v: u8 = 1;
    while v <= 9
        invariant
            1 <= v <= 10,
            forall|u: u8| 1 <= u < v ==> (#[trigger] a@.contains(u) == b@.contains(u)),
        decreases 10 - v,
    {
        if a.contains(v) != b.contains(v) {
            return false;
        }
        v = v + 1;
    }
    proof {
        a.lemma_finite();
        b.lemma_finite();
        assert forall|u: u8| #[trigger] a@.contains(u) == b@.contains(u) by {
            if a@.contains(u) || b@.contains(u) {
                assert(is_digit(u));
            }
        }
        assert(a@ =~= b@);
    }
    true
}

/// Whether one row, one column or one region holds all three cells.
fn shared_unit(state: &GameState, a: usize, b: usize, e: usize) -> (r: bool)
    requires
        state.wf(),
        a < CELLS,
        b < CELLS,
        e < CELLS,
    ensures
        r == share_unit(state.regions(), a, b, e),
{
    let (xa, ya) = state.index_to_xy(a);
    let (xb, yb) = state.index_to_xy(b);
    let (xe, ye) = state.index_to_xy(e);
    if (ya == yb && yb == ye) || (xa == xb && xb == xe) {
        return true;
    }
    let groups = &state.game.groups;
    let mut g: usize = 0;
    while g < groups.len()
        invariant
            state.wf(),
            groups@ == state.regions(),
            g <= groups@.len(),
            forall|h: int|
                0 <= h < g ==> !(#[trigger] groups@[h]@.contains(a) && groups@[h]@.contains(b)
                    && groups@[h]@.contains(e)),
        decreases groups@.len() - g,
    {
        if groups[g].contains(a) && groups[g].contains(b) && groups[g].contains(e) {
            return true;
        }
        g = g + 1;
    }
    false
}

/// The twins of cell `c`, in ascending order.
fn twin_partners(state: &GameState, candidates: &SetOfMoveCandidates, c: usize) -> (r: Vec<usize>)
    requires
        state.wf(),
        candidates.wf(),
        c < CELLS,
    ensures
        forall|p: usize|
            r@.contains(p) <==> twins(state.regions(), state.cells(), candidates@, c, p),
        forall|a: int, b: int| 0 <= a < b < r@.len() ==> r@[a] < r@[b],
        forall|a: int| 0 <= a < r@.len() ==> r@[a] < 81,
{
    let mut partners: Vec<usize> = Vec::new();
    let set = candidates.values_at(c);
    proof {
        assert(candidates@[c as int] == set@);
    }
    if !state.empty_cells.contains(c) || set.len() != 2 {
        return partners;
    }
    let peers = state.peer_indexes_by_index(c, true, CollectType::Empty);
    let mut p: usize = 0;
    while p < CELLS
        invariant
            state.wf(),
            candidates.wf(),
            c < 81,
            p <= 81,
            candidates@[c as int] == set@,
            set.wf(),
            set@.len() == 2,
            state.cells()[c as int] is None,
            peers@ == peer_set(state.regions(), state.cells(), c, true, CollectType::Empty),
            forall|q: usize|
                partners@.contains(q) <==> q < p && twins(state.regions(), state.cells(), candidates@, c, q),
            forall|a: int, b: int| 0 <= a < b < partners@.len() ==> partners@[a] < partners@[b],
            forall|a: int| 0 <= a < partners@.len() ==> partners@[a] < p,
        decreases 81 - p,
    {
        let ghost before = partners@;
        let other = candidates.values_at(p);
        proof {
            assert(candidates@[p as int] == other@);
            assert(other.wf());
        }
        if peers.contains(p) && same_values(&set, &other) {
            partners.push(p);
        }
        proof {
            assert forall|q: usize|
                partners@.contains(q) <==> q < p + 1 && twins(state.regions(), state.cells(), candidates@, c, q) by {
                if before.contains(q) {
                    let k = choose|k: int| 0 <= k < before.len() && before[k] == q;
                    assert(partners@[k] == q);
                }
                if partners@.contains(q) && !before.contains(q) {
                    assert(partners@.last() == q);
                }
                if q == p && twins(state.regions(), state.cells(), candidates@, c, q) {
                    assert(peers@.contains(p));
                    assert(partners@.last() == q);
                    assert(partners@.contains(partners@.last()));
                }
            }
        }
        p = p + 1;
    }
    partners
}

/// Whether two of the given twins of `c` share a unit with it.
fn partners_conflict(state: &GameState, c: usize, partners: &Vec<usize>) -> (r: bool)
    requires
        state.wf(),
        c < CELLS,
        forall|a: int| 0 <= a < partners@.len() ==> partners@[a] < 81,
    ensures
        r == exists|a: int, b: int|
            0 <= a < b < partners@.len() && share_unit(state.regions(), c, partners@[a], partners@[b]),
{
    let mut a: usize = 0;
    while a < partners.len()
        invariant
            state.wf(),
            c < 81,
            a <= partners@.len(),
            forall|k: int| 0 <= k < partners@.len() ==> partners@[k] < 81,
            forall|a2: int, b2: int|
                0 <= a2 < a && a2 < b2 < partners@.len() ==> !share_unit(state.regions(), c, partners@[a2], partners@[b2]),
        decreases partners@.len() - a,
    {
        let mut b: usize = a + 1;
        while b < partners.len()
            invariant
                state.wf(),
                c < 81,
                a < partners@.len(),
                a < b <= partners@.len(),
                forall|k: int| 0 <= k < partners@.len() ==> partners@[k] < 81,
                forall|a2: int, b2: int|
                    0 <= a2 < a && a2 < b2 < partners@.len() ==> !share_unit(state.regions(), c, partners@[a2], partners@[b2]),
                forall|b2: int| a < b2 < b ==> !share_unit(state.regions(), c, partners@[a as int], partners@[b2]),
            decreases partners@.len() - b,
        {
            if shared_unit(state, c, partners[a], partners[b]) {
                return true;
            }
            b = b + 1;
        }
        a = a + 1;
    }
    false
}

/// Appends every candidate that the twins `c` and `p`, with digits `set`,
/// rule out in the cells that share a unit with both.
fn collect_eliminations(
    state: &GameState,
    candidates: &SetOfMoveCandidates,
    c: usize,
    p: usize,
    set: &ValueBitSet,
    eliminations: &mut Vec<Placement>,
)
    requires
        state.wf(),
        candidates.wf(),
        c < CELLS,
        p < CELLS,
        set.wf(),
    ensures
        forall|x: Placement|
            #[trigger] final(eliminations)@.contains(x) <==> old(eliminations)@.contains(x) || (x.index < 81
                && x.index != c && x.index != p && share_unit(state.regions(), c, p, x.index)
                && set@.contains(x.value) && candidates@[x.index as int].contains(x.value)),
{
    let ghost start = eliminations@;
    let mut e: usize = 0;
    while e < CELLS
        invariant
            state.wf(),
            candidates.wf(),
            c < 81,
            p < 81,
            e <= 81,
            set.wf(),
            forall|x: Placement|
                #[trigger] eliminations@.contains(x) <==> start.contains(x) || (x.index < e && x.index != c
                    && x.index != p && share_unit(state.regions(), c, p, x.index) && set@.contains(
                    x.value,
                ) && candidates@[x.index as int].contains(x.value)),
        decreases 81 - e,
    {
        if e != c && e != p && shared_unit(state, c, p, e) {
            let other = candidates.values_at(e);
            proof {
                assert(candidates@[e as int] == other@);
            }
            let mut v: u8 = 1;
            while v <= 9
                invariant
                    state.wf(),
                    candidates.wf(),
                    c < 81,
                    p < 81,
                    e < 81,
                    e != c && e != p && share_unit(state.regions(), c, p, e),
                    candidates@[e as int] == other@,
                    1 <= v <= 10,
                    set.wf(),
                    forall|x: Placement|
                        #[trigger] eliminations@.contains(x) <==> start.contains(x) || (x.index < e
                            && x.index != c && x.index != p && share_unit(state.regions(), c, p, x.index)
                            && set@.contains(x.value) && candidates@[x.index as int].contains(x.value))
                            || (x.index == e && 1 <= x.value < v && set@.contains(x.value) && other@.contains(x.value)),
                decreases 10 - v,
            {
                let ghost before = eliminations@;
                if set.contains(v) && other.contains(v) {
                    eliminations.push(Placement::new(v, e));
                }
                proof {
                    assert forall|x: Placement|
                        #[trigger] eliminations@.contains(x) <==> start.contains(x) || (x.index < e
                            && x.index != c && x.index != p && share_unit(state.regions(), c, p, x.index)
                            && set@.contains(x.value) && candidates@[x.index as int].contains(x.value))
                            || (x.index == e && 1 <= x.value < v + 1 && set@.contains(x.value) && other@.contains(x.value)) by {
                        if before.contains(x) {
                            let k = choose|k: int| 0 <= k < before.len() && before[k] == x;
                            assert(eliminations@[k] == x);
                        }
                        if eliminations@.contains(x) && !before.contains(x) {
                            assert(eliminations@.last() == x);
                        }
                        if x.index == e && x.value == v && set@.contains(x.value) && other@.contains(x.value) {
                            assert(eliminations@.last() == x);
                            assert(eliminations@.contains(eliminations@.last()));
                        }
                    }
                }
                v = v + 1;
            }
            proof {
                set.lemma_finite();
                assert forall|x: Placement|
                    #[trigger] eliminations@.contains(x) <==> start.contains(x) || (x.index < e + 1 && x.index != c
                        && x.index != p && share_unit(state.regions(), c, p, x.index) && set@.contains(
                        x.value,
                    ) && candidates@[x.index as int].contains(x.value)) by {
                    if set@.contains(x.value) {
                        assert(is_digit(x.value));
                    }
                }
            }
        }
        e = e + 1;
    }
}

/// Finds pairs of peer cells with the same two candidates. Such twins take
/// both digits between them, so every other cell of a unit holding both
/// loses them. A cell with two twins in one unit with it makes the branch
/// impossible.
pub fn naked_twins(state: &mut GameState, candidates: &SetOfMoveCandidates) -> (r: Result<
    StrategyMove,
    StrategyError,
>)
    requires
        old(state).wf(),
        candidates.wf(),
    ensures
        *final(state) == *old(state),
        r is Err <==> twins_conflict(old(state).regions(), old(state).cells(), candidates@),
        match r {
            Ok(StrategyMove::EliminateOnly(ps)) => {
                &&& ps@.len() > 0
                &&& forall|x: Placement|
                    ps@.contains(x) <==> twin_elimination(
                        old(state).regions(),
                        old(state).cells(),
                        candidates@,
                        x.index,
                        x.value,
                    )
            },
            Ok(StrategyMove::NoChange) => forall|e: usize, v: u8|
                !twin_elimination(old(state).regions(), old(state).cells(), candidates@, e, v),
            Ok(StrategyMove::Applied(_)) => false,
            Err(e) => e == StrategyError::BoardInvalid,
        },
{
    let ghost groups = state.regions();
    let ghost cells = state.cells();
    let mut eliminations: Vec<Placement> = Vec::new();
    let mut c: usize = 0;
    while c < CELLS
        invariant
            state.wf(),
            candidates.wf(),
            *state == *old(state),
            groups == state.regions(),
            cells == state.cells(),
            c <= 81,
            forall|c2: usize, p: usize, q: usize|
                #![trigger twins(groups, cells, candidates@, c2, p), twins(groups, cells, candidates@, c2, q)]
                c2 < c ==> !(twins(groups, cells, candidates@, c2, p) && twins(groups, cells, candidates@, c2, q) && p != q
                    && share_unit(groups, c2, p, q)),
            forall|x: Placement|
                eliminations@.contains(x) <==> exists|c2: usize, p: usize|
                    #[trigger] twins(groups, cells, candidates@, c2, p) && c2 < c && c2 < p && x.index < 81
                        && x.index != c2 && x.index != p && share_unit(groups, c2, p, x.index)
                        && candidates@[c2 as int].contains(x.value) && candidates@[x.index as int].contains(x.value),
        decreases 81 - c,
    {
        let partners = twin_partners(state, candidates, c);
        if partners_conflict(state, c, &partners) {
            proof {
                let (a, b) = choose|a: int, b: int|
                    0 <= a < b < partners@.len() && share_unit(groups, c, partners@[a], partners@[b]);
                assert(partners@.contains(partners@[a]));
                assert(partners@.contains(partners@[b]));
                assert(twins(groups, cells, candidates@, c, partners@[a]));
                assert(twins(groups, cells, candidates@, c, partners@[b]));
            }
            return Err(StrategyError::BoardInvalid);
        }
        proof {
            assert forall|p: usize, q: usize|
                #![trigger twins(groups, cells, candidates@, c, p), twins(groups, cells, candidates@, c, q)]
                !(twins(groups, cells, candidates@, c, p) && twins(groups, cells, candidates@, c, q) && p != q
                    && share_unit(groups, c, p, q)) by {
                if twins(groups, cells, candidates@, c, p) && twins(groups, cells, candidates@, c, q) && p != q
                    && share_unit(groups, c, p, q) {
                    assert(partners@.contains(p));
                    assert(partners@.contains(q));
                    let a = choose|a: int| 0 <= a < partners@.len() && partners@[a] == p;
                    let b = choose|b: int| 0 <= b < partners@.len() && partners@[b] == q;
                    if a < b {
                        assert(share_unit(groups, c, partners@[a], partners@[b]));
                    } else {
                        lemma_share_unit_swap(groups, c, p, q);
                        assert(share_unit(groups, c, partners@[b], partners@[a]));
                    }
                }
            }
        }
        let set = candidates.values_at(c);
        proof {
            assert(candidates@[c as int] == set@);
        }
        let mut k: usize = 0;
        while k < partners.len()
            invariant
                state.wf(),
                candidates.wf(),
                *state == *old(state),
                groups == state.regions(),
                cells == state.cells(),
                c < 81,
                candidates@[c as int] == set@,
                set.wf(),
                k <= partners@.len(),
                forall|p: usize|
                    partners@.contains(p) <==> twins(groups, cells, candidates@, c, p),
                forall|a: int| 0 <= a < partners@.len() ==> partners@[a] < 81,
                forall|x: Placement|
                    eliminations@.contains(x) <==> (exists|c2: usize, p: usize|
                        #[trigger] twins(groups, cells, candidates@, c2, p) && c2 < c && c2 < p && x.index < 81
                            && x.index != c2 && x.index != p && share_unit(groups, c2, p, x.index)
                            && candidates@[c2 as int].contains(x.value) && candidates@[x.index as int].contains(x.value))
                        || (exists|j: int| 0 <= j < k && #[trigger] partners@[j] > c && x.index < 81
                            && x.index != c && x.index != partners@[j] && share_unit(groups, c, partners@[j], x.index)
                            && set@.contains(x.value) && candidates@[x.index as int].contains(x.value)),
            decreases partners@.len() - k,
        {
            let p = partners[k];
            let ghost before = eliminations@;
            if p > c {
                collect_eliminations(state, candidates, c, p, &set, &mut eliminations);
            }
            proof {
                assert forall|x: Placement|
                    eliminations@.contains(x) <==> (exists|c2: usize, p2: usize|
                        #[trigger] twins(groups, cells, candidates@, c2, p2) && c2 < c && c2 < p2 && x.index < 81
                            && x.index != c2 && x.index != p2 && share_unit(groups, c2, p2, x.index)
                            && candidates@[c2 as int].contains(x.value) && candidates@[x.index as int].contains(x.value))
                        || (exists|j: int| 0 <= j < k + 1 && #[trigger] partners@[j] > c && x.index < 81
                            && x.index != c && x.index != partners@[j] && share_unit(groups, c, partners@[j], x.index)
                            && set@.contains(x.value) && candidates@[x.index as int].contains(x.value)) by {
                    if exists|j: int| 0 <= j < k + 1 && #[trigger] partners@[j] > c && x.index < 81
                            && x.index != c && x.index != partners@[j] && share_unit(groups, c, partners@[j], x.index)
                            && set@.contains(x.value) && candidates@[x.index as int].contains(x.value) {
                        let j = choose|j: int| 0 <= j < k + 1 && #[trigger] partners@[j] > c && x.index < 81
                            && x.index != c && x.index != partners@[j] && share_unit(groups, c, partners@[j], x.index)
                            && set@.contains(x.value) && candidates@[x.index as int].contains(x.value);
                        if j == k {
                            assert(eliminations@.contains(x));
                        } else {
                            assert(before.contains(x));
                        }
                    }
                    if eliminations@.contains(x) && !before.contains(x) {
                        assert(partners@[k as int] > c);
                    }
                }
            }
            k = k + 1;
        }
        proof {
            assert forall|x: Placement|
                eliminations@.contains(x) <==> exists|c2: usize, p: usize|
                    #[trigger] twins(groups, cells, candidates@, c2, p) && c2 < c + 1 && c2 < p && x.index < 81
                        && x.index != c2 && x.index != p && share_unit(groups, c2, p, x.index)
                        && candidates@[c2 as int].contains(x.value) && candidates@[x.index as int].contains(x.value) by {
                if exists|j: int| 0 <= j < partners@.len() && #[trigger] partners@[j] > c && x.index < 81
                        && x.index != c && x.index != partners@[j] && share_unit(groups, c, partners@[j], x.index)
                        && set@.contains(x.value) && candidates@[x.index as int].contains(x.value) {
                    let j = choose|j: int| 0 <= j < partners@.len() && #[trigger] partners@[j] > c && x.index < 81
                        && x.index != c && x.index != partners@[j] && share_unit(groups, c, partners@[j], x.index)
                        && set@.contains(x.value) && candidates@[x.index as int].contains(x.value);
                    assert(partners@.contains(partners@[j]));
                    assert(twins(groups, cells, candidates@, c, partners@[j]));
                }
                if exists|c2: usize, p: usize|
                    #[trigger] twins(groups, cells, candidates@, c2, p) && c2 == c && c2 < p && x.index < 81
                        && x.index != c2 && x.index != p && share_unit(groups, c2, p, x.index)
                        && candidates@[c2 as int].contains(x.value) && candidates@[x.index as int].contains(x.value) {
                    let (c2, p) = choose|c2: usize, p: usize|
                        #[trigger] twins(groups, cells, candidates@, c2, p) && c2 == c && c2 < p && x.index < 81
                            && x.index != c2 && x.index != p && share_unit(groups, c2, p, x.index)
                            && candidates@[c2 as int].contains(x.value) && candidates@[x.index as int].contains(x.value);
                    assert(partners@.contains(p));
                    let j = choose|j: int| 0 <= j < partners@.len() && partners@[j] == p;
                    assert(partners@[j] > c);
                }
            }
        }
        c = c + 1;
    }
    proof {
        assert(!twins_conflict(groups, cells, candidates@));
        assert forall|x: Placement|
            eliminations@.contains(x) <==> twin_elimination(groups, cells, candidates@, x.index, x.value) by {
            if twin_elimination(groups, cells, candidates@, x.index, x.value) {
                let (c2, p) = choose|c2: usize, p: usize|
                    #[trigger] twins(groups, cells, candidates@, c2, p) && x.index < 81 && x.index != c2
                        && x.index != p && share_unit(groups, c2, p, x.index)
                        && candidates@[c2 as int].contains(x.value) && candidates@[x.index as int].contains(x.value);
                if p < c2 {
                    lemma_twins_symmetric(groups, cells, candidates@, c2, p);
                    lemma_share_unit_swap(groups, c2, p, x.index);
                    assert(twins(groups, cells, candidates@, p, c2));
                }
            }
        }
    }
    if eliminations.len() == 0 {
        proof {
            assert forall|e: usize, v: u8| !twin_elimination(groups, cells, candidates@, e, v) by {
                if twin_elimination(groups, cells, candidates@, e, v) {
                    assert(eliminations@.contains(Placement { index: e, value: v }));
                }
            }
        }
        return Ok(StrategyMove::NoChange);
    }
    Ok(StrategyMove::EliminateOnly(eliminations))
}

} // verus!
