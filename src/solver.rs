use crate::candidates::{
    candidates_sound, count_candidates, find_move_candidates, lemma_count_shrinks, peer_digit,
    SetOfMoveCandidates,
};
use crate::game::SudokuError;
use crate::game_state::{
    column_set, grid_ok, is_peer, peer_set, row_set, unit_ok, CollectType, GameState,
};
use crate::indexbitset::{IndexBitSet, CELLS};
use crate::placement::Placement;
use crate::prelude::{col_of, is_digit, lemma_split, row_of, valid_cell, valid_cells};
use crate::steps::{
    free_candidates, hidden_single, hidden_singles, lone_single, lone_singles, naked_twins, placed,
    other_peer_digit, share_unit, twin_elimination, twins, twins_conflict,
    StrategyError, StrategyMove,
};
use crate::valuebitset::ValueBitSet;
use vstd::prelude::*;

verus! {

/// The deduction steps, in the order the solver runs them.
#[derive(Clone, Copy)]
enum Strategy {
    LoneSingles,
    HiddenSingles,
    NakedTwins,
}

/// Writing `d` at cell `i` is what `strategy` deduces.
spec fn single_of(
    strategy: Strategy,
    groups: Seq<IndexBitSet>,
    cells: Seq<Option<u8>>,
    cands: Seq<Set<u8>>,
    i: int,
    d: u8,
) -> bool {
    match strategy {
        Strategy::LoneSingles => lone_single(cells, cands, i, d),
        Strategy::HiddenSingles => hidden_single(groups, cells, cands, i, d),
        Strategy::NakedTwins => false,
    }
}

/// `strategy` deduces something on this branch: a digit to write, a
/// candidate to drop, or a contradiction.
spec fn finds(
    strategy: Strategy,
    groups: Seq<IndexBitSet>,
    cells: Seq<Option<u8>>,
    cands: Seq<Set<u8>>,
) -> bool {
    match strategy {
        Strategy::NakedTwins => twins_conflict(groups, cells, cands) || exists|e: usize, v: u8|
            #[trigger] twin_elimination(groups, cells, cands, e, v),
        _ => exists|i: int, d: u8| #[trigger] single_of(strategy, groups, cells, cands, i, d),
    }
}

/// `after` is `cells` with every digit that `strategy` deduces written.
spec fn cells_after_placing(
    strategy: Strategy,
    groups: Seq<IndexBitSet>,
    cells: Seq<Option<u8>>,
    cands: Seq<Set<u8>>,
    after: Seq<Option<u8>>,
) -> bool {
    &&& after.len() == 81
    &&& forall|i: int, d: u8| #[trigger] single_of(strategy, groups, cells, cands, i, d) ==> after[i] == Some(d)
    &&& forall|i: int|
        0 <= i < 81 && (forall|d: u8| !#[trigger] single_of(strategy, groups, cells, cands, i, d))
            ==> after[i] == cells[i]
}

/// `after` is `cands` with the written cells cleared and each written digit
/// dropped from the candidates of the written cell's peers.
spec fn cands_after_placing(
    strategy: Strategy,
    groups: Seq<IndexBitSet>,
    cells: Seq<Option<u8>>,
    cands: Seq<Set<u8>>,
    after: Seq<Set<u8>>,
) -> bool {
    forall|i: int|
        0 <= i < 81 ==> #[trigger] after[i] == if exists|d: u8| #[trigger] single_of(strategy, groups, cells, cands, i, d) {
            Set::<u8>::empty()
        } else {
            cands[i].filter(
                |v: u8|
                    !exists|j: int|
                        #[trigger] single_of(strategy, groups, cells, cands, j, v) && is_peer(
                            groups,
                            j as usize,
                            i as usize,
                        ),
            )
        }
}

/// `after` is `cands` without every candidate that naked twins rule out.
pub open spec fn cands_after_twins(
    groups: Seq<IndexBitSet>,
    cells: Seq<Option<u8>>,
    cands: Seq<Set<u8>>,
    after: Seq<Set<u8>>,
) -> bool {
    forall|i: int|
        0 <= i < 81 ==> #[trigger] after[i] == cands[i].filter(
            |v: u8| !twin_elimination(groups, cells, cands, i as usize, v),
        )
}

/// Every filled cell of `before` holds the same digit in `after`.
pub open spec fn extends(before: Seq<Option<u8>>, after: Seq<Option<u8>>) -> bool {
    forall|i: int| 0 <= i < 81 && #[trigger] before[i] is Some ==> after[i] == before[i]
}

/// Only empty cells have candidates.
pub open spec fn entries_on_empty(state: GameState, candidates: SetOfMoveCandidates) -> bool {
    forall|i: int| 0 <= i < 81 && #[trigger] candidates@[i] != Set::<u8>::empty() ==> state.cells()[i] is None
}

/// Every cell keeps at most the candidates it had.
pub open spec fn shrinks(before: Seq<Set<u8>>, after: Seq<Set<u8>>) -> bool {
    forall|i: int| 0 <= i < 81 ==> (#[trigger] after[i]).subset_of(before[i])
}

/// A branch of the search that belongs to `root`.
pub open spec fn frame_ok(root: GameState, state: GameState, candidates: SetOfMoveCandidates) -> bool {
    &&& state.wf()
    &&& candidates.wf()
    &&& state.game == root.game
    &&& extends(root.cells(), state.cells())
    &&& entries_on_empty(state, candidates)
    &&& candidates_sound(state.regions(), state.cells(), candidates@)
}

/// How far a branch is from done: empty cells first, then candidates.
pub open spec fn weight(state: GameState, candidates: SetOfMoveCandidates) -> nat {
    state.empty_cells@.len() * 1000 + count_candidates(candidates@, 81)
}

pub open spec fn pow3(n: nat) -> nat
    decreases n,
{
    if n == 0 {
        1
    } else {
        3 * pow3((n - 1) as nat)
    }
}

/// The search stack's measure: each branch counts three to its weight.
pub open spec fn stack_measure(stack: Seq<(GameState, SetOfMoveCandidates)>) -> nat
    decreases stack.len(),
{
    if stack.len() == 0 {
        0
    } else {
        stack_measure(stack.drop_last()) + pow3(weight(stack.last().0, stack.last().1))
    }
}

proof fn lemma_pow3_grows(a: nat, b: nat)
    requires
        a < b,
    ensures
        3 * pow3(a) <= pow3(b),
        pow3(a) >= 1,
    decreases b,
{
    if b - 1 > a {
        lemma_pow3_grows(a, (b - 1) as nat);
    }
    lemma_pow3_positive(a);
}

proof fn lemma_pow3_positive(a: nat)
    ensures
        pow3(a) >= 1,
    decreases a,
{
    if a > 0 {
        lemma_pow3_positive((a - 1) as nat);
    }
}

/// The placement's digit is gone from the candidates of all its peers.
pub open spec fn eliminated(
    state: GameState,
    before: Seq<Set<u8>>,
    after: Seq<Set<u8>>,
    p: Placement,
) -> bool {
    forall|i: int|
        0 <= i < 81 ==> #[trigger] after[i] == if is_peer(state.regions(), p.index, i as usize) {
            before[i].remove(p.value)
        } else {
            before[i]
        }
}

/// Candidate `v` of cell `i` is cleared by one of the first `n` placements:
/// it stands at `i`, or it is a peer of `i` with digit `v`.
pub open spec fn removed_by(groups: Seq<IndexBitSet>, applied: Seq<Placement>, n: int, i: int, v: u8) -> bool {
    exists|j: int|
        0 <= j < n && (#[trigger] applied[j].index == i || (applied[j].value == v && is_peer(
            groups,
            applied[j].index,
            i as usize,
        )))
}

/// Removes the placement's digit from the candidates of all its peers.
fn eliminate(state: &GameState, candidates: &mut SetOfMoveCandidates, placement: &Placement)
    requires
        state.wf(),
        old(candidates).wf(),
        placement.index < CELLS,
    ensures
        final(candidates).wf(),
        eliminated(*state, old(candidates)@, final(candidates)@, *placement),
{
    let peers = state.peer_indexes_by_index(placement.index, false, CollectType::All);
    let mut peer_index: usize = 0;
    while peer_index < CELLS
        invariant
            state.wf(),
            candidates.wf(),
            placement.index < 81,
            peers@ == peer_set(state.regions(), state.cells(), placement.index, false, CollectType::All),
            peer_index <= 81,
            candidates@.len() == 81,
            forall|i: int|
                0 <= i < 81 ==> #[trigger] candidates@[i] == if i < peer_index && is_peer(
                    state.regions(),
                    placement.index,
                    i as usize,
                ) {
                    old(candidates)@[i].remove(placement.value)
                } else {
                    old(candidates)@[i]
                },
        decreases 81 - peer_index,
    {
        if peers.contains(peer_index) {
            candidates.remove_candidate(&Placement::new(placement.value, peer_index));
        }
        peer_index = peer_index + 1;
    }
}

/// Clears the cell of each placement and removes its digit from the
/// candidates of all its peers.
fn eliminate_many(state: &GameState, candidates: &mut SetOfMoveCandidates, applied: &Vec<Placement>)
    requires
        state.wf(),
        old(candidates).wf(),
        forall|k: int| 0 <= k < applied@.len() ==> (#[trigger] applied@[k]).index < CELLS,
    ensures
        final(candidates).wf(),
        shrinks(old(candidates)@, final(candidates)@),
        forall|k: int| 0 <= k < applied@.len() ==> final(candidates)@[#[trigger] applied@[k].index as int] == Set::<u8>::empty(),
        forall|k: int, i: int|
            0 <= k < applied@.len() && 0 <= i < 81 && is_peer(state.regions(), applied@[k].index, i as usize)
                ==> !(#[trigger] final(candidates)@[i]).contains(#[trigger] applied@[k].value),
        forall|i: int, v: u8|
            0 <= i < 81 && #[trigger] old(candidates)@[i].contains(v) && !final(candidates)@[i].contains(v)
                ==> removed_by(state.regions(), applied@, applied@.len() as int, i, v),
{
    let mut k: usize = 0;
    while k < applied.len()
        invariant
            state.wf(),
            candidates.wf(),
            k <= applied@.len(),
            candidates@.len() == 81,
            forall|j: int| 0 <= j < applied@.len() ==> (#[trigger] applied@[j]).index < CELLS,
            shrinks(old(candidates)@, candidates@),
            forall|j: int| 0 <= j < k ==> candidates@[#[trigger] applied@[j].index as int] == Set::<u8>::empty(),
            forall|j: int, i: int|
                0 <= j < k && 0 <= i < 81 && is_peer(state.regions(), applied@[j].index, i as usize)
                    ==> !(#[trigger] candidates@[i]).contains(#[trigger] applied@[j].value),
            forall|i: int, v: u8|
                0 <= i < 81 && #[trigger] old(candidates)@[i].contains(v) && !candidates@[i].contains(v)
                    ==> removed_by(state.regions(), applied@, k as int, i, v),
        decreases applied@.len() - k,
    {
        let placement = &applied[k];
        let ghost mid = candidates@;
        candidates.remove_index(placement.index);
        let ghost cleared = candidates@;
        eliminate(state, candidates, placement);
        proof {
            assert forall|i: int| 0 <= i < 81 implies (#[trigger] candidates@[i]).subset_of(
                old(candidates)@[i],
            ) by {
                assert(candidates@[i].subset_of(cleared[i]));
                assert(cleared[i].subset_of(mid[i]));
            }
            assert forall|j: int| 0 <= j < k + 1 implies candidates@[#[trigger] applied@[j].index as int]
                == Set::<u8>::empty() by {
                let i = applied@[j].index as int;
                if j < k {
                    assert(mid[i] == Set::<u8>::empty());
                }
                assert(cleared[i] == Set::<u8>::empty()) by {
                    if j < k {
                        assert(cleared[i] == mid[i] || i == placement.index);
                    }
                }
                assert(candidates@[i] =~= Set::<u8>::empty());
            }
            assert forall|j: int, i: int|
                0 <= j < k + 1 && 0 <= i < 81 && is_peer(state.regions(), applied@[j].index, i as usize)
                    implies !(#[trigger] candidates@[i]).contains(#[trigger] applied@[j].value) by {
                if j < k {
                    assert(!mid[i].contains(applied@[j].value));
                    assert(candidates@[i].subset_of(mid[i]));
                }
            }
            assert forall|i: int, v: u8|
                0 <= i < 81 && #[trigger] old(candidates)@[i].contains(v) && !candidates@[i].contains(v)
                    implies removed_by(state.regions(), applied@, k + 1, i, v) by {
                if mid[i].contains(v) {
                    if i == placement.index {
                        assert(applied@[k as int].index == i);
                    } else {
                        assert(cleared[i] == mid[i]);
                        assert(applied@[k as int].value == v);
                    }
                }
            }
        }
        k = k + 1;
    }
}

/// Runs one deduction step and applies what it found to the grid and the
/// candidates. Tells whether anything changed; fails when the step proves
/// the branch impossible or the grid now holds a digit twice in a unit.
fn apply_simple_strategy_once(
    strategy: Strategy,
    state: &mut GameState,
    candidates: &mut SetOfMoveCandidates,
) -> (r: Result<bool, StrategyError>)
    requires
        old(state).wf(),
        old(candidates).wf(),
        entries_on_empty(*old(state), *old(candidates)),
    ensures
        final(state).wf(),
        final(candidates).wf(),
        final(state).game == old(state).game,
        extends(old(state).cells(), final(state).cells()),
        entries_on_empty(*final(state), *final(candidates)),
        shrinks(old(candidates)@, final(candidates)@),
        r == Ok::<bool, StrategyError>(false) ==> final(state).cells() == old(state).cells()
            && final(candidates)@ == old(candidates)@,
        r == Ok::<bool, StrategyError>(true) ==> count_candidates(final(candidates)@, 81)
            < count_candidates(old(candidates)@, 81),
        forall|sol: Seq<Option<u8>>|
            #[trigger] admits(*old(state), old(candidates)@, sol) ==> r is Ok && admits(
                *final(state),
                final(candidates)@,
                sol,
            ),
        candidates_sound(old(state).regions(), old(state).cells(), old(candidates)@) ==> candidates_sound(
            final(state).regions(),
            final(state).cells(),
            final(candidates)@,
        ),
        r == Ok::<bool, StrategyError>(false) <==> !finds(
            strategy,
            old(state).regions(),
            old(state).cells(),
            old(candidates)@,
        ),
        strategy is NakedTwins && twins_conflict(old(state).regions(), old(state).cells(), old(candidates)@)
            ==> {
            &&& r is Err
            &&& final(state).cells() == old(state).cells()
            &&& final(candidates)@ == old(candidates)@
        },
        finds(strategy, old(state).regions(), old(state).cells(), old(candidates)@) && !(
        strategy is NakedTwins && twins_conflict(old(state).regions(), old(state).cells(), old(candidates)@))
            ==> {
            &&& strategy is NakedTwins ==> {
                &&& final(state).cells() == old(state).cells()
                &&& cands_after_twins(
                    old(state).regions(),
                    old(state).cells(),
                    old(candidates)@,
                    final(candidates)@,
                )
            }
            &&& !(strategy is NakedTwins) ==> {
                &&& cells_after_placing(
                    strategy,
                    old(state).regions(),
                    old(state).cells(),
                    old(candidates)@,
                    final(state).cells(),
                )
                &&& cands_after_placing(
                    strategy,
                    old(state).regions(),
                    old(state).cells(),
                    old(candidates)@,
                    final(candidates)@,
                )
            }
            &&& r is Err <==> !grid_ok(final(state).cells(), final(state).regions(), true)
            &&& r is Ok ==> r == Ok::<bool, StrategyError>(true)
        },
{
    let outcome = match strategy {
        Strategy::LoneSingles => lone_singles(state, candidates),
        Strategy::HiddenSingles => hidden_singles(state, candidates),
        Strategy::NakedTwins => naked_twins(state, candidates),
    };
    let ghost cells0 = old(state).cells();
    let ghost cands0 = old(candidates)@;
    let applied = match outcome {
        Err(e) => {
            proof {
                assert forall|sol: Seq<Option<u8>>| !admits(*old(state), cands0, sol) by {
                    if admits(*old(state), cands0, sol) {
                        lemma_twins_conflict_excludes_solution(*old(state), *old(candidates), sol);
                    }
                }
                assert(strategy is NakedTwins);
                assert(twins_conflict(old(state).regions(), cells0, cands0));
            }
            return Err(e);
        },
        Ok(m) => m,
    };
    match applied {
        StrategyMove::NoChange => {
            proof {
                let groups = old(state).regions();
                if strategy is NakedTwins {
                    assert(!finds(strategy, groups, cells0, cands0));
                } else {
                    assert forall|i: int, d: u8| !#[trigger] single_of(strategy, groups, cells0, cands0, i, d) by {}
                }
            }
            return Ok(false);
        },
        StrategyMove::Applied(ps) => {
            proof {
                assert forall|k: int| 0 <= k < ps@.len() implies (#[trigger] ps@[k]).index < CELLS
                    && cells0[ps@[k].index as int] is None && cands0[ps@[k].index as int].contains(ps@[k].value) by {
                    assert(ps@.contains(ps@[k]));
                    if strategy is HiddenSingles {
                        let p = ps@[k];
                        assert(hidden_single(old(state).regions(), cells0, cands0, p.index as int, p.value));
                        assert(free_candidates(old(state).regions(), cells0, cands0, p.index as int).contains(p.value));
                    }
                }
            }
            eliminate_many(state, candidates, &ps);
            proof {
                let i0 = ps@[0].index as int;
                old(candidates).lemma_finite();
                let v = ps@[0].value;
                assert(cands0[i0].contains(v));
                assert(!candidates@[i0].contains(v));
                lemma_count_shrinks(cands0, candidates@, 81);
                assert forall|i: int| 0 <= i < 81 && #[trigger] cells0[i] is Some implies state.cells()[i] == cells0[i] by {
                    if exists|k: int| 0 <= k < ps@.len() && #[trigger] ps@[k].index == i {
                        let k = choose|k: int| 0 <= k < ps@.len() && #[trigger] ps@[k].index == i;
                        assert(cells0[ps@[k].index as int] is None);
                    }
                }
                assert forall|sol: Seq<Option<u8>>| #[trigger] admits(*old(state), cands0, sol) implies admits(
                    *state,
                    candidates@,
                    sol,
                ) by {
                    assert forall|k: int| 0 <= k < ps@.len() implies (#[trigger] ps@[k]).index < 81
                        && sol[ps@[k].index as int] == Some(ps@[k].value) by {
                        let p = ps@[k];
                        let i = p.index as int;
                        assert(ps@.contains(p));
                        lemma_solution_complete(old(state).regions(), sol, i);
                        let s = sol[i]->0;
                        assert(cands0[i].contains(s));
                        if strategy is HiddenSingles {
                            let free = free_candidates(old(state).regions(), cells0, cands0, i);
                            assert(hidden_single(old(state).regions(), cells0, cands0, i, p.value));
                            if other_peer_digit(old(state).regions(), cells0, p.index, s) {
                                let j = choose|j: usize| #[trigger] is_peer(old(state).regions(), p.index, j) && j != p.index
                                    && cells0[j as int] == Some(s);
                                lemma_peers_differ(old(state).regions(), sol, p.index, j);
                            }
                            assert(free.contains(s));
                        } else if strategy is LoneSingles {
                            assert(lone_single(cells0, cands0, i, p.value));
                        }
                    }
                    lemma_applied_keeps(*old(state), *state, cands0, candidates@, ps@, sol);
                }
                if candidates_sound(old(state).regions(), cells0, cands0) {
                    lemma_sound_after_placing(old(state).regions(), cells0, state.cells(), cands0, candidates@, ps@);
                }
                let groups = old(state).regions();
                assert(strategy !is NakedTwins);
                assert forall|p: Placement| #[trigger] ps@.contains(p) <==> single_of(strategy, groups, cells0, cands0, p.index as int, p.value) by {}
                assert(ps@.contains(ps@[0]));
                assert(single_of(strategy, groups, cells0, cands0, ps@[0].index as int, ps@[0].value));
                assert(finds(strategy, groups, cells0, cands0));
                assert forall|i: int, d: u8| #[trigger] single_of(strategy, groups, cells0, cands0, i, d) implies state.cells()[i] == Some(d) by {
                    let p = Placement { index: i as usize, value: d };
                    assert(ps@.contains(p));
                    let k = choose|k: int| 0 <= k < ps@.len() && ps@[k] == p;
                    assert(state.cells()[ps@[k].index as int] == Some(ps@[k].value));
                }
                assert forall|i: int|
                    0 <= i < 81 && (forall|d: u8| !#[trigger] single_of(strategy, groups, cells0, cands0, i, d))
                        implies state.cells()[i] == cells0[i] by {
                    if exists|k: int| 0 <= k < ps@.len() && #[trigger] ps@[k].index == i {
                        let k = choose|k: int| 0 <= k < ps@.len() && #[trigger] ps@[k].index == i;
                        assert(ps@.contains(ps@[k]));
                        assert(single_of(strategy, groups, cells0, cands0, i, ps@[k].value));
                    }
                }
                assert forall|i: int| 0 <= i < 81 implies #[trigger] candidates@[i] == if exists|d: u8| #[trigger] single_of(strategy, groups, cells0, cands0, i, d) {
                    Set::<u8>::empty()
                } else {
                    cands0[i].filter(
                        |v: u8|
                            !exists|j: int|
                                #[trigger] single_of(strategy, groups, cells0, cands0, j, v) && is_peer(
                                    groups,
                                    j as usize,
                                    i as usize,
                                ),
                    )
                } by {
                    if exists|d: u8| #[trigger] single_of(strategy, groups, cells0, cands0, i, d) {
                        let d = choose|d: u8| #[trigger] single_of(strategy, groups, cells0, cands0, i, d);
                        let p = Placement { index: i as usize, value: d };
                        assert(ps@.contains(p));
                        let k = choose|k: int| 0 <= k < ps@.len() && ps@[k] == p;
                        assert(candidates@[ps@[k].index as int] == Set::<u8>::empty());
                    } else {
                        let target = cands0[i].filter(
                            |v: u8|
                                !exists|j: int|
                                    #[trigger] single_of(strategy, groups, cells0, cands0, j, v) && is_peer(
                                        groups,
                                        j as usize,
                                        i as usize,
                                    ),
                        );
                        assert forall|v: u8| #[trigger] candidates@[i].contains(v) == target.contains(v) by {
                            assert(candidates@[i].subset_of(cands0[i]));
                            if cands0[i].contains(v) && !candidates@[i].contains(v) {
                                assert(removed_by(groups, ps@, ps@.len() as int, i, v));
                                let k = choose|k: int|
                                    0 <= k < ps@.len() && (#[trigger] ps@[k].index == i || (ps@[k].value == v && is_peer(
                                        groups,
                                        ps@[k].index,
                                        i as usize,
                                    )));
                                assert(ps@.contains(ps@[k]));
                                if ps@[k].index == i {
                                    assert(single_of(strategy, groups, cells0, cands0, i, ps@[k].value));
                                }
                                assert(single_of(strategy, groups, cells0, cands0, ps@[k].index as int, v));
                            }
                            if exists|j: int| #[trigger] single_of(strategy, groups, cells0, cands0, j, v) && is_peer(
                                groups,
                                j as usize,
                                i as usize,
                            ) {
                                let j = choose|j: int| #[trigger] single_of(strategy, groups, cells0, cands0, j, v) && is_peer(
                                    groups,
                                    j as usize,
                                    i as usize,
                                );
                                let p = Placement { index: j as usize, value: v };
                                assert(0 <= j < 81);
                                assert(ps@.contains(p));
                                let k = choose|k: int| 0 <= k < ps@.len() && ps@[k] == p;
                                assert(!candidates@[i].contains(ps@[k].value));
                            }
                        }
                        assert(candidates@[i] =~= target);
                    }
                }
                assert forall|i: int| 0 <= i < 81 && #[trigger] candidates@[i] != Set::<u8>::empty()
                    implies state.cells()[i] is None by {
                    if exists|k: int| 0 <= k < ps@.len() && #[trigger] ps@[k].index == i {
                        let k = choose|k: int| 0 <= k < ps@.len() && #[trigger] ps@[k].index == i;
                        assert(candidates@[ps@[k].index as int] == Set::<u8>::empty());
                    } else {
                        assert(candidates@[i].subset_of(cands0[i]));
                        if cands0[i] == Set::<u8>::empty() {
                            assert(candidates@[i] =~= Set::<u8>::empty());
                        }
                    }
                }
            }
        },
        StrategyMove::EliminateOnly(ps) => {
            let ghost list = ps@;
            candidates.remove_candidates(ps);
            proof {
                let x = list[0];
                assert(list.contains(x));
                assert(twin_elimination(old(state).regions(), cells0, cands0, x.index, x.value));
                assert(cands0[x.index as int].contains(x.value));
                assert(!candidates@[x.index as int].contains(x.value)) by {
                    assert(list[0].index == x.index && list[0].value == x.value);
                }
                old(candidates).lemma_finite();
                assert forall|i: int| 0 <= i < 81 implies (#[trigger] candidates@[i]).subset_of(cands0[i]) by {}
                lemma_count_shrinks(cands0, candidates@, 81);
                assert forall|i: int| 0 <= i < 81 && #[trigger] candidates@[i] != Set::<u8>::empty()
                    implies state.cells()[i] is None by {
                    if cands0[i] == Set::<u8>::empty() {
                        assert(candidates@[i] =~= Set::<u8>::empty());
                    }
                }
                if candidates_sound(old(state).regions(), cells0, cands0) {
                    lemma_sound_shrinks(old(state).regions(), cells0, cands0, candidates@);
                }
                let groups = old(state).regions();
                assert(strategy is NakedTwins);
                assert(finds(strategy, groups, cells0, cands0));
                assert forall|i: int| 0 <= i < 81 implies #[trigger] candidates@[i] == cands0[i].filter(
                    |v: u8| !twin_elimination(groups, cells0, cands0, i as usize, v),
                ) by {
                    let target = cands0[i].filter(|v: u8| !twin_elimination(groups, cells0, cands0, i as usize, v));
                    assert forall|v: u8| #[trigger] candidates@[i].contains(v) == target.contains(v) by {
                        if twin_elimination(groups, cells0, cands0, i as usize, v) {
                            let p = Placement { index: i as usize, value: v };
                            assert(list.contains(p));
                            let k = choose|k: int| 0 <= k < list.len() && list[k] == p;
                            assert(list[k].index == i && list[k].value == v);
                        }
                        if exists|k: int| 0 <= k < list.len() && #[trigger] list[k].index == i && list[k].value == v {
                            let k = choose|k: int| 0 <= k < list.len() && #[trigger] list[k].index == i && list[k].value == v;
                            assert(list.contains(list[k]));
                        }
                    }
                    assert(candidates@[i] =~= target);
                }
                assert forall|sol: Seq<Option<u8>>| #[trigger] admits(*old(state), cands0, sol) implies admits(
                    *state,
                    candidates@,
                    sol,
                ) by {
                    assert forall|i: int| 0 <= i < 81 && #[trigger] state.cells()[i] is None implies candidates@[i].contains(sol[i]->0) by {
                        let v = sol[i]->0;
                        assert(cands0[i].contains(v));
                        if !candidates@[i].contains(v) {
                            let k = choose|k: int| 0 <= k < list.len() && #[trigger] list[k].index == i && list[k].value == v;
                            assert(list.contains(list[k]));
                            lemma_solution_complete(old(state).regions(), sol, i);
                            lemma_twin_elimination_keeps_solutions(*old(state), *old(candidates), sol, i as usize, v);
                        }
                    }
                }
            }
        },
    }
    proof {
        assert forall|sol: Seq<Option<u8>>| #[trigger] admits(*old(state), cands0, sol) implies grid_ok(
            state.cells(),
            state.regions(),
            true,
        ) by {
            assert(admits(*state, candidates@, sol));
            lemma_partial_grid_ok(state.regions(), state.cells(), sol);
        }
    }
    if !state.validate(true) {
        return Err(StrategyError::BoardInvalid);
    }
    Ok(true)
}

/// Runs one deduction step until it finds nothing more. Tells whether it
/// changed anything; fails as [`apply_simple_strategy_once`] does.
fn apply_simple_strategy_repeatedly(
    strategy: Strategy,
    state: &mut GameState,
    candidates: &mut SetOfMoveCandidates,
) -> (r: Result<bool, StrategyError>)
    requires
        old(state).wf(),
        old(candidates).wf(),
        entries_on_empty(*old(state), *old(candidates)),
    ensures
        final(state).wf(),
        final(candidates).wf(),
        final(state).game == old(state).game,
        extends(old(state).cells(), final(state).cells()),
        entries_on_empty(*final(state), *final(candidates)),
        shrinks(old(candidates)@, final(candidates)@),
        r == Ok::<bool, StrategyError>(false) ==> final(state).cells() == old(state).cells()
            && final(candidates)@ == old(candidates)@,
        r == Ok::<bool, StrategyError>(true) ==> count_candidates(final(candidates)@, 81)
            < count_candidates(old(candidates)@, 81),
        forall|sol: Seq<Option<u8>>|
            #[trigger] admits(*old(state), old(candidates)@, sol) ==> r is Ok && admits(
                *final(state),
                final(candidates)@,
                sol,
            ),
        candidates_sound(old(state).regions(), old(state).cells(), old(candidates)@) ==> candidates_sound(
            final(state).regions(),
            final(state).cells(),
            final(candidates)@,
        ),
        r is Ok ==> !finds(strategy, final(state).regions(), final(state).cells(), final(candidates)@),
        r == Ok::<bool, StrategyError>(false) <==> !finds(
            strategy,
            old(state).regions(),
            old(state).cells(),
            old(candidates)@,
        ),
{
    let mut applied_some = false;
    loop
        invariant
            state.wf(),
            candidates.wf(),
            state.game == old(state).game,
            extends(old(state).cells(), state.cells()),
            entries_on_empty(*state, *candidates),
            shrinks(old(candidates)@, candidates@),
            !applied_some ==> state.cells() == old(state).cells() && candidates@ == old(candidates)@,
            applied_some ==> count_candidates(candidates@, 81) < count_candidates(old(candidates)@, 81),
            forall|sol: Seq<Option<u8>>|
                #[trigger] admits(*old(state), old(candidates)@, sol) ==> admits(*state, candidates@, sol),
            candidates_sound(old(state).regions(), old(state).cells(), old(candidates)@) ==> candidates_sound(
                state.regions(),
                state.cells(),
                candidates@,
            ),
            applied_some ==> finds(strategy, old(state).regions(), old(state).cells(), old(candidates)@),
        decreases count_candidates(candidates@, 81),
    {
        let ghost cells_before = state.cells();
        let ghost cands_before = candidates@;
        let ghost state_before = *state;
        match apply_simple_strategy_once(strategy, state, candidates) {
            Ok(true) => {
                proof {
                    if !applied_some {
                        assert(finds(strategy, state_before.regions(), cells_before, cands_before));
                    }
                }
                applied_some = true;
                proof {
                    assert forall|i: int| 0 <= i < 81 implies (#[trigger] candidates@[i]).subset_of(
                        old(candidates)@[i],
                    ) by {
                        assert(candidates@[i].subset_of(cands_before[i]));
                    }
                    assert forall|i: int| 0 <= i < 81 && #[trigger] old(state).cells()[i] is Some
                        implies state.cells()[i] == old(state).cells()[i] by {
                        assert(cells_before[i] == old(state).cells()[i]);
                    }
                    assert forall|sol: Seq<Option<u8>>| #[trigger] admits(*old(state), old(candidates)@, sol)
                        implies admits(*state, candidates@, sol) by {
                        assert(admits(state_before, cands_before, sol));
                    }
                }
            },
            Ok(false) => {
                proof {
                    assert forall|sol: Seq<Option<u8>>| #[trigger] admits(*old(state), old(candidates)@, sol)
                        implies admits(*state, candidates@, sol) by {
                        assert(admits(state_before, cands_before, sol));
                    }
                }
                return Ok(applied_some);
            },
            Err(e) => {
                proof {
                    assert(finds(strategy, state_before.regions(), cells_before, cands_before));
                    assert forall|sol: Seq<Option<u8>>| !admits(*old(state), old(candidates)@, sol) by {
                        if admits(*old(state), old(candidates)@, sol) {
                            assert(admits(state_before, cands_before, sol));
                        }
                    }
                }
                return Err(e);
            },
        }
    }
}

/// Runs the deduction steps in turn until none of them changes anything.
/// Fails when one of them proves the branch impossible.
fn propagate(state: &mut GameState, candidates: &mut SetOfMoveCandidates) -> (r: bool)
    requires
        old(state).wf(),
        old(candidates).wf(),
        entries_on_empty(*old(state), *old(candidates)),
    ensures
        final(state).wf(),
        final(candidates).wf(),
        final(state).game == old(state).game,
        extends(old(state).cells(), final(state).cells()),
        entries_on_empty(*final(state), *final(candidates)),
        shrinks(old(candidates)@, final(candidates)@),
        forall|sol: Seq<Option<u8>>|
            #[trigger] admits(*old(state), old(candidates)@, sol) ==> r && admits(
                *final(state),
                final(candidates)@,
                sol,
            ),
        candidates_sound(old(state).regions(), old(state).cells(), old(candidates)@) ==> candidates_sound(
            final(state).regions(),
            final(state).cells(),
            final(candidates)@,
        ),
        r ==> {
            &&& !finds(Strategy::LoneSingles, final(state).regions(), final(state).cells(), final(candidates)@)
            &&& !finds(Strategy::HiddenSingles, final(state).regions(), final(state).cells(), final(candidates)@)
            &&& !finds(Strategy::NakedTwins, final(state).regions(), final(state).cells(), final(candidates)@)
        },
{
    let strategies = [Strategy::LoneSingles, Strategy::HiddenSingles, Strategy::NakedTwins];
    let mut applied_some = true;
    while applied_some
        invariant
            state.wf(),
            candidates.wf(),
            state.game == old(state).game,
            extends(old(state).cells(), state.cells()),
            entries_on_empty(*state, *candidates),
            shrinks(old(candidates)@, candidates@),
            forall|sol: Seq<Option<u8>>|
                #[trigger] admits(*old(state), old(candidates)@, sol) ==> admits(*state, candidates@, sol),
            candidates_sound(old(state).regions(), old(state).cells(), old(candidates)@) ==> candidates_sound(
                state.regions(),
                state.cells(),
                candidates@,
            ),
            strategies@ == seq![Strategy::LoneSingles, Strategy::HiddenSingles, Strategy::NakedTwins],
            !applied_some ==> forall|t: int|
                0 <= t < 3 ==> !finds(#[trigger] strategies@[t], state.regions(), state.cells(), candidates@),
        decreases count_candidates(candidates@, 81) + if applied_some { 1int } else { 0int },
    {
        applied_some = false;
        let ghost start = count_candidates(candidates@, 81);
        let mut s: usize = 0;
        while s < 3
            invariant
                state.wf(),
                candidates.wf(),
                state.game == old(state).game,
                extends(old(state).cells(), state.cells()),
                entries_on_empty(*state, *candidates),
                shrinks(old(candidates)@, candidates@),
                s <= 3,
                count_candidates(candidates@, 81) <= start,
                applied_some ==> count_candidates(candidates@, 81) < start,
                forall|sol: Seq<Option<u8>>|
                    #[trigger] admits(*old(state), old(candidates)@, sol) ==> admits(*state, candidates@, sol),
                candidates_sound(old(state).regions(), old(state).cells(), old(candidates)@) ==> candidates_sound(
                    state.regions(),
                    state.cells(),
                    candidates@,
                ),
                strategies@ == seq![Strategy::LoneSingles, Strategy::HiddenSingles, Strategy::NakedTwins],
                !applied_some ==> forall|t: int|
                    0 <= t < s ==> !finds(#[trigger] strategies@[t], state.regions(), state.cells(), candidates@),
            decreases 3 - s,
        {
            let ghost cells_before = state.cells();
            let ghost cands_before = candidates@;
            let ghost state_before = *state;
            proof {
                candidates.lemma_finite();
            }
            match apply_simple_strategy_repeatedly(strategies[s], state, candidates) {
                Ok(applied) => {
                    if applied {
                        applied_some = true;
                    }
                },
                Err(_) => {
                    proof {
                        assert forall|sol: Seq<Option<u8>>| !admits(*old(state), old(candidates)@, sol) by {
                            if admits(*old(state), old(candidates)@, sol) {
                                assert(admits(state_before, cands_before, sol));
                            }
                        }
                    }
                    return false;
                },
            }
            proof {
                lemma_count_shrinks(cands_before, candidates@, 81);
                assert forall|i: int| 0 <= i < 81 implies (#[trigger] candidates@[i]).subset_of(
                    old(candidates)@[i],
                ) by {
                    assert(candidates@[i].subset_of(cands_before[i]));
                }
                assert forall|i: int| 0 <= i < 81 && #[trigger] old(state).cells()[i] is Some
                    implies state.cells()[i] == old(state).cells()[i] by {
                    assert(cells_before[i] == old(state).cells()[i]);
                }
                assert forall|sol: Seq<Option<u8>>| #[trigger] admits(*old(state), old(candidates)@, sol)
                    implies admits(*state, candidates@, sol) by {
                    assert(admits(state_before, cands_before, sol));
                }
                if !applied_some {
                    assert(state.cells() == cells_before && candidates@ == cands_before);
                    assert(state.regions() == state_before.regions());
                    assert forall|t: int| 0 <= t < s + 1 implies !finds(
                        #[trigger] strategies@[t],
                        state.regions(),
                        state.cells(),
                        candidates@,
                    ) by {
                        if t < s {
                            assert(!finds(strategies@[t], state_before.regions(), cells_before, cands_before));
                        }
                    }
                }
            }
            s = s + 1;
        }
    }
    proof {
        assert(!finds(strategies@[0], state.regions(), state.cells(), candidates@));
        assert(!finds(strategies@[1], state.regions(), state.cells(), candidates@));
        assert(!finds(strategies@[2], state.regions(), state.cells(), candidates@));
    }
    true
}

/// A cell with the fewest candidates (the lowest such index) and its
/// smallest digit; `None` when no cell has candidates.
fn pick_branch(candidates: &SetOfMoveCandidates) -> (r: Option<Placement>)
    requires
        candidates.wf(),
    ensures
        r is None <==> candidates.is_empty_spec(),
        r matches Some(p) ==> p.index < 81 && candidates@[p.index as int].contains(p.value)
            && is_digit(p.value) && forall|i: int| #[trigger] candidates.has(i) ==> candidates@[p.index as int].len()
            <= candidates@[i].len(),
{
    let mut best: usize = CELLS;
    let mut best_len: usize = 10;
    let mut i: usize = 0;
    while i < CELLS
        invariant
            candidates.wf(),
            i <= 81,
            best == 81 || (best < i && candidates.has(best as int) && best_len == candidates@[best as int].len()),
            best == 81 ==> forall|j: int| 0 <= j < i ==> !candidates.has(j),
            best < 81 ==> forall|j: int| 0 <= j < i && #[trigger] candidates.has(j) ==> best_len <= candidates@[j].len(),
        decreases 81 - i,
    {
        let set = candidates.values_at(i);
        proof {
            assert(candidates@[i as int] == set@);
        }
        if !set.is_empty() {
            let n = set.len();
            if best == CELLS || n < best_len {
                best = i;
                best_len = n;
            }
        }
        i = i + 1;
    }
    if best == CELLS {
        proof {
            assert forall|j: int| 0 <= j < 81 implies candidates@[j] == Set::<u8>::empty() by {
                assert(!candidates.has(j));
            }
        }
        return None;
    }
    let set = candidates.values_at(best);
    proof {
        assert(candidates@[best as int] == set@);
        set.lemma_finite();
    }
    let mut v: u8 = 1;
    while v < 9 && !set.contains(v)
        invariant
            1 <= v <= 9,
            set.wf(),
            forall|u: u8| 1 <= u < v ==> !(#[trigger] set@.contains(u)),
        decreases 9 - v,
    {
        v = v + 1;
    }
    proof {
        set.lemma_finite();
        if !set@.contains(v) {
            assert(set@ =~= Set::<u8>::empty()) by {
                assert forall|u: u8| !(#[trigger] set@.contains(u)) by {
                    if set@.contains(u) {
                        assert(is_digit(u));
                    }
                }
            }
        }
    }
    Some(Placement::new(v, best))
}

/// Whether as many cells have candidates as are empty.
fn is_solvable(state: &GameState, candidates: &SetOfMoveCandidates) -> (r: bool)
    requires
        state.wf(),
        candidates.wf(),
    ensures
        r == (state.empty_cells@.len() == candidates.len_spec()),
{
    state.empty_cells.len() == candidates.len()
}

/// The puzzle's digits as a set.
fn collect_valid_symbols(game: &GameState) -> (r: ValueBitSet)
    requires
        game.wf(),
    ensures
        r.wf(),
        forall|v: u8| #[trigger] r@.contains(v) <==> is_digit(v),
{
    let symbols = game.valid_symbols();
    let mut set = ValueBitSet::default();
    let mut k: usize = 0;
    while k < 9
        invariant
            k <= 9,
            symbols@ == crate::game::digits_seq(),
            set.wf(),
            forall|v: u8| #[trigger] set@.contains(v) <==> 1 <= v <= k,
        decreases 9 - k,
    {
        set.insert(symbols[k]);
        k = k + 1;
    }
    set
}

/// Searches for a complete grid: propagates the deduction steps on each
/// branch, and where they stall, branches on a cell with the fewest
/// candidates. The grid returned is complete, holds no digit twice in a
/// row, column or region, and keeps every digit of the puzzle.
pub fn solve(game: &GameState) -> (r: Result<GameState, SudokuError>)
    requires
        game.wf(),
    ensures
        match r {
            Ok(solution) => {
                &&& solution.wf()
                &&& solution.game == game.game
                &&& grid_ok(solution.cells(), solution.regions(), false)
                &&& extends(game.cells(), solution.cells())
            },
            Err(e) => {
                &&& e == SudokuError::NoSolution
                &&& !exists|sol: Seq<Option<u8>>| #[trigger] is_solution(game.regions(), game.cells(), sol)
            },
        },
{
    let valid_symbols = collect_valid_symbols(game);
    let initial_candidates = find_move_candidates(game, &valid_symbols);
    let mut stack: Vec<(GameState, SetOfMoveCandidates)> = Vec::new();
    stack.push((game.clone(), initial_candidates));
    let ghost solvable = exists|sol: Seq<Option<u8>>| #[trigger] is_solution(game.regions(), game.cells(), sol);
    let ghost sol = choose|sol: Seq<Option<u8>>| #[trigger] is_solution(game.regions(), game.cells(), sol);
    proof {
        if solvable {
            lemma_fresh_admits(*game, initial_candidates, sol);
            assert(admits(stack@[0].0, stack@[0].1@, sol));
        }
        lemma_fresh_entries(*game, initial_candidates);
        assert(stack@.drop_last() =~= Seq::<(GameState, SetOfMoveCandidates)>::empty());
    }
    while stack.len() > 0
        invariant
            game.wf(),
            valid_symbols.wf(),
            forall|v: u8| #[trigger] valid_symbols@.contains(v) <==> is_digit(v),
            forall|k: int| 0 <= k < stack@.len() ==> frame_ok(*game, (#[trigger] stack@[k]).0, stack@[k].1),
            solvable ==> is_solution(game.regions(), game.cells(), sol),
            solvable ==> exists|k: int| 0 <= k < stack@.len() && admits((#[trigger] stack@[k]).0, stack@[k].1@, sol),
        decreases stack_measure(stack@),
    {
        let ghost before = stack@;
        let frame = stack.pop();
        let (mut state, mut candidates) = match frame {
            Some(f) => f,
            None => {
                return Err(SudokuError::NoSolution);
            },
        };
        let ghost w0 = weight(state, candidates);
        proof {
            assert(stack@ == before.drop_last());
            assert(frame_ok(*game, state, candidates)) by {
                assert(before[before.len() - 1] == (state, candidates));
            }
            assert forall|k: int| 0 <= k < stack@.len() implies frame_ok(*game, (#[trigger] stack@[k]).0, stack@[k].1) by {
                assert(stack@[k] == before[k]);
            }
            lemma_pow3_positive(w0);
            if solvable {
                if !admits(state, candidates@, sol) {
                    let k = choose|k: int| 0 <= k < before.len() && admits((#[trigger] before[k]).0, before[k].1@, sol);
                    assert(k != before.len() - 1);
                    assert(stack@[k] == before[k]);
                }
            }
        }
        let ghost hit = solvable && admits(state, candidates@, sol);
        proof {
            if hit {
                lemma_open_branch_solvable(state, candidates, sol);
                if candidates.is_empty_spec() {
                    assert(state.cells() == sol);
                }
            }
        }
        if candidates.is_empty() {
            if state.validate(false) {
                return Ok(state);
            }
            continue;
        }
        if !is_solvable(&state, &candidates) {
            continue;
        }
        if state.validate(false) {
            return Ok(state);
        }
        let ghost state0 = state;
        let ghost cands0 = candidates@;
        proof {
            candidates.lemma_finite();
        }
        if !propagate(&mut state, &mut candidates) {
            continue;
        }
        proof {
            if hit {
                assert(admits(state, candidates@, sol));
                lemma_open_branch_solvable(state, candidates, sol);
            }
        }
        if !is_solvable(&state, &candidates) {
            continue;
        }
        let choice = pick_branch(&candidates);
        let branch_on = match choice {
            Some(p) => p,
            None => {
                if state.validate(false) {
                    return Ok(state);
                }
                continue;
            },
        };
        let ghost cands1 = candidates@;
        proof {
            candidates.lemma_finite();
            lemma_count_shrinks(cands0, cands1, 81);
            state0.empty_cells.lemma_finite();
            assert(state.empty_cells@.subset_of(state0.empty_cells@)) by {
                assert forall|i: usize| #[trigger] state.empty_cells@.contains(i) implies state0.empty_cells@.contains(i) by {
                    if state0.cells()[i as int] is Some {
                        assert(state.cells()[i as int] == state0.cells()[i as int]);
                    }
                }
            }
            vstd::set_lib::lemma_len_subset(state.empty_cells@, state0.empty_cells@);
        }
        candidates.remove_candidate(&branch_on);
        proof {
            lemma_remove_one_candidate(cands1, candidates@, branch_on);
            lemma_count_shrinks(cands1, candidates@, 81);
            lemma_sound_shrinks(game.regions(), state.cells(), cands1, candidates@);
            assert(entries_on_empty(state, candidates)) by {
                assert forall|i: int| 0 <= i < 81 && #[trigger] candidates@[i] != Set::<u8>::empty()
                    implies state.cells()[i] is None by {
                    if cands1[i] == Set::<u8>::empty() {
                        assert(candidates@[i] =~= Set::<u8>::empty());
                    }
                }
            }
        }
        proof {
            if hit {
                assert(state.cells()[branch_on.index as int] is None);
                lemma_solution_complete(game.regions(), sol, branch_on.index as int);
                assert(cands1[branch_on.index as int].contains(sol[branch_on.index as int]->0));
                if sol[branch_on.index as int] != Some(branch_on.value) {
                    assert(candidates@[branch_on.index as int].contains(sol[branch_on.index as int]->0));
                    assert(!candidates.is_empty_spec());
                    assert(admits(state, candidates@, sol)) by {
                        assert forall|i: int| 0 <= i < 81 && #[trigger] state.cells()[i] is None implies candidates@[i].contains(sol[i]->0) by {
                            assert(cands1[i].contains(sol[i]->0));
                        }
                    }
                }
            }
        }
        let ghost mid = stack@;
        if !candidates.is_empty() {
            stack.push((state.clone(), candidates));
        }
        let branch = state.apply_and_fork(branch_on.index, branch_on.value);
        let branch_candidates = find_move_candidates(&branch, &valid_symbols);
        let ghost mid2 = stack@;
        stack.push((branch, branch_candidates));
        proof {
            assert(state.cells()[branch_on.index as int] is None);
            assert(state.empty_cells@.contains(branch_on.index));
            assert(branch.empty_cells@ =~= state.empty_cells@.remove(branch_on.index));
            branch_candidates.lemma_finite();
            let wc = weight(branch, branch_candidates);
            let wp = weight(state, candidates);
            assert(wc < w0);
            assert(wp < w0);
            lemma_pow3_grows(wc, w0);
            lemma_pow3_grows(wp, w0);
            assert(stack@.drop_last() == mid2);
            assert(stack_measure(stack@) == stack_measure(mid2) + pow3(wc));
            if mid2.len() > mid.len() {
                assert(mid2.drop_last() == mid);
                assert(stack_measure(mid2) == stack_measure(mid) + pow3(wp));
            } else {
                assert(mid2 == mid);
            }
            assert(stack_measure(before) == stack_measure(mid) + pow3(w0));
            lemma_fresh_entries(branch, branch_candidates);
            assert(frame_ok(*game, branch, branch_candidates)) by {
                assert forall|i: int| 0 <= i < 81 && #[trigger] game.cells()[i] is Some implies branch.cells()[i] == game.cells()[i] by {
                    assert(state.cells()[i] == game.cells()[i]);
                }
            }
            if solvable {
                if hit {
                    if sol[branch_on.index as int] == Some(branch_on.value) {
                        assert(is_solution(branch.regions(), branch.cells(), sol));
                        lemma_fresh_admits(branch, branch_candidates, sol);
                        assert(admits(stack@[stack@.len() - 1].0, stack@[stack@.len() - 1].1@, sol));
                    } else {
                        assert(mid2.len() == mid.len() + 1);
                        assert(stack@[mid.len() as int] == mid2[mid.len() as int]);
                        assert(admits(stack@[mid.len() as int].0, stack@[mid.len() as int].1@, sol));
                    }
                } else {
                    let k = choose|k: int| 0 <= k < mid.len() && admits((#[trigger] mid[k]).0, mid[k].1@, sol);
                    assert(stack@[k] == mid[k]);
                }
            }
            assert forall|k: int| 0 <= k < stack@.len() implies frame_ok(*game, (#[trigger] stack@[k]).0, stack@[k].1) by {
                if k < mid.len() {
                    assert(stack@[k] == mid[k]);
                } else if k < mid2.len() {
                    assert(stack@[k] == mid2[k]);
                }
            }
        }
    }
    Err(SudokuError::NoSolution)
}

/// `sol` is a complete grid that keeps every digit of `cells` and holds no
/// digit twice in a row, a column or a region.
pub open spec fn is_solution(
    groups: Seq<IndexBitSet>,
    cells: Seq<Option<u8>>,
    sol: Seq<Option<u8>>,
) -> bool {
    &&& valid_cells(sol)
    &&& grid_ok(sol, groups, false)
    &&& extends(cells, sol)
}

/// The branch keeps `sol` open: `sol` completes its grid, and every empty
/// cell has `sol`'s digit among its candidates.
pub open spec fn admits(state: GameState, candidates: Seq<Set<u8>>, sol: Seq<Option<u8>>) -> bool {
    &&& is_solution(state.regions(), state.cells(), sol)
    &&& forall|i: int|
        0 <= i < 81 && #[trigger] state.cells()[i] is None ==> candidates[i].contains(sol[i]->0)
}

/// In a complete grid with no digit twice in a unit, distinct peers hold
/// distinct digits.
pub proof fn lemma_peers_differ(groups: Seq<IndexBitSet>, sol: Seq<Option<u8>>, i: usize, j: usize)
    requires
        valid_cells(sol),
        grid_ok(sol, groups, false),
        is_peer(groups, i, j),
        i != j,
    ensures
        sol[i as int] is Some,
        sol[j as int] is Some,
        sol[i as int] != sol[j as int],
{
    lemma_split(i as int);
    lemma_split(j as int);
    if row_of(i as int) == row_of(j as int) {
        let u = row_set(row_of(i as int));
        assert(unit_ok(sol, u, false));
        assert(u.contains(i) && u.contains(j));
    } else if col_of(i as int) == col_of(j as int) {
        let u = column_set(col_of(i as int));
        assert(unit_ok(sol, u, false));
        assert(u.contains(i) && u.contains(j));
    } else {
        let g = choose|g: int| 0 <= g < groups.len() && #[trigger] groups[g]@.contains(i) && groups[g]@.contains(j);
        assert(unit_ok(sol, groups[g]@, false));
    }
}

/// Three cells of one unit hold three distinct digits in a solution.
proof fn lemma_unit_differ(groups: Seq<IndexBitSet>, sol: Seq<Option<u8>>, a: usize, b: usize, e: usize)
    requires
        valid_cells(sol),
        grid_ok(sol, groups, false),
        share_unit(groups, a, b, e),
        a < 81,
        b < 81,
        e < 81,
        a != e,
        b != e,
    ensures
        sol[e as int] is Some,
        sol[e as int] != sol[a as int],
        sol[e as int] != sol[b as int],
{
    if exists|g: int|
        0 <= g < groups.len() && #[trigger] groups[g]@.contains(a) && groups[g]@.contains(b)
            && groups[g]@.contains(e) {
        let g = choose|g: int|
            0 <= g < groups.len() && #[trigger] groups[g]@.contains(a) && groups[g]@.contains(b)
                && groups[g]@.contains(e);
        assert(groups[g]@.contains(e) && groups[g]@.contains(a));
        assert(groups[g]@.contains(e) && groups[g]@.contains(b));
    }
    lemma_peers_differ(groups, sol, e, a);
    lemma_peers_differ(groups, sol, e, b);
}

/// A set of two digits that holds two distinct digits holds nothing else.
proof fn lemma_pair_members(s: Set<u8>, x: u8, y: u8, v: u8)
    requires
        s.finite(),
        s.len() == 2,
        s.contains(x),
        s.contains(y),
        x != y,
        s.contains(v),
    ensures
        v == x || v == y,
{
    if v != x && v != y {
        let t = Set::<u8>::empty().insert(x).insert(y).insert(v);
        assert(t.subset_of(s));
        vstd::set_lib::lemma_len_subset(t, s);
        assert(Set::<u8>::empty().insert(x).len() == 1);
        assert(Set::<u8>::empty().insert(x).insert(y).len() == 2);
        assert(t.len() == 3);
    }
}

/// What the twins rule out never stands in a solution that the branch
/// keeps open: eliminating it keeps every such solution.
pub proof fn lemma_twin_elimination_keeps_solutions(
    state: GameState,
    candidates: SetOfMoveCandidates,
    sol: Seq<Option<u8>>,
    e: usize,
    v: u8,
)
    requires
        state.wf(),
        candidates.wf(),
        admits(state, candidates@, sol),
        twin_elimination(state.regions(), state.cells(), candidates@, e, v),
    ensures
        sol[e as int] != Some(v),
{
    let groups = state.regions();
    let cells = state.cells();
    let (c, p) = choose|c: usize, p: usize|
        #[trigger] twins(groups, cells, candidates@, c, p) && e < 81 && e != c && e != p
            && share_unit(groups, c, p, e) && candidates@[c as int].contains(v)
            && candidates@[e as int].contains(v);
    candidates.lemma_finite();
    assert(cells[c as int] is None);
    assert(cells[p as int] is None);
    let x = sol[c as int]->0;
    let y = sol[p as int]->0;
    assert(candidates@[c as int].contains(x));
    assert(candidates@[p as int].contains(y));
    lemma_peers_differ(groups, sol, c, p);
    lemma_pair_members(candidates@[c as int], x, y, v);
    lemma_unit_differ(groups, sol, c, p, e);
}

/// Three cells of one unit cannot share a pair of candidates in a branch
/// that keeps a solution open.
proof fn lemma_twins_conflict_excludes_solution(
    state: GameState,
    candidates: SetOfMoveCandidates,
    sol: Seq<Option<u8>>,
)
    requires
        state.wf(),
        candidates.wf(),
        admits(state, candidates@, sol),
    ensures
        !twins_conflict(state.regions(), state.cells(), candidates@),
{
    let groups = state.regions();
    let cells = state.cells();
    if twins_conflict(groups, cells, candidates@) {
        let (c, p, q) = choose|c: usize, p: usize, q: usize|
            #![trigger twins(groups, cells, candidates@, c, p), twins(groups, cells, candidates@, c, q)]
            twins(groups, cells, candidates@, c, p) && twins(groups, cells, candidates@, c, q) && p != q
                && share_unit(groups, c, p, q);
        candidates.lemma_finite();
        let x = sol[c as int]->0;
        let y = sol[p as int]->0;
        let z = sol[q as int]->0;
        assert(cells[c as int] is None && cells[p as int] is None && cells[q as int] is None);
        assert(candidates@[c as int].contains(x));
        assert(candidates@[c as int].contains(y));
        assert(candidates@[c as int].contains(z));
        lemma_peers_differ(groups, sol, c, p);
        lemma_unit_differ(groups, sol, c, p, q);
        lemma_pair_members(candidates@[c as int], x, y, z);
    }
}

/// A grid whose digits all stand in a solution holds no digit twice in a unit.
proof fn lemma_partial_grid_ok(groups: Seq<IndexBitSet>, cells: Seq<Option<u8>>, sol: Seq<Option<u8>>)
    requires
        is_solution(groups, cells, sol),
        cells.len() == 81,
        forall|g: int| 0 <= g < groups.len() ==> (#[trigger] groups[g]).wf(),
    ensures
        grid_ok(cells, groups, true),
{
    assert forall|y: int| 0 <= y < 9 implies #[trigger] unit_ok(cells, row_set(y), true) by {
        assert(unit_ok(sol, row_set(y), false));
        assert forall|a: usize, b: usize|
            row_set(y).contains(a) && row_set(y).contains(b) && a != b && cells[a as int] is Some
                implies cells[a as int] != cells[b as int] by {
            assert(row_set(y).contains(a) && row_set(y).contains(b));
        }
    }
    assert forall|x: int| 0 <= x < 9 implies #[trigger] unit_ok(cells, column_set(x), true) by {
        assert(unit_ok(sol, column_set(x), false));
        assert forall|a: usize, b: usize|
            column_set(x).contains(a) && column_set(x).contains(b) && a != b && cells[a as int] is Some
                implies cells[a as int] != cells[b as int] by {
            assert(column_set(x).contains(a) && column_set(x).contains(b));
        }
    }
    assert forall|g: int| 0 <= g < groups.len() implies #[trigger] unit_ok(cells, groups[g]@, true) by {
        assert(unit_ok(sol, groups[g]@, false));
        assert forall|a: usize, b: usize|
            groups[g]@.contains(a) && groups[g]@.contains(b) && a != b && cells[a as int] is Some
                implies cells[a as int] != cells[b as int] by {
            groups[g].lemma_finite();
            assert(groups[g]@.contains(a) && groups[g]@.contains(b));
        }
    }
}

/// The candidates of a fresh store keep open every solution of the grid.
proof fn lemma_fresh_admits(state: GameState, candidates: SetOfMoveCandidates, sol: Seq<Option<u8>>)
    requires
        state.wf(),
        is_solution(state.regions(), state.cells(), sol),
        forall|i: int, v: u8|
            0 <= i < 81 ==> (#[trigger] candidates@[i].contains(v) <==> state.cells()[i] is None
                && is_digit(v) && !peer_digit(state.regions(), state.cells(), i as usize, v)),
    ensures
        admits(state, candidates@, sol),
{
    assert forall|i: int| 0 <= i < 81 && #[trigger] state.cells()[i] is None implies candidates@[i].contains(sol[i]->0) by {
        assert(valid_cell(sol[i]));
        let v = sol[i]->0;
        if peer_digit(state.regions(), state.cells(), i as usize, v) {
            let j = choose|j: usize| #[trigger] is_peer(state.regions(), i as usize, j) && state.cells()[j as int] == Some(v);
            assert(sol[j as int] == Some(v));
            lemma_peers_differ(state.regions(), sol, i as usize, j);
        }
        if sol[i] is None {
            assert(row_set(row_of(i)).contains(i as usize)) by {
                lemma_split(i);
            }
            assert(unit_ok(sol, row_set(row_of(i)), false)) by {
                lemma_split(i);
            }
        }
    }
}

/// A solution fills every cell.
proof fn lemma_solution_complete(groups: Seq<IndexBitSet>, sol: Seq<Option<u8>>, i: int)
    requires
        grid_ok(sol, groups, false),
        0 <= i < 81,
    ensures
        sol[i] is Some,
{
    lemma_split(i);
    assert(unit_ok(sol, row_set(row_of(i)), false));
    assert(row_set(row_of(i)).contains(i as usize));
}

/// Writing digits of a solution and clearing them from their peers keeps
/// that solution open.
proof fn lemma_applied_keeps(
    before: GameState,
    after: GameState,
    cands0: Seq<Set<u8>>,
    cands1: Seq<Set<u8>>,
    ps: Seq<Placement>,
    sol: Seq<Option<u8>>,
)
    requires
        before.wf(),
        after.wf(),
        after.game == before.game,
        admits(before, cands0, sol),
        placed(before.cells(), after.cells(), ps),
        forall|k: int|
            0 <= k < ps.len() ==> (#[trigger] ps[k]).index < 81 && sol[ps[k].index as int] == Some(
                ps[k].value,
            ),
        forall|i: int, v: u8|
            0 <= i < 81 && #[trigger] cands0[i].contains(v) && !cands1[i].contains(v) ==> removed_by(
                before.regions(),
                ps,
                ps.len() as int,
                i,
                v,
            ),
    ensures
        admits(after, cands1, sol),
{
    let groups = before.regions();
    assert forall|i: int| 0 <= i < 81 && #[trigger] after.cells()[i] is Some implies sol[i] == after.cells()[i] by {
        if exists|k: int| 0 <= k < ps.len() && #[trigger] ps[k].index == i {
            let k = choose|k: int| 0 <= k < ps.len() && #[trigger] ps[k].index == i;
            assert(after.cells()[ps[k].index as int] == Some(ps[k].value));
        } else {
            assert(before.cells()[i] is Some);
        }
    }
    assert forall|i: int| 0 <= i < 81 && #[trigger] after.cells()[i] is None implies cands1[i].contains(sol[i]->0) by {
        let v = sol[i]->0;
        if exists|k: int| 0 <= k < ps.len() && #[trigger] ps[k].index == i {
            let k = choose|k: int| 0 <= k < ps.len() && #[trigger] ps[k].index == i;
            assert(after.cells()[ps[k].index as int] == Some(ps[k].value));
        }
        assert(before.cells()[i] is None);
        assert(cands0[i].contains(v));
        if !cands1[i].contains(v) {
            let j = choose|j: int|
                0 <= j < ps.len() && (#[trigger] ps[j].index == i || (ps[j].value == v && is_peer(
                    groups,
                    ps[j].index,
                    i as usize,
                )));
            assert(ps[j].index != i);
            lemma_solution_complete(groups, sol, i);
            lemma_peers_differ(groups, sol, ps[j].index, i as usize);
        }
    }
}

/// The empty cells among the first `n`.
pub open spec fn empties_below(cells: Seq<Option<u8>>, n: nat) -> Set<usize> {
    Set::new(|i: usize| i < n && cells[i as int] is None)
}

proof fn lemma_count_empties(cells: Seq<Option<u8>>, candidates: Seq<Set<u8>>, n: nat)
    requires
        n <= 81,
        forall|i: int| 0 <= i < n ==> (#[trigger] candidates[i] != Set::<u8>::empty() <==> cells[i] is None),
    ensures
        empties_below(cells, n).finite(),
        empties_below(cells, n).len() == crate::candidates::count_cells(candidates, n),
    decreases n,
{
    if n == 0 {
        assert(empties_below(cells, 0) =~= Set::<usize>::empty());
    } else {
        let m = (n - 1) as nat;
        lemma_count_empties(cells, candidates, m);
        if cells[m as int] is None {
            assert(empties_below(cells, n) =~= empties_below(cells, m).insert(m as usize));
            assert(!empties_below(cells, m).contains(m as usize));
        } else {
            assert(empties_below(cells, n) =~= empties_below(cells, m));
        }
    }
}

/// In a branch that keeps a solution open, exactly the empty cells have
/// candidates, so the branch passes the solvability test.
proof fn lemma_open_branch_solvable(state: GameState, candidates: SetOfMoveCandidates, sol: Seq<Option<u8>>)
    requires
        state.wf(),
        candidates.wf(),
        entries_on_empty(state, candidates),
        admits(state, candidates@, sol),
    ensures
        state.empty_cells@.len() == candidates.len_spec(),
        candidates.is_empty_spec() ==> state.cells() == sol,
{
    assert forall|i: int| 0 <= i < 81 implies (#[trigger] candidates@[i] != Set::<u8>::empty() <==> state.cells()[i] is None) by {
        if state.cells()[i] is None {
            assert(candidates@[i].contains(sol[i]->0));
        }
    }
    lemma_count_empties(state.cells(), candidates@, 81);
    assert(state.empty_cells@ =~= empties_below(state.cells(), 81));
    if candidates.is_empty_spec() {
        assert forall|i: int| 0 <= i < 81 implies state.cells()[i] == sol[i] by {
            assert(candidates@[i] == Set::<u8>::empty());
            assert(state.cells()[i] is Some);
        }
        assert(state.cells() =~= sol);
    }
}

/// The peer relation is symmetric.
proof fn lemma_peer_symmetric(groups: Seq<IndexBitSet>, i: usize, j: usize)
    requires
        is_peer(groups, i, j),
    ensures
        is_peer(groups, j, i),
{
    if crate::game_state::share_group(groups, i, j) {
        let g = choose|g: int| 0 <= g < groups.len() && #[trigger] groups[g]@.contains(i) && groups[g]@.contains(j);
        assert(groups[g]@.contains(j) && groups[g]@.contains(i));
    }
}

/// Dropping candidates keeps a sound store sound.
proof fn lemma_sound_shrinks(groups: Seq<IndexBitSet>, cells: Seq<Option<u8>>, before: Seq<Set<u8>>, after: Seq<Set<u8>>)
    requires
        candidates_sound(groups, cells, before),
        shrinks(before, after),
    ensures
        candidates_sound(groups, cells, after),
{
    assert forall|i: int, v: u8| 0 <= i < 81 && #[trigger] after[i].contains(v) implies !peer_digit(groups, cells, i as usize, v) by {
        assert(after[i].subset_of(before[i]));
        assert(before[i].contains(v));
    }
}

/// Writing digits and clearing each from the candidates of its peers keeps a
/// sound store sound.
proof fn lemma_sound_after_placing(
    groups: Seq<IndexBitSet>,
    before: Seq<Option<u8>>,
    after: Seq<Option<u8>>,
    cands0: Seq<Set<u8>>,
    cands1: Seq<Set<u8>>,
    ps: Seq<Placement>,
)
    requires
        candidates_sound(groups, before, cands0),
        shrinks(cands0, cands1),
        before.len() == 81,
        placed(before, after, ps),
        forall|k: int, i: int|
            0 <= k < ps.len() && 0 <= i < 81 && is_peer(groups, ps[k].index, i as usize)
                ==> !(#[trigger] cands1[i]).contains(#[trigger] ps[k].value),
    ensures
        candidates_sound(groups, after, cands1),
{
    assert forall|i: int, v: u8| 0 <= i < 81 && #[trigger] cands1[i].contains(v) implies !peer_digit(groups, after, i as usize, v) by {
        assert(cands1[i].subset_of(cands0[i]));
        assert(cands0[i].contains(v));
        assert(!peer_digit(groups, before, i as usize, v));
        if peer_digit(groups, after, i as usize, v) {
            let j = choose|j: usize| #[trigger] is_peer(groups, i as usize, j) && after[j as int] == Some(v);
            if exists|k: int| 0 <= k < ps.len() && #[trigger] ps[k].index == j as int {
                let k = choose|k: int| 0 <= k < ps.len() && #[trigger] ps[k].index == j as int;
                assert(after[ps[k].index as int] == Some(ps[k].value));
                lemma_peer_symmetric(groups, i as usize, j);
                assert(!cands1[i].contains(ps[k].value));
            } else {
                assert(after[j as int] == before[j as int]);
                assert(is_peer(groups, i as usize, j) && before[j as int] == Some(v));
            }
        }
    }
}

/// Fresh candidates stand only at empty cells.
proof fn lemma_fresh_entries(state: GameState, candidates: SetOfMoveCandidates)
    requires
        forall|i: int, v: u8| 0 <= i < 81 && #[trigger] candidates@[i].contains(v) ==> state.cells()[i] is None,
    ensures
        entries_on_empty(state, candidates),
{
    assert forall|i: int| 0 <= i < 81 && #[trigger] candidates@[i] != Set::<u8>::empty() implies state.cells()[i] is None by {
        if state.cells()[i] is Some {
            assert(candidates@[i] =~= Set::<u8>::empty());
        }
    }
}

/// Taking out a digit the cell has leaves the other cells as they were.
proof fn lemma_remove_one_candidate(before: Seq<Set<u8>>, after: Seq<Set<u8>>, p: Placement)
    requires
        p.index < 81,
        before.len() == 81,
        before[p.index as int].contains(p.value),
        after == before.update(p.index as int, before[p.index as int].remove(p.value)),
    ensures
        forall|i: int| 0 <= i < 81 ==> (#[trigger] after[i]).subset_of(before[i]),
        exists|i: int, v: u8| 0 <= i < 81 && #[trigger] before[i].contains(v) && !after[i].contains(v),
{
    assert(before[p.index as int].contains(p.value) && !after[p.index as int].contains(p.value));
}

} // verus!
