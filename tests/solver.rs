use sudoku::candidates::{find_move_candidates, SetOfMoveCandidates};
use sudoku::game::SudokuError;
use sudoku::solver::solve;
use sudoku::steps::{hidden_singles, lone_singles, naked_twins, StrategyError, StrategyMove};
use sudoku::{Game, GameState, Placement, State, ValueBitSet};

const CLASSIC: &str = "530070000600195000098000060800060003400803001700020006060000280000419005000080079";
const CLASSIC_SOLVED: &str =
    "534678912672195348198342567859761423426853791713924856961537284287419635345286179";

fn digits(text: &str) -> [u8; 81] {
    let mut cells = [0u8; 81];
    for (i, c) in text.bytes().enumerate() {
        cells[i] = c - b'0';
    }
    cells
}

fn all_digits() -> ValueBitSet {
    ValueBitSet::from_slice(&[1, 2, 3, 4, 5, 6, 7, 8, 9])
}

fn grid(state: &GameState) -> [u8; 81] {
    let mut cells = [0u8; 81];
    for y in 0..9 {
        for x in 0..9 {
            cells[x + 9 * y] = state.cell(x, y).unwrap_or(0);
        }
    }
    cells
}

fn assert_regions_complete(state: &GameState) {
    for group in state.game.groups.iter() {
        let mut seen = ValueBitSet::default();
        let mut iter = group.iter();
        while let Some(i) = iter.next() {
            let i = i as usize;
            let v = state.cell(i % 9, i / 9).unwrap();
            assert!(!seen.contains(v));
            seen.insert(v);
        }
        assert_eq!(seen.len(), 9);
    }
}

#[test]
fn classic_easy_is_solved() {
    let game = GameState::new(Game::new(digits(CLASSIC)));
    let solution = solve(&game).ok().unwrap();
    assert_eq!(grid(&solution), digits(CLASSIC_SOLVED));
    assert!(solution.validate(false));
}

#[test]
fn classic_example_is_solved() {
    let game = GameState::new(Game::new_example());
    let solution = solve(&game).ok().unwrap();
    assert_eq!(grid(&solution), digits(CLASSIC_SOLVED));
}

#[test]
fn nonomino_is_solved() {
    let game = GameState::new(Game::new_example_nonomino());
    let solution = solve(&game).ok().unwrap();
    assert!(grid(&solution).iter().all(|&v| v != 0));
    assert!(solution.validate(false));
    assert_regions_complete(&solution);
}

#[test]
fn hypersudoku_is_solved() {
    let game = GameState::new(Game::new_example_hypersudoku());
    assert_eq!(game.game.groups.len(), 13);
    let solution = solve(&game).ok().unwrap();
    assert!(solution.validate(false));
    assert_regions_complete(&solution);
    let initial = grid(&game);
    let solved = grid(&solution);
    for i in 0..81 {
        if initial[i] != 0 {
            assert_eq!(initial[i], solved[i]);
        }
    }
}

#[test]
fn unsolvable_puzzle_has_no_solution() {
    // Cell 0 sees 1..=8 in its row and 9 in its column.
    let mut cells = [0u8; 81];
    for x in 1..9 {
        cells[x] = x as u8;
    }
    cells[9 * 4] = 9;
    let game = GameState::new(Game::new(cells));
    assert!(matches!(solve(&game), Err(SudokuError::NoSolution)));
}

#[test]
fn solved_puzzle_is_returned_as_is() {
    let game = GameState::new(Game::new(digits(CLASSIC_SOLVED)));
    let solution = solve(&game).ok().unwrap();
    assert_eq!(grid(&solution), digits(CLASSIC_SOLVED));
}

#[test]
fn lone_single_is_placed() {
    let mut cells = digits(CLASSIC_SOLVED);
    // Cell 6 holds 9; its row holds every other digit.
    assert_eq!(cells[6], 9);
    cells[6] = 0;
    let mut state = GameState::new(Game::new(cells));
    let candidates = find_move_candidates(&state, &all_digits());
    assert_eq!(candidates.len(), 1);
    assert_eq!(candidates.total_len(), 1);
    let only = candidates.values_at(6);
    assert!(only.contains(9));
    assert_eq!(only.len(), 1);
    match lone_singles(&mut state, &candidates) {
        Ok(StrategyMove::Applied(ps)) => assert_eq!(ps, vec![Placement::new(9, 6)]),
        _ => panic!("a lone single was expected"),
    }
    assert_eq!(state.cell(6, 0), Some(9));
    // Running it again on the updated store finds nothing.
    let again = find_move_candidates(&state, &all_digits());
    assert!(matches!(lone_singles(&mut state, &again), Ok(StrategyMove::NoChange)));
}

#[test]
fn hidden_single_is_placed() {
    let mut cells = digits(CLASSIC_SOLVED);
    // Row 0 loses its 7 (cell 4) and its 9 (cell 6); column 6 and box 2
    // hold a 7, so only cell 4 can take it.
    assert_eq!(cells[4], 7);
    assert_eq!(cells[6], 9);
    cells[4] = 0;
    cells[6] = 0;
    let mut state = GameState::new(Game::new(cells));
    let candidates = find_move_candidates(&state, &all_digits());
    match hidden_singles(&mut state, &candidates) {
        Ok(StrategyMove::Applied(ps)) => {
            assert!(ps.contains(&Placement::new(7, 4)));
            assert!(!ps.iter().any(|p| p.index == 6 && p.value == 7));
        },
        _ => panic!("a hidden single was expected"),
    }
    assert_eq!(state.cell(4, 0), Some(7));
}

#[test]
fn hidden_single_ignores_stale_candidates() {
    let mut cells = digits(CLASSIC_SOLVED);
    cells[4] = 0;
    let mut state = GameState::new(Game::new(cells));
    // A stale candidate 3 that a peer already holds does not count.
    let mut candidates = SetOfMoveCandidates::new();
    candidates.add(Placement::new(3, 4));
    candidates.add(Placement::new(7, 4));
    match hidden_singles(&mut state, &candidates) {
        Ok(StrategyMove::Applied(ps)) => assert_eq!(ps, vec![Placement::new(7, 4)]),
        _ => panic!("a hidden single was expected"),
    }
    assert_eq!(state.cell(4, 0), Some(7));
}

#[test]
fn three_cells_with_one_pair_are_a_contradiction() {
    let mut state = GameState::new(Game::new_empty());
    let mut candidates = SetOfMoveCandidates::new();
    for i in 0..3 {
        candidates.add(Placement::new(1, i));
        candidates.add(Placement::new(2, i));
    }
    assert!(matches!(
        naked_twins(&mut state, &candidates),
        Err(StrategyError::BoardInvalid)
    ));
}

#[test]
fn naked_twins_eliminate_from_shared_units() {
    let mut state = GameState::new(Game::new_empty());
    let mut candidates = SetOfMoveCandidates::new();
    for i in 0..2 {
        candidates.add(Placement::new(1, i));
        candidates.add(Placement::new(2, i));
    }
    // Cell 2 shares row 0 and box 0 with the twins; cell 40 shares nothing.
    for v in 1..4 {
        candidates.add(Placement::new(v, 2));
        candidates.add(Placement::new(v, 40));
    }
    match naked_twins(&mut state, &candidates) {
        Ok(StrategyMove::EliminateOnly(ps)) => {
            let mut ps = ps;
            ps.sort();
            assert_eq!(ps, vec![Placement::new(1, 2), Placement::new(2, 2)]);
        },
        _ => panic!("eliminations were expected"),
    }
}

#[test]
fn candidate_store_operations() {
    let mut store = SetOfMoveCandidates::new();
    assert!(store.is_empty());
    store.add(Placement::new(4, 10));
    store.add(Placement::new(5, 10));
    store.add(Placement::new(4, 11));
    assert_eq!(store.len(), 2);
    assert_eq!(store.total_len(), 3);
    assert!(store.contains_key(&10));
    assert!(store.remove_candidate(&Placement::new(4, 11)));
    assert!(!store.contains_key(&11));
    assert_eq!(store.len(), 1);
    let listed = store.iter();
    assert_eq!(listed.len(), 1);
    assert_eq!(listed[0].index, 10);
    assert_eq!(listed[0].len(), 2);
    assert!(!listed[0].is_trivial());
    assert!(!store.remove_index(10));
    assert!(store.is_empty());
}

#[test]
fn state_id_encodes_rows() {
    let mut values = [None; 81];
    for x in 0..9 {
        values[x] = Some(x as u8 + 1);
    }
    let state = State::new(values);
    assert_eq!(state.id.code(0), 987654321);
    assert_eq!(state.id.code(1), 0);
    let same = State::new(values);
    assert!(state == same);
    assert!(state.id == same.id);
    let forked = state.apply_and_fork(9, 4);
    assert_eq!(forked.id.code(1), 4);
    assert_eq!(state.id.code(1), 0);
    assert!(forked != state);
}
