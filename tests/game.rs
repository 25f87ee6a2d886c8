use sudoku::game::{build_default_group, SudokuError};
use sudoku::prelude::{index, ValueOption};
use sudoku::{Game, GameState, IndexBitSet};

fn create_matrix() -> [ValueOption; 81] {
    let mut array: [ValueOption; 81] = [None; 81];
    for y in 0u8..9 {
        let offset = y * 9;
        for x in 0u8..9 {
            let index = (x + offset) as usize;
            array[index] = Some(x.max(y) + 1);
        }
    }
    array[5 * 9 + 0] = None;
    array
}

#[test]
fn game_construction_works() {
    let board = Game::new(create_matrix());

    assert_eq!(board.cell(4, 2), Some(5));
    assert_eq!(board.cell(0, 5), None);
}

#[test]
fn game_elements_in_group() {
    for y in (0usize..9).step_by(3) {
        for x in (0usize..9).step_by(3) {
            let set = build_default_group(x, y);
            assert_eq!(set.contains(index(0 + x, 0 + y, 9)), true);
            assert_eq!(set.contains(index(0 + x, 2 + y, 9)), true);
            assert_eq!(set.contains(index(2 + x, 2 + y, 9)), true);
        }
    }
}

#[test]
fn game_elements_not_in_group() {
    for y in (0usize..9).step_by(3) {
        for x in (0usize..9).step_by(3) {
            let set = build_default_group(x, y);
            assert_eq!(set.contains(index(0 + x, 3 + y, 9)), false);
            assert_eq!(set.contains(index(3 + x, 0 + y, 9)), false);
        }
    }
}

#[test]
fn game_group_lookup_works() {
    let board = Game::new(create_matrix());
    let group = board.group_at(4, 4).clone();

    for y in 3..6 {
        assert!(group.contains(index(3, y, 9)));
        assert!(group.contains(index(4, y, 9)));
        assert!(group.contains(index(5, y, 9)));
    }
}

#[test]
fn game_raw_digits_use_zero_for_empty() {
    let mut raw = [0u8; 81];
    raw[10] = 7;
    let game = Game::new(raw);
    assert_eq!(game.cell(1, 1), Some(7));
    assert_eq!(game.cell(0, 0), None);
    assert_eq!(game.valid_symbols(), &[1, 2, 3, 4, 5, 6, 7, 8, 9]);
    assert_eq!(game.group_id(8, 8), 8);
    assert_eq!(game.group_id(4, 0), 1);
}

#[test]
fn game_new_with_groups_rejects_uncovered_board() {
    let mut groups = Vec::new();
    for y in (0usize..9).step_by(3) {
        for x in (0usize..9).step_by(3) {
            groups.push(build_default_group(x, y));
        }
    }
    groups.pop();
    let result = Game::new_with_groups([0u8; 81], groups);
    assert!(matches!(result, Err(SudokuError::InvalidPuzzle)));
}

#[test]
fn game_new_with_groups_rejects_region_of_wrong_size() {
    let mut groups = Vec::new();
    for y in (0usize..9).step_by(3) {
        for x in (0usize..9).step_by(3) {
            groups.push(build_default_group(x, y));
        }
    }
    groups.push(IndexBitSet::from_slice(&[0, 1]));
    let result = Game::new_with_groups([0u8; 81], groups);
    assert!(matches!(result, Err(SudokuError::InvalidPuzzle)));
}

#[test]
fn game_new_with_groups_rejects_non_digits() {
    let mut groups = Vec::new();
    for y in (0usize..9).step_by(3) {
        for x in (0usize..9).step_by(3) {
            groups.push(build_default_group(x, y));
        }
    }
    let mut raw = [0u8; 81];
    raw[3] = 10;
    let result = Game::new_with_groups(raw, groups);
    assert!(matches!(result, Err(SudokuError::InvalidPuzzle)));
}

#[test]
fn game_examples_build() {
    let nonomino = Game::new_example_nonomino();
    assert_eq!(nonomino.groups.len(), 9);
    assert_eq!(nonomino.cell(0, 0), Some(3));
    assert_eq!(nonomino.cell(8, 0), Some(4));
    assert_eq!(nonomino.cell(0, 8), Some(5));
    assert_eq!(nonomino.cell(8, 8), Some(7));
    assert_eq!(nonomino.cell(1, 0), None);
    assert!(nonomino.groups.iter().all(|g| g.len() == 9));
    let hyper = Game::new_example_hypersudoku();
    assert_eq!(hyper.groups.len(), 13);
    assert!(hyper.groups[9].contains(10) && hyper.groups[9].contains(30));
    assert_eq!(hyper.cell(7, 0), Some(1));
    assert_eq!(hyper.cell(2, 1), Some(2));
    assert_eq!(hyper.cell(0, 8), Some(6));
    assert_eq!(hyper.cell(0, 0), None);
    let classic = Game::new_example();
    assert_eq!(classic.cell(0, 0), Some(5));
    assert_eq!(classic.cell(2, 0), None);
    assert_eq!(classic.cell(8, 8), Some(9));
}

#[test]
fn game_state_peers_and_validation() {
    let state = GameState::new(Game::new_example());
    // Cell (0, 0) holds 5; its filled peers in row 0, column 0 and box 0.
    let peers = state.peers_by_index(0, true);
    let mut digits: Vec<u8> = peers.iter().map(|p| p.value).collect();
    digits.sort();
    digits.dedup();
    assert_eq!(digits, vec![3, 4, 6, 7, 8, 9]);
    assert!(peers.iter().all(|p| p.index != 0));
    let with_self = state.peers_by_index(0, false);
    assert_eq!(with_self.len(), peers.len() + 1);
    // Row 0, column 0 and box 0 hold 8 + 8 + 4 other cells.
    let all = state.peer_indexes_by_index(0, true, sudoku::game_state::CollectType::All);
    assert_eq!(all.len(), 20);
    assert!(state.validate(true));
    assert!(!state.validate(false));
    assert_eq!(state.index_to_xy(40), (4, 4));
    assert_eq!(state.xy_to_index(4, 4), 40);
}

#[test]
fn game_new_with_groups_rejects_duplicate_in_unit() {
    let mut groups = Vec::new();
    for y in (0usize..9).step_by(3) {
        for x in (0usize..9).step_by(3) {
            groups.push(build_default_group(x, y));
        }
    }
    let mut raw = [0u8; 81];
    raw[0] = 4;
    raw[8] = 4;
    let result = Game::new_with_groups(raw, groups);
    assert!(matches!(result, Err(SudokuError::InvalidPuzzle)));
}
