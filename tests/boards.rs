use sudoku::board::Board;
use sudoku::game::build_default_group;
use sudoku::grid::Board as Grid;
use sudoku::prelude::index;

fn create_matrix() -> [Option<u8>; 81] {
    let mut array = [None; 81];
    for y in 0u8..9 {
        let offset = y * 9;
        for x in 0u8..9 {
            let index = (x + offset) as usize;
            array[index] = Some(x + y * 10);
        }
    }
    array[5 * 9 + 0] = None;
    array
}

fn create_row(row: u8) -> [Option<u8>; 9] {
    let y = row * 10;
    [
        Some(0 + y),
        Some(1 + y),
        Some(2 + y),
        Some(3 + y),
        Some(4 + y),
        None,
        Some(6 + y),
        Some(7 + y),
        Some(8 + y),
    ]
}

#[test]
fn lib_construction_works() {
    let board = Grid::new([
        create_row(0),
        create_row(1),
        create_row(2),
        create_row(3),
        create_row(4),
        create_row(5),
        create_row(6),
        create_row(7),
        create_row(8),
    ]);

    assert_eq!(board.cell(4, 2), Some(42));
    assert_eq!(board.cell(0, 5), None);
}

#[test]
fn grid_new_empty_has_no_digit() {
    let board = Grid::new_empty();
    for x in 0..9 {
        for y in 0..9 {
            assert_eq!(board.cell(x, y), None);
        }
    }
}

#[test]
fn board_construction_works() {
    let board = Board::new(create_matrix());

    assert_eq!(board.cell(4, 2), Some(24));
    assert_eq!(board.cell(0, 5), None);
}

#[test]
fn board_elements_in_group() {
    for y in (0usize..9).step_by(3) {
        for x in (0usize..9).step_by(3) {
            let set = build_default_group(x, y);
            assert_eq!(set.contains(index(0 + x, 0 + y, 9)), true);
            assert_eq!(set.contains(index(0 + x, 2 + y, 9)), true);
            assert_eq!(set.contains(index(2 + x, 2 + y, 9)), true);
        }
    }
}

#[test]
fn board_elements_not_in_group() {
    for y in (0usize..9).step_by(3) {
        for x in (0usize..9).step_by(3) {
            let set = build_default_group(x, y);
            assert_eq!(set.contains(index(0 + x, 3 + y, 9)), false);
            assert_eq!(set.contains(index(3 + x, 0 + y, 9)), false);
        }
    }
}

#[test]
fn board_group_lookup_works() {
    let board = Board::new(create_matrix());
    let group = board.groups[board.group_lookup[index(4, 4, 9)] as usize];

    for y in 3..6 {
        assert!(group.contains(index(3, y, 9)));
        assert!(group.contains(index(4, y, 9)));
        assert!(group.contains(index(5, y, 9)));
    }
}

#[test]
fn board_new_empty_has_no_digit() {
    let board = Board::new_empty();
    assert_eq!(board.cell(8, 8), None);
    assert_eq!(board.groups.len(), 9);
}
