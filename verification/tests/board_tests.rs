//! Tests of the board model, its accessors and the elimination helpers.

use sudoku::{Board, BoardItem};

fn row(cells: [u8; 9]) -> [BoardItem; 9] {
    cells.map(|v| if v == 0 { BoardItem::unknown() } else { BoardItem::known(v) })
}

fn classic_board() -> Board {
    Board::new([
        row([5, 3, 0, 0, 7, 0, 0, 0, 0]),
        row([6, 0, 0, 1, 9, 5, 0, 0, 0]),
        row([0, 9, 8, 0, 0, 0, 0, 6, 0]),
        row([8, 0, 0, 0, 6, 0, 0, 0, 3]),
        row([4, 0, 0, 8, 0, 3, 0, 0, 1]),
        row([7, 0, 0, 0, 2, 0, 0, 0, 6]),
        row([0, 6, 0, 0, 0, 0, 2, 8, 0]),
        row([0, 0, 0, 4, 1, 9, 0, 0, 5]),
        row([0, 0, 0, 0, 8, 0, 0, 7, 9]),
    ])
}

#[test]
fn test_board_item() {
    let mut board_item = BoardItem {
        value: None,
        candidates: [true, false, true, false, false, true, true, true, true],
    };
    assert_eq!(board_item.candidates.len(), 9);

    let actual = board_item.get_candidates();
    assert_eq!(actual.len(), 6);
    assert_eq!(actual, vec![1, 3, 6, 7, 8, 9]);

    board_item.remove_candidate(6);
    let actual = board_item.get_candidates();

    assert_eq!(actual, vec![1, 3, 7, 8, 9]);

    let known_item = BoardItem::known(2);
    assert_eq!(known_item.value, Some(2));
    assert_eq!(known_item.get_candidates(), vec![]);

    let unknown_item = BoardItem::unknown();
    assert_eq!(unknown_item.value, None);
    assert_eq!(unknown_item.get_candidates(), vec![1, 2, 3, 4, 5, 6, 7, 8, 9]);
}

#[test]
fn test_get_block_bounds_from_indexes() {
    let actual = Board::get_block_bounds_from_index(0, 0);
    assert_eq!(actual, (0, 2, 0, 2));

    let actual = Board::get_block_bounds_from_index(4, 0);
    assert_eq!(actual, (3, 5, 0, 2));

    let actual = Board::get_block_bounds_from_index(4, 5);
    assert_eq!(actual, (3, 5, 3, 5));
}

#[test]
fn test_get_all_indexes() {
    let actual = Board::get_all_indexes();
    assert_eq!(actual, [
        (0,0), (0,1), (0,2), (0,3), (0,4), (0,5), (0,6), (0,7), (0,8),
        (1,0), (1,1), (1,2), (1,3), (1,4), (1,5), (1,6), (1,7), (1,8),
        (2,0), (2,1), (2,2), (2,3), (2,4), (2,5), (2,6), (2,7), (2,8),
        (3,0), (3,1), (3,2), (3,3), (3,4), (3,5), (3,6), (3,7), (3,8),
        (4,0), (4,1), (4,2), (4,3), (4,4), (4,5), (4,6), (4,7), (4,8),
        (5,0), (5,1), (5,2), (5,3), (5,4), (5,5), (5,6), (5,7), (5,8),
        (6,0), (6,1), (6,2), (6,3), (6,4), (6,5), (6,6), (6,7), (6,8),
        (7,0), (7,1), (7,2), (7,3), (7,4), (7,5), (7,6), (7,7), (7,8),
        (8,0), (8,1), (8,2), (8,3), (8,4), (8,5), (8,6), (8,7), (8,8),
    ]);
}

#[test]
fn test_set_methods() {
    let mut input = classic_board();
    input.set_value(0, 2, 9);
    let actual = input.array[0][2].value.unwrap();
    assert_eq!(actual, 9);
}

#[test]
fn test_access_methods() {
    let input = classic_board();

    let actual = input.get_row(0);
    assert_eq!(actual, row([5, 3, 0, 0, 7, 0, 0, 0, 0]));
    let actual = input.get_row(2);
    assert_eq!(actual, row([0, 9, 8, 0, 0, 0, 0, 6, 0]));
    let actual = input.get_col(0);
    assert_eq!(actual, row([5, 6, 0, 8, 4, 7, 0, 0, 0]));
    let actual = input.get_col(8);
    assert_eq!(actual, row([0, 0, 0, 3, 1, 6, 0, 5, 9]));
    let actual = input.get_block(0, 0);
    assert_eq!(actual, row([5, 3, 0, 6, 0, 0, 0, 9, 8]));
    let actual = input.get_block(3, 0);
    assert_eq!(actual, row([8, 0, 0, 4, 0, 0, 7, 0, 0]));
    let actual = input.get_block(3, 3);
    assert_eq!(actual, row([0, 6, 0, 8, 0, 3, 0, 2, 0]));
    let actual = input.evaluate_candidate_values(3, 3);
    assert_eq!(actual, vec![5, 7, 9]);
    let actual = input.evaluate_candidate_values(7, 8);
    assert_eq!(actual, vec![5]);
    let actual = input.get_undefined_indexes();
    let expected = vec![
        (0, 2), (0, 3), (0, 5), (0, 6), (0, 7), (0, 8),
        (1, 1), (1, 2), (1, 6), (1, 7), (1, 8),
        (2, 0), (2, 3), (2, 4), (2, 5), (2, 6), (2, 8),
        (3, 1), (3, 2), (3, 3), (3, 5), (3, 6), (3, 7),
        (4, 1), (4, 2), (4, 4), (4, 6), (4, 7),
        (5, 1), (5, 2), (5, 3), (5, 5), (5, 6), (5, 7),
        (6, 0), (6, 2), (6, 3), (6, 4), (6, 5), (6, 8),
        (7, 0), (7, 1), (7, 2), (7, 6), (7, 7),
        (8, 0), (8, 1), (8, 2), (8, 3), (8, 5), (8, 6),
    ];
    assert_eq!(actual, expected);
}

#[test]
fn test_neighbor_indexes_methods() {
    let input = Board::new([
        row([0; 9]), row([0; 9]), row([0; 9]),
        row([0; 9]), row([0; 9]), row([0; 9]),
        row([0; 9]), row([0; 9]), row([0; 9]),
    ]);

    let actual = input.get_row_neighbor_indexes(0, 0);
    assert_eq!(actual, vec![(0, 1), (0, 2), (0, 3), (0, 4), (0, 5), (0, 6), (0, 7), (0, 8)]);

    let actual = input.get_col_neighbor_indexes(0, 0);
    assert_eq!(actual, vec![(1, 0), (2, 0), (3, 0), (4, 0), (5, 0), (6, 0), (7, 0), (8, 0)]);

    let actual = input.get_block_neighbor_indexes(0, 0);
    assert_eq!(actual, vec![(0, 1), (0, 2), (1, 0), (1, 1), (1, 2), (2, 0), (2, 1), (2, 2)]);

    let actual = input.get_block_neighbor_indexes(5, 7);
    assert_eq!(actual, vec![(3, 6), (3, 7), (3, 8), (4, 6), (4, 7), (4, 8), (5, 6), (5, 8)]);
}

#[test]
fn test_get_value_if_one_value_is_not_possible_in_neighbors() {
    let actual = Board::get_value_if_one_value_is_not_possible_in_neighbors(
        vec![1, 2, 3],
        &vec![1, 2, 3, 4],
    );
    assert_eq!(actual, Some(4));
    let actual = Board::get_value_if_one_value_is_not_possible_in_neighbors(
        vec![1, 2, 3],
        &vec![1, 2],
    );
    assert_eq!(actual, None);
    let actual = Board::get_value_if_one_value_is_not_possible_in_neighbors(
        vec![1, 2, 3],
        &vec![1, 2, 3],
    );
    assert_eq!(actual, None);
}
