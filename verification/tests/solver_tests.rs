//! Tests of the solving engine: propagation to a fixpoint, the full
//! search, validity checking and the peer geometry.

use sudoku::{Board, BoardItem, SolveOutcome};

fn row(cells: [u8; 9]) -> [BoardItem; 9] {
    cells.map(|v| if v == 0 { BoardItem::unknown() } else { BoardItem::known(v) })
}

fn classic_puzzle() -> Board {
    Board::new([
        row([5, 3, 0, 0, 7, 0, 0, 0, 0]),
        row([6, 0, 0, 1, 9, 5, 0, 0, 0]),
        row([0, 9, 8, 0, 0, 0, 0, 6, 0]),
        row([8, 0, 0, 0, 6, 0, 0, 0, 3]),
        row([4, 0, 0, 8, 0, 3, 0, 0, 1]),
        row([7, 0, 0, 0, 2, 0, 0, 0, 6]),
        row([0, 6, 0, 0, 0, 0, 2, 8, 0]),
        row([0, 0, 0, 4, 1, 9, 0, 0, 5]),
        row([0, 0, 0, 0, 8, 0, 0, 7, 9]),
    ])
}

fn harder_puzzle() -> Board {
    Board::new([
        row([0, 3, 0, 0, 7, 0, 0, 0, 0]),
        row([6, 0, 0, 1, 9, 5, 0, 0, 0]),
        row([0, 9, 8, 0, 0, 0, 0, 6, 0]),
        row([8, 0, 0, 0, 6, 0, 0, 0, 3]),
        row([4, 0, 0, 8, 0, 3, 0, 0, 1]),
        row([7, 0, 0, 0, 0, 0, 0, 0, 6]),
        row([0, 6, 0, 0, 0, 0, 2, 8, 0]),
        row([0, 0, 0, 4, 1, 9, 0, 0, 5]),
        row([0, 0, 0, 0, 8, 0, 0, 7, 9]),
    ])
}

fn classic_solution() -> Board {
    Board::new([
        row([5, 3, 4, 6, 7, 8, 9, 1, 2]),
        row([6, 7, 2, 1, 9, 5, 3, 4, 8]),
        row([1, 9, 8, 3, 4, 2, 5, 6, 7]),
        row([8, 5, 9, 7, 6, 1, 4, 2, 3]),
        row([4, 2, 6, 8, 5, 3, 7, 9, 1]),
        row([7, 1, 3, 9, 2, 4, 8, 5, 6]),
        row([9, 6, 1, 5, 3, 7, 2, 8, 4]),
        row([2, 8, 7, 4, 1, 9, 6, 3, 5]),
        row([3, 4, 5, 2, 8, 6, 1, 7, 9]),
    ])
}

#[test]
fn test_01() {
    let input = classic_puzzle();

    let actual = input.solve_naive_implementation();

    let expected = classic_solution();
    assert!(actual.is_fully_solved());
    assert_eq!(actual.solved_count(), 81);
    assert_eq!(actual.array, expected.array);
}

#[test]
fn test_02() {
    let input = harder_puzzle();

    // one given fewer than the classic grid: propagation alone stalls here,
    // so the full solve has to guess its way to the same unique solution
    let actual = match input.solve() {
        SolveOutcome::Solved(board) => board,
        SolveOutcome::Exhausted(board) => board,
    };

    let expected = classic_solution();
    assert_eq!(actual.array, expected.array);
}

#[test]
fn solve_classic_puzzle() {
    match classic_puzzle().solve() {
        SolveOutcome::Solved(board) => {
            assert!(board.is_valid());
            assert_eq!(board.array, classic_solution().array);
        },
        SolveOutcome::Exhausted(_) => panic!("the classic puzzle has a solution"),
    }
}

#[test]
fn solve_harder_puzzle_backtracks_to_same_solution() {
    match harder_puzzle().solve() {
        SolveOutcome::Solved(board) => {
            assert_eq!(board.array, classic_solution().array);
        },
        SolveOutcome::Exhausted(_) => panic!("the harder puzzle has a solution"),
    }
}

#[test]
fn solve_is_idempotent_on_a_solved_board() {
    let solved = classic_solution();
    let again = solved.solve_naive_implementation();
    assert_eq!(again.array, solved.array);
    assert_eq!(again.solved_count(), 81);

    match solved.solve() {
        SolveOutcome::Solved(board) => {
            assert_eq!(board.array, solved.array);
            assert!(board.is_fully_solved());
        },
        SolveOutcome::Exhausted(_) => panic!("a solved board solves to itself"),
    }
}

#[test]
fn solved_board_groups_are_permutations_of_digits() {
    let board = classic_solution();
    for g in 0..9 {
        for d in 1..=9u8 {
            let in_row = (0..9).any(|c| board.array[g][c].value == Some(d));
            let in_col = (0..9).any(|r| board.array[r][g].value == Some(d));
            let in_block = (0..9).any(|i| {
                board.array[3 * (g / 3) + i / 3][3 * (g % 3) + i % 3].value == Some(d)
            });
            assert!(in_row && in_col && in_block);
        }
    }
}

#[test]
fn center_cell_has_24_neighbor_entries_and_20_distinct_peers() {
    let board = Board::new([
        row([0; 9]), row([0; 9]), row([0; 9]),
        row([0; 9]), row([0; 9]), row([0; 9]),
        row([0; 9]), row([0; 9]), row([0; 9]),
    ]);
    let all = board.get_all_neighbor_indexes(4, 4);
    assert_eq!(all.len(), 24);
    let mut distinct = all.clone();
    distinct.sort();
    distinct.dedup();
    assert_eq!(distinct.len(), 20);
    assert!(!distinct.contains(&(4, 4)));
}

#[test]
fn fixing_a_cell_purges_the_digit_from_every_peer() {
    let mut board = Board::new([
        row([0; 9]), row([0; 9]), row([0; 9]),
        row([0; 9]), row([0; 9]), row([0; 9]),
        row([0; 9]), row([0; 9]), row([0; 9]),
    ]);
    board.set_value(4, 4, 5);
    assert_eq!(board.array[4][4].value, Some(5));
    for (r, c) in board.get_all_neighbor_indexes(4, 4) {
        assert!(!board.get(r, c).get_candidates().contains(&5));
    }
    // an unrelated cell keeps the digit as a candidate
    assert!(board.get(0, 8).get_candidates().contains(&5));
}

#[test]
fn conflict_detection_flags_the_offending_cell() {
    let mut board = classic_solution();
    assert!(board.is_valid());
    assert!(board.is_cell_valid(0, 1));

    // force a duplicate of the 5 at (0, 0) into its row neighbor (0, 1)
    board.array[0][1].value = Some(5);
    assert!(!board.is_valid());
    assert!(!board.is_cell_valid(0, 1));
    assert!(!board.is_cell_valid(0, 0));
    // a cell sharing no group with the duplicates is still fine
    assert!(board.is_cell_valid(8, 8));
}

#[test]
fn complete_but_conflicting_board_is_exhausted() {
    let mut board = classic_solution();
    board.array[0][1].value = Some(5);
    match board.solve() {
        SolveOutcome::Solved(_) => panic!("a conflicting board must not count as solved"),
        SolveOutcome::Exhausted(out) => {
            assert!(out.is_fully_solved());
            assert!(!out.is_valid());
        },
    }
}

#[test]
fn contradictory_puzzle_is_exhausted() {
    let mut board = classic_solution();
    // blank the 5 at (0, 0) and move it onto (0, 1): (0, 0) has no digit left
    board.array[0][0] = BoardItem::unknown();
    board.array[0][1] = BoardItem::known(5);
    match board.solve() {
        SolveOutcome::Solved(_) => panic!("the contradiction admits no solution"),
        SolveOutcome::Exhausted(out) => {
            assert!(!out.is_fully_solved());
        },
    }
}

#[test]
fn fixing_a_cell_cascades_through_new_naked_singles() {
    let mut board = Board::new([
        row([0; 9]), row([0; 9]), row([0; 9]),
        row([0; 9]), row([0; 9]), row([0; 9]),
        row([0; 9]), row([0; 9]), row([0; 9]),
    ]);
    // (0, 1) can only be 3 or 5; once 5 lands on (0, 0), the removal
    // leaves the single candidate 3, which the cascade fixes in turn
    board.array[0][1] = BoardItem {
        value: None,
        candidates: [false, false, true, false, true, false, false, false, false],
    };
    board.set_value(0, 0, 5);
    assert_eq!(board.array[0][0].value, Some(5));
    assert_eq!(board.array[0][1].value, Some(3));
}

#[test]
fn naked_single_helper_fires_only_on_singletons() {
    assert_eq!(Board::get_value_if_only_one_candidate(&vec![7]), Some(7));
    assert_eq!(Board::get_value_if_only_one_candidate(&vec![]), None);
    assert_eq!(Board::get_value_if_only_one_candidate(&vec![2, 7]), None);
    assert_eq!(Board::get_value_if_not_candidate_in_neighbors(vec![2, 3], &vec![2, 3, 9]), Some(9));
    assert_eq!(Board::get_value_if_not_candidate_in_neighbors(vec![2, 3], &vec![2, 3]), None);
}

#[test]
fn solved_count_matches_undefined_count() {
    let puzzle = classic_puzzle();
    assert_eq!(puzzle.solved_count() + puzzle.get_undefined_indexes().len(), 81);
    let empty = Board::new([
        row([0; 9]), row([0; 9]), row([0; 9]),
        row([0; 9]), row([0; 9]), row([0; 9]),
        row([0; 9]), row([0; 9]), row([0; 9]),
    ]);
    assert_eq!(empty.solved_count(), 0);
    assert!(!empty.is_fully_solved());
    assert_eq!(classic_solution().solved_count(), 81);
}

#[test]
fn update_candidates_removes_exactly_the_fixed_neighbor_digits() {
    let mut board = classic_puzzle();
    board.update_all_candidates();
    // (3, 3): fixed neighbors hold every digit but 5, 7 and 9
    assert_eq!(board.get(3, 3).get_candidates(), vec![5, 7, 9]);
    assert!(board.get(3, 3).candidate(5));
    assert!(!board.get(3, 3).candidate(6));
    // (4, 4): its row, column and block leave only the 5
    assert_eq!(board.get(4, 4).get_candidates(), vec![5]);
    // a fixed cell carries no candidates at all
    assert_eq!(board.get(7, 8).get_candidates(), vec![]);
}
