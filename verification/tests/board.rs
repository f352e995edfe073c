use sudoku_wfc::board::Board;
use sudoku_wfc::cell::Cell;
use sudoku_wfc::error::Error;

fn counts(board: &Board) -> Vec<Vec<u8>> {
    let mut rows = Vec::new();
    for y in 0..9 {
        let mut row = Vec::new();
        for x in 0..9 {
            row.push(board.cell(x, y).get_count());
        }
        rows.push(row);
    }
    rows
}

fn total(board: &Board) -> usize {
    counts(board).iter().flatten().map(|&c| c as usize).sum()
}

fn share_a_unit(a: (usize, usize), b: (usize, usize)) -> bool {
    a != b && (a.0 == b.0 || a.1 == b.1 || (a.0 / 3 == b.0 / 3 && a.1 / 3 == b.1 / 3))
}

fn clashes(board: &Board) -> Vec<((usize, usize), (usize, usize))> {
    let cells = board.get_collapsed_vec();
    let mut found = Vec::new();
    for &a in &cells {
        for &b in &cells {
            if share_a_unit(a, b)
                && board.cell(a.0, a.1).get_number() == board.cell(b.0, b.1).get_number()
            {
                found.push((a, b));
            }
        }
    }
    found
}

#[test]
fn fresh_board_has_no_collapsed_cell() {
    let board = Board::new();
    assert_eq!(board.get_collapsed_vec(), vec![]);
    assert!(!board.is_finished());
    for y in 0..9 {
        for x in 0..9 {
            assert_eq!(board.cell(x, y), Cell::new());
        }
    }
}

#[test]
fn first_move_reaches_row_column_and_block() {
    let mut board = Board::new();
    assert_eq!(board.play_move(0, 0, 0), Ok(0));
    assert_eq!(board.get_collapsed_vec(), vec![(0, 0)]);
    assert_eq!(board.cell(0, 0).get_number(), Ok(0));
    for peer in [(1, 0), (0, 1), (1, 1)] {
        let cell = board.cell(peer.0, peer.1);
        assert_eq!(cell.get_count(), 8);
        assert_eq!(cell.get_possible_numbers(), vec![1, 2, 3, 4, 5, 6, 7, 8]);
    }
    assert_eq!(board.cell(4, 4).get_count(), 9);
    assert_eq!(
        counts(&board),
        vec![
            vec![1, 8, 8, 8, 8, 8, 8, 8, 8],
            vec![8, 8, 8, 9, 9, 9, 9, 9, 9],
            vec![8, 8, 8, 9, 9, 9, 9, 9, 9],
            vec![8, 9, 9, 9, 9, 9, 9, 9, 9],
            vec![8, 9, 9, 9, 9, 9, 9, 9, 9],
            vec![8, 9, 9, 9, 9, 9, 9, 9, 9],
            vec![8, 9, 9, 9, 9, 9, 9, 9, 9],
            vec![8, 9, 9, 9, 9, 9, 9, 9, 9],
            vec![8, 9, 9, 9, 9, 9, 9, 9, 9],
        ]
    );
}

#[test]
fn last_cell_of_a_column_is_forced() {
    let mut board = Board::new();
    for digit in 0..8u8 {
        assert_eq!(board.play_move(0, digit as usize, digit), Ok(0));
    }
    assert_eq!(board.play_move(1, 0, 8), Ok(0));
    assert!(board.cell(0, 8).is_collapsed());
    assert_eq!(board.cell(0, 8).get_number(), Ok(8));
    assert_eq!(board.cell(1, 0).get_number(), Ok(8));
    assert_eq!(
        board.get_collapsed_vec(),
        vec![(0, 0), (1, 0), (0, 1), (0, 2), (0, 3), (0, 4), (0, 5), (0, 6), (0, 7), (0, 8)]
    );
    assert_eq!(clashes(&board), vec![]);
}

#[test]
fn last_cell_of_a_column_collapses_with_the_eighth_move() {
    let mut board = Board::new();
    for digit in 0..7u8 {
        board.play_move(0, digit as usize, digit).unwrap();
    }
    assert_eq!(board.cell(0, 8).get_possible_numbers(), vec![7, 8]);
    board.play_move(0, 7, 7).unwrap();
    assert_eq!(board.cell(0, 8).get_number(), Ok(8));
    assert_eq!(counts(&board), vec![vec![1, 6, 6, 8, 8, 8, 8, 8, 8]; 9]);
}

#[test]
fn move_on_a_collapsed_cell_is_refused_and_leaves_the_board() {
    let mut board = Board::new();
    board.play_move(0, 0, 0).unwrap();
    board.play_move(4, 4, 3).unwrap();
    let before = board;
    assert_eq!(board.play_move(0, 0, 0), Err(Error::AlreadyCollapsed));
    assert_eq!(board, before);
    assert_eq!(board.play_move(4, 4, 5), Err(Error::AlreadyCollapsed));
    assert_eq!(board, before);
    assert_eq!(board.to_string(), before.to_string());
    assert_eq!(board.debug_print_counts(), before.debug_print_counts());
}

#[test]
fn digit_of_a_collapsed_peer_in_the_row_meets_no_contradiction() {
    let mut board = Board::new();
    board.play_move(0, 0, 0).unwrap();
    assert_eq!(board.cell(5, 0).get_possible_numbers(), vec![1, 2, 3, 4, 5, 6, 7, 8]);
    assert_eq!(board.play_move(5, 0, 0), Ok(0));
    assert_eq!(board.cell(0, 0).get_number(), Ok(0));
    assert_eq!(board.cell(5, 0).get_number(), Ok(0));
}

#[test]
fn two_cells_left_with_the_same_pair_end_on_the_same_digit() {
    let mut board = Board::new();
    for digit in 2..9u8 {
        board.play_move(digit as usize, 0, digit).unwrap();
    }
    assert_eq!(board.cell(0, 0).get_possible_numbers(), vec![0, 1]);
    assert_eq!(board.cell(1, 0).get_possible_numbers(), vec![0, 1]);
    assert_eq!(clashes(&board), vec![]);
    assert_eq!(board.play_move(2, 1, 0), Ok(0));
    assert_eq!(board.cell(0, 0).get_number(), Ok(1));
    assert_eq!(board.cell(1, 0).get_number(), Ok(1));
    assert_eq!(clashes(&board), vec![((0, 0), (1, 0)), ((1, 0), (0, 0))]);
}

#[test]
fn moves_keep_collapsed_digits_distinct() {
    let mut board = Board::new();
    let moves: [(usize, usize, u8); 6] =
        [(0, 0, 0), (4, 4, 0), (8, 8, 0), (1, 3, 0), (3, 1, 0), (5, 7, 0)];
    for (x, y, digit) in moves {
        assert!(board.cell(x, y).get_possible_numbers().contains(&digit));
        assert_eq!(board.play_move(x, y, digit), Ok(0));
        assert_eq!(clashes(&board), vec![]);
    }
    board.reset_cell(&(4, 4));
    assert_eq!(clashes(&board), vec![]);
}

#[test]
fn move_on_an_empty_board_takes_twenty_eight_candidates() {
    let mut board = Board::new();
    assert_eq!(total(&board), 729);
    board.play_move(0, 0, 0).unwrap();
    assert_eq!(total(&board), 701);
    assert!(729 - total(&board) <= 81 * 8);
}

#[test]
fn every_move_on_an_empty_board_ends() {
    for x in 0..9 {
        for y in 0..9 {
            for digit in 0..9u8 {
                let mut board = Board::new();
                assert_eq!(board.play_move(x, y, digit), Ok(0));
                assert_eq!(board.get_collapsed_vec(), vec![(x, y)]);
                assert_eq!(total(&board), 701);
            }
        }
    }
}

#[test]
fn min_space_of_a_fresh_board_is_every_cell_from_the_last() {
    let board = Board::new();
    let cells = board.get_min_space_vec();
    assert_eq!(cells.len(), 81);
    assert_eq!(cells[0], (8, 8));
    assert_eq!(cells[1], (7, 8));
    assert_eq!(cells[9], (8, 7));
    assert_eq!(cells[80], (0, 0));
}

#[test]
fn min_space_after_a_move_is_the_cells_around_it() {
    let mut board = Board::new();
    board.play_move(0, 0, 0).unwrap();
    assert_eq!(
        board.get_min_space_vec(),
        vec![
            (0, 8),
            (0, 7),
            (0, 6),
            (0, 5),
            (0, 4),
            (0, 3),
            (2, 2),
            (1, 2),
            (0, 2),
            (2, 1),
            (1, 1),
            (0, 1),
            (8, 0),
            (7, 0),
            (6, 0),
            (5, 0),
            (4, 0),
            (3, 0),
            (2, 0),
            (1, 0)
        ]
    );
}

#[test]
fn min_space_leaves_collapsed_cells_out() {
    let mut board = Board::new();
    for digit in 0..8u8 {
        board.play_move(0, digit as usize, digit).unwrap();
    }
    assert_eq!(
        board.get_min_space_vec(),
        vec![
            (2, 8),
            (1, 8),
            (2, 7),
            (1, 7),
            (2, 6),
            (1, 6),
            (2, 5),
            (1, 5),
            (2, 4),
            (1, 4),
            (2, 3),
            (1, 3),
            (2, 2),
            (1, 2),
            (2, 1),
            (1, 1),
            (2, 0),
            (1, 0)
        ]
    );
}

#[test]
fn select_cell_counts_from_the_last_cell() {
    let mut board = Board::new();
    assert_eq!(board.select_cell(0), (8, 8));
    assert_eq!(board.select_cell(80), (0, 0));
    assert_eq!(board.select_cell(81), (8, 8));
    board.play_move(0, 0, 0).unwrap();
    assert_eq!(board.select_cell(0), (0, 8));
    assert_eq!(board.select_cell(19), (1, 0));
    assert_eq!(board.select_cell(20), (0, 8));
    assert_eq!(board.select_cell(26), (2, 2));
}

#[test]
fn select_number_counts_the_digits_in_ascending_order() {
    let mut board = Board::new();
    assert_eq!(board.select_number((3, 5), 0), (3, 5, 0));
    assert_eq!(board.select_number((3, 5), 8), (3, 5, 8));
    assert_eq!(board.select_number((3, 5), 9), (3, 5, 0));
    board.play_move(0, 0, 0).unwrap();
    assert_eq!(board.select_number((1, 1), 0), (1, 1, 1));
    assert_eq!(board.select_number((1, 1), 7), (1, 1, 8));
    assert_eq!(board.select_number((1, 1), 8), (1, 1, 1));
    assert_eq!(board.select_number((0, 0), 5), (0, 0, 0));
}

#[test]
fn random_cell_is_one_of_the_least_cells() {
    let mut board = Board::new();
    board.play_move(0, 0, 0).unwrap();
    board.play_move(4, 0, 1).unwrap();
    let least = board.get_min_space_vec();
    assert_eq!(least.len(), 7);
    let mut seen = Vec::new();
    for _ in 0..400 {
        let cell = board.select_random_cell();
        assert!(least.contains(&cell));
        assert_eq!(board.cell(cell.0, cell.1).get_count(), 7);
        if !seen.contains(&cell) {
            seen.push(cell);
        }
    }
    assert_eq!(seen.len(), 7);
}

#[test]
fn random_cell_of_a_board_with_one_least_cell() {
    let mut board = Board::new();
    board.play_move(0, 0, 0).unwrap();
    board.play_move(1, 3, 1).unwrap();
    board.play_move(4, 1, 2).unwrap();
    assert_eq!(board.get_min_space_vec(), vec![(1, 1)]);
    assert_eq!(board.cell(1, 1).get_count(), 6);
    for _ in 0..50 {
        assert_eq!(board.select_random_cell(), (1, 1));
    }
}

#[test]
fn random_number_is_one_of_the_digits_of_the_cell() {
    let mut board = Board::new();
    for digit in 0..6u8 {
        board.play_move(0, digit as usize, digit).unwrap();
    }
    assert_eq!(board.cell(0, 8).get_possible_numbers(), vec![6, 7, 8]);
    let mut seen = [false; 9];
    for _ in 0..400 {
        let step = board.select_random_number((0, 8));
        assert_eq!((step.0, step.1), (0, 8));
        assert!(step.2 >= 6 && step.2 <= 8);
        seen[step.2 as usize] = true;
    }
    assert!(seen[6] && seen[7] && seen[8]);
    assert_eq!(board.select_random_number((0, 0)), (0, 0, 0));
}

#[test]
fn reset_cell_makes_every_digit_possible_again() {
    let mut board = Board::new();
    board.play_move(0, 0, 0).unwrap();
    let before = board;
    board.reset_cell(&(0, 0));
    assert_eq!(board.cell(0, 0), Cell::new());
    assert_eq!(board.get_collapsed_vec(), vec![]);
    for y in 0..9 {
        for x in 0..9 {
            if (x, y) != (0, 0) {
                assert_eq!(board.cell(x, y), before.cell(x, y));
            }
        }
    }
    board.reset_cell(&(4, 4));
    assert_eq!(board.cell(4, 4), Cell::new());
}

#[test]
fn collapsed_cells_come_in_reading_order() {
    let mut board = Board::new();
    board.play_move(5, 7, 2).unwrap();
    board.play_move(8, 0, 4).unwrap();
    board.play_move(0, 3, 6).unwrap();
    board.play_move(7, 3, 1).unwrap();
    assert_eq!(board.get_collapsed_vec(), vec![(8, 0), (0, 3), (7, 3), (5, 7)]);
    assert!(!board.is_finished());
}
