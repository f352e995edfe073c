use sudoku_wfc::board::Board;
use sudoku_wfc::generator::fill;

fn parse(text: &str) -> Vec<Vec<Option<u8>>> {
    let mut rows = Vec::new();
    for line in text.lines() {
        let mut row = Vec::new();
        for token in line.split_whitespace() {
            if token == "." {
                row.push(None);
            } else {
                row.push(Some(token.parse::<u8>().unwrap() - 1));
            }
        }
        rows.push(row);
    }
    rows
}

#[test]
fn fresh_board_is_written_as_dots() {
    let board = Board::new();
    let line = ". . . . . . . . . \n";
    assert_eq!(board.to_string(), line.repeat(9));
}

#[test]
fn fresh_board_counts_are_all_nine() {
    let board = Board::new();
    let line = "9 9 9 9 9 9 9 9 9 \n";
    assert_eq!(board.debug_print_counts(), line.repeat(9));
}

#[test]
fn collapsed_cell_is_written_one_higher() {
    let mut board = Board::new();
    board.play_move(0, 0, 0).unwrap();
    board.play_move(8, 2, 8).unwrap();
    board.play_move(3, 8, 4).unwrap();
    let expected = "1 . . . . . . . . \n\
                    . . . . . . . . . \n\
                    . . . . . . . . 9 \n\
                    . . . . . . . . . \n\
                    . . . . . . . . . \n\
                    . . . . . . . . . \n\
                    . . . . . . . . . \n\
                    . . . . . . . . . \n\
                    . . . 5 . . . . . \n";
    assert_eq!(board.to_string(), expected);
}

#[test]
fn counts_after_a_move() {
    let mut board = Board::new();
    board.play_move(0, 0, 0).unwrap();
    let expected = "1 8 8 8 8 8 8 8 8 \n\
                    8 8 8 9 9 9 9 9 9 \n\
                    8 8 8 9 9 9 9 9 9 \n\
                    8 9 9 9 9 9 9 9 9 \n\
                    8 9 9 9 9 9 9 9 9 \n\
                    8 9 9 9 9 9 9 9 9 \n\
                    8 9 9 9 9 9 9 9 9 \n\
                    8 9 9 9 9 9 9 9 9 \n\
                    8 9 9 9 9 9 9 9 9 \n";
    assert_eq!(board.debug_print_counts(), expected);
}

#[test]
fn column_of_digits_is_written_down_the_lines() {
    let mut board = Board::new();
    for digit in 0..8u8 {
        board.play_move(0, digit as usize, digit).unwrap();
    }
    board.play_move(1, 0, 8).unwrap();
    let expected = "1 9 . . . . . . . \n\
                    2 . . . . . . . . \n\
                    3 . . . . . . . . \n\
                    4 . . . . . . . . \n\
                    5 . . . . . . . . \n\
                    6 . . . . . . . . \n\
                    7 . . . . . . . . \n\
                    8 . . . . . . . . \n\
                    9 . . . . . . . . \n";
    assert_eq!(board.to_string(), expected);
}

#[test]
fn text_of_a_full_board_reads_back_as_its_digits() {
    for _ in 0..20 {
        let mut board = Board::new();
        fill(&mut board);
        assert!(board.is_finished());
        let text = board.to_string();
        assert_eq!(text.len(), 171);
        let grid = parse(&text);
        assert_eq!(grid.len(), 9);
        for y in 0..9 {
            assert_eq!(grid[y].len(), 9);
            for x in 0..9 {
                assert_eq!(grid[y][x], Some(board.cell(x, y).get_number().unwrap()));
            }
        }
    }
}

#[test]
fn text_of_a_partly_filled_board_reads_back() {
    let mut board = Board::new();
    let moves: [(usize, usize, u8); 5] = [(2, 6, 5), (7, 1, 0), (4, 4, 8), (0, 8, 3), (8, 0, 7)];
    for (x, y, digit) in moves {
        board.play_move(x, y, digit).unwrap();
    }
    let grid = parse(&board.to_string());
    for y in 0..9 {
        for x in 0..9 {
            assert_eq!(grid[y][x], board.cell(x, y).get_number().ok());
        }
    }
    for (x, y, digit) in moves {
        assert_eq!(grid[y][x], Some(digit));
    }
}
