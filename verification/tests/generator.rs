use sudoku_wfc::board::Board;
use sudoku_wfc::cell::Cell;
use sudoku_wfc::generator::{carve_step, fill, fill_step, generate};

fn open_cells(board: &Board) -> usize {
    81 - board.get_collapsed_vec().len()
}

#[test]
fn fill_step_plays_a_possible_digit_at_a_least_cell() {
    let mut board = Board::new();
    board.play_move(0, 0, 0).unwrap();
    board.play_move(4, 0, 1).unwrap();
    let before = board;
    let step = fill_step(&mut board).unwrap();
    assert!(before.get_min_space_vec().contains(&(step.0, step.1)));
    assert!(before.cell(step.0, step.1).get_possible_numbers().contains(&step.2));
    assert_eq!(board.cell(step.0, step.1).get_number(), Ok(step.2));
    let mut replay = before;
    replay.play_move(step.0, step.1, step.2).unwrap();
    assert_eq!(board, replay);
    assert!(open_cells(&board) < open_cells(&before));
}

#[test]
fn fill_step_leaves_a_finished_board() {
    let mut board = Board::new();
    fill(&mut board);
    let before = board;
    assert_eq!(fill_step(&mut board), None);
    assert_eq!(board, before);
}

#[test]
fn fill_finishes_the_board() {
    for _ in 0..20 {
        let mut board = Board::new();
        fill(&mut board);
        assert!(board.is_finished());
        assert_eq!(board.get_collapsed_vec().len(), 81);
        assert_eq!(board.get_min_space_vec(), vec![]);
    }
}

#[test]
fn fill_keeps_the_digits_played_before() {
    let mut board = Board::new();
    board.play_move(3, 3, 3).unwrap();
    board.play_move(6, 2, 8).unwrap();
    let before = board;
    fill(&mut board);
    assert!(board.is_finished());
    assert_eq!(board.cell(3, 3).get_number(), Ok(3));
    assert_eq!(board.cell(6, 2).get_number(), Ok(8));
    for y in 0..9 {
        for x in 0..9 {
            let digit = board.cell(x, y).get_number().unwrap();
            assert!(before.cell(x, y).get_possible_numbers().contains(&digit));
        }
    }
}

#[test]
fn carve_step_finds_nothing_on_a_fresh_board() {
    let mut board = Board::new();
    assert_eq!(carve_step(&mut board), None);
    assert_eq!(board, Board::new());
}

#[test]
fn carve_step_resets_one_collapsed_cell() {
    let mut board = Board::new();
    board.play_move(0, 0, 0).unwrap();
    board.play_move(4, 4, 1).unwrap();
    board.play_move(8, 8, 2).unwrap();
    let before = board;
    let cell = carve_step(&mut board).unwrap();
    assert!(before.get_collapsed_vec().contains(&cell));
    assert_eq!(board.cell(cell.0, cell.1), Cell::new());
    assert_eq!(board.get_collapsed_vec().len(), 2);
    for y in 0..9 {
        for x in 0..9 {
            if (x, y) != cell {
                assert_eq!(board.cell(x, y), before.cell(x, y));
            }
        }
    }
}

#[test]
fn carve_step_reaches_every_collapsed_cell() {
    let mut start = Board::new();
    start.play_move(0, 0, 0).unwrap();
    start.play_move(4, 4, 1).unwrap();
    start.play_move(8, 8, 2).unwrap();
    let mut seen = Vec::new();
    for _ in 0..300 {
        let mut board = start;
        let cell = carve_step(&mut board).unwrap();
        if !seen.contains(&cell) {
            seen.push(cell);
        }
    }
    seen.sort();
    assert_eq!(seen, vec![(0, 0), (4, 4), (8, 8)]);
}

#[test]
fn generate_leaves_as_many_open_cells_as_asked() {
    for difficulty in [0u8, 1, 30, 80, 81] {
        let mut board = Board::new();
        generate(&mut board, difficulty);
        assert_eq!(open_cells(&board), difficulty as usize);
        for y in 0..9 {
            for x in 0..9 {
                let cell = board.cell(x, y);
                assert!(cell.is_collapsed() || cell == Cell::new());
            }
        }
    }
}

#[test]
fn generate_with_no_holes_finishes_the_board() {
    let mut board = Board::new();
    generate(&mut board, 0);
    assert!(board.is_finished());
}
