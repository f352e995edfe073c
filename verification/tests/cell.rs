use rand::seq::SliceRandom;
use sudoku_wfc::cell::Cell;
use sudoku_wfc::error::Error;

#[test]
fn get_number_test() {
    let mut rng = rand::thread_rng();
    let mut t_set: Vec<u8> = (0..9).collect();
    let mut t_cell: Cell = Cell::new();

    t_set.shuffle(&mut rng);

    while t_set.len() > 1 {
        assert_eq!(t_cell.get_count(), t_set.len() as u8);
        t_cell.reduce(t_set.pop().unwrap()).unwrap();
        assert_eq!(t_cell.get_count(), t_set.len() as u8);
    }
}

#[test]
fn is_collapsed_test() {
    let mut rng = rand::thread_rng();
    let mut t_set: Vec<u8> = (0..9).collect();
    let mut t_cell: Cell = Cell::new();

    t_set.shuffle(&mut rng);

    t_set.pop();

    for x in t_set {
        assert!(!t_cell.is_collapsed());
        t_cell.reduce(x).unwrap();
    }
    assert!(t_cell.is_collapsed());
}

#[test]
fn collapse_test() {
    let mut rng = rand::thread_rng();
    let mut t_set: Vec<u8> = (0..9).collect();
    let mut t_cell: Cell = Cell::new();

    t_set.shuffle(&mut rng);

    t_cell.collapse(t_set.pop().unwrap()).unwrap();

    while t_set.len() > 0 {
        match t_cell.collapse(t_set.pop().unwrap()) {
            Ok(_ok) => panic!(),
            Err(_err) => continue,
        }
    }
}

#[test]
fn reduce_test() {
    let mut rng = rand::thread_rng();
    let mut t_set: Vec<u8> = (0..9).collect();
    let mut t_cell: Cell = Cell::new();

    t_set.shuffle(&mut rng);

    while t_set.len() > 1 {
        t_cell.reduce(t_set.pop().unwrap()).unwrap();
    }

    match t_cell.reduce(t_set.pop().unwrap()) {
        Ok(_ok) => panic!(),
        Err(_err) => {}
    }
}

#[test]
fn if_collapse_get_number() {
    let mut rng = rand::thread_rng();
    let mut t_set: Vec<u8> = (0..9).collect();
    let mut t_cell: Cell = Cell::new();

    t_set.shuffle(&mut rng);

    while t_set.len() > 1 {
        if t_cell.reduce(t_set.pop().unwrap()).unwrap() {
            t_cell.get_number().unwrap();
        } else {
            match t_cell.get_number() {
                Ok(_ok) => panic!(),
                Err(_err) => continue,
            }
        }
    }
}

#[test]
fn new_cell_holds_every_digit() {
    let cell = Cell::new();
    assert_eq!(cell.get_count(), 9);
    assert_eq!(cell.get_possible_numbers(), vec![0, 1, 2, 3, 4, 5, 6, 7, 8]);
    assert!(!cell.is_collapsed());
    assert_eq!(cell.get_number(), Err(Error::NotCollapsed));
}

#[test]
fn collapse_leaves_the_digit_alone() {
    let mut cell = Cell::new();
    assert_eq!(cell.collapse(4), Ok(0));
    assert_eq!(cell.get_possible_numbers(), vec![4]);
    assert_eq!(cell.get_count(), 1);
    assert!(cell.is_collapsed());
    assert_eq!(cell.get_number(), Ok(4));
}

#[test]
fn collapse_twice_is_refused_even_with_the_same_digit() {
    let mut cell = Cell::new();
    cell.collapse(4).unwrap();
    let before = cell;
    assert_eq!(cell.collapse(4), Err(Error::AlreadyCollapsed));
    assert_eq!(cell, before);
    assert_eq!(cell.collapse(7), Err(Error::AlreadyCollapsed));
    assert_eq!(cell, before);
    assert_eq!(cell.get_number(), Ok(4));
}

#[test]
fn reduce_takes_one_digit() {
    let mut cell = Cell::new();
    assert_eq!(cell.reduce(3), Ok(false));
    assert_eq!(cell.get_possible_numbers(), vec![0, 1, 2, 4, 5, 6, 7, 8]);
    assert_eq!(cell.get_count(), 8);
}

#[test]
fn reduce_of_an_absent_digit_changes_nothing() {
    let mut cell = Cell::new();
    cell.reduce(3).unwrap();
    let before = cell;
    assert_eq!(cell.reduce(3), Ok(false));
    assert_eq!(cell, before);
    assert_eq!(cell.get_count(), 8);

    let mut single = Cell::new();
    single.collapse(2).unwrap();
    let before = single;
    assert_eq!(single.reduce(5), Ok(false));
    assert_eq!(single, before);
    assert_eq!(single.get_count(), 1);
}

#[test]
fn reduce_says_when_a_single_digit_is_left() {
    let mut cell = Cell::new();
    for digit in 0..7 {
        assert_eq!(cell.reduce(digit), Ok(false));
    }
    assert_eq!(cell.get_possible_numbers(), vec![7, 8]);
    assert_eq!(cell.reduce(7), Ok(true));
    assert_eq!(cell.get_number(), Ok(8));
}

#[test]
fn reduce_of_the_last_digit_is_refused() {
    let mut cell = Cell::new();
    cell.collapse(6).unwrap();
    let before = cell;
    assert_eq!(cell.reduce(6), Err(Error::Contradiction));
    assert_eq!(cell, before);
    assert_eq!(cell.get_possible_numbers(), vec![6]);
}

#[test]
fn get_number_needs_a_single_digit() {
    let mut cell = Cell::new();
    assert_eq!(cell.get_number(), Err(Error::NotCollapsed));
    for digit in 0..7 {
        cell.reduce(digit).unwrap();
    }
    assert_eq!(cell.get_number(), Err(Error::NotCollapsed));
    cell.reduce(8).unwrap();
    assert_eq!(cell.get_number(), Ok(7));
}

#[test]
fn reset_makes_every_digit_possible_again() {
    let mut cell = Cell::new();
    cell.collapse(0).unwrap();
    cell.reset();
    assert_eq!(cell, Cell::new());
    assert_eq!(cell.get_count(), 9);

    let mut other = Cell::new();
    other.reduce(1).unwrap();
    other.reduce(2).unwrap();
    other.reset();
    assert_eq!(other.get_possible_numbers(), vec![0, 1, 2, 3, 4, 5, 6, 7, 8]);
}

#[test]
fn count_is_the_number_of_possible_digits() {
    let mut cell = Cell::new();
    let order: [u8; 8] = [4, 0, 8, 2, 6, 1, 7, 3];
    for digit in order {
        assert_eq!(cell.get_count() as usize, cell.get_possible_numbers().len());
        assert_eq!(cell.is_collapsed(), cell.get_count() == 1);
        cell.reduce(digit).unwrap();
    }
    assert_eq!(cell.get_count(), 1);
    assert_eq!(cell.get_possible_numbers(), vec![5]);
    assert!(cell.is_collapsed());
}
