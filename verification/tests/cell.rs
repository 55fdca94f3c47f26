use sudoku_utils::traits::Cell;

#[test]
fn a_new_cell_admits_every_digit_or_its_own() {
    let empty = Cell::new(0);
    assert_eq!(empty.get_value(), 0);
    assert!(empty.is_empty());
    assert!(!empty.is_set());
    assert_eq!(empty.possible_values(), vec![1, 2, 3, 4, 5, 6, 7, 8, 9]);

    let five = Cell::new(5);
    assert_eq!(five.get_value(), 5);
    assert!(five.is_set());
    assert!(!five.is_empty());
    assert_eq!(five.possible_values(), vec![5]);
    for digit in 1..=9 {
        assert_eq!(five.contains_possibility(digit), digit == 5);
    }
}

#[test]
fn what_is_no_digit_is_no_candidate() {
    let cell = Cell::new(0);
    assert_eq!(cell.contains_possibility(0), false);
    assert_eq!(cell.contains_possibility(10), false);
    assert_eq!(cell.contains_possibility(9), true);
    assert_eq!(cell.contains_any_possibilities(&[0, 10, 11]), false);
    assert_eq!(cell.contains_any_possibilities(&[0, 10, 1]), true);
}

#[test]
fn a_digit_above_nine_makes_an_empty_cell() {
    assert_eq!(Cell::new(10), Cell::new(0));
    assert_eq!(Cell::new(usize::MAX), Cell::new(0));
    assert_eq!(Cell::new(9).get_value(), 9);
}

#[test]
fn removing_a_candidate_changes_the_cell_once() {
    let mut cell = Cell::new(0);
    assert_eq!(cell.remove_possibility(4), true);
    assert_eq!(cell.possible_values(), vec![1, 2, 3, 5, 6, 7, 8, 9]);
    assert_eq!(cell.get_value(), 0);
    assert_eq!(cell.remove_possibility(4), false);
    assert_eq!(cell.possible_values(), vec![1, 2, 3, 5, 6, 7, 8, 9]);
}

#[test]
fn removing_what_is_no_digit_changes_nothing() {
    let mut cell = Cell::new(0);
    assert_eq!(cell.remove_possibility(0), false);
    assert_eq!(cell.remove_possibility(10), false);
    assert_eq!(cell, Cell::new(0));
}

#[test]
fn the_last_candidate_becomes_the_value() {
    let mut cell = Cell::new(0);
    for digit in 1..=7 {
        assert_eq!(cell.remove_possibility(digit), true);
        assert!(cell.is_empty());
    }
    assert_eq!(cell.possible_values(), vec![8, 9]);
    assert_eq!(cell.remove_possibility(9), true);
    assert_eq!(cell.get_value(), 8);
    assert!(cell.is_set());
    assert_eq!(cell.possible_values(), vec![8]);
    assert_eq!(cell, Cell::new(8));
}

#[test]
fn striking_the_value_of_a_set_cell_leaves_no_candidate() {
    let mut cell = Cell::new(3);
    assert_eq!(cell.remove_possibility(4), false);
    assert_eq!(cell.remove_possibility(3), true);
    assert_eq!(cell.get_value(), 3);
    assert_eq!(cell.possible_values(), Vec::<usize>::new());
    assert_eq!(cell.remove_possibility(3), false);
}

#[test]
fn removing_several_candidates_reports_any_change() {
    let mut cell = Cell::new(0);
    assert_eq!(cell.remove_possibilities(&[1, 2, 3]), true);
    assert_eq!(cell.possible_values(), vec![4, 5, 6, 7, 8, 9]);
    assert_eq!(cell.remove_possibilities(&[1, 2, 3]), false);
    assert_eq!(cell.remove_possibilities(&[3, 4]), true);
    assert_eq!(cell.possible_values(), vec![5, 6, 7, 8, 9]);
    assert_eq!(cell.remove_possibilities(&[]), false);
}

#[test]
fn removing_all_but_some_candidates_keeps_those() {
    let mut cell = Cell::new(0);
    assert_eq!(cell.remove_possibilities_outside_of(&[2, 5, 7]), true);
    assert_eq!(cell.possible_values(), vec![2, 5, 7]);
    assert_eq!(cell.get_value(), 0);
    assert_eq!(cell.remove_possibilities_outside_of(&[2, 5, 7, 9]), false);
    assert_eq!(cell.remove_possibilities_outside_of(&[5, 9]), true);
    assert_eq!(cell.get_value(), 5);
    assert_eq!(cell.possible_values(), vec![5]);
}

#[test]
fn removing_every_candidate_leaves_the_greatest_as_value() {
    let mut cell = Cell::new(0);
    assert_eq!(cell.remove_possibilities_outside_of(&[]), true);
    assert_eq!(cell.get_value(), 9);
    assert_eq!(cell.possible_values(), Vec::<usize>::new());
}

#[test]
fn a_cell_contains_any_of_a_list_if_it_contains_one() {
    let mut cell = Cell::new(0);
    cell.remove_possibilities(&[1, 2, 3]);
    assert_eq!(cell.contains_any_possibilities(&[1, 2]), false);
    assert_eq!(cell.contains_any_possibilities(&[1, 4]), true);
    assert_eq!(cell.contains_any_possibilities(&[]), false);
    assert_eq!(Cell::new(6).contains_any_possibilities(&[5, 6]), true);
    assert_eq!(Cell::new(6).contains_any_possibilities(&[5, 7]), false);
}

#[test]
fn setting_a_value_pins_the_candidates() {
    let mut cell = Cell::new(0);
    assert_eq!(cell.set_value(4), true);
    assert_eq!(cell, Cell::new(4));
    assert_eq!(cell.set_value(4), false);
    assert_eq!(cell.set_value(0), false);
    assert_eq!(cell.set_value(10), false);
    assert_eq!(cell, Cell::new(4));
    assert_eq!(cell.set_value(6), true);
    assert_eq!(cell, Cell::new(6));
}

#[test]
fn setting_a_value_ignores_the_candidates_that_were_left() {
    let mut cell = Cell::new(0);
    cell.remove_possibility(4);
    assert_eq!(cell.set_value(4), true);
    assert_eq!(cell.get_value(), 4);
    assert_eq!(cell.possible_values(), vec![4]);
}
