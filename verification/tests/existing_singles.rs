use sudoku_utils::solving::strategies::eliminate_possibilities_using_existing_singles::EliminatePossibilitiesUsingExistingSingles;
use sudoku_utils::traits::SudokuTemplate;
use sudoku_utils::{Difficulty, Sudoku};

const EMPTY_SUDOKU: &str = "\
    .........\
    .........\
    .........\
    .........\
    .........\
    .........\
    .........\
    .........\
    .........\
";

const SUDOKU: &str = "\
    1........\
    .........\
    .........\
    .........\
    .........\
    .........\
    .........\
    .........\
    .........\
";

#[test]
fn in_rows_and_columns_correctly_removes_possibilities_for_existing_value() {
    // Given a sudoku with only one cell with a value in the first row and column.
    let mut sudoku = SudokuTemplate::from(SUDOKU.parse::<Sudoku>().unwrap());
    let original = sudoku.clone();

    // When I apply the strategy for rows and columns.
    let changed = EliminatePossibilitiesUsingExistingSingles::in_rows_and_columns(&mut sudoku);

    // Then the cell should not be changed, the value should be removed as a possibility from other cells in the
    // same row and column and all other cells should remain unchanged.
    assert_eq!(changed, true, "Sudoku template should have changed but was not.");
    assert_eq!(sudoku.cells[0][0].get_value(), 1, "The value at cell (0, 0) should be 1 but is not.");

    for x in 0..9 {
        for y in 0..9 {
            if (x, y) == (0, 0) {
                continue;
            } else if x == 0 || y == 0 {
                // For related cells:
                assert_eq!(
                    sudoku.cells[x][y].contains_possibility(1),
                    false,
                    "Cell at ({x}, {y}) still contains the value 1 as a possibility."
                );
            } else {
                // For unrelated cells:
                assert_eq!(sudoku.cells[x][y], original.cells[x][y], "Cell at ({x}, {y}) was changed.");
            }
        }
    }
}

#[test]
fn in_rows_and_columns_does_not_change_empty_sudoku() {
    // Given an empty sudoku.
    let mut sudoku = SudokuTemplate::from(EMPTY_SUDOKU.parse::<Sudoku>().unwrap());
    let original = sudoku.clone();

    // When I apply the strategy for rows and columns.
    let changed = EliminatePossibilitiesUsingExistingSingles::in_rows_and_columns(&mut sudoku);

    // Then the sudoku should not have changed.
    assert_eq!(changed, false, "Sudoku template should not have changed.");
    assert_eq!(sudoku, original, "Sudoku template should not have changed.");
}

#[test]
fn in_squares_correctly_removes_possibilities_for_existing_value() {
    // Given a sudoku with only one cell with a value in the first square.
    let mut sudoku = SudokuTemplate::from(SUDOKU.parse::<Sudoku>().unwrap());
    let original = sudoku.clone();

    // When I apply the strategy for squares.
    let changed = EliminatePossibilitiesUsingExistingSingles::in_squares(&mut sudoku);

    // Then the cell should not be changed, the value should be removed as a possibility from other cells in the
    // same square and all other cells should remain unchanged.
    assert_eq!(changed, true, "Sudoku template should have changed but was not.");
    assert_eq!(sudoku.cells[0][0].get_value(), 1, "The value at cell (0, 0) should be 1 but is not.");

    for x in 0..9 {
        for y in 0..9 {
            if (x, y) == (0, 0) {
                continue;
            } else if x < 3 && y < 3 {
                // For related cells:
                assert_eq!(
                    sudoku.cells[x][y].contains_possibility(1),
                    false,
                    "Cell at ({x}, {y}) still contains the value 1 as a possibility."
                );
            } else {
                // For unrelated cells:
                assert_eq!(sudoku.cells[x][y], original.cells[x][y], "Cell at ({x}, {y}) was changed.");
            }
        }
    }
}

#[test]
fn in_squares_does_not_change_empty_sudoku() {
    // Given an empty sudoku.
    let mut sudoku = SudokuTemplate::from(EMPTY_SUDOKU.parse::<Sudoku>().unwrap());
    let original = sudoku.clone();

    // When I apply the strategy for squares.
    let changed = EliminatePossibilitiesUsingExistingSingles::in_squares(&mut sudoku);

    // Then the sudoku should not have changed.
    assert_eq!(changed, false, "Sudoku template should not have changed.");
    assert_eq!(sudoku, original, "Sudoku template should not have changed.");
}

#[test]
fn eliminate_possibilities_using_existing_singles_solve_correctly_returns_changed_flag() {
    // Given a sudoku with some filled cells.
    let mut sudoku = SudokuTemplate::from(SUDOKU.parse::<Sudoku>().unwrap());

    // When I apply the strategy using solve(), then it should return true.
    assert_eq!(EliminatePossibilitiesUsingExistingSingles {}.solve(&mut sudoku), true);

    // Given an empty sudoku.
    let mut empty_sudoku = SudokuTemplate::from(EMPTY_SUDOKU.parse::<Sudoku>().unwrap());

    // When I apply the strategy using solve(), then it should return false.
    assert_eq!(EliminatePossibilitiesUsingExistingSingles {}.solve(&mut empty_sudoku), false);
}

#[test]
fn eliminate_possibilities_using_existing_singles_difficulty_is_easy() {
    assert_eq!(EliminatePossibilitiesUsingExistingSingles {}.difficulty(), Difficulty::Easy);
}

#[test]
fn a_given_digit_leaves_its_whole_row_column_and_box() {
    // Given a sudoku with a single 1 in the top left corner.
    let mut sudoku = SudokuTemplate::from(SUDOKU.parse::<Sudoku>().unwrap());

    // When the strategy is applied until it changes nothing.
    let strategy = EliminatePossibilitiesUsingExistingSingles {};
    while strategy.solve(&mut sudoku) {}

    // Then 1 is a candidate in no other cell of the first row, the first column and the first box, and it still
    // is in every cell beyond them.
    for x in 0..9 {
        for y in 0..9 {
            if (x, y) == (0, 0) {
                assert_eq!(sudoku.cells[x][y].possible_values(), vec![1]);
            } else if x == 0 || y == 0 || (x < 3 && y < 3) {
                assert_eq!(sudoku.cells[x][y].possible_values(), vec![2, 3, 4, 5, 6, 7, 8, 9]);
            } else {
                assert_eq!(sudoku.cells[x][y].possible_values(), vec![1, 2, 3, 4, 5, 6, 7, 8, 9]);
            }
        }
    }
}

#[test]
fn a_digit_given_in_every_row_start_leaves_the_first_row_column_and_box() {
    // Given a sudoku in which every row starts with a 1.
    let mut sudoku = SudokuTemplate::from("1........".repeat(9).parse::<Sudoku>().unwrap());

    // When the strategy is applied until it changes nothing.
    let strategy = EliminatePossibilitiesUsingExistingSingles {};
    while strategy.solve(&mut sudoku) {}

    // Then 1 is a candidate nowhere in the first row, the first column and the first box.
    for x in 0..9 {
        for y in 0..9 {
            if x == 0 || y == 0 || (x < 3 && y < 3) {
                assert_eq!(
                    sudoku.cells[x][y].contains_possibility(1),
                    false,
                    "Cell at ({x}, {y}) still contains the value 1 as a possibility."
                );
            }
        }
    }
    // The givens themselves lost their candidate to each other and kept their value.
    for x in 0..9 {
        assert_eq!(sudoku.cells[x][0].get_value(), 1);
        assert_eq!(sudoku.cells[x][0].possible_values(), Vec::<usize>::new());
    }
    assert_eq!(sudoku_utils::solve(&"1........".repeat(9).parse::<Sudoku>().unwrap()).to_string(), "1........".repeat(9));
}

#[test]
fn a_digit_given_twice_in_a_row_empties_both_cells() {
    // Given a row that holds 5 twice.
    let mut sudoku = SudokuTemplate::from(
        "5...5............................................................................"
            .parse::<Sudoku>()
            .unwrap(),
    );

    // When the strategy is applied until it changes nothing.
    let strategy = EliminatePossibilitiesUsingExistingSingles {};
    while strategy.solve(&mut sudoku) {}

    // Then both cells keep their value and have no candidate left.
    assert_eq!(sudoku.cells[0][0].get_value(), 5);
    assert_eq!(sudoku.cells[0][4].get_value(), 5);
    assert_eq!(sudoku.cells[0][0].possible_values(), Vec::<usize>::new());
    assert_eq!(sudoku.cells[0][4].possible_values(), Vec::<usize>::new());
}
