use sudoku_utils::solving::strategies::set_naked_singles::SetNakedSingles;
use sudoku_utils::traits::SudokuTemplate;
use sudoku_utils::{Difficulty, Sudoku};

const SUDOKU_WITH_NAKED_SINGLE_IN_ROW: &str = "\
    .23456789\
    .........\
    .........\
    .........\
    .........\
    .........\
    .........\
    .........\
    .........\
";

const SUDOKU_WITH_NAKED_SINGLE_IN_COLUMN: &str = "\
    .........\
    2........\
    3........\
    4........\
    5........\
    6........\
    7........\
    8........\
    9........\
";

const SUDOKU_WITH_NAKED_SINGLE_IN_SQUARE: &str = "\
    .23......\
    456......\
    789......\
    .........\
    .........\
    .........\
    .........\
    .........\
    .........\
";

const SUDOKU_WITHOUT_NAKED_SINGLES: &str = "\
    123456789\
    ........1\
    ........2\
    ........3\
    ........4\
    ........5\
    ........6\
    ........7\
    ........8\
";

#[test]
fn in_rows_and_columns_correctly_sets_naked_single_in_rows() {
    // Given a sudoku with only one value missing in the first row.
    let mut sudoku = SudokuTemplate::from(SUDOKU_WITH_NAKED_SINGLE_IN_ROW.parse::<Sudoku>().unwrap());
    let original = sudoku.clone();

    // When I apply the strategy for rows.
    let changed = SetNakedSingles::in_rows_and_columns(&mut sudoku);

    // Then the missing value in the first row should be filled, and all other cells should remain unchanged.
    assert_eq!(changed, true);
    assert_eq!(sudoku.cells[0][0].get_value(), 1);

    for x in 0..9 {
        for y in 0..9 {
            if (x, y) == (0, 0) {
                continue;
            }
            assert_eq!(sudoku.cells[x][y], original.cells[x][y], "Cell at ({x}, {y}) was changed.");
        }
    }
}

#[test]
fn in_rows_and_columns_correctly_sets_naked_single_in_columns() {
    // Given a sudoku with only one value missing in the first column.
    let mut sudoku = SudokuTemplate::from(SUDOKU_WITH_NAKED_SINGLE_IN_COLUMN.parse::<Sudoku>().unwrap());
    let original = sudoku.clone();

    // When I apply the strategy for columns.
    let changed = SetNakedSingles::in_rows_and_columns(&mut sudoku);

    // Then the missing value in the first column should be filled, and all other cells should remain unchanged.
    assert_eq!(changed, true);
    assert_eq!(sudoku.cells[0][0].get_value(), 1);

    for x in 0..9 {
        for y in 0..9 {
            if (x, y) == (0, 0) {
                continue;
            }
            assert_eq!(sudoku.cells[x][y], original.cells[x][y], "Cell at ({x}, {y}) was changed.");
        }
    }
}

#[test]
fn in_rows_and_columns_does_not_modify_sudoku_without_naked_singles() {
    // Given a sudoku without naked singles.
    let mut sudoku = SudokuTemplate::from(SUDOKU_WITHOUT_NAKED_SINGLES.parse::<Sudoku>().unwrap());
    let original = sudoku.clone();

    // When I apply the strategy for rows and columns.
    let changed = SetNakedSingles::in_rows_and_columns(&mut sudoku);

    // Then the sudoku should remain unchanged.
    assert_eq!(changed, false);
    assert_eq!(sudoku, original);
}

#[test]
fn in_squares_correctly_sets_naked_single_in_squares() {
    // Given a sudoku with only one value missing in the first square.
    let mut sudoku = SudokuTemplate::from(SUDOKU_WITH_NAKED_SINGLE_IN_SQUARE.parse::<Sudoku>().unwrap());
    let original = sudoku.clone();

    // When I apply the strategy for squares.
    let changed = SetNakedSingles::in_squares(&mut sudoku);

    // Then the missing value in the first square should be filled, and all other cells should remain unchanged.
    assert_eq!(changed, true);
    assert_eq!(sudoku.cells[0][0].get_value(), 1);

    for x in 0..9 {
        for y in 0..9 {
            if (x, y) == (0, 0) {
                continue;
            }
            assert_eq!(sudoku.cells[x][y], original.cells[x][y], "Cell at ({x}, {y}) was changed.");
        }
    }
}

#[test]
fn in_squares_does_not_modify_sudoku_without_naked_singles() {
    // Given a sudoku without naked singles.
    let mut sudoku = SudokuTemplate::from(SUDOKU_WITHOUT_NAKED_SINGLES.parse::<Sudoku>().unwrap());
    let original = sudoku.clone();

    // When I apply the strategy for squares.
    let changed = SetNakedSingles::in_squares(&mut sudoku);

    // Then the sudoku should remain unchanged.
    assert_eq!(changed, false);
    assert_eq!(sudoku, original);
}

#[test]
fn set_naked_singles_solve_correctly_returns_changed_flag() {
    // Given sudokus with naked singles.
    let mut sudoku1 = SudokuTemplate::from(SUDOKU_WITH_NAKED_SINGLE_IN_ROW.parse::<Sudoku>().unwrap());
    let mut sudoku2 = SudokuTemplate::from(SUDOKU_WITH_NAKED_SINGLE_IN_COLUMN.parse::<Sudoku>().unwrap());
    let mut sudoku3 = SudokuTemplate::from(SUDOKU_WITH_NAKED_SINGLE_IN_SQUARE.parse::<Sudoku>().unwrap());

    // When I apply the strategy using solve(), then it should return true.
    assert_eq!(SetNakedSingles {}.solve(&mut sudoku1), true);
    assert_eq!(SetNakedSingles {}.solve(&mut sudoku2), true);
    assert_eq!(SetNakedSingles {}.solve(&mut sudoku3), true);

    // Given a sudoku without naked singles.
    let mut sudoku4 = SudokuTemplate::from(SUDOKU_WITHOUT_NAKED_SINGLES.parse::<Sudoku>().unwrap());

    // When I apply the strategy using solve(), then it should return false.
    assert_eq!(SetNakedSingles {}.solve(&mut sudoku4), false);
}

#[test]
fn set_naked_singles_difficulty_is_easy() {
    assert_eq!(SetNakedSingles {}.difficulty(), Difficulty::Easy);
}

#[test]
fn every_naked_single_is_set_in_one_sweep() {
    // Given a sudoku in which the first row and the last row both miss one value.
    let mut sudoku = SudokuTemplate::from(
        ".23456789...............................................................12345678."
            .parse::<Sudoku>()
            .unwrap(),
    );

    // When I apply the strategy once.
    let changed = SetNakedSingles {}.solve(&mut sudoku);

    // Then both are set.
    assert_eq!(changed, true);
    assert_eq!(sudoku.cells[0][0].get_value(), 1);
    assert_eq!(sudoku.cells[8][8].get_value(), 9);
}
