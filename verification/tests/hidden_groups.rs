use sudoku_utils::solving::strategies::eliminate_possibilities_using_existing_singles::EliminatePossibilitiesUsingExistingSingles;
use sudoku_utils::solving::strategies::eliminate_possibilities_using_hidden_groups::EliminatePossibilitiesUsingHiddenGroups;
use sudoku_utils::traits::SudokuTemplate;
use sudoku_utils::{Difficulty, Sudoku};

const SUDOKU_WITHOUT_HIDDEN_GROUP: &str = "\
    .........\
    .........\
    .........\
    .........\
    .........\
    .........\
    .........\
    .........\
    .........\
";

/// Cleans up a sudoku template by removing possibilities of empty cells by using existing values.
fn clean(sudoku: &mut SudokuTemplate) {
    let cleaner = EliminatePossibilitiesUsingExistingSingles {};
    while cleaner.solve(sudoku) {}
}

fn as_template(string: &str) -> SudokuTemplate {
    let mut sudoku = SudokuTemplate::from(string.parse::<Sudoku>().unwrap());
    clean(&mut sudoku);
    sudoku
}

const SUDOKU_WITH_HIDDEN_PAIR_IN_ROW: &str = "\
    ..34567..\
    89.......\
    .........\
    .........\
    .........\
    .........\
    .........\
    .........\
    .........\
";

const SUDOKU_WITH_HIDDEN_TRIPLE_IN_ROW: &str = "\
    ...456...\
    78.......\
    ..9......\
    .........\
    .........\
    .........\
    .........\
    .........\
    .........\
";

const SUDOKU_WITH_HIDDEN_QUAD_IN_ROW: &str = "\
    ...45....\
    78.......\
    .69......\
    .........\
    .........\
    .........\
    .........\
    .........\
    .........\
";

#[test]
fn in_rows_correctly_processes_hidden_pair() {
    // Given a sudoku with the hidden pair (8, 9) in the last two cells of the first row.
    let mut sudoku = as_template(SUDOKU_WITH_HIDDEN_PAIR_IN_ROW);
    let original = sudoku.clone();

    // When the strategy is applied for rows.
    let changed = EliminatePossibilitiesUsingHiddenGroups::in_rows(&mut sudoku);

    // Then the last two cells of the first row should only contain 8 and 9 as possible values and other
    // cells in the sudoku should remain unchanged.
    assert_eq!(changed, true, "Sudoku template should have changed but was not.");
    assert_ne!(original, sudoku, "Sudoku template should have changed but was not.");

    for x in 0..9 {
        for y in 0..9 {
            if (x, y) == (0, 7) || (x, y) == (0, 8) {
                // For the cells containing the hidden group:
                assert_eq!(
                    sudoku.cells[x][y].possible_values(),
                    vec![8, 9],
                    "Cell at ({x}, {y}) does not contain only [8, 9] as possible values."
                );
            } else {
                // For all other cells:
                assert_eq!(sudoku.cells[x][y], original.cells[x][y], "Cell at ({x}, {y}) was changed.")
            }
        }
    }
}

#[test]
fn in_rows_correctly_processes_hidden_triple() {
    // Given a sudoku with the hidden triple (7, 8, 9) in the last three cells of the first row.
    let mut sudoku = as_template(SUDOKU_WITH_HIDDEN_TRIPLE_IN_ROW);
    let original = sudoku.clone();

    // When the strategy is applied for rows.
    let changed = EliminatePossibilitiesUsingHiddenGroups::in_rows(&mut sudoku);

    // Then the last three cells of the first row should only contain 7, 8 and 9 as possible values and other
    // cells in the sudoku should remain unchanged.
    assert_eq!(changed, true, "Sudoku template should have changed but was not.");
    assert_ne!(original, sudoku, "Sudoku template should have changed but was not.");

    for x in 0..9 {
        for y in 0..9 {
            if (x, y) == (0, 6) || (x, y) == (0, 7) || (x, y) == (0, 8) {
                // For the cells containing the hidden group:
                assert_eq!(
                    sudoku.cells[x][y].possible_values(),
                    vec![7, 8, 9],
                    "Cell at ({x}, {y}) does not contain only [7, 8, 9] as possible values."
                );
            } else {
                // For all other cells:
                assert_eq!(sudoku.cells[x][y], original.cells[x][y], "Cell at ({x}, {y}) was changed.")
            }
        }
    }
}

#[test]
fn in_rows_correctly_processes_hidden_quad() {
    // Given a sudoku with the hidden quad (6, 7, 8, 9) in the last four cells of the first row.
    let mut sudoku = as_template(SUDOKU_WITH_HIDDEN_QUAD_IN_ROW);
    let original = sudoku.clone();

    // When the strategy is applied for rows.
    let changed = EliminatePossibilitiesUsingHiddenGroups::in_rows(&mut sudoku);

    // Then the last four cells of the first row should only contain 6, 7, 8 and 9 as possible values and other
    // cells in the sudoku should remain unchanged.
    assert_eq!(changed, true, "Sudoku template should have changed but was not.");
    assert_ne!(original, sudoku, "Sudoku template should have changed but was not.");

    for x in 0..9 {
        for y in 0..9 {
            if (x, y) == (0, 5) || (x, y) == (0, 6) || (x, y) == (0, 7) || (x, y) == (0, 8) {
                // For the cells containing the hidden group:
                assert_eq!(
                    sudoku.cells[x][y].possible_values(),
                    vec![6, 7, 8, 9],
                    "Cell at ({x}, {y}) does not contain only [6, 7, 8, 9] as possible values."
                );
            } else {
                // For all other cells:
                assert_eq!(sudoku.cells[x][y], original.cells[x][y], "Cell at ({x}, {y}) was changed.")
            }
        }
    }
}

#[test]
fn in_rows_does_not_change_sudoku_without_hidden_groups() {
    // Given a sudoku without hidden groups.
    let mut sudoku = as_template(SUDOKU_WITHOUT_HIDDEN_GROUP);
    let original = sudoku.clone();

    // When the strategy is applied for rows.
    let changed = EliminatePossibilitiesUsingHiddenGroups::in_rows(&mut sudoku);

    // Then the sudoku should not change.
    assert_eq!(changed, false, "Sudoku template should not have changed.");
    assert_eq!(sudoku, original, "Sudoku template should not have changed.");
}

const SUDOKU_WITH_HIDDEN_PAIR_IN_COLUMN: &str = "\
    .89......\
    .........\
    3........\
    4........\
    5........\
    6........\
    7........\
    .........\
    .........\
";

const SUDOKU_WITH_HIDDEN_TRIPLE_IN_COLUMN: &str = "\
    ..7......\
    .8.......\
    ..9......\
    4........\
    5........\
    6........\
    .........\
    .........\
    .........\
";

const SUDOKU_WITH_HIDDEN_QUAD_IN_COLUMN: &str = "\
    .7.......\
    .86......\
    ..9......\
    4........\
    5........\
    .........\
    .........\
    .........\
    .........\
";

#[test]
fn in_columns_correctly_processes_hidden_pair() {
    // Given a sudoku with the hidden pair (8, 9) in the last two cells of the first column.
    let mut sudoku = as_template(SUDOKU_WITH_HIDDEN_PAIR_IN_COLUMN);
    let original = sudoku.clone();

    // When the strategy is applied for columns.
    let changed = EliminatePossibilitiesUsingHiddenGroups::in_columns(&mut sudoku);

    // Then the last two cells of the first column should only contain 8 and 9 as possible values and other
    // cells in the sudoku should remain unchanged.
    assert_eq!(changed, true, "Sudoku template should have changed but was not.");
    assert_ne!(original, sudoku, "Sudoku template should have changed but was not.");

    for x in 0..9 {
        for y in 0..9 {
            if (x, y) == (7, 0) || (x, y) == (8, 0) {
                // For the cells containing the hidden group:
                assert_eq!(
                    sudoku.cells[x][y].possible_values(),
                    vec![8, 9],
                    "Cell at ({x}, {y}) does not contain only [8, 9] as possible values."
                );
            } else {
                // For all other cells:
                assert_eq!(sudoku.cells[x][y], original.cells[x][y], "Cell at ({x}, {y}) was changed.")
            }
        }
    }
}

#[test]
fn in_columns_correctly_processes_hidden_triple() {
    // Given a sudoku with the hidden triple (7, 8, 9) in the last three cells of the first column.
    let mut sudoku = as_template(SUDOKU_WITH_HIDDEN_TRIPLE_IN_COLUMN);
    let original = sudoku.clone();

    // When the strategy is applied for columns.
    let changed = EliminatePossibilitiesUsingHiddenGroups::in_columns(&mut sudoku);

    // Then the last three cells of the first column should only contain 7, 8 and 9 as possible values and other
    // cells in the sudoku should remain unchanged.
    assert_eq!(changed, true, "Sudoku template should have changed but was not.");
    assert_ne!(original, sudoku, "Sudoku template should have changed but was not.");

    for x in 0..9 {
        for y in 0..9 {
            if (x, y) == (6, 0) || (x, y) == (7, 0) || (x, y) == (8, 0) {
                // For the cells containing the hidden group:
                assert_eq!(
                    sudoku.cells[x][y].possible_values(),
                    vec![7, 8, 9],
                    "Cell at ({x}, {y}) does not contain only [7, 8, 9] as possible values."
                );
            } else {
                // For all other cells:
                assert_eq!(sudoku.cells[x][y], original.cells[x][y], "Cell at ({x}, {y}) was changed.")
            }
        }
    }
}

#[test]
fn in_columns_correctly_processes_hidden_quad() {
    // Given a sudoku with the hidden quad (6, 7, 8, 9) in the last four cells of the first column.
    let mut sudoku = as_template(SUDOKU_WITH_HIDDEN_QUAD_IN_COLUMN);
    let original = sudoku.clone();

    // When the strategy is applied for columns.
    let changed = EliminatePossibilitiesUsingHiddenGroups::in_columns(&mut sudoku);

    // Then the last four cells of the first column should only contain 6, 7, 8 and 9 as possible values and other
    // cells in the sudoku should remain unchanged.
    assert_eq!(changed, true, "Sudoku template should have changed but was not.");
    assert_ne!(original, sudoku, "Sudoku template should have changed but was not.");

    for x in 0..9 {
        for y in 0..9 {
            if (x, y) == (5, 0) || (x, y) == (6, 0) || (x, y) == (7, 0) || (x, y) == (8, 0) {
                // For the cells containing the hidden group:
                assert_eq!(
                    sudoku.cells[x][y].possible_values(),
                    vec![6, 7, 8, 9],
                    "Cell at ({x}, {y}) does not contain only [6, 7, 8, 9] as possible values."
                );
            } else {
                // For all other cells:
                assert_eq!(sudoku.cells[x][y], original.cells[x][y], "Cell at ({x}, {y}) was changed.")
            }
        }
    }
}

#[test]
fn in_columns_does_not_change_sudoku_without_hidden_groups() {
    // Given a sudoku without hidden groups.
    let mut sudoku = as_template(SUDOKU_WITHOUT_HIDDEN_GROUP);
    let original = sudoku.clone();

    // When the strategy is applied for columns.
    let changed = EliminatePossibilitiesUsingHiddenGroups::in_columns(&mut sudoku);

    // Then the sudoku should not change.
    assert_eq!(changed, false, "Sudoku template should not have changed.");
    assert_eq!(sudoku, original, "Sudoku template should not have changed.");
}

const SUDOKU_WITH_HIDDEN_PAIR_IN_SQUARE: &str = "\
    ..3....89\
    456......\
    7........\
    .........\
    .........\
    .........\
    .........\
    .........\
    .........\
";

const SUDOKU_WITH_HIDDEN_TRIPLE_IN_SQUARE: &str = "\
    .....789.\
    456......\
    .........\
    .........\
    .........\
    .........\
    .........\
    .........\
    .........\
";

const SUDOKU_WITH_HIDDEN_QUAD_IN_SQUARE: &str = "\
    ....6789.\
    45.......\
    .........\
    .........\
    .........\
    .........\
    .........\
    .........\
    .........\
";

#[test]
fn in_squares_correctly_processes_hidden_pair() {
    // Given a sudoku with the hidden pair (8, 9) in the last two cells of the first square.
    let mut sudoku = as_template(SUDOKU_WITH_HIDDEN_PAIR_IN_SQUARE);
    let original = sudoku.clone();

    // When the strategy is applied for squares.
    let changed = EliminatePossibilitiesUsingHiddenGroups::in_squares(&mut sudoku);

    // Then the last two cells of the first square should only contain 8 and 9 as possible values and other
    // cells in the sudoku should remain unchanged.
    assert_eq!(changed, true, "Sudoku template should have changed but was not.");
    assert_ne!(original, sudoku, "Sudoku template should have changed but was not.");

    for x in 0..9 {
        for y in 0..9 {
            if (x, y) == (2, 1) || (x, y) == (2, 2) {
                // For the cells containing the hidden group:
                assert_eq!(
                    sudoku.cells[x][y].possible_values(),
                    vec![8, 9],
                    "Cell at ({x}, {y}) does not contain only [8, 9] as possible values."
                );
            } else {
                // For all other cells:
                assert_eq!(sudoku.cells[x][y], original.cells[x][y], "Cell at ({x}, {y}) was changed.")
            }
        }
    }
}

#[test]
fn in_squares_correctly_processes_hidden_triple() {
    // Given a sudoku with the hidden triple (7, 8, 9) in the last three cells of the first square.
    let mut sudoku = as_template(SUDOKU_WITH_HIDDEN_TRIPLE_IN_SQUARE);
    let original = sudoku.clone();

    // When the strategy is applied for squares.
    let changed = EliminatePossibilitiesUsingHiddenGroups::in_squares(&mut sudoku);

    // Then the last three cells of the first square should only contain 7, 8 and 9 as possible values and other
    // cells in the sudoku should remain unchanged.
    assert_eq!(changed, true, "Sudoku template should have changed but was not.");
    assert_ne!(original, sudoku, "Sudoku template should have changed but was not.");

    for x in 0..9 {
        for y in 0..9 {
            if (x, y) == (2, 0) || (x, y) == (2, 1) || (x, y) == (2, 2) {
                // For the cells containing the hidden group:
                assert_eq!(
                    sudoku.cells[x][y].possible_values(),
                    vec![7, 8, 9],
                    "Cell at ({x}, {y}) does not contain only [7, 8, 9] as possible values."
                );
            } else {
                // For all other cells:
                assert_eq!(sudoku.cells[x][y], original.cells[x][y], "Cell at ({x}, {y}) was changed.")
            }
        }
    }
}

#[test]
fn in_squares_correctly_processes_hidden_quad() {
    // Given a sudoku with the hidden quad (6, 7, 8, 9) in the last four cells of the first square.
    let mut sudoku = as_template(SUDOKU_WITH_HIDDEN_QUAD_IN_SQUARE);
    let original = sudoku.clone();

    // When the strategy is applied for squares.
    let changed = EliminatePossibilitiesUsingHiddenGroups::in_squares(&mut sudoku);

    // Then the last four cells of the first square should only contain 6, 7, 8 and 9 as possible values and other
    // cells in the sudoku should remain unchanged.
    assert_eq!(changed, true, "Sudoku template should have changed but was not.");
    assert_ne!(original, sudoku, "Sudoku template should have changed but was not.");

    for x in 0..9 {
        for y in 0..9 {
            if (x, y) == (1, 2) || (x, y) == (2, 0) || (x, y) == (2, 1) || (x, y) == (2, 2) {
                // For the cells containing the hidden group:
                assert_eq!(
                    sudoku.cells[x][y].possible_values(),
                    vec![6, 7, 8, 9],
                    "Cell at ({x}, {y}) does not contain only [6, 7, 8, 9] as possible values."
                );
            } else {
                // For all other cells:
                assert_eq!(sudoku.cells[x][y], original.cells[x][y], "Cell at ({x}, {y}) was changed.")
            }
        }
    }
}

#[test]
fn in_squares_does_not_change_sudoku_without_hidden_groups() {
    // Given a sudoku without hidden groups.
    let mut sudoku = as_template(SUDOKU_WITHOUT_HIDDEN_GROUP);
    let original = sudoku.clone();

    // When the strategy is applied for squares.
    let changed = EliminatePossibilitiesUsingHiddenGroups::in_squares(&mut sudoku);

    // Then the sudoku should not change.
    assert_eq!(changed, false, "Sudoku template should not have changed.");
    assert_eq!(sudoku, original, "Sudoku template should not have changed.");
}

#[test]
fn hidden_groups_are_of_medium_difficulty() {
    assert_eq!(EliminatePossibilitiesUsingHiddenGroups {}.difficulty(), Difficulty::Medium);
}

#[test]
fn solve_stops_after_the_rows_when_they_changed() {
    // Given a sudoku with a hidden pair in the first row and another in the first column.
    let mut sudoku = as_template(
        "..34567..\
         89.......\
         3........\
         4........\
         5........\
         6........\
         7........\
         .........\
         .........",
    );
    let mut rows_only = sudoku.clone();

    // When the whole strategy is applied once, and the search in rows alone to a copy.
    let changed = EliminatePossibilitiesUsingHiddenGroups {}.solve(&mut sudoku);
    EliminatePossibilitiesUsingHiddenGroups::in_rows(&mut rows_only);

    // Then the strategy has done what the search in rows does, and no more.
    assert_eq!(changed, true);
    assert_eq!(sudoku, rows_only);
}
