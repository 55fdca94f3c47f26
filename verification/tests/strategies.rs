use sudoku_utils::solving::strategies::eliminate_possibilities_using_naked_pairs::EliminatePossibilitiesUsingNakedPairs;
use sudoku_utils::solving::strategies::eliminate_possibilities_using_pointing::EliminatePossibilitiesUsingPointing;
use sudoku_utils::solving::strategies::eliminate_possibilities_using_x_wing::EliminatePossibilitiesUsingXWing;
use sudoku_utils::solving::strategies::eliminate_possibilities_using_y_wing::EliminatePossibilitiesUsingYWing;
use sudoku_utils::solving::strategies::set_hidden_singles::{find_single, is_alone_in, visited_cell};
use sudoku_utils::solving::strategies::set_single_randomly::SetSingleRandomly;
use sudoku_utils::solving::traits::Strategy;
use sudoku_utils::traits::sudoku_template::UnitKind;
use sudoku_utils::traits::SudokuTemplate;
use sudoku_utils::{Difficulty, Sudoku};

const ALL: [usize; 9] = [1, 2, 3, 4, 5, 6, 7, 8, 9];

fn empty_template() -> SudokuTemplate {
    SudokuTemplate::from(Sudoku::empty())
}

fn without(digits: &[usize]) -> Vec<usize> {
    ALL.iter().copied().filter(|d| !digits.contains(d)).collect()
}

/// Checks that exactly the cells for which `expected` gives digits have lost these digits.
fn assert_only_lost(
    sudoku: &SudokuTemplate,
    original: &SudokuTemplate,
    expected: impl Fn(usize, usize) -> Vec<usize>,
) {
    for x in 0..9 {
        for y in 0..9 {
            let lost = expected(x, y);
            if lost.is_empty() {
                assert_eq!(sudoku.cells[x][y], original.cells[x][y], "Cell at ({x}, {y}) was changed.");
            } else {
                let left: Vec<usize> = original.cells[x][y]
                    .possible_values()
                    .into_iter()
                    .filter(|d| !lost.contains(d))
                    .collect();
                assert_eq!(sudoku.cells[x][y].possible_values(), left, "Cell at ({x}, {y}).");
            }
        }
    }
}

#[test]
fn a_digit_confined_to_one_box_of_a_row_leaves_the_rest_of_the_box() {
    // Given a grid in which 5 is possible in the first row only inside the first box.
    let mut sudoku = empty_template();
    for y in 3..9 {
        sudoku.cells[0][y].remove_possibility(5);
    }
    let original = sudoku.clone();

    // When the strategy is applied for rows and columns.
    let changed = EliminatePossibilitiesUsingPointing::in_rows_and_columns(&mut sudoku);

    // Then 5 has left the other two rows of the first box, and nothing else has changed.
    assert_eq!(changed, true);
    assert_only_lost(&sudoku, &original, |x, y| if (x == 1 || x == 2) && y < 3 { vec![5] } else { vec![] });
}

#[test]
fn a_digit_confined_to_one_box_of_a_column_leaves_the_rest_of_the_box() {
    // Given a grid in which 5 is possible in the last column only inside the middle box.
    let mut sudoku = empty_template();
    for x in [0, 1, 2, 6, 7, 8] {
        sudoku.cells[x][8].remove_possibility(5);
    }
    let original = sudoku.clone();

    // When the strategy is applied for rows and columns.
    let changed = EliminatePossibilitiesUsingPointing::in_rows_and_columns(&mut sudoku);

    // Then 5 has left the other two columns of that box, and nothing else has changed.
    assert_eq!(changed, true);
    assert_only_lost(&sudoku, &original, |x, y| {
        if (3..6).contains(&x) && (y == 6 || y == 7) {
            vec![5]
        } else {
            vec![]
        }
    });
}

#[test]
fn a_digit_confined_to_one_row_of_a_box_leaves_the_rest_of_the_row() {
    // Given a grid in which 5 is possible in the first box only in its first row.
    let mut sudoku = empty_template();
    for x in 1..3 {
        for y in 0..3 {
            sudoku.cells[x][y].remove_possibility(5);
        }
    }
    let original = sudoku.clone();

    // When the strategy is applied for boxes.
    let changed = EliminatePossibilitiesUsingPointing::in_squares(&mut sudoku);

    // Then 5 has left the first row outside of the box, and nothing else has changed.
    assert_eq!(changed, true);
    assert_only_lost(&sudoku, &original, |x, y| if x == 0 && y >= 3 { vec![5] } else { vec![] });
}

#[test]
fn a_digit_confined_to_one_column_of_a_box_leaves_the_rest_of_the_column() {
    // Given a grid in which 5 is possible in the last box only in its middle column.
    let mut sudoku = empty_template();
    for x in 6..9 {
        for y in [6, 8] {
            sudoku.cells[x][y].remove_possibility(5);
        }
    }
    let original = sudoku.clone();

    // When the strategy is applied for boxes.
    let changed = EliminatePossibilitiesUsingPointing::in_squares(&mut sudoku);

    // Then 5 has left the column outside of the box, and nothing else has changed.
    assert_eq!(changed, true);
    assert_only_lost(&sudoku, &original, |x, y| if y == 7 && x < 6 { vec![5] } else { vec![] });
}

#[test]
fn pointing_does_not_change_an_empty_grid() {
    let mut sudoku = empty_template();
    assert_eq!(EliminatePossibilitiesUsingPointing::in_rows_and_columns(&mut sudoku), false);
    assert_eq!(EliminatePossibilitiesUsingPointing::in_squares(&mut sudoku), false);
    assert_eq!(EliminatePossibilitiesUsingPointing {}.solve(&mut sudoku), false);
    assert_eq!(sudoku, empty_template());
    assert_eq!(EliminatePossibilitiesUsingPointing {}.difficulty(), Difficulty::Medium);
}

#[test]
fn a_naked_pair_in_a_row_leaves_the_rest_of_the_row() {
    // Given a grid in which the first two cells of the first row admit 1 and 2 only.
    let mut sudoku = empty_template();
    sudoku.cells[0][0].remove_possibilities_outside_of(&[1, 2]);
    sudoku.cells[0][1].remove_possibilities_outside_of(&[1, 2]);
    let original = sudoku.clone();

    // When the strategy is applied.
    let changed = EliminatePossibilitiesUsingNakedPairs::in_rows_and_columns(&mut sudoku);

    // Then 1 and 2 have left the rest of the first row, and nothing else has changed.
    assert_eq!(changed, true);
    assert_only_lost(&sudoku, &original, |x, y| if x == 0 && y >= 2 { vec![1, 2] } else { vec![] });
}

#[test]
fn a_naked_pair_in_a_column_leaves_the_rest_of_the_column() {
    // Given a grid in which two cells of the fifth column admit 3 and 8 only.
    let mut sudoku = empty_template();
    sudoku.cells[2][4].remove_possibilities_outside_of(&[3, 8]);
    sudoku.cells[7][4].remove_possibilities_outside_of(&[3, 8]);
    let original = sudoku.clone();

    // When the strategy is applied.
    let changed = EliminatePossibilitiesUsingNakedPairs {}.solve(&mut sudoku);

    // Then 3 and 8 have left the rest of the column, and nothing else has changed.
    assert_eq!(changed, true);
    assert_only_lost(&sudoku, &original, |x, y| {
        if y == 4 && x != 2 && x != 7 {
            vec![3, 8]
        } else {
            vec![]
        }
    });
}

#[test]
fn three_cells_with_the_same_pair_are_no_naked_pair() {
    let mut sudoku = empty_template();
    for y in 0..3 {
        sudoku.cells[0][y].remove_possibilities_outside_of(&[1, 2]);
    }
    let original = sudoku.clone();
    assert_eq!(EliminatePossibilitiesUsingNakedPairs::in_rows_and_columns(&mut sudoku), false);
    assert_eq!(sudoku, original);
    assert_eq!(EliminatePossibilitiesUsingNakedPairs {}.difficulty(), Difficulty::Medium);
}

#[test]
fn an_x_wing_leaves_its_columns_in_all_other_rows() {
    // Given a grid in which 7 is possible in the second and in the fifth row only in the columns 2 and 6.
    let mut sudoku = empty_template();
    for x in [1, 4] {
        for y in 0..9 {
            if y != 2 && y != 6 {
                sudoku.cells[x][y].remove_possibility(7);
            }
        }
    }
    let original = sudoku.clone();

    // When the strategy is applied.
    let changed = EliminatePossibilitiesUsingXWing::in_rows(&mut sudoku);

    // Then 7 has left the columns 2 and 6 in all other rows, and nothing else has changed.
    assert_eq!(changed, true);
    assert_only_lost(&sudoku, &original, |x, y| {
        if (y == 2 || y == 6) && x != 1 && x != 4 {
            vec![7]
        } else {
            vec![]
        }
    });
}

#[test]
fn two_rows_with_different_columns_are_no_x_wing() {
    let mut sudoku = empty_template();
    for y in 0..9 {
        if y != 2 && y != 6 {
            sudoku.cells[1][y].remove_possibility(7);
        }
        if y != 2 && y != 5 {
            sudoku.cells[4][y].remove_possibility(7);
        }
    }
    let original = sudoku.clone();
    assert_eq!(EliminatePossibilitiesUsingXWing {}.solve(&mut sudoku), false);
    assert_eq!(sudoku, original);
    assert_eq!(EliminatePossibilitiesUsingXWing {}.difficulty(), Difficulty::Hard);
}

#[test]
fn a_y_wing_strikes_the_common_candidate_where_both_wings_are_seen() {
    // Given a pivot with the candidates 1 and 2 in the corner, a wing with 1 and 3 in its row and a wing with 2
    // and 3 in its column.
    let mut sudoku = empty_template();
    sudoku.cells[0][0].remove_possibilities_outside_of(&[1, 2]);
    sudoku.cells[0][5].remove_possibilities_outside_of(&[1, 3]);
    sudoku.cells[5][0].remove_possibilities_outside_of(&[2, 3]);
    let original = sudoku.clone();

    // When the strategy is applied.
    let changed = EliminatePossibilitiesUsingYWing::everywhere(&mut sudoku);

    // Then 3 has left the one other cell that sees both wings, and nothing else has changed.
    assert_eq!(changed, true);
    assert_only_lost(&sudoku, &original, |x, y| if (x, y) == (5, 5) { vec![3] } else { vec![] });
}

#[test]
fn wings_without_a_pivot_are_no_y_wing() {
    let mut sudoku = empty_template();
    sudoku.cells[0][0].remove_possibilities_outside_of(&[1, 4]);
    sudoku.cells[0][5].remove_possibilities_outside_of(&[1, 3]);
    sudoku.cells[5][0].remove_possibilities_outside_of(&[2, 3]);
    let original = sudoku.clone();
    assert_eq!(EliminatePossibilitiesUsingYWing {}.solve(&mut sudoku), false);
    assert_eq!(sudoku, original);
    assert_eq!(EliminatePossibilitiesUsingYWing {}.difficulty(), Difficulty::Hard);
}

#[test]
fn cells_are_related_by_row_column_or_box() {
    assert!(EliminatePossibilitiesUsingYWing::are_cells_related((0, 0), (0, 8)));
    assert!(EliminatePossibilitiesUsingYWing::are_cells_related((0, 0), (8, 0)));
    assert!(EliminatePossibilitiesUsingYWing::are_cells_related((3, 3), (5, 5)));
    assert!(EliminatePossibilitiesUsingYWing::are_cells_related((4, 4), (4, 4)));
    assert!(!EliminatePossibilitiesUsingYWing::are_cells_related((2, 2), (3, 3)));
    assert!(!EliminatePossibilitiesUsingYWing::are_cells_related((0, 5), (5, 0)));
    assert!(EliminatePossibilitiesUsingYWing::are_cells_related((9, 9), (11, 11)));
    assert!(!EliminatePossibilitiesUsingYWing::are_cells_related((9, 9), (12, 12)));
}

#[test]
fn pairs_of_digits_are_compared_for_their_common_digit() {
    let common = EliminatePossibilitiesUsingYWing::have_only_one_common_element;
    assert!(common(&vec![1, 3], &vec![2, 3]));
    assert!(common(&vec![1, 3], &vec![1, 2]));
    assert!(common(&vec![1, 3], &vec![3, 4]));
    assert!(!common(&vec![1, 3], &vec![1, 3]));
    assert!(!common(&vec![1, 3], &vec![2, 4]));
    assert_eq!(EliminatePossibilitiesUsingYWing::get_common_element(&vec![1, 3], &vec![2, 3]), 3);
    assert_eq!(EliminatePossibilitiesUsingYWing::get_common_element(&vec![1, 3], &vec![1, 2]), 1);
    assert_eq!(EliminatePossibilitiesUsingYWing::get_common_element(&vec![1, 3], &vec![3, 4]), 3);
}

#[test]
fn a_single_is_looked_for_cell_by_cell() {
    let sudoku = SudokuTemplate::from(
        ".23......456......789............................................................"
            .parse::<Sudoku>()
            .unwrap(),
    );
    assert_eq!(visited_cell(false, 10), (1, 1));
    assert_eq!(visited_cell(true, 10), (0, 4));
    assert_eq!(find_single(&sudoku, true, 0), Some(1));
    assert_eq!(find_single(&sudoku, false, 0), None);
    assert_eq!(find_single(&sudoku, true, 1), None);
    assert_eq!(is_alone_in(&sudoku, UnitKind::Square, 0, 0, 1), true);
    assert_eq!(is_alone_in(&sudoku, UnitKind::Row, 0, 0, 1), false);
    assert_eq!(is_alone_in(&sudoku, UnitKind::Column, 0, 0, 1), false);
}

#[test]
fn each_strategy_can_be_applied_by_its_name() {
    // Given a grid with a single given.
    let puzzle = "1................................................................................"
        .parse::<Sudoku>()
        .unwrap();
    let mut sudoku = SudokuTemplate::from(puzzle);

    // Then the elimination by givens changes it, twice, and after that no strategy changes it any more.
    assert_eq!(Strategy::ExistingSingles.solve(&mut sudoku), true);
    assert_eq!(Strategy::ExistingSingles.solve(&mut sudoku), true);
    let settled = sudoku.clone();
    for strategy in [
        Strategy::ExistingSingles,
        Strategy::HiddenSingles,
        Strategy::Pointing,
        Strategy::NakedPairs,
        Strategy::HiddenGroups,
        Strategy::XWing,
        Strategy::YWing,
    ] {
        assert_eq!(strategy.solve(&mut sudoku), false);
        assert_eq!(sudoku, settled);
    }
}

#[test]
fn a_picked_cell_takes_the_picked_candidate() {
    // Given a grid whose first cell is set and whose second cell has lost the candidates 1 and 2.
    let mut sudoku = SudokuTemplate::from(
        "9................................................................................"
            .parse::<Sudoku>()
            .unwrap(),
    );
    sudoku.cells[0][1].remove_possibilities(&[1, 2]);
    let original = sudoku.clone();

    // When the first empty cell takes its third candidate.
    let changed = SetSingleRandomly::set_picked(&mut sudoku, 0, 2);

    // Then the second cell of the grid holds 5, and nothing else has changed.
    assert_eq!(changed, true);
    assert_eq!(sudoku.cells[0][1].get_value(), 5);
    assert_eq!(sudoku.cells[0][1].possible_values(), vec![5]);
    for x in 0..9 {
        for y in 0..9 {
            if (x, y) != (0, 1) {
                assert_eq!(sudoku.cells[x][y], original.cells[x][y]);
            }
        }
    }

    // And a pick beyond the empty cells or beyond the candidates changes nothing.
    let before = sudoku.clone();
    assert_eq!(SetSingleRandomly::set_picked(&mut sudoku, 79, 0), false);
    assert_eq!(SetSingleRandomly::set_picked(&mut sudoku, 0, 9), false);
    assert_eq!(sudoku, before);
    assert_eq!(SetSingleRandomly::set_picked(&mut sudoku, 78, 8), true);
    assert_eq!(sudoku.cells[8][8].get_value(), 9);
}

#[test]
fn a_guess_sets_one_empty_cell_to_one_of_its_candidates() {
    for _ in 0..50 {
        // Given a grid with some candidates removed.
        let mut sudoku = SudokuTemplate::from(
            "53..7....6..195....98....6.8...6...34..8.3..17...2...6.6....28....419..5....8..79"
                .parse::<Sudoku>()
                .unwrap(),
        );
        sudoku.cells[0][2].remove_possibilities(&without(&[1, 2, 4]));
        let original = sudoku.clone();

        // When a guess is made.
        let changed = SetSingleRandomly::make_a_guess(&mut sudoku);

        // Then exactly one cell changed: it was empty and now holds one of its candidates.
        assert_eq!(changed, true);
        let mut differing = 0;
        for x in 0..9 {
            for y in 0..9 {
                if sudoku.cells[x][y] != original.cells[x][y] {
                    differing += 1;
                    assert!(original.cells[x][y].is_empty());
                    assert!(sudoku.cells[x][y].is_set());
                    assert!(original.cells[x][y].contains_possibility(sudoku.cells[x][y].get_value()));
                    assert_eq!(sudoku.cells[x][y].possible_values(), vec![sudoku.cells[x][y].get_value()]);
                }
            }
        }
        assert_eq!(differing, 1);
    }
}

#[test]
fn guesses_do_not_always_pick_the_same_cell() {
    let mut first_cells = Vec::new();
    for _ in 0..40 {
        let mut sudoku = empty_template();
        SetSingleRandomly {}.solve(&mut sudoku);
        let set: Vec<(usize, usize)> = (0..81)
            .map(|p| (p / 9, p % 9))
            .filter(|&(x, y)| sudoku.cells[x][y].is_set())
            .collect();
        assert_eq!(set.len(), 1);
        if !first_cells.contains(&set[0]) {
            first_cells.push(set[0]);
        }
    }
    assert!(first_cells.len() > 1);
}

#[test]
fn nothing_is_guessed_in_a_full_grid() {
    let mut sudoku = SudokuTemplate::from(
        "534678912672195348198342567859761423426853791713924856961537284287419635345286179"
            .parse::<Sudoku>()
            .unwrap(),
    );
    let original = sudoku.clone();
    assert_eq!(SetSingleRandomly::make_a_guess(&mut sudoku), false);
    assert_eq!(sudoku, original);
    assert_eq!(SetSingleRandomly {}.difficulty(), Difficulty::Easy);
}
