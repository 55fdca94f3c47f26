use std::time::{Duration, Instant};
use sudoku_utils::generating::functions::{
    all_used, filled_cells, first_removable, generate_completed_sudoku, has_difficulty, remove_cell,
    remove_cells,
};
use sudoku_utils::solving::functions::solve_with_statistics;
use sudoku_utils::{
    evaluate_difficulty, generate_sudoku, generate_sudoku_with_difficulty, solve, Difficulty, Sudoku,
};

const PUZZLE: &str = "53..7....6..195....98....6.8...6...34..8.3..17...2...6.6....28....419..5....8..79";
const SOLUTION: &str = "534678912672195348198342567859761423426853791713924856961537284287419635345286179";

/// Checks that no clue can be taken from the puzzle without the strategies failing on the rest.
fn assert_minimal(sudoku: &Sudoku) {
    assert!(solve(sudoku).is_solved());
    for cell in filled_cells(sudoku) {
        assert!(!solve(&remove_cell(sudoku, cell)).is_solved());
    }
}

/// Generates with the given difficulty until a puzzle comes or the time is over.
fn generate_for_a_while(difficulty: Difficulty, seconds: u64) -> Option<Sudoku> {
    let start = Instant::now();
    while start.elapsed() < Duration::from_secs(seconds) {
        if let Some(sudoku) = generate_sudoku_with_difficulty(difficulty, 10) {
            return Some(sudoku);
        }
    }
    None
}

#[test]
fn a_removed_cell_is_empty_and_all_others_stay() {
    let sudoku = PUZZLE.parse::<Sudoku>().unwrap();
    let reduced = remove_cell(&sudoku, (1, 3));
    assert_eq!(
        reduced.to_string(),
        "53..7....6...95....98....6.8...6...34..8.3..17...2...6.6....28....419..5....8..79"
    );
    assert_eq!(remove_cell(&sudoku, (0, 2)), sudoku);
}

#[test]
fn the_filled_cells_are_listed_row_by_row() {
    assert_eq!(filled_cells(&Sudoku::empty()), vec![]);
    let mut cells = [[0; 9]; 9];
    cells[8][0] = 3;
    cells[0][8] = 4;
    cells[4][4] = 5;
    assert_eq!(filled_cells(&Sudoku::new(cells)), vec![(0, 8), (4, 4), (8, 0)]);
    assert_eq!(filled_cells(&SOLUTION.parse::<Sudoku>().unwrap()).len(), 81);
}

#[test]
fn the_first_removable_cell_is_found_in_the_given_order() {
    let solution = SOLUTION.parse::<Sudoku>().unwrap();
    // From a full grid every cell can be taken.
    assert_eq!(first_removable(&solution, &vec![(3, 3), (0, 0)]), Some(0));
    assert_eq!(first_removable(&solution, &vec![]), None);
    // From an empty grid nothing can be taken so that the rest is solved.
    assert_eq!(first_removable(&Sudoku::empty(), &vec![(0, 0), (1, 1)]), None);
}

#[test]
fn clues_are_removed_until_none_can_go() {
    let solution = SOLUTION.parse::<Sudoku>().unwrap();
    for _ in 0..3 {
        let reduced = remove_cells(&solution);
        assert_eq!(solve(&reduced), solution);
        for x in 0..9 {
            for y in 0..9 {
                let digit = reduced.get_cells()[x][y];
                assert!(digit == 0 || digit == solution.get_cells()[x][y]);
            }
        }
        assert!(filled_cells(&reduced).len() < 81);
        assert_minimal(&reduced);
    }
}

#[test]
fn clues_are_removed_in_random_order() {
    let solution = SOLUTION.parse::<Sudoku>().unwrap();
    let first = remove_cells(&solution);
    let mut differs = false;
    for _ in 0..20 {
        differs |= remove_cells(&solution) != first;
    }
    assert!(differs);
}

#[test]
fn a_puzzle_that_the_strategies_do_not_solve_loses_no_clue() {
    let mut cells = [[0; 9]; 9];
    cells[0][0] = 1;
    cells[5][5] = 2;
    let sudoku = Sudoku::new(cells);
    assert_eq!(remove_cells(&sudoku), sudoku);
}

#[test]
fn a_completed_grid_is_solved() {
    for _ in 0..5 {
        if let Some(sudoku) = generate_completed_sudoku(100) {
            assert!(sudoku.is_complete());
            assert!(!sudoku.contains_conflicts());
            assert!(sudoku.is_solved());
        }
    }
    assert_eq!(generate_completed_sudoku(0), None);
}

#[test]
fn a_generated_puzzle_is_solved_by_the_strategies_and_minimal() {
    for _ in 0..3 {
        if let Some(sudoku) = generate_sudoku(100) {
            assert!(!sudoku.is_complete());
            assert!(!sudoku.contains_conflicts());
            assert!(evaluate_difficulty(&sudoku).is_some());
            assert_minimal(&sudoku);
        }
    }
    assert_eq!(generate_sudoku(0), None);
}

#[test]
fn a_generated_hard_puzzle_is_graded_hard() {
    if let Some(sudoku) = generate_for_a_while(Difficulty::Hard, 12) {
        assert_eq!(evaluate_difficulty(&sudoku), Some(Difficulty::Hard));
        let solved = solve(&sudoku);
        assert!(solved.is_complete());
        assert!(!solved.contains_conflicts());
        let (_, statistics) = solve_with_statistics(&sudoku);
        assert!(statistics[5] > 0 && statistics[6] > 0);
    }
}

#[test]
fn a_generated_puzzle_has_the_difficulty_asked_for() {
    for difficulty in [Difficulty::Easy, Difficulty::Medium] {
        if let Some(sudoku) = generate_for_a_while(difficulty, 6) {
            assert_eq!(evaluate_difficulty(&sudoku), Some(difficulty));
            assert!(solve(&sudoku).is_solved());
            let (_, statistics) = solve_with_statistics(&sudoku);
            assert!(all_used(&statistics, difficulty));
        }
    }
    assert_eq!(generate_sudoku_with_difficulty(Difficulty::Hard, 0), None);
}

#[test]
fn a_puzzle_has_a_difficulty_if_its_grade_is_that_and_the_whole_tier_is_used() {
    // Solved by the elimination by givens alone: graded easy, but the placement of singles is never applied.
    let givens_only = PUZZLE.parse::<Sudoku>().unwrap();
    assert_eq!(evaluate_difficulty(&givens_only), Some(Difficulty::Easy));
    assert!(!has_difficulty(&givens_only, Difficulty::Easy));
    assert!(!has_difficulty(&givens_only, Difficulty::Medium));

    // Solved by both strategies of the easy tier.
    let easy = "..1....8.4..63.........4......3...6...59...31..2..8..5.9.2.7....8..51..62......5."
        .parse::<Sudoku>()
        .unwrap();
    assert!(has_difficulty(&easy, Difficulty::Easy));
    assert!(!has_difficulty(&easy, Difficulty::Medium));
    assert!(!has_difficulty(&easy, Difficulty::Hard));

    // Solved only with both strategies of the hard tier.
    let hard = "...543..7.4.6..8.....7..1...1.......5..2..3..8......5......97..3.512...62.4.7...."
        .parse::<Sudoku>()
        .unwrap();
    assert!(has_difficulty(&hard, Difficulty::Hard));
    assert!(!has_difficulty(&hard, Difficulty::Medium));
    assert!(!has_difficulty(&hard, Difficulty::Easy));

    // Solved by no tier.
    assert!(!has_difficulty(&Sudoku::empty(), Difficulty::Easy));
    assert!(!has_difficulty(&Sudoku::empty(), Difficulty::Hard));
}

#[test]
fn strategies_of_a_tier_are_used_if_all_their_counts_are_positive() {
    assert!(all_used(&vec![1, 1, 0, 0, 0, 0, 0], Difficulty::Easy));
    assert!(!all_used(&vec![1, 0, 5, 5, 5, 5, 5], Difficulty::Easy));
    assert!(all_used(&vec![0, 0, 1, 2, 3, 0, 0], Difficulty::Medium));
    assert!(!all_used(&vec![9, 9, 1, 0, 3, 9, 9], Difficulty::Medium));
    assert!(all_used(&vec![0, 0, 0, 0, 0, 1, 1], Difficulty::Hard));
    assert!(!all_used(&vec![9, 9, 9, 9, 9, 1, 0], Difficulty::Hard));
}
