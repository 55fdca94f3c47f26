use sudoku_utils::solving::functions::{
    implemented_strategies, solve_with_difficulty, solve_with_guessing, solve_with_statistics,
    strategies_within,
};
use sudoku_utils::solving::traits::Strategy;
use sudoku_utils::traits::SudokuTemplate;
use sudoku_utils::{evaluate_difficulty, solve, Difficulty, Sudoku};

const EASY_SUDOKUS: [[&str; 2]; 3] = [
    [
        "53..7....6..195....98....6.8...6...34..8.3..17...2...6.6....28....419..5....8..79",
        "534678912672195348198342567859761423426853791713924856961537284287419635345286179",
    ],
    [
        "..1....8.4..63.........4......3...6...59...31..2..8..5.9.2.7....8..51..62......5.",
        "321579684458632179967184523179345862845926731632718945594267318783451296216893457",
    ],
    [
        "1....5.765...2..4......9..387............6.2...21...6.2.....9..9..3...18.6.......",
        "139845276587623149624719583876254391351986724492137865213468957945372618768591432",
    ],
];

const MEDIUM_SUDOKUS: [[&str; 2]; 3] = [
    [
        "....71..2..8....6.21...4..33.9.....6......3...674...9..9.8.7...4..1...27..3...6..",
        "634971582978325164215684973349218756521796348867453291192867435456139827783542619",
    ],
    [
        "8....3....7..683.............2.7.6.44....2......1..9.7..45...61..5........12..8..",
        "826753149179468352543921786912875634467392518358146927734589261285617493691234875",
    ],
    [
        "....6.7.......4.6....751.....35.....7.....82...2.495..6......58.3.......9.137....",
        "419268735578934261326751984893527416754613829162849573647192358235486197981375642",
    ],
];

const HARD_SUDOKUS: [[&str; 2]; 1] = [[
    "...543..7.4.6..8.....7..1...1.......5..2..3..8......5......97..3.512...62.4.7....",
    "128543967743691825956782143412835679569217384837964251681459732375128496294376518",
]];

const BEYOND_THE_STRATEGIES: &str =
    "..6415...4.........8.7.6.....4...81..31.7.26..65...9.....5.9.8.........3...8426..";

fn all_examples() -> Vec<[&'static str; 2]> {
    let mut examples = Vec::new();
    examples.extend_from_slice(&EASY_SUDOKUS);
    examples.extend_from_slice(&MEDIUM_SUDOKUS);
    examples.extend_from_slice(&HARD_SUDOKUS);
    examples
}

fn assert_solved_correctly(sudoku: &str, solution: &str) {
    assert_eq!(solve(&sudoku.parse::<Sudoku>().unwrap()).to_string(), solution)
}

/// Whether the digit of every cell is among the candidates of that cell.
fn fits(template: &SudokuTemplate, completion: &Sudoku) -> bool {
    let mut all = true;
    for x in 0..9 {
        for y in 0..9 {
            all &= template.cells[x][y].contains_possibility(completion.get_cells()[x][y]);
        }
    }
    all
}

#[test]
fn solve_fn_correctly_solves_sudokus() {
    for [sudoku, solution] in all_examples() {
        assert_solved_correctly(sudoku, solution);
    }
}

#[test]
fn solutions_are_complete_and_free_of_conflicts() {
    for [sudoku, solution] in all_examples() {
        let solved = solve(&sudoku.parse::<Sudoku>().unwrap());
        assert!(solved.is_complete());
        assert!(!solved.contains_conflicts());
        assert!(solved.is_solved());
        assert_eq!(solved, solution.parse::<Sudoku>().unwrap());
    }
}

#[test]
fn solving_a_solved_puzzle_changes_nothing() {
    for [sudoku, _] in all_examples() {
        let once = solve(&sudoku.parse::<Sudoku>().unwrap());
        let twice = solve(&once);
        assert_eq!(once, twice);
    }
    let stuck = solve(&BEYOND_THE_STRATEGIES.parse::<Sudoku>().unwrap());
    assert_eq!(solve(&stuck), stuck);
}

#[test]
fn solving_twice_can_differ_where_the_clues_contradict_each_other() {
    // Given a puzzle whose last row holds 9 twice.
    let puzzle = ".9..................6.59......9........1.........9..4..........6.3......7..9....9"
        .parse::<Sudoku>()
        .unwrap();
    assert!(puzzle.contains_conflicts());

    // Then the candidates that the first run lost to the contradiction are back in the second run, which gets
    // further with them.
    let once = solve(&puzzle);
    let twice = solve(&once);
    assert_eq!(
        once.to_string(),
        ".9.............9....6.59......9........1.........9..4..........6.3......7..9....9"
    );
    assert_eq!(
        twice.to_string(),
        ".9.............9....6.59......9........1...9.....9..4.9........6.3......7..9....9"
    );
}

#[test]
fn solving_keeps_the_clues() {
    for [sudoku, _] in all_examples() {
        let puzzle = sudoku.parse::<Sudoku>().unwrap();
        let solved = solve(&puzzle);
        for x in 0..9 {
            for y in 0..9 {
                if puzzle.get_cells()[x][y] != 0 {
                    assert_eq!(solved.get_cells()[x][y], puzzle.get_cells()[x][y]);
                }
            }
        }
    }
}

#[test]
fn solving_stops_where_the_strategies_end() {
    let puzzle = BEYOND_THE_STRATEGIES.parse::<Sudoku>().unwrap();
    let solved = solve(&puzzle);
    assert_eq!(
        solved.to_string(),
        "..6415..84..3.8..6.8.7.6.....46538178319742657652819346..539.8...8167..3...8426.."
    );
    assert!(!solved.is_complete());
    assert!(!solved.contains_conflicts());
    assert!(!solved.is_solved());
}

#[test]
fn every_strategy_only_removes_candidates_and_keeps_the_solution_possible() {
    for [sudoku, solution] in all_examples() {
        let solution = solution.parse::<Sudoku>().unwrap();
        let mut template = SudokuTemplate::from(sudoku.parse::<Sudoku>().unwrap());
        assert!(fits(&template, &solution));
        let strategies = implemented_strategies();
        let mut changed = true;
        while changed {
            changed = false;
            for strategy in strategies.iter() {
                let before = template.clone();
                let reported = strategy.solve(&mut template);
                assert_eq!(reported, before != template);
                for x in 0..9 {
                    for y in 0..9 {
                        for value in template.cells[x][y].possible_values() {
                            assert!(before.cells[x][y].contains_possibility(value));
                        }
                        if before.cells[x][y].is_set() {
                            assert_eq!(template.cells[x][y].get_value(), before.cells[x][y].get_value());
                        }
                    }
                }
                assert!(fits(&template, &solution));
                if reported {
                    changed = true;
                    break;
                }
            }
        }
        assert_eq!(Sudoku::from(template), solution);
    }
}

#[test]
fn strategies_are_tried_in_their_fixed_order() {
    assert_eq!(
        implemented_strategies(),
        vec![
            Strategy::ExistingSingles,
            Strategy::HiddenSingles,
            Strategy::Pointing,
            Strategy::NakedPairs,
            Strategy::HiddenGroups,
            Strategy::XWing,
            Strategy::YWing,
        ]
    );
    assert_eq!(
        strategies_within(Difficulty::Easy),
        vec![Strategy::ExistingSingles, Strategy::HiddenSingles]
    );
    assert_eq!(
        strategies_within(Difficulty::Medium),
        vec![
            Strategy::ExistingSingles,
            Strategy::HiddenSingles,
            Strategy::Pointing,
            Strategy::NakedPairs,
            Strategy::HiddenGroups,
        ]
    );
    assert_eq!(strategies_within(Difficulty::Hard), implemented_strategies());
}

#[test]
fn strategies_have_their_tiers_and_names() {
    let tiers: Vec<Difficulty> = implemented_strategies().iter().map(|s| s.difficulty()).collect();
    assert_eq!(
        tiers,
        vec![
            Difficulty::Easy,
            Difficulty::Easy,
            Difficulty::Medium,
            Difficulty::Medium,
            Difficulty::Medium,
            Difficulty::Hard,
            Difficulty::Hard,
        ]
    );
    assert_eq!(Strategy::Pointing.name(), "EliminatePossibilitiesByDetectingPointingGroups");
    assert_eq!(Strategy::XWing.name(), "EliminatePossibilitiesByDetectingXWingPatterns");
    assert!(Difficulty::Easy < Difficulty::Medium && Difficulty::Medium < Difficulty::Hard);
    assert_eq!(Difficulty::VALUES, [Difficulty::Easy, Difficulty::Medium, Difficulty::Hard]);
    assert!(Difficulty::Easy.at_most(Difficulty::Easy));
    assert!(Difficulty::Medium.at_most(Difficulty::Hard));
    assert!(!Difficulty::Hard.at_most(Difficulty::Medium));
    assert!(!Difficulty::Medium.at_most(Difficulty::Easy));
}

#[test]
fn a_lower_tier_leaves_harder_puzzles_unsolved() {
    let medium = MEDIUM_SUDOKUS[0][0].parse::<Sudoku>().unwrap();
    assert!(!solve_with_difficulty(&medium, Difficulty::Easy).is_solved());
    assert!(solve_with_difficulty(&medium, Difficulty::Medium).is_solved());
    let hard = HARD_SUDOKUS[0][0].parse::<Sudoku>().unwrap();
    assert!(!solve_with_difficulty(&hard, Difficulty::Easy).is_solved());
    assert!(!solve_with_difficulty(&hard, Difficulty::Medium).is_solved());
    assert!(solve_with_difficulty(&hard, Difficulty::Hard).is_solved());
}

#[test]
fn a_puzzle_solved_by_singles_alone_is_easy() {
    for [sudoku, _] in EASY_SUDOKUS {
        assert_eq!(evaluate_difficulty(&sudoku.parse::<Sudoku>().unwrap()), Some(Difficulty::Easy));
    }
}

#[test]
fn puzzles_are_graded_by_the_lowest_tier_that_solves_them() {
    for [sudoku, _] in MEDIUM_SUDOKUS {
        assert_eq!(evaluate_difficulty(&sudoku.parse::<Sudoku>().unwrap()), Some(Difficulty::Medium));
    }
    for [sudoku, _] in HARD_SUDOKUS {
        assert_eq!(evaluate_difficulty(&sudoku.parse::<Sudoku>().unwrap()), Some(Difficulty::Hard));
    }
}

#[test]
fn a_puzzle_beyond_the_strategies_has_no_grade() {
    assert_eq!(evaluate_difficulty(&BEYOND_THE_STRATEGIES.parse::<Sudoku>().unwrap()), None);
    assert_eq!(evaluate_difficulty(&Sudoku::empty()), None);
}

#[test]
fn statistics_count_the_strategy_that_changed_the_grid() {
    // An empty puzzle gives no strategy anything to do.
    let (solved, statistics) = solve_with_statistics(&Sudoku::empty());
    assert_eq!(solved, Sudoku::empty());
    assert_eq!(statistics, vec![0, 0, 0, 0, 0, 0, 0]);

    // A single given is struck from its row and column in the first round and from its box in the second.
    let one_given = "1................................................................................"
        .parse::<Sudoku>()
        .unwrap();
    let (solved, statistics) = solve_with_statistics(&one_given);
    assert_eq!(solved, one_given);
    assert_eq!(statistics, vec![2, 0, 0, 0, 0, 0, 0]);

    // An easy puzzle needs the strategies of the easy tier only, a hard one all of the hard tier.
    let (solved, statistics) = solve_with_statistics(&EASY_SUDOKUS[1][0].parse::<Sudoku>().unwrap());
    assert_eq!(solved.to_string(), EASY_SUDOKUS[1][1]);
    assert!(statistics[0] > 0 && statistics[1] > 0);
    assert_eq!(statistics[2..], [0, 0, 0, 0, 0]);
    let (solved, statistics) = solve_with_statistics(&HARD_SUDOKUS[0][0].parse::<Sudoku>().unwrap());
    assert_eq!(solved.to_string(), HARD_SUDOKUS[0][1]);
    assert!(statistics[5] > 0 && statistics[6] > 0);
}

#[test]
fn the_other_order_of_strategies_solves_the_examples_too() {
    for [sudoku, solution] in all_examples() {
        let solved = sudoku_utils::solving::solver::solve(&sudoku.parse::<Sudoku>().unwrap());
        assert_eq!(solved.to_string(), solution);
    }
}

#[test]
fn guessing_fills_every_cell_and_keeps_the_clues() {
    let puzzle = BEYOND_THE_STRATEGIES.parse::<Sudoku>().unwrap();
    for _ in 0..20 {
        let filled = solve_with_guessing(&puzzle);
        assert!(filled.is_complete());
        for x in 0..9 {
            for y in 0..9 {
                let digit = filled.get_cells()[x][y];
                assert!(1 <= digit && digit <= 9);
                if puzzle.get_cells()[x][y] != 0 {
                    assert_eq!(digit, puzzle.get_cells()[x][y]);
                }
            }
        }
    }
}

#[test]
fn guessing_keeps_what_the_strategies_find() {
    let puzzle = BEYOND_THE_STRATEGIES.parse::<Sudoku>().unwrap();
    let found = solve(&puzzle);
    for _ in 0..20 {
        let filled = solve_with_guessing(&puzzle);
        for x in 0..9 {
            for y in 0..9 {
                if found.get_cells()[x][y] != 0 {
                    assert_eq!(filled.get_cells()[x][y], found.get_cells()[x][y]);
                }
            }
        }
    }
    for [sudoku, solution] in all_examples() {
        assert_eq!(solve_with_guessing(&sudoku.parse::<Sudoku>().unwrap()).to_string(), solution);
    }
}

#[test]
fn a_complete_grid_with_a_repeated_digit_stays_as_it_is() {
    let ones = Sudoku::new([[1; 9]; 9]);
    let solved = solve(&ones);
    assert_eq!(solved, ones);
    assert!(solved.is_complete());
    assert!(solved.contains_conflicts());
    assert!(!solved.is_solved());
}

#[test]
fn values_above_nine_count_as_empty_cells() {
    let mut cells = [[0; 9]; 9];
    cells[0][0] = 10;
    cells[4][4] = 7;
    let solved = solve(&Sudoku::new(cells));
    assert_eq!(solved.get_cells()[0][0], 0);
    assert_eq!(solved.get_cells()[4][4], 7);
}
