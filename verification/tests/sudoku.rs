use sudoku_utils::traits::sudoku_template::UnitKind;
use sudoku_utils::traits::SudokuTemplate;
use sudoku_utils::validator::is_valid;
use sudoku_utils::{Sudoku, SudokuStrParsingError};

const PUZZLE: &str = "53..7....6..195....98....6.8...6...34..8.3..17...2...6.6....28....419..5....8..79";
const SOLUTION: &str = "534678912672195348198342567859761423426853791713924856961537284287419635345286179";

#[test]
fn a_text_of_81_characters_is_read_row_by_row() {
    let sudoku = PUZZLE.parse::<Sudoku>().unwrap();
    assert_eq!(
        sudoku.get_cells(),
        &[
            [5, 3, 0, 0, 7, 0, 0, 0, 0],
            [6, 0, 0, 1, 9, 5, 0, 0, 0],
            [0, 9, 8, 0, 0, 0, 0, 6, 0],
            [8, 0, 0, 0, 6, 0, 0, 0, 3],
            [4, 0, 0, 8, 0, 3, 0, 0, 1],
            [7, 0, 0, 0, 2, 0, 0, 0, 6],
            [0, 6, 0, 0, 0, 0, 2, 8, 0],
            [0, 0, 0, 4, 1, 9, 0, 0, 5],
            [0, 0, 0, 0, 8, 0, 0, 7, 9],
        ]
    );
    assert_eq!(sudoku.get(1, 3), 1);
    assert_eq!(Sudoku::parse(PUZZLE), Ok(sudoku));
}

#[test]
fn every_character_that_is_no_digit_from_1_to_9_is_an_empty_cell() {
    let text = "0.x -_?*#ab".to_string() + &"1".repeat(70);
    let sudoku = text.parse::<Sudoku>().unwrap();
    for y in 0..9 {
        assert_eq!(sudoku.get_cells()[0][y], 0);
    }
    assert_eq!(sudoku.get_cells()[1][0], 0);
    assert_eq!(sudoku.get_cells()[1][1], 0);
    assert_eq!(sudoku.get_cells()[1][2], 1);
    assert_eq!(sudoku.to_string(), ".".repeat(11) + &"1".repeat(70));
}

#[test]
fn a_text_that_is_not_81_characters_long_is_refused() {
    assert!("12345".parse::<Sudoku>().is_err());
    assert_eq!("".parse::<Sudoku>(), Err(SudokuStrParsingError));
    assert_eq!(".".repeat(80).parse::<Sudoku>(), Err(SudokuStrParsingError));
    assert_eq!(".".repeat(82).parse::<Sudoku>(), Err(SudokuStrParsingError));
    assert!(".".repeat(81).parse::<Sudoku>().is_ok());
    assert_eq!(SudokuStrParsingError.message(), "Input is not 81 chars long");
}

#[test]
fn the_length_of_a_text_is_counted_in_characters() {
    let text = "\u{e9}".repeat(81);
    assert_eq!(text.parse::<Sudoku>(), Ok(Sudoku::empty()));
    let text = "\u{e9}".to_string() + &".".repeat(79);
    assert!(text.parse::<Sudoku>().is_err());
}

#[test]
fn writing_and_reading_a_puzzle_gives_it_back() {
    for text in [PUZZLE, SOLUTION] {
        let sudoku = text.parse::<Sudoku>().unwrap();
        assert_eq!(sudoku.to_string(), text);
        assert_eq!(sudoku.to_string().chars().count(), 81);
        assert_eq!(sudoku.to_string().parse::<Sudoku>(), Ok(sudoku));
    }
    assert_eq!(Sudoku::empty().to_string(), ".".repeat(81));
    assert_eq!(Sudoku::empty().to_string().parse::<Sudoku>(), Ok(Sudoku::empty()));
}

#[test]
fn a_value_above_nine_is_written_as_an_empty_cell() {
    let mut cells = [[0; 9]; 9];
    cells[0][0] = 10;
    cells[0][1] = 9;
    let sudoku = Sudoku::new(cells);
    assert_eq!(sudoku.to_string(), ".9".to_string() + &".".repeat(79));
    assert!(sudoku.to_string().parse::<Sudoku>().unwrap() != sudoku);
}

#[test]
fn a_puzzle_is_valid_if_no_value_is_above_nine() {
    assert!(is_valid(&Sudoku::empty()));
    assert!(is_valid(&PUZZLE.parse::<Sudoku>().unwrap()));
    assert!(is_valid(&Sudoku::new([[9; 9]; 9])));
    let mut cells = [[0; 9]; 9];
    cells[8][8] = 10;
    assert!(!is_valid(&Sudoku::new(cells)));
}

#[test]
fn a_puzzle_is_complete_if_no_cell_is_empty() {
    assert!(!Sudoku::empty().is_complete());
    assert!(!PUZZLE.parse::<Sudoku>().unwrap().is_complete());
    assert!(SOLUTION.parse::<Sudoku>().unwrap().is_complete());
    let almost = SOLUTION[..80].to_string() + ".";
    assert!(!almost.parse::<Sudoku>().unwrap().is_complete());
}

#[test]
fn a_repeated_digit_in_a_row_column_or_box_is_a_conflict() {
    assert!(!Sudoku::empty().contains_conflicts());
    assert!(!PUZZLE.parse::<Sudoku>().unwrap().contains_conflicts());
    assert!(!SOLUTION.parse::<Sudoku>().unwrap().contains_conflicts());

    let mut in_row = [[0; 9]; 9];
    in_row[3][1] = 4;
    in_row[3][8] = 4;
    assert!(Sudoku::new(in_row).contains_conflicts());

    let mut in_column = [[0; 9]; 9];
    in_column[0][5] = 4;
    in_column[8][5] = 4;
    assert!(Sudoku::new(in_column).contains_conflicts());

    let mut in_square = [[0; 9]; 9];
    in_square[6][6] = 4;
    in_square[7][8] = 4;
    assert!(Sudoku::new(in_square).contains_conflicts());

    let mut apart = [[0; 9]; 9];
    apart[0][0] = 4;
    apart[4][4] = 4;
    apart[8][8] = 4;
    assert!(!Sudoku::new(apart).contains_conflicts());
}

#[test]
fn a_puzzle_is_solved_if_it_is_complete_and_without_conflict() {
    assert!(SOLUTION.parse::<Sudoku>().unwrap().is_solved());
    assert!(!PUZZLE.parse::<Sudoku>().unwrap().is_solved());
    assert!(!Sudoku::new([[1; 9]; 9]).is_solved());
    let swapped = "354678912".to_string() + &SOLUTION[9..];
    assert!(swapped.parse::<Sudoku>().unwrap().is_complete());
    assert!(!swapped.parse::<Sudoku>().unwrap().is_solved());
}

#[test]
fn the_grid_of_shifted_rows_is_solved() {
    let mut cells = [[0; 9]; 9];
    for x in 0..9 {
        for y in 0..9 {
            cells[x][y] = (3 * (x % 3) + x / 3 + y) % 9 + 1;
        }
    }
    let sudoku = Sudoku::new(cells);
    assert_eq!(
        sudoku.to_string(),
        "123456789456789123789123456234567891567891234891234567345678912678912345912345678"
    );
    assert!(sudoku.is_solved());
}

#[test]
fn a_solving_grid_starts_from_the_digits_of_the_puzzle() {
    let sudoku = PUZZLE.parse::<Sudoku>().unwrap();
    let template = SudokuTemplate::from(sudoku);
    assert_eq!(template, SudokuTemplate::from_sudoku(&sudoku));
    assert_eq!(template.cells[0][0].possible_values(), vec![5]);
    assert_eq!(template.cells[0][2].possible_values(), vec![1, 2, 3, 4, 5, 6, 7, 8, 9]);
    assert_eq!(template.cell_at(0, 1).get_value(), 3);
    assert_eq!(Sudoku::from(template), sudoku);
    assert_eq!(Sudoku::from_template(&template), sudoku);
}

#[test]
fn the_values_of_a_unit_are_listed_in_the_order_of_its_cells() {
    let template = SudokuTemplate::from(PUZZLE.parse::<Sudoku>().unwrap());
    assert_eq!(template.get_values_in_row(0), vec![5, 3, 7]);
    assert_eq!(template.get_values_in_row(7), vec![4, 1, 9, 5]);
    assert_eq!(template.get_values_in_column(0), vec![5, 6, 8, 4, 7]);
    assert_eq!(template.get_values_in_column(8), vec![3, 1, 6, 5, 9]);
    assert_eq!(template.get_values_in_square(0, 0), vec![5, 3, 6, 9, 8]);
    assert_eq!(template.get_values_in_square(2, 1), vec![4, 1, 9, 8]);
    assert_eq!(template.values_in_unit(UnitKind::Square, 7), vec![4, 1, 9, 8]);
}

#[test]
fn the_missing_values_of_a_unit_are_listed_in_ascending_order() {
    let template = SudokuTemplate::from(PUZZLE.parse::<Sudoku>().unwrap());
    assert_eq!(SudokuTemplate::get_missing_values(&[9, 1, 5]), vec![2, 3, 4, 6, 7, 8]);
    assert_eq!(SudokuTemplate::get_missing_values(&[]), vec![1, 2, 3, 4, 5, 6, 7, 8, 9]);
    assert_eq!(template.get_missing_values_in_row(0), vec![1, 2, 4, 6, 8, 9]);
    assert_eq!(template.get_missing_values_in_column(0), vec![1, 2, 3, 9]);
    assert_eq!(template.get_missing_values_in_square(0, 0), vec![1, 2, 4, 7]);
    assert_eq!(template.missing_in_unit(UnitKind::Column, 8), vec![2, 4, 7, 8]);
}

#[test]
fn the_cells_of_a_unit_are_numbered_along_it() {
    assert_eq!(UnitKind::Row.coords(2, 7), (2, 7));
    assert_eq!(UnitKind::Column.coords(2, 7), (7, 2));
    assert_eq!(UnitKind::Square.coords(0, 0), (0, 0));
    assert_eq!(UnitKind::Square.coords(4, 5), (4, 5));
    assert_eq!(UnitKind::Square.coords(5, 3), (4, 6));
    assert_eq!(UnitKind::Square.coords(8, 8), (8, 8));
}

#[test]
fn the_empty_cells_are_listed_row_by_row() {
    let template = SudokuTemplate::from(SOLUTION.parse::<Sudoku>().unwrap());
    assert_eq!(template.empty_cells(), vec![]);
    let text = ".".to_string() + &SOLUTION[1..40] + "." + &SOLUTION[41..80] + ".";
    let template = SudokuTemplate::from(text.parse::<Sudoku>().unwrap());
    assert_eq!(template.empty_cells(), vec![(0, 0), (4, 4), (8, 8)]);
}

#[test]
fn single_cells_of_a_grid_can_be_changed() {
    let mut template = SudokuTemplate::from(Sudoku::empty());
    assert_eq!(template.remove_at(2, 3, 9), true);
    assert_eq!(template.remove_at(2, 3, 9), false);
    assert_eq!(template.cells[2][3].possible_values(), vec![1, 2, 3, 4, 5, 6, 7, 8]);
    assert_eq!(template.confine_at(2, 3, &[1, 2, 9]), true);
    assert_eq!(template.cells[2][3].possible_values(), vec![1, 2]);
    assert_eq!(template.set_at(2, 3, 2), true);
    assert_eq!(template.set_at(2, 3, 2), false);
    assert_eq!(template.cells[2][3].get_value(), 2);
    for x in 0..9 {
        for y in 0..9 {
            if (x, y) != (2, 3) {
                assert_eq!(template.cells[x][y].possible_values(), vec![1, 2, 3, 4, 5, 6, 7, 8, 9]);
            }
        }
    }
}
