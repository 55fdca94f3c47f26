//! The plain form of a puzzle: 81 digits, 0 for an empty cell, with its
//! fixed-width text encoding and its completeness and conflict checks.

use vstd::prelude::*;
use vstd::string::StringExecFns;
use crate::model::{at, lemma_at_geometry, related, values_of};
use crate::traits::sudoku_template::{SudokuTemplate, UnitKind};

verus! {

/// Represents a Sudoku puzzle. Empty cells are set as zero.
#[derive(Clone, Copy, Debug, PartialEq, Eq)]
pub struct Sudoku {
    pub(crate) cells: [[usize; 9]; 9],
}

/// Returned when a text does not have the 81 characters of a puzzle.
#[derive(Clone, Copy, Debug, PartialEq, Eq)]
pub struct SudokuStrParsingError;

impl SudokuStrParsingError {
    /// What went wrong, in words.
    pub fn message(&self) -> (text: String)
        ensures
            text@ == "Input is not 81 chars long"@,
    {
        String::from_str("Input is not 81 chars long")
    }
}

/// Two related cells hold the same digit.
pub open spec fn has_conflict(digits: Seq<int>) -> bool {
    exists|p: int, q: int|
        0 <= p < 81 && 0 <= q < 81 && p != q && related(p, q) && #[trigger] digits[p] != 0
            && digits[p] == #[trigger] digits[q]
}

/// Two cells of one unit of the given kind hold the same digit.
pub open spec fn unit_conflict(digits: Seq<int>, kind: UnitKind) -> bool {
    exists|i: int, j: int, k: int|
        0 <= i < 9 && 0 <= j < k < 9 && digits[#[trigger] kind.cell(i, j)] != 0 && digits[kind.cell(
            i,
            j,
        )] == digits[#[trigger] kind.cell(i, k)]
}

/// No cell is empty.
pub open spec fn is_full(digits: Seq<int>) -> bool {
    forall|p: int| 0 <= p < 81 ==> #[trigger] digits[p] != 0
}

/// Every cell is filled and no two related cells hold the same digit.
pub open spec fn is_solved_grid(digits: Seq<int>) -> bool {
    is_full(digits) && !has_conflict(digits)
}

/// The digit that a character of the text encoding stands for: the digits 1
/// to 9 for themselves, every other character for an empty cell.
pub open spec fn char_digit(c: char) -> int {
    if c == '1' {
        1
    } else if c == '2' {
        2
    } else if c == '3' {
        3
    } else if c == '4' {
        4
    } else if c == '5' {
        5
    } else if c == '6' {
        6
    } else if c == '7' {
        7
    } else if c == '8' {
        8
    } else if c == '9' {
        9
    } else {
        0
    }
}

/// The character that a cell value is written as: a digit from 1 to 9 as
/// itself, everything else as a dot.
pub open spec fn digit_char(n: int) -> char {
    if n == 1 {
        '1'
    } else if n == 2 {
        '2'
    } else if n == 3 {
        '3'
    } else if n == 4 {
        '4'
    } else if n == 5 {
        '5'
    } else if n == 6 {
        '6'
    } else if n == 7 {
        '7'
    } else if n == 8 {
        '8'
    } else if n == 9 {
        '9'
    } else {
        '.'
    }
}

/// The 81 digits that a text of 81 characters stands for.
pub open spec fn decode(text: Seq<char>) -> Seq<int> {
    Seq::new(81, |p: int| char_digit(text[p]))
}

/// The 81 characters that the digits of a puzzle are written as.
pub open spec fn encode(digits: Seq<int>) -> Seq<char> {
    Seq::new(81, |p: int| digit_char(digits[p]))
}

/// The digit that a character of the text encoding stands for.
fn digit_of_char(c: char) -> (n: usize)
    ensures
        n == char_digit(c),
        n <= 9,
{
    if c == '1' {
        1
    } else if c == '2' {
        2
    } else if c == '3' {
        3
    } else if c == '4' {
        4
    } else if c == '5' {
        5
    } else if c == '6' {
        6
    } else if c == '7' {
        7
    } else if c == '8' {
        8
    } else if c == '9' {
        9
    } else {
        0
    }
}

/// The character that a cell value is written as, as a text.
fn text_of_digit(n: usize) -> (text: &'static str)
    ensures
        text@ == seq![digit_char(n as int)],
{
    proof {
        reveal_strlit("1");
        reveal_strlit("2");
        reveal_strlit("3");
        reveal_strlit("4");
        reveal_strlit("5");
        reveal_strlit("6");
        reveal_strlit("7");
        reveal_strlit("8");
        reveal_strlit("9");
        reveal_strlit(".");
    }
    let text = if n == 1 {
        "1"
    } else if n == 2 {
        "2"
    } else if n == 3 {
        "3"
    } else if n == 4 {
        "4"
    } else if n == 5 {
        "5"
    } else if n == 6 {
        "6"
    } else if n == 7 {
        "7"
    } else if n == 8 {
        "8"
    } else if n == 9 {
        "9"
    } else {
        "."
    };
    assert(text@ =~= seq![digit_char(n as int)]);
    text
}

impl View for Sudoku {
    type V = Seq<int>;

    closed spec fn view(&self) -> Seq<int> {
        Seq::new(81, |p: int| self.cells[p / 9][p % 9] as int)
    }
}

impl Sudoku {
    /// A puzzle is 81 digits, none of them negative.
    pub proof fn lemma_view(&self)
        ensures
            self@.len() == 81,
            forall|p: int| 0 <= p < 81 ==> 0 <= #[trigger] self@[p],
    {
    }

    /// Puzzles with the same digits are the same puzzle.
    pub proof fn lemma_view_injective(&self, other: &Sudoku)
        requires
            self@ == other@,
        ensures
            self == other,
    {
        assert forall|r: int| 0 <= r < 9 implies self.cells[r] == other.cells[r] by {
            assert forall|c: int| 0 <= c < 9 implies self.cells[r][c] == other.cells[r][c] by {
                lemma_at_geometry(r, c);
                let p = at(r, c);
                assert(p / 9 == r && p % 9 == c);
                assert(self@[p] == self.cells[r][c] as int);
                assert(other@[p] == other.cells[r][c] as int);
            }
            assert(self.cells[r] =~= other.cells[r]);
        }
        assert(self.cells =~= other.cells);
    }

    /// The puzzle without any digit.
    pub fn empty() -> (sudoku: Sudoku)
        ensures
            sudoku@ == Seq::new(81, |p: int| 0int),
    {
        let sudoku = Sudoku { cells: [[0; 9]; 9] };
        assert(sudoku@ =~= Seq::new(81, |p: int| 0int));
        sudoku
    }

    /// Creates a new `Sudoku` instance from a 9x9 grid.
    pub fn new(cells: [[usize; 9]; 9]) -> (sudoku: Sudoku)
        ensures
            forall|row: int, col: int|
                0 <= row < 9 && 0 <= col < 9 ==> sudoku@[at(row, col)] == #[trigger] cells[row][col],
    {
        let sudoku = Sudoku { cells };
        assert forall|row: int, col: int| 0 <= row < 9 && 0 <= col < 9 implies sudoku@[at(row, col)]
            == #[trigger] cells[row][col] by {
            lemma_at_geometry(row, col);
        }
        sudoku
    }

    /// The digits of the puzzle, row by row.
    pub fn get_cells(&self) -> (cells: &[[usize; 9]; 9])
        ensures
            forall|row: int, col: int|
                0 <= row < 9 && 0 <= col < 9 ==> self@[at(row, col)] == #[trigger] cells[row][col],
    {
        assert forall|row: int, col: int| 0 <= row < 9 && 0 <= col < 9 implies self@[at(row, col)]
            == #[trigger] self.cells[row][col] by {
            lemma_at_geometry(row, col);
        }
        &self.cells
    }

    /// The digit at `row` and `col`.
    pub fn get(&self, row: usize, col: usize) -> (digit: usize)
        requires
            row < 9,
            col < 9,
        ensures
            digit == self@[at(row as int, col as int)],
    {
        proof {
            lemma_at_geometry(row as int, col as int);
        }
        self.cells[row][col]
    }

    /// Whether two cells of one unit of the given kind hold the same digit.
    fn conflicts_in(&self, kind: UnitKind) -> (b: bool)
        ensures
            b == unit_conflict(self@, kind),
    {
        for i in 0..9usize
            invariant
                forall|i2: int, j: int, k: int|
                    0 <= i2 < i && 0 <= j < k < 9 && self@[#[trigger] kind.cell(i2, j)] != 0
                        ==> self@[kind.cell(i2, j)] != self@[#[trigger] kind.cell(i2, k)],
        {
            for j in 0..9usize
                invariant
                    i < 9,
                    forall|j2: int, k: int|
                        0 <= j2 < j && j2 < k < 9 && self@[#[trigger] kind.cell(i as int, j2)] != 0
                            ==> self@[kind.cell(i as int, j2)] != self@[#[trigger] kind.cell(
                            i as int,
                            k,
                        )],
            {
                let (row, col) = kind.coords(i, j);
                let value = self.get(row, col);
                if value != 0 {
                    for k in (j + 1)..9usize
                        invariant
                            i < 9,
                            j < 9,
                            value != 0,
                            value == self@[kind.cell(i as int, j as int)],
                            forall|k2: int|
                                j < k2 < k ==> value != self@[#[trigger] kind.cell(i as int, k2)],
                    {
                        let (other_row, other_col) = kind.coords(i, k);
                        if self.get(other_row, other_col) == value {
                            assert(0 <= i < 9 && 0 <= j < k < 9 && self@[kind.cell(i as int, j as int)]
                                != 0 && self@[kind.cell(i as int, j as int)] == self@[kind.cell(
                                i as int,
                                k as int,
                            )]);
                            return true;
                        }
                    }
                }
            }
        }
        false
    }

    /// Two cells of one unit hold the same digit exactly if two related
    /// cells do.
    proof fn lemma_conflicts(digits: Seq<int>)
        ensures
            has_conflict(digits) <==> (unit_conflict(digits, UnitKind::Row) || unit_conflict(
                digits,
                UnitKind::Column,
            ) || unit_conflict(digits, UnitKind::Square)),
    {
        UnitKind::Row.lemma_geometry();
        UnitKind::Column.lemma_geometry();
        UnitKind::Square.lemma_geometry();
        if has_conflict(digits) {
            let (p, q) = choose|p: int, q: int|
                0 <= p < 81 && 0 <= q < 81 && p != q && related(p, q) && #[trigger] digits[p] != 0
                    && digits[p] == #[trigger] digits[q];
            let kind = if UnitKind::Row.index_of(p) == UnitKind::Row.index_of(q) {
                UnitKind::Row
            } else if UnitKind::Column.index_of(p) == UnitKind::Column.index_of(q) {
                UnitKind::Column
            } else {
                UnitKind::Square
            };
            Self::lemma_conflict_in(digits, kind, p, q);
        }
        Self::lemma_unit_conflict(digits, UnitKind::Row);
        Self::lemma_unit_conflict(digits, UnitKind::Column);
        Self::lemma_unit_conflict(digits, UnitKind::Square);
    }

    /// Two cells of one unit with the same digit make a conflict in that
    /// unit.
    proof fn lemma_conflict_in(digits: Seq<int>, kind: UnitKind, p: int, q: int)
        requires
            0 <= p < 81,
            0 <= q < 81,
            p != q,
            kind.index_of(p) == kind.index_of(q),
            digits[p] != 0,
            digits[p] == digits[q],
        ensures
            unit_conflict(digits, kind),
    {
        kind.lemma_geometry();
        let i = kind.index_of(p);
        let j = kind.place_of(p);
        let k = kind.place_of(q);
        assert(kind.cell(i, j) == p && kind.cell(i, k) == q);
        if j < k {
            assert(0 <= i < 9 && 0 <= j < k < 9 && digits[kind.cell(i, j)] != 0 && digits[kind.cell(
                i,
                j,
            )] == digits[kind.cell(i, k)]);
        } else {
            assert(0 <= i < 9 && 0 <= k < j < 9 && digits[kind.cell(i, k)] != 0 && digits[kind.cell(
                i,
                k,
            )] == digits[kind.cell(i, j)]);
        }
    }

    /// A conflict in a unit is a conflict between related cells.
    proof fn lemma_unit_conflict(digits: Seq<int>, kind: UnitKind)
        ensures
            unit_conflict(digits, kind) ==> has_conflict(digits),
    {
        kind.lemma_geometry();
        if unit_conflict(digits, kind) {
            let (i, j, k) = choose|i: int, j: int, k: int|
                0 <= i < 9 && 0 <= j < k < 9 && digits[#[trigger] kind.cell(i, j)] != 0
                    && digits[kind.cell(i, j)] == digits[#[trigger] kind.cell(i, k)];
            let p = kind.cell(i, j);
            let q = kind.cell(i, k);
            assert(kind.index_of(p) == kind.index_of(q));
            assert(kind.place_of(p) != kind.place_of(q));
            assert(related(p, q));
            assert(0 <= p < 81 && 0 <= q < 81 && p != q && related(p, q) && digits[p] != 0
                && digits[p] == digits[q]);
        }
    }

    /// Whether some row, column or box holds a digit twice.
    pub fn contains_conflicts(&self) -> (b: bool)
        ensures
            b == has_conflict(self@),
    {
        proof {
            Self::lemma_conflicts(self@);
        }
        self.conflicts_in(UnitKind::Row) || self.conflicts_in(UnitKind::Column) || self.conflicts_in(
            UnitKind::Square,
        )
    }

    /// Whether every cell holds a digit.
    pub fn is_complete(&self) -> (b: bool)
        ensures
            b == is_full(self@),
    {
        for p in 0..81usize
            invariant
                forall|q: int| 0 <= q < p ==> #[trigger] self@[q] != 0,
        {
            if self.cells[p / 9][p % 9] == 0 {
                assert(self@[p as int] == 0);
                return false;
            }
        }
        true
    }

    /// Whether every cell holds a digit and no row, column or box holds one
    /// twice.
    pub fn is_solved(&self) -> (b: bool)
        ensures
            b == is_solved_grid(self@),
    {
        self.is_complete() && !self.contains_conflicts()
    }

    /// The confirmed values of a solving grid as a puzzle.
    pub fn from_template(template: &SudokuTemplate) -> (sudoku: Sudoku)
        ensures
            sudoku@ == values_of(template@),
    {
        let mut cells: [[usize; 9]; 9] = [[0; 9]; 9];
        for p in 0..81usize
            invariant
                forall|q: int| 0 <= q < p ==> cells[q / 9][q % 9] == template@[q].value,
        {
            let row: usize = p / 9;
            let col: usize = p % 9;
            let value = template.cell_at(row, col).get_value();
            let ghost before = cells;
            cells[row][col] = value;
            assert forall|q: int| 0 <= q < p + 1 implies cells[q / 9][q % 9] == template@[q].value by {
                if q < p {
                    assert(before[q / 9][q % 9] == template@[q].value);
                }
            }
        }
        let sudoku = Sudoku { cells };
        assert(sudoku@ =~= values_of(template@));
        sudoku
    }

    /// Reads a puzzle from its text encoding: 81 characters, row by row,
    /// the digits 1 to 9 for filled cells and anything else for empty ones.
    /// Fails on every text that does not have exactly 81 characters.
    pub fn parse(s: &str) -> (parsed: Result<Sudoku, SudokuStrParsingError>)
        ensures
            parsed is Ok <==> s@.len() == 81,
            parsed matches Ok(sudoku) ==> sudoku@ == decode(s@),
    {
        if s.unicode_len() != 81 {
            return Err(SudokuStrParsingError);
        }
        let mut cells: [[usize; 9]; 9] = [[0; 9]; 9];
        for p in 0..81usize
            invariant
                s@.len() == 81,
                forall|q: int| 0 <= q < p ==> cells[q / 9][q % 9] == char_digit(s@[q]),
        {
            let row: usize = p / 9;
            let col: usize = p % 9;
            let c = s.get_char(p);
            let ghost before = cells;
            cells[row][col] = digit_of_char(c);
            assert forall|q: int| 0 <= q < p + 1 implies cells[q / 9][q % 9] == char_digit(s@[q]) by {
                if q < p {
                    assert(before[q / 9][q % 9] == char_digit(s@[q]));
                }
            }
        }
        let sudoku = Sudoku { cells };
        assert(sudoku@ =~= decode(s@));
        Ok(sudoku)
    }

    /// The text encoding of the puzzle: 81 characters, row by row, the
    /// digits 1 to 9 as themselves and every other value as a dot.
    pub fn to_string(&self) -> (text: String)
        ensures
            text@ == encode(self@),
    {
        let mut text = String::new();
        for p in 0..81usize
            invariant
                text@.len() == p,
                forall|q: int| 0 <= q < p ==> text@[q] == digit_char(self@[q]),
        {
            let ghost before = text@;
            text.append(text_of_digit(self.cells[p / 9][p % 9]));
            assert(text@ =~= before.push(digit_char(self@[p as int])));
        }
        assert(text@ =~= encode(self@));
        text
    }
}

impl std::str::FromStr for Sudoku {
    type Err = SudokuStrParsingError;

    fn from_str(s: &str) -> (parsed: Result<Sudoku, SudokuStrParsingError>)
        ensures
            parsed is Ok <==> s@.len() == 81,
            parsed matches Ok(sudoku) ==> sudoku@ == decode(s@),
    {
        Sudoku::parse(s)
    }
}

impl vstd::std_specs::convert::FromSpecImpl<SudokuTemplate> for Sudoku {
    open spec fn obeys_from_spec() -> bool {
        true
    }

    open spec fn from_spec(template: SudokuTemplate) -> Sudoku {
        choose|sudoku: Sudoku| sudoku@ == values_of(template@)
    }
}

impl From<SudokuTemplate> for Sudoku {
    fn from(sudoku_template: SudokuTemplate) -> (sudoku: Sudoku) {
        let sudoku = Sudoku::from_template(&sudoku_template);
        proof {
            let chosen = choose|other: Sudoku| other@ == values_of(sudoku_template@);
            sudoku.lemma_view_injective(&chosen);
        }
        sudoku
    }
}

} // verus!
