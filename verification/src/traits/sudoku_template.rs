//! The solving grid: 81 cells with their candidates, and the queries and
//! single-cell updates that every strategy is built from.

use vstd::prelude::*;
use crate::model::{
    absent, ascending, at, box_cell, box_cells, box_has, box_of, col_cell, col_cells, col_has,
    col_of, empty_positions, grid_of, grid_wf, lemma_at_geometry, lemma_box_geometry,
    lemma_refines_chain, listing, members, missing_in, place, placed, refines, related, row_cell,
    row_cells, row_has, row_of, set_values, slot_of, valid_completion, CellModel, Grid,
};
use crate::traits::cell::{as_ints, digit_set, list_contains, Cell};
use crate::traits::sudoku::Sudoku;

verus! {

/// The three kinds of unit in which every digit occurs once.
#[derive(Clone, Copy, Debug, PartialEq, Eq, Structural)]
pub enum UnitKind {
    Row,
    Column,
    Square,
}

impl UnitKind {
    /// The position of the `j`-th cell of the `i`-th unit of this kind.
    pub open spec fn cell(self, i: int, j: int) -> int {
        match self {
            UnitKind::Row => row_cell(i, j),
            UnitKind::Column => col_cell(i, j),
            UnitKind::Square => box_cell(i, j),
        }
    }

    /// The nine positions of the `i`-th unit of this kind.
    pub open spec fn cells(self, i: int) -> Seq<int> {
        Seq::new(9, |j: int| self.cell(i, j))
    }

    /// The number of the unit of this kind that the position `q` lies in.
    pub open spec fn index_of(self, q: int) -> int {
        match self {
            UnitKind::Row => row_of(q),
            UnitKind::Column => col_of(q),
            UnitKind::Square => box_of(q),
        }
    }

    /// The place of the position `q` inside its unit of this kind.
    pub open spec fn place_of(self, q: int) -> int {
        match self {
            UnitKind::Row => col_of(q),
            UnitKind::Column => row_of(q),
            UnitKind::Square => slot_of(q),
        }
    }

    /// Some cell of the `i`-th unit of this kind holds `d` in `s`.
    pub open spec fn has(self, s: Seq<int>, i: int, d: int) -> bool {
        exists|j: int| 0 <= j < 9 && s[#[trigger] self.cell(i, j)] == d
    }

    /// In a valid completion every unit holds every digit.
    pub proof fn lemma_has(self, s: Seq<int>, i: int, d: int)
        requires
            valid_completion(s),
            0 <= i < 9,
            1 <= d <= 9,
        ensures
            self.has(s, i, d),
    {
        match self {
            UnitKind::Row => {
                assert(row_has(s, i, d));
                let j = choose|j: int| 0 <= j < 9 && s[#[trigger] row_cell(i, j)] == d;
                assert(s[self.cell(i, j)] == d);
            },
            UnitKind::Column => {
                assert(col_has(s, i, d));
                let j = choose|j: int| 0 <= j < 9 && s[#[trigger] col_cell(i, j)] == d;
                assert(s[self.cell(i, j)] == d);
            },
            UnitKind::Square => {
                assert(box_has(s, i, d));
                let j = choose|j: int| 0 <= j < 9 && s[#[trigger] box_cell(i, j)] == d;
                assert(s[self.cell(i, j)] == d);
            },
        }
    }

    /// Unit and place number the positions of the grid one to one.
    pub proof fn lemma_geometry(self)
        ensures
            forall|i: int, j: int|
                0 <= i < 9 && 0 <= j < 9 ==> {
                    &&& 0 <= #[trigger] self.cell(i, j) < 81
                    &&& self.index_of(self.cell(i, j)) == i
                    &&& self.place_of(self.cell(i, j)) == j
                },
            forall|q: int|
                0 <= q < 81 ==> {
                    &&& 0 <= #[trigger] self.index_of(q) < 9
                    &&& 0 <= self.place_of(q) < 9
                    &&& self.cell(self.index_of(q), self.place_of(q)) == q
                },
            forall|p: int, q: int|
                0 <= p < 81 && 0 <= q < 81 && #[trigger] self.index_of(p) == #[trigger] self.index_of(q)
                    ==> related(p, q),
    {
        lemma_box_geometry();
        match self {
            UnitKind::Row => {
                assert forall|i: int, j: int| 0 <= i < 9 && 0 <= j < 9 implies {
                    &&& 0 <= #[trigger] self.cell(i, j) < 81
                    &&& self.index_of(self.cell(i, j)) == i
                    &&& self.place_of(self.cell(i, j)) == j
                } by {
                    lemma_at_geometry(i, j);
                }
            },
            UnitKind::Column => {
                assert forall|i: int, j: int| 0 <= i < 9 && 0 <= j < 9 implies {
                    &&& 0 <= #[trigger] self.cell(i, j) < 81
                    &&& self.index_of(self.cell(i, j)) == i
                    &&& self.place_of(self.cell(i, j)) == j
                } by {
                    lemma_at_geometry(j, i);
                }
            },
            UnitKind::Square => {},
        }
    }

    /// Row and column of the `j`-th cell of the `i`-th unit of this kind.
    pub fn coords(self, i: usize, j: usize) -> (rc: (usize, usize))
        requires
            i < 9,
            j < 9,
        ensures
            rc.0 < 9,
            rc.1 < 9,
            at(rc.0 as int, rc.1 as int) == self.cell(i as int, j as int),
    {
        match self {
            UnitKind::Row => (i, j),
            UnitKind::Column => (j, i),
            UnitKind::Square => (3 * (i / 3) + j / 3, 3 * (i % 3) + j % 3),
        }
    }
}

/// The confirmed digits of a unit are exactly the members of the list of
/// its confirmed values.
pub proof fn lemma_set_values(g: Grid, cells: Seq<int>, n: int)
    requires
        0 <= n <= cells.len(),
    ensures
        forall|d: int|
            members(set_values(g, cells, n)).contains(d) <==> (d != 0 && exists|j: int|
                0 <= j < n && g[#[trigger] cells[j]].value == d),
    decreases n,
{
    if n > 0 {
        lemma_set_values(g, cells, n - 1);
        let prev = set_values(g, cells, n - 1);
        let cur = set_values(g, cells, n);
        assert forall|d: int|
            members(cur).contains(d) <==> (d != 0 && exists|j: int|
                0 <= j < n && g[#[trigger] cells[j]].value == d) by {
            if members(cur).contains(d) {
                let i = choose|i: int| 0 <= i < cur.len() && cur[i] == d;
                if i < prev.len() {
                    assert(prev[i] == d);
                    assert(members(prev).contains(d));
                    let j = choose|j: int| 0 <= j < n - 1 && g[#[trigger] cells[j]].value == d;
                    assert(0 <= j < n && g[cells[j]].value == d);
                } else {
                    assert(g[cells[n - 1]].value == d);
                }
            }
            if d != 0 && exists|j: int| 0 <= j < n && g[#[trigger] cells[j]].value == d {
                let j = choose|j: int| 0 <= j < n && g[#[trigger] cells[j]].value == d;
                if j < n - 1 {
                    assert(members(prev).contains(d));
                    let i = choose|i: int| 0 <= i < prev.len() && prev[i] == d;
                    assert(cur[i] == d);
                } else {
                    assert(cur[cur.len() - 1] == d);
                }
            }
        }
    }
}

/// A 9x9 arrangement of cells, indexed by row and then by column.
#[derive(Copy, Clone, Debug, PartialEq, Eq)]
pub struct SudokuTemplate {
    pub cells: [[Cell; 9]; 9],
}

impl View for SudokuTemplate {
    type V = Grid;

    open spec fn view(&self) -> Grid {
        Seq::new(81, |p: int| self.cells[p / 9][p % 9]@)
    }
}

impl SudokuTemplate {
    /// Every cell keeps its invariant.
    pub open spec fn wf(&self) -> bool {
        grid_wf(self@)
    }

    /// The model of the cell at `row` and `col` is the entry of the view at
    /// that position.
    pub proof fn lemma_view_at(&self, row: int, col: int)
        requires
            0 <= row < 9,
            0 <= col < 9,
        ensures
            self@[at(row, col)] == self.cells[row][col]@,
            0 <= at(row, col) < 81,
    {
        assert(at(row, col) / 9 == row && at(row, col) % 9 == col);
    }

    /// Grids with the same cells are the same grid.
    pub proof fn lemma_view_injective(&self, other: &SudokuTemplate)
        requires
            self@ == other@,
        ensures
            self == other,
    {
        assert forall|r: int| 0 <= r < 9 implies self.cells[r] == other.cells[r] by {
            assert forall|c: int| 0 <= c < 9 implies self.cells[r][c] == other.cells[r][c] by {
                self.lemma_view_at(r, c);
                other.lemma_view_at(r, c);
                self.cells[r][c].lemma_view_injective(&other.cells[r][c]);
            }
            assert(self.cells[r] =~= other.cells[r]);
        }
        assert(self.cells =~= other.cells);
    }

    /// The grid that solving a puzzle starts from: a filled cell admits its
    /// digit only, an empty cell every digit, and a value above 9 counts as
    /// empty.
    pub fn from_sudoku(sudoku: &Sudoku) -> (template: SudokuTemplate)
        ensures
            template@ == grid_of(sudoku@),
            template.wf(),
    {
        let mut cells: [[Cell; 9]; 9] = [[Cell::new(0); 9]; 9];
        for p in 0..81usize
            invariant
                forall|q: int|
                    0 <= q < p ==> cells[q / 9][q % 9]@ == CellModel::from_digit(sudoku@[q]),
        {
            let row: usize = p / 9;
            let col: usize = p % 9;
            let ghost before = cells;
            cells[row][col] = Cell::new(sudoku.get(row, col));
            assert forall|q: int| 0 <= q < p + 1 implies cells[q / 9][q % 9]@
                == CellModel::from_digit(sudoku@[q]) by {
                if q < p {
                    assert(before[q / 9][q % 9]@ == CellModel::from_digit(sudoku@[q]));
                }
            }
        }
        let template = SudokuTemplate { cells };
        assert(template@ =~= grid_of(sudoku@));
        assert forall|q: int| 0 <= q < 81 implies (#[trigger] template@[q]).wf() by {
            CellModel::lemma_from_digit(sudoku@[q]);
        }
        template
    }

    /// A copy of the cell at `row` and `col`.
    pub fn cell_at(&self, row: usize, col: usize) -> (cell: Cell)
        requires
            row < 9,
            col < 9,
        ensures
            cell@ == self@[at(row as int, col as int)],
    {
        proof {
            self.lemma_view_at(row as int, col as int);
        }
        self.cells[row][col]
    }

    /// The undecided cells, row by row, each as row and column.
    pub fn empty_cells(&self) -> (cells: Vec<(usize, usize)>)
        ensures
            cells.len() == empty_positions(self@, 81).len(),
            forall|k: int|
                0 <= k < cells.len() ==> (#[trigger] cells[k]).0 < 9 && cells[k].1 < 9 && at(
                    cells[k].0 as int,
                    cells[k].1 as int,
                ) == empty_positions(self@, 81)[k],
    {
        let mut cells: Vec<(usize, usize)> = Vec::new();
        for p in 0..81usize
            invariant
                cells.len() == empty_positions(self@, p as int).len(),
                forall|k: int|
                    0 <= k < cells.len() ==> (#[trigger] cells[k]).0 < 9 && cells[k].1 < 9 && at(
                        cells[k].0 as int,
                        cells[k].1 as int,
                    ) == empty_positions(self@, p as int)[k],
        {
            let row: usize = p / 9;
            let col: usize = p % 9;
            if self.cell_at(row, col).is_empty() {
                cells.push((row, col));
            }
        }
        cells
    }

    /// The confirmed values of the `i`-th unit of a kind, in the order of
    /// its cells.
    pub fn values_in_unit(&self, kind: UnitKind, i: usize) -> (values: Vec<usize>)
        requires
            i < 9,
        ensures
            as_ints(values@) == set_values(self@, kind.cells(i as int), 9),
            digit_set(values@) == placed(self@, kind.cells(i as int)),
    {
        let mut values: Vec<usize> = Vec::new();
        let ghost cells = kind.cells(i as int);
        let mut j: usize = 0;
        assert(as_ints(values@) =~= set_values(self@, cells, 0));
        while j < 9
            invariant
                j <= 9,
                i < 9,
                cells == kind.cells(i as int),
                as_ints(values@) == set_values(self@, cells, j as int),
            decreases 9 - j,
        {
            let (row, col) = kind.coords(i, j);
            let cell = self.cell_at(row, col);
            assert(cells[j as int] == at(row as int, col as int));
            if cell.is_set() {
                let ghost before = values@;
                values.push(cell.get_value());
                assert(as_ints(values@) =~= as_ints(before).push(cell@.value));
            }
            j += 1;
        }
        proof {
            lemma_set_values(self@, cells, 9);
            assert forall|d: int| digit_set(values@).contains(d) == placed(self@, cells).contains(
                d,
            ) by {
                if digit_set(values@).contains(d) {
                    let k = choose|k: int| 0 <= k < values@.len() && #[trigger] values@[k] == d;
                    assert(as_ints(values@)[k] == d);
                    assert(members(as_ints(values@)).contains(d));
                }
                if placed(self@, cells).contains(d) {
                    assert(members(as_ints(values@)).contains(d));
                    let k = choose|k: int|
                        0 <= k < as_ints(values@).len() && #[trigger] as_ints(values@)[k] == d;
                    assert(values@[k] == d);
                }
            }
            assert(digit_set(values@) =~= placed(self@, cells));
        }
        values
    }

    /// The confirmed values of a row, left to right.
    pub fn get_values_in_row(&self, row: usize) -> (values: Vec<usize>)
        requires
            row < 9,
        ensures
            as_ints(values@) == set_values(self@, row_cells(row as int), 9),
            digit_set(values@) == placed(self@, row_cells(row as int)),
    {
        assert(UnitKind::Row.cells(row as int) =~= row_cells(row as int));
        self.values_in_unit(UnitKind::Row, row)
    }

    /// The confirmed values of a column, top to bottom.
    pub fn get_values_in_column(&self, column: usize) -> (values: Vec<usize>)
        requires
            column < 9,
        ensures
            as_ints(values@) == set_values(self@, col_cells(column as int), 9),
            digit_set(values@) == placed(self@, col_cells(column as int)),
    {
        assert(UnitKind::Column.cells(column as int) =~= col_cells(column as int));
        self.values_in_unit(UnitKind::Column, column)
    }

    /// The confirmed values of the box in band `row` and stack `column`,
    /// row-major.
    pub fn get_values_in_square(&self, row: usize, column: usize) -> (values: Vec<usize>)
        requires
            row < 3,
            column < 3,
        ensures
            as_ints(values@) == set_values(self@, box_cells(3 * row + column), 9),
            digit_set(values@) == placed(self@, box_cells(3 * row + column)),
    {
        assert(UnitKind::Square.cells(3 * row + column) =~= box_cells(3 * row + column));
        self.values_in_unit(UnitKind::Square, 3 * row + column)
    }

    /// The digits that do not occur in `from`, in ascending order.
    pub fn get_missing_values(from: &[usize]) -> (missing: Vec<usize>)
        ensures
            as_ints(missing@) == listing(absent(digit_set(from@))),
    {
        let mut missing: Vec<usize> = Vec::new();
        let mut n: usize = 1;
        assert(as_ints(missing@) =~= ascending(absent(digit_set(from@)), 0));
        while n <= 9
            invariant
                1 <= n <= 10,
                as_ints(missing@) == ascending(absent(digit_set(from@)), n - 1),
            decreases 10 - n,
        {
            if !list_contains(from, n) {
                let ghost before = missing@;
                missing.push(n);
                assert(as_ints(missing@) =~= as_ints(before).push(n as int));
            }
            n += 1;
        }
        missing
    }

    /// The digits that are confirmed nowhere in the `i`-th unit of a kind,
    /// in ascending order.
    pub fn missing_in_unit(&self, kind: UnitKind, i: usize) -> (missing: Vec<usize>)
        requires
            i < 9,
        ensures
            as_ints(missing@) == missing_in(self@, kind.cells(i as int)),
    {
        let values = self.values_in_unit(kind, i);
        SudokuTemplate::get_missing_values(values.as_slice())
    }

    /// The digits that are confirmed nowhere in a row, in ascending order.
    pub fn get_missing_values_in_row(&self, row: usize) -> (missing: Vec<usize>)
        requires
            row < 9,
        ensures
            as_ints(missing@) == missing_in(self@, row_cells(row as int)),
    {
        let values = self.get_values_in_row(row);
        SudokuTemplate::get_missing_values(values.as_slice())
    }

    /// The digits that are confirmed nowhere in a column, in ascending
    /// order.
    pub fn get_missing_values_in_column(&self, column: usize) -> (missing: Vec<usize>)
        requires
            column < 9,
        ensures
            as_ints(missing@) == missing_in(self@, col_cells(column as int)),
    {
        let values = self.get_values_in_column(column);
        SudokuTemplate::get_missing_values(values.as_slice())
    }

    /// The digits that are confirmed nowhere in the box in band `row` and
    /// stack `column`, in ascending order.
    pub fn get_missing_values_in_square(&self, row: usize, column: usize) -> (missing: Vec<usize>)
        requires
            row < 3,
            column < 3,
        ensures
            as_ints(missing@) == missing_in(self@, box_cells(3 * row + column)),
    {
        let values = self.get_values_in_square(row, column);
        SudokuTemplate::get_missing_values(values.as_slice())
    }

    /// Strikes `value` from the candidates of one cell and says whether the
    /// grid changed.
    pub fn remove_at(&mut self, row: usize, col: usize, value: usize) -> (changed: bool)
        requires
            old(self).wf(),
            row < 9,
            col < 9,
        ensures
            final(self)@ == old(self)@.update(
                at(row as int, col as int),
                old(self)@[at(row as int, col as int)].remove(value as int),
            ),
            changed == (final(self)@ != old(self)@),
            final(self).wf(),
            refines(old(self)@, final(self)@),
    {
        let ghost p = at(row as int, col as int);
        assert(p / 9 == row && p % 9 == col);
        assert(old(self)@[p] == old(self).cells[row as int][col as int]@);
        let changed = self.cells[row][col].remove_possibility(value);
        proof {
            assert(self@[p] == self.cells[row as int][col as int]@);
            assert forall|q: int| 0 <= q < 81 && q != p implies self@[q] == old(self)@[q] by {
                assert(self.cells[q / 9][q % 9] == old(self).cells[q / 9][q % 9]);
            }
            assert(self@ =~= old(self)@.update(p, old(self)@[p].remove(value as int)));
            if changed {
                assert(self@[p] != old(self)@[p]);
            } else {
                assert(self@ =~= old(self)@);
            }
        }
        changed
    }

    /// Cuts one cell down to the digits of `allowed` and says whether the
    /// grid changed.
    pub fn confine_at(&mut self, row: usize, col: usize, allowed: &[usize]) -> (changed: bool)
        requires
            old(self).wf(),
            row < 9,
            col < 9,
        ensures
            final(self)@ == old(self)@.update(
                at(row as int, col as int),
                old(self)@[at(row as int, col as int)].keep_only(digit_set(allowed@)),
            ),
            changed == (final(self)@ != old(self)@),
            final(self).wf(),
            refines(old(self)@, final(self)@),
    {
        let ghost p = at(row as int, col as int);
        proof {
            old(self).lemma_view_at(row as int, col as int);
        }
        let changed = self.cells[row][col].remove_possibilities_outside_of(allowed);
        proof {
            self.lemma_view_at(row as int, col as int);
            assert forall|q: int| 0 <= q < 81 && q != p implies self@[q] == old(self)@[q] by {
                assert(self.cells[q / 9][q % 9] == old(self).cells[q / 9][q % 9]);
            }
            assert(self@ =~= old(self)@.update(
                p,
                old(self)@[p].keep_only(digit_set(allowed@)),
            ));
            if changed {
                assert(self@[p] != old(self)@[p]);
            } else {
                assert(self@ =~= old(self)@);
            }
        }
        changed
    }

    /// Confirms `value` at one cell and says whether the grid changed.
    pub fn set_at(&mut self, row: usize, col: usize, value: usize) -> (changed: bool)
        requires
            old(self).wf(),
            row < 9,
            col < 9,
        ensures
            final(self)@ == place(old(self)@, at(row as int, col as int), value as int),
            changed == (final(self)@ != old(self)@),
            final(self).wf(),
    {
        let ghost p = at(row as int, col as int);
        proof {
            old(self).lemma_view_at(row as int, col as int);
        }
        let changed = self.cells[row][col].set_value(value);
        proof {
            self.lemma_view_at(row as int, col as int);
            assert forall|q: int| 0 <= q < 81 && q != p implies self@[q] == old(self)@[q] by {
                assert(self.cells[q / 9][q % 9] == old(self).cells[q / 9][q % 9]);
            }
            assert(self@ =~= place(old(self)@, p, value as int));
            if changed {
                assert(self@[p] != old(self)@[p]);
            } else {
                assert(self@ =~= old(self)@);
            }
        }
        changed
    }

    /// Strikes `value` at one cell in the course of a pass that began at
    /// `start`, and keeps `changed` saying whether the grid has left `start`.
    pub(crate) fn strike_at(
        &mut self,
        row: usize,
        col: usize,
        value: usize,
        changed: &mut bool,
        Ghost(start): Ghost<Grid>,
    )
        requires
            old(self).wf(),
            row < 9,
            col < 9,
            refines(start, old(self)@),
            *old(changed) == (old(self)@ != start),
        ensures
            final(self)@ == old(self)@.update(
                at(row as int, col as int),
                old(self)@[at(row as int, col as int)].remove(value as int),
            ),
            final(self).wf(),
            refines(start, final(self)@),
            *final(changed) == (final(self)@ != start),
    {
        let step = self.remove_at(row, col, value);
        proof {
            lemma_refines_chain(start, old(self)@, self@);
        }
        *changed = *changed || step;
    }

    /// Cuts one cell down to `allowed` in the course of a pass that began at
    /// `start`, and keeps `changed` saying whether the grid has left `start`.
    pub(crate) fn keep_at(
        &mut self,
        row: usize,
        col: usize,
        allowed: &[usize],
        changed: &mut bool,
        Ghost(start): Ghost<Grid>,
    )
        requires
            old(self).wf(),
            row < 9,
            col < 9,
            refines(start, old(self)@),
            *old(changed) == (old(self)@ != start),
        ensures
            final(self)@ == old(self)@.update(
                at(row as int, col as int),
                old(self)@[at(row as int, col as int)].keep_only(digit_set(allowed@)),
            ),
            final(self).wf(),
            refines(start, final(self)@),
            *final(changed) == (final(self)@ != start),
    {
        let step = self.confine_at(row, col, allowed);
        proof {
            lemma_refines_chain(start, old(self)@, self@);
        }
        *changed = *changed || step;
    }
}

impl vstd::std_specs::convert::FromSpecImpl<Sudoku> for SudokuTemplate {
    open spec fn obeys_from_spec() -> bool {
        true
    }

    open spec fn from_spec(sudoku: Sudoku) -> SudokuTemplate {
        choose|template: SudokuTemplate| template@ == grid_of(sudoku@)
    }
}

impl From<Sudoku> for SudokuTemplate {
    fn from(sudoku: Sudoku) -> (template: SudokuTemplate) {
        let template = SudokuTemplate::from_sudoku(&sudoku);
        proof {
            let chosen = choose|other: SudokuTemplate| other@ == grid_of(sudoku@);
            template.lemma_view_injective(&chosen);
        }
        template
    }
}

} // verus!
