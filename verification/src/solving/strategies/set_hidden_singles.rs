//! Placement of singles: a digit that is a candidate of an undecided cell
//! and of no other cell of its row, of its column or of its box must stand
//! in that cell.

use vstd::prelude::*;
use crate::model::{
    above, at, fits, grid_wf, lemma_above_fits, lemma_at_geometry, lemma_box_geometry, lemma_place,
    lemma_place_fits, lemma_refines_refl, place, refines, valid_completion, values_of, Grid,
};
use crate::solving::strategies::eliminate_possibilities_using_existing_singles::box_order;
use crate::traits::difficulty::Difficulty;
use crate::traits::sudoku_template::{SudokuTemplate, UnitKind};

verus! {

/// No other cell of the unit of `p` of the given kind admits `d`.
pub open spec fn alone_in(g: Grid, kind: UnitKind, p: int, d: int) -> bool {
    forall|j: int|
        0 <= j < 9 && kind.cell(kind.index_of(p), j) != p ==> !g[#[trigger] kind.cell(
            kind.index_of(p),
            j,
        )].cands.contains(d)
}

/// `d` is a candidate of the undecided cell `p` and of no other cell of its
/// box (`by_box`), or else of no other cell of its row or of no other cell
/// of its column.
pub open spec fn is_single(g: Grid, by_box: bool, p: int, d: int) -> bool {
    &&& g[p].is_empty()
    &&& g[p].cands.contains(d)
    &&& if by_box {
        alone_in(g, UnitKind::Square, p, d)
    } else {
        alone_in(g, UnitKind::Row, p, d) || alone_in(g, UnitKind::Column, p, d)
    }
}

/// The position that is visited `k`-th: box by box, or else row by row.
pub open spec fn visited(by_box: bool, k: int) -> int {
    if by_box {
        box_order(k)
    } else {
        k
    }
}

/// The smallest digit from `from` on that is a single at the `k`-th visited
/// cell, or 10 if there is none.
pub open spec fn single_digit(g: Grid, by_box: bool, k: int, from: int) -> int
    decreases 10 - from,
{
    if from >= 10 {
        10
    } else if is_single(g, by_box, visited(by_box, k), from) {
        from
    } else {
        single_digit(g, by_box, k, from + 1)
    }
}

/// The first visited cell from the `from`-th on that has a single, or 81 if
/// there is none.
pub open spec fn first_cell(g: Grid, by_box: bool, from: int) -> int
    decreases 81 - from,
{
    if from >= 81 {
        81
    } else if single_digit(g, by_box, from, 1) <= 9 {
        from
    } else {
        first_cell(g, by_box, from + 1)
    }
}

/// The grid after the first single in visiting order, if there is one, was
/// confirmed.
pub open spec fn set_first_single(g: Grid, by_box: bool) -> Grid {
    let k = first_cell(g, by_box, 0);
    if k < 81 {
        place(g, visited(by_box, k), single_digit(g, by_box, k, 1))
    } else {
        g
    }
}

/// The smallest single, if it exists, is a digit and a single.
pub proof fn lemma_single_digit(g: Grid, by_box: bool, k: int, from: int)
    requires
        1 <= from <= 10,
    ensures
        from <= single_digit(g, by_box, k, from) <= 10,
        single_digit(g, by_box, k, from) <= 9 ==> is_single(
            g,
            by_box,
            visited(by_box, k),
            single_digit(g, by_box, k, from),
        ),
        forall|d: int|
            from <= d < single_digit(g, by_box, k, from) ==> !is_single(
                g,
                by_box,
                visited(by_box, k),
                d,
            ),
    decreases 10 - from,
{
    if from < 10 && !is_single(g, by_box, visited(by_box, k), from) {
        lemma_single_digit(g, by_box, k, from + 1);
    }
}

/// The first cell with a single, if it exists, is a cell with a single.
proof fn lemma_first_cell(g: Grid, by_box: bool, from: int)
    requires
        0 <= from <= 81,
    ensures
        from <= first_cell(g, by_box, from) <= 81,
        first_cell(g, by_box, from) < 81 ==> single_digit(g, by_box, first_cell(g, by_box, from), 1)
            <= 9,
        forall|k: int|
            from <= k < first_cell(g, by_box, from) ==> single_digit(g, by_box, k, 1) == 10,
    decreases 81 - from,
{
    if from < 81 {
        lemma_single_digit(g, by_box, from, 1);
        if single_digit(g, by_box, from, 1) > 9 {
            lemma_first_cell(g, by_box, from + 1);
        }
    }
}

/// A single stands where every valid completion that the grid admits has
/// its digit.
proof fn lemma_single_is_forced(g: Grid, by_box: bool, p: int, d: int, s: Seq<int>)
    requires
        0 <= p < 81,
        1 <= d <= 9,
        is_single(g, by_box, p, d),
        valid_completion(s),
        fits(g, s),
    ensures
        s[p] == d,
{
    let kind = if by_box {
        UnitKind::Square
    } else if alone_in(g, UnitKind::Row, p, d) {
        UnitKind::Row
    } else {
        UnitKind::Column
    };
    kind.lemma_geometry();
    let i = kind.index_of(p);
    kind.lemma_has(s, i, d);
    let j = choose|j: int| 0 <= j < 9 && s[#[trigger] kind.cell(i, j)] == d;
    let q = kind.cell(i, j);
    assert(g[q].cands.contains(s[q]));
    assert(q == p);
}

/// Confirming a single is a deduction, and it keeps every completion that
/// was possible.
pub proof fn lemma_single(g: Grid, by_box: bool, p: int, d: int, s: Seq<int>)
    requires
        grid_wf(g),
        0 <= p < 81,
        1 <= d <= 9,
        is_single(g, by_box, p, d),
    ensures
        grid_wf(place(g, p, d)),
        refines(g, place(g, p, d)),
        place(g, p, d) != g,
        valid_completion(s) && fits(g, s) ==> fits(place(g, p, d), s),
{
    lemma_place(g, p, d);
    if valid_completion(s) && fits(g, s) {
        lemma_single_is_forced(g, by_box, p, d, s);
        lemma_place_fits(g, p, d, s);
    }
}

/// A single of a grid is a single of every grid below it that admits a
/// valid completion.
proof fn lemma_single_below(g: Grid, t: Grid, by_box: bool, p: int, d: int, s: Seq<int>)
    requires
        grid_wf(g),
        grid_wf(t),
        above(g, t),
        0 <= p < 81,
        1 <= d <= 9,
        is_single(g, by_box, p, d),
        valid_completion(s),
        fits(t, s),
    ensures
        is_single(t, by_box, p, d),
{
    lemma_above_fits(g, t, s);
    lemma_single_is_forced(g, by_box, p, d, s);
    assert(t[p].cands.contains(s[p]));
    assert(values_of(g)[p] == values_of(t)[p]);
    UnitKind::Row.lemma_geometry();
    UnitKind::Column.lemma_geometry();
    UnitKind::Square.lemma_geometry();
    assert forall|kind: UnitKind| alone_in(g, kind, p, d) implies alone_in(t, kind, p, d) by {
        assert forall|j: int| 0 <= j < 9 && kind.cell(kind.index_of(p), j) != p implies !t[#[trigger] kind.cell(
            kind.index_of(p),
            j,
        )].cands.contains(d) by {
            let q = kind.cell(kind.index_of(p), j);
            assert(g[q].narrows_to(t[q]));
        }
    }
}

/// Row and column of the `k`-th visited cell.
pub fn visited_cell(by_box: bool, k: usize) -> (rc: (usize, usize))
    requires
        k < 81,
    ensures
        rc.0 < 9,
        rc.1 < 9,
        at(rc.0 as int, rc.1 as int) == visited(by_box, k as int),
{
    if by_box {
        UnitKind::Square.coords(k / 9, k % 9)
    } else {
        (k / 9, k % 9)
    }
}

/// Whether no other cell of the unit of the given kind around the cell at
/// `row` and `col` admits `value`.
pub fn is_alone_in(sudoku: &SudokuTemplate, kind: UnitKind, row: usize, col: usize, value: usize) -> (b:
    bool)
    requires
        row < 9,
        col < 9,
    ensures
        b == alone_in(sudoku@, kind, at(row as int, col as int), value as int),
{
    let ghost p = at(row as int, col as int);
    proof {
        kind.lemma_geometry();
        lemma_at_geometry(row as int, col as int);
        lemma_box_geometry();
    }
    let i: usize = match kind {
        UnitKind::Row => row,
        UnitKind::Column => col,
        UnitKind::Square => 3 * (row / 3) + col / 3,
    };
    assert(i == kind.index_of(p));
    for o in 0..9usize
        invariant
            row < 9,
            col < 9,
            i < 9,
            p == at(row as int, col as int),
            i == kind.index_of(p),
            forall|j: int|
                0 <= j < o && kind.cell(i as int, j) != p ==> !sudoku@[#[trigger] kind.cell(
                    i as int,
                    j,
                )].cands.contains(value as int),
    {
        let (other_row, other_col) = kind.coords(i, o);
        if !(other_row == row && other_col == col) {
            proof {
                lemma_at_geometry(other_row as int, other_col as int);
            }
            if sudoku.cell_at(other_row, other_col).contains_possibility(value) {
                return false;
            }
        }
    }
    true
}

/// The smallest single of the `k`-th visited cell, if it has one.
pub fn find_single(sudoku: &SudokuTemplate, by_box: bool, k: usize) -> (found: Option<usize>)
    requires
        k < 81,
    ensures
        match found {
            Some(d) => 1 <= d <= 9 && d == single_digit(sudoku@, by_box, k as int, 1),
            None => single_digit(sudoku@, by_box, k as int, 1) == 10,
        },
{
    let (row, col) = visited_cell(by_box, k);
    let cell = sudoku.cell_at(row, col);
    if !cell.is_empty() {
        proof {
            reveal_with_fuel(single_digit, 11);
        }
        return None;
    }
    let ghost p = visited(by_box, k as int);
    let mut value: usize = 1;
    while value <= 9
        invariant
            1 <= value <= 10,
            row < 9,
            col < 9,
            p == visited(by_box, k as int),
            p == at(row as int, col as int),
            cell@ == sudoku@[p],
            cell@.is_empty(),
            single_digit(sudoku@, by_box, k as int, 1) == single_digit(
                sudoku@,
                by_box,
                k as int,
                value as int,
            ),
        decreases 10 - value,
    {
        if cell.contains_possibility(value) {
            let set_value = if by_box {
                is_alone_in(sudoku, UnitKind::Square, row, col, value)
            } else {
                let set_value_row = is_alone_in(sudoku, UnitKind::Row, row, col, value);
                let set_value_col = is_alone_in(sudoku, UnitKind::Column, row, col, value);
                set_value_row || set_value_col
            };
            if set_value {
                assert(is_single(sudoku@, by_box, p, value as int));
                return Some(value);
            }
        }
        value += 1;
    }
    None
}

/// Strategy that confirms a digit in the only cell of a row, column or box
/// that still admits it.
pub struct SetHiddenSingles;

impl SetHiddenSingles {
    /// What one application does: the search along rows and columns, and
    /// the search in boxes only where the first found nothing.
    pub open spec fn pass(g: Grid) -> Grid {
        if set_first_single(g, false) != g {
            set_first_single(g, false)
        } else {
            set_first_single(g, true)
        }
    }

    /// Confirming the first single is a deduction that changes the grid
    /// exactly if it has a single, and it keeps every completion that was
    /// possible.
    proof fn lemma_first_single(g: Grid, by_box: bool, s: Seq<int>)
        requires
            grid_wf(g),
        ensures
            grid_wf(set_first_single(g, by_box)),
            refines(g, set_first_single(g, by_box)),
            (set_first_single(g, by_box) != g) == (first_cell(g, by_box, 0) < 81),
            valid_completion(s) && fits(g, s) ==> fits(set_first_single(g, by_box), s),
    {
        let k = first_cell(g, by_box, 0);
        lemma_first_cell(g, by_box, 0);
        if k < 81 {
            lemma_single_digit(g, by_box, k, 1);
            lemma_box_geometry();
            lemma_single(g, by_box, visited(by_box, k), single_digit(g, by_box, k, 1), s);
        } else {
            lemma_refines_refl(g);
        }
    }

    /// One application is a deduction, and it keeps every completion that
    /// was possible.
    pub proof fn lemma_pass(g: Grid, s: Seq<int>)
        requires
            grid_wf(g),
        ensures
            grid_wf(Self::pass(g)),
            refines(g, Self::pass(g)),
            valid_completion(s) && fits(g, s) ==> fits(Self::pass(g), s),
    {
        Self::lemma_first_single(g, false, s);
        Self::lemma_first_single(g, true, s);
    }

    /// A grid that the strategy leaves as it is has no single.
    pub proof fn lemma_quiet(t: Grid, by_box: bool, p: int, d: int)
        requires
            grid_wf(t),
            Self::pass(t) == t,
            0 <= p < 81,
            1 <= d <= 9,
        ensures
            !is_single(t, by_box, p, d),
    {
        Self::lemma_first_single(t, false, Seq::empty());
        Self::lemma_first_single(t, true, Seq::empty());
        lemma_first_cell(t, by_box, 0);
        lemma_box_geometry();
        let k = if by_box {
            9 * crate::model::box_of(p) + crate::model::slot_of(p)
        } else {
            p
        };
        assert(visited(by_box, k) == p);
        assert(single_digit(t, by_box, k, 1) == 10);
        lemma_single_digit(t, by_box, k, 1);
    }

    /// The strategy leaves a grid as it is if it lies above a grid that the
    /// strategy leaves as it is and that admits a valid completion.
    pub proof fn lemma_above(g: Grid, t: Grid, s: Seq<int>)
        requires
            grid_wf(g),
            grid_wf(t),
            above(g, t),
            Self::pass(t) == t,
            valid_completion(s),
            fits(t, s),
        ensures
            Self::pass(g) == g,
    {
        Self::lemma_no_single_above(g, t, false, s);
        Self::lemma_no_single_above(g, t, true, s);
    }

    /// A grid has no single if it lies above a grid that the strategy leaves
    /// as it is and that admits a valid completion.
    proof fn lemma_no_single_above(g: Grid, t: Grid, by_box: bool, s: Seq<int>)
        requires
            grid_wf(g),
            grid_wf(t),
            above(g, t),
            Self::pass(t) == t,
            valid_completion(s),
            fits(t, s),
        ensures
            set_first_single(g, by_box) == g,
    {
        let k = first_cell(g, by_box, 0);
        lemma_first_cell(g, by_box, 0);
        if k < 81 {
            let d = single_digit(g, by_box, k, 1);
            lemma_single_digit(g, by_box, k, 1);
            lemma_box_geometry();
            let p = visited(by_box, k);
            lemma_single_below(g, t, by_box, p, d, s);
            Self::lemma_quiet(t, by_box, p, d);
        }
    }

    /// Confirms the first single in visiting order and says whether there
    /// was one.
    fn set_first(sudoku: &mut SudokuTemplate, by_box: bool) -> (changed: bool)
        requires
            old(sudoku).wf(),
        ensures
            final(sudoku)@ == set_first_single(old(sudoku)@, by_box),
            changed == (final(sudoku)@ != old(sudoku)@),
            final(sudoku).wf(),
            refines(old(sudoku)@, final(sudoku)@),
    {
        let ghost g = sudoku@;
        let mut k: usize = 0;
        while k < 81
            invariant
                k <= 81,
                sudoku@ == g,
                g == old(sudoku)@,
                sudoku.wf(),
                first_cell(g, by_box, 0) == first_cell(g, by_box, k as int),
            decreases 81 - k,
        {
            match find_single(sudoku, by_box, k) {
                Some(value) => {
                    let (row, col) = visited_cell(by_box, k);
                    proof {
                        lemma_single_digit(g, by_box, k as int, 1);
                        lemma_single(g, by_box, visited(by_box, k as int), value as int, Seq::empty());
                    }
                    sudoku.set_at(row, col, value);
                    return true;
                },
                None => {},
            }
            k += 1;
        }
        proof {
            lemma_refines_refl(g);
        }
        false
    }

    /// For each possible value of each empty cell, in row-major order: sets
    /// the value if it is possible in no other cell of the row, or in no
    /// other cell of the column, and stops at the first value set.
    pub fn in_rows_and_columns(sudoku: &mut SudokuTemplate) -> (changed: bool)
        requires
            old(sudoku).wf(),
        ensures
            final(sudoku)@ == set_first_single(old(sudoku)@, false),
            changed == (final(sudoku)@ != old(sudoku)@),
            final(sudoku).wf(),
            refines(old(sudoku)@, final(sudoku)@),
    {
        Self::set_first(sudoku, false)
    }

    /// For each possible value of each empty cell, box by box: sets the
    /// value if it is possible in no other cell of the box, and stops at the
    /// first value set.
    pub fn in_squares(sudoku: &mut SudokuTemplate) -> (changed: bool)
        requires
            old(sudoku).wf(),
        ensures
            final(sudoku)@ == set_first_single(old(sudoku)@, true),
            changed == (final(sudoku)@ != old(sudoku)@),
            final(sudoku).wf(),
            refines(old(sudoku)@, final(sudoku)@),
    {
        Self::set_first(sudoku, true)
    }

    /// Applies the strategy once and says whether the grid changed.
    pub fn solve(&self, sudoku: &mut SudokuTemplate) -> (changed: bool)
        requires
            old(sudoku).wf(),
        ensures
            final(sudoku)@ == Self::pass(old(sudoku)@),
            changed == (final(sudoku)@ != old(sudoku)@),
            final(sudoku).wf(),
            refines(old(sudoku)@, final(sudoku)@),
    {
        if Self::in_rows_and_columns(sudoku) {
            true
        } else {
            Self::in_squares(sudoku)
        }
    }

    /// The tier of this strategy.
    pub fn difficulty(&self) -> (tier: Difficulty)
        ensures
            tier == Difficulty::Easy,
    {
        Difficulty::Easy
    }
}

} // verus!
