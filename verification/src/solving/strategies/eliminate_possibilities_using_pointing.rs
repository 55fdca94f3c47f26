//! Elimination by pointing: where all candidate cells of a digit in a row or
//! column lie in one box, the digit leaves the rest of that box; where all
//! its candidate cells in a box lie in one row or column, it leaves the rest
//! of that row or column.

use vstd::prelude::*;
use crate::model::{
    above, absent, band_of, box_cell, box_cells, box_has, box_of, col_cell, col_cells, col_has,
    col_of, fits, grid_wf, lemma_at_geometry, lemma_box_geometry, lemma_listing, lemma_missing_same,
    lemma_refines_chain, lemma_refines_refl, lemma_refines_trans, lemma_strike, lemma_strike_above,
    lemma_strike_fits, lemma_strike_quiet, missing_in, placed, refines, related, row_cell,
    row_cells, row_has, row_of, slot_of, stack_of, strike, valid_completion, Grid,
};
use crate::traits::cell::as_ints;
use crate::traits::difficulty::Difficulty;
use crate::traits::sudoku_template::{SudokuTemplate, UnitKind};

verus! {

/// `d` is a candidate somewhere in `cells`, and only in the third of them
/// with number `b` (cells 0 to 2, 3 to 5, or 6 to 8).
pub open spec fn confined_to_third(g: Grid, cells: Seq<int>, d: int, b: int) -> bool {
    &&& exists|j: int| 0 <= j < 9 && g[#[trigger] cells[j]].cands.contains(d)
    &&& forall|j: int| 0 <= j < 9 && g[#[trigger] cells[j]].cands.contains(d) ==> j / 3 == b
}

/// `d` is a candidate somewhere in `cells`, and only in cells whose number
/// leaves the remainder `y` when divided by 3.
pub open spec fn confined_to_residue(g: Grid, cells: Seq<int>, d: int, y: int) -> bool {
    &&& exists|j: int| 0 <= j < 9 && g[#[trigger] cells[j]].cands.contains(d)
    &&& forall|j: int| 0 <= j < 9 && g[#[trigger] cells[j]].cands.contains(d) ==> j % 3 == y
}

/// The cells that `d` leaves because, in `row`, it is confined to one box:
/// the rest of that box.
pub open spec fn row_pointing_region(g: Grid, row: int, d: int) -> Set<int> {
    Set::new(
        |q: int|
            band_of(q) == row / 3 && row_of(q) != row && confined_to_third(
                g,
                row_cells(row),
                d,
                stack_of(q),
            ),
    )
}

/// The cells that `d` leaves because, in `col`, it is confined to one box:
/// the rest of that box.
pub open spec fn col_pointing_region(g: Grid, col: int, d: int) -> Set<int> {
    Set::new(
        |q: int|
            stack_of(q) == col / 3 && col_of(q) != col && confined_to_third(
                g,
                col_cells(col),
                d,
                band_of(q),
            ),
    )
}

/// The cells that `d` leaves because, in box `i`, it is confined to one row
/// or to one column: the rest of that row or column.
pub open spec fn box_pointing_region(g: Grid, i: int, d: int) -> Set<int> {
    Set::new(
        |q: int|
            box_of(q) != i && ((band_of(q) == i / 3 && confined_to_third(
                g,
                box_cells(i),
                d,
                row_of(q) % 3,
            )) || (stack_of(q) == i % 3 && confined_to_residue(
                g,
                box_cells(i),
                d,
                col_of(q) % 3,
            ))),
    )
}

/// The grid after the first `n` digits of `values` were tried in `row`.
pub open spec fn point_row_values(h: Grid, row: int, values: Seq<int>, n: int) -> Grid
    decreases n,
{
    if n <= 0 {
        h
    } else {
        let h1 = point_row_values(h, row, values, n - 1);
        strike(h1, values[n - 1], row_pointing_region(h1, row, values[n - 1]))
    }
}

/// The grid after the first `n` rows were tried, each with the digits that
/// were missing in it when its turn came.
pub open spec fn point_rows(g: Grid, n: int) -> Grid
    decreases n,
{
    if n <= 0 {
        g
    } else {
        let h = point_rows(g, n - 1);
        let values = missing_in(h, row_cells(n - 1));
        point_row_values(h, n - 1, values, values.len() as int)
    }
}

/// The grid after the first `n` digits of `values` were tried in `col`.
pub open spec fn point_col_values(h: Grid, col: int, values: Seq<int>, n: int) -> Grid
    decreases n,
{
    if n <= 0 {
        h
    } else {
        let h1 = point_col_values(h, col, values, n - 1);
        strike(h1, values[n - 1], col_pointing_region(h1, col, values[n - 1]))
    }
}

/// The grid after the first `n` columns were tried, each with the digits
/// that were missing in it when its turn came.
pub open spec fn point_cols(g: Grid, n: int) -> Grid
    decreases n,
{
    if n <= 0 {
        g
    } else {
        let h = point_cols(g, n - 1);
        let values = missing_in(h, col_cells(n - 1));
        point_col_values(h, n - 1, values, values.len() as int)
    }
}

/// The grid after the first `n` digits of `values` were tried in box `i`.
pub open spec fn point_box_values(h: Grid, i: int, values: Seq<int>, n: int) -> Grid
    decreases n,
{
    if n <= 0 {
        h
    } else {
        let h1 = point_box_values(h, i, values, n - 1);
        strike(h1, values[n - 1], box_pointing_region(h1, i, values[n - 1]))
    }
}

/// The grid after the first `n` boxes were tried, each with the digits that
/// were missing in it when its turn came.
pub open spec fn point_boxes(g: Grid, n: int) -> Grid
    decreases n,
{
    if n <= 0 {
        g
    } else {
        let h = point_boxes(g, n - 1);
        let values = missing_in(h, box_cells(n - 1));
        point_box_values(h, n - 1, values, values.len() as int)
    }
}

/// Strategy that looks for digits which a row or column confines to one
/// box, or a box to one row or column.
pub struct EliminatePossibilitiesUsingPointing;

impl EliminatePossibilitiesUsingPointing {
    /// What the pass over rows and then columns does.
    pub open spec fn rows_and_columns(g: Grid) -> Grid {
        point_cols(point_rows(g, 9), 9)
    }

    /// What one application does: the pass over rows and columns, and the
    /// pass over boxes only where the first changed nothing.
    pub open spec fn pass(g: Grid) -> Grid {
        if Self::rows_and_columns(g) != g {
            Self::rows_and_columns(g)
        } else {
            point_boxes(g, 9)
        }
    }

    /// Striking a digit that a row confines to one box from the rest of the
    /// box keeps every completion that was possible.
    proof fn lemma_row_step(h: Grid, row: int, d: int, s: Seq<int>)
        requires
            grid_wf(h),
            0 <= row < 9,
            1 <= d <= 9,
            valid_completion(s),
            fits(h, s),
        ensures
            fits(strike(h, d, row_pointing_region(h, row, d)), s),
    {
        let region = row_pointing_region(h, row, d);
        assert(row_has(s, row, d));
        let c0 = choose|j: int| 0 <= j < 9 && s[#[trigger] row_cell(row, j)] == d;
        let q0 = row_cell(row, c0);
        lemma_at_geometry(row, c0);
        assert(h[q0].cands.contains(s[q0]));
        assert(row_cells(row)[c0] == q0);
        assert forall|q: int| 0 <= q < 81 && region.contains(q) implies s[q] != d by {
            assert(c0 / 3 == stack_of(q));
            assert(box_of(q) == box_of(q0));
            assert(related(q0, q));
        }
        lemma_strike_fits(h, d, region, s);
    }

    /// Striking a digit that a column confines to one box from the rest of
    /// the box keeps every completion that was possible.
    proof fn lemma_col_step(h: Grid, col: int, d: int, s: Seq<int>)
        requires
            grid_wf(h),
            0 <= col < 9,
            1 <= d <= 9,
            valid_completion(s),
            fits(h, s),
        ensures
            fits(strike(h, d, col_pointing_region(h, col, d)), s),
    {
        let region = col_pointing_region(h, col, d);
        assert(col_has(s, col, d));
        let r0 = choose|j: int| 0 <= j < 9 && s[#[trigger] col_cell(col, j)] == d;
        let q0 = col_cell(col, r0);
        lemma_at_geometry(r0, col);
        assert(h[q0].cands.contains(s[q0]));
        assert(col_cells(col)[r0] == q0);
        assert forall|q: int| 0 <= q < 81 && region.contains(q) implies s[q] != d by {
            assert(r0 / 3 == band_of(q));
            assert(box_of(q) == box_of(q0));
            assert(related(q0, q));
        }
        lemma_strike_fits(h, d, region, s);
    }

    /// Striking a digit that a box confines to one row or column from the
    /// rest of that row or column keeps every completion that was possible.
    proof fn lemma_box_step(h: Grid, i: int, d: int, s: Seq<int>)
        requires
            grid_wf(h),
            0 <= i < 9,
            1 <= d <= 9,
            valid_completion(s),
            fits(h, s),
        ensures
            fits(strike(h, d, box_pointing_region(h, i, d)), s),
    {
        let region = box_pointing_region(h, i, d);
        assert(box_has(s, i, d));
        let j0 = choose|j: int| 0 <= j < 9 && s[#[trigger] box_cell(i, j)] == d;
        let q0 = box_cell(i, j0);
        lemma_box_geometry();
        assert(h[q0].cands.contains(s[q0]));
        assert(box_cells(i)[j0] == q0);
        assert forall|q: int| 0 <= q < 81 && region.contains(q) implies s[q] != d by {
            if band_of(q) == i / 3 && confined_to_third(h, box_cells(i), d, row_of(q) % 3) {
                assert(j0 / 3 == row_of(q) % 3);
                assert(row_of(q0) == row_of(q));
            } else {
                assert(j0 % 3 == col_of(q) % 3);
                assert(col_of(q0) == col_of(q));
            }
            assert(related(q0, q));
        }
        lemma_strike_fits(h, d, region, s);
    }

    /// The search for a list of digits in one row is a chain of deductions, and
    /// it keeps every completion that was possible.
    proof fn lemma_row_values(h: Grid, row: int, values: Seq<int>, n: int, s: Seq<int>)
        requires
            grid_wf(h),
            0 <= row < 9,
            0 <= n <= values.len(),
            forall|k: int| 0 <= k < values.len() ==> 1 <= #[trigger] values[k] <= 9,
        ensures
            grid_wf(point_row_values(h, row, values, n)),
            refines(h, point_row_values(h, row, values, n)),
            valid_completion(s) && fits(h, s) ==> fits(point_row_values(h, row, values, n), s),
        decreases n,
    {
        if n > 0 {
            Self::lemma_row_values(h, row, values, n - 1, s);
            let h1 = point_row_values(h, row, values, n - 1);
            let d = values[n - 1];
            lemma_strike(h1, d, row_pointing_region(h1, row, d));
            lemma_refines_trans(h, h1, point_row_values(h, row, values, n));
            if valid_completion(s) && fits(h, s) {
                Self::lemma_row_step(h1, row, d, s);
            }
        } else {
            lemma_refines_refl(h);
        }
    }

    /// The search for a list of digits in one column is a chain of deductions,
    /// and it keeps every completion that was possible.
    proof fn lemma_col_values(h: Grid, col: int, values: Seq<int>, n: int, s: Seq<int>)
        requires
            grid_wf(h),
            0 <= col < 9,
            0 <= n <= values.len(),
            forall|k: int| 0 <= k < values.len() ==> 1 <= #[trigger] values[k] <= 9,
        ensures
            grid_wf(point_col_values(h, col, values, n)),
            refines(h, point_col_values(h, col, values, n)),
            valid_completion(s) && fits(h, s) ==> fits(point_col_values(h, col, values, n), s),
        decreases n,
    {
        if n > 0 {
            Self::lemma_col_values(h, col, values, n - 1, s);
            let h1 = point_col_values(h, col, values, n - 1);
            let d = values[n - 1];
            lemma_strike(h1, d, col_pointing_region(h1, col, d));
            lemma_refines_trans(h, h1, point_col_values(h, col, values, n));
            if valid_completion(s) && fits(h, s) {
                Self::lemma_col_step(h1, col, d, s);
            }
        } else {
            lemma_refines_refl(h);
        }
    }

    /// The search for a list of digits in one box is a chain of deductions, and
    /// it keeps every completion that was possible.
    proof fn lemma_box_values(h: Grid, i: int, values: Seq<int>, n: int, s: Seq<int>)
        requires
            grid_wf(h),
            0 <= i < 9,
            0 <= n <= values.len(),
            forall|k: int| 0 <= k < values.len() ==> 1 <= #[trigger] values[k] <= 9,
        ensures
            grid_wf(point_box_values(h, i, values, n)),
            refines(h, point_box_values(h, i, values, n)),
            valid_completion(s) && fits(h, s) ==> fits(point_box_values(h, i, values, n), s),
        decreases n,
    {
        if n > 0 {
            Self::lemma_box_values(h, i, values, n - 1, s);
            let h1 = point_box_values(h, i, values, n - 1);
            let d = values[n - 1];
            lemma_strike(h1, d, box_pointing_region(h1, i, d));
            lemma_refines_trans(h, h1, point_box_values(h, i, values, n));
            if valid_completion(s) && fits(h, s) {
                Self::lemma_box_step(h1, i, d, s);
            }
        } else {
            lemma_refines_refl(h);
        }
    }

    /// The search in the first rows is a chain of deductions, and it keeps
    /// every completion that was possible.
    proof fn lemma_rows(g: Grid, n: int, s: Seq<int>)
        requires
            grid_wf(g),
            0 <= n <= 9,
        ensures
            grid_wf(point_rows(g, n)),
            refines(g, point_rows(g, n)),
            valid_completion(s) && fits(g, s) ==> fits(point_rows(g, n), s),
        decreases n,
    {
        if n > 0 {
            Self::lemma_rows(g, n - 1, s);
            let h = point_rows(g, n - 1);
            let values = missing_in(h, row_cells(n - 1));
            lemma_listing(absent(placed(h, row_cells(n - 1))));
            Self::lemma_row_values(h, n - 1, values, values.len() as int, s);
            lemma_refines_trans(g, h, point_rows(g, n));
        } else {
            lemma_refines_refl(g);
        }
    }

    /// The search in the first columns is a chain of deductions, and it keeps
    /// every completion that was possible.
    proof fn lemma_cols(g: Grid, n: int, s: Seq<int>)
        requires
            grid_wf(g),
            0 <= n <= 9,
        ensures
            grid_wf(point_cols(g, n)),
            refines(g, point_cols(g, n)),
            valid_completion(s) && fits(g, s) ==> fits(point_cols(g, n), s),
        decreases n,
    {
        if n > 0 {
            Self::lemma_cols(g, n - 1, s);
            let h = point_cols(g, n - 1);
            let values = missing_in(h, col_cells(n - 1));
            lemma_listing(absent(placed(h, col_cells(n - 1))));
            Self::lemma_col_values(h, n - 1, values, values.len() as int, s);
            lemma_refines_trans(g, h, point_cols(g, n));
        } else {
            lemma_refines_refl(g);
        }
    }

    /// The search in the first boxes is a chain of deductions, and it keeps
    /// every completion that was possible.
    proof fn lemma_boxes(g: Grid, n: int, s: Seq<int>)
        requires
            grid_wf(g),
            0 <= n <= 9,
        ensures
            grid_wf(point_boxes(g, n)),
            refines(g, point_boxes(g, n)),
            valid_completion(s) && fits(g, s) ==> fits(point_boxes(g, n), s),
        decreases n,
    {
        if n > 0 {
            Self::lemma_boxes(g, n - 1, s);
            let h = point_boxes(g, n - 1);
            let values = missing_in(h, box_cells(n - 1));
            lemma_listing(absent(placed(h, box_cells(n - 1))));
            Self::lemma_box_values(h, n - 1, values, values.len() as int, s);
            lemma_refines_trans(g, h, point_boxes(g, n));
        } else {
            lemma_refines_refl(g);
        }
    }

    /// One application is a chain of deductions, and it keeps every
    /// completion that was possible.
    pub proof fn lemma_pass(g: Grid, s: Seq<int>)
        requires
            grid_wf(g),
        ensures
            grid_wf(Self::pass(g)),
            refines(g, Self::pass(g)),
            valid_completion(s) && fits(g, s) ==> fits(Self::pass(g), s),
    {
        Self::lemma_rows(g, 9, s);
        Self::lemma_cols(point_rows(g, 9), 9, s);
        lemma_refines_trans(g, point_rows(g, 9), Self::rows_and_columns(g));
        Self::lemma_boxes(g, 9, s);
    }

    /// A digit that a unit confines to one of its thirds in a grid is
    /// confined to the same third in every grid below that admits a valid
    /// completion.
    proof fn lemma_third_below(
        g: Grid,
        t: Grid,
        kind: UnitKind,
        i: int,
        cells: Seq<int>,
        d: int,
        b: int,
        s: Seq<int>,
    )
        requires
            above(g, t),
            0 <= i < 9,
            1 <= d <= 9,
            cells.len() == 9,
            forall|j: int| 0 <= j < 9 ==> #[trigger] cells[j] == kind.cell(i, j),
            confined_to_third(g, cells, d, b),
            valid_completion(s),
            fits(t, s),
        ensures
            confined_to_third(t, cells, d, b),
    {
        kind.lemma_geometry();
        kind.lemma_has(s, i, d);
        let j0 = choose|j: int| 0 <= j < 9 && s[#[trigger] kind.cell(i, j)] == d;
        assert(t[cells[j0]].cands.contains(s[cells[j0]]));
        assert forall|j: int| 0 <= j < 9 && t[#[trigger] cells[j]].cands.contains(d) implies j / 3
            == b by {
            assert(g[cells[j]].narrows_to(t[cells[j]]));
        }
    }

    /// A digit that a unit confines to the cells of one remainder in a grid
    /// is confined to the same cells in every grid below that admits a
    /// valid completion.
    proof fn lemma_residue_below(
        g: Grid,
        t: Grid,
        kind: UnitKind,
        i: int,
        cells: Seq<int>,
        d: int,
        y: int,
        s: Seq<int>,
    )
        requires
            above(g, t),
            0 <= i < 9,
            1 <= d <= 9,
            cells.len() == 9,
            forall|j: int| 0 <= j < 9 ==> #[trigger] cells[j] == kind.cell(i, j),
            confined_to_residue(g, cells, d, y),
            valid_completion(s),
            fits(t, s),
        ensures
            confined_to_residue(t, cells, d, y),
    {
        kind.lemma_geometry();
        kind.lemma_has(s, i, d);
        let j0 = choose|j: int| 0 <= j < 9 && s[#[trigger] kind.cell(i, j)] == d;
        assert(t[cells[j0]].cands.contains(s[cells[j0]]));
        assert forall|j: int| 0 <= j < 9 && t[#[trigger] cells[j]].cands.contains(d) implies j % 3
            == y by {
            assert(g[cells[j]].narrows_to(t[cells[j]]));
        }
    }

    /// A grid that the search with `values` in row `row` leaves as it
    /// is was left as it is by every step of the search.
    proof fn lemma_row_values_quiet(t: Grid, row: int, values: Seq<int>, n: int, k: int)
        requires
            grid_wf(t),
            0 <= row < 9,
            0 <= k <= n <= values.len(),
            forall|m: int| 0 <= m < values.len() ==> 1 <= #[trigger] values[m] <= 9,
            point_row_values(t, row, values, n) == t,
        ensures
            point_row_values(t, row, values, k) == t,
        decreases n - k,
    {
        if k < n {
            Self::lemma_row_values(t, row, values, n - 1, Seq::empty());
            let h = point_row_values(t, row, values, n - 1);
            lemma_strike(h, values[n - 1], row_pointing_region(h, row, values[n - 1]));
            lemma_refines_chain(t, h, point_row_values(t, row, values, n));
            Self::lemma_row_values_quiet(t, row, values, n - 1, k);
        }
    }

    /// A grid that the search in the first `n` rows leaves as it is was
    /// left as it is by the search in each of them.
    proof fn lemma_rows_quiet(t: Grid, n: int, k: int)
        requires
            grid_wf(t),
            0 <= k <= n <= 9,
            point_rows(t, n) == t,
        ensures
            point_rows(t, k) == t,
        decreases n - k,
    {
        if k < n {
            Self::lemma_rows(t, n - 1, Seq::empty());
            let h = point_rows(t, n - 1);
            let values = missing_in(h, row_cells(n - 1));
            lemma_listing(absent(placed(h, row_cells(n - 1))));
            Self::lemma_row_values(h, n - 1, values, values.len() as int, Seq::empty());
            lemma_refines_chain(t, h, point_rows(t, n));
            Self::lemma_rows_quiet(t, n - 1, k);
        }
    }

    /// The search with `values` in row `row` keeps a grid above a grid
    /// that this search leaves as it is and that admits a valid completion.
    proof fn lemma_row_values_above(
        g: Grid,
        t: Grid,
        row: int,
        values: Seq<int>,
        n: int,
        s: Seq<int>,
    )
        requires
            grid_wf(g),
            grid_wf(t),
            above(g, t),
            0 <= row < 9,
            0 <= n <= values.len(),
            forall|m: int| 0 <= m < values.len() ==> 1 <= #[trigger] values[m] <= 9,
            point_row_values(t, row, values, values.len() as int) == t,
            valid_completion(s),
            fits(t, s),
        ensures
            grid_wf(point_row_values(g, row, values, n)),
            above(point_row_values(g, row, values, n), t),
        decreases n,
    {
        if n > 0 {
            Self::lemma_row_values_above(g, t, row, values, n - 1, s);
            let h = point_row_values(g, row, values, n - 1);
            let d = values[n - 1];
            Self::lemma_row_values_quiet(t, row, values, values.len() as int, n);
            Self::lemma_row_values_quiet(t, row, values, values.len() as int, n - 1);
            let low = row_pointing_region(t, row, d);
            assert(strike(t, d, low) == t);
            lemma_strike_quiet(t, d, low);
            let cells = row_cells(row);
            assert forall|q: int|
                0 <= q < 81 && row_pointing_region(h, row, d).contains(q) implies !t[q].cands.contains(
                d,
            ) by {
                Self::lemma_third_below(h, t, UnitKind::Row, row, cells, d, stack_of(q), s);
                assert(low.contains(q));
            }
            lemma_strike_above(h, t, d, row_pointing_region(h, row, d));
        }
    }

    /// The search in the first `n` rows keeps a grid above a grid that
    /// the search in all rows leaves as it is and that admits a valid
    /// completion.
    proof fn lemma_rows_above(g: Grid, t: Grid, n: int, s: Seq<int>)
        requires
            grid_wf(g),
            grid_wf(t),
            above(g, t),
            0 <= n <= 9,
            point_rows(t, 9) == t,
            valid_completion(s),
            fits(t, s),
        ensures
            grid_wf(point_rows(g, n)),
            above(point_rows(g, n), t),
        decreases n,
    {
        if n > 0 {
            Self::lemma_rows_above(g, t, n - 1, s);
            let h = point_rows(g, n - 1);
            UnitKind::Row.lemma_geometry();
            lemma_box_geometry();
            lemma_missing_same(h, t, row_cells(n - 1));
            let values = missing_in(t, row_cells(n - 1));
            lemma_listing(absent(placed(t, row_cells(n - 1))));
            Self::lemma_rows_quiet(t, 9, n);
            Self::lemma_rows_quiet(t, 9, n - 1);
            Self::lemma_row_values_above(h, t, n - 1, values, values.len() as int, s);
        }
    }

    /// A grid that the search with `values` in column `col` leaves as it
    /// is was left as it is by every step of the search.
    proof fn lemma_col_values_quiet(t: Grid, col: int, values: Seq<int>, n: int, k: int)
        requires
            grid_wf(t),
            0 <= col < 9,
            0 <= k <= n <= values.len(),
            forall|m: int| 0 <= m < values.len() ==> 1 <= #[trigger] values[m] <= 9,
            point_col_values(t, col, values, n) == t,
        ensures
            point_col_values(t, col, values, k) == t,
        decreases n - k,
    {
        if k < n {
            Self::lemma_col_values(t, col, values, n - 1, Seq::empty());
            let h = point_col_values(t, col, values, n - 1);
            lemma_strike(h, values[n - 1], col_pointing_region(h, col, values[n - 1]));
            lemma_refines_chain(t, h, point_col_values(t, col, values, n));
            Self::lemma_col_values_quiet(t, col, values, n - 1, k);
        }
    }

    /// A grid that the search in the first `n` columns leaves as it is was
    /// left as it is by the search in each of them.
    proof fn lemma_cols_quiet(t: Grid, n: int, k: int)
        requires
            grid_wf(t),
            0 <= k <= n <= 9,
            point_cols(t, n) == t,
        ensures
            point_cols(t, k) == t,
        decreases n - k,
    {
        if k < n {
            Self::lemma_cols(t, n - 1, Seq::empty());
            let h = point_cols(t, n - 1);
            let values = missing_in(h, col_cells(n - 1));
            lemma_listing(absent(placed(h, col_cells(n - 1))));
            Self::lemma_col_values(h, n - 1, values, values.len() as int, Seq::empty());
            lemma_refines_chain(t, h, point_cols(t, n));
            Self::lemma_cols_quiet(t, n - 1, k);
        }
    }

    /// The search with `values` in column `col` keeps a grid above a grid
    /// that this search leaves as it is and that admits a valid completion.
    proof fn lemma_col_values_above(
        g: Grid,
        t: Grid,
        col: int,
        values: Seq<int>,
        n: int,
        s: Seq<int>,
    )
        requires
            grid_wf(g),
            grid_wf(t),
            above(g, t),
            0 <= col < 9,
            0 <= n <= values.len(),
            forall|m: int| 0 <= m < values.len() ==> 1 <= #[trigger] values[m] <= 9,
            point_col_values(t, col, values, values.len() as int) == t,
            valid_completion(s),
            fits(t, s),
        ensures
            grid_wf(point_col_values(g, col, values, n)),
            above(point_col_values(g, col, values, n), t),
        decreases n,
    {
        if n > 0 {
            Self::lemma_col_values_above(g, t, col, values, n - 1, s);
            let h = point_col_values(g, col, values, n - 1);
            let d = values[n - 1];
            Self::lemma_col_values_quiet(t, col, values, values.len() as int, n);
            Self::lemma_col_values_quiet(t, col, values, values.len() as int, n - 1);
            let low = col_pointing_region(t, col, d);
            assert(strike(t, d, low) == t);
            lemma_strike_quiet(t, d, low);
            let cells = col_cells(col);
            assert forall|q: int|
                0 <= q < 81 && col_pointing_region(h, col, d).contains(q) implies !t[q].cands.contains(
                d,
            ) by {
                Self::lemma_third_below(h, t, UnitKind::Column, col, cells, d, band_of(q), s);
                assert(low.contains(q));
            }
            lemma_strike_above(h, t, d, col_pointing_region(h, col, d));
        }
    }

    /// The search in the first `n` columns keeps a grid above a grid that
    /// the search in all columns leaves as it is and that admits a valid
    /// completion.
    proof fn lemma_cols_above(g: Grid, t: Grid, n: int, s: Seq<int>)
        requires
            grid_wf(g),
            grid_wf(t),
            above(g, t),
            0 <= n <= 9,
            point_cols(t, 9) == t,
            valid_completion(s),
            fits(t, s),
        ensures
            grid_wf(point_cols(g, n)),
            above(point_cols(g, n), t),
        decreases n,
    {
        if n > 0 {
            Self::lemma_cols_above(g, t, n - 1, s);
            let h = point_cols(g, n - 1);
            UnitKind::Column.lemma_geometry();
            lemma_box_geometry();
            lemma_missing_same(h, t, col_cells(n - 1));
            let values = missing_in(t, col_cells(n - 1));
            lemma_listing(absent(placed(t, col_cells(n - 1))));
            Self::lemma_cols_quiet(t, 9, n);
            Self::lemma_cols_quiet(t, 9, n - 1);
            Self::lemma_col_values_above(h, t, n - 1, values, values.len() as int, s);
        }
    }

    /// A grid that the search with `values` in box `i` leaves as it
    /// is was left as it is by every step of the search.
    proof fn lemma_box_values_quiet(t: Grid, i: int, values: Seq<int>, n: int, k: int)
        requires
            grid_wf(t),
            0 <= i < 9,
            0 <= k <= n <= values.len(),
            forall|m: int| 0 <= m < values.len() ==> 1 <= #[trigger] values[m] <= 9,
            point_box_values(t, i, values, n) == t,
        ensures
            point_box_values(t, i, values, k) == t,
        decreases n - k,
    {
        if k < n {
            Self::lemma_box_values(t, i, values, n - 1, Seq::empty());
            let h = point_box_values(t, i, values, n - 1);
            lemma_strike(h, values[n - 1], box_pointing_region(h, i, values[n - 1]));
            lemma_refines_chain(t, h, point_box_values(t, i, values, n));
            Self::lemma_box_values_quiet(t, i, values, n - 1, k);
        }
    }

    /// A grid that the search in the first `n` boxes leaves as it is was
    /// left as it is by the search in each of them.
    proof fn lemma_boxes_quiet(t: Grid, n: int, k: int)
        requires
            grid_wf(t),
            0 <= k <= n <= 9,
            point_boxes(t, n) == t,
        ensures
            point_boxes(t, k) == t,
        decreases n - k,
    {
        if k < n {
            Self::lemma_boxes(t, n - 1, Seq::empty());
            let h = point_boxes(t, n - 1);
            let values = missing_in(h, box_cells(n - 1));
            lemma_listing(absent(placed(h, box_cells(n - 1))));
            Self::lemma_box_values(h, n - 1, values, values.len() as int, Seq::empty());
            lemma_refines_chain(t, h, point_boxes(t, n));
            Self::lemma_boxes_quiet(t, n - 1, k);
        }
    }

    /// The search with `values` in box `i` keeps a grid above a grid
    /// that this search leaves as it is and that admits a valid completion.
    proof fn lemma_box_values_above(
        g: Grid,
        t: Grid,
        i: int,
        values: Seq<int>,
        n: int,
        s: Seq<int>,
    )
        requires
            grid_wf(g),
            grid_wf(t),
            above(g, t),
            0 <= i < 9,
            0 <= n <= values.len(),
            forall|m: int| 0 <= m < values.len() ==> 1 <= #[trigger] values[m] <= 9,
            point_box_values(t, i, values, values.len() as int) == t,
            valid_completion(s),
            fits(t, s),
        ensures
            grid_wf(point_box_values(g, i, values, n)),
            above(point_box_values(g, i, values, n), t),
        decreases n,
    {
        if n > 0 {
            Self::lemma_box_values_above(g, t, i, values, n - 1, s);
            let h = point_box_values(g, i, values, n - 1);
            let d = values[n - 1];
            Self::lemma_box_values_quiet(t, i, values, values.len() as int, n);
            Self::lemma_box_values_quiet(t, i, values, values.len() as int, n - 1);
            let low = box_pointing_region(t, i, d);
            assert(strike(t, d, low) == t);
            lemma_strike_quiet(t, d, low);
            let cells = box_cells(i);
            assert forall|q: int|
                0 <= q < 81 && box_pointing_region(h, i, d).contains(q) implies !t[q].cands.contains(
                d,
            ) by {
                if band_of(q) == i / 3 && confined_to_third(h, cells, d, row_of(q) % 3) {
                    Self::lemma_third_below(h, t, UnitKind::Square, i, cells, d, row_of(q) % 3, s);
                } else {
                    Self::lemma_residue_below(h, t, UnitKind::Square, i, cells, d, col_of(q) % 3, s);
                }
                assert(low.contains(q));
            }
            lemma_strike_above(h, t, d, box_pointing_region(h, i, d));
        }
    }

    /// The search in the first `n` boxes keeps a grid above a grid that
    /// the search in all boxes leaves as it is and that admits a valid
    /// completion.
    proof fn lemma_boxes_above(g: Grid, t: Grid, n: int, s: Seq<int>)
        requires
            grid_wf(g),
            grid_wf(t),
            above(g, t),
            0 <= n <= 9,
            point_boxes(t, 9) == t,
            valid_completion(s),
            fits(t, s),
        ensures
            grid_wf(point_boxes(g, n)),
            above(point_boxes(g, n), t),
        decreases n,
    {
        if n > 0 {
            Self::lemma_boxes_above(g, t, n - 1, s);
            let h = point_boxes(g, n - 1);
            UnitKind::Square.lemma_geometry();
            lemma_box_geometry();
            lemma_missing_same(h, t, box_cells(n - 1));
            let values = missing_in(t, box_cells(n - 1));
            lemma_listing(absent(placed(t, box_cells(n - 1))));
            Self::lemma_boxes_quiet(t, 9, n);
            Self::lemma_boxes_quiet(t, 9, n - 1);
            Self::lemma_box_values_above(h, t, n - 1, values, values.len() as int, s);
        }
    }

    /// One application keeps a grid above a grid that the strategy leaves
    /// as it is and that admits a valid completion.
    pub proof fn lemma_above(g: Grid, t: Grid, s: Seq<int>)
        requires
            grid_wf(g),
            grid_wf(t),
            above(g, t),
            Self::pass(t) == t,
            valid_completion(s),
            fits(t, s),
        ensures
            above(Self::pass(g), t),
    {
        Self::lemma_rows(t, 9, Seq::empty());
        Self::lemma_cols(point_rows(t, 9), 9, Seq::empty());
        lemma_refines_chain(t, point_rows(t, 9), Self::rows_and_columns(t));
        Self::lemma_rows_above(g, t, 9, s);
        Self::lemma_cols_above(point_rows(g, 9), t, 9, s);
        Self::lemma_boxes_above(g, t, 9, s);
    }

    /// The third of the `i`-th unit of a kind that holds all candidate cells
    /// of `value`, if one third does.
    fn third_holding(sudoku: &SudokuTemplate, kind: UnitKind, i: usize, value: usize) -> (third:
        Option<usize>)
        requires
            i < 9,
            1 <= value <= 9,
        ensures
            match third {
                Some(b) => b < 3 && confined_to_third(
                    sudoku@,
                    kind.cells(i as int),
                    value as int,
                    b as int,
                ),
                None => forall|b: int|
                    !confined_to_third(sudoku@, kind.cells(i as int), value as int, b),
            },
    {
        let ghost cells = kind.cells(i as int);
        let mut first: Option<usize> = None;
        let mut in_one = true;
        for j in 0..9usize
            invariant
                i < 9,
                1 <= value <= 9,
                cells == kind.cells(i as int),
                match first {
                    Some(b) => b < 3 && exists|k: int|
                        0 <= k < j && k / 3 == b && sudoku@[#[trigger] cells[k]].cands.contains(
                            value as int,
                        ),
                    None => forall|k: int|
                        0 <= k < j ==> !sudoku@[#[trigger] cells[k]].cands.contains(value as int),
                },
                in_one ==> forall|k: int|
                    0 <= k < j && sudoku@[#[trigger] cells[k]].cands.contains(value as int)
                        ==> first == Some((k / 3) as usize),
                !in_one ==> exists|k: int, l: int|
                    0 <= k < j && 0 <= l < j && k / 3 != l / 3 && sudoku@[#[trigger] cells[k]].cands.contains(
                        value as int,
                    ) && sudoku@[#[trigger] cells[l]].cands.contains(value as int),
        {
            let (row, col) = kind.coords(i, j);
            assert(cells[j as int] == crate::model::at(row as int, col as int));
            if sudoku.cell_at(row, col).contains_possibility(value) {
                match first {
                    None => {
                        first = Some(j / 3);
                    },
                    Some(b) => {
                        if b != j / 3 {
                            in_one = false;
                        }
                    },
                }
            }
        }
        if in_one {
            first
        } else {
            None
        }
    }

    /// The remainder modulo 3 that the numbers of all candidate cells of
    /// `value` in the `i`-th unit of a kind leave, if they all leave the
    /// same.
    fn residue_holding(sudoku: &SudokuTemplate, kind: UnitKind, i: usize, value: usize) -> (residue:
        Option<usize>)
        requires
            i < 9,
            1 <= value <= 9,
        ensures
            match residue {
                Some(y) => y < 3 && confined_to_residue(
                    sudoku@,
                    kind.cells(i as int),
                    value as int,
                    y as int,
                ),
                None => forall|y: int|
                    !confined_to_residue(sudoku@, kind.cells(i as int), value as int, y),
            },
    {
        let ghost cells = kind.cells(i as int);
        let mut first: Option<usize> = None;
        let mut in_one = true;
        for j in 0..9usize
            invariant
                i < 9,
                1 <= value <= 9,
                cells == kind.cells(i as int),
                match first {
                    Some(y) => y < 3 && exists|k: int|
                        0 <= k < j && k % 3 == y && sudoku@[#[trigger] cells[k]].cands.contains(
                            value as int,
                        ),
                    None => forall|k: int|
                        0 <= k < j ==> !sudoku@[#[trigger] cells[k]].cands.contains(value as int),
                },
                in_one ==> forall|k: int|
                    0 <= k < j && sudoku@[#[trigger] cells[k]].cands.contains(value as int)
                        ==> first == Some((k % 3) as usize),
                !in_one ==> exists|k: int, l: int|
                    0 <= k < j && 0 <= l < j && k % 3 != l % 3 && sudoku@[#[trigger] cells[k]].cands.contains(
                        value as int,
                    ) && sudoku@[#[trigger] cells[l]].cands.contains(value as int),
        {
            let (row, col) = kind.coords(i, j);
            assert(cells[j as int] == crate::model::at(row as int, col as int));
            if sudoku.cell_at(row, col).contains_possibility(value) {
                match first {
                    None => {
                        first = Some(j % 3);
                    },
                    Some(y) => {
                        if y != j % 3 {
                            in_one = false;
                        }
                    },
                }
            }
        }
        if in_one {
            first
        } else {
            None
        }
    }

    /// The cells that a digit leaves because a row confines it to the
    /// box in its third `b` are the cells of that box outside of the row;
    /// a digit that the row confines to no box leaves no cell.
    proof fn lemma_row_region(h: Grid, row: int, d: int, third: Option<usize>)
        requires
            0 <= row < 9,
            match third {
                Some(b) => b < 3 && confined_to_third(h, row_cells(row), d, b as int),
                None => forall|b: int| !confined_to_third(h, row_cells(row), d, b),
            },
        ensures
            forall|q: int|
                0 <= q < 81 ==> (#[trigger] row_pointing_region(h, row, d).contains(q) <==> (
                match third {
                    Some(b) => box_of(q) == 3 * (row / 3) + b && row_of(q) != row,
                    None => false,
                })),
    {
        let region = row_pointing_region(h, row, d);
        assert forall|q: int| 0 <= q < 81 implies (#[trigger] region.contains(q) <==> (match third {
            Some(b) => box_of(q) == 3 * (row / 3) + b && row_of(q) != row,
            None => false,
        })) by {
            if region.contains(q) {
                let j = choose|j: int|
                    0 <= j < 9 && h[#[trigger] row_cells(row)[j]].cands.contains(d);
                assert(j / 3 == stack_of(q));
            }
        }
    }

    /// Tries `value` in `row`: if all its candidate cells there lie in one
    /// box, strikes it from the rest of that box.
    fn with_value_in_row(
        sudoku: &mut SudokuTemplate,
        row: usize,
        value: usize,
        made_changes: &mut bool,
        Ghost(start): Ghost<Grid>,
    )
        requires
            old(sudoku).wf(),
            row < 9,
            1 <= value <= 9,
            refines(start, old(sudoku)@),
            *old(made_changes) == (old(sudoku)@ != start),
        ensures
            final(sudoku)@ == strike(
                old(sudoku)@,
                value as int,
                row_pointing_region(old(sudoku)@, row as int, value as int),
            ),
            final(sudoku).wf(),
            refines(start, final(sudoku)@),
            *final(made_changes) == (final(sudoku)@ != start),
    {
        let ghost h = sudoku@;
        let ghost region = row_pointing_region(h, row as int, value as int);
        assert(UnitKind::Row.cells(row as int) =~= row_cells(row as int));
        let third = Self::third_holding(sudoku, UnitKind::Row, row, value);
        proof {
            Self::lemma_row_region(h, row as int, value as int, third);
        }
        if let Some(sq_col) = third {
            let sq_row: usize = row / 3;
            Self::strike_rest_of_box(
                sudoku,
                3 * sq_row + sq_col,
                UnitKind::Row,
                row,
                value,
                made_changes,
                Ghost(start),
            );
        }
        assert(sudoku@ =~= strike(h, value as int, region));
    }

    /// The cells that a digit leaves because a column confines it to the
    /// box in its third `b` are the cells of that box outside of the column;
    /// a digit that the column confines to no box leaves no cell.
    proof fn lemma_col_region(h: Grid, col: int, d: int, third: Option<usize>)
        requires
            0 <= col < 9,
            match third {
                Some(b) => b < 3 && confined_to_third(h, col_cells(col), d, b as int),
                None => forall|b: int| !confined_to_third(h, col_cells(col), d, b),
            },
        ensures
            forall|q: int|
                0 <= q < 81 ==> (#[trigger] col_pointing_region(h, col, d).contains(q) <==> (
                match third {
                    Some(b) => box_of(q) == 3 * b + col / 3 && col_of(q) != col,
                    None => false,
                })),
    {
        let region = col_pointing_region(h, col, d);
        assert forall|q: int| 0 <= q < 81 implies (#[trigger] region.contains(q) <==> (match third {
            Some(b) => box_of(q) == 3 * b + col / 3 && col_of(q) != col,
            None => false,
        })) by {
            if region.contains(q) {
                let j = choose|j: int|
                    0 <= j < 9 && h[#[trigger] col_cells(col)[j]].cands.contains(d);
                assert(j / 3 == band_of(q));
            }
        }
    }

    /// Tries `value` in `col`: if all its candidate cells there lie in one
    /// box, strikes it from the rest of that box.
    fn with_value_in_column(
        sudoku: &mut SudokuTemplate,
        col: usize,
        value: usize,
        made_changes: &mut bool,
        Ghost(start): Ghost<Grid>,
    )
        requires
            old(sudoku).wf(),
            col < 9,
            1 <= value <= 9,
            refines(start, old(sudoku)@),
            *old(made_changes) == (old(sudoku)@ != start),
        ensures
            final(sudoku)@ == strike(
                old(sudoku)@,
                value as int,
                col_pointing_region(old(sudoku)@, col as int, value as int),
            ),
            final(sudoku).wf(),
            refines(start, final(sudoku)@),
            *final(made_changes) == (final(sudoku)@ != start),
    {
        let ghost h = sudoku@;
        let ghost region = col_pointing_region(h, col as int, value as int);
        assert(UnitKind::Column.cells(col as int) =~= col_cells(col as int));
        let third = Self::third_holding(sudoku, UnitKind::Column, col, value);
        proof {
            Self::lemma_col_region(h, col as int, value as int, third);
        }
        if let Some(sq_row) = third {
            let sq_col: usize = col / 3;
            Self::strike_rest_of_box(
                sudoku,
                3 * sq_row + sq_col,
                UnitKind::Column,
                col,
                value,
                made_changes,
                Ghost(start),
            );
        }
        assert(sudoku@ =~= strike(h, value as int, region));
    }

    /// Strikes `value` from the cells of box `i` outside of one row or
    /// column, the unit number `line` of the kind given.
    fn strike_rest_of_box(
        sudoku: &mut SudokuTemplate,
        i: usize,
        kind: UnitKind,
        line: usize,
        value: usize,
        made_changes: &mut bool,
        Ghost(start): Ghost<Grid>,
    )
        requires
            old(sudoku).wf(),
            i < 9,
            line < 9,
            kind != UnitKind::Square,
            refines(start, old(sudoku)@),
            *old(made_changes) == (old(sudoku)@ != start),
        ensures
            final(sudoku)@ == strike(
                old(sudoku)@,
                value as int,
                Set::new(|q: int| box_of(q) == i && kind.index_of(q) != line),
            ),
            final(sudoku).wf(),
            refines(start, final(sudoku)@),
            *final(made_changes) == (final(sudoku)@ != start),
    {
        let ghost h = sudoku@;
        proof {
            lemma_box_geometry();
        }
        for m in 0..9usize
            invariant
                i < 9,
                line < 9,
                kind != UnitKind::Square,
                h.len() == 81,
                sudoku.wf(),
                refines(start, sudoku@),
                *made_changes == (sudoku@ != start),
                forall|q: int|
                    0 <= q < 81 ==> #[trigger] sudoku@[q] == if box_of(q) == i && slot_of(q) < m
                        && kind.index_of(q) != line {
                        h[q].remove(value as int)
                    } else {
                        h[q]
                    },
        {
            proof {
                lemma_box_geometry();
            }
            let (cell_row, cell_col) = UnitKind::Square.coords(i, m);
            let in_line = match kind {
                UnitKind::Row => cell_row == line,
                _ => cell_col == line,
            };
            proof {
                lemma_at_geometry(cell_row as int, cell_col as int);
            }
            if !in_line {
                sudoku.strike_at(cell_row, cell_col, value, made_changes, Ghost(start));
            }
        }
        proof {
            lemma_box_geometry();
        }
        assert(sudoku@ =~= strike(
            h,
            value as int,
            Set::new(|q: int| box_of(q) == i && kind.index_of(q) != line),
        ));
    }

    /// Strikes `value` from the cells of `row` outside of the stack
    /// `sq_col`.
    fn strike_rest_of_row(
        sudoku: &mut SudokuTemplate,
        row: usize,
        sq_col: usize,
        value: usize,
        made_changes: &mut bool,
        Ghost(start): Ghost<Grid>,
    )
        requires
            old(sudoku).wf(),
            row < 9,
            sq_col < 3,
            refines(start, old(sudoku)@),
            *old(made_changes) == (old(sudoku)@ != start),
        ensures
            final(sudoku)@ == strike(
                old(sudoku)@,
                value as int,
                Set::new(|q: int| row_of(q) == row && stack_of(q) != sq_col),
            ),
            final(sudoku).wf(),
            refines(start, final(sudoku)@),
            *final(made_changes) == (final(sudoku)@ != start),
    {
        let ghost h = sudoku@;
        for col in 0..9usize
            invariant
                row < 9,
                sq_col < 3,
                h.len() == 81,
                sudoku.wf(),
                refines(start, sudoku@),
                *made_changes == (sudoku@ != start),
                forall|q: int|
                    0 <= q < 81 ==> #[trigger] sudoku@[q] == if row_of(q) == row && stack_of(q)
                        != sq_col && col_of(q) < col {
                        h[q].remove(value as int)
                    } else {
                        h[q]
                    },
        {
            if col / 3 != sq_col {
                proof {
                    lemma_at_geometry(row as int, col as int);
                }
                sudoku.strike_at(row, col, value, made_changes, Ghost(start));
            }
        }
        assert(sudoku@ =~= strike(
            h,
            value as int,
            Set::new(|q: int| row_of(q) == row && stack_of(q) != sq_col),
        ));
    }

    /// Strikes `value` from the cells of `col` outside of the band
    /// `sq_row`.
    fn strike_rest_of_column(
        sudoku: &mut SudokuTemplate,
        col: usize,
        sq_row: usize,
        value: usize,
        made_changes: &mut bool,
        Ghost(start): Ghost<Grid>,
    )
        requires
            old(sudoku).wf(),
            col < 9,
            sq_row < 3,
            refines(start, old(sudoku)@),
            *old(made_changes) == (old(sudoku)@ != start),
        ensures
            final(sudoku)@ == strike(
                old(sudoku)@,
                value as int,
                Set::new(|q: int| col_of(q) == col && band_of(q) != sq_row),
            ),
            final(sudoku).wf(),
            refines(start, final(sudoku)@),
            *final(made_changes) == (final(sudoku)@ != start),
    {
        let ghost h = sudoku@;
        for row in 0..9usize
            invariant
                col < 9,
                sq_row < 3,
                h.len() == 81,
                sudoku.wf(),
                refines(start, sudoku@),
                *made_changes == (sudoku@ != start),
                forall|q: int|
                    0 <= q < 81 ==> #[trigger] sudoku@[q] == if col_of(q) == col && band_of(q)
                        != sq_row && row_of(q) < row {
                        h[q].remove(value as int)
                    } else {
                        h[q]
                    },
        {
            if row / 3 != sq_row {
                proof {
                    lemma_at_geometry(row as int, col as int);
                }
                sudoku.strike_at(row, col, value, made_changes, Ghost(start));
            }
        }
        assert(sudoku@ =~= strike(
            h,
            value as int,
            Set::new(|q: int| col_of(q) == col && band_of(q) != sq_row),
        ));
    }

    /// The cells that `value` leaves because box `i` confines it to a row
    /// are those of that row outside the box, and likewise for a column.
    proof fn lemma_box_region(
        h: Grid,
        i: int,
        value: int,
        value_row: Option<usize>,
        value_col: Option<usize>,
    )
        requires
            0 <= i < 9,
            match value_row {
                Some(x) => x < 3 && confined_to_third(h, box_cells(i), value, x as int),
                None => forall|b: int| !confined_to_third(h, box_cells(i), value, b),
            },
            match value_col {
                Some(y) => y < 3 && confined_to_residue(h, box_cells(i), value, y as int),
                None => forall|y: int| !confined_to_residue(h, box_cells(i), value, y),
            },
        ensures
            forall|q: int|
                0 <= q < 81 ==> (#[trigger] box_pointing_region(h, i, value).contains(q) <==> ((
                match value_row {
                    Some(x) => row_of(q) == 3 * (i / 3) + x && stack_of(q) != i % 3,
                    None => false,
                }) || (match value_col {
                    Some(y) => col_of(q) == 3 * (i % 3) + y && band_of(q) != i / 3,
                    None => false,
                }))),
    {
        let region = box_pointing_region(h, i, value);
        let cells = box_cells(i);
        lemma_box_geometry();
        assert forall|q: int| 0 <= q < 81 implies (#[trigger] region.contains(q) <==> ((
        match value_row {
            Some(x) => row_of(q) == 3 * (i / 3) + x && stack_of(q) != i % 3,
            None => false,
        }) || (match value_col {
            Some(y) => col_of(q) == 3 * (i % 3) + y && band_of(q) != i / 3,
            None => false,
        }))) by {
            if band_of(q) == i / 3 && confined_to_third(h, cells, value, row_of(q) % 3) {
                let j = choose|j: int| 0 <= j < 9 && h[#[trigger] cells[j]].cands.contains(value);
                assert(j / 3 == row_of(q) % 3);
            }
            if stack_of(q) == i % 3 && confined_to_residue(h, cells, value, col_of(q) % 3) {
                let j = choose|j: int| 0 <= j < 9 && h[#[trigger] cells[j]].cands.contains(value);
                assert(j % 3 == col_of(q) % 3);
            }
        }
    }

    /// Tries `value` in box `i`: if all its candidate cells there lie in
    /// one row, strikes it from the rest of that row, and likewise for a
    /// column.
    fn with_value_in_square(
        sudoku: &mut SudokuTemplate,
        i: usize,
        value: usize,
        made_changes: &mut bool,
        Ghost(start): Ghost<Grid>,
    )
        requires
            old(sudoku).wf(),
            i < 9,
            1 <= value <= 9,
            refines(start, old(sudoku)@),
            *old(made_changes) == (old(sudoku)@ != start),
        ensures
            final(sudoku)@ == strike(
                old(sudoku)@,
                value as int,
                box_pointing_region(old(sudoku)@, i as int, value as int),
            ),
            final(sudoku).wf(),
            refines(start, final(sudoku)@),
            *final(made_changes) == (final(sudoku)@ != start),
    {
        let ghost h = sudoku@;
        let sq_row: usize = i / 3;
        let sq_col: usize = i % 3;
        assert(UnitKind::Square.cells(i as int) =~= box_cells(i as int));
        let value_row = Self::third_holding(sudoku, UnitKind::Square, i, value);
        let value_col = Self::residue_holding(sudoku, UnitKind::Square, i, value);
        proof {
            Self::lemma_box_region(h, i as int, value as int, value_row, value_col);
        }
        if let Some(x) = value_row {
            Self::strike_rest_of_row(sudoku, 3 * sq_row + x, sq_col, value, made_changes, Ghost(start));
        }
        let ghost h_mid = sudoku@;
        if let Some(y) = value_col {
            Self::strike_rest_of_column(
                sudoku,
                3 * sq_col + y,
                sq_row,
                value,
                made_changes,
                Ghost(start),
            );
        }
        proof {
            let region = box_pointing_region(h, i as int, value as int);
            assert forall|q: int| 0 <= q < 81 implies #[trigger] sudoku@[q] == strike(
                h,
                value as int,
                region,
            )[q] by {
                let in_row = match value_row {
                    Some(x) => row_of(q) == 3 * (i / 3) + x && stack_of(q) != i % 3,
                    None => false,
                };
                let in_col = match value_col {
                    Some(y) => col_of(q) == 3 * (i % 3) + y && band_of(q) != i / 3,
                    None => false,
                };
                assert(region.contains(q) <==> (in_row || in_col));
                assert(h_mid[q] == if in_row {
                    h[q].remove(value as int)
                } else {
                    h[q]
                });
                assert(sudoku@[q] == if in_col {
                    h_mid[q].remove(value as int)
                } else {
                    h_mid[q]
                });
                if in_row && in_col {
                    assert(false);
                }
            }
            assert(sudoku@ =~= strike(h, value as int, region));
        }
    }

    /// For each row and then each column, and each digit missing in it: if
    /// the digit's candidate cells there all lie in one box, strikes the
    /// digit from the rest of that box.
    pub fn in_rows_and_columns(sudoku: &mut SudokuTemplate) -> (made_changes: bool)
        requires
            old(sudoku).wf(),
        ensures
            final(sudoku)@ == Self::rows_and_columns(old(sudoku)@),
            made_changes == (final(sudoku)@ != old(sudoku)@),
            final(sudoku).wf(),
            refines(old(sudoku)@, final(sudoku)@),
    {
        let mut made_changes = false;
        let ghost start = sudoku@;
        proof {
            lemma_refines_refl(start);
        }
        for row in 0..9usize
            invariant
                sudoku.wf(),
                sudoku@ == point_rows(start, row as int),
                refines(start, sudoku@),
                made_changes == (sudoku@ != start),
        {
            let missing_values = sudoku.get_missing_values_in_row(row);
            let ghost h0 = sudoku@;
            let ghost values = as_ints(missing_values@);
            proof {
                lemma_listing(absent(placed(h0, row_cells(row as int))));
            }
            for n in 0..missing_values.len()
                invariant
                    row < 9,
                    values == as_ints(missing_values@),
                    forall|k: int| 0 <= k < values.len() ==> 1 <= #[trigger] values[k] <= 9,
                    sudoku.wf(),
                    sudoku@ == point_row_values(h0, row as int, values, n as int),
                    refines(start, sudoku@),
                    made_changes == (sudoku@ != start),
            {
                let value = missing_values[n];
                assert(value == values[n as int]);
                Self::with_value_in_row(sudoku, row, value, &mut made_changes, Ghost(start));
            }
        }
        let ghost middle = sudoku@;
        for col in 0..9usize
            invariant
                sudoku.wf(),
                sudoku@ == point_cols(middle, col as int),
                refines(start, sudoku@),
                made_changes == (sudoku@ != start),
        {
            let missing_values = sudoku.get_missing_values_in_column(col);
            let ghost h0 = sudoku@;
            let ghost values = as_ints(missing_values@);
            proof {
                lemma_listing(absent(placed(h0, col_cells(col as int))));
            }
            for n in 0..missing_values.len()
                invariant
                    col < 9,
                    values == as_ints(missing_values@),
                    forall|k: int| 0 <= k < values.len() ==> 1 <= #[trigger] values[k] <= 9,
                    sudoku.wf(),
                    sudoku@ == point_col_values(h0, col as int, values, n as int),
                    refines(start, sudoku@),
                    made_changes == (sudoku@ != start),
            {
                let value = missing_values[n];
                assert(value == values[n as int]);
                Self::with_value_in_column(sudoku, col, value, &mut made_changes, Ghost(start));
            }
        }
        made_changes
    }

    /// In each box, if a missing value is only possible in one row or one
    /// column of the box, then it is not a possible value anymore for the
    /// parts of that row or column outside of the box.
    pub fn in_squares(sudoku: &mut SudokuTemplate) -> (made_changes: bool)
        requires
            old(sudoku).wf(),
        ensures
            final(sudoku)@ == point_boxes(old(sudoku)@, 9),
            made_changes == (final(sudoku)@ != old(sudoku)@),
            final(sudoku).wf(),
            refines(old(sudoku)@, final(sudoku)@),
    {
        let mut made_changes = false;
        let ghost start = sudoku@;
        proof {
            lemma_refines_refl(start);
        }
        for i in 0..9usize
            invariant
                sudoku.wf(),
                sudoku@ == point_boxes(start, i as int),
                refines(start, sudoku@),
                made_changes == (sudoku@ != start),
        {
            let missing_values = sudoku.get_missing_values_in_square(i / 3, i % 3);
            let ghost h0 = sudoku@;
            let ghost values = as_ints(missing_values@);
            proof {
                lemma_listing(absent(placed(h0, box_cells(i as int))));
            }
            for n in 0..missing_values.len()
                invariant
                    i < 9,
                    values == as_ints(missing_values@),
                    forall|k: int| 0 <= k < values.len() ==> 1 <= #[trigger] values[k] <= 9,
                    sudoku.wf(),
                    sudoku@ == point_box_values(h0, i as int, values, n as int),
                    refines(start, sudoku@),
                    made_changes == (sudoku@ != start),
            {
                let value = missing_values[n];
                assert(value == values[n as int]);
                Self::with_value_in_square(sudoku, i, value, &mut made_changes, Ghost(start));
            }
        }
        made_changes
    }

    /// Applies the strategy once and says whether the grid changed.
    pub fn solve(&self, sudoku: &mut SudokuTemplate) -> (changed: bool)
        requires
            old(sudoku).wf(),
        ensures
            final(sudoku)@ == Self::pass(old(sudoku)@),
            changed == (final(sudoku)@ != old(sudoku)@),
            final(sudoku).wf(),
            refines(old(sudoku)@, final(sudoku)@),
    {
        if Self::in_rows_and_columns(sudoku) {
            true
        } else {
            Self::in_squares(sudoku)
        }
    }

    /// The tier of this strategy.
    pub fn difficulty(&self) -> (tier: Difficulty)
        ensures
            tier == Difficulty::Medium,
    {
        Difficulty::Medium
    }
}

} // verus!
