//! Elimination by confirmed values: a digit that is confirmed in a cell
//! cannot stand in any other cell of the same row, column or box.

use vstd::prelude::*;
use crate::model::{
    above, box_cell, box_of, col_of, fits, grid_wf, lemma_box_geometry, lemma_refines_chain,
    lemma_refines_refl, lemma_refines_trans, lemma_strike, lemma_strike_above, lemma_strike_fits,
    lemma_strike_quiet, refines, related, row_of, slot_of, strike, valid_completion, values_of,
    Grid,
};
use crate::traits::difficulty::Difficulty;
use crate::traits::sudoku_template::{SudokuTemplate, UnitKind};

verus! {

/// The other cells of the row and of the column of `p`.
pub open spec fn line_peers(p: int) -> Set<int> {
    Set::new(|q: int| q != p && (row_of(q) == row_of(p) || col_of(q) == col_of(p)))
}

/// The other cells of the box of `p`.
pub open spec fn box_peers(p: int) -> Set<int> {
    Set::new(|q: int| q != p && box_of(q) == box_of(p))
}

/// The position that is visited `k`-th when the grid is walked box by box.
pub open spec fn box_order(k: int) -> int {
    box_cell(k / 9, k % 9)
}

/// The grid after the first `n` cells, in row-major order, have each struck
/// their confirmed value from their row and column. A cell that a strike
/// confirms on the way takes its turn like any other.
pub open spec fn sweep_lines(g: Grid, n: int) -> Grid
    decreases n,
{
    if n <= 0 {
        g
    } else {
        let h = sweep_lines(g, n - 1);
        if h[n - 1].is_set() {
            strike(h, h[n - 1].value, line_peers(n - 1))
        } else {
            h
        }
    }
}

/// The grid after the first `n` cells, box by box, have each struck their
/// confirmed value from their box.
pub open spec fn sweep_boxes(g: Grid, n: int) -> Grid
    decreases n,
{
    if n <= 0 {
        g
    } else {
        let h = sweep_boxes(g, n - 1);
        let p = box_order(n - 1);
        if h[p].is_set() {
            strike(h, h[p].value, box_peers(p))
        } else {
            h
        }
    }
}

/// Strategy that uses the cells with a confirmed value to strike that value
/// from the candidates of their row, column and box.
pub struct EliminatePossibilitiesUsingExistingSingles;

impl EliminatePossibilitiesUsingExistingSingles {
    /// What one application does: the sweep over rows and columns, and the
    /// sweep over boxes only where the first changed nothing.
    pub open spec fn pass(g: Grid) -> Grid {
        if sweep_lines(g, 81) != g {
            sweep_lines(g, 81)
        } else {
            sweep_boxes(g, 81)
        }
    }

    /// The sweep over rows and columns is a chain of deductions, and it
    /// keeps every completion that was possible.
    proof fn lemma_sweep_lines(g: Grid, n: int, s: Seq<int>)
        requires
            grid_wf(g),
            0 <= n <= 81,
        ensures
            grid_wf(sweep_lines(g, n)),
            refines(g, sweep_lines(g, n)),
            valid_completion(s) && fits(g, s) ==> fits(sweep_lines(g, n), s),
        decreases n,
    {
        if n > 0 {
            Self::lemma_sweep_lines(g, n - 1, s);
            let h = sweep_lines(g, n - 1);
            if h[n - 1].is_set() {
                let d = h[n - 1].value;
                lemma_strike(h, d, line_peers(n - 1));
                lemma_refines_trans(g, h, strike(h, d, line_peers(n - 1)));
                if valid_completion(s) && fits(g, s) {
                    assert(h[n - 1].cands.contains(s[n - 1]));
                    assert forall|q: int| 0 <= q < 81 && line_peers(n - 1).contains(q) implies s[q]
                        != d by {
                        assert(related(n - 1, q));
                    }
                    lemma_strike_fits(h, d, line_peers(n - 1), s);
                }
            }
        } else {
            lemma_refines_refl(g);
        }
    }

    /// The sweep over boxes is a chain of deductions, and it keeps every
    /// completion that was possible.
    proof fn lemma_sweep_boxes(g: Grid, n: int, s: Seq<int>)
        requires
            grid_wf(g),
            0 <= n <= 81,
        ensures
            grid_wf(sweep_boxes(g, n)),
            refines(g, sweep_boxes(g, n)),
            valid_completion(s) && fits(g, s) ==> fits(sweep_boxes(g, n), s),
        decreases n,
    {
        if n > 0 {
            Self::lemma_sweep_boxes(g, n - 1, s);
            let h = sweep_boxes(g, n - 1);
            let p = box_order(n - 1);
            lemma_box_geometry();
            if h[p].is_set() {
                let d = h[p].value;
                lemma_strike(h, d, box_peers(p));
                lemma_refines_trans(g, h, strike(h, d, box_peers(p)));
                if valid_completion(s) && fits(g, s) {
                    assert(h[p].cands.contains(s[p]));
                    assert forall|q: int| 0 <= q < 81 && box_peers(p).contains(q) implies s[q]
                        != d by {
                        assert(related(p, q));
                    }
                    lemma_strike_fits(h, d, box_peers(p), s);
                }
            }
        } else {
            lemma_refines_refl(g);
        }
    }

    /// One application is a chain of deductions, and it keeps every
    /// completion that was possible.
    pub proof fn lemma_pass(g: Grid, s: Seq<int>)
        requires
            grid_wf(g),
        ensures
            grid_wf(Self::pass(g)),
            refines(g, Self::pass(g)),
            valid_completion(s) && fits(g, s) ==> fits(Self::pass(g), s),
    {
        Self::lemma_sweep_lines(g, 81, s);
        Self::lemma_sweep_boxes(g, 81, s);
    }

    /// A grid that the sweep over rows and columns leaves as it is was left
    /// as it is by every step of the sweep.
    proof fn lemma_sweep_lines_quiet(t: Grid, n: int, k: int)
        requires
            grid_wf(t),
            0 <= k <= n <= 81,
            sweep_lines(t, n) == t,
        ensures
            sweep_lines(t, k) == t,
        decreases n - k,
    {
        if k < n {
            Self::lemma_sweep_lines(t, n - 1, Seq::empty());
            let h = sweep_lines(t, n - 1);
            if h[n - 1].is_set() {
                lemma_strike(h, h[n - 1].value, line_peers(n - 1));
            } else {
                lemma_refines_refl(h);
            }
            lemma_refines_chain(t, h, sweep_lines(t, n));
            Self::lemma_sweep_lines_quiet(t, n - 1, k);
        }
    }

    /// A grid that the sweep over boxes leaves as it is was left as it is
    /// by every step of the sweep.
    proof fn lemma_sweep_boxes_quiet(t: Grid, n: int, k: int)
        requires
            grid_wf(t),
            0 <= k <= n <= 81,
            sweep_boxes(t, n) == t,
        ensures
            sweep_boxes(t, k) == t,
        decreases n - k,
    {
        if k < n {
            Self::lemma_sweep_boxes(t, n - 1, Seq::empty());
            let h = sweep_boxes(t, n - 1);
            let p = box_order(n - 1);
            lemma_box_geometry();
            if h[p].is_set() {
                lemma_strike(h, h[p].value, box_peers(p));
            } else {
                lemma_refines_refl(h);
            }
            lemma_refines_chain(t, h, sweep_boxes(t, n));
            Self::lemma_sweep_boxes_quiet(t, n - 1, k);
        }
    }

    /// In a grid that the strategy leaves as it is, a confirmed value is a
    /// candidate of no other cell of its row, column and box.
    pub proof fn lemma_quiet(t: Grid, p: int, q: int)
        requires
            grid_wf(t),
            Self::pass(t) == t,
            0 <= p < 81,
            0 <= q < 81,
            p != q,
            related(p, q),
            t[p].is_set(),
        ensures
            !t[q].cands.contains(t[p].value),
    {
        let d = t[p].value;
        assert(sweep_lines(t, 81) == t);
        assert(sweep_boxes(t, 81) == t);
        if line_peers(p).contains(q) {
            Self::lemma_sweep_lines_quiet(t, 81, p + 1);
            Self::lemma_sweep_lines_quiet(t, 81, p);
            assert(strike(t, d, line_peers(p)) == t);
            lemma_strike_quiet(t, d, line_peers(p));
        } else {
            lemma_box_geometry();
            let k = 9 * box_of(p) + slot_of(p);
            assert(box_order(k) == p);
            Self::lemma_sweep_boxes_quiet(t, 81, k + 1);
            Self::lemma_sweep_boxes_quiet(t, 81, k);
            assert(strike(t, d, box_peers(p)) == t);
            lemma_strike_quiet(t, d, box_peers(p));
        }
    }

    /// The sweep over rows and columns keeps a grid above a grid that the
    /// strategy leaves as it is.
    proof fn lemma_sweep_lines_above(g: Grid, t: Grid, n: int)
        requires
            grid_wf(g),
            grid_wf(t),
            above(g, t),
            Self::pass(t) == t,
            0 <= n <= 81,
        ensures
            grid_wf(sweep_lines(g, n)),
            above(sweep_lines(g, n), t),
        decreases n,
    {
        if n > 0 {
            Self::lemma_sweep_lines_above(g, t, n - 1);
            let h = sweep_lines(g, n - 1);
            let p = n - 1;
            if h[p].is_set() {
                assert(values_of(h)[p] == values_of(t)[p]);
                assert forall|q: int| 0 <= q < 81 && line_peers(p).contains(q) implies !t[q].cands.contains(
                    h[p].value,
                ) by {
                    Self::lemma_quiet(t, p, q);
                }
                lemma_strike_above(h, t, h[p].value, line_peers(p));
            }
        }
    }

    /// The sweep over boxes keeps a grid above a grid that the strategy
    /// leaves as it is.
    proof fn lemma_sweep_boxes_above(g: Grid, t: Grid, n: int)
        requires
            grid_wf(g),
            grid_wf(t),
            above(g, t),
            Self::pass(t) == t,
            0 <= n <= 81,
        ensures
            grid_wf(sweep_boxes(g, n)),
            above(sweep_boxes(g, n), t),
        decreases n,
    {
        if n > 0 {
            Self::lemma_sweep_boxes_above(g, t, n - 1);
            let h = sweep_boxes(g, n - 1);
            let p = box_order(n - 1);
            lemma_box_geometry();
            if h[p].is_set() {
                assert(values_of(h)[p] == values_of(t)[p]);
                assert forall|q: int| 0 <= q < 81 && box_peers(p).contains(q) implies !t[q].cands.contains(
                    h[p].value,
                ) by {
                    Self::lemma_quiet(t, p, q);
                }
                lemma_strike_above(h, t, h[p].value, box_peers(p));
            }
        }
    }

    /// One application keeps a grid above a grid that the strategy leaves
    /// as it is.
    pub proof fn lemma_above(g: Grid, t: Grid)
        requires
            grid_wf(g),
            grid_wf(t),
            above(g, t),
            Self::pass(t) == t,
        ensures
            above(Self::pass(g), t),
    {
        Self::lemma_sweep_lines_above(g, t, 81);
        Self::lemma_sweep_boxes_above(g, t, 81);
    }

    /// For each cell that has a value, eliminates the value as a possibility
    /// from the other cells in the same row or column.
    pub fn in_rows_and_columns(sudoku: &mut SudokuTemplate) -> (made_changes: bool)
        requires
            old(sudoku).wf(),
        ensures
            final(sudoku)@ == sweep_lines(old(sudoku)@, 81),
            made_changes == (final(sudoku)@ != old(sudoku)@),
            final(sudoku).wf(),
            refines(old(sudoku)@, final(sudoku)@),
    {
        let mut made_changes = false;
        let ghost start = sudoku@;
        proof {
            lemma_refines_refl(start);
        }
        for k in 0..81usize
            invariant
                sudoku.wf(),
                sudoku@ == sweep_lines(start, k as int),
                refines(start, sudoku@),
                made_changes == (sudoku@ != start),
        {
            let x: usize = k / 9;
            let y: usize = k % 9;
            let cell = sudoku.cell_at(x, y);
            if cell.is_set() {
                let value = cell.get_value();
                let ghost h = sudoku@;
                for o in 0..9usize
                    invariant
                        x < 9,
                        y < 9,
                        k == 9 * x + y,
                        sudoku.wf(),
                        refines(start, sudoku@),
                        made_changes == (sudoku@ != start),
                        forall|q: int|
                            0 <= q < 81 ==> #[trigger] sudoku@[q] == if q != k && ((col_of(q) == y
                                && row_of(q) < o) || (row_of(q) == x && col_of(q) < o)) {
                                h[q].remove(value as int)
                            } else {
                                h[q]
                            },
                {
                    if x != o {
                        sudoku.strike_at(o, y, value, &mut made_changes, Ghost(start));
                    }
                    if y != o {
                        sudoku.strike_at(x, o, value, &mut made_changes, Ghost(start));
                    }
                }
                assert(sudoku@ =~= strike(h, value as int, line_peers(k as int)));
            }
        }
        made_changes
    }

    /// For each cell that has a value, eliminates the value as a possibility
    /// from the other cells in the same box.
    pub fn in_squares(sudoku: &mut SudokuTemplate) -> (made_changes: bool)
        requires
            old(sudoku).wf(),
        ensures
            final(sudoku)@ == sweep_boxes(old(sudoku)@, 81),
            made_changes == (final(sudoku)@ != old(sudoku)@),
            final(sudoku).wf(),
            refines(old(sudoku)@, final(sudoku)@),
    {
        let mut made_changes = false;
        let ghost start = sudoku@;
        proof {
            lemma_refines_refl(start);
        }
        for k in 0..81usize
            invariant
                sudoku.wf(),
                sudoku@ == sweep_boxes(start, k as int),
                refines(start, sudoku@),
                made_changes == (sudoku@ != start),
        {
            let b: usize = k / 9;
            let j: usize = k % 9;
            let (row, col) = UnitKind::Square.coords(b, j);
            let ghost p = box_order(k as int);
            let cell = sudoku.cell_at(row, col);
            if cell.is_set() {
                let value = cell.get_value();
                let ghost h = sudoku@;
                proof {
                    lemma_box_geometry();
                }
                for m in 0..9usize
                    invariant
                        b < 9,
                        j < 9,
                        p == box_cell(b as int, j as int),
                        0 <= p < 81,
                        sudoku.wf(),
                        refines(start, sudoku@),
                        made_changes == (sudoku@ != start),
                        forall|q: int|
                            0 <= q < 81 ==> #[trigger] sudoku@[q] == if q != p && box_of(q) == b
                                && slot_of(q) < m {
                                h[q].remove(value as int)
                            } else {
                                h[q]
                            },
                {
                    proof {
                        lemma_box_geometry();
                    }
                    if m != j {
                        let (row2, col2) = UnitKind::Square.coords(b, m);
                        sudoku.strike_at(row2, col2, value, &mut made_changes, Ghost(start));
                    }
                }
                assert(sudoku@ =~= strike(h, value as int, box_peers(p)));
            }
        }
        made_changes
    }

    /// Applies the strategy once and says whether the grid changed.
    pub fn solve(&self, sudoku: &mut SudokuTemplate) -> (changed: bool)
        requires
            old(sudoku).wf(),
        ensures
            final(sudoku)@ == Self::pass(old(sudoku)@),
            changed == (final(sudoku)@ != old(sudoku)@),
            final(sudoku).wf(),
            refines(old(sudoku)@, final(sudoku)@),
    {
        if Self::in_rows_and_columns(sudoku) {
            true
        } else {
            Self::in_squares(sudoku)
        }
    }

    /// The tier of this strategy.
    pub fn difficulty(&self) -> (tier: Difficulty)
        ensures
            tier == Difficulty::Easy,
    {
        Difficulty::Easy
    }
}

} // verus!
