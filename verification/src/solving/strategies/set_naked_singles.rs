//! Placement of singles in one sweep: every undecided cell, in its turn,
//! takes the smallest digit that no other cell of its row, of its column or
//! of its box admits.

use vstd::prelude::*;
use crate::model::{
    fits, grid_wf, lemma_box_geometry, lemma_refines_chain, lemma_refines_refl, lemma_refines_trans,
    place, refines, valid_completion, Grid,
};
use crate::solving::strategies::set_hidden_singles::{
    find_single, lemma_single, lemma_single_digit, single_digit, visited, visited_cell,
};
use crate::traits::difficulty::Difficulty;
use crate::traits::sudoku_template::SudokuTemplate;

verus! {

/// The grid after the first `n` visited cells have each taken their
/// smallest single, if they had one when their turn came.
pub open spec fn set_singles(g: Grid, by_box: bool, n: int) -> Grid
    decreases n,
{
    if n <= 0 {
        g
    } else {
        let h = set_singles(g, by_box, n - 1);
        let d = single_digit(h, by_box, n - 1, 1);
        if d <= 9 {
            place(h, visited(by_box, n - 1), d)
        } else {
            h
        }
    }
}

/// Strategy that confirms, cell by cell, a digit that no other cell of the
/// row, column or box admits, without stopping at the first.
pub struct SetNakedSingles;

impl SetNakedSingles {
    /// What one application does: the sweep along rows and columns, and the
    /// sweep through the boxes only where the first changed nothing.
    pub open spec fn pass(g: Grid) -> Grid {
        if set_singles(g, false, 81) != g {
            set_singles(g, false, 81)
        } else {
            set_singles(g, true, 81)
        }
    }

    /// The sweep over the first cells is a chain of deductions, and it keeps
    /// every completion that was possible.
    proof fn lemma_set_singles(g: Grid, by_box: bool, n: int, s: Seq<int>)
        requires
            grid_wf(g),
            0 <= n <= 81,
        ensures
            grid_wf(set_singles(g, by_box, n)),
            refines(g, set_singles(g, by_box, n)),
            valid_completion(s) && fits(g, s) ==> fits(set_singles(g, by_box, n), s),
        decreases n,
    {
        if n > 0 {
            Self::lemma_set_singles(g, by_box, n - 1, s);
            let h = set_singles(g, by_box, n - 1);
            let d = single_digit(h, by_box, n - 1, 1);
            lemma_single_digit(h, by_box, n - 1, 1);
            if d <= 9 {
                lemma_box_geometry();
                lemma_single(h, by_box, visited(by_box, n - 1), d, s);
                lemma_refines_trans(g, h, set_singles(g, by_box, n));
            }
        } else {
            lemma_refines_refl(g);
        }
    }

    /// One application is a chain of deductions, and it keeps every
    /// completion that was possible.
    proof fn lemma_pass(g: Grid, s: Seq<int>)
        requires
            grid_wf(g),
        ensures
            grid_wf(Self::pass(g)),
            refines(g, Self::pass(g)),
            valid_completion(s) && fits(g, s) ==> fits(Self::pass(g), s),
    {
        Self::lemma_set_singles(g, false, 81, s);
        Self::lemma_set_singles(g, true, 81, s);
    }

    /// Visits every cell once and confirms its smallest single, if any.
    fn sweep(sudoku: &mut SudokuTemplate, by_box: bool) -> (made_changes: bool)
        requires
            old(sudoku).wf(),
        ensures
            final(sudoku)@ == set_singles(old(sudoku)@, by_box, 81),
            made_changes == (final(sudoku)@ != old(sudoku)@),
            final(sudoku).wf(),
            refines(old(sudoku)@, final(sudoku)@),
    {
        let mut made_changes = false;
        let ghost start = sudoku@;
        proof {
            lemma_refines_refl(start);
        }
        for k in 0..81usize
            invariant
                sudoku.wf(),
                sudoku@ == set_singles(start, by_box, k as int),
                refines(start, sudoku@),
                made_changes == (sudoku@ != start),
        {
            match find_single(sudoku, by_box, k) {
                Some(value) => {
                    let (row, col) = visited_cell(by_box, k);
                    let ghost h = sudoku@;
                    proof {
                        lemma_single_digit(h, by_box, k as int, 1);
                        lemma_single(h, by_box, visited(by_box, k as int), value as int, Seq::empty());
                    }
                    sudoku.set_at(row, col, value);
                    proof {
                        lemma_refines_chain(start, h, sudoku@);
                    }
                    made_changes = true;
                },
                None => {},
            }
        }
        made_changes
    }

    /// In each row or column, sets every value that is possible in only one
    /// cell.
    pub fn in_rows_and_columns(sudoku: &mut SudokuTemplate) -> (made_changes: bool)
        requires
            old(sudoku).wf(),
        ensures
            final(sudoku)@ == set_singles(old(sudoku)@, false, 81),
            made_changes == (final(sudoku)@ != old(sudoku)@),
            final(sudoku).wf(),
            refines(old(sudoku)@, final(sudoku)@),
    {
        Self::sweep(sudoku, false)
    }

    /// In each box, sets every value that is possible in only one cell.
    pub fn in_squares(sudoku: &mut SudokuTemplate) -> (made_changes: bool)
        requires
            old(sudoku).wf(),
        ensures
            final(sudoku)@ == set_singles(old(sudoku)@, true, 81),
            made_changes == (final(sudoku)@ != old(sudoku)@),
            final(sudoku).wf(),
            refines(old(sudoku)@, final(sudoku)@),
    {
        Self::sweep(sudoku, true)
    }

    /// Applies the strategy once and says whether the grid changed.
    pub fn solve(&self, sudoku: &mut SudokuTemplate) -> (changed: bool)
        requires
            old(sudoku).wf(),
        ensures
            final(sudoku)@ == Self::pass(old(sudoku)@),
            changed == (final(sudoku)@ != old(sudoku)@),
            final(sudoku).wf(),
            refines(old(sudoku)@, final(sudoku)@),
    {
        if Self::in_rows_and_columns(sudoku) {
            true
        } else {
            Self::in_squares(sudoku)
        }
    }

    /// The tier of this strategy.
    pub fn difficulty(&self) -> (tier: Difficulty)
        ensures
            tier == Difficulty::Easy,
    {
        Difficulty::Easy
    }
}

} // verus!
