//! The guess: an undecided cell, picked at random, takes one of its
//! candidates, picked at random. It is no deduction, and it is used only to
//! fill a grid when a puzzle is generated.

use rand::seq::IteratorRandom;
use vstd::prelude::*;
use crate::model::{
    at, empty_positions, grid_wf, lemma_empty_positions, lemma_listing, lemma_place,
    lemma_refines_refl, listing, members, place, refines, Grid,
};
use crate::traits::cell::as_ints;
use crate::traits::difficulty::Difficulty;
use crate::traits::sudoku_template::SudokuTemplate;

verus! {

/// The grid after the `k`-th undecided cell, in row-major order, took the
/// `j`-th of its candidates, in ascending order; the unchanged grid where
/// there is no such cell or no such candidate.
pub open spec fn picked(g: Grid, k: int, j: int) -> Grid {
    let empties = empty_positions(g, 81);
    if 0 <= k < empties.len() && 0 <= j < listing(g[empties[k]].cands).len() {
        place(g, empties[k], listing(g[empties[k]].cands)[j])
    } else {
        g
    }
}

/// A number below `len` from `IteratorRandom::choose` on the range from 0 to
/// `len`, drawn with the generator of the thread: nothing for an empty
/// range, and a member of the range otherwise. Verus takes this on trust;
/// which member comes is left open.
#[verifier::external_body]
fn choose_index(len: usize) -> (index: Option<usize>)
    ensures
        len == 0 ==> index is None,
        len > 0 ==> index is Some,
        index matches Some(i) ==> i < len,
{
    (0..len).choose(&mut rand::rng())
}

/// Strategy that fills one undecided cell by guessing.
pub struct SetSingleRandomly;

impl SetSingleRandomly {
    /// Confirming a candidate of an undecided cell keeps the grid
    /// well-formed, adds no candidate and changes the grid.
    pub proof fn lemma_picked(g: Grid, k: int, j: int)
        requires
            grid_wf(g),
        ensures
            grid_wf(picked(g, k, j)),
            refines(g, picked(g, k, j)),
            (picked(g, k, j) != g) == (0 <= k < empty_positions(g, 81).len() && 0 <= j < listing(
                g[empty_positions(g, 81)[k]].cands,
            ).len()),
    {
        let empties = empty_positions(g, 81);
        lemma_empty_positions(g, 81);
        if 0 <= k < empties.len() && 0 <= j < listing(g[empties[k]].cands).len() {
            let p = empties[k];
            let values = listing(g[p].cands);
            lemma_listing(g[p].cands);
            assert(members(values).contains(values[j]));
            lemma_place(g, p, values[j]);
        } else {
            lemma_refines_refl(g);
        }
    }

    /// Lets the `k`-th undecided cell take the `j`-th of its candidates and
    /// says whether there were such a cell and such a candidate.
    pub fn set_picked(sudoku: &mut SudokuTemplate, k: usize, j: usize) -> (changed: bool)
        requires
            old(sudoku).wf(),
        ensures
            final(sudoku)@ == picked(old(sudoku)@, k as int, j as int),
            changed == (final(sudoku)@ != old(sudoku)@),
            final(sudoku).wf(),
            refines(old(sudoku)@, final(sudoku)@),
    {
        proof {
            Self::lemma_picked(sudoku@, k as int, j as int);
        }
        let empty_cells = sudoku.empty_cells();
        if k >= empty_cells.len() {
            return false;
        }
        let (row, col) = empty_cells[k];
        let values = sudoku.cell_at(row, col).possible_values();
        if j >= values.len() {
            return false;
        }
        assert(as_ints(values@)[j as int] == values[j as int]);
        sudoku.set_at(row, col, values[j]);
        true
    }

    /// Picks an undecided cell and one of its candidates at random and
    /// confirms the candidate. Says whether the grid changed, which it does
    /// exactly if it has an undecided cell.
    pub fn make_a_guess(sudoku: &mut SudokuTemplate) -> (changed: bool)
        requires
            old(sudoku).wf(),
        ensures
            changed == exists|p: int| 0 <= p < 81 && old(sudoku)@[p].is_empty(),
            exists|k: int, j: int| final(sudoku)@ == picked(old(sudoku)@, k, j),
            changed == (final(sudoku)@ != old(sudoku)@),
            final(sudoku).wf(),
            refines(old(sudoku)@, final(sudoku)@),
    {
        let ghost g = sudoku@;
        proof {
            lemma_empty_positions(g, 81);
            lemma_refines_refl(g);
        }
        let empty_cells = sudoku.empty_cells();
        match choose_index(empty_cells.len()) {
            None => {
                proof {
                    Self::lemma_picked(g, 0, 0);
                    assert(sudoku@ == picked(g, 0, 0));
                    if exists|p: int| 0 <= p < 81 && g[p].is_empty() {
                        let p = choose|p: int| 0 <= p < 81 && g[p].is_empty();
                        assert(members(empty_positions(g, 81)).contains(p));
                    }
                }
                false
            },
            Some(k) => {
                let (row, col) = empty_cells[k];
                let ghost p = empty_positions(g, 81)[k as int];
                assert(g[p].is_empty());
                let values = sudoku.cell_at(row, col).possible_values();
                proof {
                    lemma_listing(g[p].cands);
                }
                match choose_index(values.len()) {
                    None => {
                        proof {
                            assert(false);
                        }
                        false
                    },
                    Some(j) => {
                        proof {
                            Self::lemma_picked(g, k as int, j as int);
                        }
                        assert(as_ints(values@)[j as int] == values[j as int]);
                        sudoku.set_at(row, col, values[j]);
                        assert(sudoku@ == picked(g, k as int, j as int));
                        true
                    },
                }
            },
        }
    }

    /// Applies the strategy once and says whether the grid changed.
    pub fn solve(&self, sudoku: &mut SudokuTemplate) -> (changed: bool)
        requires
            old(sudoku).wf(),
        ensures
            changed == exists|p: int| 0 <= p < 81 && old(sudoku)@[p].is_empty(),
            exists|k: int, j: int| final(sudoku)@ == picked(old(sudoku)@, k, j),
            changed == (final(sudoku)@ != old(sudoku)@),
            final(sudoku).wf(),
            refines(old(sudoku)@, final(sudoku)@),
    {
        Self::make_a_guess(sudoku)
    }

    /// The tier of this strategy.
    pub fn difficulty(&self) -> (tier: Difficulty)
        ensures
            tier == Difficulty::Easy,
    {
        Difficulty::Easy
    }
}

} // verus!
