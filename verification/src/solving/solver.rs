//! The solving loop with the placement of singles tried before the
//! elimination by confirmed values.

use vstd::prelude::*;
use crate::model::{grid_of, values_of};
use crate::solving::functions::{run, settle};
use crate::solving::traits::Strategy;
use crate::traits::sudoku::Sudoku;
use crate::traits::sudoku_template::SudokuTemplate;

verus! {

/// The order in which this loop tries the strategies.
pub open spec fn singles_first() -> Seq<Strategy> {
    seq![
        Strategy::HiddenSingles,
        Strategy::ExistingSingles,
        Strategy::Pointing,
        Strategy::NakedPairs,
        Strategy::HiddenGroups,
        Strategy::XWing,
        Strategy::YWing,
    ]
}

/// Solves a puzzle as far as all strategies reach, trying them in the
/// order that begins with the placement of singles.
pub fn solve(sudoku: &Sudoku) -> (solved: Sudoku)
    ensures
        solved@ == values_of(settle(grid_of(sudoku@), singles_first())),
{
    let mut template = SudokuTemplate::from_sudoku(sudoku);
    let mut strategies: Vec<Strategy> = Vec::new();
    strategies.push(Strategy::HiddenSingles);
    strategies.push(Strategy::ExistingSingles);
    strategies.push(Strategy::Pointing);
    strategies.push(Strategy::NakedPairs);
    strategies.push(Strategy::HiddenGroups);
    strategies.push(Strategy::XWing);
    strategies.push(Strategy::YWing);
    assert(strategies@ =~= singles_first());
    run(&mut template, &strategies);
    Sudoku::from_template(&template)
}

} // verus!
