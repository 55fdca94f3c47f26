//! Grading: the difficulty of a puzzle is the lowest tier whose strategies
//! solve it.

use vstd::prelude::*;
use crate::solving::functions::{solve_with_difficulty, solved_up_to};
use crate::traits::difficulty::Difficulty;
use crate::traits::sudoku::{is_solved_grid, Sudoku};

verus! {

/// The lowest tier whose strategies solve the puzzle completely and
/// without conflict, if there is one.
pub open spec fn classify(digits: Seq<int>) -> Option<Difficulty> {
    if is_solved_grid(solved_up_to(digits, Difficulty::Easy)) {
        Some(Difficulty::Easy)
    } else if is_solved_grid(solved_up_to(digits, Difficulty::Medium)) {
        Some(Difficulty::Medium)
    } else if is_solved_grid(solved_up_to(digits, Difficulty::Hard)) {
        Some(Difficulty::Hard)
    } else {
        None
    }
}

/// Evaluates the difficulty level of the provided puzzle by trying to solve
/// it with the strategies of each tier in rising order. Returns the first
/// tier that solves it, or `None` if the puzzle cannot be solved without
/// guessing.
pub fn evaluate_difficulty(sudoku: &Sudoku) -> (difficulty: Option<Difficulty>)
    ensures
        difficulty == classify(sudoku@),
{
    let tiers = Difficulty::VALUES;
    for n in 0..3usize
        invariant
            tiers[0] == Difficulty::Easy,
            tiers[1] == Difficulty::Medium,
            tiers[2] == Difficulty::Hard,
            forall|k: int| 0 <= k < n ==> !is_solved_grid(solved_up_to(sudoku@, #[trigger] tiers[k])),
    {
        let difficulty = tiers[n];
        if solve_with_difficulty(sudoku, difficulty).is_solved() {
            return Some(difficulty);
        }
    }
    None
}

} // verus!
