//! The structural check of a puzzle: every cell holds 0 or a digit.

use vstd::prelude::*;
use crate::traits::sudoku::Sudoku;

verus! {

/// No cell holds a value above 9.
pub open spec fn all_digits_or_empty(digits: Seq<int>) -> bool {
    forall|p: int| 0 <= p < 81 ==> #[trigger] digits[p] <= 9
}

/// Whether every cell of the puzzle holds 0 or a digit from 1 to 9. Rows,
/// columns and boxes are not checked for repeated digits.
pub fn is_valid(sudoku: &Sudoku) -> (valid: bool)
    ensures
        valid == all_digits_or_empty(sudoku@),
{
    for p in 0..81usize
        invariant
            forall|q: int| 0 <= q < p ==> #[trigger] sudoku@[q] <= 9,
    {
        if sudoku.get(p / 9, p % 9) > 9 {
            assert(sudoku@[p as int] > 9);
            return false;
        }
    }
    true
}

} // verus!
