//! The three tiers that strategies and puzzles are graded by.

use vstd::prelude::*;

verus! {

/// Difficulty levels of solving strategies and of puzzles, in rising order.
#[derive(Copy, Clone, Debug, PartialEq, Eq, PartialOrd, Ord, Structural)]
pub enum Difficulty {
    Easy,
    Medium,
    Hard,
}

impl Difficulty {
    /// All tiers, lowest first.
    pub const VALUES: [Difficulty; 3] = [Difficulty::Easy, Difficulty::Medium, Difficulty::Hard];

    /// The place of a tier in the order: 0 for the lowest.
    pub open spec fn rank(self) -> int {
        match self {
            Difficulty::Easy => 0,
            Difficulty::Medium => 1,
            Difficulty::Hard => 2,
        }
    }

    /// Whether this tier lies at or below `ceiling`.
    pub fn at_most(self, ceiling: Difficulty) -> (b: bool)
        ensures
            b == (self.rank() <= ceiling.rank()),
    {
        match self {
            Difficulty::Easy => true,
            Difficulty::Medium => match ceiling {
                Difficulty::Easy => false,
                _ => true,
            },
            Difficulty::Hard => match ceiling {
                Difficulty::Hard => true,
                _ => false,
            },
        }
    }
}

} // verus!
