//! The closed set of deduction strategies and what they have in common:
//! a tier, and one operation that tries a deduction pass over a grid and
//! reports whether it changed anything.

use vstd::prelude::*;
use crate::model::{above, fits, grid_wf, refines, valid_completion, Grid};
use crate::solving::strategies::eliminate_possibilities_using_existing_singles::EliminatePossibilitiesUsingExistingSingles;
use crate::solving::strategies::eliminate_possibilities_using_hidden_groups::EliminatePossibilitiesUsingHiddenGroups;
use crate::solving::strategies::eliminate_possibilities_using_naked_pairs::EliminatePossibilitiesUsingNakedPairs;
use crate::solving::strategies::eliminate_possibilities_using_pointing::EliminatePossibilitiesUsingPointing;
use crate::solving::strategies::eliminate_possibilities_using_x_wing::EliminatePossibilitiesUsingXWing;
use crate::solving::strategies::eliminate_possibilities_using_y_wing::EliminatePossibilitiesUsingYWing;
use crate::solving::strategies::set_hidden_singles::SetHiddenSingles;
use crate::traits::difficulty::Difficulty;
use crate::traits::sudoku_template::SudokuTemplate;

verus! {

/// The seven deduction strategies of the solving loop.
#[derive(Clone, Copy, Debug, PartialEq, Eq, Structural)]
pub enum Strategy {
    ExistingSingles,
    HiddenSingles,
    Pointing,
    NakedPairs,
    HiddenGroups,
    XWing,
    YWing,
}

/// No strategy whose tier is at most `ceiling` changes the grid.
pub open spec fn settled(t: Grid, ceiling: Difficulty) -> bool {
    forall|strategy: Strategy|
        strategy.tier().rank() <= ceiling.rank() ==> #[trigger] strategy.apply(t) == t
}

impl Strategy {
    /// The tier of the strategy.
    pub open spec fn tier(self) -> Difficulty {
        match self {
            Strategy::ExistingSingles => Difficulty::Easy,
            Strategy::HiddenSingles => Difficulty::Easy,
            Strategy::Pointing => Difficulty::Medium,
            Strategy::NakedPairs => Difficulty::Medium,
            Strategy::HiddenGroups => Difficulty::Medium,
            Strategy::XWing => Difficulty::Hard,
            Strategy::YWing => Difficulty::Hard,
        }
    }

    /// The grid after one application of the strategy.
    pub open spec fn apply(self, g: Grid) -> Grid {
        match self {
            Strategy::ExistingSingles => EliminatePossibilitiesUsingExistingSingles::pass(g),
            Strategy::HiddenSingles => SetHiddenSingles::pass(g),
            Strategy::Pointing => EliminatePossibilitiesUsingPointing::pass(g),
            Strategy::NakedPairs => EliminatePossibilitiesUsingNakedPairs::pass(g),
            Strategy::HiddenGroups => EliminatePossibilitiesUsingHiddenGroups::pass(g),
            Strategy::XWing => EliminatePossibilitiesUsingXWing::pass(g),
            Strategy::YWing => EliminatePossibilitiesUsingYWing::pass(g),
        }
    }

    /// One application of any strategy keeps the grid well-formed, adds no
    /// candidate and changes no confirmed value, and keeps every valid
    /// completion that the grid admitted.
    pub proof fn lemma_apply(self, g: Grid, s: Seq<int>)
        requires
            grid_wf(g),
        ensures
            grid_wf(self.apply(g)),
            refines(g, self.apply(g)),
            valid_completion(s) && fits(g, s) ==> fits(self.apply(g), s),
    {
        match self {
            Strategy::ExistingSingles => EliminatePossibilitiesUsingExistingSingles::lemma_pass(g, s),
            Strategy::HiddenSingles => SetHiddenSingles::lemma_pass(g, s),
            Strategy::Pointing => EliminatePossibilitiesUsingPointing::lemma_pass(g, s),
            Strategy::NakedPairs => EliminatePossibilitiesUsingNakedPairs::lemma_pass(g, s),
            Strategy::HiddenGroups => EliminatePossibilitiesUsingHiddenGroups::lemma_pass(g, s),
            Strategy::XWing => EliminatePossibilitiesUsingXWing::lemma_pass(g, s),
            Strategy::YWing => EliminatePossibilitiesUsingYWing::lemma_pass(g, s),
        }
    }

    /// One application of a strategy keeps a grid above every grid below
    /// it that admits a valid completion and that no strategy up to the
    /// tier of this one changes.
    pub proof fn lemma_above(self, g: Grid, t: Grid, s: Seq<int>)
        requires
            grid_wf(g),
            grid_wf(t),
            above(g, t),
            settled(t, self.tier()),
            valid_completion(s),
            fits(t, s),
        ensures
            grid_wf(self.apply(g)),
            above(self.apply(g), t),
    {
        self.lemma_apply(g, Seq::empty());
        assert(self.apply(t) == t);
        assert(Strategy::ExistingSingles.apply(t) == t);
        assert(Strategy::HiddenSingles.apply(t) == t);
        match self {
            Strategy::ExistingSingles => EliminatePossibilitiesUsingExistingSingles::lemma_above(g, t),
            Strategy::HiddenSingles => SetHiddenSingles::lemma_above(g, t, s),
            Strategy::Pointing => EliminatePossibilitiesUsingPointing::lemma_above(g, t, s),
            Strategy::NakedPairs => EliminatePossibilitiesUsingNakedPairs::lemma_above(g, t, s),
            Strategy::HiddenGroups => EliminatePossibilitiesUsingHiddenGroups::lemma_above(g, t, s),
            Strategy::XWing => EliminatePossibilitiesUsingXWing::lemma_above(g, t, s),
            Strategy::YWing => EliminatePossibilitiesUsingYWing::lemma_above(g, t),
        }
    }

    /// Provides the difficulty level of the strategy.
    pub fn difficulty(self) -> (tier: Difficulty)
        ensures
            tier == self.tier(),
    {
        match self {
            Strategy::ExistingSingles => EliminatePossibilitiesUsingExistingSingles.difficulty(),
            Strategy::HiddenSingles => SetHiddenSingles.difficulty(),
            Strategy::Pointing => EliminatePossibilitiesUsingPointing.difficulty(),
            Strategy::NakedPairs => EliminatePossibilitiesUsingNakedPairs.difficulty(),
            Strategy::HiddenGroups => EliminatePossibilitiesUsingHiddenGroups.difficulty(),
            Strategy::XWing => EliminatePossibilitiesUsingXWing.difficulty(),
            Strategy::YWing => EliminatePossibilitiesUsingYWing.difficulty(),
        }
    }

    /// The name under which the strategy is listed in solving statistics.
    pub open spec fn label(self) -> Seq<char> {
        match self {
            Strategy::ExistingSingles => "EliminatePossibilitiesUsingExistingSingles"@,
            Strategy::HiddenSingles => "SetHiddenSingles"@,
            Strategy::Pointing => "EliminatePossibilitiesByDetectingPointingGroups"@,
            Strategy::NakedPairs => "EliminatePossibilitiesUsingNakedPairs"@,
            Strategy::HiddenGroups => "EliminatePossibilitiesUsingHiddenGroups"@,
            Strategy::XWing => "EliminatePossibilitiesByDetectingXWingPatterns"@,
            Strategy::YWing => "EliminatePossibilitiesUsingYWing"@,
        }
    }

    /// The name under which the strategy is listed in solving statistics.
    pub fn name(self) -> (name: &'static str)
        ensures
            name@ == self.label(),
    {
        match self {
            Strategy::ExistingSingles => "EliminatePossibilitiesUsingExistingSingles",
            Strategy::HiddenSingles => "SetHiddenSingles",
            Strategy::Pointing => "EliminatePossibilitiesByDetectingPointingGroups",
            Strategy::NakedPairs => "EliminatePossibilitiesUsingNakedPairs",
            Strategy::HiddenGroups => "EliminatePossibilitiesUsingHiddenGroups",
            Strategy::XWing => "EliminatePossibilitiesByDetectingXWingPatterns",
            Strategy::YWing => "EliminatePossibilitiesUsingYWing",
        }
    }

    /// Applies the strategy to a grid. Returns `true` if any changes were
    /// made, indicating that further changes might be possible.
    pub fn solve(self, sudoku: &mut SudokuTemplate) -> (changed: bool)
        requires
            old(sudoku).wf(),
        ensures
            final(sudoku)@ == self.apply(old(sudoku)@),
            changed == (final(sudoku)@ != old(sudoku)@),
            final(sudoku).wf(),
            refines(old(sudoku)@, final(sudoku)@),
    {
        match self {
            Strategy::ExistingSingles => EliminatePossibilitiesUsingExistingSingles.solve(sudoku),
            Strategy::HiddenSingles => SetHiddenSingles.solve(sudoku),
            Strategy::Pointing => EliminatePossibilitiesUsingPointing.solve(sudoku),
            Strategy::NakedPairs => EliminatePossibilitiesUsingNakedPairs.solve(sudoku),
            Strategy::HiddenGroups => EliminatePossibilitiesUsingHiddenGroups.solve(sudoku),
            Strategy::XWing => EliminatePossibilitiesUsingXWing.solve(sudoku),
            Strategy::YWing => EliminatePossibilitiesUsingYWing.solve(sudoku),
        }
    }
}

} // verus!
