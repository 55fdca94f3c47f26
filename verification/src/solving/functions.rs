//! The solving loop: the strategies are tried in a fixed order, the first
//! that changes the grid is applied and the search starts over, until no
//! strategy changes anything.

use vstd::prelude::*;
use crate::model::{
    grid_of, grid_wf, lemma_refines_refl, lemma_refines_trans, lemma_weight_bound,
    lemma_weight_drops, refines, values_of, weight, CellModel, Grid,
};
use crate::solving::strategies::set_single_randomly::SetSingleRandomly;
use crate::solving::traits::Strategy;
use crate::traits::difficulty::Difficulty;
use crate::traits::sudoku::{is_full, Sudoku};
use crate::traits::sudoku_template::SudokuTemplate;

verus! {

/// The strategies in the order in which the solving loop tries them.
pub open spec fn implemented() -> Seq<Strategy> {
    seq![
        Strategy::ExistingSingles,
        Strategy::HiddenSingles,
        Strategy::Pointing,
        Strategy::NakedPairs,
        Strategy::HiddenGroups,
        Strategy::XWing,
        Strategy::YWing,
    ]
}

/// Those of the first `n` strategies of `order` whose tier is at most
/// `ceiling`, in the same order.
pub open spec fn within(order: Seq<Strategy>, ceiling: Difficulty, n: int) -> Seq<Strategy>
    decreases n,
{
    if n <= 0 {
        Seq::empty()
    } else if order[n - 1].tier().rank() <= ceiling.rank() {
        within(order, ceiling, n - 1).push(order[n - 1])
    } else {
        within(order, ceiling, n - 1)
    }
}

/// The strategies that solving with the tier `ceiling` uses.
pub open spec fn eligible(ceiling: Difficulty) -> Seq<Strategy> {
    within(implemented(), ceiling, 7)
}

/// The place in `order`, from `from` on, of the first strategy that
/// changes `g`; the length of `order` if none does.
pub open spec fn credited(g: Grid, order: Seq<Strategy>, from: int) -> int
    decreases order.len() - from,
{
    if from >= order.len() {
        order.len() as int
    } else if order[from].apply(g) != g {
        from
    } else {
        credited(g, order, from + 1)
    }
}

/// The grid after the first strategy of `order`, from `from` on, that
/// changes `g` was applied; `g` itself if none changes it.
pub open spec fn first_change(g: Grid, order: Seq<Strategy>, from: int) -> Grid {
    if credited(g, order, from) < order.len() {
        order[credited(g, order, from)].apply(g)
    } else {
        g
    }
}

/// The grid in which the solving loop with the strategies `order` ends
/// when it starts from `g`: a grid that none of the strategies changes.
pub open spec fn settle(g: Grid, order: Seq<Strategy>) -> Grid
    decreases weight(g),
    when grid_wf(g)
    via settle_decreases
{
    let h = first_change(g, order, 0);
    if h == g {
        g
    } else {
        settle(h, order)
    }
}

/// Every round of the loop that changes the grid lowers its weight.
#[via_fn]
proof fn settle_decreases(g: Grid, order: Seq<Strategy>) {
    lemma_first_change(g, order, 0);
    lemma_weight_drops(g, first_change(g, order, 0));
}

/// How often the solving loop, on its way from `g`, applies the `i`-th
/// strategy of `order`.
pub open spec fn uses(g: Grid, order: Seq<Strategy>, i: int) -> int
    decreases weight(g),
    when grid_wf(g)
    via uses_decreases
{
    let h = first_change(g, order, 0);
    if h == g {
        0
    } else {
        uses(h, order, i) + if credited(g, order, 0) == i {
            1int
        } else {
            0int
        }
    }
}

/// Every round of the loop that changes the grid lowers its weight.
#[via_fn]
proof fn uses_decreases(g: Grid, order: Seq<Strategy>, i: int) {
    lemma_first_change(g, order, 0);
    lemma_weight_drops(g, first_change(g, order, 0));
}

/// The step of the solving loop keeps the grid well-formed and is a
/// deduction.
pub proof fn lemma_first_change(g: Grid, order: Seq<Strategy>, from: int)
    requires
        grid_wf(g),
        0 <= from,
    ensures
        grid_wf(first_change(g, order, from)),
        refines(g, first_change(g, order, from)),
        from <= credited(g, order, from) <= order.len() || order.len() < from,
        (first_change(g, order, from) != g) == (credited(g, order, from) < order.len()),
        forall|k: int| from <= k < credited(g, order, from) ==> (#[trigger] order[k]).apply(g) == g,
    decreases order.len() - from,
{
    if from < order.len() {
        if order[from].apply(g) != g {
            order[from].lemma_apply(g, Seq::empty());
        } else {
            lemma_first_change(g, order, from + 1);
        }
    } else {
        lemma_refines_refl(g);
    }
}

/// The solving loop ends in a well-formed grid that it reached by
/// deductions and that none of its strategies changes.
pub proof fn lemma_settle(g: Grid, order: Seq<Strategy>)
    requires
        grid_wf(g),
    ensures
        grid_wf(settle(g, order)),
        refines(g, settle(g, order)),
        first_change(settle(g, order), order, 0) == settle(g, order),
        forall|k: int| 0 <= k < order.len() ==> (#[trigger] order[k]).apply(settle(g, order))
            == settle(g, order),
    decreases weight(g),
{
    let h = first_change(g, order, 0);
    lemma_first_change(g, order, 0);
    lemma_weight_drops(g, h);
    if h != g {
        lemma_settle(h, order);
        lemma_refines_trans(g, h, settle(h, order));
    }
}

/// All implemented strategies, in the order in which they are tried.
pub fn implemented_strategies() -> (strategies: Vec<Strategy>)
    ensures
        strategies@ == implemented(),
{
    let mut strategies: Vec<Strategy> = Vec::new();
    strategies.push(Strategy::ExistingSingles);
    strategies.push(Strategy::HiddenSingles);
    strategies.push(Strategy::Pointing);
    strategies.push(Strategy::NakedPairs);
    strategies.push(Strategy::HiddenGroups);
    strategies.push(Strategy::XWing);
    strategies.push(Strategy::YWing);
    assert(strategies@ =~= implemented());
    strategies
}

/// The implemented strategies whose tier is at most `difficulty`.
pub fn strategies_within(difficulty: Difficulty) -> (strategies: Vec<Strategy>)
    ensures
        strategies@ == eligible(difficulty),
{
    let all = implemented_strategies();
    let mut strategies: Vec<Strategy> = Vec::new();
    for n in 0..all.len()
        invariant
            all@ == implemented(),
            strategies@ == within(implemented(), difficulty, n as int),
    {
        let strategy = all[n];
        if strategy.difficulty().at_most(difficulty) {
            strategies.push(strategy);
        }
    }
    strategies
}

/// Tries the strategies in order and stops at the first that changes the
/// grid. Returns the place of that strategy, if there is one.
pub fn apply_first(template: &mut SudokuTemplate, strategies: &Vec<Strategy>) -> (applied: Option<
    usize,
>)
    requires
        old(template).wf(),
    ensures
        final(template)@ == first_change(old(template)@, strategies@, 0),
        applied is Some == (final(template)@ != old(template)@),
        match applied {
            Some(i) => i == credited(old(template)@, strategies@, 0) && i < strategies.len(),
            None => credited(old(template)@, strategies@, 0) == strategies.len(),
        },
        final(template).wf(),
        refines(old(template)@, final(template)@),
{
    let ghost g = template@;
    let mut n: usize = 0;
    while n < strategies.len()
        invariant
            n <= strategies.len(),
            template@ == g,
            g == old(template)@,
            template.wf(),
            credited(g, strategies@, 0) == credited(g, strategies@, n as int),
        decreases strategies.len() - n,
    {
        if strategies[n].solve(template) {
            return Some(n);
        }
        n += 1;
    }
    proof {
        lemma_refines_refl(g);
    }
    None
}

/// Applies the strategies to the grid, in order and starting over after
/// every change, until none of them changes it.
pub fn run(template: &mut SudokuTemplate, strategies: &Vec<Strategy>)
    requires
        old(template).wf(),
    ensures
        final(template)@ == settle(old(template)@, strategies@),
        final(template).wf(),
        refines(old(template)@, final(template)@),
{
    let ghost start = template@;
    let mut changed = true;
    proof {
        lemma_refines_refl(start);
    }
    while changed
        invariant
            template.wf(),
            refines(start, template@),
            settle(template@, strategies@) == settle(start, strategies@),
            !changed ==> template@ == settle(template@, strategies@),
        decreases weight(template@) + if changed { 1int } else { 0int },
    {
        let ghost before = template@;
        let applied = apply_first(template, strategies);
        proof {
            lemma_weight_drops(before, template@);
            lemma_refines_trans(start, before, template@);
        }
        changed = applied.is_some();
    }
}

/// The puzzle that solving `digits` with the strategies up to the tier
/// `ceiling` ends in.
pub open spec fn solved_up_to(digits: Seq<int>, ceiling: Difficulty) -> Seq<int> {
    values_of(settle(grid_of(digits), eligible(ceiling)))
}

/// The grid of a puzzle is well-formed.
pub proof fn lemma_grid_of(digits: Seq<int>)
    ensures
        grid_wf(grid_of(digits)),
{
    assert forall|p: int| 0 <= p < 81 implies (#[trigger] grid_of(digits)[p]).wf() by {
        CellModel::lemma_from_digit(digits[p]);
    }
}

/// Solves a puzzle as far as all implemented strategies reach.
pub fn solve(sudoku: &Sudoku) -> (solved: Sudoku)
    ensures
        solved@ == solved_up_to(sudoku@, Difficulty::Hard),
{
    solve_with_difficulty(sudoku, Difficulty::Hard)
}

/// Solves a puzzle as far as the strategies whose tier is at most
/// `difficulty` reach: they are applied in their fixed order, starting over
/// after every change, until none of them changes the grid.
pub fn solve_with_difficulty(sudoku: &Sudoku, difficulty: Difficulty) -> (solved: Sudoku)
    ensures
        solved@ == solved_up_to(sudoku@, difficulty),
{
    let strategies = strategies_within(difficulty);
    let mut template = SudokuTemplate::from_sudoku(sudoku);
    run(&mut template, &strategies);
    Sudoku::from_template(&template)
}

/// Fills a puzzle completely: wherever the implemented strategies change
/// nothing, an undecided cell takes one of its candidates by a random
/// guess. The digits of the puzzle stay, and so does every digit that
/// solving without guesses finds; whether the result is free of conflicts
/// depends on the guesses.
pub fn solve_with_guessing(sudoku: &Sudoku) -> (solved: Sudoku)
    ensures
        is_full(solved@),
        forall|p: int| 0 <= p < 81 ==> 1 <= #[trigger] solved@[p] <= 9,
        forall|p: int| 0 <= p < 81 && 1 <= sudoku@[p] <= 9 ==> solved@[p] == #[trigger] sudoku@[p],
        forall|p: int|
            0 <= p < 81 && solved_up_to(sudoku@, Difficulty::Hard)[p] != 0 ==> #[trigger] solved@[p]
                == solved_up_to(sudoku@, Difficulty::Hard)[p],
{
    let strategies = implemented_strategies();
    let mut template = SudokuTemplate::from_sudoku(sudoku);
    let ghost start = template@;
    let ghost settled = settle(start, implemented());
    let mut changed = true;
    let mut guessed = false;
    proof {
        lemma_refines_refl(start);
        lemma_settle(start, implemented());
        assert(eligible(Difficulty::Hard) =~= implemented()) by {
            reveal_with_fuel(within, 8);
        }
    }
    while changed
        invariant
            strategies@ == implemented(),
            settled == settle(start, implemented()),
            template.wf(),
            grid_wf(settled),
            refines(start, template@),
            refines(start, settled),
            guessed ==> refines(settled, template@),
            !guessed ==> settle(template@, implemented()) == settled,
            !changed ==> refines(settled, template@),
            !changed ==> forall|p: int| 0 <= p < 81 ==> !(#[trigger] template@[p]).is_empty(),
        decreases weight(template@) + if changed { 1int } else { 0int },
    {
        let ghost before = template@;
        let applied = apply_first(&mut template, &strategies);
        proof {
            lemma_refines_trans(start, before, template@);
            if guessed {
                lemma_refines_trans(settled, before, template@);
            }
        }
        if applied.is_some() {
            changed = true;
            proof {
                lemma_weight_drops(before, template@);
            }
        } else {
            let ghost quiet = template@;
            proof {
                if !guessed {
                    assert(quiet == settled);
                    lemma_refines_refl(settled);
                }
            }
            changed = SetSingleRandomly::make_a_guess(&mut template);
            guessed = true;
            proof {
                lemma_weight_drops(quiet, template@);
                lemma_refines_trans(start, quiet, template@);
                lemma_refines_trans(settled, quiet, template@);
            }
        }
    }
    let solved = Sudoku::from_template(&template);
    proof {
        assert forall|p: int| 0 <= p < 81 implies 1 <= #[trigger] solved@[p] <= 9 by {
            assert(template@[p].wf());
        }
        assert forall|p: int| 0 <= p < 81 && 1 <= sudoku@[p] <= 9 implies solved@[p]
            == #[trigger] sudoku@[p] by {
            assert(start[p].narrows_to(template@[p]));
        }
        assert forall|p: int|
            0 <= p < 81 && solved_up_to(sudoku@, Difficulty::Hard)[p] != 0 implies #[trigger] solved@[p]
            == solved_up_to(sudoku@, Difficulty::Hard)[p] by {
            assert(settled[p].narrows_to(template@[p]));
        }
    }
    solved
}

/// Solves a puzzle as `solve` does and counts, for each implemented
/// strategy, how often it was the one that changed the grid.
pub fn solve_with_statistics(sudoku: &Sudoku) -> (result: (Sudoku, Vec<u64>))
    ensures
        result.0@ == solved_up_to(sudoku@, Difficulty::Hard),
        result.1.len() == 7,
        forall|i: int|
            0 <= i < 7 ==> #[trigger] result.1[i] == uses(grid_of(sudoku@), implemented(), i),
{
    let strategies = implemented_strategies();
    let mut statistics: Vec<u64> = Vec::new();
    for n in 0..7usize
        invariant
            statistics.len() == n,
            forall|i: int| 0 <= i < n ==> #[trigger] statistics[i] == 0,
    {
        statistics.push(0);
    }
    let mut template = SudokuTemplate::from_sudoku(sudoku);
    let ghost start = template@;
    let mut changed = true;
    proof {
        lemma_refines_refl(start);
        lemma_weight_bound(start, 81);
        assert(eligible(Difficulty::Hard) =~= implemented()) by {
            reveal_with_fuel(within, 8);
        }
    }
    while changed
        invariant
            strategies@ == implemented(),
            statistics.len() == 7,
            template.wf(),
            grid_wf(start),
            weight(start) <= 729,
            refines(start, template@),
            settle(template@, strategies@) == settle(start, strategies@),
            !changed ==> template@ == settle(template@, strategies@),
            !changed ==> forall|i: int| 0 <= i < 7 ==> uses(template@, strategies@, i) == 0,
            forall|i: int|
                0 <= i < 7 ==> #[trigger] statistics[i] + uses(template@, strategies@, i) == uses(
                    start,
                    strategies@,
                    i,
                ),
            forall|i: int| 0 <= i < 7 ==> #[trigger] statistics[i] + weight(template@) <= weight(start),
        decreases weight(template@) + if changed { 1int } else { 0int },
    {
        let ghost before = template@;
        let ghost counted = statistics@;
        let applied = apply_first(&mut template, &strategies);
        proof {
            lemma_weight_drops(before, template@);
            lemma_refines_trans(start, before, template@);
        }
        match applied {
            Some(n) => {
                let count = statistics[n];
                statistics.set(n, count + 1);
                changed = true;
                proof {
                    assert forall|i: int| 0 <= i < 7 implies #[trigger] statistics[i] + uses(
                        template@,
                        strategies@,
                        i,
                    ) == uses(start, strategies@, i) by {
                        assert(counted[i] + uses(before, strategies@, i) == uses(
                            start,
                            strategies@,
                            i,
                        ));
                    }
                }
            },
            None => {
                changed = false;
            },
        }
    }
    (Sudoku::from_template(&template), statistics)
}

} // verus!
