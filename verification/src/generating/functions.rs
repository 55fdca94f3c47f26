//! Generation: a grid is filled by solving the empty puzzle with guesses,
//! and then clues are taken away, in random order, for as long as the
//! strategies alone still solve what is left.

use rand::seq::SliceRandom;
use vstd::prelude::*;
use crate::evaluating::functions::{classify, evaluate_difficulty};
use crate::laws::a_full_grid_stays_as_it_is;
use crate::model::{at, grid_of, lemma_at_geometry, related};
use crate::solving::functions::{
    implemented, implemented_strategies, solve, solve_with_guessing, solve_with_statistics,
    solved_up_to, uses,
};
use crate::traits::difficulty::Difficulty;
use crate::traits::sudoku::{has_conflict, is_solved_grid, Sudoku};
use crate::validator::all_digits_or_empty;

verus! {

/// The strategies alone solve the puzzle completely and without conflict.
pub open spec fn solvable(digits: Seq<int>) -> bool {
    is_solved_grid(solved_up_to(digits, Difficulty::Hard))
}

/// How many of the first `n` cells hold a digit.
pub open spec fn clues(digits: Seq<int>, n: int) -> int
    decreases n,
{
    if n <= 0 {
        0
    } else {
        clues(digits, n - 1) + if digits[n - 1] != 0 {
            1int
        } else {
            0int
        }
    }
}

/// Taking clues away from a puzzle without conflict leaves it without
/// conflict.
pub proof fn lemma_fewer_clues_no_conflict(full: Seq<int>, reduced: Seq<int>)
    requires
        !has_conflict(full),
        forall|p: int| 0 <= p < 81 ==> #[trigger] reduced[p] == full[p] || reduced[p] == 0,
    ensures
        !has_conflict(reduced),
{
    if has_conflict(reduced) {
        let (p, q) = choose|p: int, q: int|
            0 <= p < 81 && 0 <= q < 81 && p != q && related(p, q) && #[trigger] reduced[p] != 0
                && reduced[p] == #[trigger] reduced[q];
        assert(full[p] != 0 && full[p] == full[q]);
    }
}

/// No clue can be taken from the puzzle without the strategies failing to
/// solve the rest.
pub open spec fn is_minimal(digits: Seq<int>) -> bool {
    forall|p: int| 0 <= p < 81 && digits[p] != 0 ==> !solvable(#[trigger] digits.update(p, 0))
}

/// Every strategy of the tier `difficulty` is applied at least once when
/// the puzzle is solved.
pub open spec fn exercises(digits: Seq<int>, difficulty: Difficulty) -> bool {
    forall|i: int|
        0 <= i < 7 && (#[trigger] implemented()[i]).tier() == difficulty ==> uses(
            grid_of(digits),
            implemented(),
            i,
        ) > 0
}

/// A puzzle has between 0 and 81 clues.
pub proof fn lemma_clues_bound(digits: Seq<int>, n: int)
    requires
        0 <= n,
    ensures
        0 <= clues(digits, n) <= n,
    decreases n,
{
    if n > 0 {
        lemma_clues_bound(digits, n - 1);
    }
}

/// Taking a clue away lowers the number of clues.
pub proof fn lemma_clues(digits: Seq<int>, p: int, n: int)
    requires
        0 <= p < digits.len(),
        0 <= n <= digits.len(),
        digits[p] != 0,
    ensures
        0 <= clues(digits.update(p, 0), n) <= clues(digits, n),
        p < n ==> clues(digits.update(p, 0), n) < clues(digits, n),
    decreases n,
{
    if n > 0 {
        lemma_clues(digits, p, n - 1);
    }
}

/// Puts the cells into a random order with `SliceRandom::shuffle` and the
/// generator of the thread. The cells are the same afterwards, each as
/// often as before. Verus takes this on trust; the order is left open.
#[verifier::external_body]
fn shuffle(cells: &mut Vec<(usize, usize)>)
    ensures
        final(cells)@.to_multiset() == old(cells)@.to_multiset(),
{
    cells.shuffle(&mut rand::rng());
}

/// The puzzle without the clue at `cell`, given as row and column.
pub fn remove_cell(sudoku: &Sudoku, cell: (usize, usize)) -> (reduced: Sudoku)
    requires
        cell.0 < 9,
        cell.1 < 9,
    ensures
        reduced@ == sudoku@.update(at(cell.0 as int, cell.1 as int), 0),
{
    let mut cells = *sudoku.get_cells();
    let ghost before = cells;
    cells[cell.0][cell.1] = 0;
    let reduced = Sudoku::new(cells);
    proof {
        sudoku.lemma_view();
        reduced.lemma_view();
        let target = at(cell.0 as int, cell.1 as int);
        lemma_at_geometry(cell.0 as int, cell.1 as int);
        assert forall|p: int| 0 <= p < 81 implies reduced@[p] == sudoku@.update(target, 0)[p] by {
            let row = p / 9;
            let col = p % 9;
            assert(at(row, col) == p);
            assert(reduced@[at(row, col)] == cells[row][col]);
            assert(sudoku@[at(row, col)] == before[row][col]);
        }
        assert(reduced@ =~= sudoku@.update(target, 0));
    }
    reduced
}

/// The positions below `n` that hold a clue, in ascending order.
pub open spec fn clue_positions(digits: Seq<int>, n: int) -> Seq<int>
    decreases n,
{
    if n <= 0 {
        Seq::empty()
    } else if digits[n - 1] != 0 {
        clue_positions(digits, n - 1).push(n - 1)
    } else {
        clue_positions(digits, n - 1)
    }
}

/// The listed positions are exactly those that hold a clue.
pub proof fn lemma_clue_positions(digits: Seq<int>, n: int)
    requires
        0 <= n <= 81,
    ensures
        forall|k: int|
            0 <= k < clue_positions(digits, n).len() ==> 0 <= #[trigger] clue_positions(digits, n)[k]
                < n && digits[clue_positions(digits, n)[k]] != 0,
        forall|p: int|
            0 <= p < n && digits[p] != 0 ==> exists|k: int|
                0 <= k < clue_positions(digits, n).len() && #[trigger] clue_positions(digits, n)[k]
                    == p,
    decreases n,
{
    if n > 0 {
        lemma_clue_positions(digits, n - 1);
        let prev = clue_positions(digits, n - 1);
        let cur = clue_positions(digits, n);
        assert forall|p: int| 0 <= p < n && digits[p] != 0 implies exists|k: int|
            0 <= k < cur.len() && #[trigger] cur[k] == p by {
            if p == n - 1 {
                assert(cur[prev.len() as int] == p);
            } else {
                let k = choose|k: int| 0 <= k < prev.len() && #[trigger] prev[k] == p;
                assert(cur[k] == p);
            }
        }
    }
}

/// The cells that hold a clue, row by row, each as row and column.
pub fn filled_cells(sudoku: &Sudoku) -> (cells: Vec<(usize, usize)>)
    ensures
        cells.len() == clue_positions(sudoku@, 81).len(),
        forall|k: int|
            0 <= k < cells.len() ==> (#[trigger] cells[k]).0 < 9 && cells[k].1 < 9 && at(
                cells[k].0 as int,
                cells[k].1 as int,
            ) == clue_positions(sudoku@, 81)[k],
{
    let mut cells: Vec<(usize, usize)> = Vec::new();
    for p in 0..81usize
        invariant
            cells.len() == clue_positions(sudoku@, p as int).len(),
            forall|k: int|
                0 <= k < cells.len() ==> (#[trigger] cells[k]).0 < 9 && cells[k].1 < 9 && at(
                    cells[k].0 as int,
                    cells[k].1 as int,
                ) == clue_positions(sudoku@, p as int)[k],
    {
        let row: usize = p / 9;
        let col: usize = p % 9;
        if sudoku.get(row, col) != 0 {
            cells.push((row, col));
        }
    }
    cells
}

/// The first cell of `order` without whose clue the strategies still solve
/// the puzzle, as its place in `order`.
pub fn first_removable(sudoku: &Sudoku, order: &Vec<(usize, usize)>) -> (found: Option<usize>)
    requires
        forall|k: int| 0 <= k < order.len() ==> (#[trigger] order[k]).0 < 9 && order[k].1 < 9,
    ensures
        match found {
            Some(n) => n < order.len() && solvable(
                sudoku@.update(at(order[n as int].0 as int, order[n as int].1 as int), 0),
            ) && forall|k: int|
                0 <= k < n ==> !solvable(
                    sudoku@.update(at((#[trigger] order[k]).0 as int, order[k].1 as int), 0),
                ),
            None => forall|k: int|
                0 <= k < order.len() ==> !solvable(
                    sudoku@.update(at((#[trigger] order[k]).0 as int, order[k].1 as int), 0),
                ),
        },
{
    for n in 0..order.len()
        invariant
            forall|k: int| 0 <= k < order.len() ==> (#[trigger] order[k]).0 < 9 && order[k].1 < 9,
            forall|k: int|
                0 <= k < n ==> !solvable(
                    sudoku@.update(at((#[trigger] order[k]).0 as int, order[k].1 as int), 0),
                ),
    {
        let new_sudoku = remove_cell(sudoku, order[n]);
        if solve(&new_sudoku).is_solved() {
            return Some(n);
        }
    }
    None
}

/// Takes clues from the puzzle, always the first in a fresh random order
/// without which the strategies still solve the rest, until no clue can be
/// taken any more.
pub fn remove_cells(sudoku: &Sudoku) -> (reduced: Sudoku)
    ensures
        forall|p: int| 0 <= p < 81 ==> #[trigger] reduced@[p] == sudoku@[p] || reduced@[p] == 0,
        solvable(sudoku@) ==> solvable(reduced@),
        is_minimal(reduced@),
{
    let mut current = *sudoku;
    let mut done = false;
    proof {
        current.lemma_view();
        lemma_clues_bound(current@, 81);
    }
    while !done
        invariant
            current@.len() == 81,
            sudoku@.len() == 81,
            0 <= clues(current@, 81),
            forall|p: int| 0 <= p < 81 ==> #[trigger] current@[p] == sudoku@[p] || current@[p] == 0,
            solvable(sudoku@) ==> solvable(current@),
            done ==> is_minimal(current@),
        decreases clues(current@, 81) + if done { 0int } else { 1int },
    {
        let mut non_empty_cells = filled_cells(&current);
        let ghost listed = non_empty_cells@;
        shuffle(&mut non_empty_cells);
        proof {
            let shuffled = non_empty_cells@;
            lemma_clue_positions(current@, 81);
            assert forall|c: (usize, usize)| listed.contains(c) == shuffled.contains(c) by {
                listed.to_multiset_ensures();
                shuffled.to_multiset_ensures();
                assert(listed.to_multiset().count(c) == shuffled.to_multiset().count(c));
            }
            assert forall|k: int| 0 <= k < shuffled.len() implies (#[trigger] shuffled[k]).0 < 9
                && shuffled[k].1 < 9 && current@[at(shuffled[k].0 as int, shuffled[k].1 as int)]
                != 0 by {
                assert(shuffled.contains(shuffled[k]));
                assert(listed.contains(shuffled[k]));
                let j = choose|j: int| 0 <= j < listed.len() && listed[j] == shuffled[k];
                assert(at(listed[j].0 as int, listed[j].1 as int) == clue_positions(current@, 81)[j]);
            }
        }
        match first_removable(&current, &non_empty_cells) {
            Some(n) => {
                let cell = non_empty_cells[n];
                let ghost before = current@;
                current = remove_cell(&current, cell);
                proof {
                    lemma_at_geometry(cell.0 as int, cell.1 as int);
                    lemma_clues(before, at(cell.0 as int, cell.1 as int), 81);
                }
            },
            None => {
                proof {
                    let shuffled = non_empty_cells@;
                    assert forall|p: int| 0 <= p < 81 && current@[p] != 0 implies !solvable(
                        #[trigger] current@.update(p, 0),
                    ) by {
                        let row = p / 9;
                        let col = p % 9;
                        assert(at(row, col) == p);
                        let j = choose|j: int|
                            0 <= j < clue_positions(current@, 81).len() && #[trigger] clue_positions(
                                current@,
                                81,
                            )[j] == p;
                        lemma_at_geometry(listed[j].0 as int, listed[j].1 as int);
                        assert(listed[j] == (row as usize, col as usize));
                        assert(listed.contains((row as usize, col as usize)));
                        assert(shuffled.contains((row as usize, col as usize)));
                        let k = choose|k: int|
                            0 <= k < shuffled.len() && shuffled[k] == (row as usize, col as usize);
                        assert(at(shuffled[k].0 as int, shuffled[k].1 as int) == p);
                    }
                }
                done = true;
            },
        }
    }
    current
}

/// Fills the empty puzzle by solving it with guesses, up to `attempts`
/// times, and returns the first grid that came out without conflict.
pub fn generate_completed_sudoku(attempts: usize) -> (completed: Option<Sudoku>)
    ensures
        completed matches Some(sudoku) ==> is_solved_grid(sudoku@) && forall|p: int|
            0 <= p < 81 ==> 1 <= #[trigger] sudoku@[p] <= 9,
        attempts == 0 ==> completed is None,
{
    let empty = Sudoku::empty();
    for attempt in 0..attempts {
        let sudoku = solve_with_guessing(&empty);
        if sudoku.is_solved() {
            return Some(sudoku);
        }
    }
    None
}

/// Generates an unsolved puzzle with no guarantee about its difficulty:
/// a completed grid from which clues were taken for as long as the
/// strategies still solve the rest. Gives up after `attempts` completions
/// that ended in a conflict.
pub fn generate_sudoku(attempts: usize) -> (generated: Option<Sudoku>)
    ensures
        generated matches Some(sudoku) ==> solvable(sudoku@) && is_minimal(sudoku@)
            && !has_conflict(sudoku@) && all_digits_or_empty(sudoku@),
        attempts == 0 ==> generated is None,
{
    match generate_completed_sudoku(attempts) {
        Some(completed) => {
            proof {
                completed.lemma_view();
                a_full_grid_stays_as_it_is(completed@, Difficulty::Hard);
            }
            let reduced = remove_cells(&completed);
            proof {
                lemma_fewer_clues_no_conflict(completed@, reduced@);
            }
            Some(reduced)
        },
        None => None,
    }
}

/// Whether every strategy of the tier `difficulty` has a count above zero
/// in `statistics`, the counts of the implemented strategies in their
/// order.
pub fn all_used(statistics: &Vec<u64>, difficulty: Difficulty) -> (used: bool)
    requires
        statistics.len() == 7,
    ensures
        used == forall|i: int|
            0 <= i < 7 && (#[trigger] implemented()[i]).tier() == difficulty ==> statistics[i] > 0,
{
    let strategies = implemented_strategies();
    for n in 0..7usize
        invariant
            statistics.len() == 7,
            strategies@ == implemented(),
            forall|i: int|
                0 <= i < n && (#[trigger] implemented()[i]).tier() == difficulty ==> statistics[i]
                    > 0,
    {
        if strategies[n].difficulty() == difficulty && statistics[n] == 0 {
            return false;
        }
    }
    true
}

/// Generates puzzles, up to `attempts` times, until one has the requested
/// difficulty and exercises every strategy of that tier when it is solved.
pub fn generate_sudoku_with_difficulty(difficulty: Difficulty, attempts: usize) -> (generated: Option<
    Sudoku,
>)
    ensures
        generated matches Some(sudoku) ==> classify(sudoku@) == Some(difficulty) && exercises(
            sudoku@,
            difficulty,
        ) && solvable(sudoku@) && is_minimal(sudoku@) && !has_conflict(sudoku@)
            && all_digits_or_empty(sudoku@),
        attempts == 0 ==> generated is None,
{
    for attempt in 0..attempts {
        match generate_sudoku(attempts) {
            Some(sudoku) => {
                if has_difficulty(&sudoku, difficulty) {
                    return Some(sudoku);
                }
            },
            None => {},
        }
    }
    None
}

/// Whether the puzzle is what generating with `difficulty` looks for: the
/// tier is the lowest whose strategies solve it, and solving it applies
/// every strategy of that tier at least once.
pub fn has_difficulty(sudoku: &Sudoku, difficulty: Difficulty) -> (wanted: bool)
    ensures
        wanted == (classify(sudoku@) == Some(difficulty) && exercises(sudoku@, difficulty)),
{
    let matches_difficulty = match evaluate_difficulty(sudoku) {
        Some(found) => found == difficulty,
        None => false,
    };
    if !matches_difficulty {
        return false;
    }
    let (_, statistics) = solve_with_statistics(sudoku);
    all_used(&statistics, difficulty)
}

} // verus!
