//! What holds of the library as a whole, stated over the models that the
//! contracts of its functions use.

use vstd::prelude::*;
use vstd::set_lib::{lemma_int_range, lemma_subset_equality, set_int_range};
use crate::model::{
    above, box_cell, box_has, col_cell, col_has, fits, grid_of, grid_wf, lemma_weight_drops,
    refines, related, row_cell, row_has, valid_completion, values_of, weight, Grid,
};
use crate::solving::functions::{
    credited, eligible, first_change, implemented, lemma_first_change, lemma_grid_of, lemma_settle,
    settle, solved_up_to, within,
};
use crate::solving::strategies::set_single_randomly::{picked, SetSingleRandomly};
use crate::solving::traits::{settled, Strategy};
use crate::traits::difficulty::Difficulty;
use crate::traits::sudoku::{decode, encode, has_conflict, is_full, is_solved_grid};
use crate::traits::sudoku_template::UnitKind;
use crate::validator::all_digits_or_empty;

verus! {

/// A unit of a grid of digits without conflict holds every digit.
proof fn lemma_unit_holds_all(digits: Seq<int>, kind: UnitKind, i: int, d: int)
    requires
        digits.len() == 81,
        forall|p: int| 0 <= p < 81 ==> 1 <= #[trigger] digits[p] <= 9,
        !has_conflict(digits),
        0 <= i < 9,
        1 <= d <= 9,
    ensures
        kind.has(digits, i, d),
{
    kind.lemma_geometry();
    let held = Seq::new(9, |j: int| digits[kind.cell(i, j)]);
    assert(held.no_duplicates()) by {
        assert forall|j: int, k: int| 0 <= j < 9 && 0 <= k < 9 && j != k implies held[j]
            != held[k] by {
            let p = kind.cell(i, j);
            let q = kind.cell(i, k);
            assert(kind.place_of(p) != kind.place_of(q));
            assert(related(p, q));
            if digits[p] == digits[q] {
                assert(0 <= p < 81 && 0 <= q < 81 && p != q && related(p, q) && digits[p] != 0
                    && digits[p] == digits[q]);
            }
        }
    }
    held.unique_seq_to_set();
    vstd::seq_lib::seq_to_set_is_finite(held);
    lemma_int_range(1, 10);
    assert(held.to_set().subset_of(set_int_range(1, 10))) by {
        assert forall|x: int| held.to_set().contains(x) implies set_int_range(1, 10).contains(x) by {
            let j = choose|j: int| 0 <= j < held.len() && held[j] == x;
        }
    }
    lemma_subset_equality(held.to_set(), set_int_range(1, 10));
    assert(held.to_set().contains(d));
    let j = choose|j: int| 0 <= j < held.len() && held[j] == d;
    assert(digits[kind.cell(i, j)] == d);
}

/// A grid is solved exactly if it is a valid completion: where every cell
/// holds a digit and no two related cells hold the same, every row, column
/// and box holds each digit once, and the other way round.
pub proof fn solved_means_valid(digits: Seq<int>)
    requires
        digits.len() == 81,
        forall|p: int| 0 <= p < 81 ==> 0 <= #[trigger] digits[p] <= 9,
    ensures
        is_solved_grid(digits) <==> valid_completion(digits),
{
    if is_solved_grid(digits) {
        assert forall|i: int, d: int| 0 <= i < 9 && 1 <= d <= 9 implies #[trigger] row_has(
            digits,
            i,
            d,
        ) by {
            lemma_unit_holds_all(digits, UnitKind::Row, i, d);
            let j = choose|j: int| 0 <= j < 9 && digits[#[trigger] UnitKind::Row.cell(i, j)] == d;
            assert(digits[row_cell(i, j)] == d);
        }
        assert forall|i: int, d: int| 0 <= i < 9 && 1 <= d <= 9 implies #[trigger] col_has(
            digits,
            i,
            d,
        ) by {
            lemma_unit_holds_all(digits, UnitKind::Column, i, d);
            let j = choose|j: int| 0 <= j < 9 && digits[#[trigger] UnitKind::Column.cell(i, j)] == d;
            assert(digits[col_cell(i, j)] == d);
        }
        assert forall|i: int, d: int| 0 <= i < 9 && 1 <= d <= 9 implies #[trigger] box_has(
            digits,
            i,
            d,
        ) by {
            lemma_unit_holds_all(digits, UnitKind::Square, i, d);
            let j = choose|j: int| 0 <= j < 9 && digits[#[trigger] UnitKind::Square.cell(i, j)] == d;
            assert(digits[box_cell(i, j)] == d);
        }
        assert forall|p: int, q: int|
            0 <= p < 81 && 0 <= q < 81 && p != q && related(p, q) implies #[trigger] digits[p]
            != #[trigger] digits[q] by {
            if digits[p] == digits[q] {
                assert(digits[p] != 0);
            }
        }
    }
    if valid_completion(digits) {
        if has_conflict(digits) {
            let (p, q) = choose|p: int, q: int|
                0 <= p < 81 && 0 <= q < 81 && p != q && related(p, q) && #[trigger] digits[p] != 0
                    && digits[p] == #[trigger] digits[q];
            assert(false);
        }
    }
}

/// A puzzle that the strategies solve has exactly one valid completion:
/// the grid that solving it returns.
pub proof fn a_puzzle_that_is_solved_has_one_completion(
    digits: Seq<int>,
    ceiling: Difficulty,
    s: Seq<int>,
)
    requires
        is_solved_grid(solved_up_to(digits, ceiling)),
    ensures
        valid_completion(solved_up_to(digits, ceiling)),
        fits(grid_of(digits), solved_up_to(digits, ceiling)),
        valid_completion(s) && fits(grid_of(digits), s) ==> s == solved_up_to(digits, ceiling),
{
    let out = solved_up_to(digits, ceiling);
    solving_keeps_the_clues(digits, ceiling);
    assert forall|p: int| 0 <= p < 81 implies 1 <= #[trigger] out[p] <= 9 by {}
    solved_means_valid(out);
    assert forall|p: int| 0 <= p < 81 implies (#[trigger] grid_of(digits)[p]).cands.contains(
        out[p],
    ) by {}
    if valid_completion(s) && fits(grid_of(digits), s) {
        solved_output_has_no_repeated_digit(digits, ceiling, s);
    }
}

/// No strategy ever adds a candidate: after any application of any
/// strategy to a well-formed grid, the candidates of each cell are among
/// those it had before, and every confirmed value is still in its place.
pub proof fn candidates_only_shrink(strategy: Strategy, g: Grid)
    requires
        grid_wf(g),
    ensures
        grid_wf(strategy.apply(g)),
        refines(g, strategy.apply(g)),
        forall|p: int, d: int|
            0 <= p < 81 && strategy.apply(g)[p].cands.contains(d) ==> g[p].cands.contains(d),
{
    strategy.lemma_apply(g, Seq::empty());
    assert forall|p: int, d: int|
        0 <= p < 81 && strategy.apply(g)[p].cands.contains(d) implies g[p].cands.contains(d) by {
        assert(g[p].narrows_to(strategy.apply(g)[p]));
    }
}

/// A guess adds no candidate either: the cell that it fills keeps one of
/// the candidates that it had, and all other cells stay as they are.
pub proof fn a_guess_only_shrinks(g: Grid, k: int, j: int)
    requires
        grid_wf(g),
    ensures
        grid_wf(picked(g, k, j)),
        refines(g, picked(g, k, j)),
        forall|p: int, d: int|
            0 <= p < 81 && picked(g, k, j)[p].cands.contains(d) ==> g[p].cands.contains(d),
{
    SetSingleRandomly::lemma_picked(g, k, j);
    assert forall|p: int, d: int|
        0 <= p < 81 && picked(g, k, j)[p].cands.contains(d) implies g[p].cands.contains(d) by {
        assert(g[p].narrows_to(picked(g, k, j)[p]));
    }
}

/// Every strategy is sound: a valid completion that a well-formed grid
/// admits, cell by cell, before any application of any strategy is still
/// admitted after it.
pub proof fn completions_are_kept(strategy: Strategy, g: Grid, s: Seq<int>)
    requires
        grid_wf(g),
        valid_completion(s),
        fits(g, s),
    ensures
        fits(strategy.apply(g), s),
{
    strategy.lemma_apply(g, s);
}

/// One round of the solving loop keeps every valid completion that the
/// grid admits.
pub proof fn lemma_first_change_fits(g: Grid, order: Seq<Strategy>, s: Seq<int>)
    requires
        grid_wf(g),
        valid_completion(s),
        fits(g, s),
    ensures
        fits(first_change(g, order, 0), s),
{
    lemma_first_change(g, order, 0);
    let h = first_change(g, order, 0);
    if h != g {
        let k = credited(g, order, 0);
        order[k].lemma_apply(g, s);
    }
}

/// The solving loop keeps every valid completion that the grid it starts
/// from admits.
pub proof fn solving_keeps_completions(g: Grid, order: Seq<Strategy>, s: Seq<int>)
    requires
        grid_wf(g),
        valid_completion(s),
        fits(g, s),
    ensures
        fits(settle(g, order), s),
    decreases weight(g),
{
    let h = first_change(g, order, 0);
    lemma_first_change(g, order, 0);
    lemma_first_change_fits(g, order, s);
    lemma_weight_drops(g, h);
    if h != g {
        solving_keeps_completions(h, order, s);
    }
}

/// The solving loop never changes a digit of the puzzle, and it ends with a
/// digit or nothing in every cell.
pub proof fn solving_keeps_the_clues(digits: Seq<int>, ceiling: Difficulty)
    ensures
        solved_up_to(digits, ceiling).len() == 81,
        forall|p: int| 0 <= p < 81 ==> 0 <= #[trigger] solved_up_to(digits, ceiling)[p] <= 9,
        forall|p: int|
            0 <= p < 81 && 1 <= digits[p] <= 9 ==> #[trigger] solved_up_to(digits, ceiling)[p]
                == digits[p],
{
    let g = grid_of(digits);
    lemma_grid_of(digits);
    lemma_settle(g, eligible(ceiling));
    let h = settle(g, eligible(ceiling));
    assert forall|p: int| 0 <= p < 81 implies 0 <= #[trigger] solved_up_to(digits, ceiling)[p] <= 9 by {
        assert(h[p].wf());
    }
    assert forall|p: int| 0 <= p < 81 && 1 <= digits[p] <= 9 implies #[trigger] solved_up_to(
        digits,
        ceiling,
    )[p] == digits[p] by {
        assert(g[p].narrows_to(h[p]));
    }
}

/// Solving returns a puzzle in which every cell holds a digit as it is.
pub proof fn a_full_grid_stays_as_it_is(digits: Seq<int>, ceiling: Difficulty)
    requires
        digits.len() == 81,
        forall|p: int| 0 <= p < 81 ==> 1 <= #[trigger] digits[p] <= 9,
    ensures
        solved_up_to(digits, ceiling) == digits,
{
    solving_keeps_the_clues(digits, ceiling);
    assert(solved_up_to(digits, ceiling) =~= digits);
}

/// For a puzzle that has a valid completion: wherever solving fills a
/// cell, it fills it as the completion does; so where it fills every cell,
/// the result is that completion, and no row, column or box of it holds a
/// digit twice.
pub proof fn solved_output_has_no_repeated_digit(digits: Seq<int>, ceiling: Difficulty, s: Seq<int>)
    requires
        valid_completion(s),
        fits(grid_of(digits), s),
    ensures
        forall|p: int|
            0 <= p < 81 && solved_up_to(digits, ceiling)[p] != 0 ==> #[trigger] solved_up_to(
                digits,
                ceiling,
            )[p] == s[p],
        is_full(solved_up_to(digits, ceiling)) ==> solved_up_to(digits, ceiling) == s && !has_conflict(
            solved_up_to(digits, ceiling),
        ),
{
    let g = grid_of(digits);
    let order = eligible(ceiling);
    lemma_grid_of(digits);
    lemma_settle(g, order);
    solving_keeps_completions(g, order, s);
    let h = settle(g, order);
    let out = solved_up_to(digits, ceiling);
    assert forall|p: int| 0 <= p < 81 && out[p] != 0 implies #[trigger] out[p] == s[p] by {
        assert(h[p].wf());
        assert(h[p].cands.contains(s[p]));
    }
    if is_full(out) {
        assert(out =~= s);
        if has_conflict(s) {
            let (p, q) = choose|p: int, q: int|
                0 <= p < 81 && 0 <= q < 81 && p != q && related(p, q) && #[trigger] s[p] != 0 && s[p]
                    == #[trigger] s[q];
            assert(false);
        }
    }
}

/// The strategies that solving with a tier uses are those of the tiers up to
/// it, all of them.
pub proof fn lemma_eligible(ceiling: Difficulty)
    ensures
        forall|k: int|
            0 <= k < eligible(ceiling).len() ==> (#[trigger] eligible(ceiling)[k]).tier().rank()
                <= ceiling.rank(),
        forall|strategy: Strategy|
            strategy.tier().rank() <= ceiling.rank() ==> exists|k: int|
                0 <= k < eligible(ceiling).len() && #[trigger] eligible(ceiling)[k] == strategy,
{
    reveal_with_fuel(within, 8);
    let all = implemented();
    let easy = seq![all[0], all[1]];
    let medium = seq![all[0], all[1], all[2], all[3], all[4]];
    match ceiling {
        Difficulty::Easy => {
            assert(eligible(ceiling) =~= easy);
        },
        Difficulty::Medium => {
            assert(eligible(ceiling) =~= medium);
        },
        Difficulty::Hard => {
            assert(eligible(ceiling) =~= all);
        },
    }
    assert forall|strategy: Strategy| strategy.tier().rank() <= ceiling.rank() implies exists|
        k: int,
    | 0 <= k < eligible(ceiling).len() && #[trigger] eligible(ceiling)[k] == strategy by {
        let k = match strategy {
            Strategy::ExistingSingles => 0int,
            Strategy::HiddenSingles => 1int,
            Strategy::Pointing => 2int,
            Strategy::NakedPairs => 3int,
            Strategy::HiddenGroups => 4int,
            Strategy::XWing => 5int,
            Strategy::YWing => 6int,
        };
        assert(eligible(ceiling)[k] == strategy);
    }
}

/// The solving loop keeps a grid above every grid below it that admits a
/// valid completion and that none of its strategies changes.
pub proof fn solving_stays_above(g: Grid, t: Grid, ceiling: Difficulty, s: Seq<int>)
    requires
        grid_wf(g),
        grid_wf(t),
        above(g, t),
        settled(t, ceiling),
        valid_completion(s),
        fits(t, s),
    ensures
        above(settle(g, eligible(ceiling)), t),
    decreases weight(g),
{
    let order = eligible(ceiling);
    let h = first_change(g, order, 0);
    lemma_first_change(g, order, 0);
    lemma_weight_drops(g, h);
    if h != g {
        let k = credited(g, order, 0);
        lemma_eligible(ceiling);
        assert(order[k].tier().rank() <= ceiling.rank());
        assert forall|strategy: Strategy|
            strategy.tier().rank() <= order[k].tier().rank() implies #[trigger] strategy.apply(t)
            == t by {}
        order[k].lemma_above(g, t, s);
        solving_stays_above(h, t, ceiling, s);
    }
}

/// Solving is idempotent on every puzzle that has a valid completion:
/// solving what solving returned returns the same once more.
pub proof fn solving_twice_changes_nothing(digits: Seq<int>, ceiling: Difficulty, s: Seq<int>)
    requires
        valid_completion(s),
        fits(grid_of(digits), s),
    ensures
        solved_up_to(solved_up_to(digits, ceiling), ceiling) == solved_up_to(digits, ceiling),
{
    let order = eligible(ceiling);
    let g0 = grid_of(digits);
    lemma_grid_of(digits);
    lemma_settle(g0, order);
    let t = settle(g0, order);
    solving_keeps_completions(g0, order, s);
    let solved = solved_up_to(digits, ceiling);
    let g1 = grid_of(solved);
    lemma_grid_of(solved);
    lemma_eligible(ceiling);
    assert forall|strategy: Strategy|
        strategy.tier().rank() <= ceiling.rank() implies #[trigger] strategy.apply(t) == t by {
        let k = choose|k: int| 0 <= k < order.len() && #[trigger] order[k] == strategy;
        assert(order[k].apply(t) == t);
    }
    assert forall|p: int| 0 <= p < 81 implies (#[trigger] g1[p]).narrows_to(t[p]) && g1[p].value
        == t[p].value by {
        assert(t[p].wf());
    }
    assert(values_of(g1) =~= values_of(t));
    solving_stays_above(g1, t, ceiling, s);
    lemma_settle(g1, order);
    assert(values_of(settle(g1, order)) =~= values_of(t));
}

/// Writing a puzzle as text always gives 81 characters, and reading that
/// text gives the puzzle back, provided that no cell of the puzzle holds a
/// value above 9.
pub proof fn text_round_trip(digits: Seq<int>)
    requires
        digits.len() == 81,
        forall|p: int| 0 <= p < 81 ==> 0 <= #[trigger] digits[p],
        all_digits_or_empty(digits),
    ensures
        encode(digits).len() == 81,
        decode(encode(digits)) == digits,
{
    assert forall|p: int| 0 <= p < 81 implies decode(encode(digits))[p] == digits[p] by {
        assert(0 <= digits[p] <= 9);
    }
    assert(decode(encode(digits)) =~= digits);
}

/// The digit at `row` and `col` of the grid whose first row counts from 1
/// to 9 and whose other rows are the first, shifted.
pub open spec fn shifted(row: int, col: int) -> int {
    (3 * (row % 3) + row / 3 + col) % 9 + 1
}

/// The grid of shifted rows.
pub open spec fn shifted_rows() -> Seq<int> {
    Seq::new(81, |p: int| shifted(p / 9, p % 9))
}

/// The number from 0 to 8 that differs from `n` by a multiple of 9, for
/// `n` from -17 to 8.
pub open spec fn wrapped(n: int) -> int {
    if n >= 0 {
        n
    } else if n >= -9 {
        n + 9
    } else {
        n + 18
    }
}

/// Two cells of one row hold different digits.
proof fn lemma_shifted_row(row: int, c1: int, c2: int)
    requires
        0 <= row < 9,
        0 <= c1 < 9,
        0 <= c2 < 9,
        c1 != c2,
    ensures
        shifted(row, c1) != shifted(row, c2),
{
    let f = 3 * (row % 3) + row / 3;
    assert(0 <= f < 9);
    assert((f + c1) % 9 != (f + c2) % 9);
}

/// Two cells of one column hold different digits.
proof fn lemma_shifted_col(r1: int, r2: int, col: int)
    requires
        0 <= r1 < 9,
        0 <= r2 < 9,
        0 <= col < 9,
        r1 != r2,
    ensures
        shifted(r1, col) != shifted(r2, col),
{
    let f1 = 3 * (r1 % 3) + r1 / 3;
    let f2 = 3 * (r2 % 3) + r2 / 3;
    assert(0 <= f1 < 9 && 0 <= f2 < 9);
    assert(f1 != f2);
    assert((f1 + col) % 9 != (f2 + col) % 9);
}

/// Two cells of one box hold different digits.
proof fn lemma_shifted_box(band: int, stack: int, x1: int, y1: int, x2: int, y2: int)
    requires
        0 <= band < 3,
        0 <= stack < 3,
        0 <= x1 < 3,
        0 <= y1 < 3,
        0 <= x2 < 3,
        0 <= y2 < 3,
        x1 != x2 || y1 != y2,
    ensures
        shifted(3 * band + x1, 3 * stack + y1) != shifted(3 * band + x2, 3 * stack + y2),
{
    let k = band + 3 * stack;
    let u1 = 3 * x1 + y1;
    let u2 = 3 * x2 + y2;
    assert((3 * band + x1) % 3 == x1 && (3 * band + x1) / 3 == band);
    assert((3 * band + x2) % 3 == x2 && (3 * band + x2) / 3 == band);
    assert(shifted(3 * band + x1, 3 * stack + y1) == (u1 + k) % 9 + 1);
    assert(shifted(3 * band + x2, 3 * stack + y2) == (u2 + k) % 9 + 1);
    assert(u1 != u2 && 0 <= u1 < 9 && 0 <= u2 < 9 && 0 <= k < 9);
    assert((u1 + k) % 9 != (u2 + k) % 9);
}

/// Related cells of the grid of shifted rows hold different digits.
proof fn lemma_shifted_distinct(p: int, q: int)
    requires
        0 <= p < 81,
        0 <= q < 81,
        p != q,
        related(p, q),
    ensures
        shifted_rows()[p] != shifted_rows()[q],
{
    let (r1, c1, r2, c2) = (p / 9, p % 9, q / 9, q % 9);
    if r1 == r2 {
        lemma_shifted_row(r1, c1, c2);
    } else if c1 == c2 {
        lemma_shifted_col(r1, r2, c1);
    } else {
        assert(r1 / 3 == r2 / 3 && c1 / 3 == c2 / 3);
        lemma_shifted_box(r1 / 3, c1 / 3, r1 % 3, c1 % 3, r2 % 3, c2 % 3);
    }
}

/// Every row of the grid of shifted rows holds every digit.
proof fn lemma_shifted_row_has(i: int, d: int)
    requires
        0 <= i < 9,
        1 <= d <= 9,
    ensures
        row_has(shifted_rows(), i, d),
{
    let f = 3 * (i % 3) + i / 3;
    let j = wrapped(d - 1 - f);
    let p = row_cell(i, j);
    assert(0 <= j < 9);
    assert(p / 9 == i && p % 9 == j);
    assert(f + j == d - 1 || f + j == d - 1 + 9);
    assert((f + j) % 9 == d - 1);
    assert(shifted_rows()[p] == d);
}

/// Every column of the grid of shifted rows holds every digit.
proof fn lemma_shifted_col_has(i: int, d: int)
    requires
        0 <= i < 9,
        1 <= d <= 9,
    ensures
        col_has(shifted_rows(), i, d),
{
    let t = wrapped(d - 1 - i);
    let j = 3 * (t % 3) + t / 3;
    let p = col_cell(i, j);
    assert(0 <= t < 9 && 0 <= j < 9);
    assert(p / 9 == j && p % 9 == i);
    assert(j % 3 == t / 3 && j / 3 == t % 3);
    assert(t + i == d - 1 || t + i == d - 1 + 9);
    assert((t + i) % 9 == d - 1);
    assert(shifted_rows()[p] == d);
}

/// Every box of the grid of shifted rows holds every digit.
proof fn lemma_shifted_box_has(i: int, d: int)
    requires
        0 <= i < 9,
        1 <= d <= 9,
    ensures
        box_has(shifted_rows(), i, d),
{
    let k = i / 3 + 3 * (i % 3);
    let j = wrapped(d - 1 - k);
    let p = box_cell(i, j);
    let r = 3 * (i / 3) + j / 3;
    let c = 3 * (i % 3) + j % 3;
    assert(0 <= k < 9 && 0 <= j < 9);
    assert(p == 9 * r + c);
    assert(0 <= r < 9 && 0 <= c < 9);
    assert(p / 9 == r && p % 9 == c);
    assert(r % 3 == j / 3 && r / 3 == i / 3);
    assert(3 * (r % 3) + r / 3 + c == j + k);
    assert(j + k == d - 1 || j + k == d - 1 + 9);
    assert((j + k) % 9 == d - 1);
    assert(shifted_rows()[p] == d);
}

/// Valid completions exist: the grid of shifted rows is one, and the empty
/// puzzle admits it.
pub proof fn a_valid_completion_exists()
    ensures
        valid_completion(shifted_rows()),
        fits(grid_of(Seq::new(81, |p: int| 0int)), shifted_rows()),
{
    let s = shifted_rows();
    assert forall|p: int, q: int|
        0 <= p < 81 && 0 <= q < 81 && p != q && related(p, q) implies #[trigger] s[p]
        != #[trigger] s[q] by {
        lemma_shifted_distinct(p, q);
    }
    assert forall|i: int, d: int| 0 <= i < 9 && 1 <= d <= 9 implies #[trigger] row_has(s, i, d) by {
        lemma_shifted_row_has(i, d);
    }
    assert forall|i: int, d: int| 0 <= i < 9 && 1 <= d <= 9 implies #[trigger] col_has(s, i, d) by {
        lemma_shifted_col_has(i, d);
    }
    assert forall|i: int, d: int| 0 <= i < 9 && 1 <= d <= 9 implies #[trigger] box_has(s, i, d) by {
        lemma_shifted_box_has(i, d);
    }
    let g = grid_of(Seq::new(81, |p: int| 0int));
    assert forall|p: int| 0 <= p < 81 implies (#[trigger] g[p]).cands.contains(s[p]) by {}
}

} // verus!
