//! Elimination by X-wings: where a digit has the same two candidate columns
//! in two rows, it takes one of these columns in each of the rows, so it
//! leaves both columns in every other row.

use vstd::prelude::*;
use crate::model::{
    above, absent, at, col_of, fits, grid_wf, lemma_at_geometry, lemma_listing, lemma_missing_same,
    lemma_refines_chain, lemma_refines_refl, lemma_refines_trans, lemma_strike, lemma_strike_above,
    lemma_strike_fits, lemma_strike_quiet, members, missing_in, placed, refines, related, row_cell,
    row_cells, row_has, row_of, strike, valid_completion, Grid,
};
use crate::solving::strategies::eliminate_possibilities_using_existing_singles::EliminatePossibilitiesUsingExistingSingles;
use crate::solving::strategies::set_hidden_singles::{is_single, SetHiddenSingles};
use crate::traits::cell::as_ints;
use crate::traits::difficulty::Difficulty;
use crate::traits::sudoku_template::{SudokuTemplate, UnitKind};

verus! {

/// The columns below `n` in which `d` is a candidate in `row`, in ascending
/// order.
pub open spec fn candidate_cols(g: Grid, row: int, d: int, n: int) -> Seq<int>
    decreases n,
{
    if n <= 0 {
        Seq::empty()
    } else if g[at(row, n - 1)].cands.contains(d) {
        candidate_cols(g, row, d, n - 1).push(n - 1)
    } else {
        candidate_cols(g, row, d, n - 1)
    }
}

/// The cells of the two columns `cols` outside of the rows `r1` and `r2`.
pub open spec fn wing_region(r1: int, r2: int, cols: Seq<int>) -> Set<int> {
    Set::new(
        |q: int|
            row_of(q) != r1 && row_of(q) != r2 && (col_of(q) == cols[0] || col_of(q) == cols[1]),
    )
}

/// The grid after the first `n` rows were tried as second row to `r1`, in
/// which `d` has the two candidate columns `cols`: each later row with the
/// same candidate columns strikes `d` from these columns in all other rows.
pub open spec fn wing_seconds(h: Grid, r1: int, d: int, cols: Seq<int>, n: int) -> Grid
    decreases n,
{
    if n <= 0 {
        h
    } else {
        let h1 = wing_seconds(h, r1, d, cols, n - 1);
        if n - 1 > r1 && candidate_cols(h1, n - 1, d, 9) == cols {
            strike(h1, d, wing_region(r1, n - 1, cols))
        } else {
            h1
        }
    }
}

/// The grid after `d` was tried in the first row `r1`.
pub open spec fn wing_value(h: Grid, r1: int, d: int) -> Grid {
    let cols = candidate_cols(h, r1, d, 9);
    if cols.len() == 2 {
        wing_seconds(h, r1, d, cols, 9)
    } else {
        h
    }
}

/// The grid after the first `n` digits of `values` were tried in the first
/// row `r1`.
pub open spec fn wing_values(h: Grid, r1: int, values: Seq<int>, n: int) -> Grid
    decreases n,
{
    if n <= 0 {
        h
    } else {
        wing_value(wing_values(h, r1, values, n - 1), r1, values[n - 1])
    }
}

/// The grid after the first `n` rows were tried as first row, each with the
/// digits that were missing in it when its turn came.
pub open spec fn wing_rows(g: Grid, n: int) -> Grid
    decreases n,
{
    if n <= 0 {
        g
    } else {
        let h = wing_rows(g, n - 1);
        let values = missing_in(h, row_cells(n - 1));
        wing_values(h, n - 1, values, values.len() as int)
    }
}

/// `d` is a candidate in `row` in the two different columns `cols` and in
/// no other.
pub open spec fn has_wing(g: Grid, row: int, d: int, cols: Seq<int>) -> bool {
    &&& cols.len() == 2
    &&& 0 <= cols[0] < cols[1] < 9
    &&& forall|c: int|
        0 <= c < 9 ==> (g[#[trigger] at(row, c)].cands.contains(d) <==> (c == cols[0] || c
            == cols[1]))
}

/// Strategy that looks for X-wings along rows.
pub struct EliminatePossibilitiesUsingXWing;

impl EliminatePossibilitiesUsingXWing {
    /// What one application does.
    pub open spec fn pass(g: Grid) -> Grid {
        wing_rows(g, 9)
    }

    /// The listed columns are ascending, and they are exactly the candidate
    /// columns.
    proof fn lemma_candidate_cols(g: Grid, row: int, d: int, n: int)
        requires
            0 <= n <= 9,
        ensures
            forall|i: int|
                0 <= i < candidate_cols(g, row, d, n).len() ==> 0 <= #[trigger] candidate_cols(
                    g,
                    row,
                    d,
                    n,
                )[i] < n,
            forall|i: int, j: int|
                0 <= i < j < candidate_cols(g, row, d, n).len() ==> candidate_cols(g, row, d, n)[i]
                    < candidate_cols(g, row, d, n)[j],
            forall|c: int|
                members(candidate_cols(g, row, d, n)).contains(c) <==> (0 <= c < n && g[at(
                    row,
                    c,
                )].cands.contains(d)),
        decreases n,
    {
        if n > 0 {
            Self::lemma_candidate_cols(g, row, d, n - 1);
            let prev = candidate_cols(g, row, d, n - 1);
            let cur = candidate_cols(g, row, d, n);
            assert forall|c: int|
                members(cur).contains(c) <==> (0 <= c < n && g[at(row, c)].cands.contains(d)) by {
                if members(cur).contains(c) {
                    let i = choose|i: int| 0 <= i < cur.len() && cur[i] == c;
                    if i < prev.len() {
                        assert(prev[i] == c);
                        assert(members(prev).contains(c));
                    }
                }
                if 0 <= c < n && g[at(row, c)].cands.contains(d) {
                    if c == n - 1 {
                        assert(cur[prev.len() as int] == c);
                    } else {
                        assert(members(prev).contains(c));
                        let i = choose|i: int| 0 <= i < prev.len() && prev[i] == c;
                        assert(cur[i] == c);
                    }
                }
            }
        }
    }

    /// Two listed candidate columns make a wing.
    proof fn lemma_has_wing(g: Grid, row: int, d: int)
        requires
            candidate_cols(g, row, d, 9).len() == 2,
        ensures
            has_wing(g, row, d, candidate_cols(g, row, d, 9)),
    {
        Self::lemma_candidate_cols(g, row, d, 9);
        let cols = candidate_cols(g, row, d, 9);
        assert forall|c: int| 0 <= c < 9 implies (g[#[trigger] at(row, c)].cands.contains(d) <==> (c
            == cols[0] || c == cols[1])) by {
            if g[at(row, c)].cands.contains(d) {
                assert(members(cols).contains(c));
                let i = choose|i: int| 0 <= i < cols.len() && cols[i] == c;
                assert(i == 0 || i == 1);
            }
            if c == cols[0] || c == cols[1] {
                assert(members(cols).contains(c));
            }
        }
    }

    /// Trying second rows to a first row is a chain of deductions, and it keeps
    /// every completion that was possible.
    proof fn lemma_seconds(h: Grid, r1: int, d: int, cols: Seq<int>, n: int, s: Seq<int>)
        requires
            grid_wf(h),
            0 <= r1 < 9,
            1 <= d <= 9,
            has_wing(h, r1, d, cols),
            0 <= n <= 9,
        ensures
            grid_wf(wing_seconds(h, r1, d, cols, n)),
            refines(h, wing_seconds(h, r1, d, cols, n)),
            has_wing(wing_seconds(h, r1, d, cols, n), r1, d, cols),
            valid_completion(s) && fits(h, s) ==> fits(wing_seconds(h, r1, d, cols, n), s),
        decreases n,
    {
        if n > 0 {
            Self::lemma_seconds(h, r1, d, cols, n - 1, s);
            let h1 = wing_seconds(h, r1, d, cols, n - 1);
            let r2 = n - 1;
            if r2 > r1 && candidate_cols(h1, r2, d, 9) == cols {
                let region = wing_region(r1, r2, cols);
                let h2 = strike(h1, d, region);
                lemma_strike(h1, d, region);
                lemma_refines_trans(h, h1, h2);
                assert forall|c: int| 0 <= c < 9 implies (h2[#[trigger] at(r1, c)].cands.contains(d)
                    <==> (c == cols[0] || c == cols[1])) by {
                    lemma_at_geometry(r1, c);
                    assert(!region.contains(at(r1, c)));
                    assert(h1[at(r1, c)].cands.contains(d) <==> (c == cols[0] || c == cols[1]));
                }
                if valid_completion(s) && fits(h, s) {
                    Self::lemma_has_wing(h1, r2, d);
                    assert(row_has(s, r1, d));
                    let a = choose|j: int| 0 <= j < 9 && s[#[trigger] row_cell(r1, j)] == d;
                    assert(row_has(s, r2, d));
                    let b = choose|j: int| 0 <= j < 9 && s[#[trigger] row_cell(r2, j)] == d;
                    let pa = at(r1, a);
                    let pb = at(r2, b);
                    lemma_at_geometry(r1, a);
                    lemma_at_geometry(r2, b);
                    assert(h1[pa].cands.contains(s[pa]));
                    assert(h1[pb].cands.contains(s[pb]));
                    assert(a == cols[0] || a == cols[1]);
                    assert(b == cols[0] || b == cols[1]);
                    if a == b {
                        assert(related(pa, pb));
                        assert(false);
                    }
                    assert forall|q: int| 0 <= q < 81 && region.contains(q) implies s[q] != d by {
                        if col_of(q) == a {
                            assert(related(pa, q));
                        } else {
                            assert(col_of(q) == b);
                            assert(related(pb, q));
                        }
                    }
                    lemma_strike_fits(h1, d, region, s);
                }
            }
        } else {
            lemma_refines_refl(h);
        }
    }

    /// Trying one digit in a first row is a chain of deductions, and it keeps
    /// every completion that was possible.
    proof fn lemma_value(h: Grid, r1: int, d: int, s: Seq<int>)
        requires
            grid_wf(h),
            0 <= r1 < 9,
            1 <= d <= 9,
        ensures
            grid_wf(wing_value(h, r1, d)),
            refines(h, wing_value(h, r1, d)),
            valid_completion(s) && fits(h, s) ==> fits(wing_value(h, r1, d), s),
    {
        let cols = candidate_cols(h, r1, d, 9);
        if cols.len() == 2 {
            Self::lemma_has_wing(h, r1, d);
            Self::lemma_seconds(h, r1, d, cols, 9, s);
        } else {
            lemma_refines_refl(h);
        }
    }

    /// Trying a list of digits in a first row is a chain of deductions, and it
    /// keeps every completion that was possible.
    proof fn lemma_values(h: Grid, r1: int, values: Seq<int>, n: int, s: Seq<int>)
        requires
            grid_wf(h),
            0 <= r1 < 9,
            0 <= n <= values.len(),
            forall|k: int| 0 <= k < values.len() ==> 1 <= #[trigger] values[k] <= 9,
        ensures
            grid_wf(wing_values(h, r1, values, n)),
            refines(h, wing_values(h, r1, values, n)),
            valid_completion(s) && fits(h, s) ==> fits(wing_values(h, r1, values, n), s),
        decreases n,
    {
        if n > 0 {
            Self::lemma_values(h, r1, values, n - 1, s);
            let h1 = wing_values(h, r1, values, n - 1);
            Self::lemma_value(h1, r1, values[n - 1], s);
            lemma_refines_trans(h, h1, wing_values(h, r1, values, n));
        } else {
            lemma_refines_refl(h);
        }
    }

    /// Trying the first rows as first row is a chain of deductions, and it
    /// keeps every completion that was possible.
    proof fn lemma_rows(g: Grid, n: int, s: Seq<int>)
        requires
            grid_wf(g),
            0 <= n <= 9,
        ensures
            grid_wf(wing_rows(g, n)),
            refines(g, wing_rows(g, n)),
            valid_completion(s) && fits(g, s) ==> fits(wing_rows(g, n), s),
        decreases n,
    {
        if n > 0 {
            Self::lemma_rows(g, n - 1, s);
            let h = wing_rows(g, n - 1);
            let values = missing_in(h, row_cells(n - 1));
            lemma_listing(absent(placed(h, row_cells(n - 1))));
            Self::lemma_values(h, n - 1, values, values.len() as int, s);
            lemma_refines_trans(g, h, wing_rows(g, n));
        } else {
            lemma_refines_refl(g);
        }
    }

    /// One application is a chain of deductions, and it keeps every
    /// completion that was possible.
    pub proof fn lemma_pass(g: Grid, s: Seq<int>)
        requires
            grid_wf(g),
        ensures
            grid_wf(Self::pass(g)),
            refines(g, Self::pass(g)),
            valid_completion(s) && fits(g, s) ==> fits(Self::pass(g), s),
    {
        Self::lemma_rows(g, 9, s);
    }

    /// A wing lists its two columns as candidate columns.
    proof fn lemma_wing_cols(g: Grid, row: int, d: int, cols: Seq<int>)
        requires
            has_wing(g, row, d, cols),
        ensures
            candidate_cols(g, row, d, 9) == cols,
    {
        Self::lemma_candidate_cols(g, row, d, 9);
        let listed = candidate_cols(g, row, d, 9);
        assert(g[at(row, cols[0])].cands.contains(d));
        assert(g[at(row, cols[1])].cands.contains(d));
        assert(members(listed).contains(cols[0]));
        assert(members(listed).contains(cols[1]));
        let i0 = choose|i: int| 0 <= i < listed.len() && listed[i] == cols[0];
        let i1 = choose|i: int| 0 <= i < listed.len() && listed[i] == cols[1];
        assert forall|i: int| 0 <= i < listed.len() implies listed[i] == cols[0] || listed[i]
            == cols[1] by {
            assert(members(listed).contains(listed[i]));
            assert(g[at(row, listed[i])].cands.contains(d));
        }
        if listed.len() > 2 {
            assert(listed[0] < listed[1] < listed[2]);
            assert(false);
        }
        assert(i0 < i1) by {
            if i1 < i0 {
                assert(listed[i1] < listed[i0]);
            }
        }
        assert(listed =~= cols);
    }

    /// Trying second rows is a chain of deductions, whatever the columns
    /// are.
    proof fn lemma_seconds_refine(h: Grid, r1: int, d: int, cols: Seq<int>, n: int)
        requires
            grid_wf(h),
            0 <= n <= 9,
        ensures
            grid_wf(wing_seconds(h, r1, d, cols, n)),
            refines(h, wing_seconds(h, r1, d, cols, n)),
        decreases n,
    {
        if n > 0 {
            Self::lemma_seconds_refine(h, r1, d, cols, n - 1);
            let h1 = wing_seconds(h, r1, d, cols, n - 1);
            if n - 1 > r1 && candidate_cols(h1, n - 1, d, 9) == cols {
                lemma_strike(h1, d, wing_region(r1, n - 1, cols));
                lemma_refines_trans(h, h1, strike(h1, d, wing_region(r1, n - 1, cols)));
            }
        } else {
            lemma_refines_refl(h);
        }
    }

    /// A grid that trying second rows to a first row leaves as it is was left
    /// as it is by every step of it.
    proof fn lemma_seconds_quiet(t: Grid, r1: int, d: int, cols: Seq<int>, n: int, k: int)
        requires
            grid_wf(t),
            0 <= k <= n <= 9,
            wing_seconds(t, r1, d, cols, n) == t,
        ensures
            wing_seconds(t, r1, d, cols, k) == t,
        decreases n - k,
    {
        if k < n {
            Self::lemma_seconds_refine(t, r1, d, cols, n - 1);
            let h = wing_seconds(t, r1, d, cols, n - 1);
            if n - 1 > r1 && candidate_cols(h, n - 1, d, 9) == cols {
                lemma_strike(h, d, wing_region(r1, n - 1, cols));
            } else {
                lemma_refines_refl(h);
            }
            lemma_refines_chain(t, h, wing_seconds(t, r1, d, cols, n));
            Self::lemma_seconds_quiet(t, r1, d, cols, n - 1, k);
        }
    }

    /// A grid that trying a list of digits in a first row leaves as it is was
    /// left as it is by every step of it.
    proof fn lemma_values_quiet(t: Grid, r1: int, values: Seq<int>, n: int, k: int)
        requires
            grid_wf(t),
            0 <= r1 < 9,
            0 <= k <= n <= values.len(),
            forall|m: int| 0 <= m < values.len() ==> 1 <= #[trigger] values[m] <= 9,
            wing_values(t, r1, values, n) == t,
        ensures
            wing_values(t, r1, values, k) == t,
        decreases n - k,
    {
        if k < n {
            Self::lemma_values(t, r1, values, n - 1, Seq::empty());
            let h = wing_values(t, r1, values, n - 1);
            Self::lemma_value(h, r1, values[n - 1], Seq::empty());
            lemma_refines_chain(t, h, wing_values(t, r1, values, n));
            Self::lemma_values_quiet(t, r1, values, n - 1, k);
        }
    }

    /// A grid that trying the first rows as first row leaves as it is was left
    /// as it is by every step of it.
    proof fn lemma_rows_quiet(t: Grid, n: int, k: int)
        requires
            grid_wf(t),
            0 <= k <= n <= 9,
            wing_rows(t, n) == t,
        ensures
            wing_rows(t, k) == t,
        decreases n - k,
    {
        if k < n {
            Self::lemma_rows(t, n - 1, Seq::empty());
            let h = wing_rows(t, n - 1);
            let values = missing_in(h, row_cells(n - 1));
            lemma_listing(absent(placed(h, row_cells(n - 1))));
            Self::lemma_values(h, n - 1, values, values.len() as int, Seq::empty());
            lemma_refines_chain(t, h, wing_rows(t, n));
            Self::lemma_rows_quiet(t, n - 1, k);
        }
    }

    /// A digit with two candidate columns in a row of a grid has the same
    /// two in every grid below that admits a valid completion, no strategy
    /// of the easy tier changes, and does not hold the digit in that row.
    proof fn lemma_wing_below(
        g: Grid,
        t: Grid,
        row: int,
        d: int,
        cols: Seq<int>,
        other: int,
        s: Seq<int>,
    )
        requires
            grid_wf(g),
            grid_wf(t),
            above(g, t),
            0 <= row < 9,
            1 <= d <= 9,
            has_wing(g, row, d, cols),
            EliminatePossibilitiesUsingExistingSingles::pass(t) == t,
            SetHiddenSingles::pass(t) == t,
            valid_completion(s),
            fits(t, s),
            (forall|c: int| 0 <= c < 9 ==> t[#[trigger] at(row, c)].value != d) || (0 <= other < 9
                && other != row && has_wing(t, other, d, cols)),
        ensures
            has_wing(t, row, d, cols),
    {
        assert(row_has(s, row, d));
        let a = choose|j: int| 0 <= j < 9 && s[#[trigger] row_cell(row, j)] == d;
        let p = at(row, a);
        lemma_at_geometry(row, a);
        assert(t[p].cands.contains(s[p]));
        assert(g[p].narrows_to(t[p]));
        assert forall|c: int| 0 <= c < 9 implies (t[#[trigger] at(row, c)].cands.contains(d) <==> (c
            == cols[0] || c == cols[1])) by {
            lemma_at_geometry(row, c);
            let q = at(row, c);
            assert(g[q].narrows_to(t[q]));
            if (c == cols[0] || c == cols[1]) && !t[q].cands.contains(d) {
                // Then `d` has a single candidate cell in this row of `t`.
                assert(c != a);
                assert(a == cols[0] || a == cols[1]);
                if t[p].is_empty() {
                    UnitKind::Row.lemma_geometry();
                    assert forall|j: int|
                        0 <= j < 9 && UnitKind::Row.cell(UnitKind::Row.index_of(p), j)
                            != p implies !t[#[trigger] UnitKind::Row.cell(
                        UnitKind::Row.index_of(p),
                        j,
                    )].cands.contains(d) by {
                        let x = at(row, j);
                        assert(g[x].narrows_to(t[x]));
                        assert(j != a);
                    }
                    assert(is_single(t, false, p, d));
                    SetHiddenSingles::lemma_quiet(t, false, p, d);
                } else {
                    assert(t[p].value == d);
                    let up = at(other, a);
                    lemma_at_geometry(other, a);
                    assert(related(p, up));
                    EliminatePossibilitiesUsingExistingSingles::lemma_quiet(t, p, up);
                    assert(t[up].cands.contains(d));
                }
                assert(false);
            }
        }
    }

    /// Trying second rows to a first row keeps a grid above a grid that it
    /// leaves as it is and that admits a valid completion.
    proof fn lemma_seconds_above(
        g: Grid,
        t: Grid,
        r1: int,
        d: int,
        cols: Seq<int>,
        n: int,
        s: Seq<int>,
    )
        requires
            grid_wf(g),
            grid_wf(t),
            above(g, t),
            0 <= r1 < 9,
            1 <= d <= 9,
            0 <= n <= 9,
            has_wing(t, r1, d, cols),
            wing_seconds(t, r1, d, cols, 9) == t,
            EliminatePossibilitiesUsingExistingSingles::pass(t) == t,
            SetHiddenSingles::pass(t) == t,
            valid_completion(s),
            fits(t, s),
        ensures
            grid_wf(wing_seconds(g, r1, d, cols, n)),
            above(wing_seconds(g, r1, d, cols, n), t),
        decreases n,
    {
        if n > 0 {
            Self::lemma_seconds_above(g, t, r1, d, cols, n - 1, s);
            let h = wing_seconds(g, r1, d, cols, n - 1);
            let r2 = n - 1;
            if r2 > r1 && candidate_cols(h, r2, d, 9) == cols {
                Self::lemma_has_wing(h, r2, d);
                Self::lemma_wing_below(h, t, r2, d, cols, r1, s);
                Self::lemma_wing_cols(t, r2, d, cols);
                Self::lemma_seconds_quiet(t, r1, d, cols, 9, n);
                Self::lemma_seconds_quiet(t, r1, d, cols, 9, n - 1);
                lemma_strike_quiet(t, d, wing_region(r1, r2, cols));
                lemma_strike_above(h, t, d, wing_region(r1, r2, cols));
            }
        }
    }

    /// Trying one digit in a first row keeps a grid above a grid that it leaves
    /// as it is and that admits a valid completion.
    proof fn lemma_value_above(g: Grid, t: Grid, r1: int, d: int, s: Seq<int>)
        requires
            grid_wf(g),
            grid_wf(t),
            above(g, t),
            0 <= r1 < 9,
            1 <= d <= 9,
            forall|c: int| 0 <= c < 9 ==> t[#[trigger] at(r1, c)].value != d,
            wing_value(t, r1, d) == t,
            EliminatePossibilitiesUsingExistingSingles::pass(t) == t,
            SetHiddenSingles::pass(t) == t,
            valid_completion(s),
            fits(t, s),
        ensures
            grid_wf(wing_value(g, r1, d)),
            above(wing_value(g, r1, d), t),
    {
        let cols = candidate_cols(g, r1, d, 9);
        if cols.len() == 2 {
            Self::lemma_has_wing(g, r1, d);
            Self::lemma_wing_below(g, t, r1, d, cols, 0, s);
            Self::lemma_wing_cols(t, r1, d, cols);
            Self::lemma_seconds_above(g, t, r1, d, cols, 9, s);
        }
    }

    /// Trying a list of digits in a first row keeps a grid above a grid that it
    /// leaves as it is and that admits a valid completion.
    proof fn lemma_values_above(g: Grid, t: Grid, r1: int, values: Seq<int>, n: int, s: Seq<int>)
        requires
            grid_wf(g),
            grid_wf(t),
            above(g, t),
            0 <= r1 < 9,
            0 <= n <= values.len(),
            values == missing_in(t, row_cells(r1)),
            wing_values(t, r1, values, values.len() as int) == t,
            EliminatePossibilitiesUsingExistingSingles::pass(t) == t,
            SetHiddenSingles::pass(t) == t,
            valid_completion(s),
            fits(t, s),
        ensures
            grid_wf(wing_values(g, r1, values, n)),
            above(wing_values(g, r1, values, n), t),
        decreases n,
    {
        if n > 0 {
            Self::lemma_values_above(g, t, r1, values, n - 1, s);
            let h = wing_values(g, r1, values, n - 1);
            let d = values[n - 1];
            let missing = absent(placed(t, row_cells(r1)));
            lemma_listing(missing);
            assert(members(values).contains(d));
            assert forall|c: int| 0 <= c < 9 implies t[#[trigger] at(r1, c)].value != d by {
                if t[at(r1, c)].value == d {
                    assert(row_cells(r1)[c] == at(r1, c));
                    assert(placed(t, row_cells(r1)).contains(d));
                }
            }
            Self::lemma_values_quiet(t, r1, values, values.len() as int, n);
            Self::lemma_values_quiet(t, r1, values, values.len() as int, n - 1);
            Self::lemma_value_above(h, t, r1, d, s);
        }
    }

    /// Trying the first rows as first row keeps a grid above a grid that it
    /// leaves as it is and that admits a valid completion.
    proof fn lemma_rows_above(g: Grid, t: Grid, n: int, s: Seq<int>)
        requires
            grid_wf(g),
            grid_wf(t),
            above(g, t),
            0 <= n <= 9,
            wing_rows(t, 9) == t,
            EliminatePossibilitiesUsingExistingSingles::pass(t) == t,
            SetHiddenSingles::pass(t) == t,
            valid_completion(s),
            fits(t, s),
        ensures
            grid_wf(wing_rows(g, n)),
            above(wing_rows(g, n), t),
        decreases n,
    {
        if n > 0 {
            Self::lemma_rows_above(g, t, n - 1, s);
            let h = wing_rows(g, n - 1);
            UnitKind::Row.lemma_geometry();
            lemma_missing_same(h, t, row_cells(n - 1));
            let values = missing_in(t, row_cells(n - 1));
            Self::lemma_rows_quiet(t, 9, n);
            Self::lemma_rows_quiet(t, 9, n - 1);
            Self::lemma_values_above(h, t, n - 1, values, values.len() as int, s);
        }
    }

    /// One application keeps a grid above a grid that neither this strategy
    /// nor those of the easy tier change and that admits a valid completion.
    pub proof fn lemma_above(g: Grid, t: Grid, s: Seq<int>)
        requires
            grid_wf(g),
            grid_wf(t),
            above(g, t),
            Self::pass(t) == t,
            EliminatePossibilitiesUsingExistingSingles::pass(t) == t,
            SetHiddenSingles::pass(t) == t,
            valid_completion(s),
            fits(t, s),
        ensures
            above(Self::pass(g), t),
    {
        Self::lemma_rows_above(g, t, 9, s);
    }

    /// The columns in which `value` is a candidate in `row`, in ascending
    /// order.
    fn columns_of(sudoku: &SudokuTemplate, row: usize, value: usize) -> (columns: Vec<usize>)
        requires
            row < 9,
            1 <= value <= 9,
        ensures
            as_ints(columns@) == candidate_cols(sudoku@, row as int, value as int, 9),
    {
        let mut columns: Vec<usize> = Vec::new();
        assert(as_ints(columns@) =~= candidate_cols(sudoku@, row as int, value as int, 0));
        for col in 0..9usize
            invariant
                row < 9,
                1 <= value <= 9,
                as_ints(columns@) == candidate_cols(sudoku@, row as int, value as int, col as int),
        {
            if sudoku.cell_at(row, col).contains_possibility(value) {
                let ghost before = columns@;
                columns.push(col);
                assert(as_ints(columns@) =~= as_ints(before).push(col as int));
            }
        }
        columns
    }

    /// Tries every later row as second row to `first_row`, in which `value`
    /// has exactly the candidate columns `columns`.
    fn with_first_row(
        sudoku: &mut SudokuTemplate,
        first_row: usize,
        value: usize,
        columns: &Vec<usize>,
        made_changes: &mut bool,
        Ghost(start): Ghost<Grid>,
    )
        requires
            old(sudoku).wf(),
            first_row < 9,
            1 <= value <= 9,
            columns.len() == 2,
            columns[0] < 9,
            columns[1] < 9,
            refines(start, old(sudoku)@),
            *old(made_changes) == (old(sudoku)@ != start),
        ensures
            final(sudoku)@ == wing_seconds(
                old(sudoku)@,
                first_row as int,
                value as int,
                as_ints(columns@),
                9,
            ),
            final(sudoku).wf(),
            refines(start, final(sudoku)@),
            *final(made_changes) == (final(sudoku)@ != start),
    {
        let ghost h0 = sudoku@;
        let ghost cols = as_ints(columns@);
        let first_column = columns[0];
        let second_column = columns[1];
        for second_row in 0..9usize
            invariant
                first_row < 9,
                1 <= value <= 9,
                columns.len() == 2,
                first_column == columns[0],
                second_column == columns[1],
                first_column < 9,
                second_column < 9,
                cols == as_ints(columns@),
                sudoku.wf(),
                sudoku@ == wing_seconds(h0, first_row as int, value as int, cols, second_row as int),
                refines(start, sudoku@),
                *made_changes == (sudoku@ != start),
        {
            if second_row > first_row {
                let columns_in_second_row = Self::columns_of(sudoku, second_row, value);
                let same = columns_in_second_row.len() == 2 && columns_in_second_row[0]
                    == first_column && columns_in_second_row[1] == second_column;
                proof {
                    let other = as_ints(columns_in_second_row@);
                    if same {
                        assert(other =~= cols);
                    } else if other.len() == 2 {
                        assert(other[0] != cols[0] || other[1] != cols[1]);
                    }
                }
                if same {
                    let ghost h = sudoku@;
                    for other_row in 0..9usize
                        invariant
                            first_row < 9,
                            second_row < 9,
                            first_column < 9,
                            second_column < 9,
                            cols.len() == 2,
                            cols[0] == first_column,
                            cols[1] == second_column,
                            sudoku.wf(),
                            refines(start, sudoku@),
                            *made_changes == (sudoku@ != start),
                            forall|q: int|
                                0 <= q < 81 ==> #[trigger] sudoku@[q] == if wing_region(
                                    first_row as int,
                                    second_row as int,
                                    cols,
                                ).contains(q) && row_of(q) < other_row {
                                    h[q].remove(value as int)
                                } else {
                                    h[q]
                                },
                    {
                        if other_row != first_row && other_row != second_row {
                            proof {
                                lemma_at_geometry(other_row as int, first_column as int);
                                lemma_at_geometry(other_row as int, second_column as int);
                            }
                            sudoku.strike_at(
                                other_row,
                                first_column,
                                value,
                                made_changes,
                                Ghost(start),
                            );
                            sudoku.strike_at(
                                other_row,
                                second_column,
                                value,
                                made_changes,
                                Ghost(start),
                            );
                        }
                    }
                    assert(sudoku@ =~= strike(
                        h,
                        value as int,
                        wing_region(first_row as int, second_row as int, cols),
                    ));
                }
            }
        }
    }

    /// Finds two rows where a value's candidates occupy the same two
    /// columns, and removes the value from these columns in all other rows.
    pub fn in_rows(sudoku: &mut SudokuTemplate) -> (made_changes: bool)
        requires
            old(sudoku).wf(),
        ensures
            final(sudoku)@ == wing_rows(old(sudoku)@, 9),
            made_changes == (final(sudoku)@ != old(sudoku)@),
            final(sudoku).wf(),
            refines(old(sudoku)@, final(sudoku)@),
    {
        let mut made_changes = false;
        let ghost start = sudoku@;
        proof {
            lemma_refines_refl(start);
        }
        for first_row in 0..9usize
            invariant
                sudoku.wf(),
                sudoku@ == wing_rows(start, first_row as int),
                refines(start, sudoku@),
                made_changes == (sudoku@ != start),
        {
            let missing_values = sudoku.get_missing_values_in_row(first_row);
            let ghost h0 = sudoku@;
            let ghost values = as_ints(missing_values@);
            proof {
                lemma_listing(absent(placed(h0, row_cells(first_row as int))));
            }
            for n in 0..missing_values.len()
                invariant
                    first_row < 9,
                    values == as_ints(missing_values@),
                    forall|k: int| 0 <= k < values.len() ==> 1 <= #[trigger] values[k] <= 9,
                    sudoku.wf(),
                    sudoku@ == wing_values(h0, first_row as int, values, n as int),
                    refines(start, sudoku@),
                    made_changes == (sudoku@ != start),
            {
                let value = missing_values[n];
                assert(value == values[n as int]);
                let columns = Self::columns_of(sudoku, first_row, value);
                if columns.len() == 2 {
                    proof {
                        Self::lemma_candidate_cols(sudoku@, first_row as int, value as int, 9);
                        let cols = as_ints(columns@);
                        assert(cols[0] == columns[0] && cols[1] == columns[1]);
                    }
                    Self::with_first_row(
                        sudoku,
                        first_row,
                        value,
                        &columns,
                        &mut made_changes,
                        Ghost(start),
                    );
                }
            }
        }
        made_changes
    }

    /// Applies the strategy once and says whether the grid changed.
    pub fn solve(&self, sudoku: &mut SudokuTemplate) -> (changed: bool)
        requires
            old(sudoku).wf(),
        ensures
            final(sudoku)@ == Self::pass(old(sudoku)@),
            changed == (final(sudoku)@ != old(sudoku)@),
            final(sudoku).wf(),
            refines(old(sudoku)@, final(sudoku)@),
    {
        Self::in_rows(sudoku)
    }

    /// The tier of this strategy.
    pub fn difficulty(&self) -> (tier: Difficulty)
        ensures
            tier == Difficulty::Hard,
    {
        Difficulty::Hard
    }
}

} // verus!
