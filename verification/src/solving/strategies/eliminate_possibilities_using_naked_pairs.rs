//! Elimination by naked pairs: two undecided cells of a row or column that
//! admit the same two digits and nothing else take both digits, so no other
//! cell of that row or column can hold either.

use vstd::prelude::*;
use crate::model::{
    above, at, col_cells, fits, grid_wf, lemma_missing_same, lemma_refines_chain,
    lemma_refines_refl, lemma_refines_trans, lemma_strike, lemma_strike_above, lemma_strike_fits,
    lemma_strike_quiet, missing_in, refines, related, row_cells, strike, valid_completion,
    values_of, Grid,
};
use crate::traits::cell::as_ints;
use crate::traits::difficulty::Difficulty;
use crate::traits::sudoku_template::{SudokuTemplate, UnitKind};

verus! {

/// The cell at `q` is undecided and admits no digit but `n1` and `n2`.
pub open spec fn is_twin(g: Grid, q: int, n1: int, n2: int) -> bool {
    &&& g[q].is_empty()
    &&& forall|d: int| 1 <= d <= 9 && g[q].cands.contains(d) ==> d == n1 || d == n2
}

/// How many of the first `n` cells of the `i`-th unit of a kind are twins
/// for `n1` and `n2`.
pub open spec fn count_twins(g: Grid, kind: UnitKind, i: int, n1: int, n2: int, n: int) -> int
    decreases n,
{
    if n <= 0 {
        0
    } else {
        count_twins(g, kind, i, n1, n2, n - 1) + if is_twin(g, kind.cell(i, n - 1), n1, n2) {
            1int
        } else {
            0int
        }
    }
}

/// The cells of the `i`-th unit of a kind that are no twins for `n1` and
/// `n2`.
pub open spec fn others_than_twins(g: Grid, kind: UnitKind, i: int, n1: int, n2: int) -> Set<int> {
    Set::new(|q: int| kind.index_of(q) == i && !is_twin(g, q, n1, n2))
}

/// The grid after the pair `n1`, `n2` was tried in a unit: where exactly
/// two cells of the unit are twins for it, both digits leave all others.
pub open spec fn pair_step(h: Grid, kind: UnitKind, i: int, n1: int, n2: int) -> Grid {
    if count_twins(h, kind, i, n1, n2, 9) == 2 {
        let region = others_than_twins(h, kind, i, n1, n2);
        strike(strike(h, n1, region), n2, region)
    } else {
        h
    }
}

/// The grid after `values[a]` was tried as lower digit with the first `n`
/// entries of `values` as higher digit.
pub open spec fn pair_inner(h: Grid, kind: UnitKind, i: int, values: Seq<int>, a: int, n: int) -> Grid
    decreases n,
{
    if n <= 0 {
        h
    } else {
        let h1 = pair_inner(h, kind, i, values, a, n - 1);
        if values[a] < values[n - 1] {
            pair_step(h1, kind, i, values[a], values[n - 1])
        } else {
            h1
        }
    }
}

/// The grid after each of the first `n` entries of `values` was tried as
/// lower digit with every entry as higher digit.
pub open spec fn pair_outer(h: Grid, kind: UnitKind, i: int, values: Seq<int>, n: int) -> Grid
    decreases n,
{
    if n <= 0 {
        h
    } else {
        pair_inner(pair_outer(h, kind, i, values, n - 1), kind, i, values, n - 1, values.len() as int)
    }
}

/// The grid after row `x` and then column `x` were searched for naked
/// pairs among the digits that were missing in them when the turn of `x`
/// came.
pub open spec fn pairs_at(h: Grid, x: int) -> Grid {
    let in_row = missing_in(h, row_cells(x));
    let in_col = missing_in(h, col_cells(x));
    pair_outer(
        pair_outer(h, UnitKind::Row, x, in_row, in_row.len() as int),
        UnitKind::Column,
        x,
        in_col,
        in_col.len() as int,
    )
}

/// The grid after the first `n` rows and columns were searched.
pub open spec fn pairs_upto(g: Grid, n: int) -> Grid
    decreases n,
{
    if n <= 0 {
        g
    } else {
        pairs_at(pairs_upto(g, n - 1), n - 1)
    }
}

/// Strategy that looks for naked pairs in rows and columns.
pub struct EliminatePossibilitiesUsingNakedPairs;

impl EliminatePossibilitiesUsingNakedPairs {
    /// What one application does.
    pub open spec fn pass(g: Grid) -> Grid {
        pairs_upto(g, 9)
    }

    /// A count of two twins means two different twin cells.
    proof fn lemma_two_twins(g: Grid, kind: UnitKind, i: int, n1: int, n2: int, n: int)
        requires
            0 <= n <= 9,
        ensures
            0 <= count_twins(g, kind, i, n1, n2, n) <= n,
            count_twins(g, kind, i, n1, n2, n) >= 1 ==> exists|j: int|
                0 <= j < n && is_twin(g, #[trigger] kind.cell(i, j), n1, n2),
            count_twins(g, kind, i, n1, n2, n) >= 2 ==> exists|j: int, k: int|
                0 <= j < k < n && is_twin(g, #[trigger] kind.cell(i, j), n1, n2) && is_twin(
                    g,
                    #[trigger] kind.cell(i, k),
                    n1,
                    n2,
                ),
        decreases n,
    {
        if n > 0 {
            Self::lemma_two_twins(g, kind, i, n1, n2, n - 1);
            let before = count_twins(g, kind, i, n1, n2, n - 1);
            if is_twin(g, kind.cell(i, n - 1), n1, n2) {
                if before >= 1 {
                    let j = choose|j: int|
                        0 <= j < n - 1 && is_twin(g, #[trigger] kind.cell(i, j), n1, n2);
                    assert(0 <= j < n - 1 < n && is_twin(g, kind.cell(i, j), n1, n2) && is_twin(
                        g,
                        kind.cell(i, n - 1),
                        n1,
                        n2,
                    ));
                }
            } else {
                if before >= 2 {
                    let (j, k) = choose|j: int, k: int|
                        0 <= j < k < n - 1 && is_twin(g, #[trigger] kind.cell(i, j), n1, n2)
                            && is_twin(g, #[trigger] kind.cell(i, k), n1, n2);
                    assert(0 <= j < k < n && is_twin(g, kind.cell(i, j), n1, n2) && is_twin(
                        g,
                        kind.cell(i, k),
                        n1,
                        n2,
                    ));
                }
            }
        }
    }

    /// Trying a pair is a chain of deductions, and it keeps every completion
    /// that was possible.
    proof fn lemma_step(h: Grid, kind: UnitKind, i: int, n1: int, n2: int, s: Seq<int>)
        requires
            grid_wf(h),
            0 <= i < 9,
            n1 != n2,
        ensures
            grid_wf(pair_step(h, kind, i, n1, n2)),
            refines(h, pair_step(h, kind, i, n1, n2)),
            valid_completion(s) && fits(h, s) ==> fits(pair_step(h, kind, i, n1, n2), s),
    {
        if count_twins(h, kind, i, n1, n2, 9) == 2 {
            let region = others_than_twins(h, kind, i, n1, n2);
            let h1 = strike(h, n1, region);
            lemma_strike(h, n1, region);
            lemma_strike(h1, n2, region);
            lemma_refines_trans(h, h1, strike(h1, n2, region));
            if valid_completion(s) && fits(h, s) {
                Self::lemma_two_twins(h, kind, i, n1, n2, 9);
                kind.lemma_geometry();
                let (j, k) = choose|j: int, k: int|
                    0 <= j < k < 9 && is_twin(h, #[trigger] kind.cell(i, j), n1, n2) && is_twin(
                        h,
                        #[trigger] kind.cell(i, k),
                        n1,
                        n2,
                    );
                let a = kind.cell(i, j);
                let b = kind.cell(i, k);
                assert(h[a].cands.contains(s[a]));
                assert(h[b].cands.contains(s[b]));
                assert(a != b);
                assert(related(a, b));
                assert(s[a] != s[b]);
                assert forall|q: int| 0 <= q < 81 && region.contains(q) implies s[q] != n1 && s[q]
                    != n2 by {
                    assert(related(a, q));
                    assert(related(b, q));
                }
                lemma_strike_fits(h, n1, region, s);
                lemma_strike_fits(h1, n2, region, s);
            }
        } else {
            lemma_refines_refl(h);
        }
    }

    /// Trying one digit with every partner is a chain of deductions, and it
    /// keeps every completion that was possible.
    proof fn lemma_inner(
        h: Grid,
        kind: UnitKind,
        i: int,
        values: Seq<int>,
        a: int,
        n: int,
        s: Seq<int>,
    )
        requires
            grid_wf(h),
            0 <= i < 9,
            0 <= a < values.len(),
            0 <= n <= values.len(),
        ensures
            grid_wf(pair_inner(h, kind, i, values, a, n)),
            refines(h, pair_inner(h, kind, i, values, a, n)),
            valid_completion(s) && fits(h, s) ==> fits(pair_inner(h, kind, i, values, a, n), s),
        decreases n,
    {
        if n > 0 {
            Self::lemma_inner(h, kind, i, values, a, n - 1, s);
            let h1 = pair_inner(h, kind, i, values, a, n - 1);
            if values[a] < values[n - 1] {
                Self::lemma_step(h1, kind, i, values[a], values[n - 1], s);
                lemma_refines_trans(h, h1, pair_inner(h, kind, i, values, a, n));
            }
        } else {
            lemma_refines_refl(h);
        }
    }

    /// Trying every pair of digits in one unit is a chain of deductions, and it
    /// keeps every completion that was possible.
    proof fn lemma_outer(h: Grid, kind: UnitKind, i: int, values: Seq<int>, n: int, s: Seq<int>)
        requires
            grid_wf(h),
            0 <= i < 9,
            0 <= n <= values.len(),
        ensures
            grid_wf(pair_outer(h, kind, i, values, n)),
            refines(h, pair_outer(h, kind, i, values, n)),
            valid_completion(s) && fits(h, s) ==> fits(pair_outer(h, kind, i, values, n), s),
        decreases n,
    {
        if n > 0 {
            Self::lemma_outer(h, kind, i, values, n - 1, s);
            let h1 = pair_outer(h, kind, i, values, n - 1);
            Self::lemma_inner(h1, kind, i, values, n - 1, values.len() as int, s);
            lemma_refines_trans(h, h1, pair_outer(h, kind, i, values, n));
        } else {
            lemma_refines_refl(h);
        }
    }

    /// The search in the first rows and columns is a chain of deductions, and
    /// it keeps every completion that was possible.
    proof fn lemma_upto(g: Grid, n: int, s: Seq<int>)
        requires
            grid_wf(g),
            0 <= n <= 9,
        ensures
            grid_wf(pairs_upto(g, n)),
            refines(g, pairs_upto(g, n)),
            valid_completion(s) && fits(g, s) ==> fits(pairs_upto(g, n), s),
        decreases n,
    {
        if n > 0 {
            Self::lemma_upto(g, n - 1, s);
            let h = pairs_upto(g, n - 1);
            let x = n - 1;
            let in_row = missing_in(h, row_cells(x));
            let in_col = missing_in(h, col_cells(x));
            Self::lemma_outer(h, UnitKind::Row, x, in_row, in_row.len() as int, s);
            let h1 = pair_outer(h, UnitKind::Row, x, in_row, in_row.len() as int);
            Self::lemma_outer(h1, UnitKind::Column, x, in_col, in_col.len() as int, s);
            lemma_refines_trans(h, h1, pairs_at(h, x));
            lemma_refines_trans(g, h, pairs_at(h, x));
        } else {
            lemma_refines_refl(g);
        }
    }

    /// One application is a chain of deductions, and it keeps every
    /// completion that was possible.
    pub proof fn lemma_pass(g: Grid, s: Seq<int>)
        requires
            grid_wf(g),
        ensures
            grid_wf(Self::pass(g)),
            refines(g, Self::pass(g)),
            valid_completion(s) && fits(g, s) ==> fits(Self::pass(g), s),
    {
        Self::lemma_upto(g, 9, s);
    }

    /// The count of twins depends only on which cells are twins.
    proof fn lemma_count_same(g: Grid, t: Grid, kind: UnitKind, i: int, n1: int, n2: int, n: int)
        requires
            0 <= n <= 9,
            forall|j: int|
                0 <= j < 9 ==> is_twin(g, #[trigger] kind.cell(i, j), n1, n2) == is_twin(
                    t,
                    kind.cell(i, j),
                    n1,
                    n2,
                ),
        ensures
            count_twins(g, kind, i, n1, n2, n) == count_twins(t, kind, i, n1, n2, n),
        decreases n,
    {
        if n > 0 {
            Self::lemma_count_same(g, t, kind, i, n1, n2, n - 1);
            assert(is_twin(g, kind.cell(i, n - 1), n1, n2) == is_twin(t, kind.cell(i, n - 1), n1, n2));
        }
    }

    /// Trying a pair keeps a grid above a grid that the same try leaves as
    /// it is and that admits a valid completion.
    proof fn lemma_step_above(
        h: Grid,
        t: Grid,
        kind: UnitKind,
        i: int,
        n1: int,
        n2: int,
        s: Seq<int>,
    )
        requires
            grid_wf(h),
            grid_wf(t),
            above(h, t),
            0 <= i < 9,
            n1 != n2,
            pair_step(t, kind, i, n1, n2) == t,
            valid_completion(s),
            fits(t, s),
        ensures
            grid_wf(pair_step(h, kind, i, n1, n2)),
            above(pair_step(h, kind, i, n1, n2), t),
    {
        if count_twins(h, kind, i, n1, n2, 9) == 2 {
            kind.lemma_geometry();
            Self::lemma_two_twins(h, kind, i, n1, n2, 9);
            let (ja, jb) = choose|j: int, k: int|
                0 <= j < k < 9 && is_twin(h, #[trigger] kind.cell(i, j), n1, n2) && is_twin(
                    h,
                    #[trigger] kind.cell(i, k),
                    n1,
                    n2,
                );
            let a = kind.cell(i, ja);
            let b = kind.cell(i, jb);
            assert forall|j: int| 0 <= j < 9 implies is_twin(h, #[trigger] kind.cell(i, j), n1, n2)
                == is_twin(t, kind.cell(i, j), n1, n2) by {
                let q = kind.cell(i, j);
                assert(h[q].narrows_to(t[q]));
                assert(values_of(h)[q] == values_of(t)[q]);
                assert(h[a].narrows_to(t[a]));
                assert(values_of(h)[a] == values_of(t)[a]);
                assert(h[b].narrows_to(t[b]));
                assert(values_of(h)[b] == values_of(t)[b]);
                if is_twin(t, q, n1, n2) && !is_twin(h, q, n1, n2) {
                    assert(q != a && q != b && a != b);
                    assert(t[q].cands.contains(s[q]));
                    assert(t[a].cands.contains(s[a]));
                    assert(t[b].cands.contains(s[b]));
                    assert(related(a, b) && related(a, q) && related(b, q));
                    assert(false);
                }
            }
            Self::lemma_count_same(h, t, kind, i, n1, n2, 9);
            let high = others_than_twins(h, kind, i, n1, n2);
            let low = others_than_twins(t, kind, i, n1, n2);
            let t1 = strike(t, n1, low);
            lemma_strike(t, n1, low);
            lemma_strike(t1, n2, low);
            lemma_refines_chain(t, t1, strike(t1, n2, low));
            lemma_strike_quiet(t, n1, low);
            lemma_strike_quiet(t, n2, low);
            assert forall|q: int| 0 <= q < 81 && high.contains(q) implies low.contains(q) by {
                assert(kind.cell(i, kind.place_of(q)) == q);
            }
            lemma_strike_above(h, t, n1, high);
            lemma_strike_above(strike(h, n1, high), t, n2, high);
        }
    }

    /// A grid that trying one digit with every partner leaves as it is was left
    /// as it is by every step of it.
    proof fn lemma_inner_quiet(
        t: Grid,
        kind: UnitKind,
        i: int,
        values: Seq<int>,
        a: int,
        n: int,
        k: int,
    )
        requires
            grid_wf(t),
            0 <= i < 9,
            0 <= a < values.len(),
            0 <= k <= n <= values.len(),
            pair_inner(t, kind, i, values, a, n) == t,
        ensures
            pair_inner(t, kind, i, values, a, k) == t,
        decreases n - k,
    {
        if k < n {
            Self::lemma_inner(t, kind, i, values, a, n - 1, Seq::empty());
            let h = pair_inner(t, kind, i, values, a, n - 1);
            if values[a] < values[n - 1] {
                Self::lemma_step(h, kind, i, values[a], values[n - 1], Seq::empty());
            } else {
                lemma_refines_refl(h);
            }
            lemma_refines_chain(t, h, pair_inner(t, kind, i, values, a, n));
            Self::lemma_inner_quiet(t, kind, i, values, a, n - 1, k);
        }
    }

    /// A grid that trying every pair of digits in one unit leaves as it is was
    /// left as it is by every step of it.
    proof fn lemma_outer_quiet(t: Grid, kind: UnitKind, i: int, values: Seq<int>, n: int, k: int)
        requires
            grid_wf(t),
            0 <= i < 9,
            0 <= k <= n <= values.len(),
            pair_outer(t, kind, i, values, n) == t,
        ensures
            pair_outer(t, kind, i, values, k) == t,
        decreases n - k,
    {
        if k < n {
            Self::lemma_outer(t, kind, i, values, n - 1, Seq::empty());
            let h = pair_outer(t, kind, i, values, n - 1);
            Self::lemma_inner(h, kind, i, values, n - 1, values.len() as int, Seq::empty());
            lemma_refines_chain(t, h, pair_outer(t, kind, i, values, n));
            Self::lemma_outer_quiet(t, kind, i, values, n - 1, k);
        }
    }

    /// A grid that the search in the first rows and columns leaves as it is was
    /// left as it is by every step of it.
    proof fn lemma_upto_quiet(t: Grid, n: int, k: int)
        requires
            grid_wf(t),
            0 <= k <= n <= 9,
            pairs_upto(t, n) == t,
        ensures
            pairs_upto(t, k) == t,
        decreases n - k,
    {
        if k < n {
            Self::lemma_upto(t, n - 1, Seq::empty());
            Self::lemma_upto(t, n, Seq::empty());
            let h = pairs_upto(t, n - 1);
            Self::lemma_at(h, n - 1, Seq::empty());
            lemma_refines_chain(t, h, pairs_upto(t, n));
            Self::lemma_upto_quiet(t, n - 1, k);
        }
    }

    /// The search in one row and one column is a chain of deductions, and it
    /// keeps every completion that was possible.
    proof fn lemma_at(h: Grid, x: int, s: Seq<int>)
        requires
            grid_wf(h),
            0 <= x < 9,
        ensures
            grid_wf(pairs_at(h, x)),
            refines(h, pairs_at(h, x)),
            refines(
                h,
                pair_outer(
                    h,
                    UnitKind::Row,
                    x,
                    missing_in(h, row_cells(x)),
                    missing_in(h, row_cells(x)).len() as int,
                ),
            ),
            refines(
                pair_outer(
                    h,
                    UnitKind::Row,
                    x,
                    missing_in(h, row_cells(x)),
                    missing_in(h, row_cells(x)).len() as int,
                ),
                pairs_at(h, x),
            ),
            valid_completion(s) && fits(h, s) ==> fits(pairs_at(h, x), s),
    {
        let in_row = missing_in(h, row_cells(x));
        let in_col = missing_in(h, col_cells(x));
        Self::lemma_outer(h, UnitKind::Row, x, in_row, in_row.len() as int, s);
        let h1 = pair_outer(h, UnitKind::Row, x, in_row, in_row.len() as int);
        Self::lemma_outer(h1, UnitKind::Column, x, in_col, in_col.len() as int, s);
        lemma_refines_trans(h, h1, pairs_at(h, x));
    }

    /// Trying one digit with every partner keeps a grid above a grid that it
    /// leaves as it is and that admits a valid completion.
    proof fn lemma_inner_above(
        g: Grid,
        t: Grid,
        kind: UnitKind,
        i: int,
        values: Seq<int>,
        a: int,
        n: int,
        s: Seq<int>,
    )
        requires
            grid_wf(g),
            grid_wf(t),
            above(g, t),
            0 <= i < 9,
            0 <= a < values.len(),
            0 <= n <= values.len(),
            pair_inner(t, kind, i, values, a, values.len() as int) == t,
            valid_completion(s),
            fits(t, s),
        ensures
            grid_wf(pair_inner(g, kind, i, values, a, n)),
            above(pair_inner(g, kind, i, values, a, n), t),
        decreases n,
    {
        if n > 0 {
            Self::lemma_inner_above(g, t, kind, i, values, a, n - 1, s);
            let h = pair_inner(g, kind, i, values, a, n - 1);
            if values[a] < values[n - 1] {
                Self::lemma_inner_quiet(t, kind, i, values, a, values.len() as int, n);
                Self::lemma_inner_quiet(t, kind, i, values, a, values.len() as int, n - 1);
                Self::lemma_step_above(h, t, kind, i, values[a], values[n - 1], s);
            }
        }
    }

    /// Trying every pair of digits in one unit keeps a grid above a grid that
    /// it leaves as it is and that admits a valid completion.
    proof fn lemma_outer_above(
        g: Grid,
        t: Grid,
        kind: UnitKind,
        i: int,
        values: Seq<int>,
        n: int,
        s: Seq<int>,
    )
        requires
            grid_wf(g),
            grid_wf(t),
            above(g, t),
            0 <= i < 9,
            0 <= n <= values.len(),
            pair_outer(t, kind, i, values, values.len() as int) == t,
            valid_completion(s),
            fits(t, s),
        ensures
            grid_wf(pair_outer(g, kind, i, values, n)),
            above(pair_outer(g, kind, i, values, n), t),
        decreases n,
    {
        if n > 0 {
            Self::lemma_outer_above(g, t, kind, i, values, n - 1, s);
            let h = pair_outer(g, kind, i, values, n - 1);
            Self::lemma_outer_quiet(t, kind, i, values, values.len() as int, n);
            Self::lemma_outer_quiet(t, kind, i, values, values.len() as int, n - 1);
            Self::lemma_inner_above(h, t, kind, i, values, n - 1, values.len() as int, s);
        }
    }

    /// The search in the first rows and columns keeps a grid above a grid that
    /// it leaves as it is and that admits a valid completion.
    proof fn lemma_upto_above(g: Grid, t: Grid, n: int, s: Seq<int>)
        requires
            grid_wf(g),
            grid_wf(t),
            above(g, t),
            0 <= n <= 9,
            pairs_upto(t, 9) == t,
            valid_completion(s),
            fits(t, s),
        ensures
            grid_wf(pairs_upto(g, n)),
            above(pairs_upto(g, n), t),
        decreases n,
    {
        if n > 0 {
            Self::lemma_upto_above(g, t, n - 1, s);
            let h = pairs_upto(g, n - 1);
            let x = n - 1;
            UnitKind::Row.lemma_geometry();
            UnitKind::Column.lemma_geometry();
            lemma_missing_same(h, t, row_cells(x));
            lemma_missing_same(h, t, col_cells(x));
            let in_row = missing_in(t, row_cells(x));
            let in_col = missing_in(t, col_cells(x));
            Self::lemma_upto_quiet(t, 9, n);
            Self::lemma_upto_quiet(t, 9, n - 1);
            assert(pairs_at(t, x) == t);
            Self::lemma_at(t, x, Seq::empty());
            let t1 = pair_outer(t, UnitKind::Row, x, in_row, in_row.len() as int);
            lemma_refines_chain(t, t1, pairs_at(t, x));
            Self::lemma_outer_above(h, t, UnitKind::Row, x, in_row, in_row.len() as int, s);
            let h1 = pair_outer(h, UnitKind::Row, x, in_row, in_row.len() as int);
            Self::lemma_outer_above(h1, t, UnitKind::Column, x, in_col, in_col.len() as int, s);
        }
    }

    /// One application keeps a grid above a grid that the strategy leaves
    /// as it is and that admits a valid completion.
    pub proof fn lemma_above(g: Grid, t: Grid, s: Seq<int>)
        requires
            grid_wf(g),
            grid_wf(t),
            above(g, t),
            Self::pass(t) == t,
            valid_completion(s),
            fits(t, s),
        ensures
            above(Self::pass(g), t),
    {
        Self::lemma_upto_above(g, t, 9, s);
    }

    /// Whether the cell at `row` and `col` is undecided and admits no digit
    /// but `n1` and `n2`.
    fn holds_only(sudoku: &SudokuTemplate, row: usize, col: usize, n1: usize, n2: usize) -> (b: bool)
        requires
            row < 9,
            col < 9,
        ensures
            b == is_twin(sudoku@, at(row as int, col as int), n1 as int, n2 as int),
    {
        let cell = sudoku.cell_at(row, col);
        if !cell.is_empty() {
            return false;
        }
        let mut d: usize = 1;
        while d <= 9
            invariant
                1 <= d <= 10,
                cell@ == sudoku@[at(row as int, col as int)],
                forall|e: int| 1 <= e < d && cell@.cands.contains(e) ==> e == n1 || e == n2,
            decreases 10 - d,
        {
            if cell.contains_possibility(d) && d != n1 && d != n2 {
                return false;
            }
            d += 1;
        }
        true
    }

    /// Tries every pair of digits of `missing` in the `i`-th unit of a kind.
    fn in_unit(
        sudoku: &mut SudokuTemplate,
        kind: UnitKind,
        i: usize,
        missing: &Vec<usize>,
        made_changes: &mut bool,
        Ghost(start): Ghost<Grid>,
    )
        requires
            old(sudoku).wf(),
            i < 9,
            refines(start, old(sudoku)@),
            *old(made_changes) == (old(sudoku)@ != start),
        ensures
            final(sudoku)@ == pair_outer(
                old(sudoku)@,
                kind,
                i as int,
                as_ints(missing@),
                missing.len() as int,
            ),
            final(sudoku).wf(),
            refines(start, final(sudoku)@),
            *final(made_changes) == (final(sudoku)@ != start),
    {
        let ghost values = as_ints(missing@);
        let ghost h0 = sudoku@;
        for a in 0..missing.len()
            invariant
                i < 9,
                values == as_ints(missing@),
                sudoku.wf(),
                sudoku@ == pair_outer(h0, kind, i as int, values, a as int),
                refines(start, sudoku@),
                *made_changes == (sudoku@ != start),
        {
            let ghost h1 = sudoku@;
            for b in 0..missing.len()
                invariant
                    i < 9,
                    a < missing.len(),
                    values == as_ints(missing@),
                    sudoku.wf(),
                    sudoku@ == pair_inner(h1, kind, i as int, values, a as int, b as int),
                    refines(start, sudoku@),
                    *made_changes == (sudoku@ != start),
            {
                let n1 = missing[a];
                let n2 = missing[b];
                assert(values[a as int] == n1 && values[b as int] == n2);
                if n1 < n2 {
                    let ghost h = sudoku@;
                    let mut twins: usize = 0;
                    for y in 0..9usize
                        invariant
                            i < 9,
                            h == sudoku@,
                            twins == count_twins(h, kind, i as int, n1 as int, n2 as int, y as int),
                            twins <= y,
                    {
                        let (row, col) = kind.coords(i, y);
                        if Self::holds_only(sudoku, row, col, n1, n2) {
                            twins += 1;
                        }
                    }
                    if twins == 2 {
                        let ghost region = others_than_twins(h, kind, i as int, n1 as int, n2 as int);
                        proof {
                            kind.lemma_geometry();
                        }
                        for y in 0..9usize
                            invariant
                                i < 9,
                                region == others_than_twins(h, kind, i as int, n1 as int, n2 as int),
                                sudoku.wf(),
                                refines(start, sudoku@),
                                *made_changes == (sudoku@ != start),
                                forall|q: int|
                                    0 <= q < 81 ==> #[trigger] sudoku@[q] == if region.contains(q)
                                        && kind.place_of(q) < y {
                                        h[q].remove(n1 as int).remove(n2 as int)
                                    } else {
                                        h[q]
                                    },
                        {
                            proof {
                                kind.lemma_geometry();
                            }
                            let (row, col) = kind.coords(i, y);
                            if !Self::holds_only(sudoku, row, col, n1, n2) {
                                sudoku.strike_at(row, col, n1, made_changes, Ghost(start));
                                sudoku.strike_at(row, col, n2, made_changes, Ghost(start));
                            }
                        }
                        assert(sudoku@ =~= strike(strike(h, n1 as int, region), n2 as int, region));
                    }
                }
            }
        }
    }

    /// For each row and column: if exactly two undecided cells admit exactly
    /// the same pair of digits, strikes both digits from the rest of the row
    /// or column.
    pub fn in_rows_and_columns(sudoku: &mut SudokuTemplate) -> (made_changes: bool)
        requires
            old(sudoku).wf(),
        ensures
            final(sudoku)@ == pairs_upto(old(sudoku)@, 9),
            made_changes == (final(sudoku)@ != old(sudoku)@),
            final(sudoku).wf(),
            refines(old(sudoku)@, final(sudoku)@),
    {
        let mut made_changes = false;
        let ghost start = sudoku@;
        proof {
            lemma_refines_refl(start);
        }
        for x in 0..9usize
            invariant
                sudoku.wf(),
                sudoku@ == pairs_upto(start, x as int),
                refines(start, sudoku@),
                made_changes == (sudoku@ != start),
        {
            let missing_values_in_row = sudoku.get_missing_values_in_row(x);
            let missing_values_in_column = sudoku.get_missing_values_in_column(x);
            Self::in_unit(
                sudoku,
                UnitKind::Row,
                x,
                &missing_values_in_row,
                &mut made_changes,
                Ghost(start),
            );
            Self::in_unit(
                sudoku,
                UnitKind::Column,
                x,
                &missing_values_in_column,
                &mut made_changes,
                Ghost(start),
            );
        }
        made_changes
    }

    /// Applies the strategy once and says whether the grid changed.
    pub fn solve(&self, sudoku: &mut SudokuTemplate) -> (changed: bool)
        requires
            old(sudoku).wf(),
        ensures
            final(sudoku)@ == Self::pass(old(sudoku)@),
            changed == (final(sudoku)@ != old(sudoku)@),
            final(sudoku).wf(),
            refines(old(sudoku)@, final(sudoku)@),
    {
        Self::in_rows_and_columns(sudoku)
    }

    /// The tier of this strategy.
    pub fn difficulty(&self) -> (tier: Difficulty)
        ensures
            tier == Difficulty::Medium,
    {
        Difficulty::Medium
    }
}

} // verus!
