//! Elimination by Y-wings: a pivot cell with candidates {a, b} that sees a
//! wing with {a, c} and a wing with {b, c} forces `c` into one of the wings,
//! so `c` cannot stand in any cell that sees both wings.

use vstd::prelude::*;
use crate::model::{
    above, at, fits, grid_wf, lemma_at_geometry, lemma_listing, lemma_refines_chain,
    lemma_refines_refl, lemma_refines_trans, lemma_strike, lemma_strike_above, lemma_strike_fits,
    lemma_strike_quiet, listing, members, refines, related, strike, tally, valid_completion,
    values_of, Grid,
};
use crate::traits::cell::as_ints;
use crate::traits::difficulty::Difficulty;
use crate::traits::sudoku_template::SudokuTemplate;

verus! {

/// The cells that see both `w1` and `w2`.
pub open spec fn seen_by_both(w1: int, w2: int) -> Set<int> {
    Set::new(|q: int| related(w1, q) && related(w2, q))
}

/// Two pairs have exactly one member in common.
pub open spec fn one_common(a: Seq<int>, b: Seq<int>) -> bool {
    (a[0] == b[0] && a[1] != b[1]) || (a[0] == b[1] && a[1] != b[0]) || (a[1] == b[0] && a[0]
        != b[1]) || (a[1] == b[1] && a[0] != b[0])
}

/// The first member of the pair `a` that is also in the pair `b`.
pub open spec fn common_of(a: Seq<int>, b: Seq<int>) -> int {
    if a[0] == b[0] || a[0] == b[1] {
        a[0]
    } else {
        a[1]
    }
}

/// The first member of the pair `a` that is not `d`.
pub open spec fn other_than(a: Seq<int>, d: int) -> int {
    if a[0] != d {
        a[0]
    } else {
        a[1]
    }
}

/// `m` sees both wings and has exactly two candidates, both among `d1` and
/// `d2`.
pub open spec fn is_pivot(h: Grid, m: int, w1: int, w2: int, d1: int, d2: int) -> bool {
    &&& related(w1, m)
    &&& related(w2, m)
    &&& tally(h[m].cands) == 2
    &&& forall|x: int| 1 <= x <= 9 && h[m].cands.contains(x) ==> x == d1 || x == d2
}

/// The grid after the first `n` cells were tried as pivot between the wings
/// `w1` and `w2`: each pivot strikes `common` from all cells that see both
/// wings.
pub open spec fn ywing_pivots(
    h: Grid,
    w1: int,
    w2: int,
    common: int,
    d1: int,
    d2: int,
    n: int,
) -> Grid
    decreases n,
{
    if n <= 0 {
        h
    } else {
        let h1 = ywing_pivots(h, w1, w2, common, d1, d2, n - 1);
        if is_pivot(h1, n - 1, w1, w2, d1, d2) {
            strike(h1, common, seen_by_both(w1, w2))
        } else {
            h1
        }
    }
}

/// `w2` can be second wing to `w1`, whose candidates are the pair `a`.
pub open spec fn is_second_wing(h: Grid, w1: int, a: Seq<int>, w2: int) -> bool {
    &&& !related(w1, w2)
    &&& tally(h[w2].cands) == 2
    &&& one_common(a, listing(h[w2].cands))
}

/// The grid after `w2` was tried as second wing to `w1`.
pub open spec fn ywing_second(h: Grid, w1: int, a: Seq<int>, w2: int) -> Grid {
    let b = listing(h[w2].cands);
    let common = common_of(a, b);
    if is_second_wing(h, w1, a, w2) {
        ywing_pivots(h, w1, w2, common, other_than(a, common), other_than(b, common), 81)
    } else {
        h
    }
}

/// The grid after the first `n` cells were tried as second wing to `w1`.
pub open spec fn ywing_seconds(h: Grid, w1: int, a: Seq<int>, n: int) -> Grid
    decreases n,
{
    if n <= 0 {
        h
    } else {
        ywing_second(ywing_seconds(h, w1, a, n - 1), w1, a, n - 1)
    }
}

/// The grid after `w1` was tried as first wing.
pub open spec fn ywing_first(h: Grid, w1: int) -> Grid {
    if tally(h[w1].cands) == 2 {
        ywing_seconds(h, w1, listing(h[w1].cands), 81)
    } else {
        h
    }
}

/// The grid after the first `n` cells, in row-major order, were tried as
/// first wing.
pub open spec fn ywing_firsts(g: Grid, n: int) -> Grid
    decreases n,
{
    if n <= 0 {
        g
    } else {
        ywing_first(ywing_firsts(g, n - 1), n - 1)
    }
}

/// Strategy that looks for Y-wings anywhere in the grid.
pub struct EliminatePossibilitiesUsingYWing;

impl EliminatePossibilitiesUsingYWing {
    /// What one application does.
    pub open spec fn pass(g: Grid) -> Grid {
        ywing_firsts(g, 81)
    }

    /// Trying pivots between two wings is a chain of deductions, and it keeps
    /// every completion that was possible.
    proof fn lemma_pivots(
        h: Grid,
        w1: int,
        w2: int,
        common: int,
        d1: int,
        d2: int,
        n: int,
        s: Seq<int>,
    )
        requires
            grid_wf(h),
            0 <= w1 < 81,
            0 <= w2 < 81,
            !related(w1, w2),
            forall|x: int| h[w1].cands.contains(x) ==> x == common || x == d1,
            forall|x: int| h[w2].cands.contains(x) ==> x == common || x == d2,
            0 <= n <= 81,
        ensures
            grid_wf(ywing_pivots(h, w1, w2, common, d1, d2, n)),
            refines(h, ywing_pivots(h, w1, w2, common, d1, d2, n)),
            ywing_pivots(h, w1, w2, common, d1, d2, n)[w1] == h[w1],
            ywing_pivots(h, w1, w2, common, d1, d2, n)[w2] == h[w2],
            valid_completion(s) && fits(h, s) ==> fits(
                ywing_pivots(h, w1, w2, common, d1, d2, n),
                s,
            ),
        decreases n,
    {
        if n > 0 {
            Self::lemma_pivots(h, w1, w2, common, d1, d2, n - 1, s);
            let h1 = ywing_pivots(h, w1, w2, common, d1, d2, n - 1);
            let m = n - 1;
            if is_pivot(h1, m, w1, w2, d1, d2) {
                let region = seen_by_both(w1, w2);
                lemma_strike(h1, common, region);
                lemma_refines_trans(h, h1, strike(h1, common, region));
                assert(!region.contains(w1));
                assert(!region.contains(w2));
                if valid_completion(s) && fits(h, s) {
                    assert(h1[m].cands.contains(s[m]));
                    assert(h1[w1].cands.contains(s[w1]));
                    assert(h1[w2].cands.contains(s[w2]));
                    assert(m != w1 && m != w2);
                    assert(s[m] != s[w1] && s[m] != s[w2]);
                    assert(s[w1] == common || s[w2] == common);
                    assert forall|q: int| 0 <= q < 81 && region.contains(q) implies s[q]
                        != common by {
                        assert(q != w1 && q != w2);
                        assert(s[q] != s[w1] && s[q] != s[w2]);
                    }
                    lemma_strike_fits(h1, common, region, s);
                }
            }
        } else {
            lemma_refines_refl(h);
        }
    }

    /// Trying second wings to a first wing is a chain of deductions, and it
    /// keeps every completion that was possible.
    proof fn lemma_seconds(h: Grid, w1: int, a: Seq<int>, n: int, s: Seq<int>)
        requires
            grid_wf(h),
            0 <= w1 < 81,
            a == listing(h[w1].cands),
            a.len() == 2,
            0 <= n <= 81,
        ensures
            grid_wf(ywing_seconds(h, w1, a, n)),
            refines(h, ywing_seconds(h, w1, a, n)),
            ywing_seconds(h, w1, a, n)[w1] == h[w1],
            valid_completion(s) && fits(h, s) ==> fits(ywing_seconds(h, w1, a, n), s),
        decreases n,
    {
        if n > 0 {
            Self::lemma_seconds(h, w1, a, n - 1, s);
            let h1 = ywing_seconds(h, w1, a, n - 1);
            let w2 = n - 1;
            let b = listing(h1[w2].cands);
            let common = common_of(a, b);
            if is_second_wing(h1, w1, a, w2) {
                let d1 = other_than(a, common);
                let d2 = other_than(b, common);
                lemma_listing(h1[w1].cands);
                lemma_listing(h1[w2].cands);
                assert forall|x: int| h1[w1].cands.contains(x) implies x == common || x == d1 by {
                    assert(members(a).contains(x));
                }
                assert forall|x: int| h1[w2].cands.contains(x) implies x == common || x == d2 by {
                    assert(members(b).contains(x));
                }
                Self::lemma_pivots(h1, w1, w2, common, d1, d2, 81, s);
                lemma_refines_trans(h, h1, ywing_second(h1, w1, a, w2));
            }
        } else {
            lemma_refines_refl(h);
        }
    }

    /// One application is a chain of deductions, and it keeps every
    /// completion that was possible.
    proof fn lemma_firsts(g: Grid, n: int, s: Seq<int>)
        requires
            grid_wf(g),
            0 <= n <= 81,
        ensures
            grid_wf(ywing_firsts(g, n)),
            refines(g, ywing_firsts(g, n)),
            valid_completion(s) && fits(g, s) ==> fits(ywing_firsts(g, n), s),
        decreases n,
    {
        if n > 0 {
            Self::lemma_firsts(g, n - 1, s);
            let h = ywing_firsts(g, n - 1);
            if tally(h[n - 1].cands) == 2 {
                lemma_listing(h[n - 1].cands);
                Self::lemma_seconds(h, n - 1, listing(h[n - 1].cands), 81, s);
                lemma_refines_trans(g, h, ywing_first(h, n - 1));
            }
        } else {
            lemma_refines_refl(g);
        }
    }

    /// One application is a chain of deductions, and it keeps every
    /// completion that was possible.
    pub proof fn lemma_pass(g: Grid, s: Seq<int>)
        requires
            grid_wf(g),
        ensures
            grid_wf(Self::pass(g)),
            refines(g, Self::pass(g)),
            valid_completion(s) && fits(g, s) ==> fits(Self::pass(g), s),
    {
        Self::lemma_firsts(g, 81, s);
    }

    /// A grid that trying pivots between two wings leaves as it is was left as
    /// it is by every step of it.
    proof fn lemma_pivots_quiet(
        t: Grid,
        w1: int,
        w2: int,
        common: int,
        d1: int,
        d2: int,
        n: int,
        k: int,
    )
        requires
            grid_wf(t),
            0 <= k <= n <= 81,
            ywing_pivots(t, w1, w2, common, d1, d2, n) == t,
        ensures
            ywing_pivots(t, w1, w2, common, d1, d2, k) == t,
        decreases n - k,
    {
        if k < n {
            Self::lemma_pivots_refine(t, w1, w2, common, d1, d2, n - 1);
            let h = ywing_pivots(t, w1, w2, common, d1, d2, n - 1);
            if is_pivot(h, n - 1, w1, w2, d1, d2) {
                lemma_strike(h, common, seen_by_both(w1, w2));
            } else {
                lemma_refines_refl(h);
            }
            lemma_refines_chain(t, h, ywing_pivots(t, w1, w2, common, d1, d2, n));
            Self::lemma_pivots_quiet(t, w1, w2, common, d1, d2, n - 1, k);
        }
    }

    /// Trying pivots is a chain of deductions, whatever the wings are.
    proof fn lemma_pivots_refine(
        h: Grid,
        w1: int,
        w2: int,
        common: int,
        d1: int,
        d2: int,
        n: int,
    )
        requires
            grid_wf(h),
            0 <= n <= 81,
        ensures
            grid_wf(ywing_pivots(h, w1, w2, common, d1, d2, n)),
            refines(h, ywing_pivots(h, w1, w2, common, d1, d2, n)),
        decreases n,
    {
        if n > 0 {
            Self::lemma_pivots_refine(h, w1, w2, common, d1, d2, n - 1);
            let h1 = ywing_pivots(h, w1, w2, common, d1, d2, n - 1);
            if is_pivot(h1, n - 1, w1, w2, d1, d2) {
                lemma_strike(h1, common, seen_by_both(w1, w2));
                lemma_refines_trans(h, h1, strike(h1, common, seen_by_both(w1, w2)));
            }
        } else {
            lemma_refines_refl(h);
        }
    }

    /// Trying second wings is a chain of deductions, whatever the first
    /// wing is.
    proof fn lemma_seconds_refine(h: Grid, w1: int, a: Seq<int>, n: int)
        requires
            grid_wf(h),
            0 <= n <= 81,
        ensures
            grid_wf(ywing_seconds(h, w1, a, n)),
            refines(h, ywing_seconds(h, w1, a, n)),
        decreases n,
    {
        if n > 0 {
            Self::lemma_seconds_refine(h, w1, a, n - 1);
            let h1 = ywing_seconds(h, w1, a, n - 1);
            let b = listing(h1[n - 1].cands);
            let common = common_of(a, b);
            if is_second_wing(h1, w1, a, n - 1) {
                Self::lemma_pivots_refine(
                    h1,
                    w1,
                    n - 1,
                    common,
                    other_than(a, common),
                    other_than(b, common),
                    81,
                );
                lemma_refines_trans(h, h1, ywing_second(h1, w1, a, n - 1));
            }
        } else {
            lemma_refines_refl(h);
        }
    }

    /// A grid that trying second wings to a first wing leaves as it is was left
    /// as it is by every step of it.
    proof fn lemma_seconds_quiet(t: Grid, w1: int, a: Seq<int>, n: int, k: int)
        requires
            grid_wf(t),
            0 <= k <= n <= 81,
            ywing_seconds(t, w1, a, n) == t,
        ensures
            ywing_seconds(t, w1, a, k) == t,
        decreases n - k,
    {
        if k < n {
            Self::lemma_seconds_refine(t, w1, a, n - 1);
            let h = ywing_seconds(t, w1, a, n - 1);
            Self::lemma_seconds_refine(h, w1, a, 0);
            let b = listing(h[n - 1].cands);
            let common = common_of(a, b);
            if is_second_wing(h, w1, a, n - 1) {
                Self::lemma_pivots_refine(
                    h,
                    w1,
                    n - 1,
                    common,
                    other_than(a, common),
                    other_than(b, common),
                    81,
                );
            } else {
                lemma_refines_refl(h);
            }
            lemma_refines_chain(t, h, ywing_seconds(t, w1, a, n));
            Self::lemma_seconds_quiet(t, w1, a, n - 1, k);
        }
    }

    /// A grid that trying the first cells as first wing leaves as it is was
    /// left as it is by every step of it.
    proof fn lemma_firsts_quiet(t: Grid, n: int, k: int)
        requires
            grid_wf(t),
            0 <= k <= n <= 81,
            ywing_firsts(t, n) == t,
        ensures
            ywing_firsts(t, k) == t,
        decreases n - k,
    {
        if k < n {
            Self::lemma_firsts(t, n - 1, Seq::empty());
            let h = ywing_firsts(t, n - 1);
            if tally(h[n - 1].cands) == 2 {
                Self::lemma_seconds_refine(h, n - 1, listing(h[n - 1].cands), 81);
            } else {
                lemma_refines_refl(h);
            }
            lemma_refines_chain(t, h, ywing_firsts(t, n));
            Self::lemma_firsts_quiet(t, n - 1, k);
        }
    }

    /// Trying pivots between two wings keeps a grid above a grid that it leaves
    /// as it is.
    proof fn lemma_pivots_above(
        g: Grid,
        t: Grid,
        w1: int,
        w2: int,
        common: int,
        d1: int,
        d2: int,
        n: int,
    )
        requires
            grid_wf(g),
            grid_wf(t),
            above(g, t),
            0 <= n <= 81,
            ywing_pivots(t, w1, w2, common, d1, d2, 81) == t,
        ensures
            grid_wf(ywing_pivots(g, w1, w2, common, d1, d2, n)),
            above(ywing_pivots(g, w1, w2, common, d1, d2, n), t),
        decreases n,
    {
        if n > 0 {
            Self::lemma_pivots_above(g, t, w1, w2, common, d1, d2, n - 1);
            let h = ywing_pivots(g, w1, w2, common, d1, d2, n - 1);
            let m = n - 1;
            if is_pivot(h, m, w1, w2, d1, d2) {
                assert(h[m].narrows_to(t[m]));
                assert(values_of(h)[m] == values_of(t)[m]);
                h[m].lemma_pair_below(t[m]);
                assert(is_pivot(t, m, w1, w2, d1, d2));
                Self::lemma_pivots_quiet(t, w1, w2, common, d1, d2, 81, n);
                Self::lemma_pivots_quiet(t, w1, w2, common, d1, d2, 81, n - 1);
                lemma_strike_quiet(t, common, seen_by_both(w1, w2));
                lemma_strike_above(h, t, common, seen_by_both(w1, w2));
            }
        }
    }

    /// Trying second wings to a first wing keeps a grid above a grid that it
    /// leaves as it is.
    proof fn lemma_seconds_above(g: Grid, t: Grid, w1: int, a: Seq<int>, n: int)
        requires
            grid_wf(g),
            grid_wf(t),
            above(g, t),
            0 <= n <= 81,
            ywing_seconds(t, w1, a, 81) == t,
        ensures
            grid_wf(ywing_seconds(g, w1, a, n)),
            above(ywing_seconds(g, w1, a, n), t),
        decreases n,
    {
        if n > 0 {
            Self::lemma_seconds_above(g, t, w1, a, n - 1);
            let h = ywing_seconds(g, w1, a, n - 1);
            let w2 = n - 1;
            if is_second_wing(h, w1, a, w2) {
                assert(h[w2].narrows_to(t[w2]));
                assert(values_of(h)[w2] == values_of(t)[w2]);
                h[w2].lemma_pair_below(t[w2]);
                let b = listing(h[w2].cands);
                let common = common_of(a, b);
                assert(is_second_wing(t, w1, a, w2));
                Self::lemma_seconds_quiet(t, w1, a, 81, n);
                Self::lemma_seconds_quiet(t, w1, a, 81, n - 1);
                assert(ywing_second(t, w1, a, w2) == t);
                Self::lemma_pivots_above(
                    h,
                    t,
                    w1,
                    w2,
                    common,
                    other_than(a, common),
                    other_than(b, common),
                    81,
                );
            }
        }
    }

    /// Trying the first cells as first wing keeps a grid above a grid that it
    /// leaves as it is.
    proof fn lemma_firsts_above(g: Grid, t: Grid, n: int)
        requires
            grid_wf(g),
            grid_wf(t),
            above(g, t),
            0 <= n <= 81,
            ywing_firsts(t, 81) == t,
        ensures
            grid_wf(ywing_firsts(g, n)),
            above(ywing_firsts(g, n), t),
        decreases n,
    {
        if n > 0 {
            Self::lemma_firsts_above(g, t, n - 1);
            let h = ywing_firsts(g, n - 1);
            let w1 = n - 1;
            if tally(h[w1].cands) == 2 {
                assert(h[w1].narrows_to(t[w1]));
                assert(values_of(h)[w1] == values_of(t)[w1]);
                h[w1].lemma_pair_below(t[w1]);
                Self::lemma_firsts_quiet(t, 81, n);
                Self::lemma_firsts_quiet(t, 81, n - 1);
                assert(ywing_first(t, w1) == t);
                Self::lemma_seconds_above(h, t, w1, listing(h[w1].cands), 81);
            }
        }
    }

    /// One application keeps a grid above a grid that the strategy leaves
    /// as it is.
    pub proof fn lemma_above(g: Grid, t: Grid)
        requires
            grid_wf(g),
            grid_wf(t),
            above(g, t),
            Self::pass(t) == t,
        ensures
            above(Self::pass(g), t),
    {
        Self::lemma_firsts_above(g, t, 81);
    }

    /// Looks for Y-wings with every cell as first wing, every cell as second
    /// wing and every cell as pivot, in row-major order, and strikes the
    /// wings' common candidate wherever a wing pattern is found.
    pub fn everywhere(sudoku: &mut SudokuTemplate) -> (made_changes: bool)
        requires
            old(sudoku).wf(),
        ensures
            final(sudoku)@ == ywing_firsts(old(sudoku)@, 81),
            made_changes == (final(sudoku)@ != old(sudoku)@),
            final(sudoku).wf(),
            refines(old(sudoku)@, final(sudoku)@),
    {
        let mut made_changes = false;
        let ghost start = sudoku@;
        proof {
            lemma_refines_refl(start);
        }
        for w1 in 0..81usize
            invariant
                sudoku.wf(),
                sudoku@ == ywing_firsts(start, w1 as int),
                refines(start, sudoku@),
                made_changes == (sudoku@ != start),
        {
            let first_wing: (usize, usize) = (w1 / 9, w1 % 9);
            assert(at(first_wing.0 as int, first_wing.1 as int) == w1);
            let first_wing_possible_values = sudoku.cell_at(first_wing.0, first_wing.1).possible_values();
            if first_wing_possible_values.len() == 2 {
                Self::with_first_wing(
                    sudoku,
                    first_wing,
                    &first_wing_possible_values,
                    &mut made_changes,
                    Ghost(start),
                );
            }
        }
        made_changes
    }

    /// Tries every cell as second wing to `first_wing`, whose two candidates
    /// are `first_wing_possible_values`.
    fn with_first_wing(
        sudoku: &mut SudokuTemplate,
        first_wing: (usize, usize),
        first_wing_possible_values: &Vec<usize>,
        made_changes: &mut bool,
        Ghost(start): Ghost<Grid>,
    )
        requires
            old(sudoku).wf(),
            first_wing.0 < 9,
            first_wing.1 < 9,
            first_wing_possible_values.len() == 2,
            refines(start, old(sudoku)@),
            *old(made_changes) == (old(sudoku)@ != start),
        ensures
            final(sudoku)@ == ywing_seconds(
                old(sudoku)@,
                at(first_wing.0 as int, first_wing.1 as int),
                as_ints(first_wing_possible_values@),
                81,
            ),
            final(sudoku).wf(),
            refines(start, final(sudoku)@),
            *final(made_changes) == (final(sudoku)@ != start),
    {
        let ghost h0 = sudoku@;
        let ghost w1 = at(first_wing.0 as int, first_wing.1 as int);
        let ghost a = as_ints(first_wing_possible_values@);
        for w2 in 0..81usize
            invariant
                first_wing.0 < 9,
                first_wing.1 < 9,
                w1 == at(first_wing.0 as int, first_wing.1 as int),
                first_wing_possible_values.len() == 2,
                a == as_ints(first_wing_possible_values@),
                sudoku.wf(),
                sudoku@ == ywing_seconds(h0, w1, a, w2 as int),
                refines(start, sudoku@),
                *made_changes == (sudoku@ != start),
        {
            let second_wing: (usize, usize) = (w2 / 9, w2 % 9);
            assert(at(second_wing.0 as int, second_wing.1 as int) == w2);
            if !Self::are_cells_related(first_wing, second_wing) {
                let second_wing_possible_values = sudoku.cell_at(
                    second_wing.0,
                    second_wing.1,
                ).possible_values();
                if second_wing_possible_values.len() == 2 && Self::have_only_one_common_element(
                    first_wing_possible_values,
                    &second_wing_possible_values,
                ) {
                    let common_candidate = Self::get_common_element(
                        first_wing_possible_values,
                        &second_wing_possible_values,
                    );
                    let distinct_candidates: (usize, usize) = (
                        Self::first_other_than(first_wing_possible_values, common_candidate),
                        Self::first_other_than(&second_wing_possible_values, common_candidate),
                    );
                    Self::with_wings(
                        sudoku,
                        first_wing,
                        second_wing,
                        common_candidate,
                        distinct_candidates,
                        made_changes,
                        Ghost(start),
                    );
                }
            }
        }
    }

    /// Tries every cell as pivot between two wings and, for each pivot
    /// found, strikes the common candidate from all cells that see both
    /// wings.
    fn with_wings(
        sudoku: &mut SudokuTemplate,
        first_wing: (usize, usize),
        second_wing: (usize, usize),
        common_candidate: usize,
        distinct_candidates: (usize, usize),
        made_changes: &mut bool,
        Ghost(start): Ghost<Grid>,
    )
        requires
            old(sudoku).wf(),
            first_wing.0 < 9,
            first_wing.1 < 9,
            second_wing.0 < 9,
            second_wing.1 < 9,
            refines(start, old(sudoku)@),
            *old(made_changes) == (old(sudoku)@ != start),
        ensures
            final(sudoku)@ == ywing_pivots(
                old(sudoku)@,
                at(first_wing.0 as int, first_wing.1 as int),
                at(second_wing.0 as int, second_wing.1 as int),
                common_candidate as int,
                distinct_candidates.0 as int,
                distinct_candidates.1 as int,
                81,
            ),
            final(sudoku).wf(),
            refines(start, final(sudoku)@),
            *final(made_changes) == (final(sudoku)@ != start),
    {
        let ghost h1 = sudoku@;
        let ghost w1 = at(first_wing.0 as int, first_wing.1 as int);
        let ghost w2 = at(second_wing.0 as int, second_wing.1 as int);
        for m in 0..81usize
            invariant
                first_wing.0 < 9,
                first_wing.1 < 9,
                second_wing.0 < 9,
                second_wing.1 < 9,
                w1 == at(first_wing.0 as int, first_wing.1 as int),
                w2 == at(second_wing.0 as int, second_wing.1 as int),
                sudoku.wf(),
                sudoku@ == ywing_pivots(
                    h1,
                    w1,
                    w2,
                    common_candidate as int,
                    distinct_candidates.0 as int,
                    distinct_candidates.1 as int,
                    m as int,
                ),
                refines(start, sudoku@),
                *made_changes == (sudoku@ != start),
        {
            let middle: (usize, usize) = (m / 9, m % 9);
            assert(at(middle.0 as int, middle.1 as int) == m);
            if Self::is_middle(sudoku, middle, first_wing, second_wing, distinct_candidates) {
                Self::strike_seen_by_both(
                    sudoku,
                    first_wing,
                    second_wing,
                    common_candidate,
                    made_changes,
                    Ghost(start),
                );
            }
        }
    }

    /// Whether `middle` sees both wings and has exactly two candidates, both
    /// among `distinct_candidates`.
    fn is_middle(
        sudoku: &SudokuTemplate,
        middle: (usize, usize),
        first_wing: (usize, usize),
        second_wing: (usize, usize),
        distinct_candidates: (usize, usize),
    ) -> (b: bool)
        requires
            middle.0 < 9,
            middle.1 < 9,
            first_wing.0 < 9,
            first_wing.1 < 9,
            second_wing.0 < 9,
            second_wing.1 < 9,
        ensures
            b == is_pivot(
                sudoku@,
                at(middle.0 as int, middle.1 as int),
                at(first_wing.0 as int, first_wing.1 as int),
                at(second_wing.0 as int, second_wing.1 as int),
                distinct_candidates.0 as int,
                distinct_candidates.1 as int,
            ),
    {
        if !Self::are_cells_related(first_wing, middle) || !Self::are_cells_related(
            second_wing,
            middle,
        ) {
            return false;
        }
        let middle_possible_values = sudoku.cell_at(middle.0, middle.1).possible_values();
        if middle_possible_values.len() != 2 {
            return false;
        }
        let v0: usize = middle_possible_values[0];
        let v1: usize = middle_possible_values[1];
        proof {
            let cands = sudoku@[at(middle.0 as int, middle.1 as int)].cands;
            lemma_listing(cands);
            let mv = as_ints(middle_possible_values@);
            assert(mv[0] == v0 && mv[1] == v1);
            assert(members(mv).contains(v0 as int));
            assert(members(mv).contains(v1 as int));
            assert forall|x: int| 1 <= x <= 9 && cands.contains(x) implies x == v0 || x == v1 by {
                assert(members(mv).contains(x));
                let i = choose|i: int| 0 <= i < mv.len() && mv[i] == x;
                assert(i == 0 || i == 1);
            }
        }
        (v0 == distinct_candidates.0 || v0 == distinct_candidates.1) && (v1 == distinct_candidates.0
            || v1 == distinct_candidates.1)
    }

    /// Strikes `value` from every cell that sees both wings.
    fn strike_seen_by_both(
        sudoku: &mut SudokuTemplate,
        first_wing: (usize, usize),
        second_wing: (usize, usize),
        value: usize,
        made_changes: &mut bool,
        Ghost(start): Ghost<Grid>,
    )
        requires
            old(sudoku).wf(),
            first_wing.0 < 9,
            first_wing.1 < 9,
            second_wing.0 < 9,
            second_wing.1 < 9,
            refines(start, old(sudoku)@),
            *old(made_changes) == (old(sudoku)@ != start),
        ensures
            final(sudoku)@ == strike(
                old(sudoku)@,
                value as int,
                seen_by_both(
                    at(first_wing.0 as int, first_wing.1 as int),
                    at(second_wing.0 as int, second_wing.1 as int),
                ),
            ),
            final(sudoku).wf(),
            refines(start, final(sudoku)@),
            *final(made_changes) == (final(sudoku)@ != start),
    {
        let ghost h2 = sudoku@;
        let ghost w1 = at(first_wing.0 as int, first_wing.1 as int);
        let ghost w2 = at(second_wing.0 as int, second_wing.1 as int);
        for t in 0..81usize
            invariant
                first_wing.0 < 9,
                first_wing.1 < 9,
                second_wing.0 < 9,
                second_wing.1 < 9,
                w1 == at(first_wing.0 as int, first_wing.1 as int),
                w2 == at(second_wing.0 as int, second_wing.1 as int),
                sudoku.wf(),
                refines(start, sudoku@),
                *made_changes == (sudoku@ != start),
                forall|q: int|
                    0 <= q < 81 ==> #[trigger] sudoku@[q] == if q < t && seen_by_both(
                        w1,
                        w2,
                    ).contains(q) {
                        h2[q].remove(value as int)
                    } else {
                        h2[q]
                    },
        {
            let target: (usize, usize) = (t / 9, t % 9);
            assert(at(target.0 as int, target.1 as int) == t);
            if Self::are_cells_related(first_wing, target) && Self::are_cells_related(
                second_wing,
                target,
            ) {
                sudoku.strike_at(target.0, target.1, value, made_changes, Ghost(start));
            }
        }
        assert(sudoku@ =~= strike(h2, value as int, seen_by_both(w1, w2)));
    }

    /// Whether two cells, each given by row and column, share a row, a
    /// column or a box.
    pub fn are_cells_related(first: (usize, usize), second: (usize, usize)) -> (b: bool)
        ensures
            b == (first.0 == second.0 || first.1 == second.1 || (first.0 / 3 == second.0 / 3
                && first.1 / 3 == second.1 / 3)),
            first.0 < 9 && first.1 < 9 && second.0 < 9 && second.1 < 9 ==> b == related(
                at(first.0 as int, first.1 as int),
                at(second.0 as int, second.1 as int),
            ),
    {
        proof {
            if first.0 < 9 && first.1 < 9 && second.0 < 9 && second.1 < 9 {
                lemma_at_geometry(first.0 as int, first.1 as int);
                lemma_at_geometry(second.0 as int, second.1 as int);
            }
        }
        first.0 == second.0 || first.1 == second.1 || (first.0 / 3 == second.0 / 3 && first.1 / 3
            == second.1 / 3)
    }

    /// Whether two pairs of digits, the first two entries of each list, have
    /// exactly one digit in common.
    pub fn have_only_one_common_element(first: &Vec<usize>, second: &Vec<usize>) -> (b: bool)
        requires
            first.len() >= 2,
            second.len() >= 2,
        ensures
            b == one_common(as_ints(first@), as_ints(second@)),
    {
        (first[0] == second[0] && first[1] != second[1]) || (first[0] == second[1] && first[1]
            != second[0]) || (first[1] == second[0] && first[0] != second[1]) || (first[1]
            == second[1] && first[0] != second[0])
    }

    /// The first digit of the pair `first` that also occurs in the pair
    /// `second`, each pair being the first two entries of its list.
    pub fn get_common_element(first: &Vec<usize>, second: &Vec<usize>) -> (common: usize)
        requires
            first.len() >= 2,
            second.len() >= 2,
            first[0] == second[0] || first[0] == second[1] || first[1] == second[0] || first[1]
                == second[1],
        ensures
            common == common_of(as_ints(first@), as_ints(second@)),
    {
        if first[0] == second[0] || first[0] == second[1] {
            first[0]
        } else {
            first[1]
        }
    }

    /// The first digit of the pair `values` that is not `digit`.
    fn first_other_than(values: &Vec<usize>, digit: usize) -> (other: usize)
        requires
            values.len() == 2,
        ensures
            other == other_than(as_ints(values@), digit as int),
    {
        if values[0] != digit {
            values[0]
        } else {
            values[1]
        }
    }

    /// Applies the strategy once and says whether the grid changed.
    pub fn solve(&self, sudoku: &mut SudokuTemplate) -> (changed: bool)
        requires
            old(sudoku).wf(),
        ensures
            final(sudoku)@ == Self::pass(old(sudoku)@),
            changed == (final(sudoku)@ != old(sudoku)@),
            final(sudoku).wf(),
            refines(old(sudoku)@, final(sudoku)@),
    {
        Self::everywhere(sudoku)
    }

    /// The tier of this strategy.
    pub fn difficulty(&self) -> (tier: Difficulty)
        ensures
            tier == Difficulty::Hard,
    {
        Difficulty::Hard
    }
}

} // verus!
