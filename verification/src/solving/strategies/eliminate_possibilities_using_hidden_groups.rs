//! Elimination by hidden groups: where N digits that are missing in a row,
//! column or box are candidates in exactly N of its cells, these cells take
//! the N digits, so every other candidate leaves them.

use itertools::Itertools;
use vstd::prelude::*;
use vstd::set_lib::lemma_subset_equality;
use crate::model::{
    above, absent, confine, fits, grid_wf, lemma_above_fits, lemma_confine, lemma_confine_above,
    lemma_confine_fits, lemma_confine_quiet, lemma_listing, lemma_missing_same, lemma_refines_chain,
    lemma_refines_refl, lemma_refines_trans, members, missing_in, placed, refines, valid_completion,
    Grid,
};
use crate::traits::cell::{as_ints, digit_set, lemma_digit_set};
use crate::traits::difficulty::Difficulty;
use crate::traits::sudoku_template::{SudokuTemplate, UnitKind};

verus! {

/// The selections of `k` entries of `s`, each in the order of `s`, and all
/// of them in lexicographic order of the places selected.
pub open spec fn combinations(s: Seq<int>, k: int) -> Seq<Seq<int>>
    decreases s.len(),
{
    if k <= 0 {
        seq![Seq::empty()]
    } else if s.len() == 0 {
        Seq::empty()
    } else {
        combinations(s.drop_first(), k - 1).map_values(|c: Seq<int>| seq![s[0]] + c)
            + combinations(s.drop_first(), k)
    }
}

/// A selection from an ascending list has the length asked for, is
/// ascending, and holds entries of the list only.
proof fn lemma_combinations(s: Seq<int>, k: int, i: int)
    requires
        0 <= k,
        forall|a: int, b: int| 0 <= a < b < s.len() ==> s[a] < s[b],
        0 <= i < combinations(s, k).len(),
    ensures
        combinations(s, k)[i].len() == k,
        forall|a: int, b: int|
            0 <= a < b < k ==> combinations(s, k)[i][a] < combinations(s, k)[i][b],
        forall|a: int| 0 <= a < k ==> members(s).contains(#[trigger] combinations(s, k)[i][a]),
    decreases s.len(),
{
    if k > 0 && s.len() > 0 {
        let rest = s.drop_first();
        let with = combinations(rest, k - 1);
        let without = combinations(rest, k);
        let c = combinations(s, k)[i];
        if i < with.len() {
            lemma_combinations(rest, k - 1, i);
            let tail = with[i];
            assert(c == seq![s[0]] + tail);
            assert forall|a: int| 0 <= a < k implies members(s).contains(#[trigger] c[a]) by {
                if a == 0 {
                    assert(s[0] == c[0]);
                } else {
                    assert(c[a] == tail[a - 1]);
                    assert(members(rest).contains(tail[a - 1]));
                    let m = choose|m: int| 0 <= m < rest.len() && rest[m] == tail[a - 1];
                    assert(s[m + 1] == c[a]);
                }
            }
            assert forall|a: int, b: int| 0 <= a < b < k implies c[a] < c[b] by {
                assert(c[b] == tail[b - 1]);
                if a == 0 {
                    assert(members(rest).contains(tail[b - 1]));
                    let m = choose|m: int| 0 <= m < rest.len() && rest[m] == tail[b - 1];
                    assert(s[m + 1] == c[b]);
                    assert(s[0] < s[m + 1]);
                } else {
                    assert(c[a] == tail[a - 1]);
                }
            }
        } else {
            lemma_combinations(rest, k, i - with.len());
            let d = without[i - with.len()];
            assert(c == d);
            assert forall|a: int| 0 <= a < k implies members(s).contains(#[trigger] c[a]) by {
                assert(members(rest).contains(d[a]));
                let m = choose|m: int| 0 <= m < rest.len() && rest[m] == d[a];
                assert(s[m + 1] == c[a]);
            }
        }
    }
}

/// The selections of `k` entries of `values`, as `Itertools::combinations`
/// yields them: it walks the selections of places in lexicographic order
/// and hands out the entries at these places. Verus takes this on trust.
#[verifier::external_body]
fn combinations_of(values: &Vec<usize>, k: usize) -> (combos: Vec<Vec<usize>>)
    ensures
        combos.len() == combinations(as_ints(values@), k as int).len(),
        forall|i: int|
            0 <= i < combos.len() ==> as_ints(#[trigger] combos[i]@) == combinations(
                as_ints(values@),
                k as int,
            )[i],
{
    values.iter().copied().combinations(k).collect()
}

/// The cell at `q` admits at least one digit of `allowed`.
pub open spec fn holds_any(g: Grid, q: int, allowed: Set<int>) -> bool {
    !g[q].cands.disjoint(allowed)
}

/// How many of the first `n` cells of the `i`-th unit of a kind admit at
/// least one digit of `allowed`.
pub open spec fn count_holders(g: Grid, kind: UnitKind, i: int, allowed: Set<int>, n: int) -> int
    decreases n,
{
    if n <= 0 {
        0
    } else {
        count_holders(g, kind, i, allowed, n - 1) + if holds_any(g, kind.cell(i, n - 1), allowed) {
            1int
        } else {
            0int
        }
    }
}

/// The cells of the `i`-th unit of a kind that admit at least one digit of
/// `allowed`.
pub open spec fn holders(g: Grid, kind: UnitKind, i: int, allowed: Set<int>) -> Set<int> {
    Set::new(|q: int| kind.index_of(q) == i && holds_any(g, q, allowed))
}

/// The grid after the selection `combo` out of `total` missing digits was
/// tried in a unit: where as many cells admit any of its digits as it has
/// digits, and digits are missing besides, these cells are cut down to it.
pub open spec fn group_step(h: Grid, kind: UnitKind, i: int, combo: Seq<int>, total: int) -> Grid {
    if count_holders(h, kind, i, members(combo), 9) == combo.len() && combo.len() != total {
        confine(h, members(combo), holders(h, kind, i, members(combo)))
    } else {
        h
    }
}

/// The grid after the first `n` selections of `combos` were tried.
pub open spec fn group_combos(
    h: Grid,
    kind: UnitKind,
    i: int,
    combos: Seq<Seq<int>>,
    total: int,
    n: int,
) -> Grid
    decreases n,
{
    if n <= 0 {
        h
    } else {
        group_step(group_combos(h, kind, i, combos, total, n - 1), kind, i, combos[n - 1], total)
    }
}

/// The grid after all selections of 2 digits of `values`, then of 3, and so
/// on up to `upto`, were tried.
pub open spec fn group_sizes(h: Grid, kind: UnitKind, i: int, values: Seq<int>, upto: int) -> Grid
    decreases upto,
{
    if upto < 2 {
        h
    } else {
        let combos = combinations(values, upto);
        group_combos(
            group_sizes(h, kind, i, values, upto - 1),
            kind,
            i,
            combos,
            values.len() as int,
            combos.len() as int,
        )
    }
}

/// The grid after the `i`-th unit of a kind was searched for hidden pairs,
/// triples and quads among the digits missing in it.
pub open spec fn group_unit(h: Grid, kind: UnitKind, i: int) -> Grid {
    let values = missing_in(h, kind.cells(i));
    group_sizes(h, kind, i, values, if values.len() < 4 { values.len() as int } else { 4 })
}

/// The grid after the first `n` units of a kind were searched.
pub open spec fn group_units(g: Grid, kind: UnitKind, n: int) -> Grid
    decreases n,
{
    if n <= 0 {
        g
    } else {
        group_unit(group_units(g, kind, n - 1), kind, n - 1)
    }
}

/// The places of the first `n` cells of a unit that admit a digit of
/// `allowed`.
pub open spec fn holder_places(g: Grid, kind: UnitKind, i: int, allowed: Set<int>, n: int) -> Set<
    int,
> {
    Set::new(|j: int| 0 <= j < n && holds_any(g, kind.cell(i, j), allowed))
}

/// Strategy that looks for hidden pairs, triples and quads in rows, columns
/// and boxes.
pub struct EliminatePossibilitiesUsingHiddenGroups;

impl EliminatePossibilitiesUsingHiddenGroups {
    /// What one application does: the search in rows; where that changed
    /// nothing, the search in columns; and where that changed nothing
    /// either, the search in boxes.
    pub open spec fn pass(g: Grid) -> Grid {
        if group_units(g, UnitKind::Row, 9) != g {
            group_units(g, UnitKind::Row, 9)
        } else if group_units(g, UnitKind::Column, 9) != g {
            group_units(g, UnitKind::Column, 9)
        } else {
            group_units(g, UnitKind::Square, 9)
        }
    }

    /// The count of holders is the number of places with a holder.
    proof fn lemma_count_holders(g: Grid, kind: UnitKind, i: int, allowed: Set<int>, n: int)
        requires
            0 <= n <= 9,
        ensures
            holder_places(g, kind, i, allowed, n).finite(),
            holder_places(g, kind, i, allowed, n).len() == count_holders(g, kind, i, allowed, n),
        decreases n,
    {
        if n == 0 {
            assert(holder_places(g, kind, i, allowed, 0) =~= Set::<int>::empty());
        } else {
            Self::lemma_count_holders(g, kind, i, allowed, n - 1);
            let prev = holder_places(g, kind, i, allowed, n - 1);
            if holds_any(g, kind.cell(i, n - 1), allowed) {
                assert(holder_places(g, kind, i, allowed, n) =~= prev.insert(n - 1));
            } else {
                assert(holder_places(g, kind, i, allowed, n) =~= prev);
            }
        }
    }

    /// Where as many cells admit a digit of the selection as it has digits,
    /// each of these cells holds a digit of the selection in every valid
    /// completion that the grid admits.
    proof fn lemma_holders_hold(h: Grid, kind: UnitKind, i: int, combo: Seq<int>, s: Seq<int>)
        requires
            0 <= i < 9,
            forall|a: int| 0 <= a < combo.len() ==> 1 <= #[trigger] combo[a] <= 9,
            forall|a: int, b: int| 0 <= a < b < combo.len() ==> combo[a] < combo[b],
            count_holders(h, kind, i, members(combo), 9) == combo.len(),
            valid_completion(s),
            fits(h, s),
        ensures
            forall|q: int|
                0 <= q < 81 && holders(h, kind, i, members(combo)).contains(q) ==> members(
                    combo,
                ).contains(s[q]),
    {
        let allowed = members(combo);
        let k = combo.len() as int;
        let region = holders(h, kind, i, allowed);
        kind.lemma_geometry();
        let f = Seq::new(
            combo.len(),
            |t: int| choose|j: int| 0 <= j < 9 && s[#[trigger] kind.cell(i, j)] == combo[t],
        );
        let all = holder_places(h, kind, i, allowed, 9);
        Self::lemma_count_holders(h, kind, i, allowed, 9);
        assert forall|t: int| 0 <= t < k implies 0 <= #[trigger] f[t] < 9 && s[kind.cell(i, f[t])]
            == combo[t] && all.contains(f[t]) by {
            kind.lemma_has(s, i, combo[t]);
            let q = kind.cell(i, f[t]);
            assert(h[q].cands.contains(s[q]));
            assert(allowed.contains(combo[t]));
        }
        assert(f.no_duplicates()) by {
            assert forall|a: int, b: int| 0 <= a < k && 0 <= b < k && a != b implies f[a]
                != f[b] by {
                assert(s[kind.cell(i, f[a])] == combo[a]);
                assert(s[kind.cell(i, f[b])] == combo[b]);
                if a < b {
                    assert(combo[a] < combo[b]);
                } else {
                    assert(combo[b] < combo[a]);
                }
            }
        }
        f.unique_seq_to_set();
        vstd::seq_lib::seq_to_set_is_finite(f);
        assert(f.to_set().subset_of(all)) by {
            assert forall|j: int| f.to_set().contains(j) implies all.contains(j) by {
                let t = choose|t: int| 0 <= t < f.len() && f[t] == j;
                assert(all.contains(f[t]));
            }
        }
        lemma_subset_equality(f.to_set(), all);
        assert forall|q: int| 0 <= q < 81 && region.contains(q) implies allowed.contains(s[q]) by {
            let j = kind.place_of(q);
            assert(kind.cell(i, j) == q);
            assert(all.contains(j));
            assert(f.to_set().contains(j));
            let t = choose|t: int| 0 <= t < f.len() && f[t] == j;
            assert(s[q] == combo[t]);
        }
    }

    /// Trying a selection is a deduction, and it keeps every completion
    /// that was possible.
    proof fn lemma_step(h: Grid, kind: UnitKind, i: int, combo: Seq<int>, total: int, s: Seq<int>)
        requires
            grid_wf(h),
            0 <= i < 9,
            forall|a: int| 0 <= a < combo.len() ==> 1 <= #[trigger] combo[a] <= 9,
            forall|a: int, b: int| 0 <= a < b < combo.len() ==> combo[a] < combo[b],
        ensures
            grid_wf(group_step(h, kind, i, combo, total)),
            refines(h, group_step(h, kind, i, combo, total)),
            valid_completion(s) && fits(h, s) ==> fits(group_step(h, kind, i, combo, total), s),
    {
        let allowed = members(combo);
        let k = combo.len() as int;
        if count_holders(h, kind, i, allowed, 9) == k && k != total {
            let region = holders(h, kind, i, allowed);
            lemma_confine(h, allowed, region);
            if valid_completion(s) && fits(h, s) {
                Self::lemma_holders_hold(h, kind, i, combo, s);
                lemma_confine_fits(h, allowed, region, s);
            }
        } else {
            lemma_refines_refl(h);
        }
    }

    /// The count of holders depends only on which cells are holders.
    proof fn lemma_count_same(
        g: Grid,
        t: Grid,
        kind: UnitKind,
        i: int,
        allowed: Set<int>,
        n: int,
    )
        requires
            0 <= n <= 9,
            forall|j: int|
                0 <= j < 9 ==> holds_any(g, #[trigger] kind.cell(i, j), allowed) == holds_any(
                    t,
                    kind.cell(i, j),
                    allowed,
                ),
        ensures
            count_holders(g, kind, i, allowed, n) == count_holders(t, kind, i, allowed, n),
        decreases n,
    {
        if n > 0 {
            Self::lemma_count_same(g, t, kind, i, allowed, n - 1);
            assert(holds_any(g, kind.cell(i, n - 1), allowed) == holds_any(
                t,
                kind.cell(i, n - 1),
                allowed,
            ));
        }
    }

    /// Trying a selection keeps a grid above a grid that the same try
    /// leaves as it is and that admits a valid completion.
    proof fn lemma_step_above(
        h: Grid,
        t: Grid,
        kind: UnitKind,
        i: int,
        combo: Seq<int>,
        total: int,
        s: Seq<int>,
    )
        requires
            grid_wf(h),
            grid_wf(t),
            above(h, t),
            0 <= i < 9,
            forall|a: int| 0 <= a < combo.len() ==> 1 <= #[trigger] combo[a] <= 9,
            forall|a: int, b: int| 0 <= a < b < combo.len() ==> combo[a] < combo[b],
            group_step(t, kind, i, combo, total) == t,
            valid_completion(s),
            fits(t, s),
        ensures
            grid_wf(group_step(h, kind, i, combo, total)),
            above(group_step(h, kind, i, combo, total), t),
    {
        let allowed = members(combo);
        let k = combo.len() as int;
        if count_holders(h, kind, i, allowed, 9) == k && k != total {
            kind.lemma_geometry();
            lemma_above_fits(h, t, s);
            Self::lemma_holders_hold(h, kind, i, combo, s);
            assert forall|q: int| 0 <= q < 81 implies holds_any(h, q, allowed) == holds_any(
                t,
                q,
                allowed,
            ) || kind.index_of(q) != i by {
                assert(h[q].narrows_to(t[q]));
                if kind.index_of(q) == i {
                    if holds_any(h, q, allowed) {
                        assert(holders(h, kind, i, allowed).contains(q));
                        assert(t[q].cands.contains(s[q]) && allowed.contains(s[q]));
                    }
                    if holds_any(t, q, allowed) {
                        let e = choose|e: int| t[q].cands.contains(e) && allowed.contains(e);
                        assert(h[q].cands.contains(e) && allowed.contains(e));
                    }
                }
            }
            assert forall|j: int| 0 <= j < 9 implies holds_any(
                h,
                #[trigger] kind.cell(i, j),
                allowed,
            ) == holds_any(t, kind.cell(i, j), allowed) by {
                assert(kind.index_of(kind.cell(i, j)) == i);
            }
            Self::lemma_count_same(h, t, kind, i, allowed, 9);
            lemma_confine_quiet(t, allowed, holders(t, kind, i, allowed));
            lemma_confine_above(h, t, allowed, holders(h, kind, i, allowed));
        }
    }

    /// A grid that trying a list of selections in one unit leaves as it is was
    /// left as it is by every step of it.
    proof fn lemma_combos_quiet(
        t: Grid,
        kind: UnitKind,
        i: int,
        values: Seq<int>,
        size: int,
        total: int,
        n: int,
        k: int,
    )
        requires
            grid_wf(t),
            0 <= i < 9,
            0 <= size,
            forall|a: int| 0 <= a < values.len() ==> 1 <= #[trigger] values[a] <= 9,
            forall|a: int, b: int| 0 <= a < b < values.len() ==> values[a] < values[b],
            0 <= k <= n <= combinations(values, size).len(),
            group_combos(t, kind, i, combinations(values, size), total, n) == t,
        ensures
            group_combos(t, kind, i, combinations(values, size), total, k) == t,
        decreases n - k,
    {
        if k < n {
            let combos = combinations(values, size);
            Self::lemma_combos(t, kind, i, values, size, total, n - 1, Seq::empty());
            Self::lemma_combos(t, kind, i, values, size, total, n, Seq::empty());
            let h = group_combos(t, kind, i, combos, total, n - 1);
            let combo = combos[n - 1];
            lemma_combinations(values, size, n - 1);
            assert forall|a: int| 0 <= a < combo.len() implies 1 <= #[trigger] combo[a] <= 9 by {
                assert(members(values).contains(combo[a]));
            }
            Self::lemma_step(h, kind, i, combo, total, Seq::empty());
            lemma_refines_chain(t, h, group_combos(t, kind, i, combos, total, n));
            Self::lemma_combos_quiet(t, kind, i, values, size, total, n - 1, k);
        }
    }

    /// A grid that trying the selections of every size in one unit leaves as it
    /// is was left as it is by every step of it.
    proof fn lemma_sizes_quiet(t: Grid, kind: UnitKind, i: int, values: Seq<int>, upto: int, k: int)
        requires
            grid_wf(t),
            0 <= i < 9,
            forall|a: int| 0 <= a < values.len() ==> 1 <= #[trigger] values[a] <= 9,
            forall|a: int, b: int| 0 <= a < b < values.len() ==> values[a] < values[b],
            k <= upto,
            group_sizes(t, kind, i, values, upto) == t,
        ensures
            group_sizes(t, kind, i, values, k) == t,
        decreases upto - k,
    {
        if k < upto && upto >= 2 {
            Self::lemma_sizes(t, kind, i, values, upto - 1, Seq::empty());
            let h = group_sizes(t, kind, i, values, upto - 1);
            let combos = combinations(values, upto);
            Self::lemma_combos(
                h,
                kind,
                i,
                values,
                upto,
                values.len() as int,
                combos.len() as int,
                Seq::empty(),
            );
            lemma_refines_chain(t, h, group_sizes(t, kind, i, values, upto));
            Self::lemma_sizes_quiet(t, kind, i, values, upto - 1, k);
        }
    }

    /// A grid that the search in the first units of a kind leaves as it is was
    /// left as it is by every step of it.
    proof fn lemma_units_quiet(t: Grid, kind: UnitKind, n: int, k: int)
        requires
            grid_wf(t),
            0 <= k <= n <= 9,
            group_units(t, kind, n) == t,
        ensures
            group_units(t, kind, k) == t,
        decreases n - k,
    {
        if k < n {
            Self::lemma_units(t, kind, n - 1, Seq::empty());
            Self::lemma_units(t, kind, n, Seq::empty());
            let h = group_units(t, kind, n - 1);
            Self::lemma_units(h, kind, 0, Seq::empty());
            Self::lemma_unit(h, kind, n - 1);
            lemma_refines_chain(t, h, group_units(t, kind, n));
            Self::lemma_units_quiet(t, kind, n - 1, k);
        }
    }

    /// The search in one unit is a chain of deductions.
    proof fn lemma_unit(h: Grid, kind: UnitKind, i: int)
        requires
            grid_wf(h),
            0 <= i < 9,
        ensures
            grid_wf(group_unit(h, kind, i)),
            refines(h, group_unit(h, kind, i)),
    {
        let values = missing_in(h, kind.cells(i));
        lemma_listing(absent(placed(h, kind.cells(i))));
        Self::lemma_sizes(
            h,
            kind,
            i,
            values,
            if values.len() < 4 {
                values.len() as int
            } else {
                4
            },
            Seq::empty(),
        );
    }

    /// Trying a list of selections in one unit keeps a grid above a grid that
    /// it leaves as it is and that admits a valid completion.
    proof fn lemma_combos_above(
        g: Grid,
        t: Grid,
        kind: UnitKind,
        i: int,
        values: Seq<int>,
        size: int,
        total: int,
        n: int,
        s: Seq<int>,
    )
        requires
            grid_wf(g),
            grid_wf(t),
            above(g, t),
            0 <= i < 9,
            0 <= size,
            forall|a: int| 0 <= a < values.len() ==> 1 <= #[trigger] values[a] <= 9,
            forall|a: int, b: int| 0 <= a < b < values.len() ==> values[a] < values[b],
            0 <= n <= combinations(values, size).len(),
            group_combos(
                t,
                kind,
                i,
                combinations(values, size),
                total,
                combinations(values, size).len() as int,
            ) == t,
            valid_completion(s),
            fits(t, s),
        ensures
            grid_wf(group_combos(g, kind, i, combinations(values, size), total, n)),
            above(group_combos(g, kind, i, combinations(values, size), total, n), t),
        decreases n,
    {
        if n > 0 {
            let combos = combinations(values, size);
            Self::lemma_combos_above(g, t, kind, i, values, size, total, n - 1, s);
            let h = group_combos(g, kind, i, combos, total, n - 1);
            let combo = combos[n - 1];
            lemma_combinations(values, size, n - 1);
            assert forall|a: int| 0 <= a < combo.len() implies 1 <= #[trigger] combo[a] <= 9 by {
                assert(members(values).contains(combo[a]));
            }
            Self::lemma_combos_quiet(t, kind, i, values, size, total, combos.len() as int, n);
            Self::lemma_combos_quiet(t, kind, i, values, size, total, combos.len() as int, n - 1);
            Self::lemma_step_above(h, t, kind, i, combo, total, s);
        }
    }

    /// Trying the selections of every size in one unit keeps a grid above a
    /// grid that it leaves as it is and that admits a valid completion.
    proof fn lemma_sizes_above(
        g: Grid,
        t: Grid,
        kind: UnitKind,
        i: int,
        values: Seq<int>,
        top: int,
        upto: int,
        s: Seq<int>,
    )
        requires
            grid_wf(g),
            grid_wf(t),
            above(g, t),
            0 <= i < 9,
            forall|a: int| 0 <= a < values.len() ==> 1 <= #[trigger] values[a] <= 9,
            forall|a: int, b: int| 0 <= a < b < values.len() ==> values[a] < values[b],
            upto <= top,
            group_sizes(t, kind, i, values, top) == t,
            valid_completion(s),
            fits(t, s),
        ensures
            grid_wf(group_sizes(g, kind, i, values, upto)),
            above(group_sizes(g, kind, i, values, upto), t),
        decreases upto,
    {
        if upto >= 2 {
            Self::lemma_sizes_above(g, t, kind, i, values, top, upto - 1, s);
            let h = group_sizes(g, kind, i, values, upto - 1);
            let combos = combinations(values, upto);
            Self::lemma_sizes_quiet(t, kind, i, values, top, upto);
            Self::lemma_sizes_quiet(t, kind, i, values, top, upto - 1);
            Self::lemma_combos_above(
                h,
                t,
                kind,
                i,
                values,
                upto,
                values.len() as int,
                combos.len() as int,
                s,
            );
        }
    }

    /// The search in the first units of a kind keeps a grid above a grid that
    /// it leaves as it is and that admits a valid completion.
    proof fn lemma_units_above(g: Grid, t: Grid, kind: UnitKind, n: int, s: Seq<int>)
        requires
            grid_wf(g),
            grid_wf(t),
            above(g, t),
            0 <= n <= 9,
            group_units(t, kind, 9) == t,
            valid_completion(s),
            fits(t, s),
        ensures
            grid_wf(group_units(g, kind, n)),
            above(group_units(g, kind, n), t),
        decreases n,
    {
        if n > 0 {
            Self::lemma_units_above(g, t, kind, n - 1, s);
            let h = group_units(g, kind, n - 1);
            kind.lemma_geometry();
            lemma_missing_same(h, t, kind.cells(n - 1));
            let values = missing_in(t, kind.cells(n - 1));
            lemma_listing(absent(placed(t, kind.cells(n - 1))));
            Self::lemma_units_quiet(t, kind, 9, n);
            Self::lemma_units_quiet(t, kind, 9, n - 1);
            let top = if values.len() < 4 {
                values.len() as int
            } else {
                4
            };
            assert(group_sizes(t, kind, n - 1, values, top) == t);
            Self::lemma_sizes_above(h, t, kind, n - 1, values, top, top, s);
        }
    }

    /// One application keeps a grid above a grid that the strategy leaves
    /// as it is and that admits a valid completion.
    pub proof fn lemma_above(g: Grid, t: Grid, s: Seq<int>)
        requires
            grid_wf(g),
            grid_wf(t),
            above(g, t),
            Self::pass(t) == t,
            valid_completion(s),
            fits(t, s),
        ensures
            above(Self::pass(g), t),
    {
        Self::lemma_units_above(g, t, UnitKind::Row, 9, s);
        Self::lemma_units_above(g, t, UnitKind::Column, 9, s);
        Self::lemma_units_above(g, t, UnitKind::Square, 9, s);
    }

    /// Trying a list of selections in one unit is a chain of deductions, and it
    /// keeps every completion that was possible.
    proof fn lemma_combos(
        h: Grid,
        kind: UnitKind,
        i: int,
        values: Seq<int>,
        size: int,
        total: int,
        n: int,
        s: Seq<int>,
    )
        requires
            grid_wf(h),
            0 <= i < 9,
            0 <= size,
            forall|a: int| 0 <= a < values.len() ==> 1 <= #[trigger] values[a] <= 9,
            forall|a: int, b: int| 0 <= a < b < values.len() ==> values[a] < values[b],
            0 <= n <= combinations(values, size).len(),
        ensures
            grid_wf(group_combos(h, kind, i, combinations(values, size), total, n)),
            refines(h, group_combos(h, kind, i, combinations(values, size), total, n)),
            valid_completion(s) && fits(h, s) ==> fits(
                group_combos(h, kind, i, combinations(values, size), total, n),
                s,
            ),
        decreases n,
    {
        if n > 0 {
            let combos = combinations(values, size);
            Self::lemma_combos(h, kind, i, values, size, total, n - 1, s);
            let h1 = group_combos(h, kind, i, combos, total, n - 1);
            let combo = combos[n - 1];
            lemma_combinations(values, size, n - 1);
            assert forall|a: int| 0 <= a < combo.len() implies 1 <= #[trigger] combo[a] <= 9 by {
                assert(members(values).contains(combo[a]));
            }
            Self::lemma_step(h1, kind, i, combo, total, s);
            lemma_refines_trans(h, h1, group_combos(h, kind, i, combos, total, n));
        } else {
            lemma_refines_refl(h);
        }
    }

    /// Trying the selections of every size in one unit is a chain of
    /// deductions, and it keeps every completion that was possible.
    proof fn lemma_sizes(h: Grid, kind: UnitKind, i: int, values: Seq<int>, upto: int, s: Seq<int>)
        requires
            grid_wf(h),
            0 <= i < 9,
            forall|a: int| 0 <= a < values.len() ==> 1 <= #[trigger] values[a] <= 9,
            forall|a: int, b: int| 0 <= a < b < values.len() ==> values[a] < values[b],
        ensures
            grid_wf(group_sizes(h, kind, i, values, upto)),
            refines(h, group_sizes(h, kind, i, values, upto)),
            valid_completion(s) && fits(h, s) ==> fits(group_sizes(h, kind, i, values, upto), s),
        decreases upto,
    {
        if upto >= 2 {
            Self::lemma_sizes(h, kind, i, values, upto - 1, s);
            let h1 = group_sizes(h, kind, i, values, upto - 1);
            let combos = combinations(values, upto);
            Self::lemma_combos(
                h1,
                kind,
                i,
                values,
                upto,
                values.len() as int,
                combos.len() as int,
                s,
            );
            lemma_refines_trans(h, h1, group_sizes(h, kind, i, values, upto));
        } else {
            lemma_refines_refl(h);
        }
    }

    /// The search in the first units of a kind is a chain of deductions, and it
    /// keeps every completion that was possible.
    proof fn lemma_units(g: Grid, kind: UnitKind, n: int, s: Seq<int>)
        requires
            grid_wf(g),
            0 <= n <= 9,
        ensures
            grid_wf(group_units(g, kind, n)),
            refines(g, group_units(g, kind, n)),
            valid_completion(s) && fits(g, s) ==> fits(group_units(g, kind, n), s),
        decreases n,
    {
        if n > 0 {
            Self::lemma_units(g, kind, n - 1, s);
            let h = group_units(g, kind, n - 1);
            let values = missing_in(h, kind.cells(n - 1));
            lemma_listing(absent(placed(h, kind.cells(n - 1))));
            Self::lemma_sizes(
                h,
                kind,
                n - 1,
                values,
                if values.len() < 4 {
                    values.len() as int
                } else {
                    4
                },
                s,
            );
            lemma_refines_trans(g, h, group_units(g, kind, n));
        } else {
            lemma_refines_refl(g);
        }
    }

    /// One application is a chain of deductions, and it keeps every
    /// completion that was possible.
    pub proof fn lemma_pass(g: Grid, s: Seq<int>)
        requires
            grid_wf(g),
        ensures
            grid_wf(Self::pass(g)),
            refines(g, Self::pass(g)),
            valid_completion(s) && fits(g, s) ==> fits(Self::pass(g), s),
    {
        Self::lemma_units(g, UnitKind::Row, 9, s);
        Self::lemma_units(g, UnitKind::Column, 9, s);
        Self::lemma_units(g, UnitKind::Square, 9, s);
    }

    /// Tries one selection of missing digits in the `i`-th unit of a kind.
    fn with_combination(
        sudoku: &mut SudokuTemplate,
        kind: UnitKind,
        i: usize,
        combination: &Vec<usize>,
        total: usize,
        made_changes: &mut bool,
        Ghost(start): Ghost<Grid>,
    )
        requires
            old(sudoku).wf(),
            i < 9,
            forall|a: int| 0 <= a < combination.len() ==> 1 <= #[trigger] combination[a] <= 9,
            refines(start, old(sudoku)@),
            *old(made_changes) == (old(sudoku)@ != start),
        ensures
            final(sudoku)@ == group_step(
                old(sudoku)@,
                kind,
                i as int,
                as_ints(combination@),
                total as int,
            ),
            final(sudoku).wf(),
            refines(start, final(sudoku)@),
            *final(made_changes) == (final(sudoku)@ != start),
    {
        let ghost h = sudoku@;
        let ghost allowed = members(as_ints(combination@));
        proof {
            lemma_digit_set(combination@);
        }
        let mut containing: usize = 0;
        for y in 0..9usize
            invariant
                i < 9,
                h == sudoku@,
                allowed == digit_set(combination@),
                forall|a: int| 0 <= a < combination.len() ==> 1 <= #[trigger] combination[a] <= 9,
                containing == count_holders(h, kind, i as int, allowed, y as int),
                containing <= y,
        {
            let (row, col) = kind.coords(i, y);
            if sudoku.cell_at(row, col).contains_any_possibilities(combination.as_slice()) {
                containing += 1;
            }
        }
        if combination.len() == containing && combination.len() != total {
            let ghost region = holders(h, kind, i as int, allowed);
            proof {
                kind.lemma_geometry();
            }
            for y in 0..9usize
                invariant
                    i < 9,
                    allowed == digit_set(combination@),
                    region == holders(h, kind, i as int, allowed),
                    forall|a: int|
                        0 <= a < combination.len() ==> 1 <= #[trigger] combination[a] <= 9,
                    sudoku.wf(),
                    refines(start, sudoku@),
                    *made_changes == (sudoku@ != start),
                    forall|q: int|
                        0 <= q < 81 ==> #[trigger] sudoku@[q] == if region.contains(q)
                            && kind.place_of(q) < y {
                            h[q].keep_only(allowed)
                        } else {
                            h[q]
                        },
            {
                proof {
                    kind.lemma_geometry();
                }
                let (row, col) = kind.coords(i, y);
                if sudoku.cell_at(row, col).contains_any_possibilities(combination.as_slice()) {
                    sudoku.keep_at(row, col, combination.as_slice(), made_changes, Ghost(start));
                }
            }
            assert(sudoku@ =~= confine(h, allowed, region));
        }
    }

    /// Searches the `i`-th unit of a kind for hidden pairs, triples and
    /// quads among the digits missing in it.
    fn in_unit(
        sudoku: &mut SudokuTemplate,
        kind: UnitKind,
        i: usize,
        made_changes: &mut bool,
        Ghost(start): Ghost<Grid>,
    )
        requires
            old(sudoku).wf(),
            i < 9,
            refines(start, old(sudoku)@),
            *old(made_changes) == (old(sudoku)@ != start),
        ensures
            final(sudoku)@ == group_unit(old(sudoku)@, kind, i as int),
            final(sudoku).wf(),
            refines(start, final(sudoku)@),
            *final(made_changes) == (final(sudoku)@ != start),
    {
        let missing_values = sudoku.missing_in_unit(kind, i);
        let ghost h0 = sudoku@;
        let ghost values = as_ints(missing_values@);
        proof {
            lemma_listing(absent(placed(h0, kind.cells(i as int))));
        }
        let limit: usize = if missing_values.len() < 4 {
            missing_values.len()
        } else {
            4
        };
        let mut combination_len: usize = 2;
        while combination_len <= limit
            invariant
                i < 9,
                limit <= 4,
                2 <= combination_len,
                limit >= 2 ==> combination_len <= limit + 1,
                limit < 2 ==> combination_len == 2,
                values == as_ints(missing_values@),
                forall|a: int| 0 <= a < values.len() ==> 1 <= #[trigger] values[a] <= 9,
                forall|a: int, b: int| 0 <= a < b < values.len() ==> values[a] < values[b],
                sudoku.wf(),
                sudoku@ == group_sizes(h0, kind, i as int, values, combination_len - 1),
                refines(start, sudoku@),
                *made_changes == (sudoku@ != start),
            decreases limit + 1 - combination_len,
        {
            let combos = combinations_of(&missing_values, combination_len);
            let ghost h1 = sudoku@;
            let ghost selections = combinations(values, combination_len as int);
            for c in 0..combos.len()
                invariant
                    i < 9,
                    values == as_ints(missing_values@),
                    forall|a: int| 0 <= a < values.len() ==> 1 <= #[trigger] values[a] <= 9,
                    forall|a: int, b: int| 0 <= a < b < values.len() ==> values[a] < values[b],
                    selections == combinations(values, combination_len as int),
                    combos.len() == selections.len(),
                    forall|k: int|
                        0 <= k < combos.len() ==> as_ints(#[trigger] combos[k]@) == selections[k],
                    sudoku.wf(),
                    sudoku@ == group_combos(
                        h1,
                        kind,
                        i as int,
                        selections,
                        missing_values.len() as int,
                        c as int,
                    ),
                    refines(start, sudoku@),
                    *made_changes == (sudoku@ != start),
            {
                let combination = &combos[c];
                proof {
                    lemma_combinations(values, combination_len as int, c as int);
                    let combo = as_ints(combination@);
                    assert forall|a: int| 0 <= a < combination.len() implies 1
                        <= #[trigger] combination[a] <= 9 by {
                        assert(combo[a] == combination[a]);
                        assert(members(values).contains(combo[a]));
                    }
                }
                Self::with_combination(
                    sudoku,
                    kind,
                    i,
                    combination,
                    missing_values.len(),
                    made_changes,
                    Ghost(start),
                );
            }
            combination_len += 1;
        }
        proof {
            if limit < 2 {
                assert(sudoku@ == group_sizes(h0, kind, i as int, values, limit as int));
            }
        }
    }

    /// Searches every unit of a kind.
    fn in_units(sudoku: &mut SudokuTemplate, kind: UnitKind) -> (made_changes: bool)
        requires
            old(sudoku).wf(),
        ensures
            final(sudoku)@ == group_units(old(sudoku)@, kind, 9),
            made_changes == (final(sudoku)@ != old(sudoku)@),
            final(sudoku).wf(),
            refines(old(sudoku)@, final(sudoku)@),
    {
        let mut made_changes = false;
        let ghost start = sudoku@;
        proof {
            lemma_refines_refl(start);
        }
        for i in 0..9usize
            invariant
                sudoku.wf(),
                sudoku@ == group_units(start, kind, i as int),
                refines(start, sudoku@),
                made_changes == (sudoku@ != start),
        {
            Self::in_unit(sudoku, kind, i, &mut made_changes, Ghost(start));
        }
        made_changes
    }

    /// Eliminates possibilities by identifying hidden groups and the cells
    /// that contain them in rows.
    pub fn in_rows(sudoku: &mut SudokuTemplate) -> (made_changes: bool)
        requires
            old(sudoku).wf(),
        ensures
            final(sudoku)@ == group_units(old(sudoku)@, UnitKind::Row, 9),
            made_changes == (final(sudoku)@ != old(sudoku)@),
            final(sudoku).wf(),
            refines(old(sudoku)@, final(sudoku)@),
    {
        Self::in_units(sudoku, UnitKind::Row)
    }

    /// Eliminates possibilities by identifying hidden groups and the cells
    /// that contain them in columns.
    pub fn in_columns(sudoku: &mut SudokuTemplate) -> (made_changes: bool)
        requires
            old(sudoku).wf(),
        ensures
            final(sudoku)@ == group_units(old(sudoku)@, UnitKind::Column, 9),
            made_changes == (final(sudoku)@ != old(sudoku)@),
            final(sudoku).wf(),
            refines(old(sudoku)@, final(sudoku)@),
    {
        Self::in_units(sudoku, UnitKind::Column)
    }

    /// Eliminates possibilities by identifying hidden groups and the cells
    /// that contain them in boxes.
    pub fn in_squares(sudoku: &mut SudokuTemplate) -> (made_changes: bool)
        requires
            old(sudoku).wf(),
        ensures
            final(sudoku)@ == group_units(old(sudoku)@, UnitKind::Square, 9),
            made_changes == (final(sudoku)@ != old(sudoku)@),
            final(sudoku).wf(),
            refines(old(sudoku)@, final(sudoku)@),
    {
        Self::in_units(sudoku, UnitKind::Square)
    }

    /// Applies the strategy once and says whether the grid changed.
    pub fn solve(&self, sudoku: &mut SudokuTemplate) -> (changed: bool)
        requires
            old(sudoku).wf(),
        ensures
            final(sudoku)@ == Self::pass(old(sudoku)@),
            changed == (final(sudoku)@ != old(sudoku)@),
            final(sudoku).wf(),
            refines(old(sudoku)@, final(sudoku)@),
    {
        if Self::in_rows(sudoku) {
            true
        } else if Self::in_columns(sudoku) {
            true
        } else {
            Self::in_squares(sudoku)
        }
    }

    /// The tier of this strategy.
    pub fn difficulty(&self) -> (tier: Difficulty)
        ensures
            tier == Difficulty::Medium,
    {
        Difficulty::Medium
    }
}

} // verus!
