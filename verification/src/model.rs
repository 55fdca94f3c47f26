//! The mathematical model that every contract of this crate is stated over:
//! cells as a confirmed value plus a candidate set, grids as 81 such cells in
//! row-major order, and the completions a grid still admits.

use vstd::prelude::*;

verus! {

/// A grid position as a confirmed value (0 while undecided) and the set of
/// digits that are still considered possible there.
pub struct CellModel {
    pub value: int,
    pub cands: Set<int>,
}

/// 1 if `d` is a member of `c`, else 0.
pub open spec fn bit(c: Set<int>, d: int) -> int {
    if c.contains(d) { 1 } else { 0 }
}

/// How many of the digits 1 to 9 are members of `c`.
pub open spec fn tally(c: Set<int>) -> int {
    bit(c, 1) + bit(c, 2) + bit(c, 3) + bit(c, 4) + bit(c, 5) + bit(c, 6) + bit(c, 7) + bit(c, 8)
        + bit(c, 9)
}

/// The smallest digit in `c`, or 9 when `c` holds none of 1 to 8.
pub open spec fn lowest(c: Set<int>) -> int {
    if c.contains(1) { 1 }
    else if c.contains(2) { 2 }
    else if c.contains(3) { 3 }
    else if c.contains(4) { 4 }
    else if c.contains(5) { 5 }
    else if c.contains(6) { 6 }
    else if c.contains(7) { 7 }
    else if c.contains(8) { 8 }
    else { 9 }
}

/// The nine digits.
pub open spec fn all_digits() -> Set<int> {
    Set::new(|d: int| 1 <= d <= 9)
}

impl CellModel {
    /// The cell that a raw puzzle digit stands for: values above 9 count as
    /// empty, an empty cell admits every digit, a filled one only its own.
    pub open spec fn from_digit(n: int) -> CellModel {
        if 1 <= n <= 9 {
            CellModel { value: n, cands: set![n] }
        } else {
            CellModel { value: 0, cands: all_digits() }
        }
    }

    /// No value is confirmed.
    pub open spec fn is_empty(self) -> bool {
        self.value == 0
    }

    /// A value is confirmed.
    pub open spec fn is_set(self) -> bool {
        self.value != 0
    }

    /// An undecided cell keeps at least two candidates; a decided cell keeps
    /// at most its own value.
    pub open spec fn wf(self) -> bool {
        &&& 0 <= self.value <= 9
        &&& forall|d: int| self.cands.contains(d) ==> 1 <= d <= 9
        &&& self.value != 0 ==> forall|d: int| self.cands.contains(d) ==> d == self.value
        &&& self.value == 0 ==> tally(self.cands) >= 2
    }

    /// Striking `d`: a digit that is not a candidate leaves the cell as it
    /// is; otherwise it goes, and a single survivor becomes the value.
    pub open spec fn remove(self, d: int) -> CellModel {
        if 1 <= d <= 9 && self.cands.contains(d) {
            let rest = self.cands.remove(d);
            CellModel { value: if tally(rest) == 1 { lowest(rest) } else { self.value }, cands: rest }
        } else {
            self
        }
    }

    /// Striking the digits of `ds` one after the other.
    pub open spec fn remove_all(self, ds: Seq<int>) -> CellModel
        decreases ds.len(),
    {
        if ds.len() == 0 {
            self
        } else {
            self.remove_all(ds.drop_last()).remove(ds.last())
        }
    }

    /// Striking, in ascending order, every digit up to `upto` that is not in
    /// `allowed`.
    pub open spec fn strip(self, allowed: Set<int>, upto: int) -> CellModel
        decreases upto,
    {
        if upto <= 0 {
            self
        } else if allowed.contains(upto) {
            self.strip(allowed, upto - 1)
        } else {
            self.strip(allowed, upto - 1).remove(upto)
        }
    }

    /// Striking every digit outside `allowed`.
    pub open spec fn keep_only(self, allowed: Set<int>) -> CellModel {
        self.strip(allowed, 9)
    }

    /// Forcing the value `d`, whatever the candidates were.
    pub open spec fn assign(self, d: int) -> CellModel {
        if 1 <= d <= 9 && d != self.value {
            CellModel { value: d, cands: set![d] }
        } else {
            self
        }
    }

    /// `other` is this cell after deductions: no candidate was added and a
    /// confirmed value stayed.
    pub open spec fn narrows_to(self, other: CellModel) -> bool {
        &&& other.cands.subset_of(self.cands)
        &&& self.value != 0 ==> other.value == self.value
    }
}

/// The 81 cells of a grid in row-major order.
pub type Grid = Seq<CellModel>;

/// The position of the cell at `row` and `col`.
pub open spec fn at(row: int, col: int) -> int {
    9 * row + col
}

/// The row that a position lies in.
pub open spec fn row_of(p: int) -> int {
    p / 9
}

/// The column that a position lies in.
pub open spec fn col_of(p: int) -> int {
    p % 9
}

/// The band of three rows that a position lies in.
pub open spec fn band_of(p: int) -> int {
    (p / 9) / 3
}

/// The stack of three columns that a position lies in.
pub open spec fn stack_of(p: int) -> int {
    (p % 9) / 3
}

/// Boxes are numbered row-major, three to a band.
pub open spec fn box_of(p: int) -> int {
    3 * band_of(p) + stack_of(p)
}

/// The place of a position inside its box, row-major.
pub open spec fn slot_of(p: int) -> int {
    3 * ((p / 9) % 3) + (p % 9) % 3
}

/// Two positions share a row, a column or a box (a position is related to
/// itself).
pub open spec fn related(p: int, q: int) -> bool {
    row_of(p) == row_of(q) || col_of(p) == col_of(q) || box_of(p) == box_of(q)
}

/// The `j`-th cell of row `i`.
pub open spec fn row_cell(i: int, j: int) -> int {
    9 * i + j
}

/// The `j`-th cell of column `i`.
pub open spec fn col_cell(i: int, j: int) -> int {
    9 * j + i
}

/// The `j`-th cell of box `i`, row-major inside the box.
pub open spec fn box_cell(i: int, j: int) -> int {
    9 * (3 * (i / 3) + j / 3) + 3 * (i % 3) + j % 3
}

/// Row, column and box of the position at `row` and `col`.
pub proof fn lemma_at_geometry(row: int, col: int)
    requires
        0 <= row < 9,
        0 <= col < 9,
    ensures
        0 <= at(row, col) < 81,
        row_of(at(row, col)) == row,
        col_of(at(row, col)) == col,
        box_of(at(row, col)) == 3 * (row / 3) + col / 3,
{
    assert((9 * row + col) / 9 == row);
    assert((9 * row + col) % 9 == col);
}

/// Box and slot number the positions of the grid just as row and column do.
pub proof fn lemma_box_geometry()
    ensures
        forall|i: int, j: int|
            0 <= i < 9 && 0 <= j < 9 ==> {
                &&& 0 <= #[trigger] box_cell(i, j) < 81
                &&& box_of(box_cell(i, j)) == i
                &&& slot_of(box_cell(i, j)) == j
                &&& row_of(box_cell(i, j)) == 3 * (i / 3) + j / 3
                &&& col_of(box_cell(i, j)) == 3 * (i % 3) + j % 3
            },
        forall|p: int|
            0 <= p < 81 ==> {
                &&& 0 <= #[trigger] box_of(p) < 9
                &&& 0 <= slot_of(p) < 9
                &&& box_cell(box_of(p), slot_of(p)) == p
            },
{
    assert forall|i: int, j: int| 0 <= i < 9 && 0 <= j < 9 implies {
        &&& 0 <= #[trigger] box_cell(i, j) < 81
        &&& box_of(box_cell(i, j)) == i
        &&& slot_of(box_cell(i, j)) == j
        &&& row_of(box_cell(i, j)) == 3 * (i / 3) + j / 3
        &&& col_of(box_cell(i, j)) == 3 * (i % 3) + j % 3
    } by {
        let r = 3 * (i / 3) + j / 3;
        let c = 3 * (i % 3) + j % 3;
        assert(0 <= r < 9 && 0 <= c < 9);
        assert(box_cell(i, j) == 9 * r + c);
        assert((9 * r + c) / 9 == r);
        assert((9 * r + c) % 9 == c);
        assert(r / 3 == i / 3);
        assert(r % 3 == j / 3);
        assert(c / 3 == i % 3);
        assert(c % 3 == j % 3);
    }
    assert forall|p: int| 0 <= p < 81 implies {
        &&& 0 <= #[trigger] box_of(p) < 9
        &&& 0 <= slot_of(p) < 9
        &&& box_cell(box_of(p), slot_of(p)) == p
    } by {
        let r = p / 9;
        let c = p % 9;
        let i = 3 * (r / 3) + c / 3;
        let j = 3 * (r % 3) + c % 3;
        assert(i / 3 == r / 3);
        assert(i % 3 == c / 3);
        assert(j / 3 == r % 3);
        assert(j % 3 == c % 3);
    }
}

/// The grid has 81 cells, and each keeps the invariant of a cell.
pub open spec fn grid_wf(g: Grid) -> bool {
    &&& g.len() == 81
    &&& forall|p: int| 0 <= p < 81 ==> (#[trigger] g[p]).wf()
}

/// `h` is `g` after deductions: cell by cell, no candidate was added and no
/// confirmed value changed.
pub open spec fn refines(g: Grid, h: Grid) -> bool {
    &&& g.len() == 81
    &&& h.len() == 81
    &&& forall|p: int| 0 <= p < 81 ==> (#[trigger] g[p]).narrows_to(h[p])
}

/// The grid that a puzzle of 81 raw digits starts from.
pub open spec fn grid_of(digits: Seq<int>) -> Grid {
    Seq::new(81, |p: int| CellModel::from_digit(digits[p]))
}

/// The confirmed values of a grid, 0 where none is confirmed.
pub open spec fn values_of(g: Grid) -> Seq<int> {
    Seq::new(81, |p: int| g[p].value)
}

/// Candidates left in the first `n` cells.
pub open spec fn weight_upto(g: Grid, n: int) -> int
    decreases n,
{
    if n <= 0 {
        0
    } else {
        weight_upto(g, n - 1) + tally(g[n - 1].cands)
    }
}

/// Candidates left in the whole grid: the measure that every effective
/// deduction lowers.
pub open spec fn weight(g: Grid) -> int {
    weight_upto(g, 81)
}

/// Some cell of row `i` holds `d` in `s`.
pub open spec fn row_has(s: Seq<int>, i: int, d: int) -> bool {
    exists|j: int| 0 <= j < 9 && s[#[trigger] row_cell(i, j)] == d
}

/// Some cell of column `i` holds `d` in `s`.
pub open spec fn col_has(s: Seq<int>, i: int, d: int) -> bool {
    exists|j: int| 0 <= j < 9 && s[#[trigger] col_cell(i, j)] == d
}

/// Some cell of box `i` holds `d` in `s`.
pub open spec fn box_has(s: Seq<int>, i: int, d: int) -> bool {
    exists|j: int| 0 <= j < 9 && s[#[trigger] box_cell(i, j)] == d
}

/// A full assignment of digits in which every row, column and box holds each
/// digit exactly once.
pub open spec fn valid_completion(s: Seq<int>) -> bool {
    &&& s.len() == 81
    &&& forall|p: int| 0 <= p < 81 ==> 1 <= #[trigger] s[p] <= 9
    &&& forall|p: int, q: int|
        0 <= p < 81 && 0 <= q < 81 && p != q && related(p, q) ==> #[trigger] s[p] != #[trigger] s[q]
    &&& forall|i: int, d: int| 0 <= i < 9 && 1 <= d <= 9 ==> #[trigger] row_has(s, i, d)
    &&& forall|i: int, d: int| 0 <= i < 9 && 1 <= d <= 9 ==> #[trigger] col_has(s, i, d)
    &&& forall|i: int, d: int| 0 <= i < 9 && 1 <= d <= 9 ==> #[trigger] box_has(s, i, d)
}

/// The assignment `s` is still possible in `g`: every cell admits the digit
/// that `s` puts there.
pub open spec fn fits(g: Grid, s: Seq<int>) -> bool {
    forall|p: int| 0 <= p < 81 ==> (#[trigger] g[p]).cands.contains(s[p])
}

/// The members of `c` up to `upto`, in ascending order.
pub open spec fn ascending(c: Set<int>, upto: int) -> Seq<int>
    decreases upto,
{
    if upto <= 0 {
        Seq::empty()
    } else if c.contains(upto) {
        ascending(c, upto - 1).push(upto)
    } else {
        ascending(c, upto - 1)
    }
}

/// The digits of `c` in ascending order.
pub open spec fn listing(c: Set<int>) -> Seq<int> {
    ascending(c, 9)
}

/// The members of a sequence, as a set.
pub open spec fn members(list: Seq<int>) -> Set<int> {
    Set::new(|d: int| exists|i: int| 0 <= i < list.len() && #[trigger] list[i] == d)
}

/// The cells of row `i`, left to right.
pub open spec fn row_cells(i: int) -> Seq<int> {
    Seq::new(9, |j: int| row_cell(i, j))
}

/// The cells of column `i`, top to bottom.
pub open spec fn col_cells(i: int) -> Seq<int> {
    Seq::new(9, |j: int| col_cell(i, j))
}

/// The cells of box `i`, row-major.
pub open spec fn box_cells(i: int) -> Seq<int> {
    Seq::new(9, |j: int| box_cell(i, j))
}

/// The confirmed values among the first `n` cells of `cells`, in order.
pub open spec fn set_values(g: Grid, cells: Seq<int>, n: int) -> Seq<int>
    decreases n,
{
    if n <= 0 {
        Seq::empty()
    } else if g[cells[n - 1]].is_set() {
        set_values(g, cells, n - 1).push(g[cells[n - 1]].value)
    } else {
        set_values(g, cells, n - 1)
    }
}

/// The digits that are confirmed somewhere in `cells`.
pub open spec fn placed(g: Grid, cells: Seq<int>) -> Set<int> {
    Set::new(
        |d: int| d != 0 && exists|j: int| 0 <= j < cells.len() && g[#[trigger] cells[j]].value == d,
    )
}

/// The digits outside of `present`.
pub open spec fn absent(present: Set<int>) -> Set<int> {
    Set::new(|d: int| 1 <= d <= 9 && !present.contains(d))
}

/// The digits that are confirmed nowhere in `cells`, in ascending order.
pub open spec fn missing_in(g: Grid, cells: Seq<int>) -> Seq<int> {
    listing(absent(placed(g, cells)))
}

/// The positions below `n` whose cell is undecided, in ascending order.
pub open spec fn empty_positions(g: Grid, n: int) -> Seq<int>
    decreases n,
{
    if n <= 0 {
        Seq::empty()
    } else if g[n - 1].is_empty() {
        empty_positions(g, n - 1).push(n - 1)
    } else {
        empty_positions(g, n - 1)
    }
}

/// The listed positions are exactly the undecided cells.
pub proof fn lemma_empty_positions(g: Grid, n: int)
    requires
        0 <= n <= 81,
    ensures
        forall|k: int|
            0 <= k < empty_positions(g, n).len() ==> 0 <= #[trigger] empty_positions(g, n)[k] < n
                && g[empty_positions(g, n)[k]].is_empty(),
        forall|p: int| 0 <= p < n && g[p].is_empty() ==> members(empty_positions(g, n)).contains(p),
    decreases n,
{
    if n > 0 {
        lemma_empty_positions(g, n - 1);
        let prev = empty_positions(g, n - 1);
        let cur = empty_positions(g, n);
        assert forall|p: int| 0 <= p < n && g[p].is_empty() implies members(cur).contains(p) by {
            if p == n - 1 {
                assert(cur[prev.len() as int] == p);
            } else {
                assert(members(prev).contains(p));
                let i = choose|i: int| 0 <= i < prev.len() && prev[i] == p;
                assert(cur[i] == p);
            }
        }
    }
}

/// `g` with `d` struck from every cell of `region`.
pub open spec fn strike(g: Grid, d: int, region: Set<int>) -> Grid {
    Seq::new(81, |p: int| if region.contains(p) { g[p].remove(d) } else { g[p] })
}

/// `g` with every cell of `region` cut down to the digits in `allowed`.
pub open spec fn confine(g: Grid, allowed: Set<int>, region: Set<int>) -> Grid {
    Seq::new(81, |p: int| if region.contains(p) { g[p].keep_only(allowed) } else { g[p] })
}

/// `g` with the value `d` forced at position `p`.
pub open spec fn place(g: Grid, p: int, d: int) -> Grid {
    g.update(p, g[p].assign(d))
}

/// The ascending list of a set is ascending and holds exactly the members
/// of the set up to `upto`.
pub proof fn lemma_ascending(c: Set<int>, upto: int)
    requires
        0 <= upto <= 9,
    ensures
        forall|i: int| 0 <= i < ascending(c, upto).len() ==> 1 <= #[trigger] ascending(c, upto)[i] <= upto,
        forall|i: int, j: int|
            0 <= i < j < ascending(c, upto).len() ==> ascending(c, upto)[i] < ascending(c, upto)[j],
        forall|d: int| members(ascending(c, upto)).contains(d) <==> (1 <= d <= upto && c.contains(d)),
    decreases upto,
{
    if upto > 0 {
        lemma_ascending(c, upto - 1);
        let prev = ascending(c, upto - 1);
        let cur = ascending(c, upto);
        assert forall|d: int| members(cur).contains(d) <==> (1 <= d <= upto && c.contains(d)) by {
            if members(cur).contains(d) {
                let i = choose|i: int| 0 <= i < cur.len() && cur[i] == d;
                if i < prev.len() {
                    assert(prev[i] == d);
                    assert(members(prev).contains(d));
                }
            }
            if 1 <= d <= upto && c.contains(d) {
                if d == upto {
                    assert(cur[prev.len() as int] == d);
                } else {
                    assert(members(prev).contains(d));
                    let i = choose|i: int| 0 <= i < prev.len() && prev[i] == d;
                    assert(cur[i] == d);
                }
            }
        }
    }
}

/// The listing of a candidate set is strictly ascending, holds exactly the
/// digits of the set, and is as long as their tally.
pub proof fn lemma_listing(c: Set<int>)
    ensures
        forall|i: int| 0 <= i < listing(c).len() ==> 1 <= #[trigger] listing(c)[i] <= 9,
        forall|i: int, j: int| 0 <= i < j < listing(c).len() ==> listing(c)[i] < listing(c)[j],
        forall|d: int| members(listing(c)).contains(d) <==> (1 <= d <= 9 && c.contains(d)),
        listing(c).len() == tally(c),
{
    lemma_ascending(c, 9);
    reveal_with_fuel(ascending, 10);
}

impl CellModel {
    /// The cell of a raw digit keeps the invariant.
    pub proof fn lemma_from_digit(n: int)
        ensures
            CellModel::from_digit(n).wf(),
    {
    }

    /// Striking keeps the invariant and never adds a candidate.
    pub proof fn lemma_remove(self, d: int)
        requires
            self.wf(),
        ensures
            self.remove(d).wf(),
            self.narrows_to(self.remove(d)),
            forall|e: int|
                #![trigger self.remove(d).cands.contains(e)]
                self.remove(d).cands.contains(e) <==> (self.cands.contains(e) && e != d),
    {
    }

    /// Striking the digits outside of `allowed` up to `upto` keeps the
    /// invariant and leaves exactly the candidates that are above `upto` or in
    /// `allowed`.
    pub proof fn lemma_strip(self, allowed: Set<int>, upto: int)
        requires
            self.wf(),
            0 <= upto <= 9,
        ensures
            self.strip(allowed, upto).wf(),
            self.narrows_to(self.strip(allowed, upto)),
            forall|e: int|
                #![trigger self.strip(allowed, upto).cands.contains(e)]
                self.strip(allowed, upto).cands.contains(e) <==> (self.cands.contains(e) && (e
                    > upto || allowed.contains(e))),
        decreases upto,
    {
        if upto > 0 {
            self.lemma_strip(allowed, upto - 1);
            let prev = self.strip(allowed, upto - 1);
            prev.lemma_remove(upto);
            let cur = self.strip(allowed, upto);
            assert forall|e: int|
                cur.cands.contains(e) <==> (self.cands.contains(e) && (e > upto
                    || allowed.contains(e))) by {
                assert(prev.cands.contains(e) <==> (self.cands.contains(e) && (e > upto - 1
                    || allowed.contains(e))));
            }
        }
    }

    /// Cutting down to `allowed` keeps the invariant and leaves exactly the
    /// candidates that are in `allowed`.
    pub proof fn lemma_keep_only(self, allowed: Set<int>)
        requires
            self.wf(),
        ensures
            self.keep_only(allowed).wf(),
            self.narrows_to(self.keep_only(allowed)),
            forall|e: int|
                #![trigger self.keep_only(allowed).cands.contains(e)]
                self.keep_only(allowed).cands.contains(e) <==> (self.cands.contains(e)
                    && allowed.contains(e)),
    {
        self.lemma_strip(allowed, 9);
    }

    /// Narrowing in both directions means equality.
    pub proof fn lemma_narrows_antisym(self, other: CellModel)
        requires
            self.narrows_to(other),
            other.narrows_to(self),
        ensures
            self == other,
    {
        assert(self.cands =~= other.cands);
    }

    /// A well-formed cell that narrowed and changed lost a candidate.
    pub proof fn lemma_narrows_tally(self, other: CellModel)
        requires
            self.wf(),
            other.wf(),
            self.narrows_to(other),
        ensures
            tally(other.cands) <= tally(self.cands),
            self != other ==> tally(other.cands) < tally(self.cands),
    {
        if self != other {
            if self.cands =~= other.cands {
                assert(self.value != other.value);
            } else {
                let d = choose|d: int| self.cands.contains(d) != other.cands.contains(d);
                assert(self.cands.contains(d) && !other.cands.contains(d));
            }
        }
    }
}

/// A grid is a grid after no deduction at all.
pub proof fn lemma_refines_refl(g: Grid)
    requires
        g.len() == 81,
    ensures
        refines(g, g),
{
}

/// Deductions after deductions are deductions.
pub proof fn lemma_refines_trans(a: Grid, b: Grid, c: Grid)
    requires
        refines(a, b),
        refines(b, c),
    ensures
        refines(a, c),
{
    assert forall|p: int| 0 <= p < 81 implies (#[trigger] a[p]).narrows_to(c[p]) by {
        assert(a[p].narrows_to(b[p]));
        assert(b[p].narrows_to(c[p]));
    }
}

/// Two grids that each came from the other by deductions are the same.
pub proof fn lemma_refines_antisym(a: Grid, b: Grid)
    requires
        refines(a, b),
        refines(b, a),
    ensures
        a == b,
{
    assert forall|p: int| 0 <= p < 81 implies a[p] == b[p] by {
        assert(a[p].narrows_to(b[p]));
        assert(b[p].narrows_to(a[p]));
        a[p].lemma_narrows_antisym(b[p]);
    }
    assert(a =~= b);
}

/// Along a chain of deductions the grid differs from its start as soon as
/// one link changed it.
pub proof fn lemma_refines_chain(a: Grid, b: Grid, c: Grid)
    requires
        refines(a, b),
        refines(b, c),
    ensures
        refines(a, c),
        c == a ==> b == a,
{
    lemma_refines_trans(a, b, c);
    if c == a {
        lemma_refines_antisym(a, b);
    }
}

/// Deductions lower the number of candidates in the first `n` cells, or
/// leave these cells as they are.
pub proof fn lemma_weight_upto(g: Grid, h: Grid, n: int)
    requires
        grid_wf(g),
        grid_wf(h),
        refines(g, h),
        0 <= n <= 81,
    ensures
        weight_upto(h, n) <= weight_upto(g, n),
        (exists|p: int| 0 <= p < n && g[p] != h[p]) ==> weight_upto(h, n) < weight_upto(g, n),
        0 <= weight_upto(h, n),
    decreases n,
{
    if n > 0 {
        lemma_weight_upto(g, h, n - 1);
        assert(g[n - 1].narrows_to(h[n - 1]));
        g[n - 1].lemma_narrows_tally(h[n - 1]);
        if exists|p: int| 0 <= p < n && g[p] != h[p] {
            let p = choose|p: int| 0 <= p < n && g[p] != h[p];
            if p < n - 1 {
                assert(exists|p: int| 0 <= p < n - 1 && g[p] != h[p]);
            }
        }
    }
}

/// A grid holds at most 729 candidates.
pub proof fn lemma_weight_bound(g: Grid, n: int)
    requires
        0 <= n <= 81,
    ensures
        0 <= weight_upto(g, n) <= 9 * n,
    decreases n,
{
    if n > 0 {
        lemma_weight_bound(g, n - 1);
    }
}

/// Every deduction that changes a well-formed grid lowers its weight.
pub proof fn lemma_weight_drops(g: Grid, h: Grid)
    requires
        grid_wf(g),
        grid_wf(h),
        refines(g, h),
    ensures
        0 <= weight(h) <= weight(g),
        g != h ==> weight(h) < weight(g),
{
    lemma_weight_upto(g, h, 81);
    if g != h {
        if forall|p: int| 0 <= p < 81 ==> g[p] == h[p] {
            assert(g =~= h);
        }
    }
}

/// Striking a digit keeps a grid well-formed and is a deduction.
pub proof fn lemma_strike(g: Grid, d: int, region: Set<int>)
    requires
        grid_wf(g),
    ensures
        grid_wf(strike(g, d, region)),
        refines(g, strike(g, d, region)),
{
    let h = strike(g, d, region);
    assert forall|p: int| 0 <= p < 81 implies (#[trigger] h[p]).wf() && g[p].narrows_to(h[p]) by {
        g[p].lemma_remove(d);
    }
}

/// Striking a digit where the completion `s` does not put it keeps `s`
/// possible.
pub proof fn lemma_strike_fits(g: Grid, d: int, region: Set<int>, s: Seq<int>)
    requires
        grid_wf(g),
        fits(g, s),
        forall|p: int| 0 <= p < 81 && region.contains(p) ==> s[p] != d,
    ensures
        fits(strike(g, d, region), s),
{
    let h = strike(g, d, region);
    assert forall|p: int| 0 <= p < 81 implies (#[trigger] h[p]).cands.contains(s[p]) by {
        g[p].lemma_remove(d);
        assert(g[p].cands.contains(s[p]));
    }
}

/// Cutting cells down keeps a grid well-formed and is a deduction.
pub proof fn lemma_confine(g: Grid, allowed: Set<int>, region: Set<int>)
    requires
        grid_wf(g),
    ensures
        grid_wf(confine(g, allowed, region)),
        refines(g, confine(g, allowed, region)),
{
    let h = confine(g, allowed, region);
    assert forall|p: int| 0 <= p < 81 implies (#[trigger] h[p]).wf() && g[p].narrows_to(h[p]) by {
        g[p].lemma_keep_only(allowed);
    }
}

/// Cutting cells down to digits among which the completion `s` has its
/// own keeps `s` possible.
pub proof fn lemma_confine_fits(g: Grid, allowed: Set<int>, region: Set<int>, s: Seq<int>)
    requires
        grid_wf(g),
        fits(g, s),
        forall|p: int| 0 <= p < 81 && region.contains(p) ==> allowed.contains(s[p]),
    ensures
        fits(confine(g, allowed, region), s),
{
    let h = confine(g, allowed, region);
    assert forall|p: int| 0 <= p < 81 implies (#[trigger] h[p]).cands.contains(s[p]) by {
        g[p].lemma_keep_only(allowed);
        assert(g[p].cands.contains(s[p]));
    }
}

/// Confirming a candidate of an undecided cell is a deduction step.
pub proof fn lemma_place(g: Grid, p: int, d: int)
    requires
        grid_wf(g),
        0 <= p < 81,
        g[p].is_empty(),
        g[p].cands.contains(d),
    ensures
        grid_wf(place(g, p, d)),
        refines(g, place(g, p, d)),
        place(g, p, d) != g,
{
    let h = place(g, p, d);
    assert(h[p].cands =~= set![d]);
    assert(h[p] != g[p]);
    assert forall|q: int| 0 <= q < 81 implies (#[trigger] h[q]).wf() && g[q].narrows_to(h[q]) by {}
}

/// Confirming the digit that the completion `s` has in a cell keeps `s`
/// possible.
pub proof fn lemma_place_fits(g: Grid, p: int, d: int, s: Seq<int>)
    requires
        grid_wf(g),
        0 <= p < 81,
        fits(g, s),
        s[p] == d,
    ensures
        fits(place(g, p, d), s),
{
    let h = place(g, p, d);
    assert forall|q: int| 0 <= q < 81 implies (#[trigger] h[q]).cands.contains(s[q]) by {
        assert(g[q].cands.contains(s[q]));
    }
}

/// `g` lies above `t`: it holds the same confirmed values, and every cell
/// of it admits at least the candidates that the cell admits in `t`.
pub open spec fn above(g: Grid, t: Grid) -> bool {
    &&& refines(g, t)
    &&& values_of(g) == values_of(t)
}

/// A completion that a grid admits is admitted by every grid above it.
pub proof fn lemma_above_fits(g: Grid, t: Grid, s: Seq<int>)
    requires
        above(g, t),
        fits(t, s),
    ensures
        fits(g, s),
{
    assert forall|p: int| 0 <= p < 81 implies (#[trigger] g[p]).cands.contains(s[p]) by {
        assert(g[p].narrows_to(t[p]));
        assert(t[p].cands.contains(s[p]));
    }
}

impl CellModel {
    /// A cell with exactly two candidates has the same candidates in every
    /// grid below.
    pub proof fn lemma_pair_below(self, low: CellModel)
        requires
            self.wf(),
            low.wf(),
            self.narrows_to(low),
            self.value == low.value,
            tally(self.cands) == 2,
        ensures
            low.cands == self.cands,
            self.is_empty(),
    {
        assert(self.value == 0);
        assert(tally(low.cands) >= 2);
        assert forall|d: int| self.cands.contains(d) implies low.cands.contains(d) by {
            assert(forall|e: int| low.cands.contains(e) ==> self.cands.contains(e));
        }
        assert(low.cands =~= self.cands);
    }

    /// A cell that narrowed without losing a candidate of `low`, a cell
    /// below it with the same value, is still above `low`.
    pub proof fn lemma_stays_above(self, narrowed: CellModel, low: CellModel)
        requires
            self.wf(),
            narrowed.wf(),
            low.wf(),
            self.narrows_to(narrowed),
            self.narrows_to(low),
            self.value == low.value,
            low.cands.subset_of(narrowed.cands),
        ensures
            narrowed.narrows_to(low),
            narrowed.value == low.value,
    {
        if self.value == 0 {
            assert(tally(low.cands) >= 2);
            assert(tally(narrowed.cands) >= 2) by {
                assert(forall|d: int| low.cands.contains(d) ==> narrowed.cands.contains(d));
            }
        }
    }
}

/// Striking a digit where a grid below does not have it keeps the grid
/// above that one.
pub proof fn lemma_strike_above(g: Grid, t: Grid, d: int, region: Set<int>)
    requires
        grid_wf(g),
        grid_wf(t),
        above(g, t),
        forall|q: int| 0 <= q < 81 && region.contains(q) ==> !t[q].cands.contains(d),
    ensures
        grid_wf(strike(g, d, region)),
        above(strike(g, d, region), t),
{
    let h = strike(g, d, region);
    lemma_strike(g, d, region);
    assert forall|q: int| 0 <= q < 81 implies (#[trigger] h[q]).narrows_to(t[q]) && h[q].value
        == t[q].value by {
        assert(g[q].narrows_to(t[q]));
        assert(g[q].narrows_to(h[q]));
        assert(values_of(g)[q] == values_of(t)[q]);
        g[q].lemma_remove(d);
        g[q].lemma_stays_above(h[q], t[q]);
    }
    assert(values_of(h) =~= values_of(t));
}

/// Cutting cells down to digits beyond which a grid below has nothing in
/// these cells keeps the grid above that one.
pub proof fn lemma_confine_above(g: Grid, t: Grid, allowed: Set<int>, region: Set<int>)
    requires
        grid_wf(g),
        grid_wf(t),
        above(g, t),
        forall|q: int, e: int|
            0 <= q < 81 && region.contains(q) && t[q].cands.contains(e) ==> allowed.contains(e),
    ensures
        grid_wf(confine(g, allowed, region)),
        above(confine(g, allowed, region), t),
{
    let h = confine(g, allowed, region);
    lemma_confine(g, allowed, region);
    assert forall|q: int| 0 <= q < 81 implies (#[trigger] h[q]).narrows_to(t[q]) && h[q].value
        == t[q].value by {
        assert(g[q].narrows_to(t[q]));
        assert(g[q].narrows_to(h[q]));
        assert(values_of(g)[q] == values_of(t)[q]);
        g[q].lemma_keep_only(allowed);
        g[q].lemma_stays_above(h[q], t[q]);
    }
    assert(values_of(h) =~= values_of(t));
}

/// Where striking a digit changes nothing, no cell of the region had it.
pub proof fn lemma_strike_quiet(t: Grid, d: int, region: Set<int>)
    requires
        grid_wf(t),
        strike(t, d, region) == t,
    ensures
        forall|q: int| 0 <= q < 81 && region.contains(q) ==> !t[q].cands.contains(d),
{
    assert forall|q: int| 0 <= q < 81 && region.contains(q) implies !t[q].cands.contains(d) by {
        assert(strike(t, d, region)[q] == t[q].remove(d));
        assert(t[q].wf());
        t[q].lemma_remove(d);
        if t[q].cands.contains(d) {
            assert(!t[q].remove(d).cands.contains(d));
        }
    }
}

/// Where cutting cells down changes nothing, no cell of the region had a
/// candidate beyond the digits allowed.
pub proof fn lemma_confine_quiet(t: Grid, allowed: Set<int>, region: Set<int>)
    requires
        grid_wf(t),
        confine(t, allowed, region) == t,
    ensures
        forall|q: int, e: int|
            0 <= q < 81 && region.contains(q) && t[q].cands.contains(e) ==> allowed.contains(e),
{
    assert forall|q: int, e: int|
        0 <= q < 81 && region.contains(q) && t[q].cands.contains(e) implies allowed.contains(e) by {
        assert(confine(t, allowed, region)[q] == t[q].keep_only(allowed));
        assert(t[q].wf());
        t[q].lemma_keep_only(allowed);
        assert(t[q].keep_only(allowed).cands.contains(e));
    }
}

/// The digits missing in a unit depend on the confirmed values only.
pub proof fn lemma_missing_same(g: Grid, t: Grid, cells: Seq<int>)
    requires
        g.len() == 81,
        t.len() == 81,
        values_of(g) == values_of(t),
        forall|j: int| 0 <= j < cells.len() ==> 0 <= #[trigger] cells[j] < 81,
    ensures
        missing_in(g, cells) == missing_in(t, cells),
{
    assert forall|d: int| placed(g, cells).contains(d) == placed(t, cells).contains(d) by {
        if placed(g, cells).contains(d) {
            let j = choose|j: int| 0 <= j < cells.len() && g[#[trigger] cells[j]].value == d;
            let p = cells[j];
            assert(0 <= p < 81);
            assert(values_of(g)[p] == g[p].value);
            assert(values_of(t)[p] == t[p].value);
            assert(t[cells[j]].value == d);
        }
        if placed(t, cells).contains(d) {
            let j = choose|j: int| 0 <= j < cells.len() && t[#[trigger] cells[j]].value == d;
            let p = cells[j];
            assert(0 <= p < 81);
            assert(values_of(g)[p] == g[p].value);
            assert(values_of(t)[p] == t[p].value);
            assert(g[cells[j]].value == d);
        }
    }
    assert(placed(g, cells) =~= placed(t, cells));
}

} // verus!
