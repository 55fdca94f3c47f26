//! A single grid position: a confirmed value, or the digits still possible.

use vstd::prelude::*;
use crate::model::{ascending, bit, listing, lowest, members, tally, CellModel};

verus! {

/// The digits that occur in `list`.
pub open spec fn digit_set(list: Seq<usize>) -> Set<int> {
    Set::new(|d: int| exists|i: int| 0 <= i < list.len() && #[trigger] list[i] == d)
}

/// `list` with every entry read as a mathematical integer.
pub open spec fn as_ints(list: Seq<usize>) -> Seq<int> {
    Seq::new(list.len(), |i: int| list[i] as int)
}

/// Read as integers, a list has the same members.
pub proof fn lemma_digit_set(list: Seq<usize>)
    ensures
        digit_set(list) == members(as_ints(list)),
{
    assert forall|d: int| digit_set(list).contains(d) == members(as_ints(list)).contains(d) by {
        if digit_set(list).contains(d) {
            let i = choose|i: int| 0 <= i < list.len() && #[trigger] list[i] == d;
            assert(as_ints(list)[i] == d);
        }
        if members(as_ints(list)).contains(d) {
            let i = choose|i: int| 0 <= i < as_ints(list).len() && #[trigger] as_ints(list)[i] == d;
            assert(list[i] == d);
        }
    }
    assert(digit_set(list) =~= members(as_ints(list)));
}

/// Whether `n` occurs in `list`.
pub fn list_contains(list: &[usize], n: usize) -> (found: bool)
    ensures
        found == digit_set(list@).contains(n as int),
{
    let mut i: usize = 0;
    while i < list.len()
        invariant
            i <= list.len(),
            forall|k: int| 0 <= k < i ==> list[k] != n,
        decreases list.len() - i,
    {
        if list[i] == n {
            return true;
        }
        i += 1;
    }
    false
}

/// One of the 81 positions of a solving grid.
#[derive(Clone, Copy, Debug, PartialEq, Eq)]
pub struct Cell {
    value: usize,
    possibilities: [bool; 9],
}

impl View for Cell {
    type V = CellModel;

    closed spec fn view(&self) -> CellModel {
        CellModel {
            value: self.value as int,
            cands: Set::new(|d: int| 1 <= d <= 9 && self.possibilities[d - 1]),
        }
    }
}

impl Cell {
    /// The invariant that every operation keeps.
    pub open spec fn wf(&self) -> bool {
        self@.wf()
    }

    /// Cells with the same value and candidates are the same cell.
    pub proof fn lemma_view_injective(&self, other: &Cell)
        requires
            self@ == other@,
        ensures
            self == other,
    {
        assert forall|i: int| 0 <= i < 9 implies self.possibilities[i] == other.possibilities[i] by {
            let d = i + 1;
            assert(self@.cands.contains(d) == (1 <= d <= 9 && self.possibilities[d - 1]));
            assert(other@.cands.contains(d) == (1 <= d <= 9 && other.possibilities[d - 1]));
        }
        assert(self.possibilities =~= other.possibilities);
    }

    /// A cell for a raw puzzle digit; digits above 9 count as empty.
    pub fn new(value: usize) -> (cell: Cell)
        ensures
            cell@ == CellModel::from_digit(value as int),
            cell.wf(),
    {
        let safe_value: usize = if value > 9 { 0 } else { value };
        let cell = Cell { value: safe_value, possibilities: Cell::gen_possibilities(safe_value) };
        assert(cell@.cands =~= CellModel::from_digit(value as int).cands);
        cell
    }

    /// The candidates of a new cell with the given value.
    fn gen_possibilities(value: usize) -> (p: [bool; 9])
        requires
            value <= 9,
        ensures
            forall|i: int| 0 <= i < 9 ==> p[i] == (value == 0 || i + 1 == value),
    {
        let mut p: [bool; 9] = [false; 9];
        let mut i: usize = 0;
        while i < 9
            invariant
                i <= 9,
                forall|k: int| 0 <= k < i ==> p[k] == (value == 0 || k + 1 == value),
            decreases 9 - i,
        {
            p[i] = value == 0 || i + 1 == value;
            i += 1;
        }
        p
    }

    /// The confirmed value, 0 while undecided.
    pub fn get_value(&self) -> (v: usize)
        ensures
            v == self@.value,
    {
        self.value
    }

    /// Returns `true` if the value of the cell is not set, `false` otherwise.
    pub fn is_empty(&self) -> (b: bool)
        ensures
            b == self@.is_empty(),
    {
        self.value == 0
    }

    /// Returns `true` if the value of the cell is set, `false` otherwise.
    pub fn is_set(&self) -> (b: bool)
        ensures
            b == self@.is_set(),
    {
        !self.is_empty()
    }

    /// The remaining candidates in ascending order; for a confirmed cell
    /// that is its value alone, or nothing once the value was struck.
    pub fn possible_values(&self) -> (values: Vec<usize>)
        ensures
            as_ints(values@) == listing(self@.cands),
            forall|i: int, j: int| 0 <= i < j < values.len() ==> values[i] < values[j],
            forall|d: int| self@.cands.contains(d) <==> digit_set(values@).contains(d),
            values.len() == tally(self@.cands),
    {
        let mut values: Vec<usize> = Vec::new();
        let mut n: usize = 1;
        assert(as_ints(values@) =~= ascending(self@.cands, 0));
        while n <= 9
            invariant
                1 <= n <= 10,
                values.len() <= n - 1,
                as_ints(values@) == ascending(self@.cands, n - 1),
                forall|i: int| 0 <= i < values.len() ==> 1 <= #[trigger] values[i] < n,
                forall|i: int, j: int| 0 <= i < j < values.len() ==> values[i] < values[j],
                forall|d: int|
                    (1 <= d < n && self@.cands.contains(d)) <==> digit_set(values@).contains(d),
                values.len() == Self::tally_below(self@.cands, n as int),
            decreases 10 - n,
        {
            if self.possibilities[n - 1] {
                let ghost before = values@;
                values.push(n);
                assert(values@[before.len() as int] == n);
                assert(as_ints(values@) =~= as_ints(before).push(n as int));
                assert forall|d: int|
                    (1 <= d < n + 1 && self@.cands.contains(d)) <==> digit_set(values@).contains(
                        d,
                    ) by {
                    if digit_set(values@).contains(d) {
                        let i = choose|i: int| 0 <= i < values@.len() && values@[i] == d;
                        if i < before.len() {
                            assert(before[i] == d);
                            assert(digit_set(before).contains(d));
                        }
                    }
                    if 1 <= d < n && self@.cands.contains(d) {
                        assert(digit_set(before).contains(d));
                        let i = choose|i: int| 0 <= i < before.len() && before[i] == d;
                        assert(values@[i] == d);
                    }
                }
            }
            n += 1;
        }
        values
    }

    /// How many digits below `n` are members of `c`.
    pub closed spec fn tally_below(c: Set<int>, n: int) -> int {
        (if n > 1 { bit(c, 1) } else { 0 }) + (if n > 2 { bit(c, 2) } else { 0 }) + (if n > 3 {
            bit(c, 3)
        } else {
            0
        }) + (if n > 4 { bit(c, 4) } else { 0 }) + (if n > 5 { bit(c, 5) } else { 0 }) + (if n
            > 6 { bit(c, 6) } else { 0 }) + (if n > 7 { bit(c, 7) } else { 0 }) + (if n > 8 {
            bit(c, 8)
        } else {
            0
        }) + (if n > 9 { bit(c, 9) } else { 0 })
    }

    /// Whether `possibility` is still a candidate; what is no digit is no
    /// candidate.
    pub fn contains_possibility(&self, possibility: usize) -> (b: bool)
        ensures
            b == self@.cands.contains(possibility as int),
    {
        1 <= possibility && possibility <= 9 && self.possibilities[possibility - 1]
    }

    /// Whether at least one digit of `possibilities` is still a candidate.
    pub fn contains_any_possibilities(&self, possibilities: &[usize]) -> (b: bool)
        ensures
            b == !self@.cands.disjoint(digit_set(possibilities@)),
    {
        let mut i: usize = 0;
        while i < possibilities.len()
            invariant
                i <= possibilities.len(),
                forall|k: int| 0 <= k < i ==> !self@.cands.contains(#[trigger] possibilities[k] as int),
            decreases possibilities.len() - i,
        {
            if self.contains_possibility(possibilities[i]) {
                assert(digit_set(possibilities@).contains(possibilities[i as int] as int));
                return true;
            }
            i += 1;
        }
        false
    }

    /// Strikes `value` from the candidates. When a single candidate is left
    /// by that, it becomes the cell's value. Says whether the cell changed;
    /// a digit that is no candidate, or no digit at all, changes nothing.
    pub fn remove_possibility(&mut self, value: usize) -> (changed: bool)
        requires
            old(self).wf(),
        ensures
            final(self)@ == old(self)@.remove(value as int),
            changed == (final(self)@ != old(self)@),
            final(self).wf(),
            old(self)@.narrows_to(final(self)@),
    {
        if value < 1 || value > 9 || !self.possibilities[value - 1] {
            return false;
        }
        self.possibilities[value - 1] = false;
        assert(self@.cands =~= old(self)@.cands.remove(value as int));
        assert(!self@.cands.contains(value as int));
        let remaining_possibilities = self.possible_values();
        if remaining_possibilities.len() == 1 {
            assert(digit_set(remaining_possibilities@).contains(lowest(self@.cands)));
            self.value = remaining_possibilities[0];
        }
        assert(self@.cands =~= old(self)@.cands.remove(value as int));
        true
    }

    /// Strikes every digit of `possibilities`, one after the other, and says
    /// whether any of them changed the cell.
    pub fn remove_possibilities(&mut self, possibilities: &[usize]) -> (changed: bool)
        requires
            old(self).wf(),
        ensures
            final(self)@ == old(self)@.remove_all(as_ints(possibilities@)),
            changed == (final(self)@ != old(self)@),
            final(self).wf(),
            old(self)@.narrows_to(final(self)@),
    {
        let mut changed = false;
        let mut i: usize = 0;
        assert(as_ints(possibilities@).take(0) =~= Seq::<int>::empty());
        while i < possibilities.len()
            invariant
                i <= possibilities.len(),
                self.wf(),
                self@ == old(self)@.remove_all(as_ints(possibilities@).take(i as int)),
                old(self)@.narrows_to(self@),
                changed == (self@ != old(self)@),
            decreases possibilities.len() - i,
        {
            let ghost before = self@;
            let step = self.remove_possibility(possibilities[i]);
            changed = changed || step;
            proof {
                let all = as_ints(possibilities@);
                assert(all.take(i + 1).drop_last() =~= all.take(i as int));
                assert(all.take(i + 1).last() == possibilities[i as int] as int);
                if self@ == old(self)@ {
                    assert(before.cands =~= self@.cands);
                }
            }
            i += 1;
        }
        assert(as_ints(possibilities@).take(i as int) =~= as_ints(possibilities@));
        changed
    }

    /// Strikes every digit that does not occur in `possibilities`, in
    /// ascending order, and says whether any of them changed the cell.
    pub fn remove_possibilities_outside_of(&mut self, possibilities: &[usize]) -> (changed: bool)
        requires
            old(self).wf(),
        ensures
            final(self)@ == old(self)@.keep_only(digit_set(possibilities@)),
            changed == (final(self)@ != old(self)@),
            final(self).wf(),
            old(self)@.narrows_to(final(self)@),
    {
        let mut changed = false;
        let mut n: usize = 1;
        while n <= 9
            invariant
                1 <= n <= 10,
                self.wf(),
                self@ == old(self)@.strip(digit_set(possibilities@), n - 1),
                old(self)@.narrows_to(self@),
                changed == (self@ != old(self)@),
            decreases 10 - n,
        {
            let ghost before = self@;
            if !list_contains(possibilities, n) {
                let step = self.remove_possibility(n);
                changed = changed || step;
                proof {
                    if self@ == old(self)@ {
                        assert(before.cands =~= self@.cands);
                    }
                }
            }
            n += 1;
        }
        changed
    }

    /// Confirms `value` and drops every other candidate. Says whether the
    /// cell changed: no digit, or the value that is already confirmed,
    /// changes nothing.
    pub fn set_value(&mut self, value: usize) -> (changed: bool)
        requires
            old(self).wf(),
        ensures
            final(self)@ == old(self)@.assign(value as int),
            changed == (final(self)@ != old(self)@),
            final(self).wf(),
    {
        if value < 1 || value > 9 || value == self.value {
            return false;
        }
        self.value = value;
        self.possibilities = Cell::gen_possibilities(value);
        assert(self@.cands =~= set![value as int]);
        true
    }
}

} // verus!
