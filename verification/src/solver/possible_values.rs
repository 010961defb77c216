//! Meta-data keeping track of which values are possible in which position.

use vstd::prelude::*;

use crate::model::digit::Digit;
use crate::model::digit_counter::DigitCounter;
use crate::model::digit_set::lemma_digit_set_members;
use crate::model::digit_set::DigitSet;
use crate::model::group::cell_position;
use crate::model::group::group_cell;
use crate::model::group::group_contains_cell;
use crate::model::group::lemma_cell_in_groups;
use crate::model::group::lemma_group_cell_in_group;
use crate::model::group::Group;
use crate::model::index::CellIndex;

verus! {

broadcast use lemma_digit_set_members;

/// The number of cells among the first `upto` positions of the group whose
/// candidate set holds the digit.
pub open spec fn group_digit_count(cells: Seq<DigitSet>, group: int, digit: int, upto: int) -> int
    decreases upto,
{
    if upto <= 0 {
        0
    } else {
        group_digit_count(cells, group, digit, upto - 1) + if cells[group_cell(
            group,
            upto - 1,
        )]@.contains(digit) {
            1int
        } else {
            0
        }
    }
}

/// The count over a group lies between 0 and `upto`.
pub proof fn lemma_group_digit_count_bounds(cells: Seq<DigitSet>, group: int, digit: int, upto: int)
    requires
        0 <= upto,
    ensures
        0 <= group_digit_count(cells, group, digit, upto) <= upto,
    decreases upto,
{
    if upto > 0 {
        lemma_group_digit_count_bounds(cells, group, digit, upto - 1);
    }
}

/// A covered cell holding the digit makes the count positive.
pub proof fn lemma_group_digit_count_member(
    cells: Seq<DigitSet>,
    group: int,
    digit: int,
    cell: int,
)
    requires
        0 <= group < 27,
        0 <= cell < 81,
        group_contains_cell(group, cell),
        cells[cell]@.contains(digit),
    ensures
        group_digit_count(cells, group, digit, 9) >= 1,
{
    lemma_cell_in_groups(group, cell);
    lemma_group_digit_count_member_upto(cells, group, digit, cell, 9);
}

proof fn lemma_group_digit_count_member_upto(
    cells: Seq<DigitSet>,
    group: int,
    digit: int,
    cell: int,
    upto: int,
)
    requires
        0 <= group < 27,
        0 <= cell < 81,
        group_contains_cell(group, cell),
        cells[cell]@.contains(digit),
        cell_position(group, cell) < upto <= 9,
    ensures
        group_digit_count(cells, group, digit, upto) >= 1,
    decreases upto,
{
    lemma_cell_in_groups(group, cell);
    if cell_position(group, cell) == upto - 1 {
        lemma_group_digit_count_bounds(cells, group, digit, upto - 1);
    } else {
        lemma_group_digit_count_member_upto(cells, group, digit, cell, upto - 1);
    }
}

/// Updating one cell changes each group count by the difference at that cell,
/// for the groups covering it, and leaves every other group count unchanged.
pub proof fn lemma_group_digit_count_update(
    cells: Seq<DigitSet>,
    updated: Seq<DigitSet>,
    group: int,
    digit: int,
    cell: int,
)
    requires
        cells.len() == 81,
        updated == cells.update(cell, updated[cell]),
        0 <= cell < 81,
        0 <= group < 27,
    ensures
        group_digit_count(updated, group, digit, 9) == group_digit_count(cells, group, digit, 9)
            + if group_contains_cell(group, cell) {
            (if updated[cell]@.contains(digit) {
                1int
            } else {
                0
            }) - (if cells[cell]@.contains(digit) {
                1int
            } else {
                0
            })
        } else {
            0
        },
{
    if group_contains_cell(group, cell) {
        lemma_cell_in_groups(group, cell);
    }
    lemma_group_digit_count_update_upto(cells, updated, group, digit, cell, 9);
}

proof fn lemma_group_digit_count_update_upto(
    cells: Seq<DigitSet>,
    updated: Seq<DigitSet>,
    group: int,
    digit: int,
    cell: int,
    upto: int,
)
    requires
        cells.len() == 81,
        updated == cells.update(cell, updated[cell]),
        0 <= cell < 81,
        0 <= group < 27,
        0 <= upto <= 9,
    ensures
        group_digit_count(updated, group, digit, upto) == group_digit_count(
            cells,
            group,
            digit,
            upto,
        ) + if group_contains_cell(group, cell) && cell_position(group, cell) < upto {
            (if updated[cell]@.contains(digit) {
                1int
            } else {
                0
            }) - (if cells[cell]@.contains(digit) {
                1int
            } else {
                0
            })
        } else {
            0
        },
    decreases upto,
{
    if upto > 0 {
        lemma_group_digit_count_update_upto(cells, updated, group, digit, cell, upto - 1);
        let candidate = group_cell(group, upto - 1);
        lemma_group_cell_in_group(group, upto - 1);
        if candidate == cell {
            assert(group_contains_cell(group, cell) && cell_position(group, cell) == upto - 1);
        } else {
            if group_contains_cell(group, cell) {
                lemma_cell_in_groups(group, cell);
            }
            assert(updated[candidate] == cells[candidate]);
        }
    }
}

/// Keeps track of which values are possible in which position.
///
/// The key invariant, stated by `wf`, is that for every group and digit the
/// denormalized per-group counter equals the number of cells of the group
/// whose candidate set still holds the digit.
#[derive(Clone, Copy, Debug, PartialEq, Eq, Hash)]
pub struct PossibleValues {
    cells: [DigitSet; 81],
    group_counters: [DigitCounter; 27],
}

impl PossibleValues {
    /// The candidate sets, cell by cell.
    pub closed spec fn sets(self) -> Seq<DigitSet> {
        self.cells@
    }

    /// The candidate digits of the given cell.
    pub open spec fn candidates(self, cell: int) -> Set<int> {
        self.sets()[cell]@
    }

    /// The counter value for the given group and digit.
    pub closed spec fn counter(self, group: int, digit: int) -> int {
        self.group_counters@[group].spec_count(digit)
    }

    /// For every group and digit, the counter equals the number of cells of
    /// the group whose candidate set still holds the digit.
    pub open spec fn wf(self) -> bool {
        forall|group: int, digit: int|
            0 <= group < 27 && 1 <= digit <= 9 ==> #[trigger] self.counter(group, digit)
                == group_digit_count(self.sets(), group, digit, 9)
    }

    /// Every cell of `self` allows at most the candidates `other` allows.
    pub open spec fn shrinks_from(self, other: PossibleValues) -> bool {
        forall|cell: int|
            0 <= cell < 81 ==> #[trigger] self.candidates(cell).subset_of(other.candidates(cell))
    }

    /// Returns an all-possible values.
    pub fn all() -> (r: PossibleValues)
        ensures
            r.wf(),
            forall|cell: int|
                0 <= cell < 81 ==> #[trigger] r.candidates(cell) == vstd::set_lib::set_int_range(
                    1,
                    10,
                ),
    {
        let result = PossibleValues {
            cells: [DigitSet::full();81],
            group_counters: [DigitCounter::full();27],
        };
        proof {
            assert forall|group: int, digit: int|
                0 <= group < 27 && 1 <= digit <= 9 implies #[trigger] result.counter(group, digit)
                == group_digit_count(result.sets(), group, digit, 9) by {
                lemma_group_digit_count_all(result.sets(), group, digit, 9);
            }
        }
        result
    }

    /// Returns the possible digits for a given position.
    pub fn of_cell(&self, cell: CellIndex) -> (r: DigitSet)
        ensures
            r@ == self.candidates(cell@),
    {
        proof {
            use_type_invariant(&cell);
        }
        self.cells[cell.value()]
    }

    /// Returns the number of possibilities for each digit for a given group.
    pub fn of_group(&self, group: Group) -> (r: DigitCounter)
        ensures
            forall|digit: int| #[trigger] r.spec_count(digit) == self.counter(group@, digit),
    {
        let index = group.index().value();
        self.group_counters[index]
    }

    /// Resolves a digit for a given cell: removes every other candidate of
    /// that cell.
    ///
    /// Returns the set of removed digits: exactly the candidates the cell
    /// held before the call, minus the resolved digit.
    ///
    /// Does not adjust the possible values of any _other_ cell.
    pub fn resolve(&mut self, cell: CellIndex, digit: Digit) -> (r: DigitSet)
        requires
            old(self).wf(),
            old(self).candidates(cell@).contains(digit@),
        ensures
            final(self).wf(),
            final(self).candidates(cell@) == set![digit@],
            r@ == old(self).candidates(cell@).remove(digit@),
            forall|c: int|
                0 <= c < 81 && c != cell@ ==> #[trigger] final(self).candidates(c) == old(
                    self,
                ).candidates(c),
            final(self).shrinks_from(*old(self)),
    {
        proof {
            use_type_invariant(&cell);
            use_type_invariant(&digit);
        }
        let snapshot = self.of_cell(cell);
        let mut result = DigitSet::default();
        let mut d: usize = 1;
        while d <= 9
            invariant
                1 <= d <= 10,
                self.wf(),
                old(self).wf(),
                0 <= cell@ < 81,
                1 <= digit@ <= 9,
                old(self).candidates(cell@).contains(digit@),
                snapshot@ == old(self).candidates(cell@),
                forall|j: int|
                    #![trigger self.candidates(cell@).contains(j)]
                    self.candidates(cell@).contains(j) <==> (old(self).candidates(cell@).contains(
                        j,
                    ) && (j >= d || j == digit@)),
                forall|c: int|
                    0 <= c < 81 && c != cell@ ==> #[trigger] self.candidates(c) == old(
                        self,
                    ).candidates(c),
                forall|j: int|
                    #![trigger result@.contains(j)]
                    result@.contains(j) <==> (1 <= j < d && j != digit@ && old(self).candidates(
                        cell@,
                    ).contains(j)),
            decreases 10 - d,
        {
            let possibility = Digit::new(d).unwrap();
            if possibility.value() != digit.value() && snapshot.has(possibility) {
                self.remove_possibility(cell, possibility);
                result.add(possibility);
            }
            d = d + 1;
        }
        proof {
            assert(self.candidates(cell@) =~= set![digit@]);
            assert(result@ =~= old(self).candidates(cell@).remove(digit@));
        }
        result
    }

    /// Removes a possible digit in a specific position.
    ///
    /// Returns the removed digit if it was a candidate; if the digit is
    /// already not possible, nothing happens and absent is returned.
    pub fn remove_possibility(&mut self, cell: CellIndex, digit: Digit) -> (r: Option<Digit>)
        requires
            old(self).wf(),
        ensures
            final(self).wf(),
            r == if old(self).candidates(cell@).contains(digit@) {
                Some(digit)
            } else {
                None::<Digit>
            },
            !old(self).candidates(cell@).contains(digit@) ==> *final(self) == *old(self),
            final(self).candidates(cell@) == old(self).candidates(cell@).remove(digit@),
            forall|c: int|
                0 <= c < 81 && c != cell@ ==> #[trigger] final(self).candidates(c) == old(
                    self,
                ).candidates(c),
            forall|g: int, d: int|
                0 <= g < 27 && 1 <= d <= 9 ==> #[trigger] final(self).counter(g, d) == old(
                    self,
                ).counter(g, d) - if old(self).candidates(cell@).contains(digit@)
                    && group_contains_cell(g, cell@) && d == digit@ {
                    1int
                } else {
                    0
                },
            final(self).shrinks_from(*old(self)),
    {
        proof {
            use_type_invariant(&cell);
            use_type_invariant(&digit);
        }
        let index = cell.value();
        let mut slot = self.cells[index];

        if !slot.has(digit) {
            proof {
                assert(self.candidates(cell@) =~= old(self).candidates(cell@).remove(digit@));
            }
            return None;
        }

        slot.remove(digit);
        self.cells[index] = slot;

        proof {
            assert(self.sets() == old(self).sets().update(cell@, self.sets()[cell@]));
        }

        let groups = Group::groups(cell);
        proof {
            assert(group_contains_cell(groups@[0]@, cell@));
            assert(group_contains_cell(groups@[1]@, cell@));
            assert(group_contains_cell(groups@[2]@, cell@));
            lemma_group_digit_count_member(old(self).sets(), groups@[0]@, digit@, cell@);
            lemma_group_digit_count_member(old(self).sets(), groups@[1]@, digit@, cell@);
            lemma_group_digit_count_member(old(self).sets(), groups@[2]@, digit@, cell@);
            assert(self.counter(groups@[0]@, digit@) == old(self).counter(groups@[0]@, digit@));
            assert(old(self).counter(groups@[0]@, digit@) == group_digit_count(
                old(self).sets(),
                groups@[0]@,
                digit@,
                9,
            ));
            assert(old(self).counter(groups@[1]@, digit@) == group_digit_count(
                old(self).sets(),
                groups@[1]@,
                digit@,
                9,
            ));
            assert(old(self).counter(groups@[2]@, digit@) == group_digit_count(
                old(self).sets(),
                groups@[2]@,
                digit@,
                9,
            ));
            assert(groups@[0]@ < 9 && 9 <= groups@[1]@ < 18 && 18 <= groups@[2]@ < 27);
        }
        self.decrement_group(groups[0], digit);
        self.decrement_group(groups[1], digit);
        self.decrement_group(groups[2], digit);
        proof {
            assert forall|g: int, d: int| 0 <= g < 27 && 1 <= d <= 9 implies #[trigger] self
                .counter(g, d) == group_digit_count(self.sets(), g, d, 9) by {
                lemma_group_digit_count_update(old(self).sets(), self.sets(), g, d, cell@);
                assert(old(self).counter(g, d) == group_digit_count(old(self).sets(), g, d, 9));
                if group_contains_cell(g, cell@) && d == digit@ {
                    assert(g == groups@[0]@ || g == groups@[1]@ || g == groups@[2]@);
                    assert(self.counter(g, d) == old(self).counter(g, d) - 1);
                } else {
                    assert(self.counter(g, d) == old(self).counter(g, d));
                }
            }
            assert(self.candidates(cell@) =~= old(self).candidates(cell@).remove(digit@));
            assert forall|c: int| 0 <= c < 81 implies #[trigger] self.candidates(c).subset_of(
                old(self).candidates(c),
            ) by {}
        }
        Some(digit)
    }

    /// Decrements the counter of the given group for the given digit,
    /// leaving every other counter and every candidate set unchanged.
    fn decrement_group(&mut self, group: Group, digit: Digit)
        requires
            old(self).counter(group@, digit@) >= 1,
        ensures
            final(self).sets() == old(self).sets(),
            final(self).counter(group@, digit@) == old(self).counter(group@, digit@) - 1,
            forall|g: int, d: int|
                0 <= g < 27 && 1 <= d <= 9 && !(g == group@ && d == digit@)
                    ==> #[trigger] final(self).counter(g, d) == old(self).counter(g, d),
    {
        proof {
            use_type_invariant(&digit);
        }
        let group_index = group.index().value();
        let mut counter = self.group_counters[group_index];
        counter.decrement(digit);
        self.group_counters[group_index] = counter;
        proof {
            assert forall|g: int, d: int|
                0 <= g < 27 && 1 <= d <= 9 && !(g == group@ && d == digit@) implies #[trigger] self
                .counter(g, d) == old(self).counter(g, d) by {
                if g == group@ {
                    assert(self.counter(g, d) == counter.spec_count(d));
                }
            }
        }
    }
}

impl PossibleValues {
    /// The total number of candidates over the first `upto` cells.
    pub open spec fn total_candidates(self, upto: int) -> int
        decreases upto,
    {
        if upto <= 0 {
            0
        } else {
            self.total_candidates(upto - 1) + self.candidates(upto - 1).len()
        }
    }
}

/// The total number of candidates is never negative.
pub proof fn lemma_total_candidates_nonneg(values: PossibleValues, upto: int)
    requires
        0 <= upto,
    ensures
        0 <= values.total_candidates(upto),
    decreases upto,
{
    if upto > 0 {
        lemma_total_candidates_nonneg(values, upto - 1);
    }
}

/// With every digit possible in every cell, the total candidate count over
/// the first `upto` cells is full.
pub proof fn lemma_total_candidates_full(values: PossibleValues, upto: int)
    requires
        0 <= upto <= 81,
        forall|c: int|
            0 <= c < 81 ==> #[trigger] values.candidates(c) == vstd::set_lib::set_int_range(1, 10),
    ensures
        values.total_candidates(upto) == upto * 9,
    decreases upto,
{
    vstd::set_lib::lemma_int_range(1, 10);
    if upto > 0 {
        lemma_total_candidates_full(values, upto - 1);
    }
}

/// When all cells but one keep their candidates, the total changes by the
/// difference at that cell.
pub proof fn lemma_total_candidates_update(before: PossibleValues, after: PossibleValues, cell: int)
    requires
        0 <= cell < 81,
        forall|c: int|
            0 <= c < 81 && c != cell ==> #[trigger] after.candidates(c) == before.candidates(c),
    ensures
        after.total_candidates(81) == before.total_candidates(81) + after.candidates(cell).len()
            - before.candidates(cell).len(),
{
    lemma_total_candidates_update_upto(before, after, cell, 81);
}

proof fn lemma_total_candidates_update_upto(
    before: PossibleValues,
    after: PossibleValues,
    cell: int,
    upto: int,
)
    requires
        0 <= cell < 81,
        0 <= upto <= 81,
        forall|c: int|
            0 <= c < 81 && c != cell ==> #[trigger] after.candidates(c) == before.candidates(c),
    ensures
        after.total_candidates(upto) == before.total_candidates(upto) + if cell < upto {
            after.candidates(cell).len() - before.candidates(cell).len()
        } else {
            0
        },
    decreases upto,
{
    if upto > 0 {
        lemma_total_candidates_update_upto(before, after, cell, upto - 1);
    }
}

/// Where every cell of `after` allows at most the candidates of `before`,
/// no cell's candidate count increases.
///
/// Candidate sets only ever shrink over a solve run, so the size of
/// `of_cell(c)` never increases, for any cell `c`.
pub proof fn lemma_shrinks_sizes(after: PossibleValues, before: PossibleValues)
    requires
        after.shrinks_from(before),
    ensures
        forall|cell: int|
            0 <= cell < 81 ==> #[trigger] after.candidates(cell).len() <= before.candidates(
                cell,
            ).len(),
{
    assert forall|cell: int|
        0 <= cell < 81 implies #[trigger] after.candidates(cell).len() <= before.candidates(
        cell,
    ).len() by {
        crate::model::digit_set::lemma_digit_set_finite(before.sets()[cell]);
        vstd::set_lib::lemma_len_subset(after.candidates(cell), before.candidates(cell));
    }
}

/// Where no cell's candidates changed in total and every cell only shrank,
/// no cell changed at all.
pub proof fn lemma_shrinks_total_equal(after: PossibleValues, before: PossibleValues)
    requires
        after.shrinks_from(before),
        after.total_candidates(81) == before.total_candidates(81),
    ensures
        forall|cell: int|
            0 <= cell < 81 ==> #[trigger] after.candidates(cell) == before.candidates(cell),
{
    lemma_shrinks_sizes(after, before);
    lemma_total_pointwise(after, before, 81);
    assert forall|cell: int| 0 <= cell < 81 implies #[trigger] after.candidates(cell)
        == before.candidates(cell) by {
        crate::model::digit_set::lemma_digit_set_finite(before.sets()[cell]);
        if after.candidates(cell) != before.candidates(cell) {
            assert(!(after.candidates(cell) =~= before.candidates(cell)));
            assert(exists|d: int|
                before.candidates(cell).contains(d) != after.candidates(cell).contains(d));
            let missing = choose|d: int|
                before.candidates(cell).contains(d) != after.candidates(cell).contains(d);
            assert(after.candidates(cell).subset_of(before.candidates(cell)));
            assert(before.candidates(cell).contains(missing) && !after.candidates(cell).contains(
                missing,
            ));
            after.candidates(cell).lemma_subset_not_in_lt(before.candidates(cell), missing);
        }
    }
}

proof fn lemma_total_pointwise(after: PossibleValues, before: PossibleValues, upto: int)
    requires
        0 <= upto <= 81,
        forall|cell: int|
            0 <= cell < 81 ==> #[trigger] after.candidates(cell).len() <= before.candidates(
                cell,
            ).len(),
        after.total_candidates(upto) >= before.total_candidates(upto),
    ensures
        forall|cell: int|
            0 <= cell < upto ==> #[trigger] after.candidates(cell).len() == before.candidates(
                cell,
            ).len(),
    decreases upto,
{
    if upto > 0 {
        lemma_total_le(after, before, upto - 1);
        lemma_total_pointwise(after, before, upto - 1);
    }
}

proof fn lemma_total_le(after: PossibleValues, before: PossibleValues, upto: int)
    requires
        0 <= upto <= 81,
        forall|cell: int|
            0 <= cell < 81 ==> #[trigger] after.candidates(cell).len() <= before.candidates(
                cell,
            ).len(),
    ensures
        after.total_candidates(upto) <= before.total_candidates(upto),
    decreases upto,
{
    if upto > 0 {
        lemma_total_le(after, before, upto - 1);
    }
}

/// Shrinking is transitive.
pub proof fn lemma_shrinks_trans(a: PossibleValues, b: PossibleValues, c: PossibleValues)
    requires
        a.shrinks_from(b),
        b.shrinks_from(c),
    ensures
        a.shrinks_from(c),
{
    assert forall|cell: int| 0 <= cell < 81 implies #[trigger] a.candidates(cell).subset_of(
        c.candidates(cell),
    ) by {
        assert(a.candidates(cell).subset_of(b.candidates(cell)));
        assert(b.candidates(cell).subset_of(c.candidates(cell)));
    }
}

/// With every candidate set full, every group count is full.
proof fn lemma_group_digit_count_all(cells: Seq<DigitSet>, group: int, digit: int, upto: int)
    requires
        0 <= group < 27,
        1 <= digit <= 9,
        0 <= upto <= 9,
        cells.len() == 81,
        forall|c: int|
            0 <= c < 81 ==> #[trigger] cells[c]@ == vstd::set_lib::set_int_range(1, 10),
    ensures
        group_digit_count(cells, group, digit, upto) == upto,
    decreases upto,
{
    if upto > 0 {
        lemma_group_digit_count_all(cells, group, digit, upto - 1);
        lemma_group_cell_in_group(group, upto - 1);
    }
}

/// After a removal of a digit from a cell, the digit is no longer a candidate
/// of that cell: a second `remove_possibility` of the same digit therefore
/// returns absent and, by its contract, changes no state.
pub proof fn lemma_remove_possibility_idempotent(
    before: PossibleValues,
    after: PossibleValues,
    cell: int,
    digit: int,
)
    requires
        after.candidates(cell) == before.candidates(cell).remove(digit),
    ensures
        !after.candidates(cell).contains(digit),
{
}

} // verus!
