//! The Analyzer, which performs and keeps track of the various analyses.

use vstd::prelude::*;

use crate::model::cell_set::CellSet;
use crate::model::digit::Digit;
use crate::model::digit_set::lemma_digit_set_finite;
use crate::model::digit_set::lemma_digit_set_members;
use crate::model::digit_set::DigitSet;
use crate::model::digit_set::DigitSetIterator;
use crate::model::dimension::DIMENSION;
use crate::model::dimension::SQUARE_DIMENSION;
use crate::model::group::group_contains_cell;
use crate::model::group::cell_position;
use crate::model::group::group_cell;
use crate::model::group::lemma_cell_in_groups;
use crate::model::group::lemma_group_cell_in_group;
use crate::model::group::Group;
use crate::model::group_set::GroupSet;
use crate::model::group_set::GroupSetIterator;
use crate::model::group_set::lemma_group_set_members;
use crate::model::index::column_of;
use crate::model::index::row_of;
use crate::model::index::square_of;
use crate::model::index::CellIndex;
use crate::solver::analysis::Analysis;
use crate::solver::analysis::NUMBER_ANALYSIS;
use crate::solver::journal::extends;
use crate::solver::journal::JournalMultiCursor;
use crate::solver::journal::JournalReader;
use crate::solver::journal::JournalWriter;
use crate::solver::placement::Placement;
use crate::solver::possible_values::group_digit_count;
use crate::solver::possible_values::lemma_total_candidates_update;
use crate::solver::possible_values::PossibleValues;
use crate::solver::refinement::Refinement;
use crate::solver::refinement::RefinementReason;

verus! {

broadcast use lemma_digit_set_finite, lemma_digit_set_members, lemma_group_set_members;

/// Whether the journal holds a refinement removing `digit` from `cell`.
pub open spec fn journal_refines(events: Seq<Refinement>, cell: int, digit: int) -> bool {
    exists|k: int|
        0 <= k < events.len() && (#[trigger] events[k]).spec_cell()@ == cell
            && events[k].spec_removed()@ == digit
}

/// How the GroupInclusion analysis handles one group for one digit: when
/// the digit can still appear in exactly one cell of the group, that cell
/// collapses to the digit and every other cell keeps its candidates;
/// otherwise nothing changes.
pub open spec fn group_inclusion_applied(
    pre: PossibleValues,
    post: PossibleValues,
    group: int,
    digit: int,
) -> bool {
    if pre.counter(group, digit) == 1 {
        exists|holder: int|
            #![auto]
            0 <= holder < 81 && group_contains_cell(group, holder) && pre.candidates(
                holder,
            ).contains(digit) && post.candidates(holder) == set![digit] && forall|c: int|
                0 <= c < 81 && c != holder ==> post.candidates(c) == pre.candidates(c)
    } else {
        post == pre
    }
}

/// The cross-cutting group at the given slot for a cell of the including
/// group, in the order `other_groups` yields them: for a column, its row
/// then its square; for a row, its column then its square; for a square,
/// its column then its row.
pub open spec fn overlap_group_at(includer: int, cell: int, slot: int) -> int {
    if includer < 9 {
        if slot == 0 {
            9 + row_of(cell)
        } else {
            18 + square_of(cell)
        }
    } else if includer < 18 {
        if slot == 0 {
            column_of(cell)
        } else {
            18 + square_of(cell)
        }
    } else {
        if slot == 0 {
            column_of(cell)
        } else {
            9 + row_of(cell)
        }
    }
}

/// The cross-cutting groups, of the given slot's kind, of the cells among
/// the first `upto` positions of the including group that still hold the
/// digit.
pub open spec fn overlap_groups_upto(
    pv: PossibleValues,
    includer: int,
    digit: int,
    slot: int,
    upto: int,
) -> Set<int> {
    Set::new(
        |h: int|
            exists|p: int|
                0 <= p < upto && #[trigger] pv.candidates(group_cell(includer, p)).contains(digit)
                    && h == overlap_group_at(includer, group_cell(includer, p), slot),
    )
}

/// The cross-cutting groups, of the given slot's kind, of the cells of the
/// including group that still hold the digit.
pub open spec fn overlap_groups(pv: PossibleValues, includer: int, digit: int, slot: int) -> Set<
    int,
> {
    overlap_groups_upto(pv, includer, digit, slot, 9)
}

/// How one overlap set is handled by the GroupOverlap analysis: when it
/// holds a single group, the digit leaves every cell of that group outside
/// the including group; otherwise nothing changes.
pub open spec fn overlap_set_applied(
    pre: PossibleValues,
    post: PossibleValues,
    includer: int,
    digit: int,
    overlapping: Set<int>,
) -> bool {
    if overlapping.len() == 1 {
        exists|h: int|
            #![auto]
            overlapping.contains(h) && 0 <= h < 27 && forall|c: int|
                0 <= c < 81 ==> post.candidates(c) == (if group_contains_cell(h, c)
                    && !group_contains_cell(includer, c) {
                    pre.candidates(c).remove(digit)
                } else {
                    pre.candidates(c)
                })
    } else {
        post == pre
    }
}

/// How the GroupOverlap analysis handles one including group: when the digit
/// cannot fill more cells than a slice holds and still has a candidate cell,
/// the two overlap sets computed from the incoming state are applied in
/// order; otherwise nothing changes.
pub open spec fn group_overlap_applied(
    pre: PossibleValues,
    post: PossibleValues,
    includer: int,
    digit: int,
) -> bool {
    if pre.counter(includer, digit) <= 3 && overlap_groups(pre, includer, digit, 0) != Set::<
        int,
    >::empty() {
        exists|mid: PossibleValues|
            #![auto]
            overlap_set_applied(pre, mid, includer, digit, overlap_groups(pre, includer, digit, 0))
                && overlap_set_applied(
                mid,
                post,
                includer,
                digit,
                overlap_groups(pre, includer, digit, 1),
            )
    } else {
        post == pre
    }
}

/// The pointing-pair law: when the Group Overlap analysis examines an
/// including group in a state where the digit's remaining candidate cells all
/// lie in one cross-cutting group of the first kind, the digit is afterwards
/// impossible in every cell of that cross-cutting group outside the including
/// one.
pub proof fn lemma_pointing_pair(
    pre: PossibleValues,
    post: PossibleValues,
    includer: int,
    digit: int,
    guide: int,
)
    requires
        pre.counter(includer, digit) <= 3,
        overlap_groups(pre, includer, digit, 0) == set![guide],
        group_overlap_applied(pre, post, includer, digit),
    ensures
        forall|c: int|
            0 <= c < 81 && group_contains_cell(guide, c) && !group_contains_cell(includer, c)
                ==> !(#[trigger] post.candidates(c)).contains(digit),
{
    assert(overlap_groups(pre, includer, digit, 0).contains(guide));
    assert(overlap_groups(pre, includer, digit, 0) != Set::<int>::empty());
    assert(set![guide].len() == 1) by {
        assert(set![guide] =~= Set::<int>::empty().insert(guide));
    }
    let mid = choose|mid: PossibleValues|
        #![auto]
        overlap_set_applied(pre, mid, includer, digit, overlap_groups(pre, includer, digit, 0))
            && overlap_set_applied(
            mid,
            post,
            includer,
            digit,
            overlap_groups(pre, includer, digit, 1),
        );
    let h = choose|h: int|
        #![auto]
        set![guide].contains(h) && 0 <= h < 27 && forall|c: int|
            0 <= c < 81 ==> mid.candidates(c) == (if group_contains_cell(h, c)
                && !group_contains_cell(includer, c) {
                pre.candidates(c).remove(digit)
            } else {
                pre.candidates(c)
            });
    assert(h == guide);
    assert forall|c: int|
        0 <= c < 81 && group_contains_cell(guide, c) && !group_contains_cell(
            includer,
            c,
        ) implies !(#[trigger] post.candidates(c)).contains(digit) by {
        assert(!mid.candidates(c).contains(digit));
        if overlap_groups(pre, includer, digit, 1).len() == 1 {
            let h1 = choose|h1: int|
                #![auto]
                overlap_groups(pre, includer, digit, 1).contains(h1) && 0 <= h1 < 27 && forall|
                    o: int,
                |
                    0 <= o < 81 ==> post.candidates(o) == (if group_contains_cell(h1, o)
                        && !group_contains_cell(includer, o) {
                        mid.candidates(o).remove(digit)
                    } else {
                        mid.candidates(o)
                    });
            assert(post.candidates(c) == mid.candidates(c) || post.candidates(c)
                == mid.candidates(c).remove(digit));
        } else {
            assert(post == mid);
        }
    }
}

/// The naked-subset law: when the Group Subset Inclusion analysis examines a
/// group in which exactly as many cells confine the snapshot of candidate
/// digits as the snapshot holds digits, every other cell of the group loses
/// every snapshot digit.
pub proof fn lemma_naked_subset(
    q: PossibleValues,
    post: PossibleValues,
    group: int,
    cell: int,
    snapshot: Set<int>,
)
    requires
        subset_cells(q, group, cell, snapshot).len() == snapshot.len(),
        subset_group_applied(q, post, group, cell, snapshot),
    ensures
        forall|c: int|
            0 <= c < 81 && group_contains_cell(group, c) && !subset_cells(
                q,
                group,
                cell,
                snapshot,
            ).contains(c) ==> #[trigger] post.candidates(c) == q.candidates(c).difference(snapshot),
{
}

/// The cells confining the snapshot among the first `upto` positions of the
/// group: the examined cell itself, plus every scanned cell of the group
/// whose candidates lie within the snapshot.
pub open spec fn subset_cells_upto(
    q: PossibleValues,
    group: int,
    cell: int,
    snapshot: Set<int>,
    upto: int,
) -> Set<int> {
    Set::new(
        |o: int|
            o == cell || (exists|p: int|
                0 <= p < upto && o == group_cell(group, p) && o != cell && #[trigger] q.candidates(
                    group_cell(group, p),
                ).subset_of(snapshot)),
    )
}

/// The cells of the group confining the snapshot of candidate digits: the
/// examined cell itself, plus every other cell of the group whose candidates
/// lie within the snapshot.
pub open spec fn subset_cells(
    q: PossibleValues,
    group: int,
    cell: int,
    snapshot: Set<int>,
) -> Set<int> {
    Set::new(
        |o: int|
            o == cell || (0 <= o < 81 && group_contains_cell(group, o) && o != cell
                && q.candidates(o).subset_of(snapshot)),
    )
}

/// How the GroupSubsetInclusion analysis handles one group for one examined
/// cell: when exactly as many cells of the group confine the snapshot as the
/// snapshot holds digits, those digits leave every other cell of the group;
/// otherwise nothing changes.
pub open spec fn subset_group_applied(
    q: PossibleValues,
    post: PossibleValues,
    group: int,
    cell: int,
    snapshot: Set<int>,
) -> bool {
    if subset_cells(q, group, cell, snapshot).len() == snapshot.len() {
        forall|c: int|
            0 <= c < 81 ==> post.candidates(c) == (if group_contains_cell(group, c)
                && !subset_cells(q, group, cell, snapshot).contains(c) {
                q.candidates(c).difference(snapshot)
            } else {
                q.candidates(c)
            })
    } else {
        post == q
    }
}

/// How the GroupSubsetInclusion analysis re-examines one cell: when its
/// candidate set holds between 2 and 4 digits, its three covering groups are
/// handled in order against that snapshot; otherwise nothing changes.
pub open spec fn subset_cell_applied(pre: PossibleValues, post: PossibleValues, cell: int) -> bool {
    if 2 <= pre.candidates(cell).len() <= 4 {
        exists|mid1: PossibleValues, mid2: PossibleValues|
            #![auto]
            subset_group_applied(
                pre,
                mid1,
                crate::model::group::covering_group(cell, 0),
                cell,
                pre.candidates(cell),
            ) && subset_group_applied(
                mid1,
                mid2,
                crate::model::group::covering_group(cell, 1),
                cell,
                pre.candidates(cell),
            ) && subset_group_applied(
                mid2,
                post,
                crate::model::group::covering_group(cell, 2),
                cell,
                pre.candidates(cell),
            )
    } else {
        post == pre
    }
}

/// The analysis/stream combinations `analyze` drains, in its fixed
/// cheapest-to-most-expensive order: for each analysis rank, its placement
/// stream first, then its refinement stream.
pub open spec fn combo_advanced_iff(pre: Analyzer, post: Analyzer, m: int, placements: int) -> bool {
    if m % 2 == 0 {
        post.pcur(m / 2) == (if pre.pcur(m / 2) < placements {
            pre.pcur(m / 2) + 1
        } else {
            pre.pcur(m / 2)
        })
    } else {
        post.rcur(m / 2) == (if pre.rcur(m / 2) < pre.log().len() {
            pre.rcur(m / 2) + 1
        } else {
            pre.rcur(m / 2)
        })
    }
}

/// The combination drained a pending event.
pub open spec fn combo_advanced(pre: Analyzer, post: Analyzer, m: int, placements: int) -> bool {
    if m % 2 == 0 {
        pre.pcur(m / 2) < placements && post.pcur(m / 2) == pre.pcur(m / 2) + 1
    } else {
        pre.rcur(m / 2) < pre.log().len() && post.rcur(m / 2) == pre.rcur(m / 2) + 1
    }
}

/// The combination's cursor did not move.
pub open spec fn combo_unchanged(pre: Analyzer, post: Analyzer, m: int) -> bool {
    if m % 2 == 0 {
        post.pcur(m / 2) == pre.pcur(m / 2)
    } else {
        post.rcur(m / 2) == pre.rcur(m / 2)
    }
}

/// The Analyzer can incrementally perform the various analyses.
///
/// It owns its copy of the possible values, the refinement journal it writes,
/// and, for each of the five analyses, one cursor over the placement journal
/// and one over the refinement journal.
#[derive(Clone, Debug)]
pub struct Analyzer {
    //  The meta-data is owned, to ensure it is not modified behind the
    //  analyzer's back.
    possible_values: PossibleValues,
    //  Journal of refinements.
    refinements: JournalWriter<Refinement>,
    //  Cursors over placements, one per analysis.
    placements_cursors: JournalMultiCursor<NUMBER_ANALYSIS>,
    //  Cursors over refinements, one per analysis.
    refinements_cursors: JournalMultiCursor<NUMBER_ANALYSIS>,
}

impl Analyzer {
    /// The analyzer's copy of the possible values.
    pub closed spec fn pv(self) -> PossibleValues {
        self.possible_values
    }

    /// The sequence of refinements appended so far.
    pub closed spec fn log(self) -> Seq<Refinement> {
        self.refinements@
    }

    /// The position of the given analysis' cursor over the placement journal.
    pub closed spec fn pcur(self, index: int) -> int {
        self.placements_cursors.position(index)
    }

    /// The position of the given analysis' cursor over the refinement
    /// journal.
    pub closed spec fn rcur(self, index: int) -> int {
        self.refinements_cursors.position(index)
    }

    /// The possible values are consistent, the refinement cursors have not
    /// outrun the refinement journal, and the journal replays the candidate
    /// state: a digit remains possible in a cell exactly when no journaled
    /// refinement removed it there, and no removal is journaled twice.
    pub open spec fn wf(self) -> bool {
        &&& self.pv().wf()
        &&& forall|i: int| 0 <= i < 5 ==> 0 <= #[trigger] self.rcur(i) <= self.log().len()
        &&& forall|c: int, d: int|
            0 <= c < 81 && 1 <= d <= 9 ==> (#[trigger] self.pv().candidates(c).contains(d)
                <==> !journal_refines(self.log(), c, d))
        &&& forall|k1: int, k2: int|
            0 <= k1 < k2 < self.log().len() ==> !((#[trigger] self.log()[k1]).spec_cell()
                == (#[trigger] self.log()[k2]).spec_cell() && self.log()[k1].spec_removed()
                == self.log()[k2].spec_removed())
    }

    /// How `self` relates to an earlier state of the analyzer: candidates
    /// only shrink, the refinement journal only grows, and exactly one
    /// candidate was removed for every refinement appended.
    pub open spec fn evolves_from(self, other: Analyzer) -> bool {
        &&& self.pv().shrinks_from(other.pv())
        &&& extends(self.log(), other.log())
        &&& self.log().len() + self.pv().total_candidates(81) == other.log().len()
            + other.pv().total_candidates(81)
    }

    /// `evolves_from`, with every cursor untouched.
    pub open spec fn steps_from(self, other: Analyzer) -> bool {
        &&& self.evolves_from(other)
        &&& forall|i: int| 0 <= i < 5 ==> #[trigger] self.pcur(i) == other.pcur(i)
        &&& forall|i: int| 0 <= i < 5 ==> #[trigger] self.rcur(i) == other.rcur(i)
    }

    /// Whether every cursor has caught up with its journal, the placement
    /// journal holding `placements` events.
    pub open spec fn done_spec(self, placements: int) -> bool {
        forall|i: int|
            0 <= i < 5 ==> #[trigger] self.pcur(i) == placements && self.rcur(i)
                == self.log().len()
    }

    /// The number of events not yet handled, over all ten cursors, the
    /// placement journal holding `placements` events.
    pub open spec fn pending(self, placements: int) -> int {
        self.pending_from(placements, 0)
    }

    /// The number of events not yet handled by the cursors of the analyses
    /// of rank `index` onwards.
    pub open spec fn pending_from(self, placements: int, index: int) -> int
        decreases 5 - index,
    {
        if index >= 5 {
            0
        } else {
            (placements - self.pcur(index)) + (self.log().len() - self.rcur(index))
                + self.pending_from(placements, index + 1)
        }
    }

    /// Creates an Analyzer.
    pub fn new() -> (r: Self)
        ensures
            r.wf(),
            r.log() == Seq::<Refinement>::empty(),
            forall|i: int| 0 <= i < 5 ==> #[trigger] r.pcur(i) == 0,
            forall|i: int| 0 <= i < 5 ==> #[trigger] r.rcur(i) == 0,
            forall|cell: int|
                0 <= cell < 81 ==> #[trigger] r.pv().candidates(cell)
                    == vstd::set_lib::set_int_range(1, 10),
    {
        Self {
            possible_values: PossibleValues::all(),
            refinements: JournalWriter::new(),
            placements_cursors: JournalMultiCursor::new(),
            refinements_cursors: JournalMultiCursor::new(),
        }
    }

    /// Returns the current possible values.
    pub fn possible_values(&self) -> (r: PossibleValues)
        ensures
            r == self.pv(),
    {
        self.possible_values
    }

    /// Returns a handle over the refinements.
    pub fn refinements(&self) -> (r: JournalReader<'_, Refinement>)
        ensures
            r@ == self.log(),
    {
        self.refinements.reader()
    }

    /// Returns the refinement journal itself.
    pub(crate) fn refinement_journal(&self) -> (r: &JournalWriter<Refinement>)
        ensures
            r@ == self.log(),
    {
        &self.refinements
    }

    /// Returns whether the Analyzer is done with analyses so far.
    pub fn is_done(&self, placements: &JournalWriter<Placement>) -> (r: bool)
        ensures
            r <==> self.done_spec(placements@.len() as int),
    {
        let mut index: usize = 0;
        while index < NUMBER_ANALYSIS
            invariant
                index <= 5,
                forall|i: int|
                    0 <= i < index ==> #[trigger] self.pcur(i) == placements@.len() && self.rcur(i)
                        == self.log().len(),
            decreases 5 - index,
        {
            if !self.placements_cursors.is_done(index, placements) {
                proof {
                    assert(self.pcur(index as int) != placements@.len());
                }
                return false;
            }
            if !self.refinements_cursors.is_done(index, &self.refinements) {
                proof {
                    assert(self.pcur(index as int) == placements@.len());
                    assert(self.rcur(index as int) != self.log().len());
                }
                return false;
            }
            proof {
                assert(self.pcur(index as int) == placements@.len());
                assert(self.rcur(index as int) == self.log().len());
                assert forall|i: int|
                    0 <= i < index + 1 implies #[trigger] self.pcur(i) == placements@.len()
                    && self.rcur(i) == self.log().len() by {
                    if i == index {
                        assert(self.pcur(index as int) == placements@.len());
                        assert(self.rcur(index as int) == self.log().len());
                    }
                }
            }
            index = index + 1;
        }
        true
    }

    /// Removes the digit from the cell's candidates if still present; on an
    /// actual removal, appends a Refinement with the given reason.
    ///
    /// Returns whether a removal took place.
    fn remove_and_journal(&mut self, cell: CellIndex, digit: Digit, reason: RefinementReason) -> (r:
        bool)
        requires
            old(self).wf(),
        ensures
            final(self).wf(),
            final(self).steps_from(*old(self)),
            r == old(self).pv().candidates(cell@).contains(digit@),
            final(self).pv().candidates(cell@) == old(self).pv().candidates(cell@).remove(digit@),
            forall|c: int|
                0 <= c < 81 && c != cell@ ==> #[trigger] final(self).pv().candidates(c) == old(
                    self,
                ).pv().candidates(c),
            final(self).log().len() == old(self).log().len() + (if r {
                1int
            } else {
                0
            }),
            r ==> final(self).log() == old(self).log().push(final(self).log().last())
                && final(self).log().last().spec_cell() == cell
                && final(self).log().last().spec_removed() == digit
                && final(self).log().last().spec_reason() == reason,
            !r ==> final(self).log() == old(self).log(),
    {
        proof {
            use_type_invariant(&cell);
        }
        let removed = self.possible_values.remove_possibility(cell, digit);
        proof {
            lemma_total_candidates_update(old(self).pv(), self.pv(), cell@);
        }
        if removed.is_some() {
            self.refinements.append_event(Refinement::new(cell, digit, reason));
            proof {
                assert(self.log().take(old(self).log().len() as int) =~= old(self).log());
                assert forall|i: int| 0 <= i < 5 implies 0 <= #[trigger] self.rcur(i)
                    <= self.log().len() by {
                    assert(self.rcur(i) == old(self).rcur(i));
                }
            }
            true
        } else {
            proof {
                assert(self.log().take(old(self).log().len() as int) =~= old(self).log());
                assert forall|i: int| 0 <= i < 5 implies 0 <= #[trigger] self.rcur(i)
                    <= self.log().len() by {
                    assert(self.rcur(i) == old(self).rcur(i));
                }
            }
            false
        }
    }

    /// Resolves the digit in the cell, appending a Refinement with the given
    /// reason for every candidate thereby removed.
    fn resolve_and_journal(&mut self, cell: CellIndex, digit: Digit, reason: RefinementReason)
        requires
            old(self).wf(),
            old(self).pv().candidates(cell@).contains(digit@),
        ensures
            final(self).wf(),
            final(self).steps_from(*old(self)),
            final(self).pv().candidates(cell@) == set![digit@],
            forall|c: int|
                0 <= c < 81 && c != cell@ ==> #[trigger] final(self).pv().candidates(c) == old(
                    self,
                ).pv().candidates(c),
            final(self).log().len() == old(self).log().len() + old(self).pv().candidates(
                cell@,
            ).len() - 1,
            forall|k: int|
                old(self).log().len() <= k < final(self).log().len() ==> {
                    let appended = #[trigger] final(self).log()[k];
                    &&& appended.spec_cell() == cell
                    &&& appended.spec_reason() == reason
                    &&& old(self).pv().candidates(cell@).contains(appended.spec_removed()@)
                    &&& appended.spec_removed()@ != digit@
                },
    {
        proof {
            use_type_invariant(&cell);
            use_type_invariant(&digit);
        }
        let removed = self.possible_values.resolve(cell, digit);
        proof {
            lemma_total_candidates_update(old(self).pv(), self.pv(), cell@);
            assert(set![digit@].len() == 1) by {
                assert(set![digit@] =~= Set::<int>::empty().insert(digit@));
            }
            assert(removed@.len() == old(self).pv().candidates(cell@).len() - 1);
        }
        let ghost resolved = *self;
        proof {
            assert(self.log().take(resolved.log().len() as int) =~= resolved.log());
        }
        let mut members = DigitSetIterator::new(removed);
        loop
            invariant
                self.pv() == resolved.pv(),
                self.placements_cursors == resolved.placements_cursors,
                self.refinements_cursors == resolved.refinements_cursors,
                extends(self.log(), resolved.log()),
                self.log().len() == resolved.log().len() + removed@.len() - members@.len(),
                members@.subset_of(removed@),
                forall|k: int|
                    resolved.log().len() <= k < self.log().len() ==> {
                        let appended = #[trigger] self.log()[k];
                        &&& appended.spec_cell() == cell
                        &&& appended.spec_reason() == reason
                        &&& removed@.contains(appended.spec_removed()@)
                    },
                forall|m: int|
                    #[trigger] members@.contains(m) ==> !journal_refines(self.log(), cell@, m),
                forall|c: int, d: int|
                    0 <= c < 81 && 1 <= d <= 9 ==> (#[trigger] self.pv().candidates(c).contains(d)
                        <==> !(journal_refines(self.log(), c, d) || (c == cell@
                        && members@.contains(d)))),
                forall|k1: int, k2: int|
                    0 <= k1 < k2 < self.log().len() ==> !((#[trigger] self.log()[k1]).spec_cell()
                        == (#[trigger] self.log()[k2]).spec_cell()
                        && self.log()[k1].spec_removed() == self.log()[k2].spec_removed()),
            ensures
                members@ == Set::<int>::empty(),
            decreases members@.len(),
        {
            let ghost journaled = self.log();
            let next = members.next();
            match next {
                Some(member) => {
                    self.refinements.append_event(Refinement::new(cell, member, reason));
                    proof {
                        use_type_invariant(&member);
                        assert(self.log().take(resolved.log().len() as int) =~= resolved.log());
                        let appended = self.log().last();
                        assert forall|c: int, d: int|
                            #[trigger] journal_refines(self.log(), c, d) implies journal_refines(
                            journaled,
                            c,
                            d,
                        ) || (c == cell@ && d == member@) by {
                            let k = choose|k: int|
                                0 <= k < self.log().len()
                                    && (#[trigger] self.log()[k]).spec_cell()@ == c
                                    && self.log()[k].spec_removed()@ == d;
                            if k < journaled.len() {
                                assert(journaled[k].spec_cell()@ == c);
                            }
                        }
                        assert forall|c: int, d: int|
                            #[trigger] journal_refines(journaled, c, d) implies journal_refines(
                            self.log(),
                            c,
                            d,
                        ) by {
                            let k = choose|k: int|
                                0 <= k < journaled.len() && (#[trigger] journaled[k]).spec_cell()@
                                    == c && journaled[k].spec_removed()@ == d;
                            assert(self.log()[k].spec_cell()@ == c);
                        }
                        assert(journal_refines(self.log(), cell@, member@)) by {
                            assert(self.log().last().spec_cell()@ == cell@);
                        }
                    }
                },
                None => {
                    break ;
                },
            }
        }
        proof {
            assert(self.log().take(old(self).log().len() as int) =~= old(self).log());
            assert forall|i: int| 0 <= i < 5 implies 0 <= #[trigger] self.rcur(i)
                <= self.log().len() by {
                assert(self.rcur(i) == old(self).rcur(i));
            }
        }
    }

    /// CellExclusion: a placed digit leaves no other digit possible in its
    /// cell; every other candidate of the cell is removed.
    fn apply_cell_exclusion(&mut self, placement: Placement)
        requires
            old(self).wf(),
        ensures
            final(self).wf(),
            final(self).steps_from(*old(self)),
            old(self).pv().candidates(placement.spec_cell()@).contains(placement.spec_digit()@)
                ==> final(self).pv().candidates(placement.spec_cell()@) == set![
                placement.spec_digit()@,
            ],
            !old(self).pv().candidates(placement.spec_cell()@).contains(placement.spec_digit()@)
                ==> final(self).pv() == old(self).pv(),
            forall|c: int|
                0 <= c < 81 && c != placement.spec_cell()@
                    ==> #[trigger] final(self).pv().candidates(c) == old(self).pv().candidates(c),
            forall|k: int|
                old(self).log().len() <= k < final(self).log().len() ==> {
                    let appended = #[trigger] final(self).log()[k];
                    &&& appended.spec_cell() == placement.spec_cell()
                    &&& appended.spec_reason() == RefinementReason::CellExclusion(
                        placement.spec_digit(),
                    )
                    &&& old(self).pv().candidates(placement.spec_cell()@).contains(
                        appended.spec_removed()@,
                    )
                    &&& appended.spec_removed()@ != placement.spec_digit()@
                },
    {
        let cell = placement.cell();
        let digit = placement.digit();

        if self.possible_values.of_cell(cell).has(digit) {
            self.resolve_and_journal(cell, digit, RefinementReason::CellExclusion(digit));
        } else {
            proof {
                lemma_steps_refl(*self);
            }
        }
    }

    /// GroupExclusion: a placed digit cannot appear in any other cell of the
    /// three groups covering its cell.
    #[verifier::rlimit(30)]
    fn apply_group_exclusion(&mut self, placement: Placement)
        requires
            old(self).wf(),
        ensures
            final(self).wf(),
            final(self).steps_from(*old(self)),
            forall|o: int|
                0 <= o < 81 ==> #[trigger] final(self).pv().candidates(o) == if o
                    != placement.spec_cell()@ && crate::model::group::cells_share_group(
                    placement.spec_cell()@,
                    o,
                ) {
                    old(self).pv().candidates(o).remove(placement.spec_digit()@)
                } else {
                    old(self).pv().candidates(o)
                },
            forall|k: int|
                old(self).log().len() <= k < final(self).log().len() ==> {
                    let appended = #[trigger] final(self).log()[k];
                    &&& appended.spec_removed() == placement.spec_digit()
                    &&& appended.spec_cell()@ != placement.spec_cell()@
                    &&& crate::model::group::cells_share_group(
                        placement.spec_cell()@,
                        appended.spec_cell()@,
                    )
                    &&& (appended.spec_reason() matches RefinementReason::GroupExclusion(
                        source,
                        guide,
                    ) && source == placement.spec_cell() && group_contains_cell(
                        guide@,
                        placement.spec_cell()@,
                    ) && group_contains_cell(guide@, appended.spec_cell()@))
                },
    {
        let cell = placement.cell();
        let digit = placement.digit();

        proof {
            use_type_invariant(&cell);
            lemma_steps_refl(*self);
        }
        let groups = Group::groups(cell);
        let mut which: usize = 0;
        while which < 3
            invariant
                which <= 3,
                0 <= cell@ < 81,
                cell == placement.spec_cell(),
                digit == placement.spec_digit(),
                self.wf(),
                self.steps_from(*old(self)),
                groups@[0]@ == crate::model::group::covering_group(cell@, 0),
                groups@[1]@ == crate::model::group::covering_group(cell@, 1),
                groups@[2]@ == crate::model::group::covering_group(cell@, 2),
                forall|o: int|
                    0 <= o < 81 ==> #[trigger] self.pv().candidates(o) == if o != cell@
                        && covered_before(cell@, o, which as int, 0) {
                        old(self).pv().candidates(o).remove(digit@)
                    } else {
                        old(self).pv().candidates(o)
                    },
                forall|k: int|
                    old(self).log().len() <= k < self.log().len() ==> {
                        let appended = #[trigger] self.log()[k];
                        &&& appended.spec_removed() == placement.spec_digit()
                        &&& appended.spec_cell()@ != placement.spec_cell()@
                        &&& crate::model::group::cells_share_group(
                            placement.spec_cell()@,
                            appended.spec_cell()@,
                        )
                        &&& (appended.spec_reason() matches RefinementReason::GroupExclusion(
                            source,
                            guide,
                        ) && source == placement.spec_cell() && group_contains_cell(
                            guide@,
                            placement.spec_cell()@,
                        ) && group_contains_cell(guide@, appended.spec_cell()@))
                    },
            decreases 3 - which,
        {
            let group = groups[which];
            let candidates = group.cells();
            let mut position: usize = 0;
            while position < 9
                invariant
                    position <= 9,
                    which < 3,
                    0 <= cell@ < 81,
                    self.wf(),
                    self.steps_from(*old(self)),
                    group@ == crate::model::group::covering_group(cell@, which as int),
                    forall|k: int|
                        0 <= k < 9 ==> #[trigger] candidates@[k]@
                            == crate::model::group::group_cell(group@, k),
                    forall|o: int|
                        0 <= o < 81 ==> #[trigger] self.pv().candidates(o) == if o != cell@
                            && covered_before(cell@, o, which as int, position as int) {
                            old(self).pv().candidates(o).remove(digit@)
                        } else {
                            old(self).pv().candidates(o)
                        },
                    cell == placement.spec_cell(),
                    digit == placement.spec_digit(),
                    forall|k: int|
                        old(self).log().len() <= k < self.log().len() ==> {
                            let appended = #[trigger] self.log()[k];
                            &&& appended.spec_removed() == placement.spec_digit()
                            &&& appended.spec_cell()@ != placement.spec_cell()@
                            &&& crate::model::group::cells_share_group(
                                placement.spec_cell()@,
                                appended.spec_cell()@,
                            )
                            &&& (appended.spec_reason() matches RefinementReason::GroupExclusion(
                                source,
                                guide,
                            ) && source == placement.spec_cell() && group_contains_cell(
                                guide@,
                                placement.spec_cell()@,
                            ) && group_contains_cell(guide@, appended.spec_cell()@))
                        },
                decreases 9 - position,
            {
                let other = candidates[position];
                proof {
                    lemma_group_cell_in_group(group@, position as int);
                }
                if other.value() != cell.value() {
                    let ghost previous = *self;
                    self.remove_and_journal(
                        other,
                        digit,
                        RefinementReason::GroupExclusion(cell, group),
                    );
                    proof {
                        lemma_steps_trans(*self, previous, *old(self));
                        assert(previous.pv().candidates(other@).remove(digit@) =~= old(
                            self,
                        ).pv().candidates(other@).remove(digit@));
                        crate::model::group::lemma_shared_group(group@, cell@, other@);
                        assert forall|k: int|
                            old(self).log().len() <= k < self.log().len() implies {
                            let appended = #[trigger] self.log()[k];
                            &&& appended.spec_removed() == placement.spec_digit()
                            &&& appended.spec_cell()@ != placement.spec_cell()@
                            &&& crate::model::group::cells_share_group(
                                placement.spec_cell()@,
                                appended.spec_cell()@,
                            )
                            &&& (appended.spec_reason() matches RefinementReason::GroupExclusion(
                                source,
                                guide,
                            ) && source == placement.spec_cell() && group_contains_cell(
                                guide@,
                                placement.spec_cell()@,
                            ) && group_contains_cell(guide@, appended.spec_cell()@))
                        } by {
                            if k < previous.log().len() {
                                assert(self.log()[k] == previous.log()[k]);
                            } else {
                                assert(self.log()[k] == self.log().last());
                            }
                        }
                    }
                }
                proof {
                    assert forall|o: int| 0 <= o < 81 implies #[trigger] self.pv().candidates(o)
                        == (if o != cell@ && covered_before(
                        cell@,
                        o,
                        which as int,
                        position + 1,
                    ) {
                        old(self).pv().candidates(o).remove(digit@)
                    } else {
                        old(self).pv().candidates(o)
                    }) by {
                        if o != other@ && crate::model::group::group_contains_cell(group@, o) {
                            crate::model::group::lemma_cell_in_groups(group@, o);
                        }
                    }
                }
                position = position + 1;
            }
            proof {
                assert forall|o: int| 0 <= o < 81 implies covered_before(
                    cell@,
                    o,
                    which as int,
                    9,
                ) == covered_before(cell@, o, which + 1, 0) by {
                    if crate::model::group::group_contains_cell(group@, o) {
                        crate::model::group::lemma_cell_in_groups(group@, o);
                    }
                }
            }
            which = which + 1;
        }
        proof {
            assert forall|o: int| 0 <= o < 81 implies covered_before(cell@, o, 3, 0)
                == crate::model::group::cells_share_group(cell@, o) by {}
        }
    }

    /// Returns a cell of the group whose candidate set holds the digit, when
    /// the group's counter for that digit is positive.
    fn find_holding_cell(&self, group: Group, digit: Digit) -> (r: CellIndex)
        requires
            self.wf(),
            self.pv().counter(group@, digit@) >= 1,
        ensures
            self.pv().candidates(r@).contains(digit@),
            0 <= r@ < 81,
            group_contains_cell(group@, r@),
    {
        proof {
            use_type_invariant(&digit);
        }
        let _flat = group.index().value();
        let candidates = group.cells();
        let mut position: usize = 0;
        while position < 9
            invariant
                position <= 9,
                self.wf(),
                0 <= group@ < 27,
                self.pv().counter(group@, digit@) >= 1,
                forall|k: int|
                    0 <= k < 9 ==> #[trigger] candidates@[k]@ == crate::model::group::group_cell(
                        group@,
                        k,
                    ),
                group_digit_count(self.pv().sets(), group@, digit@, position as int) == 0,
            decreases 9 - position,
        {
            let candidate = candidates[position];
            if self.possible_values.of_cell(candidate).has(digit) {
                proof {
                    lemma_group_cell_in_group(group@, position as int);
                }
                return candidate;
            }
            position = position + 1;
        }
        proof {
            assert(self.pv().counter(group@, digit@) == group_digit_count(
                self.pv().sets(),
                group@,
                digit@,
                9,
            ));
            assert(false);
        }
        candidates[0]
    }

    /// GroupInclusion: when, in some group covering the refined cell, the
    /// removed digit remains possible in exactly one cell, that cell resolves
    /// to that digit. The three covering groups are handled in order, each
    /// against the state the previous one left.
    fn apply_group_inclusion(&mut self, refinement: Refinement)
        requires
            old(self).wf(),
        ensures
            final(self).wf(),
            final(self).steps_from(*old(self)),
            exists|mid1: PossibleValues, mid2: PossibleValues|
                #![auto]
                {
                    &&& mid1.wf()
                    &&& mid2.wf()
                    &&& group_inclusion_applied(
                        old(self).pv(),
                        mid1,
                        crate::model::group::covering_group(refinement.spec_cell()@, 0),
                        refinement.spec_removed()@,
                    )
                    &&& group_inclusion_applied(
                        mid1,
                        mid2,
                        crate::model::group::covering_group(refinement.spec_cell()@, 1),
                        refinement.spec_removed()@,
                    )
                    &&& group_inclusion_applied(
                        mid2,
                        final(self).pv(),
                        crate::model::group::covering_group(refinement.spec_cell()@, 2),
                        refinement.spec_removed()@,
                    )
                },
            forall|k: int|
                old(self).log().len() <= k < final(self).log().len() ==> {
                    let appended = #[trigger] final(self).log()[k];
                    &&& (appended.spec_reason() matches RefinementReason::GroupInclusion(
                        resolved,
                        guide,
                    ) && resolved == refinement.spec_removed() && group_contains_cell(
                        guide@,
                        refinement.spec_cell()@,
                    ) && group_contains_cell(guide@, appended.spec_cell()@))
                    &&& appended.spec_removed()@ != refinement.spec_removed()@
                },
    {
        let cell = refinement.cell();
        let digit = refinement.removed();

        proof {
            use_type_invariant(&cell);
        }
        let groups = Group::groups(cell);

        self.apply_inclusion_group(groups[0], digit);
        let ghost mid1 = self.pv();
        let ghost first = *self;

        self.apply_inclusion_group(groups[1], digit);
        let ghost mid2 = self.pv();
        proof {
            lemma_steps_trans(*self, first, *old(self));
        }
        let ghost second = *self;

        self.apply_inclusion_group(groups[2], digit);
        proof {
            lemma_steps_trans(*self, second, *old(self));
            assert(group_inclusion_applied(
                old(self).pv(),
                mid1,
                crate::model::group::covering_group(cell@, 0),
                digit@,
            ));
            assert(group_inclusion_applied(
                mid1,
                mid2,
                crate::model::group::covering_group(cell@, 1),
                digit@,
            ));
            assert forall|k: int|
                old(self).log().len() <= k < self.log().len() implies {
                let appended = #[trigger] self.log()[k];
                &&& (appended.spec_reason() matches RefinementReason::GroupInclusion(
                    resolved,
                    guide,
                ) && resolved == refinement.spec_removed() && group_contains_cell(
                    guide@,
                    refinement.spec_cell()@,
                ) && group_contains_cell(guide@, appended.spec_cell()@))
                &&& appended.spec_removed()@ != refinement.spec_removed()@
            } by {
                if k < first.log().len() {
                    assert(self.log().take(second.log().len() as int)[k] == self.log()[k]);
                    assert(second.log().take(first.log().len() as int)[k] == second.log()[k]);
                    assert(self.log()[k] == first.log()[k]);
                } else if k < second.log().len() {
                    assert(self.log().take(second.log().len() as int)[k] == self.log()[k]);
                    assert(self.log()[k] == second.log()[k]);
                }
            }
        }
    }

    /// Handles one group for the GroupInclusion analysis: when the digit's
    /// counter for the group is exactly 1, resolves the unique holding cell
    /// to the digit and journals each candidate thereby removed.
    fn apply_inclusion_group(&mut self, group: Group, digit: Digit)
        requires
            old(self).wf(),
        ensures
            final(self).wf(),
            final(self).steps_from(*old(self)),
            group_inclusion_applied(old(self).pv(), final(self).pv(), group@, digit@),
            forall|k: int|
                old(self).log().len() <= k < final(self).log().len() ==> {
                    let appended = #[trigger] final(self).log()[k];
                    &&& appended.spec_reason() == RefinementReason::GroupInclusion(digit, group)
                    &&& group_contains_cell(group@, appended.spec_cell()@)
                    &&& appended.spec_removed()@ != digit@
                },
    {
        proof {
            use_type_invariant(&digit);
        }
        let _flat = group.index().value();
        if self.possible_values.of_group(group).count(digit) == 1 {
            let candidate = self.find_holding_cell(group, digit);
            self.resolve_and_journal(
                candidate,
                digit,
                RefinementReason::GroupInclusion(digit, group),
            );
            proof {
                assert(group_inclusion_applied(old(self).pv(), self.pv(), group@, digit@)) by {
                    assert(0 <= candidate@ < 81 && group_contains_cell(group@, candidate@) && old(
                        self,
                    ).pv().candidates(candidate@).contains(digit@) && self.pv().candidates(
                        candidate@,
                    ) == set![digit@] && forall|c: int|
                        0 <= c < 81 && c != candidate@ ==> self.pv().candidates(c) == old(
                            self,
                        ).pv().candidates(c));
                }
            }
        } else {
            proof {
                lemma_steps_refl(*self);
            }
        }
    }

    /// GroupOverlap: for each group covering the refined cell, when the
    /// removed digit's remaining candidate cells all lie within one
    /// cross-cutting group, the digit is removed from every cell of that
    /// other group outside the current one.
    fn apply_group_overlap(&mut self, refinement: Refinement)
        requires
            old(self).wf(),
        ensures
            final(self).wf(),
            final(self).steps_from(*old(self)),
            exists|mid1: PossibleValues, mid2: PossibleValues|
                #![auto]
                {
                    &&& mid1.wf()
                    &&& mid2.wf()
                    &&& group_overlap_applied(
                        old(self).pv(),
                        mid1,
                        crate::model::group::covering_group(refinement.spec_cell()@, 0),
                        refinement.spec_removed()@,
                    )
                    &&& group_overlap_applied(
                        mid1,
                        mid2,
                        crate::model::group::covering_group(refinement.spec_cell()@, 1),
                        refinement.spec_removed()@,
                    )
                    &&& group_overlap_applied(
                        mid2,
                        final(self).pv(),
                        crate::model::group::covering_group(refinement.spec_cell()@, 2),
                        refinement.spec_removed()@,
                    )
                },
            forall|k: int|
                old(self).log().len() <= k < final(self).log().len() ==> {
                    let appended = #[trigger] final(self).log()[k];
                    &&& appended.spec_removed() == refinement.spec_removed()
                    &&& (appended.spec_reason() matches RefinementReason::GroupOverlap(
                        within,
                        guide,
                    ) && group_contains_cell(within@, refinement.spec_cell()@)
                        && group_contains_cell(guide@, appended.spec_cell()@)
                        && !group_contains_cell(within@, appended.spec_cell()@))
                },
    {
        let cell = refinement.cell();
        let digit = refinement.removed();

        proof {
            use_type_invariant(&cell);
        }
        let groups = Group::groups(cell);

        self.apply_overlap_includer(groups[0], digit);
        let ghost mid1 = self.pv();
        let ghost first = *self;

        self.apply_overlap_includer(groups[1], digit);
        let ghost mid2 = self.pv();
        proof {
            lemma_steps_trans(*self, first, *old(self));
        }
        let ghost second = *self;

        self.apply_overlap_includer(groups[2], digit);
        proof {
            lemma_steps_trans(*self, second, *old(self));
            assert(group_overlap_applied(
                old(self).pv(),
                mid1,
                crate::model::group::covering_group(cell@, 0),
                digit@,
            ));
            assert(group_overlap_applied(
                mid1,
                mid2,
                crate::model::group::covering_group(cell@, 1),
                digit@,
            ));
            assert forall|k: int|
                old(self).log().len() <= k < self.log().len() implies {
                let appended = #[trigger] self.log()[k];
                &&& appended.spec_removed() == refinement.spec_removed()
                &&& (appended.spec_reason() matches RefinementReason::GroupOverlap(within, guide)
                    && group_contains_cell(within@, refinement.spec_cell()@)
                    && group_contains_cell(guide@, appended.spec_cell()@)
                    && !group_contains_cell(within@, appended.spec_cell()@))
            } by {
                if k < first.log().len() {
                    assert(self.log().take(second.log().len() as int)[k] == self.log()[k]);
                    assert(second.log().take(first.log().len() as int)[k] == second.log()[k]);
                    assert(self.log()[k] == first.log()[k]);
                } else if k < second.log().len() {
                    assert(self.log().take(second.log().len() as int)[k] == self.log()[k]);
                    assert(self.log()[k] == second.log()[k]);
                }
            }
        }
    }

    /// Handles one including group for the GroupOverlap analysis: computes,
    /// per cross-cutting group kind, the set of groups overlapping the
    /// digit's remaining candidate cells, and applies each.
    fn apply_overlap_includer(&mut self, includer: Group, digit: Digit)
        requires
            old(self).wf(),
        ensures
            final(self).wf(),
            final(self).steps_from(*old(self)),
            group_overlap_applied(old(self).pv(), final(self).pv(), includer@, digit@),
            forall|k: int|
                old(self).log().len() <= k < final(self).log().len() ==> {
                    let appended = #[trigger] final(self).log()[k];
                    &&& appended.spec_removed() == digit
                    &&& (appended.spec_reason() matches RefinementReason::GroupOverlap(
                        within,
                        guide,
                    ) && within == includer && (overlap_groups(
                        old(self).pv(),
                        includer@,
                        digit@,
                        0,
                    ).contains(guide@) || overlap_groups(
                        old(self).pv(),
                        includer@,
                        digit@,
                        1,
                    ).contains(guide@)) && group_contains_cell(guide@, appended.spec_cell()@)
                        && !group_contains_cell(includer@, appended.spec_cell()@))
                },
    {
        proof {
            use_type_invariant(&digit);
            lemma_steps_refl(*self);
        }
        //  Cheap necessary condition: with more candidate cells than a slice
        //  holds, they cannot all lie in one cross-cutting group.
        if self.possible_values.of_group(includer).count(digit) > SQUARE_DIMENSION {
            return ;
        }

        let _flat = includer.index().value();
        let candidates = includer.cells();

        let mut overlapping_a = GroupSet::empty();
        let mut overlapping_b = GroupSet::empty();
        let mut position: usize = 0;
        while position < 9
            invariant
                position <= 9,
                0 <= includer@ < 27,
                overlapping_a@ == overlap_groups_upto(
                    self.pv(),
                    includer@,
                    digit@,
                    0,
                    position as int,
                ),
                overlapping_b@ == overlap_groups_upto(
                    self.pv(),
                    includer@,
                    digit@,
                    1,
                    position as int,
                ),
                forall|k: int|
                    0 <= k < 9 ==> #[trigger] candidates@[k]@ == group_cell(includer@, k),
            decreases 9 - position,
        {
            let candidate = candidates[position];
            proof {
                lemma_group_cell_in_group(includer@, position as int);
            }
            if self.possible_values.of_cell(candidate).has(digit) {
                let others = includer.other_groups(candidate);
                proof {
                    assert(others@[0]@ == overlap_group_at(includer@, candidate@, 0));
                    assert(others@[1]@ == overlap_group_at(includer@, candidate@, 1));
                    lemma_overlap_groups_step(
                        self.pv(),
                        includer@,
                        digit@,
                        0,
                        position as int,
                        overlapping_a@,
                    );
                    lemma_overlap_groups_step(
                        self.pv(),
                        includer@,
                        digit@,
                        1,
                        position as int,
                        overlapping_b@,
                    );
                }
                overlapping_a.add(others[0]);
                overlapping_b.add(others[1]);
            } else {
                proof {
                    lemma_overlap_groups_skip(self.pv(), includer@, digit@, 0, position as int);
                    lemma_overlap_groups_skip(self.pv(), includer@, digit@, 1, position as int);
                }
            }
            position = position + 1;
        }

        //  The digit must be present in at least one cell of each group; an
        //  empty set means no candidate cell was seen.
        if overlapping_a.is_empty() {
            return ;
        }
        proof {
            //  Every candidate cell contributes to both overlap sets at
            //  once, so the second set cannot be empty either.
            crate::model::group_set::lemma_group_set_finite(overlapping_a);
            if overlapping_a@.len() == 0 {
                overlapping_a@.lemma_len0_is_empty();
            }
            let h = overlapping_a@.choose();
            assert(overlapping_a@.contains(h));
            let p = choose|p: int|
                0 <= p < 9 && #[trigger] self.pv().candidates(group_cell(includer@, p)).contains(
                    digit@,
                ) && h == overlap_group_at(includer@, group_cell(includer@, p), 0);
            assert(0 <= p < 9 && self.pv().candidates(group_cell(includer@, p)).contains(digit@));
            assert(overlapping_b@.contains(
                overlap_group_at(includer@, group_cell(includer@, p), 1),
            ));
        }

        let ghost pre = self.pv();
        self.apply_overlap_set(includer, digit, overlapping_a);
        let ghost mid = self.pv();
        let ghost first = *self;

        self.apply_overlap_set(includer, digit, overlapping_b);
        proof {
            lemma_steps_trans(*self, first, *old(self));
            assert(overlap_set_applied(pre, mid, includer@, digit@, overlapping_a@));
            assert forall|k: int|
                old(self).log().len() <= k < self.log().len() implies {
                let appended = #[trigger] self.log()[k];
                &&& appended.spec_removed() == digit
                &&& (appended.spec_reason() matches RefinementReason::GroupOverlap(within, guide)
                    && within == includer && (overlap_groups(
                    old(self).pv(),
                    includer@,
                    digit@,
                    0,
                ).contains(guide@) || overlap_groups(old(self).pv(), includer@, digit@, 1).contains(
                    guide@,
                )) && group_contains_cell(guide@, appended.spec_cell()@) && !group_contains_cell(
                    includer@,
                    appended.spec_cell()@,
                ))
            } by {
                if k < first.log().len() {
                    assert(self.log().take(first.log().len() as int)[k] == self.log()[k]);
                    assert(self.log()[k] == first.log()[k]);
                }
            }
        }
    }

    /// When the given overlap set holds a single group, removes the digit
    /// from every cell of that group outside the including group.
    fn apply_overlap_set(&mut self, includer: Group, digit: Digit, overlapping: GroupSet)
        requires
            old(self).wf(),
            overlapping@ != Set::<int>::empty(),
        ensures
            final(self).wf(),
            final(self).steps_from(*old(self)),
            overlap_set_applied(old(self).pv(), final(self).pv(), includer@, digit@, overlapping@),
            forall|k: int|
                old(self).log().len() <= k < final(self).log().len() ==> {
                    let appended = #[trigger] final(self).log()[k];
                    &&& appended.spec_removed() == digit
                    &&& (appended.spec_reason() matches RefinementReason::GroupOverlap(
                        within,
                        guide,
                    ) && within == includer && overlapping@.contains(guide@) && group_contains_cell(
                        guide@,
                        appended.spec_cell()@,
                    ) && !group_contains_cell(includer@, appended.spec_cell()@))
                },
    {
        proof {
            lemma_steps_refl(*self);
        }
        if overlapping.size() > 1 {
            //  Overlapping with too many groups of this type: impossible to
            //  know which the digit will end up in.
            return ;
        }
        proof {
            crate::model::group_set::lemma_group_set_finite(overlapping);
            if overlapping@.len() == 0 {
                overlapping@.lemma_len0_is_empty();
            }
        }

        let mut members = GroupSetIterator::new(overlapping);
        let overlapping_group = members.next().unwrap();
        let _flat = overlapping_group.index().value();
        let _includer_flat = includer.index().value();
        let cells = overlapping_group.cells();

        let mut position: usize = 0;
        while position < 9
            invariant
                position <= 9,
                self.wf(),
                self.steps_from(*old(self)),
                0 <= overlapping_group@ < 27,
                0 <= includer@ < 27,
                forall|k: int|
                    0 <= k < 9 ==> #[trigger] cells@[k]@ == group_cell(overlapping_group@, k),
                forall|c: int|
                    0 <= c < 81 ==> #[trigger] self.pv().candidates(c) == (if group_contains_cell(
                        overlapping_group@,
                        c,
                    ) && !group_contains_cell(includer@, c) && cell_position(overlapping_group@, c)
                        < position {
                        old(self).pv().candidates(c).remove(digit@)
                    } else {
                        old(self).pv().candidates(c)
                    }),
                overlapping@.contains(overlapping_group@),
                forall|k: int|
                    old(self).log().len() <= k < self.log().len() ==> {
                        let appended = #[trigger] self.log()[k];
                        &&& appended.spec_removed() == digit
                        &&& (appended.spec_reason() matches RefinementReason::GroupOverlap(
                            within,
                            guide,
                        ) && within == includer && overlapping@.contains(guide@)
                            && group_contains_cell(guide@, appended.spec_cell()@)
                            && !group_contains_cell(includer@, appended.spec_cell()@))
                    },
            decreases 9 - position,
        {
            let overlapping_cell = cells[position];
            proof {
                lemma_group_cell_in_group(overlapping_group@, position as int);
            }
            if !includer.contains(overlapping_cell) {
                let ghost previous = *self;
                self.remove_and_journal(
                    overlapping_cell,
                    digit,
                    RefinementReason::GroupOverlap(includer, overlapping_group),
                );
                proof {
                    lemma_steps_trans(*self, previous, *old(self));
                    assert(previous.pv().candidates(overlapping_cell@).remove(digit@) =~= old(
                        self,
                    ).pv().candidates(overlapping_cell@).remove(digit@));
                    assert forall|k: int|
                        old(self).log().len() <= k < self.log().len() implies {
                        let appended = #[trigger] self.log()[k];
                        &&& appended.spec_removed() == digit
                        &&& (appended.spec_reason() matches RefinementReason::GroupOverlap(
                            within,
                            guide,
                        ) && within == includer && overlapping@.contains(guide@)
                            && group_contains_cell(guide@, appended.spec_cell()@)
                            && !group_contains_cell(includer@, appended.spec_cell()@))
                    } by {
                        if k < previous.log().len() {
                            assert(self.log()[k] == previous.log()[k]);
                        } else {
                            assert(self.log()[k] == self.log().last());
                        }
                    }
                }
            }
            proof {
                assert forall|c: int| 0 <= c < 81 implies #[trigger] self.pv().candidates(c) == (
                if group_contains_cell(overlapping_group@, c) && !group_contains_cell(includer@, c)
                    && cell_position(overlapping_group@, c) < position + 1 {
                    old(self).pv().candidates(c).remove(digit@)
                } else {
                    old(self).pv().candidates(c)
                }) by {
                    if c != overlapping_cell@ && group_contains_cell(overlapping_group@, c) {
                        lemma_cell_in_groups(overlapping_group@, c);
                    }
                }
            }
            position = position + 1;
        }
        proof {
            assert(overlap_set_applied(
                old(self).pv(),
                self.pv(),
                includer@,
                digit@,
                overlapping@,
            )) by {
                assert(overlapping@.contains(overlapping_group@) && 0 <= overlapping_group@ < 27
                    && forall|c: int|
                    0 <= c < 81 ==> self.pv().candidates(c) == (if group_contains_cell(
                        overlapping_group@,
                        c,
                    ) && !group_contains_cell(includer@, c) {
                        old(self).pv().candidates(c).remove(digit@)
                    } else {
                        old(self).pv().candidates(c)
                    }));
            }
        }
    }

    /// GroupSubsetInclusion: re-examines the given cell; when, in one of its
    /// covering groups, its candidate set is shared (as a superset) by
    /// exactly as many cells as it holds digits, those digits are confined to
    /// those cells and removed from every other cell of the group.
    fn subset_cell(&mut self, cell: CellIndex)
        requires
            old(self).wf(),
        ensures
            final(self).wf(),
            final(self).steps_from(*old(self)),
            subset_cell_applied(old(self).pv(), final(self).pv(), cell@),
            forall|k: int|
                old(self).log().len() <= k < final(self).log().len() ==> {
                    let appended = #[trigger] final(self).log()[k];
                    &&& (appended.spec_reason() matches RefinementReason::GroupSubsetInclusion(
                        confined,
                        within,
                        guide,
                    ) && within@ == old(self).pv().candidates(cell@) && group_contains_cell(
                        guide@,
                        cell@,
                    ) && group_contains_cell(guide@, appended.spec_cell()@) && !confined@.contains(
                        appended.spec_cell()@,
                    ) && confined@.contains(cell@))
                    &&& old(self).pv().candidates(cell@).contains(appended.spec_removed()@)
                },
    {
        proof {
            use_type_invariant(&cell);
            lemma_steps_refl(*self);
        }
        let digits_subset = self.possible_values.of_cell(cell);
        let size = digits_subset.size();

        //  GroupInclusion handles a collapsed cell, much more cheaply.
        if size <= 1 {
            return ;
        }
        //  Larger subsets are skipped, to avoid complexity running away.
        if size > DIMENSION / 2 {
            return ;
        }

        let groups = Group::groups(cell);

        self.apply_subset_group(cell, digits_subset, groups[0]);
        let ghost mid1 = self.pv();
        let ghost first = *self;

        self.apply_subset_group(cell, digits_subset, groups[1]);
        let ghost mid2 = self.pv();
        proof {
            lemma_steps_trans(*self, first, *old(self));
        }
        let ghost second = *self;

        self.apply_subset_group(cell, digits_subset, groups[2]);
        proof {
            lemma_steps_trans(*self, second, *old(self));
            assert(subset_group_applied(
                old(self).pv(),
                mid1,
                crate::model::group::covering_group(cell@, 0),
                cell@,
                digits_subset@,
            ));
            assert(subset_group_applied(
                mid1,
                mid2,
                crate::model::group::covering_group(cell@, 1),
                cell@,
                digits_subset@,
            ));
            assert forall|k: int|
                old(self).log().len() <= k < self.log().len() implies {
                let appended = #[trigger] self.log()[k];
                &&& (appended.spec_reason() matches RefinementReason::GroupSubsetInclusion(
                    confined,
                    within,
                    guide,
                ) && within@ == old(self).pv().candidates(cell@) && group_contains_cell(
                    guide@,
                    cell@,
                ) && group_contains_cell(guide@, appended.spec_cell()@) && !confined@.contains(
                    appended.spec_cell()@,
                ) && confined@.contains(cell@))
                &&& old(self).pv().candidates(cell@).contains(appended.spec_removed()@)
            } by {
                if k < first.log().len() {
                    assert(self.log().take(second.log().len() as int)[k] == self.log()[k]);
                    assert(second.log().take(first.log().len() as int)[k] == second.log()[k]);
                    assert(self.log()[k] == first.log()[k]);
                    assert(subset_cells(
                        old(self).pv(),
                        crate::model::group::covering_group(cell@, 0),
                        cell@,
                        digits_subset@,
                    ).contains(cell@));
                } else if k < second.log().len() {
                    assert(self.log().take(second.log().len() as int)[k] == self.log()[k]);
                    assert(self.log()[k] == second.log()[k]);
                    assert(subset_cells(
                        mid1,
                        crate::model::group::covering_group(cell@, 1),
                        cell@,
                        digits_subset@,
                    ).contains(cell@));
                } else {
                    assert(subset_cells(
                        mid2,
                        crate::model::group::covering_group(cell@, 2),
                        cell@,
                        digits_subset@,
                    ).contains(cell@));
                }
            }
        }
    }

    /// Handles one group for the GroupSubsetInclusion analysis: when exactly
    /// as many cells of the group confine the snapshot as it holds digits,
    /// removes every snapshot digit from every other cell of the group,
    /// journaling each removal.
    fn apply_subset_group(&mut self, cell: CellIndex, digits_subset: DigitSet, group: Group)
        requires
            old(self).wf(),
        ensures
            final(self).wf(),
            final(self).steps_from(*old(self)),
            subset_group_applied(
                old(self).pv(),
                final(self).pv(),
                group@,
                cell@,
                digits_subset@,
            ),
            forall|k: int|
                old(self).log().len() <= k < final(self).log().len() ==> {
                    let appended = #[trigger] final(self).log()[k];
                    &&& (appended.spec_reason() matches RefinementReason::GroupSubsetInclusion(
                        confined,
                        within,
                        guide,
                    ) && confined@ == subset_cells(old(self).pv(), group@, cell@, digits_subset@)
                        && within == digits_subset && guide == group && !confined@.contains(
                        appended.spec_cell()@,
                    ))
                    &&& digits_subset@.contains(appended.spec_removed()@)
                    &&& group_contains_cell(group@, appended.spec_cell()@)
                },
    {
        proof {
            use_type_invariant(&cell);
            lemma_steps_refl(*self);
        }
        let _flat = group.index().value();
        let candidates = group.cells();

        let mut cells_subset = CellSet::empty();
        cells_subset.add(cell);
        proof {
            assert(cells_subset@ =~= subset_cells_upto(
                self.pv(),
                group@,
                cell@,
                digits_subset@,
                0,
            ));
        }

        let mut position: usize = 0;
        while position < 9
            invariant
                position <= 9,
                0 <= group@ < 27,
                0 <= cell@ < 81,
                cells_subset@ == subset_cells_upto(
                    self.pv(),
                    group@,
                    cell@,
                    digits_subset@,
                    position as int,
                ),
                forall|k: int|
                    0 <= k < 9 ==> #[trigger] candidates@[k]@ == group_cell(group@, k),
            decreases 9 - position,
        {
            let candidate = candidates[position];
            proof {
                lemma_group_cell_in_group(group@, position as int);
            }
            if candidate.value() != cell.value() && self.possible_values.of_cell(
                candidate,
            ).is_subset_of(&digits_subset) {
                proof {
                    assert(cells_subset@.insert(candidate@) =~= subset_cells_upto(
                        self.pv(),
                        group@,
                        cell@,
                        digits_subset@,
                        position + 1,
                    ));
                }
                cells_subset.add(candidate);
            } else {
                proof {
                    assert(cells_subset@ =~= subset_cells_upto(
                        self.pv(),
                        group@,
                        cell@,
                        digits_subset@,
                        position + 1,
                    ));
                }
            }
            position = position + 1;
        }
        proof {
            assert forall|o: int| #[trigger] cells_subset@.contains(o) == subset_cells(
                self.pv(),
                group@,
                cell@,
                digits_subset@,
            ).contains(o) by {
                if 0 <= o < 81 && group_contains_cell(group@, o) {
                    lemma_cell_in_groups(group@, o);
                }
            }
            assert(cells_subset@ =~= subset_cells(self.pv(), group@, cell@, digits_subset@));
        }

        if cells_subset.size() != digits_subset.size() {
            return ;
        }

        //  The digits of the subset are confined to these cells: remove them
        //  from every other cell of the group.
        let ghost entering = self.pv();
        let mut target: usize = 0;
        while target < 9
            invariant
                target <= 9,
                self.wf(),
                self.steps_from(*old(self)),
                0 <= group@ < 27,
                0 <= cell@ < 81,
                cells_subset@ == subset_cells(entering, group@, cell@, digits_subset@),
                entering == old(self).pv(),
                cells_subset@.contains(cell@),
                forall|k: int|
                    0 <= k < 9 ==> #[trigger] candidates@[k]@ == group_cell(group@, k),
                forall|c: int|
                    0 <= c < 81 ==> #[trigger] self.pv().candidates(c) == (if group_contains_cell(
                        group@,
                        c,
                    ) && !cells_subset@.contains(c) && cell_position(group@, c) < target {
                        entering.candidates(c).difference(digits_subset@)
                    } else {
                        entering.candidates(c)
                    }),
                forall|k: int|
                    old(self).log().len() <= k < self.log().len() ==> {
                        let appended = #[trigger] self.log()[k];
                        &&& (appended.spec_reason() matches RefinementReason::GroupSubsetInclusion(
                            confined,
                            within,
                            guide,
                        ) && confined@ == subset_cells(
                            old(self).pv(),
                            group@,
                            cell@,
                            digits_subset@,
                        ) && within == digits_subset && guide == group && !confined@.contains(
                            appended.spec_cell()@,
                        ))
                        &&& digits_subset@.contains(appended.spec_removed()@)
                        &&& group_contains_cell(group@, appended.spec_cell()@)
                    },
            decreases 9 - target,
        {
            let candidate = candidates[target];
            proof {
                lemma_group_cell_in_group(group@, target as int);
            }
            if !cells_subset.has(candidate) {
                let ghost before_target = self.pv();
                let mut digits = DigitSetIterator::new(digits_subset);
                proof {
                    assert(self.pv().candidates(candidate@) =~= before_target.candidates(
                        candidate@,
                    ).difference(digits_subset@.difference(digits@)));
                }
                loop
                    invariant
                        self.wf(),
                        self.steps_from(*old(self)),
                        0 <= cell@ < 81,
                        0 <= group@ < 27,
                        digits@.subset_of(digits_subset@),
                        cells_subset@ == subset_cells(
                            old(self).pv(),
                            group@,
                            cell@,
                            digits_subset@,
                        ),
                        !cells_subset@.contains(candidate@),
                        group_contains_cell(group@, candidate@),
                        forall|c: int|
                            0 <= c < 81 && c != candidate@ ==> #[trigger] self.pv().candidates(c)
                                == before_target.candidates(c),
                        self.pv().candidates(candidate@) == before_target.candidates(
                            candidate@,
                        ).difference(digits_subset@.difference(digits@)),
                        forall|k: int|
                            old(self).log().len() <= k < self.log().len() ==> {
                                let appended = #[trigger] self.log()[k];
                                &&& (appended.spec_reason()
                                    matches RefinementReason::GroupSubsetInclusion(
                                    confined,
                                    within,
                                    guide,
                                ) && confined@ == subset_cells(
                                    old(self).pv(),
                                    group@,
                                    cell@,
                                    digits_subset@,
                                ) && within == digits_subset && guide == group
                                    && !confined@.contains(appended.spec_cell()@))
                                &&& digits_subset@.contains(appended.spec_removed()@)
                                &&& group_contains_cell(group@, appended.spec_cell()@)
                            },
                    ensures
                        digits@ == Set::<int>::empty(),
                    decreases digits@.len(),
                {
                    let next = digits.next();
                    match next {
                        Some(digit) => {
                            let ghost previous = *self;
                            let ghost remaining = digits@;
                            self.remove_and_journal(
                                candidate,
                                digit,
                                RefinementReason::GroupSubsetInclusion(
                                    cells_subset,
                                    digits_subset,
                                    group,
                                ),
                            );
                            proof {
                                lemma_steps_trans(*self, previous, *old(self));
                                assert(self.pv().candidates(candidate@) =~= before_target
                                    .candidates(candidate@).difference(
                                    digits_subset@.difference(remaining),
                                ));
                                assert forall|k: int|
                                    old(self).log().len() <= k < self.log().len() implies {
                                    let appended = #[trigger] self.log()[k];
                                    &&& (appended.spec_reason()
                                        matches RefinementReason::GroupSubsetInclusion(
                                        confined,
                                        within,
                                        guide,
                                    ) && confined@ == subset_cells(
                                        old(self).pv(),
                                        group@,
                                        cell@,
                                        digits_subset@,
                                    ) && within == digits_subset && guide == group
                                        && !confined@.contains(appended.spec_cell()@))
                                    &&& digits_subset@.contains(appended.spec_removed()@)
                                    &&& group_contains_cell(group@, appended.spec_cell()@)
                                } by {
                                    if k < previous.log().len() {
                                        assert(self.log()[k] == previous.log()[k]);
                                    } else {
                                        assert(self.log()[k] == self.log().last());
                                    }
                                }
                            }
                        },
                        None => {
                            break ;
                        },
                    }
                }
                proof {
                    assert(self.pv().candidates(candidate@) =~= before_target.candidates(
                        candidate@,
                    ).difference(digits_subset@));
                    assert forall|c: int| 0 <= c < 81 implies #[trigger] self.pv().candidates(c)
                        == (if group_contains_cell(group@, c) && !cells_subset@.contains(c)
                        && cell_position(group@, c) < target + 1 {
                        entering.candidates(c).difference(digits_subset@)
                    } else {
                        entering.candidates(c)
                    }) by {
                        if c != candidate@ && group_contains_cell(group@, c) {
                            lemma_cell_in_groups(group@, c);
                        }
                    }
                }
            } else {
                proof {
                    assert forall|c: int| 0 <= c < 81 implies #[trigger] self.pv().candidates(c)
                        == (if group_contains_cell(group@, c) && !cells_subset@.contains(c)
                        && cell_position(group@, c) < target + 1 {
                        entering.candidates(c).difference(digits_subset@)
                    } else {
                        entering.candidates(c)
                    }) by {
                        if group_contains_cell(group@, c) {
                            lemma_cell_in_groups(group@, c);
                        }
                    }
                }
            }
            target = target + 1;
        }
        proof {
            assert forall|c: int| 0 <= c < 81 implies #[trigger] self.pv().candidates(c) == (
            if group_contains_cell(group@, c) && !subset_cells(
                entering,
                group@,
                cell@,
                digits_subset@,
            ).contains(c) && true {
                entering.candidates(c).difference(digits_subset@)
            } else {
                entering.candidates(c)
            }) by {
                if group_contains_cell(group@, c) {
                    lemma_cell_in_groups(group@, c);
                }
            }
        }
    }

    /// GroupSubsetInclusion, on a refinement: re-examines the refined cell
    /// and every cell sharing a group with it that still holds the removed
    /// digit.
    fn apply_group_subset_inclusion(&mut self, refinement: Refinement)
        requires
            old(self).wf(),
        ensures
            final(self).wf(),
            final(self).steps_from(*old(self)),
            exists|examined: PossibleValues|
                #![auto]
                subset_cell_applied(old(self).pv(), examined, refinement.spec_cell()@)
                    && final(self).pv().shrinks_from(examined),
            forall|k: int|
                old(self).log().len() <= k < final(self).log().len() ==> {
                    let appended = #[trigger] final(self).log()[k];
                    appended.spec_reason() matches RefinementReason::GroupSubsetInclusion(
                        confined,
                        within,
                        guide,
                    ) && within@.contains(appended.spec_removed()@) && group_contains_cell(
                        guide@,
                        appended.spec_cell()@,
                    ) && !confined@.contains(appended.spec_cell()@)
                },
    {
        let cell = refinement.cell();
        let digit = refinement.removed();

        proof {
            use_type_invariant(&cell);
        }
        let ghost entry = *self;
        self.subset_cell(cell);
        let ghost examined = self.pv();
        proof {
            assert forall|k: int|
                old(self).log().len() <= k < self.log().len() implies {
                let appended = #[trigger] self.log()[k];
                appended.spec_reason() matches RefinementReason::GroupSubsetInclusion(
                    confined,
                    within,
                    guide,
                ) && within@.contains(appended.spec_removed()@) && group_contains_cell(
                    guide@,
                    appended.spec_cell()@,
                ) && !confined@.contains(appended.spec_cell()@)
            } by {}
        }

        let groups = Group::groups(cell);
        let mut which: usize = 0;
        while which < 3
            invariant
                which <= 3,
                self.wf(),
                self.steps_from(*old(self)),
                self.pv().shrinks_from(examined),
                subset_cell_applied(old(self).pv(), examined, refinement.spec_cell()@),
                groups@.len() == 3,
                forall|k: int|
                    old(self).log().len() <= k < self.log().len() ==> {
                        let appended = #[trigger] self.log()[k];
                        appended.spec_reason() matches RefinementReason::GroupSubsetInclusion(
                            confined,
                            within,
                            guide,
                        ) && within@.contains(appended.spec_removed()@) && group_contains_cell(
                            guide@,
                            appended.spec_cell()@,
                        ) && !confined@.contains(appended.spec_cell()@)
                    },
            decreases 3 - which,
        {
            let group = groups[which];
            let _flat = group.index().value();
            let candidates = group.cells();
            let mut position: usize = 0;
            while position < 9
                invariant
                    position <= 9,
                    self.wf(),
                    self.steps_from(*old(self)),
                    self.pv().shrinks_from(examined),
                    candidates@.len() == 9,
                forall|k: int|
                    old(self).log().len() <= k < self.log().len() ==> {
                        let appended = #[trigger] self.log()[k];
                        appended.spec_reason() matches RefinementReason::GroupSubsetInclusion(
                            confined,
                            within,
                            guide,
                        ) && within@.contains(appended.spec_removed()@) && group_contains_cell(
                            guide@,
                            appended.spec_cell()@,
                        ) && !confined@.contains(appended.spec_cell()@)
                    },
                decreases 9 - position,
            {
                let candidate = candidates[position];
                if self.possible_values.of_cell(candidate).has(digit) {
                    let ghost previous = *self;
                    self.subset_cell(candidate);
                    proof {
                        lemma_steps_trans(*self, previous, *old(self));
                        crate::solver::possible_values::lemma_shrinks_trans(
                            self.pv(),
                            previous.pv(),
                            examined,
                        );
                        assert forall|k: int|
                            old(self).log().len() <= k < self.log().len() implies {
                            let appended = #[trigger] self.log()[k];
                            appended.spec_reason() matches RefinementReason::GroupSubsetInclusion(
                                confined,
                                within,
                                guide,
                            ) && within@.contains(appended.spec_removed()@) && group_contains_cell(
                                guide@,
                                appended.spec_cell()@,
                            ) && !confined@.contains(appended.spec_cell()@)
                        } by {
                            if k < previous.log().len() {
                                assert(self.log().take(previous.log().len() as int)[k] == self.log(
                                )[k]);
                                assert(self.log()[k] == previous.log()[k]);
                            }
                        }
                    }
                }
                position = position + 1;
            }
            which = which + 1;
        }
    }

    /// Incrementally analyze placements and refinements until a refinement is
    /// produced or the analyzer has caught up with the end of the journals.
    ///
    /// Iterates the five analyses in cheapest-to-most-expensive order; for
    /// each, first drains one pending placement, then one pending refinement,
    /// and returns with the count of refinements appended by the first
    /// analysis and stream combination that produces at least one.
    ///
    /// Returns the number of refinements added, possibly 0 if no progress was
    /// made.
    pub fn analyze(&mut self, placements: &JournalWriter<Placement>) -> (r: usize)
        requires
            old(self).wf(),
        ensures
            final(self).wf(),
            final(self).evolves_from(*old(self)),
            r == final(self).log().len() - old(self).log().len(),
            forall|i: int|
                0 <= i < 5 ==> old(self).pcur(i) <= #[trigger] final(self).pcur(i),
            forall|i: int|
                0 <= i < 5 && old(self).pcur(i) <= placements@.len()
                    ==> #[trigger] final(self).pcur(i) <= placements@.len(),
            r == 0 ==> final(self).log() == old(self).log(),
            r == 0 && (exists|j: int|
                0 <= j < 5 && (old(self).pcur(j) < placements@.len()
                    || old(self).rcur(j) < old(self).log().len()))
                    ==> final(self).pending(placements@.len() as int)
                    < old(self).pending(placements@.len() as int),
            r == 0 ==> forall|c: int|
                0 <= c < 81 ==> #[trigger] final(self).pv().candidates(c) == old(
                    self,
                ).pv().candidates(c),
            r == 0 ==> forall|m: int|
                0 <= m < 10 ==> #[trigger] combo_advanced_iff(
                    *old(self),
                    *final(self),
                    m,
                    placements@.len() as int,
                ),
            r != 0 ==> exists|m: int|
                #![auto]
                0 <= m < 10 && combo_advanced(
                    *old(self),
                    *final(self),
                    m,
                    placements@.len() as int,
                ) && (forall|n: int|
                    0 <= n < m ==> combo_advanced_iff(
                        *old(self),
                        *final(self),
                        n,
                        placements@.len() as int,
                    )) && (forall|n: int|
                    m < n < 10 ==> combo_unchanged(*old(self), *final(self), n)),
    {
        proof {
            lemma_steps_refl(*self);
        }
        let ghost s0 = *self;
        let mut refined = self.analyze_next_placement_with(Analysis::CellExclusion, placements);
        proof {
            lemma_evolves_trans(*self, s0, *old(self));
        }
        if refined != 0 {
            proof {
                let plen = placements@.len() as int;
                assert(combo_advanced(s0, *self, 0, plen));
                assert forall|n: int| 0 < n < 10 implies combo_unchanged(s0, *self, n) by {
                    if n == 1 {
                        assert(self.rcur(0) == s0.rcur(0));
                    } else if n == 2 {
                        assert(self.pcur(1) == s0.pcur(1));
                    } else if n == 3 {
                        assert(self.rcur(1) == s0.rcur(1));
                    } else if n == 4 {
                        assert(self.pcur(2) == s0.pcur(2));
                    } else if n == 5 {
                        assert(self.rcur(2) == s0.rcur(2));
                    } else if n == 6 {
                        assert(self.pcur(3) == s0.pcur(3));
                    } else if n == 7 {
                        assert(self.rcur(3) == s0.rcur(3));
                    } else if n == 8 {
                        assert(self.pcur(4) == s0.pcur(4));
                    } else if n == 9 {
                        assert(self.rcur(4) == s0.rcur(4));
                    } else {
                        assert(false);
                    }
                }
                assert(exists|m: int| #![auto] 0 <= m < 10 && combo_advanced(s0, *self, m, plen) && (forall|n: int| 0 <= n < m ==> combo_advanced_iff(s0, *self, n, plen)) && (forall|n: int| m < n < 10 ==> combo_unchanged(s0, *self, n))) by {
                    assert(0 <= 0 < 10 && combo_advanced(s0, *self, 0, plen) && (forall|n: int| 0 <= n < 0 ==> combo_advanced_iff(s0, *self, n, plen)) && (forall|n: int| 0 < n < 10 ==> combo_unchanged(s0, *self, n)));
                }
            }
            return refined;
        }
        let ghost s1 = *self;
        refined = self.analyze_next_refinement_with(Analysis::CellExclusion);
        proof {
            lemma_evolves_trans(*self, s1, *old(self));
        }
        if refined != 0 {
            proof {
                let plen = placements@.len() as int;
                assert(s1.log() == s0.log());
                assert(s1.rcur(0) == s0.rcur(0));
                assert(combo_advanced(s0, *self, 1, plen));
                assert forall|n: int| 0 <= n < 1 implies combo_advanced_iff(s0, *self, n, plen) by {
                    if n == 0 {
                        assert(s1.pcur(0) == (if s0.pcur(0) < plen { s0.pcur(0) + 1 } else { s0.pcur(0) }));
                        assert(self.pcur(0) == s1.pcur(0));
                    } else {
                        assert(false);
                    }
                }
                assert forall|n: int| 1 < n < 10 implies combo_unchanged(s0, *self, n) by {
                    if n == 2 {
                        assert(s1.pcur(1) == s0.pcur(1));
                        assert(self.pcur(1) == s1.pcur(1));
                    } else if n == 3 {
                        assert(s1.rcur(1) == s0.rcur(1));
                        assert(self.rcur(1) == s1.rcur(1));
                    } else if n == 4 {
                        assert(s1.pcur(2) == s0.pcur(2));
                        assert(self.pcur(2) == s1.pcur(2));
                    } else if n == 5 {
                        assert(s1.rcur(2) == s0.rcur(2));
                        assert(self.rcur(2) == s1.rcur(2));
                    } else if n == 6 {
                        assert(s1.pcur(3) == s0.pcur(3));
                        assert(self.pcur(3) == s1.pcur(3));
                    } else if n == 7 {
                        assert(s1.rcur(3) == s0.rcur(3));
                        assert(self.rcur(3) == s1.rcur(3));
                    } else if n == 8 {
                        assert(s1.pcur(4) == s0.pcur(4));
                        assert(self.pcur(4) == s1.pcur(4));
                    } else if n == 9 {
                        assert(s1.rcur(4) == s0.rcur(4));
                        assert(self.rcur(4) == s1.rcur(4));
                    } else {
                        assert(false);
                    }
                }
                assert(exists|m: int| #![auto] 0 <= m < 10 && combo_advanced(s0, *self, m, plen) && (forall|n: int| 0 <= n < m ==> combo_advanced_iff(s0, *self, n, plen)) && (forall|n: int| m < n < 10 ==> combo_unchanged(s0, *self, n))) by {
                    assert(0 <= 1 < 10 && combo_advanced(s0, *self, 1, plen) && (forall|n: int| 0 <= n < 1 ==> combo_advanced_iff(s0, *self, n, plen)) && (forall|n: int| 1 < n < 10 ==> combo_unchanged(s0, *self, n)));
                }
            }
            return refined;
        }
        let ghost s2 = *self;
        refined = self.analyze_next_placement_with(Analysis::GroupExclusion, placements);
        proof {
            lemma_evolves_trans(*self, s2, *old(self));
        }
        if refined != 0 {
            proof {
                let plen = placements@.len() as int;
                assert(s1.log() == s0.log());
                assert(s2.log() == s1.log());
                assert(s1.pcur(1) == s0.pcur(1));
                assert(s2.pcur(1) == s1.pcur(1));
                assert(combo_advanced(s0, *self, 2, plen));
                assert forall|n: int| 0 <= n < 2 implies combo_advanced_iff(s0, *self, n, plen) by {
                    if n == 0 {
                        assert(s1.pcur(0) == (if s0.pcur(0) < plen { s0.pcur(0) + 1 } else { s0.pcur(0) }));
                        assert(s2.pcur(0) == s1.pcur(0));
                        assert(self.pcur(0) == s2.pcur(0));
                    } else if n == 1 {
                        assert(s1.rcur(0) == s0.rcur(0));
                        assert(s2.rcur(0) == (if s1.rcur(0) < s1.log().len() { s1.rcur(0) + 1 } else { s1.rcur(0) }));
                        assert(self.rcur(0) == s2.rcur(0));
                    } else {
                        assert(false);
                    }
                }
                assert forall|n: int| 2 < n < 10 implies combo_unchanged(s0, *self, n) by {
                    if n == 3 {
                        assert(s1.rcur(1) == s0.rcur(1));
                        assert(s2.rcur(1) == s1.rcur(1));
                        assert(self.rcur(1) == s2.rcur(1));
                    } else if n == 4 {
                        assert(s1.pcur(2) == s0.pcur(2));
                        assert(s2.pcur(2) == s1.pcur(2));
                        assert(self.pcur(2) == s2.pcur(2));
                    } else if n == 5 {
                        assert(s1.rcur(2) == s0.rcur(2));
                        assert(s2.rcur(2) == s1.rcur(2));
                        assert(self.rcur(2) == s2.rcur(2));
                    } else if n == 6 {
                        assert(s1.pcur(3) == s0.pcur(3));
                        assert(s2.pcur(3) == s1.pcur(3));
                        assert(self.pcur(3) == s2.pcur(3));
                    } else if n == 7 {
                        assert(s1.rcur(3) == s0.rcur(3));
                        assert(s2.rcur(3) == s1.rcur(3));
                        assert(self.rcur(3) == s2.rcur(3));
                    } else if n == 8 {
                        assert(s1.pcur(4) == s0.pcur(4));
                        assert(s2.pcur(4) == s1.pcur(4));
                        assert(self.pcur(4) == s2.pcur(4));
                    } else if n == 9 {
                        assert(s1.rcur(4) == s0.rcur(4));
                        assert(s2.rcur(4) == s1.rcur(4));
                        assert(self.rcur(4) == s2.rcur(4));
                    } else {
                        assert(false);
                    }
                }
                assert(exists|m: int| #![auto] 0 <= m < 10 && combo_advanced(s0, *self, m, plen) && (forall|n: int| 0 <= n < m ==> combo_advanced_iff(s0, *self, n, plen)) && (forall|n: int| m < n < 10 ==> combo_unchanged(s0, *self, n))) by {
                    assert(0 <= 2 < 10 && combo_advanced(s0, *self, 2, plen) && (forall|n: int| 0 <= n < 2 ==> combo_advanced_iff(s0, *self, n, plen)) && (forall|n: int| 2 < n < 10 ==> combo_unchanged(s0, *self, n)));
                }
            }
            return refined;
        }
        let ghost s3 = *self;
        refined = self.analyze_next_refinement_with(Analysis::GroupExclusion);
        proof {
            lemma_evolves_trans(*self, s3, *old(self));
        }
        if refined != 0 {
            proof {
                let plen = placements@.len() as int;
                assert(s1.log() == s0.log());
                assert(s2.log() == s1.log());
                assert(s3.log() == s2.log());
                assert(s1.rcur(1) == s0.rcur(1));
                assert(s2.rcur(1) == s1.rcur(1));
                assert(s3.rcur(1) == s2.rcur(1));
                assert(combo_advanced(s0, *self, 3, plen));
                assert forall|n: int| 0 <= n < 3 implies combo_advanced_iff(s0, *self, n, plen) by {
                    if n == 0 {
                        assert(s1.pcur(0) == (if s0.pcur(0) < plen { s0.pcur(0) + 1 } else { s0.pcur(0) }));
                        assert(s2.pcur(0) == s1.pcur(0));
                        assert(s3.pcur(0) == s2.pcur(0));
                        assert(self.pcur(0) == s3.pcur(0));
                    } else if n == 1 {
                        assert(s1.rcur(0) == s0.rcur(0));
                        assert(s2.rcur(0) == (if s1.rcur(0) < s1.log().len() { s1.rcur(0) + 1 } else { s1.rcur(0) }));
                        assert(s3.rcur(0) == s2.rcur(0));
                        assert(self.rcur(0) == s3.rcur(0));
                    } else if n == 2 {
                        assert(s1.pcur(1) == s0.pcur(1));
                        assert(s2.pcur(1) == s1.pcur(1));
                        assert(s3.pcur(1) == (if s2.pcur(1) < plen { s2.pcur(1) + 1 } else { s2.pcur(1) }));
                        assert(self.pcur(1) == s3.pcur(1));
                    } else {
                        assert(false);
                    }
                }
                assert forall|n: int| 3 < n < 10 implies combo_unchanged(s0, *self, n) by {
                    if n == 4 {
                        assert(s1.pcur(2) == s0.pcur(2));
                        assert(s2.pcur(2) == s1.pcur(2));
                        assert(s3.pcur(2) == s2.pcur(2));
                        assert(self.pcur(2) == s3.pcur(2));
                    } else if n == 5 {
                        assert(s1.rcur(2) == s0.rcur(2));
                        assert(s2.rcur(2) == s1.rcur(2));
                        assert(s3.rcur(2) == s2.rcur(2));
                        assert(self.rcur(2) == s3.rcur(2));
                    } else if n == 6 {
                        assert(s1.pcur(3) == s0.pcur(3));
                        assert(s2.pcur(3) == s1.pcur(3));
                        assert(s3.pcur(3) == s2.pcur(3));
                        assert(self.pcur(3) == s3.pcur(3));
                    } else if n == 7 {
                        assert(s1.rcur(3) == s0.rcur(3));
                        assert(s2.rcur(3) == s1.rcur(3));
                        assert(s3.rcur(3) == s2.rcur(3));
                        assert(self.rcur(3) == s3.rcur(3));
                    } else if n == 8 {
                        assert(s1.pcur(4) == s0.pcur(4));
                        assert(s2.pcur(4) == s1.pcur(4));
                        assert(s3.pcur(4) == s2.pcur(4));
                        assert(self.pcur(4) == s3.pcur(4));
                    } else if n == 9 {
                        assert(s1.rcur(4) == s0.rcur(4));
                        assert(s2.rcur(4) == s1.rcur(4));
                        assert(s3.rcur(4) == s2.rcur(4));
                        assert(self.rcur(4) == s3.rcur(4));
                    } else {
                        assert(false);
                    }
                }
                assert(exists|m: int| #![auto] 0 <= m < 10 && combo_advanced(s0, *self, m, plen) && (forall|n: int| 0 <= n < m ==> combo_advanced_iff(s0, *self, n, plen)) && (forall|n: int| m < n < 10 ==> combo_unchanged(s0, *self, n))) by {
                    assert(0 <= 3 < 10 && combo_advanced(s0, *self, 3, plen) && (forall|n: int| 0 <= n < 3 ==> combo_advanced_iff(s0, *self, n, plen)) && (forall|n: int| 3 < n < 10 ==> combo_unchanged(s0, *self, n)));
                }
            }
            return refined;
        }
        let ghost s4 = *self;
        refined = self.analyze_next_placement_with(Analysis::GroupInclusion, placements);
        proof {
            lemma_evolves_trans(*self, s4, *old(self));
        }
        if refined != 0 {
            proof {
                let plen = placements@.len() as int;
                assert(s1.log() == s0.log());
                assert(s2.log() == s1.log());
                assert(s3.log() == s2.log());
                assert(s4.log() == s3.log());
                assert(s1.pcur(2) == s0.pcur(2));
                assert(s2.pcur(2) == s1.pcur(2));
                assert(s3.pcur(2) == s2.pcur(2));
                assert(s4.pcur(2) == s3.pcur(2));
                assert(combo_advanced(s0, *self, 4, plen));
                assert forall|n: int| 0 <= n < 4 implies combo_advanced_iff(s0, *self, n, plen) by {
                    if n == 0 {
                        assert(s1.pcur(0) == (if s0.pcur(0) < plen { s0.pcur(0) + 1 } else { s0.pcur(0) }));
                        assert(s2.pcur(0) == s1.pcur(0));
                        assert(s3.pcur(0) == s2.pcur(0));
                        assert(s4.pcur(0) == s3.pcur(0));
                        assert(self.pcur(0) == s4.pcur(0));
                    } else if n == 1 {
                        assert(s1.rcur(0) == s0.rcur(0));
                        assert(s2.rcur(0) == (if s1.rcur(0) < s1.log().len() { s1.rcur(0) + 1 } else { s1.rcur(0) }));
                        assert(s3.rcur(0) == s2.rcur(0));
                        assert(s4.rcur(0) == s3.rcur(0));
                        assert(self.rcur(0) == s4.rcur(0));
                    } else if n == 2 {
                        assert(s1.pcur(1) == s0.pcur(1));
                        assert(s2.pcur(1) == s1.pcur(1));
                        assert(s3.pcur(1) == (if s2.pcur(1) < plen { s2.pcur(1) + 1 } else { s2.pcur(1) }));
                        assert(s4.pcur(1) == s3.pcur(1));
                        assert(self.pcur(1) == s4.pcur(1));
                    } else if n == 3 {
                        assert(s1.rcur(1) == s0.rcur(1));
                        assert(s2.rcur(1) == s1.rcur(1));
                        assert(s3.rcur(1) == s2.rcur(1));
                        assert(s4.rcur(1) == (if s3.rcur(1) < s3.log().len() { s3.rcur(1) + 1 } else { s3.rcur(1) }));
                        assert(self.rcur(1) == s4.rcur(1));
                    } else {
                        assert(false);
                    }
                }
                assert forall|n: int| 4 < n < 10 implies combo_unchanged(s0, *self, n) by {
                    if n == 5 {
                        assert(s1.rcur(2) == s0.rcur(2));
                        assert(s2.rcur(2) == s1.rcur(2));
                        assert(s3.rcur(2) == s2.rcur(2));
                        assert(s4.rcur(2) == s3.rcur(2));
                        assert(self.rcur(2) == s4.rcur(2));
                    } else if n == 6 {
                        assert(s1.pcur(3) == s0.pcur(3));
                        assert(s2.pcur(3) == s1.pcur(3));
                        assert(s3.pcur(3) == s2.pcur(3));
                        assert(s4.pcur(3) == s3.pcur(3));
                        assert(self.pcur(3) == s4.pcur(3));
                    } else if n == 7 {
                        assert(s1.rcur(3) == s0.rcur(3));
                        assert(s2.rcur(3) == s1.rcur(3));
                        assert(s3.rcur(3) == s2.rcur(3));
                        assert(s4.rcur(3) == s3.rcur(3));
                        assert(self.rcur(3) == s4.rcur(3));
                    } else if n == 8 {
                        assert(s1.pcur(4) == s0.pcur(4));
                        assert(s2.pcur(4) == s1.pcur(4));
                        assert(s3.pcur(4) == s2.pcur(4));
                        assert(s4.pcur(4) == s3.pcur(4));
                        assert(self.pcur(4) == s4.pcur(4));
                    } else if n == 9 {
                        assert(s1.rcur(4) == s0.rcur(4));
                        assert(s2.rcur(4) == s1.rcur(4));
                        assert(s3.rcur(4) == s2.rcur(4));
                        assert(s4.rcur(4) == s3.rcur(4));
                        assert(self.rcur(4) == s4.rcur(4));
                    } else {
                        assert(false);
                    }
                }
                assert(exists|m: int| #![auto] 0 <= m < 10 && combo_advanced(s0, *self, m, plen) && (forall|n: int| 0 <= n < m ==> combo_advanced_iff(s0, *self, n, plen)) && (forall|n: int| m < n < 10 ==> combo_unchanged(s0, *self, n))) by {
                    assert(0 <= 4 < 10 && combo_advanced(s0, *self, 4, plen) && (forall|n: int| 0 <= n < 4 ==> combo_advanced_iff(s0, *self, n, plen)) && (forall|n: int| 4 < n < 10 ==> combo_unchanged(s0, *self, n)));
                }
            }
            return refined;
        }
        let ghost s5 = *self;
        refined = self.analyze_next_refinement_with(Analysis::GroupInclusion);
        proof {
            lemma_evolves_trans(*self, s5, *old(self));
        }
        if refined != 0 {
            proof {
                let plen = placements@.len() as int;
                assert(s1.log() == s0.log());
                assert(s2.log() == s1.log());
                assert(s3.log() == s2.log());
                assert(s4.log() == s3.log());
                assert(s5.log() == s4.log());
                assert(s1.rcur(2) == s0.rcur(2));
                assert(s2.rcur(2) == s1.rcur(2));
                assert(s3.rcur(2) == s2.rcur(2));
                assert(s4.rcur(2) == s3.rcur(2));
                assert(s5.rcur(2) == s4.rcur(2));
                assert(combo_advanced(s0, *self, 5, plen));
                assert forall|n: int| 0 <= n < 5 implies combo_advanced_iff(s0, *self, n, plen) by {
                    if n == 0 {
                        assert(s1.pcur(0) == (if s0.pcur(0) < plen { s0.pcur(0) + 1 } else { s0.pcur(0) }));
                        assert(s2.pcur(0) == s1.pcur(0));
                        assert(s3.pcur(0) == s2.pcur(0));
                        assert(s4.pcur(0) == s3.pcur(0));
                        assert(s5.pcur(0) == s4.pcur(0));
                        assert(self.pcur(0) == s5.pcur(0));
                    } else if n == 1 {
                        assert(s1.rcur(0) == s0.rcur(0));
                        assert(s2.rcur(0) == (if s1.rcur(0) < s1.log().len() { s1.rcur(0) + 1 } else { s1.rcur(0) }));
                        assert(s3.rcur(0) == s2.rcur(0));
                        assert(s4.rcur(0) == s3.rcur(0));
                        assert(s5.rcur(0) == s4.rcur(0));
                        assert(self.rcur(0) == s5.rcur(0));
                    } else if n == 2 {
                        assert(s1.pcur(1) == s0.pcur(1));
                        assert(s2.pcur(1) == s1.pcur(1));
                        assert(s3.pcur(1) == (if s2.pcur(1) < plen { s2.pcur(1) + 1 } else { s2.pcur(1) }));
                        assert(s4.pcur(1) == s3.pcur(1));
                        assert(s5.pcur(1) == s4.pcur(1));
                        assert(self.pcur(1) == s5.pcur(1));
                    } else if n == 3 {
                        assert(s1.rcur(1) == s0.rcur(1));
                        assert(s2.rcur(1) == s1.rcur(1));
                        assert(s3.rcur(1) == s2.rcur(1));
                        assert(s4.rcur(1) == (if s3.rcur(1) < s3.log().len() { s3.rcur(1) + 1 } else { s3.rcur(1) }));
                        assert(s5.rcur(1) == s4.rcur(1));
                        assert(self.rcur(1) == s5.rcur(1));
                    } else if n == 4 {
                        assert(s1.pcur(2) == s0.pcur(2));
                        assert(s2.pcur(2) == s1.pcur(2));
                        assert(s3.pcur(2) == s2.pcur(2));
                        assert(s4.pcur(2) == s3.pcur(2));
                        assert(s5.pcur(2) == (if s4.pcur(2) < plen { s4.pcur(2) + 1 } else { s4.pcur(2) }));
                        assert(self.pcur(2) == s5.pcur(2));
                    } else {
                        assert(false);
                    }
                }
                assert forall|n: int| 5 < n < 10 implies combo_unchanged(s0, *self, n) by {
                    if n == 6 {
                        assert(s1.pcur(3) == s0.pcur(3));
                        assert(s2.pcur(3) == s1.pcur(3));
                        assert(s3.pcur(3) == s2.pcur(3));
                        assert(s4.pcur(3) == s3.pcur(3));
                        assert(s5.pcur(3) == s4.pcur(3));
                        assert(self.pcur(3) == s5.pcur(3));
                    } else if n == 7 {
                        assert(s1.rcur(3) == s0.rcur(3));
                        assert(s2.rcur(3) == s1.rcur(3));
                        assert(s3.rcur(3) == s2.rcur(3));
                        assert(s4.rcur(3) == s3.rcur(3));
                        assert(s5.rcur(3) == s4.rcur(3));
                        assert(self.rcur(3) == s5.rcur(3));
                    } else if n == 8 {
                        assert(s1.pcur(4) == s0.pcur(4));
                        assert(s2.pcur(4) == s1.pcur(4));
                        assert(s3.pcur(4) == s2.pcur(4));
                        assert(s4.pcur(4) == s3.pcur(4));
                        assert(s5.pcur(4) == s4.pcur(4));
                        assert(self.pcur(4) == s5.pcur(4));
                    } else if n == 9 {
                        assert(s1.rcur(4) == s0.rcur(4));
                        assert(s2.rcur(4) == s1.rcur(4));
                        assert(s3.rcur(4) == s2.rcur(4));
                        assert(s4.rcur(4) == s3.rcur(4));
                        assert(s5.rcur(4) == s4.rcur(4));
                        assert(self.rcur(4) == s5.rcur(4));
                    } else {
                        assert(false);
                    }
                }
                assert(exists|m: int| #![auto] 0 <= m < 10 && combo_advanced(s0, *self, m, plen) && (forall|n: int| 0 <= n < m ==> combo_advanced_iff(s0, *self, n, plen)) && (forall|n: int| m < n < 10 ==> combo_unchanged(s0, *self, n))) by {
                    assert(0 <= 5 < 10 && combo_advanced(s0, *self, 5, plen) && (forall|n: int| 0 <= n < 5 ==> combo_advanced_iff(s0, *self, n, plen)) && (forall|n: int| 5 < n < 10 ==> combo_unchanged(s0, *self, n)));
                }
            }
            return refined;
        }
        let ghost s6 = *self;
        refined = self.analyze_next_placement_with(Analysis::GroupOverlap, placements);
        proof {
            lemma_evolves_trans(*self, s6, *old(self));
        }
        if refined != 0 {
            proof {
                let plen = placements@.len() as int;
                assert(s1.log() == s0.log());
                assert(s2.log() == s1.log());
                assert(s3.log() == s2.log());
                assert(s4.log() == s3.log());
                assert(s5.log() == s4.log());
                assert(s6.log() == s5.log());
                assert(s1.pcur(3) == s0.pcur(3));
                assert(s2.pcur(3) == s1.pcur(3));
                assert(s3.pcur(3) == s2.pcur(3));
                assert(s4.pcur(3) == s3.pcur(3));
                assert(s5.pcur(3) == s4.pcur(3));
                assert(s6.pcur(3) == s5.pcur(3));
                assert(combo_advanced(s0, *self, 6, plen));
                assert forall|n: int| 0 <= n < 6 implies combo_advanced_iff(s0, *self, n, plen) by {
                    if n == 0 {
                        assert(s1.pcur(0) == (if s0.pcur(0) < plen { s0.pcur(0) + 1 } else { s0.pcur(0) }));
                        assert(s2.pcur(0) == s1.pcur(0));
                        assert(s3.pcur(0) == s2.pcur(0));
                        assert(s4.pcur(0) == s3.pcur(0));
                        assert(s5.pcur(0) == s4.pcur(0));
                        assert(s6.pcur(0) == s5.pcur(0));
                        assert(self.pcur(0) == s6.pcur(0));
                    } else if n == 1 {
                        assert(s1.rcur(0) == s0.rcur(0));
                        assert(s2.rcur(0) == (if s1.rcur(0) < s1.log().len() { s1.rcur(0) + 1 } else { s1.rcur(0) }));
                        assert(s3.rcur(0) == s2.rcur(0));
                        assert(s4.rcur(0) == s3.rcur(0));
                        assert(s5.rcur(0) == s4.rcur(0));
                        assert(s6.rcur(0) == s5.rcur(0));
                        assert(self.rcur(0) == s6.rcur(0));
                    } else if n == 2 {
                        assert(s1.pcur(1) == s0.pcur(1));
                        assert(s2.pcur(1) == s1.pcur(1));
                        assert(s3.pcur(1) == (if s2.pcur(1) < plen { s2.pcur(1) + 1 } else { s2.pcur(1) }));
                        assert(s4.pcur(1) == s3.pcur(1));
                        assert(s5.pcur(1) == s4.pcur(1));
                        assert(s6.pcur(1) == s5.pcur(1));
                        assert(self.pcur(1) == s6.pcur(1));
                    } else if n == 3 {
                        assert(s1.rcur(1) == s0.rcur(1));
                        assert(s2.rcur(1) == s1.rcur(1));
                        assert(s3.rcur(1) == s2.rcur(1));
                        assert(s4.rcur(1) == (if s3.rcur(1) < s3.log().len() { s3.rcur(1) + 1 } else { s3.rcur(1) }));
                        assert(s5.rcur(1) == s4.rcur(1));
                        assert(s6.rcur(1) == s5.rcur(1));
                        assert(self.rcur(1) == s6.rcur(1));
                    } else if n == 4 {
                        assert(s1.pcur(2) == s0.pcur(2));
                        assert(s2.pcur(2) == s1.pcur(2));
                        assert(s3.pcur(2) == s2.pcur(2));
                        assert(s4.pcur(2) == s3.pcur(2));
                        assert(s5.pcur(2) == (if s4.pcur(2) < plen { s4.pcur(2) + 1 } else { s4.pcur(2) }));
                        assert(s6.pcur(2) == s5.pcur(2));
                        assert(self.pcur(2) == s6.pcur(2));
                    } else if n == 5 {
                        assert(s1.rcur(2) == s0.rcur(2));
                        assert(s2.rcur(2) == s1.rcur(2));
                        assert(s3.rcur(2) == s2.rcur(2));
                        assert(s4.rcur(2) == s3.rcur(2));
                        assert(s5.rcur(2) == s4.rcur(2));
                        assert(s6.rcur(2) == (if s5.rcur(2) < s5.log().len() { s5.rcur(2) + 1 } else { s5.rcur(2) }));
                        assert(self.rcur(2) == s6.rcur(2));
                    } else {
                        assert(false);
                    }
                }
                assert forall|n: int| 6 < n < 10 implies combo_unchanged(s0, *self, n) by {
                    if n == 7 {
                        assert(s1.rcur(3) == s0.rcur(3));
                        assert(s2.rcur(3) == s1.rcur(3));
                        assert(s3.rcur(3) == s2.rcur(3));
                        assert(s4.rcur(3) == s3.rcur(3));
                        assert(s5.rcur(3) == s4.rcur(3));
                        assert(s6.rcur(3) == s5.rcur(3));
                        assert(self.rcur(3) == s6.rcur(3));
                    } else if n == 8 {
                        assert(s1.pcur(4) == s0.pcur(4));
                        assert(s2.pcur(4) == s1.pcur(4));
                        assert(s3.pcur(4) == s2.pcur(4));
                        assert(s4.pcur(4) == s3.pcur(4));
                        assert(s5.pcur(4) == s4.pcur(4));
                        assert(s6.pcur(4) == s5.pcur(4));
                        assert(self.pcur(4) == s6.pcur(4));
                    } else if n == 9 {
                        assert(s1.rcur(4) == s0.rcur(4));
                        assert(s2.rcur(4) == s1.rcur(4));
                        assert(s3.rcur(4) == s2.rcur(4));
                        assert(s4.rcur(4) == s3.rcur(4));
                        assert(s5.rcur(4) == s4.rcur(4));
                        assert(s6.rcur(4) == s5.rcur(4));
                        assert(self.rcur(4) == s6.rcur(4));
                    } else {
                        assert(false);
                    }
                }
                assert(exists|m: int| #![auto] 0 <= m < 10 && combo_advanced(s0, *self, m, plen) && (forall|n: int| 0 <= n < m ==> combo_advanced_iff(s0, *self, n, plen)) && (forall|n: int| m < n < 10 ==> combo_unchanged(s0, *self, n))) by {
                    assert(0 <= 6 < 10 && combo_advanced(s0, *self, 6, plen) && (forall|n: int| 0 <= n < 6 ==> combo_advanced_iff(s0, *self, n, plen)) && (forall|n: int| 6 < n < 10 ==> combo_unchanged(s0, *self, n)));
                }
            }
            return refined;
        }
        let ghost s7 = *self;
        refined = self.analyze_next_refinement_with(Analysis::GroupOverlap);
        proof {
            lemma_evolves_trans(*self, s7, *old(self));
        }
        if refined != 0 {
            proof {
                let plen = placements@.len() as int;
                assert(s1.log() == s0.log());
                assert(s2.log() == s1.log());
                assert(s3.log() == s2.log());
                assert(s4.log() == s3.log());
                assert(s5.log() == s4.log());
                assert(s6.log() == s5.log());
                assert(s7.log() == s6.log());
                assert(s1.rcur(3) == s0.rcur(3));
                assert(s2.rcur(3) == s1.rcur(3));
                assert(s3.rcur(3) == s2.rcur(3));
                assert(s4.rcur(3) == s3.rcur(3));
                assert(s5.rcur(3) == s4.rcur(3));
                assert(s6.rcur(3) == s5.rcur(3));
                assert(s7.rcur(3) == s6.rcur(3));
                assert(combo_advanced(s0, *self, 7, plen));
                assert forall|n: int| 0 <= n < 7 implies combo_advanced_iff(s0, *self, n, plen) by {
                    if n == 0 {
                        assert(s1.pcur(0) == (if s0.pcur(0) < plen { s0.pcur(0) + 1 } else { s0.pcur(0) }));
                        assert(s2.pcur(0) == s1.pcur(0));
                        assert(s3.pcur(0) == s2.pcur(0));
                        assert(s4.pcur(0) == s3.pcur(0));
                        assert(s5.pcur(0) == s4.pcur(0));
                        assert(s6.pcur(0) == s5.pcur(0));
                        assert(s7.pcur(0) == s6.pcur(0));
                        assert(self.pcur(0) == s7.pcur(0));
                    } else if n == 1 {
                        assert(s1.rcur(0) == s0.rcur(0));
                        assert(s2.rcur(0) == (if s1.rcur(0) < s1.log().len() { s1.rcur(0) + 1 } else { s1.rcur(0) }));
                        assert(s3.rcur(0) == s2.rcur(0));
                        assert(s4.rcur(0) == s3.rcur(0));
                        assert(s5.rcur(0) == s4.rcur(0));
                        assert(s6.rcur(0) == s5.rcur(0));
                        assert(s7.rcur(0) == s6.rcur(0));
                        assert(self.rcur(0) == s7.rcur(0));
                    } else if n == 2 {
                        assert(s1.pcur(1) == s0.pcur(1));
                        assert(s2.pcur(1) == s1.pcur(1));
                        assert(s3.pcur(1) == (if s2.pcur(1) < plen { s2.pcur(1) + 1 } else { s2.pcur(1) }));
                        assert(s4.pcur(1) == s3.pcur(1));
                        assert(s5.pcur(1) == s4.pcur(1));
                        assert(s6.pcur(1) == s5.pcur(1));
                        assert(s7.pcur(1) == s6.pcur(1));
                        assert(self.pcur(1) == s7.pcur(1));
                    } else if n == 3 {
                        assert(s1.rcur(1) == s0.rcur(1));
                        assert(s2.rcur(1) == s1.rcur(1));
                        assert(s3.rcur(1) == s2.rcur(1));
                        assert(s4.rcur(1) == (if s3.rcur(1) < s3.log().len() { s3.rcur(1) + 1 } else { s3.rcur(1) }));
                        assert(s5.rcur(1) == s4.rcur(1));
                        assert(s6.rcur(1) == s5.rcur(1));
                        assert(s7.rcur(1) == s6.rcur(1));
                        assert(self.rcur(1) == s7.rcur(1));
                    } else if n == 4 {
                        assert(s1.pcur(2) == s0.pcur(2));
                        assert(s2.pcur(2) == s1.pcur(2));
                        assert(s3.pcur(2) == s2.pcur(2));
                        assert(s4.pcur(2) == s3.pcur(2));
                        assert(s5.pcur(2) == (if s4.pcur(2) < plen { s4.pcur(2) + 1 } else { s4.pcur(2) }));
                        assert(s6.pcur(2) == s5.pcur(2));
                        assert(s7.pcur(2) == s6.pcur(2));
                        assert(self.pcur(2) == s7.pcur(2));
                    } else if n == 5 {
                        assert(s1.rcur(2) == s0.rcur(2));
                        assert(s2.rcur(2) == s1.rcur(2));
                        assert(s3.rcur(2) == s2.rcur(2));
                        assert(s4.rcur(2) == s3.rcur(2));
                        assert(s5.rcur(2) == s4.rcur(2));
                        assert(s6.rcur(2) == (if s5.rcur(2) < s5.log().len() { s5.rcur(2) + 1 } else { s5.rcur(2) }));
                        assert(s7.rcur(2) == s6.rcur(2));
                        assert(self.rcur(2) == s7.rcur(2));
                    } else if n == 6 {
                        assert(s1.pcur(3) == s0.pcur(3));
                        assert(s2.pcur(3) == s1.pcur(3));
                        assert(s3.pcur(3) == s2.pcur(3));
                        assert(s4.pcur(3) == s3.pcur(3));
                        assert(s5.pcur(3) == s4.pcur(3));
                        assert(s6.pcur(3) == s5.pcur(3));
                        assert(s7.pcur(3) == (if s6.pcur(3) < plen { s6.pcur(3) + 1 } else { s6.pcur(3) }));
                        assert(self.pcur(3) == s7.pcur(3));
                    } else {
                        assert(false);
                    }
                }
                assert forall|n: int| 7 < n < 10 implies combo_unchanged(s0, *self, n) by {
                    if n == 8 {
                        assert(s1.pcur(4) == s0.pcur(4));
                        assert(s2.pcur(4) == s1.pcur(4));
                        assert(s3.pcur(4) == s2.pcur(4));
                        assert(s4.pcur(4) == s3.pcur(4));
                        assert(s5.pcur(4) == s4.pcur(4));
                        assert(s6.pcur(4) == s5.pcur(4));
                        assert(s7.pcur(4) == s6.pcur(4));
                        assert(self.pcur(4) == s7.pcur(4));
                    } else if n == 9 {
                        assert(s1.rcur(4) == s0.rcur(4));
                        assert(s2.rcur(4) == s1.rcur(4));
                        assert(s3.rcur(4) == s2.rcur(4));
                        assert(s4.rcur(4) == s3.rcur(4));
                        assert(s5.rcur(4) == s4.rcur(4));
                        assert(s6.rcur(4) == s5.rcur(4));
                        assert(s7.rcur(4) == s6.rcur(4));
                        assert(self.rcur(4) == s7.rcur(4));
                    } else {
                        assert(false);
                    }
                }
                assert(exists|m: int| #![auto] 0 <= m < 10 && combo_advanced(s0, *self, m, plen) && (forall|n: int| 0 <= n < m ==> combo_advanced_iff(s0, *self, n, plen)) && (forall|n: int| m < n < 10 ==> combo_unchanged(s0, *self, n))) by {
                    assert(0 <= 7 < 10 && combo_advanced(s0, *self, 7, plen) && (forall|n: int| 0 <= n < 7 ==> combo_advanced_iff(s0, *self, n, plen)) && (forall|n: int| 7 < n < 10 ==> combo_unchanged(s0, *self, n)));
                }
            }
            return refined;
        }
        let ghost s8 = *self;
        refined = self.analyze_next_placement_with(Analysis::GroupSubsetInclusion, placements);
        proof {
            lemma_evolves_trans(*self, s8, *old(self));
        }
        if refined != 0 {
            proof {
                let plen = placements@.len() as int;
                assert(s1.log() == s0.log());
                assert(s2.log() == s1.log());
                assert(s3.log() == s2.log());
                assert(s4.log() == s3.log());
                assert(s5.log() == s4.log());
                assert(s6.log() == s5.log());
                assert(s7.log() == s6.log());
                assert(s8.log() == s7.log());
                assert(s1.pcur(4) == s0.pcur(4));
                assert(s2.pcur(4) == s1.pcur(4));
                assert(s3.pcur(4) == s2.pcur(4));
                assert(s4.pcur(4) == s3.pcur(4));
                assert(s5.pcur(4) == s4.pcur(4));
                assert(s6.pcur(4) == s5.pcur(4));
                assert(s7.pcur(4) == s6.pcur(4));
                assert(s8.pcur(4) == s7.pcur(4));
                assert(combo_advanced(s0, *self, 8, plen));
                assert forall|n: int| 0 <= n < 8 implies combo_advanced_iff(s0, *self, n, plen) by {
                    if n == 0 {
                        assert(s1.pcur(0) == (if s0.pcur(0) < plen { s0.pcur(0) + 1 } else { s0.pcur(0) }));
                        assert(s2.pcur(0) == s1.pcur(0));
                        assert(s3.pcur(0) == s2.pcur(0));
                        assert(s4.pcur(0) == s3.pcur(0));
                        assert(s5.pcur(0) == s4.pcur(0));
                        assert(s6.pcur(0) == s5.pcur(0));
                        assert(s7.pcur(0) == s6.pcur(0));
                        assert(s8.pcur(0) == s7.pcur(0));
                        assert(self.pcur(0) == s8.pcur(0));
                    } else if n == 1 {
                        assert(s1.rcur(0) == s0.rcur(0));
                        assert(s2.rcur(0) == (if s1.rcur(0) < s1.log().len() { s1.rcur(0) + 1 } else { s1.rcur(0) }));
                        assert(s3.rcur(0) == s2.rcur(0));
                        assert(s4.rcur(0) == s3.rcur(0));
                        assert(s5.rcur(0) == s4.rcur(0));
                        assert(s6.rcur(0) == s5.rcur(0));
                        assert(s7.rcur(0) == s6.rcur(0));
                        assert(s8.rcur(0) == s7.rcur(0));
                        assert(self.rcur(0) == s8.rcur(0));
                    } else if n == 2 {
                        assert(s1.pcur(1) == s0.pcur(1));
                        assert(s2.pcur(1) == s1.pcur(1));
                        assert(s3.pcur(1) == (if s2.pcur(1) < plen { s2.pcur(1) + 1 } else { s2.pcur(1) }));
                        assert(s4.pcur(1) == s3.pcur(1));
                        assert(s5.pcur(1) == s4.pcur(1));
                        assert(s6.pcur(1) == s5.pcur(1));
                        assert(s7.pcur(1) == s6.pcur(1));
                        assert(s8.pcur(1) == s7.pcur(1));
                        assert(self.pcur(1) == s8.pcur(1));
                    } else if n == 3 {
                        assert(s1.rcur(1) == s0.rcur(1));
                        assert(s2.rcur(1) == s1.rcur(1));
                        assert(s3.rcur(1) == s2.rcur(1));
                        assert(s4.rcur(1) == (if s3.rcur(1) < s3.log().len() { s3.rcur(1) + 1 } else { s3.rcur(1) }));
                        assert(s5.rcur(1) == s4.rcur(1));
                        assert(s6.rcur(1) == s5.rcur(1));
                        assert(s7.rcur(1) == s6.rcur(1));
                        assert(s8.rcur(1) == s7.rcur(1));
                        assert(self.rcur(1) == s8.rcur(1));
                    } else if n == 4 {
                        assert(s1.pcur(2) == s0.pcur(2));
                        assert(s2.pcur(2) == s1.pcur(2));
                        assert(s3.pcur(2) == s2.pcur(2));
                        assert(s4.pcur(2) == s3.pcur(2));
                        assert(s5.pcur(2) == (if s4.pcur(2) < plen { s4.pcur(2) + 1 } else { s4.pcur(2) }));
                        assert(s6.pcur(2) == s5.pcur(2));
                        assert(s7.pcur(2) == s6.pcur(2));
                        assert(s8.pcur(2) == s7.pcur(2));
                        assert(self.pcur(2) == s8.pcur(2));
                    } else if n == 5 {
                        assert(s1.rcur(2) == s0.rcur(2));
                        assert(s2.rcur(2) == s1.rcur(2));
                        assert(s3.rcur(2) == s2.rcur(2));
                        assert(s4.rcur(2) == s3.rcur(2));
                        assert(s5.rcur(2) == s4.rcur(2));
                        assert(s6.rcur(2) == (if s5.rcur(2) < s5.log().len() { s5.rcur(2) + 1 } else { s5.rcur(2) }));
                        assert(s7.rcur(2) == s6.rcur(2));
                        assert(s8.rcur(2) == s7.rcur(2));
                        assert(self.rcur(2) == s8.rcur(2));
                    } else if n == 6 {
                        assert(s1.pcur(3) == s0.pcur(3));
                        assert(s2.pcur(3) == s1.pcur(3));
                        assert(s3.pcur(3) == s2.pcur(3));
                        assert(s4.pcur(3) == s3.pcur(3));
                        assert(s5.pcur(3) == s4.pcur(3));
                        assert(s6.pcur(3) == s5.pcur(3));
                        assert(s7.pcur(3) == (if s6.pcur(3) < plen { s6.pcur(3) + 1 } else { s6.pcur(3) }));
                        assert(s8.pcur(3) == s7.pcur(3));
                        assert(self.pcur(3) == s8.pcur(3));
                    } else if n == 7 {
                        assert(s1.rcur(3) == s0.rcur(3));
                        assert(s2.rcur(3) == s1.rcur(3));
                        assert(s3.rcur(3) == s2.rcur(3));
                        assert(s4.rcur(3) == s3.rcur(3));
                        assert(s5.rcur(3) == s4.rcur(3));
                        assert(s6.rcur(3) == s5.rcur(3));
                        assert(s7.rcur(3) == s6.rcur(3));
                        assert(s8.rcur(3) == (if s7.rcur(3) < s7.log().len() { s7.rcur(3) + 1 } else { s7.rcur(3) }));
                        assert(self.rcur(3) == s8.rcur(3));
                    } else {
                        assert(false);
                    }
                }
                assert forall|n: int| 8 < n < 10 implies combo_unchanged(s0, *self, n) by {
                    if n == 9 {
                        assert(s1.rcur(4) == s0.rcur(4));
                        assert(s2.rcur(4) == s1.rcur(4));
                        assert(s3.rcur(4) == s2.rcur(4));
                        assert(s4.rcur(4) == s3.rcur(4));
                        assert(s5.rcur(4) == s4.rcur(4));
                        assert(s6.rcur(4) == s5.rcur(4));
                        assert(s7.rcur(4) == s6.rcur(4));
                        assert(s8.rcur(4) == s7.rcur(4));
                        assert(self.rcur(4) == s8.rcur(4));
                    } else {
                        assert(false);
                    }
                }
                assert(exists|m: int| #![auto] 0 <= m < 10 && combo_advanced(s0, *self, m, plen) && (forall|n: int| 0 <= n < m ==> combo_advanced_iff(s0, *self, n, plen)) && (forall|n: int| m < n < 10 ==> combo_unchanged(s0, *self, n))) by {
                    assert(0 <= 8 < 10 && combo_advanced(s0, *self, 8, plen) && (forall|n: int| 0 <= n < 8 ==> combo_advanced_iff(s0, *self, n, plen)) && (forall|n: int| 8 < n < 10 ==> combo_unchanged(s0, *self, n)));
                }
            }
            return refined;
        }
        let ghost s9 = *self;
        refined = self.analyze_next_refinement_with(Analysis::GroupSubsetInclusion);
        proof {
            lemma_evolves_trans(*self, s9, *old(self));
        }
        if refined != 0 {
            proof {
                let plen = placements@.len() as int;
                assert(s1.log() == s0.log());
                assert(s2.log() == s1.log());
                assert(s3.log() == s2.log());
                assert(s4.log() == s3.log());
                assert(s5.log() == s4.log());
                assert(s6.log() == s5.log());
                assert(s7.log() == s6.log());
                assert(s8.log() == s7.log());
                assert(s9.log() == s8.log());
                assert(s1.rcur(4) == s0.rcur(4));
                assert(s2.rcur(4) == s1.rcur(4));
                assert(s3.rcur(4) == s2.rcur(4));
                assert(s4.rcur(4) == s3.rcur(4));
                assert(s5.rcur(4) == s4.rcur(4));
                assert(s6.rcur(4) == s5.rcur(4));
                assert(s7.rcur(4) == s6.rcur(4));
                assert(s8.rcur(4) == s7.rcur(4));
                assert(s9.rcur(4) == s8.rcur(4));
                assert(combo_advanced(s0, *self, 9, plen));
                assert forall|n: int| 0 <= n < 9 implies combo_advanced_iff(s0, *self, n, plen) by {
                    if n == 0 {
                        assert(s1.pcur(0) == (if s0.pcur(0) < plen { s0.pcur(0) + 1 } else { s0.pcur(0) }));
                        assert(s2.pcur(0) == s1.pcur(0));
                        assert(s3.pcur(0) == s2.pcur(0));
                        assert(s4.pcur(0) == s3.pcur(0));
                        assert(s5.pcur(0) == s4.pcur(0));
                        assert(s6.pcur(0) == s5.pcur(0));
                        assert(s7.pcur(0) == s6.pcur(0));
                        assert(s8.pcur(0) == s7.pcur(0));
                        assert(s9.pcur(0) == s8.pcur(0));
                        assert(self.pcur(0) == s9.pcur(0));
                    } else if n == 1 {
                        assert(s1.rcur(0) == s0.rcur(0));
                        assert(s2.rcur(0) == (if s1.rcur(0) < s1.log().len() { s1.rcur(0) + 1 } else { s1.rcur(0) }));
                        assert(s3.rcur(0) == s2.rcur(0));
                        assert(s4.rcur(0) == s3.rcur(0));
                        assert(s5.rcur(0) == s4.rcur(0));
                        assert(s6.rcur(0) == s5.rcur(0));
                        assert(s7.rcur(0) == s6.rcur(0));
                        assert(s8.rcur(0) == s7.rcur(0));
                        assert(s9.rcur(0) == s8.rcur(0));
                        assert(self.rcur(0) == s9.rcur(0));
                    } else if n == 2 {
                        assert(s1.pcur(1) == s0.pcur(1));
                        assert(s2.pcur(1) == s1.pcur(1));
                        assert(s3.pcur(1) == (if s2.pcur(1) < plen { s2.pcur(1) + 1 } else { s2.pcur(1) }));
                        assert(s4.pcur(1) == s3.pcur(1));
                        assert(s5.pcur(1) == s4.pcur(1));
                        assert(s6.pcur(1) == s5.pcur(1));
                        assert(s7.pcur(1) == s6.pcur(1));
                        assert(s8.pcur(1) == s7.pcur(1));
                        assert(s9.pcur(1) == s8.pcur(1));
                        assert(self.pcur(1) == s9.pcur(1));
                    } else if n == 3 {
                        assert(s1.rcur(1) == s0.rcur(1));
                        assert(s2.rcur(1) == s1.rcur(1));
                        assert(s3.rcur(1) == s2.rcur(1));
                        assert(s4.rcur(1) == (if s3.rcur(1) < s3.log().len() { s3.rcur(1) + 1 } else { s3.rcur(1) }));
                        assert(s5.rcur(1) == s4.rcur(1));
                        assert(s6.rcur(1) == s5.rcur(1));
                        assert(s7.rcur(1) == s6.rcur(1));
                        assert(s8.rcur(1) == s7.rcur(1));
                        assert(s9.rcur(1) == s8.rcur(1));
                        assert(self.rcur(1) == s9.rcur(1));
                    } else if n == 4 {
                        assert(s1.pcur(2) == s0.pcur(2));
                        assert(s2.pcur(2) == s1.pcur(2));
                        assert(s3.pcur(2) == s2.pcur(2));
                        assert(s4.pcur(2) == s3.pcur(2));
                        assert(s5.pcur(2) == (if s4.pcur(2) < plen { s4.pcur(2) + 1 } else { s4.pcur(2) }));
                        assert(s6.pcur(2) == s5.pcur(2));
                        assert(s7.pcur(2) == s6.pcur(2));
                        assert(s8.pcur(2) == s7.pcur(2));
                        assert(s9.pcur(2) == s8.pcur(2));
                        assert(self.pcur(2) == s9.pcur(2));
                    } else if n == 5 {
                        assert(s1.rcur(2) == s0.rcur(2));
                        assert(s2.rcur(2) == s1.rcur(2));
                        assert(s3.rcur(2) == s2.rcur(2));
                        assert(s4.rcur(2) == s3.rcur(2));
                        assert(s5.rcur(2) == s4.rcur(2));
                        assert(s6.rcur(2) == (if s5.rcur(2) < s5.log().len() { s5.rcur(2) + 1 } else { s5.rcur(2) }));
                        assert(s7.rcur(2) == s6.rcur(2));
                        assert(s8.rcur(2) == s7.rcur(2));
                        assert(s9.rcur(2) == s8.rcur(2));
                        assert(self.rcur(2) == s9.rcur(2));
                    } else if n == 6 {
                        assert(s1.pcur(3) == s0.pcur(3));
                        assert(s2.pcur(3) == s1.pcur(3));
                        assert(s3.pcur(3) == s2.pcur(3));
                        assert(s4.pcur(3) == s3.pcur(3));
                        assert(s5.pcur(3) == s4.pcur(3));
                        assert(s6.pcur(3) == s5.pcur(3));
                        assert(s7.pcur(3) == (if s6.pcur(3) < plen { s6.pcur(3) + 1 } else { s6.pcur(3) }));
                        assert(s8.pcur(3) == s7.pcur(3));
                        assert(s9.pcur(3) == s8.pcur(3));
                        assert(self.pcur(3) == s9.pcur(3));
                    } else if n == 7 {
                        assert(s1.rcur(3) == s0.rcur(3));
                        assert(s2.rcur(3) == s1.rcur(3));
                        assert(s3.rcur(3) == s2.rcur(3));
                        assert(s4.rcur(3) == s3.rcur(3));
                        assert(s5.rcur(3) == s4.rcur(3));
                        assert(s6.rcur(3) == s5.rcur(3));
                        assert(s7.rcur(3) == s6.rcur(3));
                        assert(s8.rcur(3) == (if s7.rcur(3) < s7.log().len() { s7.rcur(3) + 1 } else { s7.rcur(3) }));
                        assert(s9.rcur(3) == s8.rcur(3));
                        assert(self.rcur(3) == s9.rcur(3));
                    } else if n == 8 {
                        assert(s1.pcur(4) == s0.pcur(4));
                        assert(s2.pcur(4) == s1.pcur(4));
                        assert(s3.pcur(4) == s2.pcur(4));
                        assert(s4.pcur(4) == s3.pcur(4));
                        assert(s5.pcur(4) == s4.pcur(4));
                        assert(s6.pcur(4) == s5.pcur(4));
                        assert(s7.pcur(4) == s6.pcur(4));
                        assert(s8.pcur(4) == s7.pcur(4));
                        assert(s9.pcur(4) == (if s8.pcur(4) < plen { s8.pcur(4) + 1 } else { s8.pcur(4) }));
                        assert(self.pcur(4) == s9.pcur(4));
                    } else {
                        assert(false);
                    }
                }
                assert(exists|m: int| #![auto] 0 <= m < 10 && combo_advanced(s0, *self, m, plen) && (forall|n: int| 0 <= n < m ==> combo_advanced_iff(s0, *self, n, plen)) && (forall|n: int| m < n < 10 ==> combo_unchanged(s0, *self, n))) by {
                    assert(0 <= 9 < 10 && combo_advanced(s0, *self, 9, plen) && (forall|n: int| 0 <= n < 9 ==> combo_advanced_iff(s0, *self, n, plen)) && (forall|n: int| 9 < n < 10 ==> combo_unchanged(s0, *self, n)));
                }
            }
            return refined;
        }
        let ghost s10 = *self;
        proof {
            let plen = placements@.len() as int;
            crate::solver::possible_values::lemma_shrinks_total_equal(self.pv(), old(self).pv());
            assert forall|i: int| 0 <= i < 5 implies #[trigger] s10.pcur(i) == (if s0.pcur(i) < plen { s0.pcur(i) + 1 } else { s0.pcur(i) }) && s10.rcur(i) == (if s0.rcur(i) < s0.log().len() { s0.rcur(i) + 1 } else { s0.rcur(i) }) by {
                assert(s1.log() == s0.log());
                if i == 0 {
                    assert(s0.pcur(i) < plen ==> s1.pcur(i) == s0.pcur(i) + 1);
                    assert(s0.pcur(i) >= plen ==> s1.pcur(i) == s0.pcur(i));
                    assert(s1.rcur(i) == s0.rcur(i));
                } else {
                    assert(s1.pcur(i) == s0.pcur(i));
                    assert(s1.rcur(i) == s0.rcur(i));
                }
                assert(s2.log() == s1.log());
                if i == 0 {
                    assert(s1.rcur(i) < s1.log().len() ==> s2.rcur(i) == s1.rcur(i) + 1);
                    assert(s1.rcur(i) >= s1.log().len() ==> s2.rcur(i) == s1.rcur(i));
                    assert(s2.pcur(i) == s1.pcur(i));
                } else {
                    assert(s2.pcur(i) == s1.pcur(i));
                    assert(s2.rcur(i) == s1.rcur(i));
                }
                assert(s3.log() == s2.log());
                if i == 1 {
                    assert(s2.pcur(i) < plen ==> s3.pcur(i) == s2.pcur(i) + 1);
                    assert(s2.pcur(i) >= plen ==> s3.pcur(i) == s2.pcur(i));
                    assert(s3.rcur(i) == s2.rcur(i));
                } else {
                    assert(s3.pcur(i) == s2.pcur(i));
                    assert(s3.rcur(i) == s2.rcur(i));
                }
                assert(s4.log() == s3.log());
                if i == 1 {
                    assert(s3.rcur(i) < s3.log().len() ==> s4.rcur(i) == s3.rcur(i) + 1);
                    assert(s3.rcur(i) >= s3.log().len() ==> s4.rcur(i) == s3.rcur(i));
                    assert(s4.pcur(i) == s3.pcur(i));
                } else {
                    assert(s4.pcur(i) == s3.pcur(i));
                    assert(s4.rcur(i) == s3.rcur(i));
                }
                assert(s5.log() == s4.log());
                if i == 2 {
                    assert(s4.pcur(i) < plen ==> s5.pcur(i) == s4.pcur(i) + 1);
                    assert(s4.pcur(i) >= plen ==> s5.pcur(i) == s4.pcur(i));
                    assert(s5.rcur(i) == s4.rcur(i));
                } else {
                    assert(s5.pcur(i) == s4.pcur(i));
                    assert(s5.rcur(i) == s4.rcur(i));
                }
                assert(s6.log() == s5.log());
                if i == 2 {
                    assert(s5.rcur(i) < s5.log().len() ==> s6.rcur(i) == s5.rcur(i) + 1);
                    assert(s5.rcur(i) >= s5.log().len() ==> s6.rcur(i) == s5.rcur(i));
                    assert(s6.pcur(i) == s5.pcur(i));
                } else {
                    assert(s6.pcur(i) == s5.pcur(i));
                    assert(s6.rcur(i) == s5.rcur(i));
                }
                assert(s7.log() == s6.log());
                if i == 3 {
                    assert(s6.pcur(i) < plen ==> s7.pcur(i) == s6.pcur(i) + 1);
                    assert(s6.pcur(i) >= plen ==> s7.pcur(i) == s6.pcur(i));
                    assert(s7.rcur(i) == s6.rcur(i));
                } else {
                    assert(s7.pcur(i) == s6.pcur(i));
                    assert(s7.rcur(i) == s6.rcur(i));
                }
                assert(s8.log() == s7.log());
                if i == 3 {
                    assert(s7.rcur(i) < s7.log().len() ==> s8.rcur(i) == s7.rcur(i) + 1);
                    assert(s7.rcur(i) >= s7.log().len() ==> s8.rcur(i) == s7.rcur(i));
                    assert(s8.pcur(i) == s7.pcur(i));
                } else {
                    assert(s8.pcur(i) == s7.pcur(i));
                    assert(s8.rcur(i) == s7.rcur(i));
                }
                assert(s9.log() == s8.log());
                if i == 4 {
                    assert(s8.pcur(i) < plen ==> s9.pcur(i) == s8.pcur(i) + 1);
                    assert(s8.pcur(i) >= plen ==> s9.pcur(i) == s8.pcur(i));
                    assert(s9.rcur(i) == s8.rcur(i));
                } else {
                    assert(s9.pcur(i) == s8.pcur(i));
                    assert(s9.rcur(i) == s8.rcur(i));
                }
                assert(s10.log() == s9.log());
                if i == 4 {
                    assert(s9.rcur(i) < s9.log().len() ==> s10.rcur(i) == s9.rcur(i) + 1);
                    assert(s9.rcur(i) >= s9.log().len() ==> s10.rcur(i) == s9.rcur(i));
                    assert(s10.pcur(i) == s9.pcur(i));
                } else {
                    assert(s10.pcur(i) == s9.pcur(i));
                    assert(s10.rcur(i) == s9.rcur(i));
                }
            }
            assert forall|m: int| 0 <= m < 10 implies #[trigger] combo_advanced_iff(
                s0,
                s10,
                m,
                plen,
            ) by {
                if m % 2 == 0 {
                    assert(s10.pcur(m / 2) == (if s0.pcur(m / 2) < plen {
                        s0.pcur(m / 2) + 1
                    } else {
                        s0.pcur(m / 2)
                    }));
                } else {
                    assert(s10.rcur(m / 2) == (if s0.rcur(m / 2) < s0.log().len() {
                        s0.rcur(m / 2) + 1
                    } else {
                        s0.rcur(m / 2)
                    }));
                }
            }
            if exists|j: int| 0 <= j < 5 && (s0.pcur(j) < plen || s0.rcur(j) < s0.log().len()) {
                assert(s10.log() == s0.log());
                lemma_pending_le(s0, s10, plen, 0);
            }
        }
        0
    }

    /// Incrementally analyze one placement with the specified analysis
    /// strategy.
    ///
    /// Returns the number of refinements added, possibly 0 if no progress was
    /// made.
    pub fn analyze_next_placement_with(
        &mut self,
        analysis: Analysis,
        placements: &JournalWriter<Placement>,
    ) -> (r: usize)
        requires
            old(self).wf(),
        ensures
            final(self).wf(),
            final(self).evolves_from(*old(self)),
            r == final(self).log().len() - old(self).log().len(),
            forall|i: int|
                0 <= i < 5 && i != analysis.spec_index() ==> #[trigger] final(self).pcur(i) == old(
                    self,
                ).pcur(i),
            forall|i: int| 0 <= i < 5 ==> #[trigger] final(self).rcur(i) == old(self).rcur(i),
            old(self).pcur(analysis.spec_index()) < placements@.len() ==> final(self).pcur(
                analysis.spec_index(),
            ) == old(self).pcur(analysis.spec_index()) + 1,
            old(self).pcur(analysis.spec_index()) >= placements@.len() ==> *final(self) == *old(
                self,
            ) && r == 0,
            r == 0 ==> final(self).log() == old(self).log(),
            old(self).pcur(analysis.spec_index()) < placements@.len() && analysis
                == Analysis::CellExclusion ==> {
                let event = placements@[old(self).pcur(analysis.spec_index())];
                &&& (old(self).pv().candidates(event.spec_cell()@).contains(event.spec_digit()@)
                    ==> final(self).pv().candidates(event.spec_cell()@) == set![
                    event.spec_digit()@,
                ])
                &&& forall|c: int|
                    0 <= c < 81 && c != event.spec_cell()@
                        ==> #[trigger] final(self).pv().candidates(c) == old(self).pv().candidates(
                        c,
                    )
                &&& forall|k: int|
                    old(self).log().len() <= k < final(self).log().len() ==> {
                        let appended = #[trigger] final(self).log()[k];
                        &&& appended.spec_cell() == event.spec_cell()
                        &&& appended.spec_reason() == RefinementReason::CellExclusion(
                            event.spec_digit(),
                        )
                        &&& old(self).pv().candidates(event.spec_cell()@).contains(
                            appended.spec_removed()@,
                        )
                        &&& appended.spec_removed()@ != event.spec_digit()@
                    }
            },
            old(self).pcur(analysis.spec_index()) < placements@.len() && analysis
                == Analysis::GroupExclusion ==> {
                let event = placements@[old(self).pcur(analysis.spec_index())];
                &&& forall|o: int|
                    0 <= o < 81 ==> #[trigger] final(self).pv().candidates(o) == if o
                        != event.spec_cell()@ && crate::model::group::cells_share_group(
                        event.spec_cell()@,
                        o,
                    ) {
                        old(self).pv().candidates(o).remove(event.spec_digit()@)
                    } else {
                        old(self).pv().candidates(o)
                    }
                &&& forall|k: int|
                    old(self).log().len() <= k < final(self).log().len() ==> {
                        let appended = #[trigger] final(self).log()[k];
                        &&& appended.spec_removed() == event.spec_digit()
                        &&& appended.spec_cell()@ != event.spec_cell()@
                        &&& crate::model::group::cells_share_group(
                            event.spec_cell()@,
                            appended.spec_cell()@,
                        )
                        &&& (appended.spec_reason() matches RefinementReason::GroupExclusion(
                            source,
                            guide,
                        ) && source == event.spec_cell() && group_contains_cell(
                            guide@,
                            event.spec_cell()@,
                        ) && group_contains_cell(guide@, appended.spec_cell()@))
                    }
            },
    {
        let before = self.refinements.len();
        let index = analysis.index();

        let event = self.placements_cursors.handle_next(index, placements);
        proof {
            lemma_steps_refl(*self);
            assert forall|i: int| 0 <= i < 5 implies 0 <= #[trigger] self.rcur(i)
                <= self.log().len() by {
                assert(self.rcur(i) == old(self).rcur(i));
            }
        }
        match event {
            Some(placement) => {
                match analysis {
                    Analysis::CellExclusion => {
                        self.apply_cell_exclusion(placement);
                    },
                    Analysis::GroupExclusion => {
                        self.apply_group_exclusion(placement);
                    },
                    _ => {},
                }
            },
            None => {},
        }
        proof {
            assert(extends(self.log(), old(self).log()));
            if self.log().len() == old(self).log().len() {
                assert(self.log() =~= old(self).log());
            }
        }
        let after = self.refinements.len();
        after - before
    }

    /// Incrementally analyze one refinement with the specified analysis
    /// strategy.
    ///
    /// Returns the number of refinements added, possibly 0 if no progress was
    /// made.
    pub fn analyze_next_refinement_with(&mut self, analysis: Analysis) -> (r: usize)
        requires
            old(self).wf(),
        ensures
            final(self).wf(),
            final(self).evolves_from(*old(self)),
            r == final(self).log().len() - old(self).log().len(),
            forall|i: int|
                0 <= i < 5 && i != analysis.spec_index() ==> #[trigger] final(self).rcur(i) == old(
                    self,
                ).rcur(i),
            forall|i: int| 0 <= i < 5 ==> #[trigger] final(self).pcur(i) == old(self).pcur(i),
            old(self).rcur(analysis.spec_index()) < old(self).log().len() ==> final(self).rcur(
                analysis.spec_index(),
            ) == old(self).rcur(analysis.spec_index()) + 1,
            old(self).rcur(analysis.spec_index()) >= old(self).log().len() ==> *final(self) == *old(
                self,
            ) && r == 0,
            r == 0 ==> final(self).log() == old(self).log(),
            old(self).rcur(analysis.spec_index()) < old(self).log().len() && analysis
                == Analysis::GroupInclusion ==> (exists|mid1: PossibleValues, mid2: PossibleValues|
                #![auto]
                {
                    &&& mid1.wf()
                    &&& mid2.wf()
                    &&& group_inclusion_applied(
                        old(self).pv(),
                        mid1,
                        crate::model::group::covering_group(
                            old(self).log()[old(self).rcur(analysis.spec_index())].spec_cell()@,
                            0,
                        ),
                        old(self).log()[old(self).rcur(analysis.spec_index())].spec_removed()@,
                    )
                    &&& group_inclusion_applied(
                        mid1,
                        mid2,
                        crate::model::group::covering_group(
                            old(self).log()[old(self).rcur(analysis.spec_index())].spec_cell()@,
                            1,
                        ),
                        old(self).log()[old(self).rcur(analysis.spec_index())].spec_removed()@,
                    )
                    &&& group_inclusion_applied(
                        mid2,
                        final(self).pv(),
                        crate::model::group::covering_group(
                            old(self).log()[old(self).rcur(analysis.spec_index())].spec_cell()@,
                            2,
                        ),
                        old(self).log()[old(self).rcur(analysis.spec_index())].spec_removed()@,
                    )
                }),
            old(self).rcur(analysis.spec_index()) < old(self).log().len() && analysis
                == Analysis::GroupInclusion ==> (forall|k: int|
                old(self).log().len() <= k < final(self).log().len() ==> {
                    let event = old(self).log()[old(self).rcur(analysis.spec_index())];
                    let appended = #[trigger] final(self).log()[k];
                    &&& (appended.spec_reason() matches RefinementReason::GroupInclusion(
                        resolved,
                        guide,
                    ) && resolved == event.spec_removed() && group_contains_cell(
                        guide@,
                        event.spec_cell()@,
                    ) && group_contains_cell(guide@, appended.spec_cell()@))
                    &&& appended.spec_removed()@ != event.spec_removed()@
                }),
            old(self).rcur(analysis.spec_index()) < old(self).log().len() && analysis
                == Analysis::GroupOverlap ==> (exists|mid1: PossibleValues, mid2: PossibleValues|
                #![auto]
                {
                    &&& mid1.wf()
                    &&& mid2.wf()
                    &&& group_overlap_applied(
                        old(self).pv(),
                        mid1,
                        crate::model::group::covering_group(
                            old(self).log()[old(self).rcur(analysis.spec_index())].spec_cell()@,
                            0,
                        ),
                        old(self).log()[old(self).rcur(analysis.spec_index())].spec_removed()@,
                    )
                    &&& group_overlap_applied(
                        mid1,
                        mid2,
                        crate::model::group::covering_group(
                            old(self).log()[old(self).rcur(analysis.spec_index())].spec_cell()@,
                            1,
                        ),
                        old(self).log()[old(self).rcur(analysis.spec_index())].spec_removed()@,
                    )
                    &&& group_overlap_applied(
                        mid2,
                        final(self).pv(),
                        crate::model::group::covering_group(
                            old(self).log()[old(self).rcur(analysis.spec_index())].spec_cell()@,
                            2,
                        ),
                        old(self).log()[old(self).rcur(analysis.spec_index())].spec_removed()@,
                    )
                }),
            old(self).rcur(analysis.spec_index()) < old(self).log().len() && analysis
                == Analysis::GroupOverlap ==> (forall|k: int|
                old(self).log().len() <= k < final(self).log().len() ==> {
                    let event = old(self).log()[old(self).rcur(analysis.spec_index())];
                    let appended = #[trigger] final(self).log()[k];
                    &&& appended.spec_removed() == event.spec_removed()
                    &&& (appended.spec_reason() matches RefinementReason::GroupOverlap(
                        within,
                        guide,
                    ) && group_contains_cell(within@, event.spec_cell()@) && group_contains_cell(
                        guide@,
                        appended.spec_cell()@,
                    ) && !group_contains_cell(within@, appended.spec_cell()@))
                }),
            old(self).rcur(analysis.spec_index()) < old(self).log().len() && analysis
                == Analysis::GroupSubsetInclusion ==> (exists|examined: PossibleValues|
                #![auto]
                subset_cell_applied(
                    old(self).pv(),
                    examined,
                    old(self).log()[old(self).rcur(analysis.spec_index())].spec_cell()@,
                ) && final(self).pv().shrinks_from(examined)),
            analysis == Analysis::GroupSubsetInclusion ==> (forall|k: int|
                old(self).log().len() <= k < final(self).log().len() ==> {
                    let appended = #[trigger] final(self).log()[k];
                    appended.spec_reason() matches RefinementReason::GroupSubsetInclusion(
                        confined,
                        within,
                        guide,
                    ) && within@.contains(appended.spec_removed()@) && group_contains_cell(
                        guide@,
                        appended.spec_cell()@,
                    ) && !confined@.contains(appended.spec_cell()@)
                }),
    {
        let before = self.refinements.len();
        let index = analysis.index();

        let event = self.refinements_cursors.handle_next(index, &self.refinements);
        proof {
            lemma_steps_refl(*self);
            assert forall|i: int| 0 <= i < 5 implies 0 <= #[trigger] self.rcur(i)
                <= self.log().len() by {
                if i != analysis.spec_index() {
                    assert(self.rcur(i) == old(self).rcur(i));
                }
            }
        }
        match event {
            Some(refinement) => {
                match analysis {
                    Analysis::GroupInclusion => {
                        self.apply_group_inclusion(refinement);
                    },
                    Analysis::GroupOverlap => {
                        self.apply_group_overlap(refinement);
                    },
                    Analysis::GroupSubsetInclusion => {
                        self.apply_group_subset_inclusion(refinement);
                    },
                    _ => {},
                }
            },
            None => {},
        }
        proof {
            assert(extends(self.log(), old(self).log()));
            if self.log().len() == old(self).log().len() {
                assert(self.log() =~= old(self).log());
            }
        }
        let after = self.refinements.len();
        after - before
    }
}

/// With every cursor bounded by its journal, the pending count is not
/// negative.
pub proof fn lemma_pending_nonneg(analyzer: Analyzer, placements: int, index: int)
    requires
        0 <= index <= 5,
        forall|i: int| 0 <= i < 5 ==> #[trigger] analyzer.pcur(i) <= placements,
        forall|i: int| 0 <= i < 5 ==> #[trigger] analyzer.rcur(i) <= analyzer.log().len(),
    ensures
        analyzer.pending_from(placements, index) >= 0,
    decreases 5 - index,
{
    if index < 5 {
        lemma_pending_nonneg(analyzer, placements, index + 1);
    }
}

/// With the same journal, cursors that only advance lower the pending count;
/// one that strictly advanced lowers it strictly.
proof fn lemma_pending_le(a: Analyzer, b: Analyzer, placements: int, index: int)
    requires
        0 <= index <= 5,
        b.log() == a.log(),
        forall|i: int| 0 <= i < 5 ==> a.pcur(i) <= #[trigger] b.pcur(i),
        forall|i: int| 0 <= i < 5 ==> a.rcur(i) <= #[trigger] b.rcur(i),
    ensures
        b.pending_from(placements, index) <= a.pending_from(placements, index),
        (exists|j: int|
            index <= j < 5 && (b.pcur(j) > a.pcur(j) || b.rcur(j) > a.rcur(j))) ==> b.pending_from(
            placements,
            index,
        ) < a.pending_from(placements, index),
    decreases 5 - index,
{
    if index < 5 {
        lemma_pending_le(a, b, placements, index + 1);
        if exists|j: int| index <= j < 5 && (b.pcur(j) > a.pcur(j) || b.rcur(j) > a.rcur(j)) {
            let j = choose|j: int|
                index <= j < 5 && (b.pcur(j) > a.pcur(j) || b.rcur(j) > a.rcur(j));
            if j > index {
                assert(exists|k: int|
                    index + 1 <= k < 5 && (b.pcur(k) > a.pcur(k) || b.rcur(k) > a.rcur(k)));
            }
        }
    }
}

/// Whether, while removing a digit from the peers of a cell group by group,
/// the cell at index `other` has already been handled when the scan stands at
/// the given group rank and position.
spec fn covered_before(cell: int, other: int, which: int, position: int) -> bool {
    ||| (which > 0 && crate::model::group::group_contains_cell(
        crate::model::group::covering_group(cell, 0),
        other,
    ))
    ||| (which > 1 && crate::model::group::group_contains_cell(
        crate::model::group::covering_group(cell, 1),
        other,
    ))
    ||| (which > 2 && crate::model::group::group_contains_cell(
        crate::model::group::covering_group(cell, 2),
        other,
    ))
    ||| (0 <= which < 3 && crate::model::group::group_contains_cell(
        crate::model::group::covering_group(cell, which),
        other,
    ) && crate::model::group::cell_position(crate::model::group::covering_group(cell, which), other)
        < position)
}

/// Extending the scan by a candidate cell inserts its cross-cutting group
/// into the overlap set.
proof fn lemma_overlap_groups_step(
    pv: PossibleValues,
    includer: int,
    digit: int,
    slot: int,
    position: int,
    built: Set<int>,
)
    requires
        0 <= position < 9,
        built == overlap_groups_upto(pv, includer, digit, slot, position),
        pv.candidates(group_cell(includer, position)).contains(digit),
    ensures
        overlap_groups_upto(pv, includer, digit, slot, position + 1) == built.insert(
            overlap_group_at(includer, group_cell(includer, position), slot),
        ),
{
    let added = overlap_group_at(includer, group_cell(includer, position), slot);
    assert(overlap_groups_upto(pv, includer, digit, slot, position + 1) =~= built.insert(
        added,
    )) by {
        assert forall|h: int|
            overlap_groups_upto(pv, includer, digit, slot, position + 1).contains(
                h,
            ) implies built.insert(added).contains(h) by {
            let p = choose|p: int|
                0 <= p < position + 1 && #[trigger] pv.candidates(group_cell(includer, p)).contains(
                    digit,
                ) && h == overlap_group_at(includer, group_cell(includer, p), slot);
            if p < position {
                assert(built.contains(h));
            }
        }
        assert forall|h: int| built.insert(added).contains(h) implies overlap_groups_upto(
            pv,
            includer,
            digit,
            slot,
            position + 1,
        ).contains(h) by {
            if built.contains(h) {
                let p = choose|p: int|
                    0 <= p < position && #[trigger] pv.candidates(
                        group_cell(includer, p),
                    ).contains(digit) && h == overlap_group_at(includer, group_cell(includer, p), slot);
                assert(0 <= p < position + 1 && pv.candidates(group_cell(includer, p)).contains(
                    digit,
                ) && h == overlap_group_at(includer, group_cell(includer, p), slot));
            } else {
                assert(0 <= position < position + 1 && pv.candidates(
                    group_cell(includer, position),
                ).contains(digit) && h == overlap_group_at(
                    includer,
                    group_cell(includer, position),
                    slot,
                ));
            }
        }
    }
}

/// Extending the scan by a cell no longer holding the digit leaves the
/// overlap set unchanged.
proof fn lemma_overlap_groups_skip(
    pv: PossibleValues,
    includer: int,
    digit: int,
    slot: int,
    position: int,
)
    requires
        0 <= position < 9,
        !pv.candidates(group_cell(includer, position)).contains(digit),
    ensures
        overlap_groups_upto(pv, includer, digit, slot, position + 1) == overlap_groups_upto(
            pv,
            includer,
            digit,
            slot,
            position,
        ),
{
    assert(overlap_groups_upto(pv, includer, digit, slot, position + 1) =~= overlap_groups_upto(
        pv,
        includer,
        digit,
        slot,
        position,
    )) by {
        assert forall|h: int|
            overlap_groups_upto(pv, includer, digit, slot, position + 1).contains(
                h,
            ) implies overlap_groups_upto(pv, includer, digit, slot, position).contains(h) by {
            let p = choose|p: int|
                0 <= p < position + 1 && #[trigger] pv.candidates(group_cell(includer, p)).contains(
                    digit,
                ) && h == overlap_group_at(includer, group_cell(includer, p), slot);
            assert(p < position);
            assert(0 <= p < position && pv.candidates(group_cell(includer, p)).contains(digit)
                && h == overlap_group_at(includer, group_cell(includer, p), slot));
        }
        assert forall|h: int|
            overlap_groups_upto(pv, includer, digit, slot, position).contains(
                h,
            ) implies overlap_groups_upto(pv, includer, digit, slot, position + 1).contains(h) by {
            let p = choose|p: int|
                0 <= p < position && #[trigger] pv.candidates(group_cell(includer, p)).contains(
                    digit,
                ) && h == overlap_group_at(includer, group_cell(includer, p), slot);
            assert(0 <= p < position + 1 && pv.candidates(group_cell(includer, p)).contains(digit)
                && h == overlap_group_at(includer, group_cell(includer, p), slot));
        }
    }
}

/// Relating an analyzer to itself satisfies `steps_from`.
proof fn lemma_steps_refl(analyzer: Analyzer)
    ensures
        analyzer.steps_from(analyzer),
{
    assert(analyzer.log().take(analyzer.log().len() as int) =~= analyzer.log());
}

/// `evolves_from` is transitive.
proof fn lemma_evolves_trans(a: Analyzer, b: Analyzer, c: Analyzer)
    requires
        a.evolves_from(b),
        b.evolves_from(c),
    ensures
        a.evolves_from(c),
{
    crate::solver::possible_values::lemma_shrinks_trans(a.pv(), b.pv(), c.pv());
    assert(a.log().take(c.log().len() as int) =~= c.log()) by {
        assert forall|k: int| 0 <= k < c.log().len() implies a.log()[k] == c.log()[k] by {
            assert(a.log().take(b.log().len() as int)[k] == a.log()[k]);
            assert(b.log().take(c.log().len() as int)[k] == b.log()[k]);
        }
    }
}

/// `steps_from` is transitive.
proof fn lemma_steps_trans(a: Analyzer, b: Analyzer, c: Analyzer)
    requires
        a.steps_from(b),
        b.steps_from(c),
    ensures
        a.steps_from(c),
{
    crate::solver::possible_values::lemma_shrinks_trans(a.pv(), b.pv(), c.pv());
    assert(a.log().take(c.log().len() as int) =~= c.log()) by {
        assert forall|k: int| 0 <= k < c.log().len() implies a.log()[k] == c.log()[k] by {
            assert(a.log().take(b.log().len() as int)[k] == a.log()[k]);
            assert(b.log().take(c.log().len() as int)[k] == b.log()[k]);
        }
    }
}

} // verus!
