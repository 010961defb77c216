//! Incremental digit placer, based on analysis results.

use vstd::prelude::*;

use crate::model::digit::Digit;
use crate::model::digit_set::lemma_digit_set_finite;
use crate::model::digit_set::DigitSetIterator;
use crate::model::index::CellIndex;
use crate::solver::journal::JournalCursor;
use crate::solver::journal::JournalReader;
use crate::solver::journal::JournalWriter;
use crate::solver::placement::Placement;
use crate::solver::possible_values::PossibleValues;
use crate::solver::refinement::Refinement;

verus! {

broadcast use lemma_digit_set_finite;

/// The digits removed at `cell` by the refinement events at positions
/// `from..to` of the journal.
pub open spec fn refined_digits_at(
    events: Seq<Refinement>,
    cell: int,
    from: int,
    to: int,
) -> Set<int>
    decreases to - from,
{
    if to <= from {
        Set::empty()
    } else {
        let prior = refined_digits_at(events, cell, from, to - 1);
        if events[to - 1].spec_cell()@ == cell {
            prior.insert(events[to - 1].spec_removed()@)
        } else {
            prior
        }
    }
}

/// The digits a segment removes do not depend on events beyond it: a grown
/// journal yields the same set over the same positions.
pub proof fn lemma_refined_digits_stable(
    longer: Seq<Refinement>,
    shorter: Seq<Refinement>,
    cell: int,
    from: int,
    to: int,
)
    requires
        crate::solver::journal::extends(longer, shorter),
        0 <= from,
        to <= shorter.len(),
    ensures
        refined_digits_at(longer, cell, from, to) == refined_digits_at(shorter, cell, from, to),
    decreases to - from,
{
    if from < to {
        lemma_refined_digits_stable(longer, shorter, cell, from, to - 1);
        assert(longer.take(shorter.len() as int)[to - 1] == longer[to - 1]);
        assert(longer[to - 1] == shorter[to - 1]);
    }
}

/// Consecutive segments remove the union of what each removes.
pub proof fn lemma_refined_digits_concat(
    events: Seq<Refinement>,
    cell: int,
    from: int,
    middle: int,
    to: int,
)
    requires
        from <= middle <= to,
    ensures
        refined_digits_at(events, cell, from, to) == refined_digits_at(
            events,
            cell,
            from,
            middle,
        ).union(refined_digits_at(events, cell, middle, to)),
    decreases to - middle,
{
    if middle == to {
        assert(refined_digits_at(events, cell, from, to) =~= refined_digits_at(
            events,
            cell,
            from,
            middle,
        ).union(refined_digits_at(events, cell, middle, to)));
    } else {
        lemma_refined_digits_concat(events, cell, from, middle, to - 1);
        assert(refined_digits_at(events, cell, from, to) =~= refined_digits_at(
            events,
            cell,
            from,
            middle,
        ).union(refined_digits_at(events, cell, middle, to)));
    }
}

/// Incremental digit placer.
///
/// The placer consumes refinements from the analyzer's journal through a
/// private cursor, maintains its own copy of the possible values, and writes
/// the placement journal: whenever a cell's candidate set collapses to a
/// single digit, a placement is appended.
#[derive(Clone, Debug)]
pub struct Placer {
    possible_values: PossibleValues,
    placements: JournalWriter<Placement>,
    refinements: JournalCursor,
}

impl Placer {
    /// The placer's copy of the possible values.
    pub closed spec fn pv(self) -> PossibleValues {
        self.possible_values
    }

    /// The sequence of placements appended so far.
    pub closed spec fn log(self) -> Seq<Placement> {
        self.placements@
    }

    /// The position of the cursor over the refinement journal.
    pub closed spec fn cursor(self) -> int {
        self.refinements.position()
    }

    /// The placer's possible values are consistent.
    pub open spec fn wf(self) -> bool {
        self.pv().wf()
    }

    /// Creates an instance, with every digit possible everywhere.
    pub fn new() -> (r: Self)
        ensures
            r.wf(),
            r.log() == Seq::<Placement>::empty(),
            r.cursor() == 0,
            forall|cell: int|
                0 <= cell < 81 ==> #[trigger] r.pv().candidates(cell)
                    == vstd::set_lib::set_int_range(1, 10),
    {
        Self {
            possible_values: PossibleValues::all(),
            placements: JournalWriter::new(),
            refinements: JournalCursor::new(),
        }
    }

    /// Returns the placer's copy of the possible values.
    pub fn possible_values(&self) -> (r: PossibleValues)
        ensures
            r == self.pv(),
    {
        self.possible_values
    }

    /// Returns a handle over the placements.
    pub fn placements(&self) -> (r: JournalReader<'_, Placement>)
        ensures
            r@ == self.log(),
    {
        self.placements.reader()
    }

    /// Returns the placement journal itself.
    pub(crate) fn placement_journal(&self) -> (r: &JournalWriter<Placement>)
        ensures
            r@ == self.log(),
    {
        &self.placements
    }

    /// Returns whether the Placer is done with the refinements so far.
    pub fn is_done(&self, refinements: &JournalWriter<Refinement>) -> (r: bool)
        ensures
            r <==> self.cursor() == refinements@.len(),
    {
        self.refinements.is_done(refinements)
    }

    /// Manually set a digit, notably used for initialization.
    ///
    /// Resolves the digit in the local possible values and appends a
    /// placement.
    pub fn set_digit(&mut self, cell: CellIndex, digit: Digit)
        requires
            old(self).wf(),
            old(self).pv().candidates(cell@).contains(digit@),
        ensures
            final(self).wf(),
            final(self).cursor() == old(self).cursor(),
            final(self).pv().candidates(cell@) == set![digit@],
            forall|c: int|
                0 <= c < 81 && c != cell@ ==> #[trigger] final(self).pv().candidates(c) == old(
                    self,
                ).pv().candidates(c),
            final(self).pv().shrinks_from(old(self).pv()),
            final(self).log().len() == old(self).log().len() + 1,
            final(self).log() == old(self).log().push(final(self).log().last()),
            final(self).log().last().spec_cell() == cell,
            final(self).log().last().spec_digit() == digit,
    {
        self.possible_values.resolve(cell, digit);

        self.placements.append_event(Placement::new(cell, digit));
    }

    /// Incrementally process the next refinement.
    ///
    /// Pulls the next refinement, if any, and removes its digit from the
    /// local possible values. Returns the placement made, if any: one is made
    /// exactly when the removal shrank the cell's candidate set to a single
    /// digit.
    pub fn handle_next_refinement(&mut self, refinements: &JournalWriter<Refinement>) -> (r: Option<
        Placement,
    >)
        requires
            old(self).wf(),
        ensures
            final(self).wf(),
            final(self).pv().shrinks_from(old(self).pv()),
            old(self).cursor() >= refinements@.len() ==> r is None && *final(self) == *old(self),
            old(self).cursor() < refinements@.len() ==> {
                let event = refinements@[old(self).cursor()];
                let cell = event.spec_cell()@;
                let digit = event.spec_removed()@;
                let before = old(self).pv();
                let after = final(self).pv();
                &&& final(self).cursor() == old(self).cursor() + 1
                &&& after.candidates(cell) == before.candidates(cell).remove(digit)
                &&& forall|c: int|
                    0 <= c < 81 && c != cell ==> #[trigger] after.candidates(c)
                        == before.candidates(c)
                &&& if before.candidates(cell).contains(digit) && after.candidates(cell).len()
                    == 1 {
                    &&& (r matches Some(placement) && placement.spec_cell()@ == cell
                        && after.candidates(cell) == set![placement.spec_digit()@])
                    &&& final(self).log() == old(self).log().push(r.unwrap())
                } else {
                    r is None && final(self).log() == old(self).log()
                }
            },
    {
        let event = self.refinements.handle_next(refinements);
        let refinement = match event {
            Some(refinement) => refinement,
            None => {
                return None;
            },
        };

        let cell = refinement.cell();
        let digit = refinement.removed();

        let removed = self.possible_values.remove_possibility(cell, digit);
        if removed.is_none() {
            return None;
        }

        let candidates = self.possible_values.of_cell(cell);
        if candidates.size() != 1 {
            return None;
        }

        //  The refinement has excluded all other possibilities for the cell.
        proof {
            if candidates@ == Set::<int>::empty() {
                assert(candidates@.len() == 0);
            }
        }
        let mut members = DigitSetIterator::new(candidates);
        let remaining = members.next().unwrap();

        proof {
            let view = candidates@;
            assert(view.remove(remaining@).len() == 0);
            view.remove(remaining@).lemma_len0_is_empty();
            assert(view =~= view.remove(remaining@).insert(remaining@));
            assert(view =~= set![remaining@]);
        }

        let placement = Placement::new(cell, remaining);
        self.placements.append_event(placement);

        Some(placement)
    }
}

} // verus!
