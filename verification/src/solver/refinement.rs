//! A refinement to the set of possible values of a cell.

use vstd::prelude::*;

use crate::model::cell_set::CellSet;
use crate::model::digit::Digit;
use crate::model::digit_set::DigitSet;
use crate::model::group::Group;
use crate::model::index::CellIndex;

verus! {

/// A refinement to the set of possible values of a cell.
#[derive(Clone, Copy, Debug, PartialEq, Eq, Hash)]
pub struct Refinement {
    cell: CellIndex,
    removed: Digit,
    reason: RefinementReason,
}

impl Refinement {
    /// The cell of the refinement.
    pub closed spec fn spec_cell(self) -> CellIndex {
        self.cell
    }

    /// The digit removed by the refinement.
    pub closed spec fn spec_removed(self) -> Digit {
        self.removed
    }

    /// The reason of the refinement.
    pub closed spec fn spec_reason(self) -> RefinementReason {
        self.reason
    }

    /// Creates an instance.
    pub fn new(cell: CellIndex, removed: Digit, reason: RefinementReason) -> (r: Self)
        ensures
            r.spec_cell() == cell,
            r.spec_removed() == removed,
            r.spec_reason() == reason,
    {
        Self { cell, removed, reason }
    }

    /// Returns the cell in which the digit was removed.
    pub fn cell(&self) -> (r: CellIndex)
        ensures
            r == self.spec_cell(),
    {
        self.cell
    }

    /// Returns the removed digit.
    pub fn removed(&self) -> (r: Digit)
        ensures
            r == self.spec_removed(),
    {
        self.removed
    }

    /// Returns the reason the removal occurred.
    pub fn reason(&self) -> (r: RefinementReason)
        ensures
            r == self.spec_reason(),
    {
        self.reason
    }
}

/// The reason for which a refinement occurred.
#[derive(Clone, Copy, Debug, PartialEq, Eq, Hash)]
pub enum RefinementReason {
    /// CellExclusion: the digit which was placed in the cell.
    CellExclusion(Digit),
    /// GroupExclusion: the cell in which the removed digit was set, and the
    /// group guiding the removal.
    GroupExclusion(CellIndex, Group),
    /// GroupInclusion: the digit which was placed in the cell, and the group
    /// guiding the removal.
    GroupInclusion(Digit, Group),
    /// GroupOverlap: the group for which the digit is only present in the
    /// overlap, and the group guiding the removal.
    GroupOverlap(Group, Group),
    /// GroupSubsetInclusion: subset of cells and digits, and the group
    /// guiding the removal.
    GroupSubsetInclusion(CellSet, DigitSet, Group),
}

} // verus!
