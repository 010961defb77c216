//! Home to the various analyses of a given Sudoku grid.
//!
//! The analyses are about using the grid and the meta-information about the
//! grid to further infer more meta-information.

use vstd::prelude::*;

verus! {

/// The total number of analyses.
pub const NUMBER_ANALYSIS: usize = 5;

/// The various analyses algorithms, from cheap to expensive.
#[derive(Clone, Copy, Debug, PartialEq, Eq, Hash, Structural)]
pub enum Analysis {
    /// A single digit may appear in a given cell, hence when a digit is
    /// placed, no other digit remains possible.
    CellExclusion,
    /// A given digit may only appear once in any group, hence when a digit is
    /// known to be in a specific cell, none of the other cells covered by the
    /// same 3 groups can possibly contain this digit.
    GroupExclusion,
    /// A given digit must appear at least once in any group, hence when a
    /// digit is only possible in one of the cells covered by a group, this
    /// cell must resolve to this digit.
    GroupInclusion,
    /// A square and a line overlap in a set of 3 cells. If for either of the
    /// 2 groups, square or line, a given digit must appear in this overlap,
    /// then it cannot appear outside of this overlap for the other group.
    GroupOverlap,
    /// When a set of N digits is the only set of possible values for a set of
    /// N cells within a given group, then those N digits can only appear
    /// within those N cells.
    GroupSubsetInclusion,
}

impl Analysis {
    /// The rank of the analysis, in cheapest-to-most-expensive order.
    pub open spec fn spec_index(self) -> int {
        match self {
            Analysis::CellExclusion => 0,
            Analysis::GroupExclusion => 1,
            Analysis::GroupInclusion => 2,
            Analysis::GroupOverlap => 3,
            Analysis::GroupSubsetInclusion => 4,
        }
    }

    /// Returns the rank of the analysis, in cheapest-to-most-expensive order.
    pub fn index(&self) -> (r: usize)
        ensures
            r == self.spec_index(),
            r < NUMBER_ANALYSIS,
    {
        match *self {
            Analysis::CellExclusion => 0,
            Analysis::GroupExclusion => 1,
            Analysis::GroupInclusion => 2,
            Analysis::GroupOverlap => 3,
            Analysis::GroupSubsetInclusion => 4,
        }
    }
}

} // verus!
