//! The placement of a digit in a cell, taking a firm step towards completion.

use vstd::prelude::*;

use crate::model::digit::Digit;
use crate::model::index::CellIndex;

verus! {

/// Placement, and its meta-information.
#[derive(Clone, Copy, Debug, PartialEq, Eq, Hash)]
pub struct Placement {
    cell: CellIndex,
    digit: Digit,
}

impl Placement {
    /// The cell of the placement.
    pub closed spec fn spec_cell(self) -> CellIndex {
        self.cell
    }

    /// The digit of the placement.
    pub closed spec fn spec_digit(self) -> Digit {
        self.digit
    }

    /// Creates an instance.
    pub fn new(cell: CellIndex, digit: Digit) -> (r: Self)
        ensures
            r.spec_cell() == cell,
            r.spec_digit() == digit,
    {
        Self { cell, digit }
    }

    /// Returns the cell in which a digit was placed.
    pub fn cell(&self) -> (r: CellIndex)
        ensures
            r == self.spec_cell(),
    {
        self.cell
    }

    /// Returns the digit placed in the cell.
    pub fn digit(&self) -> (r: Digit)
        ensures
            r == self.spec_digit(),
    {
        self.digit
    }
}

} // verus!
