//! A digit for the grid.

use vstd::prelude::*;

use crate::model::dimension::DIMENSION;
use crate::model::render::decimal;

verus! {

/// A `Digit` represents a single cell of a sudoku grid.
///
/// A `Digit` always falls in the `1..=DIMENSION` range.
#[derive(Clone, Copy, Debug, PartialEq, Eq, Hash, PartialOrd, Ord, Structural)]
pub struct Digit(u8);

impl View for Digit {
    type V = int;

    closed spec fn view(&self) -> int {
        self.0 as int
    }
}

impl Digit {
    /// A digit always falls in the `1..=DIMENSION` range.
    #[verifier::type_invariant]
    pub open spec fn type_inv(self) -> bool {
        1 <= self@ <= DIMENSION
    }

    /// The message rejecting a zero digit.
    pub open spec fn zero_message() -> Seq<char> {
        "0 is never an appropriate digit"@
    }

    /// The message rejecting a too-large digit.
    pub open spec fn high_message(value: int) -> Seq<char> {
        decimal(value) + " is not an appropriate digit for a 9x9 sudoku grid"@
    }

    /// Creates a digit, if the number is within range.
    ///
    /// If the number is not within range, an error is returned.
    pub fn new(value: usize) -> (r: Result<Digit, String>)
        ensures
            r is Ok <==> 1 <= value <= DIMENSION,
            match r {
                Ok(digit) => digit@ == value,
                Err(message) => message@ == if value == 0 {
                    Self::zero_message()
                } else {
                    Self::high_message(value as int)
                },
            },
    {
        if value > DIMENSION {
            let mut message = String::new();
            crate::model::render::append_decimal(&mut message, value);
            message.append(" is not an appropriate digit for a 9x9 sudoku grid");
            return Err(message);
        }

        if value == 0 {
            return Err(String::from_str("0 is never an appropriate digit"));
        }

        Ok(Digit(value as u8))
    }

    /// Returns the actual value of the digit.
    pub fn value(&self) -> (r: usize)
        ensures
            r == self@,
            1 <= r <= DIMENSION,
    {
        proof {
            use_type_invariant(self);
        }
        self.0 as usize
    }
}

} // verus!
