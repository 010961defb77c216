//! A counter for the number of occurrences of each digit.

use vstd::prelude::*;

use crate::model::digit::Digit;
use crate::model::dimension::DIMENSION;
use crate::model::render::decimal;

verus! {

/// Counter of Digits.
#[derive(Clone, Copy, Debug, PartialEq, Eq, Hash)]
pub struct DigitCounter([u8; 9]);

impl Default for DigitCounter {
    /// Creates a DigitCounter with every count at zero.
    fn default() -> (r: DigitCounter)
        ensures
            forall|d: int| 1 <= d <= 9 ==> #[trigger] r.spec_count(d) == 0,
    {
        DigitCounter([0, 0, 0, 0, 0, 0, 0, 0, 0])
    }
}

impl DigitCounter {
    /// The count recorded for the given digit value.
    pub closed spec fn spec_count(self, digit: int) -> int {
        self.0@[digit - 1] as int
    }

    /// Creates a full DigitCounter, for which each Digit has the maximum
    /// count.
    pub fn full() -> (r: DigitCounter)
        ensures
            forall|d: int| 1 <= d <= 9 ==> #[trigger] r.spec_count(d) == 9,
    {
        DigitCounter([9, 9, 9, 9, 9, 9, 9, 9, 9])
    }

    /// Check the counter for a particular digit.
    pub fn count(&self, digit: Digit) -> (r: usize)
        ensures
            r == self.spec_count(digit@),
    {
        let index = digit.value() - 1;
        self.0[index] as usize
    }

    /// Returns an iterator over the digits whose counter equals 1.
    pub fn singles(&self) -> (r: SingleDigitCounterIterator)
        ensures
            r.counter() == *self,
            r.position() == 0,
    {
        SingleDigitCounterIterator { counter: *self, position: 0 }
    }

    /// Set the counter for a particular digit.
    pub fn set(&mut self, digit: Digit, value: usize)
        requires
            value <= DIMENSION,
        ensures
            final(self).spec_count(digit@) == value,
            forall|d: int|
                1 <= d <= 9 && d != digit@ ==> #[trigger] final(self).spec_count(d) == old(
                    self,
                ).spec_count(d),
    {
        let index = digit.value() - 1;
        self.0[index] = value as u8;
    }

    /// Decrement the counter for a particular digit.
    pub fn decrement(&mut self, digit: Digit)
        requires
            old(self).spec_count(digit@) > 0,
        ensures
            final(self).spec_count(digit@) == old(self).spec_count(digit@) - 1,
            forall|d: int|
                1 <= d <= 9 && d != digit@ ==> #[trigger] final(self).spec_count(d) == old(
                    self,
                ).spec_count(d),
    {
        let index = digit.value() - 1;
        let counter = self.0[index];
        self.0[index] = counter - 1;
    }

    /// Increment the counter for a particular digit.
    ///
    /// The count must not already stand at the maximum.
    pub fn increment(&mut self, digit: Digit)
        requires
            old(self).spec_count(digit@) < DIMENSION,
        ensures
            final(self).spec_count(digit@) == old(self).spec_count(digit@) + 1,
            forall|d: int|
                1 <= d <= 9 && d != digit@ ==> #[trigger] final(self).spec_count(d) == old(
                    self,
                ).spec_count(d),
    {
        let index = digit.value() - 1;
        let counter = self.0[index];
        self.0[index] = counter + 1;
    }

    /// The textual rendering of the counts up to `bound`, as `digit: count`
    /// entries with `", "` separators.
    pub open spec fn rendered_counts(self, bound: int) -> Seq<char>
        decreases bound,
    {
        if bound <= 0 {
            Seq::empty()
        } else {
            let entry = decimal(bound) + ": "@ + decimal(self.spec_count(bound));
            if bound == 1 {
                entry
            } else {
                self.rendered_counts(bound - 1) + ", "@ + entry
            }
        }
    }

    /// Returns a textual description of the counter, of the shape
    /// `{1: 0, 2: 0, ...}`.
    pub fn to_string(&self) -> (r: String)
        ensures
            r@ == "{"@ + self.rendered_counts(9) + "}"@,
    {
        let mut result = String::from_str("{");
        let mut d: usize = 1;
        while d <= 9
            invariant
                1 <= d <= 10,
                result@ == "{"@ + self.rendered_counts(d - 1),
            decreases 10 - d,
        {
            proof {
                reveal_strlit(", ");
                reveal_strlit(": ");
            }
            if d > 1 {
                result.append(", ");
            }
            crate::model::render::append_decimal(&mut result, d);
            result.append(": ");
            let index = d - 1;
            crate::model::render::append_decimal(&mut result, self.0[index] as usize);
            proof {
                assert(result@ =~= "{"@ + self.rendered_counts(d as int));
            }
            d = d + 1;
        }
        result.append("}");
        proof {
            assert(result@ =~= "{"@ + self.rendered_counts(9) + "}"@);
        }
        result
    }
}

/// Iterator over the Digits whose counter is exactly 1, in ascending order.
#[derive(Clone, Copy, Debug, PartialEq, Eq, Hash)]
pub struct SingleDigitCounterIterator {
    counter: DigitCounter,
    position: usize,
}

impl SingleDigitCounterIterator {
    #[verifier::type_invariant]
    spec fn type_inv(self) -> bool {
        self.position <= 9
    }

    /// The counter iterated over.
    pub closed spec fn counter(self) -> DigitCounter {
        self.counter
    }

    /// The next digit index to examine.
    pub closed spec fn position(self) -> int {
        self.position as int
    }

    /// Returns the next digit whose count is exactly 1, if any.
    pub fn next(&mut self) -> (r: Option<Digit>)
        ensures
            final(self).counter() == old(self).counter(),
            match r {
                Some(digit) => {
                    &&& old(self).position() < digit@ <= 9
                    &&& old(self).counter().spec_count(digit@) == 1
                    &&& forall|j: int|
                        old(self).position() < j < digit@ ==> old(self).counter().spec_count(j)
                            != 1
                    &&& final(self).position() == digit@
                },
                None => {
                    &&& forall|j: int|
                        old(self).position() < j <= 9 ==> old(self).counter().spec_count(j) != 1
                    &&& final(self).position() == 9
                },
            },
    {
        proof {
            use_type_invariant(&*self);
        }
        let mut i: usize = self.position;
        while i < 9
            invariant
                old(self).position() <= i,
                *self == *old(self),
                i <= 9,
                forall|j: int|
                    old(self).position() < j <= i ==> old(self).counter().spec_count(j) != 1,
            decreases 9 - i,
        {
            if self.counter.0[i] == 1 {
                self.position = i + 1;
                let digit = Digit::new(i + 1).unwrap();
                return Some(digit);
            }
            i = i + 1;
        }
        self.position = 9;
        None
    }
}

/// Iterator over all Digits with their counts, in ascending order.
#[derive(Clone, Copy, Debug, PartialEq, Eq, Hash)]
pub struct DigitCounterIterator {
    counter: DigitCounter,
    position: usize,
}

impl DigitCounterIterator {
    /// The counter iterated over.
    pub closed spec fn counter(self) -> DigitCounter {
        self.counter
    }

    /// The next digit index to examine.
    pub closed spec fn position(self) -> int {
        self.position as int
    }

    /// Creates an iterator over all the entries of the given counter.
    pub fn new(counter: DigitCounter) -> (r: DigitCounterIterator)
        ensures
            r.counter() == counter,
            r.position() == 0,
    {
        DigitCounterIterator { counter, position: 0 }
    }

    /// Returns the next digit and its count, if any.
    pub fn next(&mut self) -> (r: Option<(Digit, usize)>)
        ensures
            final(self).counter() == old(self).counter(),
            old(self).position() < 9 ==> {
                &&& final(self).position() == old(self).position() + 1
                &&& (r matches Some(pair) && pair.0@ == old(self).position() + 1 && pair.1 == old(
                    self,
                ).counter().spec_count(old(self).position() + 1))
            },
            old(self).position() >= 9 ==> r is None && *final(self) == *old(self),
    {
        if self.position >= 9 {
            return None;
        }

        let index = self.position;
        self.position = index + 1;

        let digit = Digit::new(index + 1).unwrap();
        Some((digit, self.counter.0[index] as usize))
    }
}

} // verus!
