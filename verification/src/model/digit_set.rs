//! A set of digits.

use vstd::prelude::*;
use vstd::set_lib::lemma_int_range;
use vstd::set_lib::set_int_range;

use crate::model::digit::Digit;
use crate::model::render::decimal;

verus! {

/// Whether bit `index` of `bits` is set.
pub open spec fn u16_bit(bits: u16, index: int) -> bool {
    ((bits >> (index as u16)) & 1) == 1
}

/// Set of Digits, packed as one bit per digit.
#[derive(Clone, Copy, Debug, PartialEq, Eq, Hash, PartialOrd, Ord, Structural)]
pub struct DigitSet(u16);

impl View for DigitSet {
    type V = Set<int>;

    /// A digit set denotes the set of digit values it holds.
    closed spec fn view(&self) -> Set<int> {
        Set::new(|d: int| 1 <= d <= 9 && u16_bit(self.0, d - 1))
    }
}

impl Default for DigitSet {
    /// Creates an empty DigitSet.
    fn default() -> (r: DigitSet)
        ensures
            r@ == Set::<int>::empty(),
    {
        let result = DigitSet(0);
        proof {
            lemma_u16_no_bit_zero();
            assert(result@ =~= Set::<int>::empty());
        }
        result
    }
}

impl DigitSet {
    #[verifier::type_invariant]
    spec fn type_inv(self) -> bool {
        self.0 < 512
    }

    /// Creates a full DigitSet, with all values set.
    pub fn full() -> (r: DigitSet)
        ensures
            r@ == set_int_range(1, 10),
    {
        let result = DigitSet(511);
        proof {
            lemma_u16_full_bits();
            assert(result@ =~= set_int_range(1, 10));
        }
        result
    }

    /// Checks whether the set is empty.
    pub fn is_empty(&self) -> (r: bool)
        ensures
            r <==> self@ == Set::<int>::empty(),
    {
        let mut d: usize = 1;
        while d <= 9
            invariant
                1 <= d <= 10,
                forall|j: int| 1 <= j < d ==> !self@.contains(j),
            decreases 10 - d,
        {
            if (self.0 >> ((d - 1) as u16)) & 1 == 1 {
                proof {
                    assert(self@.contains(d as int));
                }
                return false;
            }
            d = d + 1;
        }
        proof {
            assert(self@ =~= Set::<int>::empty());
        }
        true
    }

    /// Returns the number of elements in the set.
    pub fn size(&self) -> (r: usize)
        ensures
            r == self@.len(),
    {
        proof {
            assert(self@.intersect(set_int_range(1, 1)) =~= Set::<int>::empty());
        }
        let mut count: usize = 0;
        let mut index: u16 = 0;
        while index < 9
            invariant
                index <= 9,
                count <= index,
                count == self@.intersect(set_int_range(1, index + 1)).len(),
            decreases 9 - index,
        {
            proof {
                lemma_int_range(1, index + 1);
                if u16_bit(self.0, index as int) {
                    assert(self@.intersect(set_int_range(1, index + 2)) =~= self@.intersect(
                        set_int_range(1, index + 1),
                    ).insert(index + 1));
                } else {
                    assert(self@.intersect(set_int_range(1, index + 2)) =~= self@.intersect(
                        set_int_range(1, index + 1),
                    ));
                }
            }
            if (self.0 >> index) & 1 == 1 {
                count = count + 1;
            }
            index = index + 1;
        }
        proof {
            assert(self@.intersect(set_int_range(1, 10)) =~= self@);
        }
        count
    }

    /// Returns whether the set contains the indicated Digit.
    pub fn has(&self, digit: Digit) -> (r: bool)
        ensures
            r == self@.contains(digit@),
    {
        let shift = (digit.value() - 1) as u16;
        (self.0 >> shift) & 1 == 1
    }

    /// Returns whether the set is a subset of the argument.
    pub fn is_subset_of(&self, other: &DigitSet) -> (r: bool)
        ensures
            r <==> self@.subset_of(other@),
    {
        let mut d: usize = 1;
        while d <= 9
            invariant
                1 <= d <= 10,
                forall|j: int| 1 <= j < d && self@.contains(j) ==> other@.contains(j),
            decreases 10 - d,
        {
            let shift = (d - 1) as u16;
            if (self.0 >> shift) & 1 == 1 && (other.0 >> shift) & 1 != 1 {
                proof {
                    assert(self@.contains(d as int) && !other@.contains(d as int));
                }
                return false;
            }
            d = d + 1;
        }
        true
    }

    /// Returns whether the set is a superset of the argument.
    pub fn is_superset_of(&self, other: &DigitSet) -> (r: bool)
        ensures
            r <==> other@.subset_of(self@),
    {
        other.is_subset_of(self)
    }

    /// Adds the specified Digit.
    pub fn add(&mut self, digit: Digit)
        ensures
            final(self)@ == old(self)@.insert(digit@),
    {
        proof {
            use_type_invariant(&*self);
        }
        let shift = (digit.value() - 1) as u16;
        proof {
            lemma_u16_or_mask(self.0, shift);
        }
        self.0 = self.0 | (1u16 << shift);
        proof {
            assert forall|d: int| 1 <= d <= 9 implies #[trigger] u16_bit(self.0, d - 1) == (
            u16_bit(old(self).0, d - 1) || d == digit@) by {
                let j = (d - 1) as u16;
                assert((((old(self).0 | (1u16 << shift)) >> j) & 1) == 1 <==> (((old(self).0 >> j)
                    & 1) == 1 || j == shift));
            }
            assert(self@ =~= old(self)@.insert(digit@));
        }
    }

    /// Removes the specified Digit.
    pub fn remove(&mut self, digit: Digit)
        ensures
            final(self)@ == old(self)@.remove(digit@),
    {
        proof {
            use_type_invariant(&*self);
        }
        let shift = (digit.value() - 1) as u16;
        proof {
            lemma_u16_clear_mask(self.0, shift);
        }
        self.0 = self.0 & !(1u16 << shift);
        proof {
            assert forall|d: int| 1 <= d <= 9 implies #[trigger] u16_bit(self.0, d - 1) == (
            u16_bit(old(self).0, d - 1) && d != digit@) by {
                let j = (d - 1) as u16;
                assert((((old(self).0 & !(1u16 << shift)) >> j) & 1) == 1 <==> (((old(self).0 >> j)
                    & 1) == 1 && j != shift));
            }
            assert(self@ =~= old(self)@.remove(digit@));
        }
    }

    /// The textual rendering of the members up to `bound`, ascending, with
    /// `", "` separators.
    pub open spec fn rendered_members(self, bound: int) -> Seq<char>
        decreases bound,
    {
        if bound <= 0 {
            Seq::empty()
        } else {
            let rest = self.rendered_members(bound - 1);
            if self@.contains(bound) {
                if rest.len() == 0 {
                    decimal(bound)
                } else {
                    rest + ", "@ + decimal(bound)
                }
            } else {
                rest
            }
        }
    }

    /// Returns a textual description of the set, of the shape `{3, 4}`.
    pub fn to_string(&self) -> (r: String)
        ensures
            r@ == "{"@ + self.rendered_members(9) + "}"@,
    {
        let mut result = String::from_str("{");
        let mut first: bool = true;
        let mut d: usize = 1;
        while d <= 9
            invariant
                1 <= d <= 10,
                result@ == "{"@ + self.rendered_members(d - 1),
                first <==> self.rendered_members(d - 1).len() == 0,
            decreases 10 - d,
        {
            if (self.0 >> ((d - 1) as u16)) & 1 == 1 {
                proof {
                    assert(self@.contains(d as int));
                    crate::model::render::lemma_decimal_short(d as int);
                    reveal_strlit(", ");
                }
                if !first {
                    result.append(", ");
                }
                crate::model::render::append_decimal(&mut result, d);
                first = false;
                proof {
                    assert(result@ =~= "{"@ + self.rendered_members(d as int));
                }
            } else {
                proof {
                    assert(!self@.contains(d as int));
                }
            }
            d = d + 1;
        }
        result.append("}");
        proof {
            assert(result@ =~= "{"@ + self.rendered_members(9) + "}"@);
        }
        result
    }
}

impl From<Digit> for DigitSet {
    /// Creates a set holding exactly the given digit.
    fn from(digit: Digit) -> (r: DigitSet) {
        let shift = (digit.value() - 1) as u16;
        proof {
            assert(shift < 9 ==> (1u16 << shift) < 512) by (bit_vector);
        }
        DigitSet(1u16 << shift)
    }
}

impl vstd::std_specs::convert::FromSpecImpl<Digit> for DigitSet {
    open spec fn obeys_from_spec() -> bool {
        true
    }

    /// The set holding exactly the given digit.
    closed spec fn from_spec(digit: Digit) -> DigitSet {
        DigitSet(1u16 << ((digit@ - 1) as u16))
    }
}

/// Iterator over a set of Digits, in ascending order.
///
/// The iterator consumes a private copy of the set, so iterating does not
/// mutate the source.
#[derive(Clone, Copy, Debug, PartialEq, Eq, Hash, Structural)]
pub struct DigitSetIterator(DigitSet);

impl View for DigitSetIterator {
    type V = Set<int>;

    /// The members not yet produced.
    closed spec fn view(&self) -> Set<int> {
        self.0@
    }
}

impl DigitSetIterator {
    /// Creates an iterator over the members of the given set.
    pub fn new(set: DigitSet) -> (r: DigitSetIterator)
        ensures
            r@ == set@,
    {
        DigitSetIterator(set)
    }

    /// Returns the smallest remaining member, if any, and removes it.
    pub fn next(&mut self) -> (r: Option<Digit>)
        ensures
            match r {
                Some(digit) => {
                    &&& old(self)@.contains(digit@)
                    &&& forall|j: int| 1 <= j < digit@ ==> !old(self)@.contains(j)
                    &&& final(self)@.len() == old(self)@.len() - 1
                    &&& final(self)@ == old(self)@.remove(digit@)
                },
                None => old(self)@ == Set::<int>::empty() && *final(self) == *old(self),
            },
    {
        let mut d: usize = 1;
        while d <= 9
            invariant
                1 <= d <= 10,
                *self == *old(self),
                forall|j: int| 1 <= j < d ==> !self@.contains(j),
            decreases 10 - d,
        {
            let digit = Digit::new(d).unwrap();
            proof {
                lemma_digit_set_finite(self.0);
            }
            if self.0.has(digit) {
                self.0.remove(digit);
                return Some(digit);
            }
            d = d + 1;
        }
        proof {
            assert(self@ =~= Set::<int>::empty());
        }
        None
    }
}

/// Every member of a digit set is a digit value.
pub broadcast proof fn lemma_digit_set_members(s: DigitSet, digit: int)
    ensures
        #[trigger] s@.contains(digit) ==> 1 <= digit <= 9,
{
}

/// The view of a digit set is finite, with at most 9 members.
pub broadcast proof fn lemma_digit_set_finite(s: DigitSet)
    ensures
        #![trigger s.view()]
        s@.finite(),
        s@.len() <= 9,
{
    vstd::set_lib::lemma_int_range(1, 10);
    vstd::set_lib::lemma_len_subset(s@, vstd::set_lib::set_int_range(1, 10));
}

//
//  Implementation: facts about the bit-packed representation.
//

proof fn lemma_u16_no_bit_zero()
    by (bit_vector)
    ensures
        forall|j: u16| ((0u16 >> j) & 1) != 1,
{
}

proof fn lemma_u16_full_bits()
    by (bit_vector)
    ensures
        forall|j: u16| j < 16 ==> ((((511u16 >> j) & 1) == 1) <==> j < 9),
        forall|j: u16| j >= 16 ==> ((511u16 >> j) & 1) != 1,
{
}

proof fn lemma_u16_or_mask(bits: u16, shift: u16)
    by (bit_vector)
    requires
        bits < 512,
        shift < 9,
    ensures
        (bits | (1u16 << shift)) < 512,
        forall|j: u16|
            ((((bits | (1u16 << shift)) >> j) & 1) == 1) <==> (((bits >> j) & 1) == 1 || j
                == shift),
{
}

proof fn lemma_u16_clear_mask(bits: u16, shift: u16)
    by (bit_vector)
    requires
        bits < 512,
        shift < 9,
    ensures
        (bits & !(1u16 << shift)) < 512,
        forall|j: u16|
            ((((bits & !(1u16 << shift)) >> j) & 1) == 1) <==> (((bits >> j) & 1) == 1 && j
                != shift),
{
}

} // verus!
