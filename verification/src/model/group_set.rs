//! A set of groups.

use vstd::prelude::*;
use vstd::set_lib::lemma_int_range;
use vstd::set_lib::set_int_range;

use crate::model::group::Group;
use crate::model::index::GroupIndex;
use crate::model::render::decimal;

verus! {

/// Whether bit `index` of `bits` is set.
pub open spec fn u64_bit(bits: u64, index: int) -> bool {
    ((bits >> (index as u64)) & 1) == 1
}

/// Set of Groups, packed as one bit per group, by flat group index.
#[derive(Clone, Copy, Debug, PartialEq, Eq, Hash, PartialOrd, Ord, Structural)]
pub struct GroupSet(u64);

impl View for GroupSet {
    type V = Set<int>;

    /// A group set denotes the set of flat group index values it holds.
    closed spec fn view(&self) -> Set<int> {
        Set::new(|g: int| 0 <= g < 27 && u64_bit(self.0, g))
    }
}

impl Default for GroupSet {
    /// Creates an empty GroupSet.
    fn default() -> (r: GroupSet)
        ensures
            r@ == Set::<int>::empty(),
    {
        let result = GroupSet(0);
        proof {
            lemma_u64_no_bit_zero();
            assert(result@ =~= Set::<int>::empty());
        }
        result
    }
}

impl GroupSet {
    #[verifier::type_invariant]
    spec fn type_inv(self) -> bool {
        self.0 < 0x8000000u64
    }

    /// Creates an empty GroupSet.
    pub fn empty() -> (r: GroupSet)
        ensures
            r@ == Set::<int>::empty(),
    {
        GroupSet::default()
    }

    /// Creates a full GroupSet, with all values set.
    pub fn full() -> (r: GroupSet)
        ensures
            r@ == set_int_range(0, 27),
    {
        proof {
            lemma_u64_full_bits();
        }
        let result = GroupSet((1u64 << 27) - 1);
        proof {
            assert(result@ =~= set_int_range(0, 27));
        }
        result
    }

    /// Checks whether the set is empty.
    pub fn is_empty(&self) -> (r: bool)
        ensures
            r <==> self@ == Set::<int>::empty(),
    {
        let mut g: usize = 0;
        while g < 27
            invariant
                g <= 27,
                forall|j: int| 0 <= j < g ==> !self@.contains(j),
            decreases 27 - g,
        {
            if (self.0 >> (g as u64)) & 1 == 1 {
                proof {
                    assert(self@.contains(g as int));
                }
                return false;
            }
            g = g + 1;
        }
        proof {
            assert(self@ =~= Set::<int>::empty());
        }
        true
    }

    /// Returns the number of elements in the set.
    pub fn size(&self) -> (r: usize)
        ensures
            r == self@.len(),
    {
        proof {
            assert(self@.intersect(set_int_range(0, 0)) =~= Set::<int>::empty());
        }
        let mut count: usize = 0;
        let mut index: usize = 0;
        while index < 27
            invariant
                index <= 27,
                count <= index,
                count == self@.intersect(set_int_range(0, index as int)).len(),
            decreases 27 - index,
        {
            proof {
                lemma_int_range(0, index as int);
                if u64_bit(self.0, index as int) {
                    assert(self@.intersect(set_int_range(0, index + 1)) =~= self@.intersect(
                        set_int_range(0, index as int),
                    ).insert(index as int));
                } else {
                    assert(self@.intersect(set_int_range(0, index + 1)) =~= self@.intersect(
                        set_int_range(0, index as int),
                    ));
                }
            }
            if (self.0 >> (index as u64)) & 1 == 1 {
                count = count + 1;
            }
            index = index + 1;
        }
        proof {
            assert(self@.intersect(set_int_range(0, 27)) =~= self@);
        }
        count
    }

    /// Checks whether the set contains the indicated Group.
    pub fn has(&self, group: Group) -> (r: bool)
        ensures
            r == self@.contains(group@),
    {
        let shift = group.index().value() as u64;
        (self.0 >> shift) & 1 == 1
    }

    /// Adds the specified Group.
    pub fn add(&mut self, group: Group)
        ensures
            final(self)@ == old(self)@.insert(group@),
    {
        proof {
            use_type_invariant(&*self);
        }
        let shift = group.index().value() as u64;
        proof {
            lemma_u64_or_mask(self.0, shift);
        }
        self.0 = self.0 | (1u64 << shift);
        proof {
            assert forall|g: int| 0 <= g < 27 implies #[trigger] u64_bit(self.0, g) == (u64_bit(
                old(self).0,
                g,
            ) || g == group@) by {
                let j = g as u64;
                assert((((old(self).0 | (1u64 << shift)) >> j) & 1) == 1 <==> (((old(self).0 >> j)
                    & 1) == 1 || j == shift));
            }
            assert(self@ =~= old(self)@.insert(group@));
        }
    }

    /// Removes the specified Group.
    pub fn remove(&mut self, group: Group)
        ensures
            final(self)@ == old(self)@.remove(group@),
    {
        proof {
            use_type_invariant(&*self);
        }
        let shift = group.index().value() as u64;
        proof {
            lemma_u64_clear_mask(self.0, shift);
        }
        self.0 = self.0 & !(1u64 << shift);
        proof {
            assert forall|g: int| 0 <= g < 27 implies #[trigger] u64_bit(self.0, g) == (u64_bit(
                old(self).0,
                g,
            ) && g != group@) by {
                let j = g as u64;
                assert((((old(self).0 & !(1u64 << shift)) >> j) & 1) == 1 <==> (((old(self).0 >> j)
                    & 1) == 1 && j != shift));
            }
            assert(self@ =~= old(self)@.remove(group@));
        }
    }

    /// The textual rendering of the group at flat index `g`.
    pub open spec fn group_label(g: int) -> Seq<char> {
        if g < 9 {
            "Column("@ + decimal(g) + ")"@
        } else if g < 18 {
            "Row("@ + decimal(g - 9) + ")"@
        } else {
            "Square("@ + decimal(g - 18) + ")"@
        }
    }

    /// The textual rendering of the members below `bound`, ascending, with
    /// `", "` separators.
    pub open spec fn rendered_members(self, bound: int) -> Seq<char>
        decreases bound,
    {
        if bound <= 0 {
            Seq::empty()
        } else {
            let rest = self.rendered_members(bound - 1);
            if self@.contains(bound - 1) {
                if rest.len() == 0 {
                    Self::group_label(bound - 1)
                } else {
                    rest + ", "@ + Self::group_label(bound - 1)
                }
            } else {
                rest
            }
        }
    }

    /// Returns a textual description of the set, of the shape `{Column(3)}`.
    pub fn to_string(&self) -> (r: String)
        ensures
            r@ == "{"@ + self.rendered_members(27) + "}"@,
    {
        let mut result = String::from_str("{");
        let mut first: bool = true;
        let mut g: usize = 0;
        while g < 27
            invariant
                g <= 27,
                result@ == "{"@ + self.rendered_members(g as int),
                first <==> self.rendered_members(g as int).len() == 0,
            decreases 27 - g,
        {
            if (self.0 >> (g as u64)) & 1 == 1 {
                proof {
                    assert(self@.contains(g as int));
                    crate::model::render::lemma_decimal_short(g as int);
                    reveal_strlit(", ");
                    reveal_strlit("Column(");
                    reveal_strlit("Row(");
                    reveal_strlit("Square(");
                }
                if !first {
                    result.append(", ");
                }
                if g < 9 {
                    result.append("Column(");
                    crate::model::render::append_decimal(&mut result, g);
                } else if g < 18 {
                    result.append("Row(");
                    crate::model::render::append_decimal(&mut result, g - 9);
                } else {
                    result.append("Square(");
                    crate::model::render::append_decimal(&mut result, g - 18);
                }
                result.append(")");
                first = false;
                proof {
                    assert(result@ =~= "{"@ + self.rendered_members(g + 1));
                }
            } else {
                proof {
                    assert(!self@.contains(g as int));
                }
            }
            g = g + 1;
        }
        result.append("}");
        proof {
            assert(result@ =~= "{"@ + self.rendered_members(27) + "}"@);
        }
        result
    }
}

impl From<Group> for GroupSet {
    /// Creates a set holding exactly the given group.
    fn from(group: Group) -> (r: GroupSet) {
        let shift = group.index().value() as u64;
        proof {
            assert(shift < 27 ==> (1u64 << shift) < 0x8000000u64) by (bit_vector);
        }
        GroupSet(1u64 << shift)
    }
}

impl vstd::std_specs::convert::FromSpecImpl<Group> for GroupSet {
    open spec fn obeys_from_spec() -> bool {
        true
    }

    /// The set holding exactly the given group.
    closed spec fn from_spec(group: Group) -> GroupSet {
        GroupSet(1u64 << (group@ as u64))
    }
}

/// Iterator over a set of Groups, in ascending flat index order.
///
/// The iterator consumes a private copy of the set, so iterating does not
/// mutate the source.
#[derive(Clone, Copy, Debug, PartialEq, Eq, Hash, Structural)]
pub struct GroupSetIterator(GroupSet);

impl View for GroupSetIterator {
    type V = Set<int>;

    /// The members not yet produced.
    closed spec fn view(&self) -> Set<int> {
        self.0@
    }
}

impl GroupSetIterator {
    /// Creates an iterator over the members of the given set.
    pub fn new(set: GroupSet) -> (r: GroupSetIterator)
        ensures
            r@ == set@,
    {
        GroupSetIterator(set)
    }

    /// Returns the group with the smallest remaining flat index, if any, and
    /// removes it.
    pub fn next(&mut self) -> (r: Option<Group>)
        ensures
            match r {
                Some(group) => {
                    &&& old(self)@.contains(group@)
                    &&& forall|j: int| 0 <= j < group@ ==> !old(self)@.contains(j)
                    &&& final(self)@.len() == old(self)@.len() - 1
                    &&& final(self)@ == old(self)@.remove(group@)
                },
                None => old(self)@ == Set::<int>::empty() && *final(self) == *old(self),
            },
    {
        let mut g: usize = 0;
        while g < 27
            invariant
                g <= 27,
                *self == *old(self),
                forall|j: int| 0 <= j < g ==> !self@.contains(j),
            decreases 27 - g,
        {
            let group = Group::new(GroupIndex::new(g).unwrap());
            proof {
                lemma_group_set_finite(self.0);
            }
            if self.0.has(group) {
                self.0.remove(group);
                return Some(group);
            }
            g = g + 1;
        }
        proof {
            assert(self@ =~= Set::<int>::empty());
        }
        None
    }
}

/// Every member of a group set is a flat group index.
pub broadcast proof fn lemma_group_set_members(s: GroupSet, group: int)
    ensures
        #[trigger] s@.contains(group) ==> 0 <= group < 27,
{
}

/// The view of a group set is finite, with at most 27 members.
pub broadcast proof fn lemma_group_set_finite(s: GroupSet)
    ensures
        #![trigger s.view()]
        s@.finite(),
        s@.len() <= 27,
{
    vstd::set_lib::lemma_int_range(0, 27);
    vstd::set_lib::lemma_len_subset(s@, vstd::set_lib::set_int_range(0, 27));
}

//
//  Implementation: facts about the bit-packed representation.
//

proof fn lemma_u64_no_bit_zero()
    by (bit_vector)
    ensures
        forall|j: u64| ((0u64 >> j) & 1) != 1,
{
}

proof fn lemma_u64_full_bits()
    by (bit_vector)
    ensures
        (1u64 << 27) - 1 == 0x7FFFFFFu64,
        forall|j: u64| (((0x7FFFFFFu64 >> j) & 1) == 1) <==> j < 27,
{
}

proof fn lemma_u64_or_mask(bits: u64, shift: u64)
    by (bit_vector)
    requires
        bits < 0x8000000u64,
        shift < 27,
    ensures
        (bits | (1u64 << shift)) < 0x8000000u64,
        forall|j: u64|
            ((((bits | (1u64 << shift)) >> j) & 1) == 1) <==> (((bits >> j) & 1) == 1 || j
                == shift),
{
}

proof fn lemma_u64_clear_mask(bits: u64, shift: u64)
    by (bit_vector)
    requires
        bits < 0x8000000u64,
        shift < 27,
    ensures
        (bits & !(1u64 << shift)) < 0x8000000u64,
        forall|j: u64|
            ((((bits & !(1u64 << shift)) >> j) & 1) == 1) <==> (((bits >> j) & 1) == 1 && j
                != shift),
{
}

} // verus!
