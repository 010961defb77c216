//! A set of cells.

use vstd::prelude::*;
use vstd::set_lib::lemma_int_range;
use vstd::set_lib::set_int_range;

use crate::model::index::CellIndex;
use crate::model::render::decimal;

verus! {

/// Whether bit `index` of `bits` is set.
pub open spec fn u128_bit(bits: u128, index: int) -> bool {
    ((bits >> (index as u128)) & 1) == 1
}

/// Set of CellIndex, packed as one bit per cell.
#[derive(Clone, Copy, Debug, PartialEq, Eq, Hash, PartialOrd, Ord, Structural)]
pub struct CellSet(u128);

impl View for CellSet {
    type V = Set<int>;

    /// A cell set denotes the set of cell index values it holds.
    closed spec fn view(&self) -> Set<int> {
        Set::new(|c: int| 0 <= c < 81 && u128_bit(self.0, c))
    }
}

impl Default for CellSet {
    /// Creates an empty CellSet.
    fn default() -> (r: CellSet)
        ensures
            r@ == Set::<int>::empty(),
    {
        let result = CellSet(0);
        proof {
            lemma_u128_no_bit_zero();
            assert(result@ =~= Set::<int>::empty());
        }
        result
    }
}

impl CellSet {
    #[verifier::type_invariant]
    spec fn type_inv(self) -> bool {
        self.0 <= 0x1FFFFFFFFFFFFFFFFFFFFu128
    }

    /// Creates an empty CellSet.
    pub fn empty() -> (r: CellSet)
        ensures
            r@ == Set::<int>::empty(),
    {
        CellSet::default()
    }

    /// Creates a full CellSet, with all values set.
    pub fn full() -> (r: CellSet)
        ensures
            r@ == set_int_range(0, 81),
    {
        proof {
            lemma_u128_full_bits();
        }
        let result = CellSet((1u128 << 81) - 1);
        proof {
            assert(result@ =~= set_int_range(0, 81));
        }
        result
    }

    /// Checks whether the set is empty.
    pub fn is_empty(&self) -> (r: bool)
        ensures
            r <==> self@ == Set::<int>::empty(),
    {
        let mut c: usize = 0;
        while c < 81
            invariant
                c <= 81,
                forall|j: int| 0 <= j < c ==> !self@.contains(j),
            decreases 81 - c,
        {
            if (self.0 >> (c as u128)) & 1 == 1 {
                proof {
                    assert(self@.contains(c as int));
                }
                return false;
            }
            c = c + 1;
        }
        proof {
            assert(self@ =~= Set::<int>::empty());
        }
        true
    }

    /// Returns the number of elements in the set.
    pub fn size(&self) -> (r: usize)
        ensures
            r == self@.len(),
    {
        proof {
            assert(self@.intersect(set_int_range(0, 0)) =~= Set::<int>::empty());
        }
        let mut count: usize = 0;
        let mut index: usize = 0;
        while index < 81
            invariant
                index <= 81,
                count <= index,
                count == self@.intersect(set_int_range(0, index as int)).len(),
            decreases 81 - index,
        {
            proof {
                lemma_int_range(0, index as int);
                if u128_bit(self.0, index as int) {
                    assert(self@.intersect(set_int_range(0, index + 1)) =~= self@.intersect(
                        set_int_range(0, index as int),
                    ).insert(index as int));
                } else {
                    assert(self@.intersect(set_int_range(0, index + 1)) =~= self@.intersect(
                        set_int_range(0, index as int),
                    ));
                }
            }
            if (self.0 >> (index as u128)) & 1 == 1 {
                count = count + 1;
            }
            index = index + 1;
        }
        proof {
            assert(self@.intersect(set_int_range(0, 81)) =~= self@);
        }
        count
    }

    /// Checks whether the set contains the indicated CellIndex.
    pub fn has(&self, cell: CellIndex) -> (r: bool)
        ensures
            r == self@.contains(cell@),
    {
        let shift = cell.value() as u128;
        (self.0 >> shift) & 1 == 1
    }

    /// Adds the specified CellIndex.
    pub fn add(&mut self, cell: CellIndex)
        ensures
            final(self)@ == old(self)@.insert(cell@),
    {
        proof {
            use_type_invariant(&*self);
        }
        let shift = cell.value() as u128;
        proof {
            lemma_u128_or_mask(self.0, shift);
        }
        self.0 = self.0 | (1u128 << shift);
        proof {
            assert forall|c: int| 0 <= c < 81 implies #[trigger] u128_bit(self.0, c) == (u128_bit(
                old(self).0,
                c,
            ) || c == cell@) by {
                let j = c as u128;
                assert((((old(self).0 | (1u128 << shift)) >> j) & 1) == 1 <==> (((old(self).0 >> j)
                    & 1) == 1 || j == shift));
            }
            assert(self@ =~= old(self)@.insert(cell@));
        }
    }

    /// Removes the specified CellIndex.
    pub fn remove(&mut self, cell: CellIndex)
        ensures
            final(self)@ == old(self)@.remove(cell@),
    {
        proof {
            use_type_invariant(&*self);
        }
        let shift = cell.value() as u128;
        proof {
            lemma_u128_clear_mask(self.0, shift);
        }
        self.0 = self.0 & !(1u128 << shift);
        proof {
            assert forall|c: int| 0 <= c < 81 implies #[trigger] u128_bit(self.0, c) == (u128_bit(
                old(self).0,
                c,
            ) && c != cell@) by {
                let j = c as u128;
                assert((((old(self).0 & !(1u128 << shift)) >> j) & 1) == 1 <==> (((old(self).0 >> j)
                    & 1) == 1 && j != shift));
            }
            assert(self@ =~= old(self)@.remove(cell@));
        }
    }

    /// The textual rendering of the members below `bound`, ascending, with
    /// `", "` separators.
    pub open spec fn rendered_members(self, bound: int) -> Seq<char>
        decreases bound,
    {
        if bound <= 0 {
            Seq::empty()
        } else {
            let rest = self.rendered_members(bound - 1);
            if self@.contains(bound - 1) {
                if rest.len() == 0 {
                    decimal(bound - 1)
                } else {
                    rest + ", "@ + decimal(bound - 1)
                }
            } else {
                rest
            }
        }
    }

    /// Returns a textual description of the set, of the shape `{3, 4}`.
    pub fn to_string(&self) -> (r: String)
        ensures
            r@ == "{"@ + self.rendered_members(81) + "}"@,
    {
        let mut result = String::from_str("{");
        let mut first: bool = true;
        let mut c: usize = 0;
        while c < 81
            invariant
                c <= 81,
                result@ == "{"@ + self.rendered_members(c as int),
                first <==> self.rendered_members(c as int).len() == 0,
            decreases 81 - c,
        {
            if (self.0 >> (c as u128)) & 1 == 1 {
                proof {
                    assert(self@.contains(c as int));
                    crate::model::render::lemma_decimal_short(c as int);
                    reveal_strlit(", ");
                }
                if !first {
                    result.append(", ");
                }
                crate::model::render::append_decimal(&mut result, c);
                first = false;
                proof {
                    assert(result@ =~= "{"@ + self.rendered_members(c + 1));
                }
            } else {
                proof {
                    assert(!self@.contains(c as int));
                }
            }
            c = c + 1;
        }
        result.append("}");
        proof {
            assert(result@ =~= "{"@ + self.rendered_members(81) + "}"@);
        }
        result
    }
}

impl From<CellIndex> for CellSet {
    /// Creates a set holding exactly the given cell.
    fn from(cell: CellIndex) -> (r: CellSet) {
        let shift = cell.value() as u128;
        proof {
            assert(shift < 81 ==> (1u128 << shift) <= 0x1FFFFFFFFFFFFFFFFFFFFu128) by (bit_vector);
        }
        CellSet(1u128 << shift)
    }
}

impl vstd::std_specs::convert::FromSpecImpl<CellIndex> for CellSet {
    open spec fn obeys_from_spec() -> bool {
        true
    }

    /// The set holding exactly the given cell.
    closed spec fn from_spec(cell: CellIndex) -> CellSet {
        CellSet(1u128 << (cell@ as u128))
    }
}

/// Iterator over a set of CellIndex, in ascending order.
///
/// The iterator consumes a private copy of the set, so iterating does not
/// mutate the source.
#[derive(Clone, Copy, Debug, PartialEq, Eq, Hash, Structural)]
pub struct CellSetIterator(CellSet);

impl View for CellSetIterator {
    type V = Set<int>;

    /// The members not yet produced.
    closed spec fn view(&self) -> Set<int> {
        self.0@
    }
}

impl CellSetIterator {
    /// Creates an iterator over the members of the given set.
    pub fn new(set: CellSet) -> (r: CellSetIterator)
        ensures
            r@ == set@,
    {
        CellSetIterator(set)
    }

    /// Returns the smallest remaining member, if any, and removes it.
    pub fn next(&mut self) -> (r: Option<CellIndex>)
        ensures
            match r {
                Some(cell) => {
                    &&& old(self)@.contains(cell@)
                    &&& forall|j: int| 0 <= j < cell@ ==> !old(self)@.contains(j)
                    &&& final(self)@.len() == old(self)@.len() - 1
                    &&& final(self)@ == old(self)@.remove(cell@)
                },
                None => old(self)@ == Set::<int>::empty() && *final(self) == *old(self),
            },
    {
        let mut c: usize = 0;
        while c < 81
            invariant
                c <= 81,
                *self == *old(self),
                forall|j: int| 0 <= j < c ==> !self@.contains(j),
            decreases 81 - c,
        {
            let cell = CellIndex::new(c).unwrap();
            proof {
                lemma_cell_set_finite(self.0);
            }
            if self.0.has(cell) {
                self.0.remove(cell);
                return Some(cell);
            }
            c = c + 1;
        }
        proof {
            assert(self@ =~= Set::<int>::empty());
        }
        None
    }
}

/// Every member of a cell set is a cell index.
pub broadcast proof fn lemma_cell_set_members(s: CellSet, cell: int)
    ensures
        #[trigger] s@.contains(cell) ==> 0 <= cell < 81,
{
}

/// The view of a cell set is finite, with at most 81 members.
pub broadcast proof fn lemma_cell_set_finite(s: CellSet)
    ensures
        #![trigger s.view()]
        s@.finite(),
        s@.len() <= 81,
{
    vstd::set_lib::lemma_int_range(0, 81);
    vstd::set_lib::lemma_len_subset(s@, vstd::set_lib::set_int_range(0, 81));
}

//
//  Implementation: facts about the bit-packed representation.
//

proof fn lemma_u128_no_bit_zero()
    by (bit_vector)
    ensures
        forall|j: u128| ((0u128 >> j) & 1) != 1,
{
}

proof fn lemma_u128_full_bits()
    by (bit_vector)
    ensures
        (1u128 << 81) - 1 == 0x1FFFFFFFFFFFFFFFFFFFFu128,
        forall|j: u128| (((0x1FFFFFFFFFFFFFFFFFFFFu128 >> j) & 1) == 1) <==> j < 81,
{
}

proof fn lemma_u128_or_mask(bits: u128, shift: u128)
    by (bit_vector)
    requires
        bits <= 0x1FFFFFFFFFFFFFFFFFFFFu128,
        shift < 81,
    ensures
        (bits | (1u128 << shift)) <= 0x1FFFFFFFFFFFFFFFFFFFFu128,
        forall|j: u128|
            ((((bits | (1u128 << shift)) >> j) & 1) == 1) <==> (((bits >> j) & 1) == 1 || j
                == shift),
{
}

proof fn lemma_u128_clear_mask(bits: u128, shift: u128)
    by (bit_vector)
    requires
        bits <= 0x1FFFFFFFFFFFFFFFFFFFFu128,
        shift < 81,
    ensures
        (bits & !(1u128 << shift)) <= 0x1FFFFFFFFFFFFFFFFFFFFu128,
        forall|j: u128|
            ((((bits & !(1u128 << shift)) >> j) & 1) == 1) <==> (((bits >> j) & 1) == 1 && j
                != shift),
{
}

} // verus!
