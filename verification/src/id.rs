//! Identifier model: a plain component id or a relationship pair
//! (relation, target), packed into one 64-bit value.

use vstd::prelude::*;

verus! {

/// Flag bit marking an encoded relationship pair.
pub const PAIR_FLAG: u64 = 0x8000_0000_0000_0000;

/// Mask selecting the entity part of a plain identifier: the high four
/// role/flag bits are stripped.
pub const ENTITY_MASK: u64 = 0x0FFF_FFFF_FFFF_FFFF;

/// A raw matched element: either a plain component identifier or a
/// relationship pair (relation, target), distinguished by `PAIR_FLAG`.
/// Immutable once constructed; copied by value.
#[derive(Clone, Copy, PartialEq, Eq, Structural, Debug)]
pub struct Id {
    pub bits: u64,
}

impl Id {
    /// The value carries the pair flag.
    pub open spec fn is_pair_spec(self) -> bool {
        self.bits & PAIR_FLAG == PAIR_FLAG
    }

    /// Relation part of a pair: bits 32..63.
    pub open spec fn first_spec(self) -> u64 {
        (self.bits >> 32) & 0x7FFF_FFFF
    }

    /// Target part of a pair: bits 0..32.
    pub open spec fn second_spec(self) -> u64 {
        self.bits & 0xFFFF_FFFF
    }

    /// Entity part of a plain identifier: role/flag bits stripped.
    pub open spec fn entity_spec(self) -> u64 {
        self.bits & ENTITY_MASK
    }

    /// Build a plain component identifier. The value must lie in the
    /// entity region, so no role or flag bit is set and `entity` returns
    /// it unchanged.
    pub fn new(value: u64) -> (r: Id)
        requires
            value <= ENTITY_MASK,
        ensures
            !r.is_pair_spec(),
            r.entity_spec() == value,
            r.bits == value,
    {
        proof {
            assert(value <= 0x0FFF_FFFF_FFFF_FFFFu64 ==> {
                &&& value & 0x8000_0000_0000_0000u64 != 0x8000_0000_0000_0000u64
                &&& value & 0x0FFF_FFFF_FFFF_FFFFu64 == value
            }) by (bit_vector);
        }
        Id { bits: value }
    }

    /// Build a relationship pair from a relation and a target. The
    /// relation must fit in 31 bits and the target in 32, so that both
    /// decompose back unchanged.
    pub fn new_pair(first: u64, second: u64) -> (r: Id)
        requires
            first < 0x8000_0000,
            second <= 0xFFFF_FFFF,
        ensures
            r.is_pair_spec(),
            r.first_spec() == first,
            r.second_spec() == second,
    {
        let bits: u64 = PAIR_FLAG | (first << 32) | second;
        proof {
            assert((first < 0x8000_0000u64 && second <= 0xFFFF_FFFFu64) ==> {
                let b = 0x8000_0000_0000_0000u64 | (first << 32u64) | second;
                &&& b & 0x8000_0000_0000_0000u64 == 0x8000_0000_0000_0000u64
                &&& (b >> 32u64) & 0x7FFF_FFFFu64 == first
                &&& b & 0xFFFF_FFFFu64 == second
            }) by (bit_vector);
        }
        Id { bits }
    }

    /// Whether this identifier encodes a relationship pair.
    pub fn is_pair(&self) -> (r: bool)
        ensures
            r == self.is_pair_spec(),
    {
        self.bits & PAIR_FLAG == PAIR_FLAG
    }

    /// Relation part; defined only for pairs.
    pub fn first(&self) -> (r: u64)
        requires
            self.is_pair_spec(),
        ensures
            r == self.first_spec(),
    {
        (self.bits >> 32) & 0x7FFF_FFFF
    }

    /// Target part; defined only for pairs.
    pub fn second(&self) -> (r: u64)
        requires
            self.is_pair_spec(),
        ensures
            r == self.second_spec(),
    {
        self.bits & 0xFFFF_FFFF
    }

    /// Entity part of a plain identifier; defined only when the value is
    /// not a pair.
    pub fn entity(&self) -> (r: u64)
        requires
            !self.is_pair_spec(),
        ensures
            r == self.entity_spec(),
    {
        self.bits & ENTITY_MASK
    }
}

} // verus!
