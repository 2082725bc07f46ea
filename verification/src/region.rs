//! Identifiers of the regions that spans are grouped into.

use vstd::prelude::*;

verus! {

/// The identifier of a region: a 16-bit number whose highest bit marks a border region.
#[derive(Clone, Copy, Debug, PartialEq, Eq, Structural, Hash)]
pub struct RegionId {
    pub bits: u16,
}

impl RegionId {
    /// The bits of the identifier of spans that are in no region, and so not walkable.
    pub const NONE_BITS: u16 = 0;

    /// The bit that marks a border region, whose spans are not walkable.
    pub const BORDER_REGION_BITS: u16 = 0x8000;

    /// The bits of the largest identifier.
    pub const MAX_BITS: u16 = 0xffff;

    /// The number that the identifier holds.
    pub open spec fn spec_bits(&self) -> u16 {
        self.bits
    }

    /// The identifier that holds the given number.
    pub open spec fn spec_from_bits(bits: u16) -> RegionId {
        RegionId { bits }
    }

    /// The identifier of spans that are in no region.
    pub fn none() -> (r: RegionId)
        ensures
            r.spec_bits() == RegionId::NONE_BITS,
    {
        RegionId { bits: 0 }
    }

    /// The identifier that is the border flag alone.
    pub fn border_region() -> (r: RegionId)
        ensures
            r.spec_bits() == RegionId::BORDER_REGION_BITS,
    {
        RegionId { bits: 0x8000 }
    }

    /// The largest identifier.
    pub fn greatest() -> (r: RegionId)
        ensures
            r.spec_bits() == RegionId::MAX_BITS,
    {
        RegionId { bits: 0xffff }
    }

    /// The identifier that holds the given number, whatever its bits.
    pub fn from_bits_retain(bits: u16) -> (r: RegionId)
        ensures
            r == RegionId::spec_from_bits(bits),
            r.spec_bits() == bits,
    {
        RegionId { bits }
    }

    /// The number that the identifier holds.
    pub fn bits(&self) -> (b: u16)
        ensures
            b == self.spec_bits(),
    {
        self.bits
    }

    /// Every bit that is set in `other` is set in this identifier too.
    pub open spec fn spec_contains(&self, other: RegionId) -> bool {
        self.spec_bits() & other.spec_bits() == other.spec_bits()
    }

    /// Tests whether every bit that is set in `other` is set in this identifier too.
    pub fn contains(&self, other: RegionId) -> (r: bool)
        ensures
            r == self.spec_contains(other),
    {
        self.bits & other.bits == other.bits
    }

    /// Adds a number to the identifier in place. The sum must fit in sixteen bits.
    pub fn add_assign(&mut self, other: u16)
        requires
            old(self).spec_bits() + other <= u16::MAX,
        ensures
            final(self).spec_bits() == old(self).spec_bits() + other,
    {
        self.bits = self.bits + other;
    }
}

impl core::ops::Add<u16> for RegionId {
    type Output = RegionId;

    fn add(self, other: u16) -> (r: RegionId) {
        RegionId::from(self.bits() + other)
    }
}

impl vstd::std_specs::ops::AddSpecImpl<u16> for RegionId {
    open spec fn obeys_add_spec() -> bool {
        true
    }

    open spec fn add_req(self, other: u16) -> bool {
        self.spec_bits() + other <= u16::MAX
    }

    open spec fn add_spec(self, other: u16) -> RegionId {
        RegionId::spec_from_bits((self.spec_bits() + other) as u16)
    }
}

impl Default for RegionId {
    fn default() -> (r: RegionId)
        ensures
            r.spec_bits() == RegionId::NONE_BITS,
    {
        RegionId::none()
    }
}

impl From<u16> for RegionId {
    fn from(value: u16) -> (r: RegionId) {
        RegionId::from_bits_retain(value)
    }
}

impl vstd::std_specs::convert::FromSpecImpl<u16> for RegionId {
    open spec fn obeys_from_spec() -> bool {
        true
    }

    open spec fn from_spec(value: u16) -> RegionId {
        RegionId::spec_from_bits(value)
    }
}

} // verus!
