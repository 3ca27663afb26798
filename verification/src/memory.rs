//! Plain descriptions of device memory: handles, memory types, properties
//! and the requirements of a resource.

use vstd::prelude::*;

verus! {

/// Names one memory object of the device.
///
/// The caller picks the number when the device hands the object out, and
/// keeps the object under it until the allocators release it again.
#[derive(Debug, Clone, Copy, PartialEq, Eq, Hash, Structural)]
pub struct MemoryHandle(pub u64);

/// Index of a memory type of the device.
#[derive(Debug, Clone, Copy, PartialEq, Eq, Hash, Structural)]
pub struct MemoryTypeId(pub usize);

/// What a resource asks of the memory it is bound to.
#[derive(Debug, Clone, Copy, PartialEq, Eq, Structural)]
pub struct Requirements {
    /// Size in bytes.
    pub size: u64,
    /// Alignment in bytes of the start of the block.
    pub alignment: u64,
    /// Bit `k` is set where memory type `k` is acceptable.
    pub type_mask: u64,
}

/// A device allocation that an allocator needs before it can serve a request.
#[derive(Debug, Clone, Copy, PartialEq, Eq, Structural)]
pub struct Demand {
    /// The memory type to allocate from.
    pub memory_type: MemoryTypeId,
    /// The size of the memory object in bytes.
    pub size: u64,
}

/// A set of memory properties, one bit each.
#[derive(Debug, Clone, Copy, PartialEq, Eq, Hash, Structural)]
pub struct Properties {
    bits: u16,
}

/// A memory type of the device: its properties and the heap behind it.
#[derive(Debug, Clone, Copy, PartialEq, Eq, Structural)]
pub struct MemoryType {
    /// Properties of the memory of this type.
    pub properties: Properties,
    /// Index of the heap that memory of this type is taken from.
    pub heap_index: usize,
}

/// Whether `type_mask` accepts memory type `index`: bit `index` is set.
pub open spec fn mask_allows(type_mask: u64, index: int) -> bool {
    0 <= index < 64 && (type_mask >> (index as u64)) & 1 == 1
}

/// Tells whether `type_mask` accepts memory type `index`.
pub fn type_allowed(type_mask: u64, index: usize) -> (allowed: bool)
    ensures
        allowed == mask_allows(type_mask, index as int),
{
    index < 64 && (type_mask >> (index as u64)) & 1 == 1
}

impl Properties {
    /// The bits of the set.
    pub closed spec fn spec_bits(self) -> u16 {
        self.bits
    }

    /// Whether every property of `other` is in `self`.
    pub open spec fn spec_contains(self, other: Properties) -> bool {
        self.spec_bits() & other.spec_bits() == other.spec_bits()
    }

    /// The set with exactly the given bits.
    pub fn from_bits(bits: u16) -> (set: Properties)
        ensures
            set.spec_bits() == bits,
    {
        Properties { bits }
    }

    /// The bits of the set.
    #[verifier::when_used_as_spec(spec_bits)]
    pub fn bits(self) -> (bits: u16)
        ensures
            bits == self.spec_bits(),
    {
        self.bits
    }

    /// Tells whether every property of `other` is in `self`.
    #[verifier::when_used_as_spec(spec_contains)]
    pub fn contains(self, other: Properties) -> (all: bool)
        ensures
            all == self.spec_contains(other),
    {
        self.bits & other.bits == other.bits
    }
}

} // verus!
