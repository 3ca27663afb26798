//! Blocks: byte ranges of memory objects, handed out by the allocators.

use core::ops::Range;
use relevant::Relevant;
use vstd::prelude::*;

use crate::extent::Extent;
use crate::marker::new_marker;
use crate::memory::MemoryHandle;

verus! {

/// A byte range of one memory object.
pub trait Region {
    /// The memory object and the range.
    spec fn extent(&self) -> Extent;

    /// The memory object that the range lies in.
    fn memory(&self) -> (memory: MemoryHandle)
        ensures
            memory == self.extent().memory,
    ;

    /// The range within the memory object.
    fn range(&self) -> (range: Range<u64>)
        ensures
            range.start == self.extent().start,
            range.end == self.extent().end,
            range.start <= range.end,
    ;
}

/// A region that an allocator has handed out.
pub trait Block: Region {
    /// The size of the block in bytes.
    fn size(&self) -> (size: u64)
        ensures
            size == self.extent().size(),
    {
        let range = self.range();
        range.end - range.start
    }

    /// Tells whether `other` lies in the same memory object and inside the
    /// range of this block.
    fn contains<T: Region>(&self, other: &T) -> (inside: bool)
        ensures
            inside == self.extent().contains(other.extent()),
    {
        let outer = self.range();
        let inner = other.range();
        self.memory() == other.memory() && outer.start <= inner.start && outer.end >= inner.end
    }
}

/// A block with its marker.
///
/// A `RawBlock` must not be dropped: it goes back to the allocator that it
/// came from, or is disposed of by the one who knows that its memory is no
/// longer in use.
#[derive(Debug)]
pub struct RawBlock {
    relevant: Relevant,
    range: Range<u64>,
    memory: MemoryHandle,
}

impl View for RawBlock {
    type V = Extent;

    closed spec fn view(&self) -> Extent {
        Extent { memory: self.memory, start: self.range.start as int, end: self.range.end as int }
    }
}

impl RawBlock {
    #[verifier::type_invariant]
    spec fn ordered(self) -> bool {
        self.range.start <= self.range.end
    }

    /// The block over `range` of `memory`.
    pub(crate) fn new(memory: MemoryHandle, range: Range<u64>) -> (block: RawBlock)
        requires
            range.start <= range.end,
        ensures
            block@ == (Extent { memory, start: range.start as int, end: range.end as int }),
    {
        RawBlock { relevant: new_marker(), range, memory }
    }

    /// Disposes of the block without returning it to an allocator.
    ///
    /// The caller sees to it that the memory of the block is not used again.
    pub fn dispose(self) {
        let RawBlock { relevant, range: _, memory: _ } = self;
        relevant.dispose();
    }
}

impl Region for RawBlock {
    open spec fn extent(&self) -> Extent {
        self@
    }

    fn memory(&self) -> (memory: MemoryHandle) {
        self.memory
    }

    fn range(&self) -> (range: Range<u64>) {
        proof {
            use_type_invariant(self);
        }
        self.range.start..self.range.end
    }
}

impl Block for RawBlock {}

} // verus!
