//! Resources bound to blocks.

use core::ops::Range;
use vstd::prelude::*;

use crate::block::{Block, Region};
use crate::extent::Extent;
use crate::memory::MemoryHandle;

verus! {

/// A resource of the device together with the block that it is bound to.
///
/// The item stands for the range of memory of its block.
#[derive(Debug)]
pub struct Item<I, T> {
    raw: I,
    block: T,
}

impl<I, T> Item<I, T> {
    /// The resource of the item.
    pub closed spec fn spec_raw(&self) -> I {
        self.raw
    }

    /// The block of the item.
    pub closed spec fn spec_block(&self) -> T {
        self.block
    }

    /// Puts a resource and the block that it is bound to together.
    pub fn new(raw: I, block: T) -> (item: Item<I, T>)
        ensures
            item.spec_raw() == raw,
            item.spec_block() == block,
    {
        Item { raw, block }
    }

    /// The resource of the item.
    pub fn raw(&self) -> (raw: &I)
        ensures
            *raw == self.spec_raw(),
    {
        &self.raw
    }

    /// The block of the item.
    pub fn block(&self) -> (block: &T)
        ensures
            *block == self.spec_block(),
    {
        &self.block
    }

    /// The resource of the item, borrowed.
    pub fn borrow(&self) -> (raw: &I)
        ensures
            *raw == self.spec_raw(),
    {
        &self.raw
    }

    /// The resource of the item, borrowed for changing it. The block stays
    /// as it is.
    pub fn borrow_mut(&mut self) -> (raw: &mut I)
        ensures
            *raw == old(self).spec_raw(),
            final(self).spec_raw() == *final(raw),
            final(self).spec_block() == old(self).spec_block(),
    {
        &mut self.raw
    }

    /// Takes the item apart, to destroy the resource and free the block.
    pub fn into_parts(self) -> (parts: (I, T))
        ensures
            parts.0 == self.spec_raw(),
            parts.1 == self.spec_block(),
    {
        (self.raw, self.block)
    }
}

impl<I, T: Region> Region for Item<I, T> {
    closed spec fn extent(&self) -> Extent {
        self.block.extent()
    }

    fn memory(&self) -> (memory: MemoryHandle) {
        self.block.memory()
    }

    fn range(&self) -> (range: Range<u64>) {
        self.block.range()
    }
}

impl<I, T: Block> Block for Item<I, T> {}

impl<I, T: Region> Item<I, T> {
    /// The item stands for the range of its block.
    pub proof fn lemma_extent(&self)
        ensures
            self.extent() == self.spec_block().extent(),
    {
    }
}

} // verus!
