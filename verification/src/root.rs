//! The root allocator: one memory object of the device per block.

use relevant::Relevant;
use vstd::multiset::*;
use vstd::prelude::*;

use crate::block::{Block, RawBlock, Region};
use crate::error::MemoryError;
use crate::exchange::{Exchange, ExchangeView};
use crate::extent::{
    extent_size, lemma_total_add, lemma_total_empty, lemma_total_insert, lemma_total_remove,
    pairwise_disjoint, total, Extent,
};
use crate::marker::new_marker;
use crate::memory::{Demand, MemoryHandle, MemoryTypeId, Requirements};

verus! {

/// Hands out whole memory objects of one memory type.
pub struct RootAllocator {
    relevant: Relevant,
    id: MemoryTypeId,
    used: u64,
    live: Ghost<Multiset<Extent>>,
}

/// What a root allocator stands for.
pub ghost struct RootView {
    /// The memory type that it allocates.
    pub id: MemoryTypeId,
    /// The bytes in the blocks that are out.
    pub used: nat,
    /// The blocks that are out.
    pub live: Multiset<Extent>,
}

impl RootView {
    /// Every block that is out spans a whole memory object from its first
    /// byte, and `used` is the sum of their sizes.
    pub open spec fn wf(self) -> bool {
        &&& self.used == total(self.live, extent_size())
        &&& self.used <= u64::MAX
        &&& forall|e: Extent| self.live.count(e) > 0 ==> #[trigger] e.wf() && e.start == 0
    }

    /// Whether a block of `size` bytes can be handed out: the device has
    /// granted a memory object, and the count of used bytes has room.
    pub open spec fn accepts(self, device: ExchangeView, size: u64) -> bool {
        self.used + size <= u64::MAX && device.granted is Some
    }

    /// The block that an accepted request of `size` bytes gets.
    pub open spec fn allocated(self, device: ExchangeView, size: u64) -> Extent {
        Extent { memory: device.granted->0, start: 0, end: size as int }
    }

    /// The allocator once it has handed out `block`.
    pub open spec fn after_alloc(self, block: Extent) -> RootView {
        RootView { used: self.used + block.size(), live: self.live.insert(block), ..self }
    }

    /// The allocator once `block` has come back.
    pub open spec fn after_free(self, block: Extent) -> RootView {
        RootView {
            used: (self.used - block.size()) as nat,
            live: self.live.remove(block),
            ..self
        }
    }

    /// Whether blocks with bytes in them are out.
    pub open spec fn is_used(self) -> bool {
        self.used != 0
    }

    /// Handing out a block keeps the allocator well formed.
    pub proof fn lemma_after_alloc(self, block: Extent)
        requires
            self.wf(),
            block.wf(),
            block.start == 0,
            self.used + block.size() <= u64::MAX,
        ensures
            self.after_alloc(block).wf(),
    {
        broadcast use group_multiset_axioms;

        lemma_total_insert(self.live, extent_size(), block);
    }

    /// Taking back a block that is out keeps the allocator well formed.
    pub proof fn lemma_after_free(self, block: Extent)
        requires
            self.wf(),
            self.live.count(block) > 0,
        ensures
            self.after_free(block).wf(),
            block.size() <= self.used,
            block.wf(),
            block.start == 0,
    {
        broadcast use group_multiset_axioms;

        lemma_total_remove(self.live, extent_size(), block);
        assert(block.wf());
    }

    /// A block that is handed out and taken back leaves the allocator as it
    /// was before.
    pub proof fn lemma_round_trip(self, block: Extent)
        requires
            self.wf(),
        ensures
            self.after_alloc(block).after_free(block) == self,
            self.after_alloc(block).after_free(block).is_used() == self.is_used(),
    {
        broadcast use group_multiset_axioms;

        assert(self.after_alloc(block).after_free(block).live =~= self.live);
    }

    /// Whether no block that is out lies in the memory object `memory`.
    pub open spec fn fresh(self, memory: MemoryHandle) -> bool {
        forall|e: Extent| #[trigger] self.live.count(e) > 0 ==> e.memory != memory
    }

    /// The blocks that are out share no byte, as long as the device grants
    /// no memory object in which a block lies that is out.
    pub proof fn lemma_blocks_apart(self, device: ExchangeView, size: u64)
        requires
            self.wf(),
            pairwise_disjoint(self.live),
            self.accepts(device, size),
            self.fresh(device.granted->0),
        ensures
            pairwise_disjoint(self.after_alloc(self.allocated(device, size)).live),
    {
        crate::extent::lemma_disjoint_insert(self.live, self.allocated(device, size));
    }

    /// The blocks that are out still share no byte after one of them has
    /// come back.
    pub proof fn lemma_blocks_stay_apart(self, block: Extent)
        requires
            pairwise_disjoint(self.live),
        ensures
            pairwise_disjoint(self.after_free(block).live),
    {
        broadcast use group_multiset_axioms;

        crate::extent::lemma_disjoint_part(self.after_free(block).live, self.live);
    }

    /// The allocator once all of `blocks` have come back.
    pub open spec fn after_free_all(self, blocks: Multiset<Extent>) -> RootView {
        RootView {
            used: (self.used - total(blocks, extent_size())) as nat,
            live: self.live.sub(blocks),
            ..self
        }
    }

    /// Taking back blocks one after the other comes to taking them back all
    /// at once.
    pub proof fn lemma_after_free_all(self, blocks: Multiset<Extent>, block: Extent)
        requires
            self.wf(),
            blocks.insert(block).subset_of(self.live),
        ensures
            self.after_free_all(blocks).after_free(block) == self.after_free_all(
                blocks.insert(block),
            ),
            self.after_free_all(blocks).live.count(block) > 0,
            total(blocks.insert(block), extent_size()) <= self.used,
    {
        broadcast use group_multiset_axioms;

        lemma_total_insert(blocks, extent_size(), block);
        let all = blocks.insert(block);
        assert(self.live =~= all.add(self.live.sub(all)));
        lemma_total_add(all, self.live.sub(all), extent_size());
        assert(self.live.count(block) >= all.count(block));
        assert(self.after_free_all(blocks).live.remove(block) =~= self.live.sub(all));
    }

    /// Blocks that are out weigh no more than all that are out.
    pub proof fn lemma_part_fits(self, blocks: Multiset<Extent>)
        requires
            self.wf(),
            blocks.subset_of(self.live),
        ensures
            total(blocks, extent_size()) <= self.used,
            self.after_free_all(blocks).wf(),
    {
        broadcast use group_multiset_axioms;

        lemma_total_add(blocks, self.live.sub(blocks), extent_size());
        assert(self.live =~= blocks.add(self.live.sub(blocks)));
    }

    /// Taking back two lots of blocks one after the other comes to taking
    /// them back all at once.
    pub proof fn lemma_after_free_both(self, first: Multiset<Extent>, second: Multiset<Extent>)
        requires
            self.wf(),
            first.add(second).subset_of(self.live),
        ensures
            self.after_free_all(first).after_free_all(second) == self.after_free_all(
                first.add(second),
            ),
    {
        broadcast use group_multiset_axioms;

        lemma_total_add(first, second, extent_size());
        self.lemma_part_fits(first.add(second));
        assert(self.live.sub(first).sub(second) =~= self.live.sub(first.add(second)));
    }

    /// A well-formed allocator is in use exactly when a block with bytes in
    /// it is out.
    pub proof fn lemma_is_used(self)
        requires
            self.wf(),
        ensures
            self.is_used() <==> exists|e: Extent| self.live.count(e) > 0 && e.size() > 0,
    {
        broadcast use group_multiset_axioms;

        if exists|e: Extent| self.live.count(e) > 0 && e.size() > 0 {
            let e = choose|e: Extent| self.live.count(e) > 0 && e.size() > 0;
            lemma_total_remove(self.live, extent_size(), e);
        } else {
            lemma_all_empty(self.live);
        }
    }
}

/// A multiset of empty ranges has no bytes.
proof fn lemma_all_empty(m: Multiset<Extent>)
    requires
        forall|e: Extent| m.count(e) > 0 ==> e.size() == 0,
    ensures
        total(m, extent_size()) == 0,
    decreases m.len(),
{
    broadcast use group_multiset_axioms;

    if m.len() != 0 {
        let x = m.choose();
        axiom_choose_count(m);
        lemma_total_remove(m, extent_size(), x);
        crate::extent::lemma_remove_len(m, x);
        lemma_all_empty(m.remove(x));
    }
}

impl View for RootAllocator {
    type V = RootView;

    closed spec fn view(&self) -> RootView {
        RootView { id: self.id, used: self.used as nat, live: self.live@ }
    }
}

impl RootAllocator {
    /// The invariant of the allocator.
    pub open spec fn wf(&self) -> bool {
        self@.wf()
    }

    /// An allocator for memory type `id` with no block out.
    pub fn new(id: MemoryTypeId) -> (root: RootAllocator)
        ensures
            root.wf(),
            root@ == (RootView { id, used: 0, live: Multiset::empty() }),
    {
        proof {
            lemma_total_empty(extent_size());
            broadcast use group_multiset_axioms;

        }
        RootAllocator { relevant: new_marker(), id, used: 0, live: Ghost(Multiset::empty()) }
    }

    /// The memory type that this allocator allocates.
    pub fn memory_type(&self) -> (id: MemoryTypeId)
        ensures
            id == self@.id,
    {
        self.id
    }

    /// The bytes in the blocks that are out.
    pub fn used(&self) -> (used: u64)
        ensures
            used == self@.used,
    {
        self.used
    }

    /// The memory object that the device must grant before `allocate` can serve
    /// `reqs`; `None` where the count of used bytes has no room for it.
    pub fn demand(&self, reqs: Requirements) -> (demand: Option<Demand>)
        ensures
            demand == (if self@.used + reqs.size <= u64::MAX {
                Some(Demand { memory_type: self@.id, size: reqs.size })
            } else {
                None
            }),
    {
        if reqs.size <= u64::MAX - self.used {
            Some(Demand { memory_type: self.id, size: reqs.size })
        } else {
            None
        }
    }

    /// Hands out the granted memory object as one block of `reqs.size` bytes.
    ///
    /// Fails with `OutOfMemory`, changing nothing, where the device has
    /// granted no memory object or the count of used bytes would overflow.
    pub fn allocate(&mut self, device: &mut Exchange, request: (), reqs: Requirements) -> (result:
        Result<RawBlock, MemoryError>)
        requires
            old(self).wf(),
        ensures
            final(self).wf(),
            match result {
                Ok(block) => {
                    &&& old(self)@.accepts(old(device)@, reqs.size)
                    &&& block@ == old(self)@.allocated(old(device)@, reqs.size)
                    &&& final(self)@ == old(self)@.after_alloc(block@)
                    &&& final(device)@ == old(device)@.after_claim()
                },
                Err(error) => {
                    &&& !old(self)@.accepts(old(device)@, reqs.size)
                    &&& error == MemoryError::OutOfMemory
                    &&& final(self)@ == old(self)@
                    &&& final(device)@ == old(device)@
                },
            },
    {
        if reqs.size > u64::MAX - self.used {
            return Err(MemoryError::OutOfMemory);
        }
        if device.pending().is_none() {
            return Err(MemoryError::OutOfMemory);
        }
        let memory = device.claim().unwrap();
        let block = RawBlock::new(memory, 0..reqs.size);
        proof {
            self@.lemma_after_alloc(block@);
            self.live@ = self.live@.insert(block@);
        }
        self.used += reqs.size;
        Ok(block)
    }

    /// Takes back a block and gives its memory object up to the device.
    pub fn free(&mut self, device: &mut Exchange, block: RawBlock)
        requires
            old(self).wf(),
            old(self)@.live.count(block@) > 0,
        ensures
            final(self).wf(),
            final(self)@ == old(self)@.after_free(block@),
            final(device)@ == old(device)@.after_release(block@.memory),
    {
        proof {
            self@.lemma_after_free(block@);
        }
        let size = block.size();
        device.release(block.memory());
        block.dispose();
        proof {
            self.live@ = self.live@.remove(block@);
        }
        self.used -= size;
    }

    /// Tells whether blocks with bytes in them are out.
    pub fn is_used(&self) -> (used: bool)
        ensures
            used == self@.is_used(),
    {
        self.used != 0
    }

    /// Ends the allocator. Where blocks with bytes in them are out, it comes
    /// back unchanged.
    pub fn dispose(self, device: &mut Exchange) -> (result: Result<(), RootAllocator>)
        requires
            self.wf(),
        ensures
            final(device)@ == old(device)@,
            match result {
                Ok(()) => {
                    &&& !self@.is_used()
                    &&& forall|block: Extent| self@.live.count(block) > 0 ==> block.size() == 0
                },
                Err(root) => {
                    &&& self@.is_used()
                    &&& root == self
                    &&& exists|block: Extent| self@.live.count(block) > 0 && block.size() > 0
                },
            },
    {
        proof {
            self@.lemma_is_used();
        }
        if self.is_used() {
            Err(self)
        } else {
            let RootAllocator { relevant, id: _, used: _, live: _ } = self;
            relevant.dispose();
            Ok(())
        }
    }
}

} // verus!
