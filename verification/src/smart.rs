//! The smart allocator: all the memory types of a device, with a choice of
//! the memory type for each request and a count of what is used of each
//! heap.

use core::ops::Range;
use vstd::multiset::*;
use vstd::prelude::*;

use crate::align::is_power_of_two;
use crate::block::{Block, Region};
use crate::combined::{tagged_size, CombinedAllocator, CombinedBlock, CombinedView, Tagged, Type};
use crate::error::MemoryError;
use crate::exchange::{Exchange, ExchangeView};
use crate::extent::{
    lemma_total_empty, lemma_total_insert, lemma_total_remove, pairwise_disjoint, total, Extent,
};
use crate::memory::{
    mask_allows, type_allowed, Demand, MemoryHandle, MemoryType, MemoryTypeId, Properties,
    Requirements,
};

verus! {

/// The memory types and the heaps of a device.
#[derive(Debug)]
pub struct MemoryProperties {
    /// The memory types. Each takes its memory from one of the heaps.
    pub memory_types: Vec<MemoryType>,
    /// The sizes of the heaps in bytes.
    pub memory_heaps: Vec<u64>,
}

/// A heap of the device: its size, and the bytes of it that are in blocks
/// that are out.
#[derive(Clone, Copy, Debug)]
pub struct Heap {
    size: u64,
    used: u64,
}

/// What a heap stands for.
pub ghost struct HeapView {
    pub size: nat,
    pub used: nat,
}

impl HeapView {
    /// No more is used than there is.
    pub open spec fn wf(self) -> bool {
        self.used <= self.size <= u64::MAX
    }

    /// The bytes that are not used.
    pub open spec fn available(self) -> nat {
        (self.size - self.used) as nat
    }

    /// The numerator of the used share of the heap. A heap without bytes
    /// counts as full.
    pub open spec fn share_of(self) -> nat {
        if self.size == 0 {
            1
        } else {
            self.used
        }
    }

    /// The denominator of the used share of the heap.
    pub open spec fn share_in(self) -> nat {
        if self.size == 0 {
            1
        } else {
            self.size
        }
    }

    /// Whether a smaller share of this heap is used than of `other`.
    pub open spec fn less_used(self, other: HeapView) -> bool {
        self.share_of() * other.share_in() < other.share_of() * self.share_in()
    }

    /// The heap once `size` more bytes are used.
    pub open spec fn after_alloc(self, size: nat) -> HeapView {
        HeapView { used: self.used + size, ..self }
    }

    /// The heap once `size` bytes are no longer used.
    pub open spec fn after_free(self, size: nat) -> HeapView {
        HeapView { used: (self.used - size) as nat, ..self }
    }

    /// Where less is used of a first heap than of a second, and less of the
    /// second than of a third, less is used of the first than of the third.
    pub proof fn lemma_less_used_transitive(self, second: HeapView, third: HeapView)
        requires
            self.less_used(second),
            second.less_used(third),
        ensures
            self.less_used(third),
    {
        let (a, x) = (self.share_of() as int, self.share_in() as int);
        let (b, y) = (second.share_of() as int, second.share_in() as int);
        let (c, z) = (third.share_of() as int, third.share_in() as int);
        assert(a * z < c * x) by (nonlinear_arith)
            requires
                a * y < b * x,
                b * z < c * y,
                x > 0,
                y > 0,
                z > 0,
                a >= 0,
                b >= 0,
                c >= 0,
        {
            assert((a * y) * z < (b * x) * z);
            assert((b * z) * x < (c * y) * x);
            assert((a * y) * z == (a * z) * y);
            assert((b * x) * z == (b * z) * x);
            assert((c * y) * x == (c * x) * y);
            assert((a * z) * y < (c * x) * y);
        }
    }

    /// Where less is used of a first heap than of a second, then of any third
    /// heap more is used than of the first or less than of the second.
    pub proof fn lemma_less_used_between(self, second: HeapView, third: HeapView)
        requires
            self.less_used(second),
        ensures
            self.less_used(third) || third.less_used(second),
    {
        let (a, x) = (self.share_of() as int, self.share_in() as int);
        let (b, y) = (second.share_of() as int, second.share_in() as int);
        let (c, z) = (third.share_of() as int, third.share_in() as int);
        assert(a * z < c * x || c * y < b * z) by (nonlinear_arith)
            requires
                a * y < b * x,
                x > 0,
                y > 0,
                z > 0,
                a >= 0,
                b >= 0,
                c >= 0,
        {
            if a * z >= c * x && c * y >= b * z {
                assert((a * z) * y >= (c * x) * y);
                assert((c * y) * x >= (b * z) * x);
                assert((a * z) * y == (a * y) * z);
                assert((c * x) * y == (c * y) * x);
                assert((b * z) * x == (b * x) * z);
                assert((a * y) * z >= (b * x) * z);
            }
        }
    }

    /// After a block is taken from the less used of two heaps, the share of
    /// it that is used exceeds the share of the other by no more than the
    /// share that the block has of its heap.
    pub proof fn lemma_balance(self, other: HeapView, size: nat)
        requires
            self.wf(),
            other.wf(),
            self.size > 0,
            other.size > 0,
            !other.less_used(self),
        ensures
            self.after_alloc(size).used * other.size <= other.used * self.size + size * other.size,
    {
        assert((self.used + size) * other.size == self.used * other.size + size * other.size)
            by (nonlinear_arith);
    }
}

impl View for Heap {
    type V = HeapView;

    closed spec fn view(&self) -> HeapView {
        HeapView { size: self.size as nat, used: self.used as nat }
    }
}

impl Heap {
    /// The invariant of the heap.
    pub open spec fn wf(&self) -> bool {
        self@.wf()
    }

    /// A heap of `size` bytes of which nothing is used.
    pub fn new(size: u64) -> (heap: Heap)
        ensures
            heap.wf(),
            heap@ == (HeapView { size: size as nat, used: 0 }),
    {
        Heap { size, used: 0 }
    }

    /// The size of the heap in bytes.
    pub fn size(&self) -> (bytes: u64)
        ensures
            bytes == self@.size,
    {
        self.size
    }

    /// The bytes of the heap in blocks that are out.
    pub fn used(&self) -> (bytes: u64)
        ensures
            bytes == self@.used,
    {
        self.used
    }

    /// The bytes that are not used.
    pub fn available(&self) -> (bytes: u64)
        requires
            self.wf(),
        ensures
            bytes == self@.available(),
    {
        self.size - self.used
    }

    /// Counts `size` more bytes as used.
    pub fn allocate(&mut self, size: u64)
        requires
            old(self).wf(),
            size <= old(self)@.available(),
        ensures
            final(self).wf(),
            final(self)@ == old(self)@.after_alloc(size as nat),
    {
        self.used += size;
    }

    /// Counts `size` bytes as no longer used.
    pub fn free(&mut self, size: u64)
        requires
            old(self).wf(),
            size <= old(self)@.used,
        ensures
            final(self).wf(),
            final(self)@ == old(self)@.after_free(size as nat),
    {
        self.used -= size;
    }

    /// Tells whether a smaller share of this heap is used than of `other`.
    pub fn less_used(&self, other: &Heap) -> (less: bool)
        ensures
            less == self@.less_used(other@),
    {
        let (of, within): (u128, u128) = if self.size == 0 {
            (1, 1)
        } else {
            (self.used as u128, self.size as u128)
        };
        let (other_of, other_within): (u128, u128) = if other.size == 0 {
            (1, 1)
        } else {
            (other.used as u128, other.size as u128)
        };
        assert(of * other_within <= 0xffff_ffff_ffff_ffff * 0xffff_ffff_ffff_ffff
            && other_of * within <= 0xffff_ffff_ffff_ffff * 0xffff_ffff_ffff_ffff)
            by (nonlinear_arith)
            requires
                of <= 0xffff_ffff_ffff_ffff,
                within <= 0xffff_ffff_ffff_ffff,
                other_of <= 0xffff_ffff_ffff_ffff,
                other_within <= 0xffff_ffff_ffff_ffff,
        ;
        of * other_within < other_of * within
    }
}

/// A block of the smart allocator: a block of the allocator of one memory
/// type, and the index of that memory type.
#[derive(Debug)]
pub struct GenericSmartBlock<B>(pub(crate) B, pub(crate) usize);

/// A block of the smart allocator over combined allocators.
pub type SmartBlock = GenericSmartBlock<CombinedBlock>;

impl<B> GenericSmartBlock<B> {
    /// The index of the memory type that the block came from.
    pub closed spec fn index(&self) -> int {
        self.1 as int
    }

    /// The block of the allocator of that memory type.
    pub closed spec fn inner(&self) -> B {
        self.0
    }

    /// Puts a block and the index of its memory type together.
    pub(crate) fn new(block: B, index: usize) -> (tagged: GenericSmartBlock<B>)
        ensures
            tagged.inner() == block,
            tagged.index() == index,
    {
        GenericSmartBlock(block, index)
    }

    /// Takes a block and the index of its memory type apart.
    pub(crate) fn into_parts(self) -> (parts: (B, usize))
        ensures
            parts.0 == self.inner(),
            parts.1 == self.index(),
    {
        (self.0, self.1)
    }

    /// The index of the memory type that the block came from.
    pub fn memory_type(&self) -> (id: MemoryTypeId)
        ensures
            id.0 == self.index(),
    {
        MemoryTypeId(self.1)
    }
}

impl<B: Region> Region for GenericSmartBlock<B> {
    closed spec fn extent(&self) -> Extent {
        self.0.extent()
    }

    fn memory(&self) -> (memory: MemoryHandle) {
        self.0.memory()
    }

    fn range(&self) -> (range: Range<u64>) {
        self.0.range()
    }
}

impl<B: Block> Block for GenericSmartBlock<B> {}

impl<B: Region> GenericSmartBlock<B> {
    /// The block stands for the range of the block inside it.
    pub proof fn lemma_extent(&self)
        ensures
            self.extent() == self.inner().extent(),
    {
    }
}

/// What a block of the smart allocator stands for.
pub ghost struct SmartTagged {
    pub block: Tagged,
    pub index: int,
}

/// What a block of the smart allocator stands for.
pub open spec fn smart_tagged(block: &SmartBlock) -> SmartTagged {
    SmartTagged { block: block.inner().tagged(), index: block.index() }
}

/// What a smart allocator stands for.
pub ghost struct SmartView {
    /// The memory types.
    pub types: Seq<MemoryType>,
    /// The allocators, one for each memory type.
    pub allocators: Seq<CombinedView>,
    /// The heaps.
    pub heaps: Seq<HeapView>,
    /// The blocks that are out.
    pub live: Multiset<SmartTagged>,
}

/// A smart allocator with the exchange with the device.
pub ghost struct SmartStep {
    pub smart: SmartView,
    pub device: ExchangeView,
}

impl SmartView {
    /// How often `block` is out, going by the allocator of its memory type.
    pub open spec fn count(self, block: SmartTagged) -> nat {
        if 0 <= block.index < self.allocators.len() {
            self.allocators[block.index].live.count(block.block)
        } else {
            0
        }
    }

    /// The heap of memory type `index`.
    pub open spec fn heap_of(self, index: int) -> HeapView {
        self.heaps[self.types[index].heap_index as int]
    }

    /// The bytes of heap `heap` in the blocks that the allocators of the
    /// first `count` memory types have out.
    pub open spec fn load(self, heap: int, count: int) -> nat
        decreases count,
    {
        if count <= 0 {
            0
        } else {
            self.load(heap, count - 1) + (if self.types[count - 1].heap_index == heap {
                total(self.allocators[count - 1].live, tagged_size())
            } else {
                0
            })
        }
    }

    /// There is one allocator for each memory type, well formed and for that
    /// type. Each memory type has a heap. Of no heap more is used than there
    /// is, and what is used are the bytes of the blocks that are out of the
    /// allocators of its memory types. The blocks that are out are those
    /// that the allocators have out.
    pub open spec fn wf(self) -> bool {
        &&& self.types.len() == self.allocators.len()
        &&& self.types.len() <= usize::MAX
        &&& forall|index: int|
            0 <= index < self.allocators.len() ==> {
                &&& (#[trigger] self.allocators[index]).wf()
                &&& self.allocators[index].memory_type() == MemoryTypeId(index as usize)
            }
        &&& forall|index: int|
            0 <= index < self.types.len() ==> 0 <= (#[trigger] self.types[index]).heap_index
                < self.heaps.len()
        &&& forall|heap: int|
            0 <= heap < self.heaps.len() ==> (#[trigger] self.heaps[heap]).wf()
                && self.heaps[heap].used == self.load(heap, self.types.len() as int)
        &&& forall|block: SmartTagged| #[trigger] self.live.count(block) == self.count(block)
    }

    /// Whether `block` is out.
    pub open spec fn owns(self, block: SmartTagged) -> bool {
        self.live.count(block) > 0
    }

    /// Whether blocks of the allocator are out.
    pub open spec fn is_used(self) -> bool {
        exists|index: int|
            0 <= index < self.allocators.len() && (#[trigger] self.allocators[index]).is_used()
    }

    /// Whether memory type `index` is acceptable: `reqs` accepts it, and it
    /// has all of `properties`.
    pub open spec fn compatible(self, index: int, properties: Properties, reqs: Requirements) -> bool {
        &&& 0 <= index < self.types.len()
        &&& mask_allows(reqs.type_mask, index)
        &&& self.types[index].properties.spec_contains(properties)
    }

    /// Whether the heap of memory type `index` has room: as many bytes are
    /// not used as the size and the alignment of `reqs` together.
    pub open spec fn roomy(self, index: int, reqs: Requirements) -> bool {
        self.heap_of(index).available() >= reqs.size + reqs.alignment
    }

    /// Whether memory type `index` is acceptable and its heap has room.
    pub open spec fn candidate(self, index: int, properties: Properties, reqs: Requirements) -> bool {
        self.compatible(index, properties, reqs) && self.roomy(index, reqs)
    }

    /// Whether memory type `index` is the choice among the first `count`: it
    /// is a candidate, of no candidate's heap less is used, and of each
    /// candidate before it more is used.
    pub open spec fn best_among(
        self,
        index: int,
        count: int,
        properties: Properties,
        reqs: Requirements,
    ) -> bool {
        &&& 0 <= index < count
        &&& self.candidate(index, properties, reqs)
        &&& forall|other: int|
            0 <= other < count && #[trigger] self.candidate(other, properties, reqs)
                ==> !self.heap_of(other).less_used(self.heap_of(index))
        &&& forall|other: int|
            0 <= other < index && #[trigger] self.candidate(other, properties, reqs)
                ==> self.heap_of(index).less_used(self.heap_of(other))
    }

    /// Whether memory type `index` is the one that serves the request: the
    /// candidate of whose heap the smallest share is used, and among several
    /// such the first.
    pub open spec fn is_choice(self, index: int, properties: Properties, reqs: Requirements) -> bool {
        self.best_among(index, self.types.len() as int, properties, reqs)
    }

    /// The memory type that serves the request.
    pub open spec fn choice(self, properties: Properties, reqs: Requirements) -> int {
        choose|index: int| self.is_choice(index, properties, reqs)
    }

    /// No two memory types are the choice.
    pub proof fn lemma_choice_unique(
        self,
        index: int,
        properties: Properties,
        reqs: Requirements,
    )
        requires
            self.is_choice(index, properties, reqs),
        ensures
            self.choice(properties, reqs) == index,
    {
        let other = self.choice(properties, reqs);
        assert(self.is_choice(other, properties, reqs));
        if other < index {
            assert(self.candidate(other, properties, reqs));
        } else if index < other {
            assert(self.candidate(index, properties, reqs));
        }
    }

    /// The error with which the choice of a memory type fails, if it does:
    /// `NoCompatibleMemoryType` where no memory type is acceptable, and
    /// `OutOfMemory` where the heap of none of the acceptable ones has room.
    pub open spec fn select_error(self, properties: Properties, reqs: Requirements) -> Option<
        MemoryError,
    > {
        if !(exists|index: int| self.compatible(index, properties, reqs)) {
            Some(MemoryError::NoCompatibleMemoryType)
        } else if !(exists|index: int| self.candidate(index, properties, reqs)) {
            Some(MemoryError::OutOfMemory)
        } else {
            None
        }
    }

    /// Whether the heap of the chosen memory type has room for the block that
    /// the allocator of that type hands out.
    pub open spec fn holds(self, request: (Type, Properties), reqs: Requirements) -> bool {
        let index = self.choice(request.1, reqs);
        self.allocators[index].granted_size(request.0, reqs) <= self.heap_of(index).available()
    }

    /// The memory object that the device must grant before the allocator can
    /// serve a request, if it needs one.
    pub open spec fn demand(self, request: (Type, Properties), reqs: Requirements) -> Option<
        Demand,
    > {
        if self.select_error(request.1, reqs) is None && self.holds(request, reqs) {
            self.allocators[self.choice(request.1, reqs)].demand(request.0, reqs)
        } else {
            None
        }
    }

    /// The error with which a request fails, if it does.
    pub open spec fn alloc_error(
        self,
        device: ExchangeView,
        request: (Type, Properties),
        reqs: Requirements,
    ) -> Option<MemoryError> {
        if self.select_error(request.1, reqs) is Some {
            self.select_error(request.1, reqs)
        } else if !self.holds(request, reqs) {
            Some(MemoryError::OutOfMemory)
        } else {
            self.allocators[self.choice(request.1, reqs)].alloc_error(device, request.0, reqs)
        }
    }

    /// The block that a request that succeeds gets.
    pub open spec fn allocated(
        self,
        device: ExchangeView,
        request: (Type, Properties),
        reqs: Requirements,
    ) -> SmartTagged {
        let index = self.choice(request.1, reqs);
        SmartTagged {
            block: self.allocators[index].allocated(device, request.0, reqs),
            index,
        }
    }

    /// The allocator and the exchange after a request: the allocator of the
    /// chosen memory type serves it, and the bytes of the block count as used
    /// in the heap of that type. A failed request changes nothing.
    pub open spec fn after_alloc(
        self,
        device: ExchangeView,
        request: (Type, Properties),
        reqs: Requirements,
    ) -> SmartStep {
        if self.alloc_error(device, request, reqs) is Some {
            SmartStep { smart: self, device }
        } else {
            let index = self.choice(request.1, reqs);
            let heap = self.types[index].heap_index as int;
            let step = self.allocators[index].after_alloc(device, request.0, reqs);
            let block = self.allocated(device, request, reqs);
            SmartStep {
                smart: SmartView {
                    allocators: self.allocators.update(index, step.combined),
                    heaps: self.heaps.update(
                        heap,
                        self.heaps[heap].after_alloc(block.block.extent.size()),
                    ),
                    live: self.live.insert(block),
                    ..self
                },
                device: step.device,
            }
        }
    }

    /// The allocator and the exchange after `block` has come back: the
    /// allocator of its memory type takes it, and its bytes no longer count
    /// as used in the heap of that type.
    pub open spec fn after_free(self, device: ExchangeView, block: SmartTagged) -> SmartStep {
        let heap = self.types[block.index].heap_index as int;
        let step = self.allocators[block.index].after_free(device, block.block);
        SmartStep {
            smart: SmartView {
                allocators: self.allocators.update(block.index, step.combined),
                heaps: self.heaps.update(
                    heap,
                    self.heaps[heap].after_free(block.block.extent.size()),
                ),
                live: self.live.remove(block),
                ..self
            },
            device: step.device,
        }
    }

    /// The exchange after the allocators of the first `count` memory types
    /// have ended, one after the other.
    pub open spec fn device_after_dispose(self, device: ExchangeView, count: int) -> ExchangeView
        decreases count,
    {
        if count <= 0 {
            device
        } else {
            self.allocators[count - 1].device_after_dispose(
                self.device_after_dispose(device, count - 1),
            )
        }
    }

    /// The load of a heap after the allocator of one memory type has changed.
    pub proof fn lemma_load_update(self, index: int, next: CombinedView, heap: int, count: int)
        requires
            0 <= index < self.allocators.len(),
            0 <= count <= self.allocators.len(),
            self.types.len() == self.allocators.len(),
        ensures
            (SmartView { allocators: self.allocators.update(index, next), ..self }).load(heap, count)
                + (if index < count && self.types[index].heap_index == heap {
                total(self.allocators[index].live, tagged_size())
            } else {
                0
            }) == self.load(heap, count) + (if index < count && self.types[index].heap_index
                == heap {
                total(next.live, tagged_size())
            } else {
                0
            }),
        decreases count,
    {
        if count > 0 {
            self.lemma_load_update(index, next, heap, count - 1);
        }
    }

    /// The load of a heap is no less than what one allocator has out of it.
    pub proof fn lemma_load_covers(self, index: int, count: int)
        requires
            0 <= index < count <= self.allocators.len(),
            self.types.len() == self.allocators.len(),
        ensures
            total(self.allocators[index].live, tagged_size()) <= self.load(
                self.types[index].heap_index as int,
                count,
            ),
        decreases count,
    {
        if index < count - 1 {
            self.lemma_load_covers(index, count - 1);
        }
    }

    /// The load of a heap changes with the heaps not at all.
    pub proof fn lemma_load_heaps(self, heaps: Seq<HeapView>, live: Multiset<SmartTagged>, heap: int, count: int)
        requires
            0 <= count <= self.allocators.len(),
        ensures
            (SmartView { heaps, live, ..self }).load(heap, count) == self.load(heap, count),
        decreases count,
    {
        if count > 0 {
            self.lemma_load_heaps(heaps, live, heap, count - 1);
        }
    }

    /// Whether the memory objects of the allocators lie apart: the blocks
    /// that the root allocator of each has out share no byte, and no memory
    /// object holds blocks of two of them.
    pub open spec fn apart(self) -> bool {
        &&& forall|index: int|
            0 <= index < self.allocators.len() ==> pairwise_disjoint(
                (#[trigger] self.allocators[index]).root.live,
            )
        &&& forall|index: int, other: int, a: Extent, b: Extent|
            #![trigger self.allocators[index].root.live.count(a), self.allocators[other].root.live.count(b)]
            0 <= index < self.allocators.len() && 0 <= other < self.allocators.len() && index
                != other && self.allocators[index].root.live.count(a) > 0
                && self.allocators[other].root.live.count(b) > 0 ==> a.memory != b.memory
    }

    /// Whether no block of any root allocator lies in the memory object
    /// `memory`.
    pub open spec fn fresh(self, memory: MemoryHandle) -> bool {
        forall|index: int|
            0 <= index < self.allocators.len() ==> (#[trigger] self.allocators[index]).root.fresh(
                memory,
            )
    }

    /// The blocks that are out share no byte, as long as the memory objects of
    /// the allocators lie apart.
    pub proof fn lemma_blocks_apart(self, first: SmartTagged, second: SmartTagged)
        requires
            self.wf(),
            self.apart(),
            self.owns(first),
            self.owns(second),
            first != second || self.live.count(first) >= 2,
        ensures
            first.block.extent.disjoint(second.block.extent),
    {
        assert(self.live.count(first) == self.count(first));
        assert(self.live.count(second) == self.count(second));
        let allocator = self.allocators[first.index];
        let other = self.allocators[second.index];
        allocator.lemma_block_in_host(first.block);
        other.lemma_block_in_host(second.block);
        if first.index == second.index {
            allocator.lemma_blocks_apart(first.block, second.block);
        } else {
            assert(allocator.root.live.count(allocator.host(first.block)) > 0);
            assert(other.root.live.count(other.host(second.block)) > 0);
        }
    }

    /// The memory objects of the allocators still lie apart after a request,
    /// as long as the device grants no memory object in which a block of a
    /// root allocator lies.
    pub proof fn lemma_alloc_keeps_apart(
        self,
        device: ExchangeView,
        request: (Type, Properties),
        reqs: Requirements,
    )
        requires
            self.wf(),
            self.apart(),
            device.granted is Some ==> self.fresh(device.granted->0),
        ensures
            self.after_alloc(device, request, reqs).smart.apart(),
    {
        let next = self.after_alloc(device, request, reqs).smart;
        if self.alloc_error(device, request, reqs) is None {
            self.lemma_choice(request.1, reqs);
            let chosen = self.choice(request.1, reqs);
            let allocator = self.allocators[chosen];
            assert(allocator.root.fresh(device.granted->0) || device.granted is None);
            allocator.lemma_alloc_keeps_apart(device, request.0, reqs);
            let root = next.allocators[chosen].root;
            assert forall|index: int| 0 <= index < next.allocators.len() implies pairwise_disjoint(
                (#[trigger] next.allocators[index]).root.live,
            ) by {
                if index != chosen {
                    assert(next.allocators[index] == self.allocators[index]);
                }
            }
            assert forall|index: int, other: int, a: Extent, b: Extent|
                #![trigger next.allocators[index].root.live.count(a), next.allocators[other].root.live.count(b)]
                0 <= index < next.allocators.len() && 0 <= other < next.allocators.len() && index
                    != other && next.allocators[index].root.live.count(a) > 0
                    && next.allocators[other].root.live.count(b) > 0 implies a.memory
                != b.memory by {
                if index != chosen {
                    assert(next.allocators[index] == self.allocators[index]);
                    assert(self.allocators[index].root.fresh(device.granted->0) || device.granted is None);
                }
                if other != chosen {
                    assert(next.allocators[other] == self.allocators[other]);
                    assert(self.allocators[other].root.fresh(device.granted->0) || device.granted is None);
                }
                if index == chosen {
                    assert(root.live.count(a) > 0);
                    if self.allocators[chosen].root.live.count(a) > 0 {
                        assert(self.allocators[other].root.live.count(b) > 0);
                    }
                }
                if other == chosen {
                    assert(root.live.count(b) > 0);
                    if self.allocators[chosen].root.live.count(b) > 0 {
                        assert(self.allocators[index].root.live.count(a) > 0);
                    }
                }
            }
        }
    }

    /// The memory objects of the allocators still lie apart after a block has
    /// come back.
    pub proof fn lemma_free_keeps_apart(self, device: ExchangeView, block: SmartTagged)
        requires
            self.wf(),
            self.apart(),
            self.owns(block),
        ensures
            self.after_free(device, block).smart.apart(),
    {
        let next = self.after_free(device, block).smart;
        assert(self.live.count(block) == self.count(block));
        let at = block.index;
        self.allocators[at].lemma_free_keeps_apart(device, block.block);
        let root = next.allocators[at].root;
        assert forall|index: int| 0 <= index < next.allocators.len() implies pairwise_disjoint(
            (#[trigger] next.allocators[index]).root.live,
        ) by {
            if index != at {
                assert(next.allocators[index] == self.allocators[index]);
            }
        }
        assert forall|index: int, other: int, a: Extent, b: Extent|
            #![trigger next.allocators[index].root.live.count(a), next.allocators[other].root.live.count(b)]
            0 <= index < next.allocators.len() && 0 <= other < next.allocators.len() && index
                != other && next.allocators[index].root.live.count(a) > 0
                && next.allocators[other].root.live.count(b) > 0 implies a.memory != b.memory by {
            if index != at {
                assert(next.allocators[index] == self.allocators[index]);
            } else {
                assert(root.live.count(a) <= self.allocators[at].root.live.count(a));
            }
            if other != at {
                assert(next.allocators[other] == self.allocators[other]);
            } else {
                assert(root.live.count(b) <= self.allocators[at].root.live.count(b));
            }
            assert(self.allocators[index].root.live.count(a) > 0);
            assert(self.allocators[other].root.live.count(b) > 0);
        }
    }

    /// After a request is served, the share that is used of the heap of the
    /// chosen memory type exceeds the share that is used of the heap of any
    /// other candidate by no more than the share that the block has of its
    /// heap.
    pub proof fn lemma_balance(
        self,
        device: ExchangeView,
        request: (Type, Properties),
        reqs: Requirements,
        other: int,
    )
        requires
            self.wf(),
            self.alloc_error(device, request, reqs) is None,
            self.candidate(other, request.1, reqs),
        ensures
            ({
                let chosen = self.heap_of(self.choice(request.1, reqs));
                let rival = self.heap_of(other);
                let size = self.allocated(device, request, reqs).block.extent.size();
                (chosen.share_of() + size) * rival.share_in() <= rival.share_of()
                    * chosen.share_in() + size * rival.share_in()
            }),
    {
        self.lemma_choice(request.1, reqs);
        let chosen = self.heap_of(self.choice(request.1, reqs));
        let rival = self.heap_of(other);
        let size = self.allocated(device, request, reqs).block.extent.size();
        assert(!rival.less_used(chosen));
        assert((chosen.share_of() + size) * rival.share_in() == chosen.share_of()
            * rival.share_in() + size * rival.share_in()) by (nonlinear_arith);
    }

    /// A request succeeds where the allocator demands a memory object and the
    /// device has granted one. Where the allocator demands none, the request
    /// goes its way whatever the device has granted, and the exchange stays
    /// as it is.
    pub proof fn lemma_demand(
        self,
        device: ExchangeView,
        request: (Type, Properties),
        reqs: Requirements,
    )
        requires
            self.wf(),
        ensures
            self.demand(request, reqs) is Some && device.granted is Some ==> self.alloc_error(
                device,
                request,
                reqs,
            ) is None,
            self.demand(request, reqs) is None ==> self.after_alloc(device, request, reqs).device
                == device,
    {
        if self.select_error(request.1, reqs) is None && self.holds(request, reqs) {
            self.lemma_choice(request.1, reqs);
            self.allocators[self.choice(request.1, reqs)].lemma_demand(device, request.0, reqs);
        }
    }

    /// A block that is handed out and taken back leaves the allocator in use
    /// or not as it was before.
    pub proof fn lemma_round_trip(
        self,
        device: ExchangeView,
        request: (Type, Properties),
        reqs: Requirements,
        later: ExchangeView,
    )
        requires
            self.wf(),
            self.alloc_error(device, request, reqs) is None,
        ensures
            ({
                let block = self.allocated(device, request, reqs);
                let next = self.after_alloc(device, request, reqs).smart;
                &&& next.owns(block)
                &&& next.after_free(later, block).smart.live == self.live
                &&& next.after_free(later, block).smart.is_used() == self.is_used()
            }),
    {
        broadcast use group_multiset_axioms;

        let block = self.allocated(device, request, reqs);
        let next = self.after_alloc(device, request, reqs).smart;
        self.lemma_after_alloc(device, request, reqs);
        next.lemma_after_free(later, block);
        let last = next.after_free(later, block).smart;
        assert(last.live =~= self.live);
        self.lemma_is_used();
        last.lemma_is_used();
    }

    /// The allocator is in use exactly when one of its blocks is out.
    pub proof fn lemma_is_used(self)
        requires
            self.wf(),
        ensures
            self.is_used() <==> self.live.len() > 0,
    {
        broadcast use group_multiset_axioms;

        if self.is_used() {
            let index = choose|index: int|
                0 <= index < self.allocators.len() && (#[trigger] self.allocators[index]).is_used();
            let allocator = self.allocators[index];
            allocator.lemma_is_used();
            axiom_choose_count(allocator.live);
            let block = SmartTagged { block: allocator.live.choose(), index };
            assert(self.live.count(block) == self.count(block));
        }
        if self.live.len() > 0 {
            axiom_choose_count(self.live);
            let block = self.live.choose();
            assert(self.live.count(block) == self.count(block));
            self.allocators[block.index].lemma_is_used();
        }
    }

    /// A request keeps the invariant. Where it succeeds, the block is large
    /// enough and aligned, its memory type is one that the request accepts
    /// and that has the properties asked for, and the block is out once more
    /// than before.
    pub proof fn lemma_after_alloc(
        self,
        device: ExchangeView,
        request: (Type, Properties),
        reqs: Requirements,
    )
        requires
            self.wf(),
        ensures
            self.after_alloc(device, request, reqs).smart.wf(),
            self.alloc_error(device, request, reqs) is None ==> {
                let block = self.allocated(device, request, reqs);
                &&& self.is_choice(block.index, request.1, reqs)
                &&& self.compatible(block.index, request.1, reqs)
                &&& block.block.extent.size() >= reqs.size
                &&& block.block.extent.size() <= self.heap_of(block.index).available()
                &&& is_power_of_two(reqs.alignment as int) ==> block.block.extent.start % (
                reqs.alignment as int) == 0
            },
    {
        broadcast use group_multiset_axioms;

        if self.alloc_error(device, request, reqs) is None {
            let index = self.choice(request.1, reqs);
            self.lemma_choice(request.1, reqs);
            let heap = self.types[index].heap_index as int;
            let allocator = self.allocators[index];
            allocator.lemma_after_alloc(device, request.0, reqs);
            let step = allocator.after_alloc(device, request.0, reqs);
            let block = self.allocated(device, request, reqs);
            let next = self.after_alloc(device, request, reqs).smart;
            let size = block.block.extent.size();
            lemma_total_insert(allocator.live, tagged_size(), block.block);
            assert forall|at: int| 0 <= at < next.allocators.len() implies {
                &&& (#[trigger] next.allocators[at]).wf()
                &&& next.allocators[at].memory_type() == MemoryTypeId(at as usize)
            } by {
                if at != index {
                    assert(next.allocators[at] == self.allocators[at]);
                }
            }
            assert forall|at: int| 0 <= at < next.heaps.len() implies (
            #[trigger] next.heaps[at]).wf() && next.heaps[at].used == next.load(
                at,
                next.types.len() as int,
            ) by {
                let updated = SmartView {
                    allocators: self.allocators.update(index, step.combined),
                    ..self
                };
                self.lemma_load_update(index, step.combined, at, self.types.len() as int);
                updated.lemma_load_heaps(next.heaps, next.live, at, self.types.len() as int);
                assert(self.heaps[at].wf());
                if at != heap {
                    assert(next.heaps[at] == self.heaps[at]);
                }
            }
            assert forall|other: SmartTagged| #[trigger]
                next.live.count(other) == next.count(other) by {
                assert(self.live.count(other) == self.count(other));
                if 0 <= other.index < self.allocators.len() && other.index != index {
                    assert(next.allocators[other.index] == self.allocators[other.index]);
                }
            }
        }
    }

    /// Where there is a candidate, there is a choice.
    pub proof fn lemma_choice(self, properties: Properties, reqs: Requirements)
        requires
            self.select_error(properties, reqs) is None,
        ensures
            self.is_choice(self.choice(properties, reqs), properties, reqs),
            0 <= self.choice(properties, reqs) < self.types.len(),
            self.candidate(self.choice(properties, reqs), properties, reqs),
    {
        let witness = choose|index: int| self.candidate(index, properties, reqs);
        assert(self.candidate(witness, properties, reqs));
        assert(0 <= witness < self.types.len());
        self.lemma_choice_exists(self.types.len() as int, properties, reqs);
        let best = choose|index: int|
            self.best_among(index, self.types.len() as int, properties, reqs);
        assert(self.is_choice(best, properties, reqs));
        self.lemma_choice_unique(best, properties, reqs);
    }

    /// Among the first `count` memory types there is a choice if there is a
    /// candidate.
    pub proof fn lemma_choice_exists(self, count: int, properties: Properties, reqs: Requirements)
        requires
            0 <= count <= self.types.len(),
            exists|index: int| 0 <= index < count && self.candidate(index, properties, reqs),
        ensures
            exists|index: int| self.best_among(index, count, properties, reqs),
        decreases count,
    {
        let last = count - 1;
        if exists|index: int| 0 <= index < last && self.candidate(index, properties, reqs) {
            self.lemma_choice_exists(last, properties, reqs);
            let best = choose|index: int| self.best_among(index, last, properties, reqs);
            if self.candidate(last, properties, reqs) && self.heap_of(last).less_used(
                self.heap_of(best),
            ) {
                self.lemma_best_replaced(best, last, properties, reqs);
            } else {
                assert(self.best_among(best, count, properties, reqs));
            }
        } else {
            assert(self.candidate(last, properties, reqs));
            assert(self.best_among(last, count, properties, reqs)) by {
                self.lemma_not_less_than_itself(last);
            }
        }
    }

    /// Of no heap less is used than of itself.
    pub proof fn lemma_not_less_than_itself(self, index: int)
        ensures
            !self.heap_of(index).less_used(self.heap_of(index)),
    {
    }

    /// A candidate of whose heap less is used than of the heap of the choice
    /// among those before it is the choice among those up to it.
    pub proof fn lemma_best_replaced(
        self,
        best: int,
        last: int,
        properties: Properties,
        reqs: Requirements,
    )
        requires
            self.best_among(best, last, properties, reqs),
            self.candidate(last, properties, reqs),
            self.heap_of(last).less_used(self.heap_of(best)),
        ensures
            self.best_among(last, last + 1, properties, reqs),
    {
        let new = self.heap_of(last);
        let old = self.heap_of(best);
        assert forall|other: int|
            0 <= other < last + 1 && #[trigger] self.candidate(
                other,
                properties,
                reqs,
            ) implies !self.heap_of(other).less_used(new) by {
            if other < last && self.heap_of(other).less_used(new) {
                self.heap_of(other).lemma_less_used_transitive(new, old);
            }
        }
        assert forall|other: int|
            0 <= other < last && #[trigger] self.candidate(other, properties, reqs) implies new.less_used(
            self.heap_of(other),
        ) by {
            new.lemma_less_used_between(old, self.heap_of(other));
        }
    }

    /// Taking back a block that is out keeps the invariant.
    pub proof fn lemma_after_free(self, device: ExchangeView, block: SmartTagged)
        requires
            self.wf(),
            self.owns(block),
        ensures
            self.after_free(device, block).smart.wf(),
            0 <= block.index < self.allocators.len(),
            self.allocators[block.index].owns(block.block),
            block.block.extent.size() <= self.heap_of(block.index).used,
    {
        broadcast use group_multiset_axioms;

        assert(self.live.count(block) == self.count(block));
        let index = block.index;
        let heap = self.types[index].heap_index as int;
        let allocator = self.allocators[index];
        allocator.lemma_after_free(device, block.block);
        let step = allocator.after_free(device, block.block);
        let next = self.after_free(device, block).smart;
        lemma_total_remove(allocator.live, tagged_size(), block.block);
        self.lemma_load_covers(index, self.types.len() as int);
        assert(self.heaps[heap].wf());
        assert forall|at: int| 0 <= at < next.allocators.len() implies {
            &&& (#[trigger] next.allocators[at]).wf()
            &&& next.allocators[at].memory_type() == MemoryTypeId(at as usize)
        } by {
            if at != index {
                assert(next.allocators[at] == self.allocators[at]);
            }
        }
        assert forall|at: int| 0 <= at < next.heaps.len() implies (#[trigger] next.heaps[at]).wf()
            && next.heaps[at].used == next.load(at, next.types.len() as int) by {
            let updated = SmartView {
                allocators: self.allocators.update(index, step.combined),
                ..self
            };
            self.lemma_load_update(index, step.combined, at, self.types.len() as int);
            updated.lemma_load_heaps(next.heaps, next.live, at, self.types.len() as int);
            assert(self.heaps[at].wf());
            if at != heap {
                assert(next.heaps[at] == self.heaps[at]);
            }
        }
        assert forall|other: SmartTagged| #[trigger]
            next.live.count(other) == next.count(other) by {
            assert(self.live.count(other) == self.count(other));
            if 0 <= other.index < self.allocators.len() && other.index != index {
                assert(next.allocators[other.index] == self.allocators[other.index]);
            }
        }
    }
}

/// Serves the requests for all the memory types of a device. Each request
/// goes to the acceptable memory type of whose heap the smallest share is
/// used.
pub struct SmartAllocator {
    types: Vec<MemoryType>,
    allocators: Vec<CombinedAllocator>,
    heaps: Vec<Heap>,
    live: Ghost<Multiset<SmartTagged>>,
}

impl View for SmartAllocator {
    type V = SmartView;

    closed spec fn view(&self) -> SmartView {
        SmartView {
            types: self.types@,
            allocators: self.allocators@.map_values(|allocator: CombinedAllocator| allocator@),
            heaps: self.heaps@.map_values(|heap: Heap| heap@),
            live: self.live@,
        }
    }
}

impl SmartAllocator {
    /// The invariant of the allocator.
    pub closed spec fn wf(&self) -> bool {
        &&& self@.wf()
        &&& forall|index: int|
            0 <= index < self.allocators@.len() ==> (#[trigger] self.allocators@[index]).wf()
    }

    /// The invariant of the allocator holds of what it stands for.
    pub proof fn lemma_wf(&self)
        requires
            self.wf(),
        ensures
            self@.wf(),
    {
    }

    /// The allocator with the exchange, as one value.
    pub open spec fn step(&self, device: &Exchange) -> SmartStep {
        SmartStep { smart: self@, device: device@ }
    }

    /// An allocator for the memory types and heaps of a device, with no block
    /// out. Each memory type gets a combined allocator with the given sizes.
    pub fn new(
        memory_properties: MemoryProperties,
        arena_chunk_size: u64,
        blocks_per_chunk: usize,
        min_block_size: u64,
        max_chunk_size: u64,
    ) -> (smart: SmartAllocator)
        requires
            is_power_of_two(min_block_size as int),
            is_power_of_two(max_chunk_size as int),
            forall|index: int|
                0 <= index < memory_properties.memory_types@.len() ==> (
                #[trigger] memory_properties.memory_types@[index]).heap_index
                    < memory_properties.memory_heaps@.len(),
        ensures
            smart.wf(),
            smart@.types == memory_properties.memory_types@,
            smart@.live == Multiset::<SmartTagged>::empty(),
            smart@.allocators.len() == smart@.types.len(),
            smart@.heaps.len() == memory_properties.memory_heaps@.len(),
            forall|index: int|
                0 <= index < smart@.allocators.len() ==> #[trigger] smart@.allocators[index]
                    == CombinedView::empty(
                    MemoryTypeId(index as usize),
                    arena_chunk_size as nat,
                    blocks_per_chunk as nat,
                    min_block_size as nat,
                    max_chunk_size as nat,
                ),
            forall|heap: int|
                0 <= heap < smart@.heaps.len() ==> #[trigger] smart@.heaps[heap] == (HeapView {
                    size: memory_properties.memory_heaps@[heap] as nat,
                    used: 0,
                }),
    {
        broadcast use group_multiset_axioms;

        let MemoryProperties { memory_types, memory_heaps } = memory_properties;
        let mut allocators: Vec<CombinedAllocator> = Vec::new();
        let mut index: usize = 0;
        while index < memory_types.len()
            invariant
                is_power_of_two(min_block_size as int),
                is_power_of_two(max_chunk_size as int),
                index <= memory_types@.len(),
                allocators@.len() == index,
                forall|at: int|
                    0 <= at < index ==> (#[trigger] allocators@[at]).wf() && allocators@[at]@
                        == CombinedView::empty(
                        MemoryTypeId(at as usize),
                        arena_chunk_size as nat,
                        blocks_per_chunk as nat,
                        min_block_size as nat,
                        max_chunk_size as nat,
                    ),
            decreases memory_types@.len() - index,
        {
            allocators.push(
                CombinedAllocator::new(
                    MemoryTypeId(index),
                    arena_chunk_size,
                    blocks_per_chunk,
                    min_block_size,
                    max_chunk_size,
                ),
            );
            index += 1;
        }
        let mut heaps: Vec<Heap> = Vec::new();
        let mut heap: usize = 0;
        while heap < memory_heaps.len()
            invariant
                heap <= memory_heaps@.len(),
                heaps@.len() == heap,
                forall|at: int|
                    0 <= at < heap ==> (#[trigger] heaps@[at])@ == (HeapView {
                        size: memory_heaps@[at] as nat,
                        used: 0,
                    }),
            decreases memory_heaps@.len() - heap,
        {
            heaps.push(Heap::new(memory_heaps[heap]));
            heap += 1;
        }
        let smart = SmartAllocator {
            types: memory_types,
            allocators,
            heaps,
            live: Ghost(Multiset::empty()),
        };
        proof {
            let view = smart@;
            lemma_total_empty(tagged_size());
            assert forall|at: int| 0 <= at < view.allocators.len() implies {
                &&& (#[trigger] view.allocators[at]).wf()
                &&& view.allocators[at].memory_type() == MemoryTypeId(at as usize)
            } by {
                smart.allocators@[at].lemma_wf();
            }
            assert forall|at: int| 0 <= at < view.heaps.len() implies (#[trigger] view.heaps[at]).wf()
                && view.heaps[at].used == view.load(at, view.types.len() as int) by {
                Self::lemma_load_empty(view, at, view.types.len() as int);
            }
        }
        smart
    }

    /// Allocators without blocks out put no load on a heap.
    proof fn lemma_load_empty(view: SmartView, heap: int, count: int)
        requires
            0 <= count <= view.allocators.len(),
            forall|index: int|
                0 <= index < view.allocators.len() ==> (#[trigger] view.allocators[index]).live
                    == Multiset::<Tagged>::empty(),
        ensures
            view.load(heap, count) == 0,
        decreases count,
    {
        if count > 0 {
            lemma_total_empty(tagged_size());
            Self::lemma_load_empty(view, heap, count - 1);
        }
    }

    /// The heap with index `index`, if there is one.
    pub fn heap(&self, index: usize) -> (heap: Option<Heap>)
        ensures
            match heap {
                Some(heap) => index < self@.heaps.len() && heap@ == self@.heaps[index as int],
                None => index >= self@.heaps.len(),
            },
    {
        if index < self.heaps.len() {
            Some(self.heaps[index])
        } else {
            None
        }
    }

    /// The properties of the memory type that `block` came from.
    pub fn properties(&self, block: &SmartBlock) -> (properties: Properties)
        requires
            self.wf(),
            self@.owns(smart_tagged(block)),
        ensures
            properties == self@.types[block.index()].properties,
    {
        proof {
            self@.lemma_after_free(ExchangeView { granted: None, released: Seq::empty() }, smart_tagged(block));
        }
        self.types[block.1].properties
    }

    /// Tells whether blocks of the allocator are out.
    pub fn is_used(&self) -> (used: bool)
        requires
            self.wf(),
        ensures
            used == self@.is_used(),
            used == (self@.live.len() > 0),
    {
        proof {
            self@.lemma_is_used();
        }
        let mut index: usize = 0;
        while index < self.allocators.len()
            invariant
                self.wf(),
                self@.is_used() <==> self@.live.len() > 0,
                index <= self.allocators@.len(),
                forall|at: int| 0 <= at < index ==> !(#[trigger] self@.allocators[at]).is_used(),
            decreases self.allocators@.len() - index,
        {
            if self.allocators[index].is_used() {
                assert(self@.allocators[index as int].is_used());
                return true;
            }
            index += 1;
        }
        false
    }

    /// Tells whether the heap of memory type `index` has room for `reqs`.
    fn roomy(&self, index: usize, reqs: Requirements) -> (roomy: bool)
        requires
            self.wf(),
            index < self@.types.len(),
        ensures
            roomy == self@.roomy(index as int, reqs),
    {
        let heap = &self.heaps[self.types[index].heap_index];
        assert(heap@ == self@.heap_of(index as int));
        assert(self@.heaps[self@.types[index as int].heap_index as int].wf());
        let available = heap.available();
        reqs.size <= available && reqs.alignment <= available - reqs.size
    }

    /// Chooses the memory type for a request: among the acceptable ones whose
    /// heap has room, the one of whose heap the smallest share is used, and
    /// among several such the first.
    pub fn select(&self, properties: Properties, reqs: Requirements) -> (result: Result<
        usize,
        MemoryError,
    >)
        requires
            self.wf(),
        ensures
            match result {
                Ok(index) => {
                    &&& self@.select_error(properties, reqs) is None
                    &&& index == self@.choice(properties, reqs)
                    &&& self@.is_choice(index as int, properties, reqs)
                },
                Err(error) => self@.select_error(properties, reqs) == Some(error),
            },
    {
        let mut compatible = false;
        let mut candidate: Option<usize> = None;
        let mut index: usize = 0;
        while index < self.types.len()
            invariant
                self.wf(),
                index <= self@.types.len(),
                compatible == (exists|at: int|
                    0 <= at < index && self@.compatible(at, properties, reqs)),
                candidate is None ==> !(exists|at: int|
                    0 <= at < index && self@.candidate(at, properties, reqs)),
                candidate is Some ==> self@.best_among(
                    candidate->0 as int,
                    index as int,
                    properties,
                    reqs,
                ),
            decreases self@.types.len() - index,
        {
            let memory_type = self.types[index];
            if type_allowed(reqs.type_mask, index) && memory_type.properties.contains(properties) {
                assert(self@.compatible(index as int, properties, reqs));
                compatible = true;
                if self.roomy(index, reqs) {
                    assert(self@.candidate(index as int, properties, reqs));
                    match candidate {
                        Some(best) => {
                            let heap = &self.heaps[memory_type.heap_index];
                            let best_heap = &self.heaps[self.types[best].heap_index];
                            if heap.less_used(best_heap) {
                                proof {
                                    self@.lemma_best_replaced(
                                        best as int,
                                        index as int,
                                        properties,
                                        reqs,
                                    );
                                }
                                candidate = Some(index);
                            }
                        },
                        None => {
                            proof {
                                self@.lemma_not_less_than_itself(index as int);
                            }
                            candidate = Some(index);
                        },
                    }
                }
            } else {
                assert(!self@.compatible(index as int, properties, reqs));
            }
            proof {
                if !compatible {
                    assert forall|at: int| 0 <= at < index + 1 implies !self@.compatible(
                        at,
                        properties,
                        reqs,
                    ) by {
                        if at < index {
                            assert(!(0 <= at < index && self@.compatible(at, properties, reqs)));
                        }
                    }
                }
            }
            index += 1;
        }
        match candidate {
            Some(chosen) => {
                proof {
                    assert(self@.candidate(chosen as int, properties, reqs));
                    assert(self@.compatible(chosen as int, properties, reqs));
                    self@.lemma_choice_unique(chosen as int, properties, reqs);
                }
                Ok(chosen)
            },
            None => {
                if compatible {
                    Err(MemoryError::OutOfMemory)
                } else {
                    Err(MemoryError::NoCompatibleMemoryType)
                }
            },
        }
    }

    /// The memory object that the device must grant before `allocate` can
    /// serve a request, if it needs one.
    pub fn demand(&self, request: (Type, Properties), reqs: Requirements) -> (demand: Option<
        Demand,
    >)
        requires
            self.wf(),
        ensures
            demand == self@.demand(request, reqs),
    {
        match self.select(request.1, reqs) {
            Ok(chosen) => {
                proof {
                    self@.lemma_choice(request.1, reqs);
                    assert(self@.heaps[self@.types[chosen as int].heap_index as int].wf());
                }
                let heap = &self.heaps[self.types[chosen].heap_index];
                if self.allocators[chosen].granted_size(request.0, reqs) > heap.available() {
                    None
                } else {
                    self.allocators[chosen].demand(request.0, reqs)
                }
            },
            Err(_) => None,
        }
    }

    /// Hands out a block for a request from the memory type that `select`
    /// chooses, and counts its bytes as used in the heap of that type.
    ///
    /// Fails with `NoCompatibleMemoryType` where `reqs` accepts no memory type
    /// that has the properties asked for, and with `OutOfMemory` where the
    /// heap of none of the acceptable ones has room, or where the heap of the
    /// chosen one has no room for the block that its allocator hands out.
    /// Otherwise it fails as the allocator of the chosen memory type does. A
    /// failed request changes nothing.
    pub fn allocate(
        &mut self,
        device: &mut Exchange,
        request: (Type, Properties),
        reqs: Requirements,
    ) -> (result: Result<SmartBlock, MemoryError>)
        requires
            old(self).wf(),
        ensures
            final(self).wf(),
            final(self).step(final(device)) == old(self)@.after_alloc(old(device)@, request, reqs),
            match result {
                Ok(block) => {
                    &&& old(self)@.alloc_error(old(device)@, request, reqs) is None
                    &&& smart_tagged(&block) == old(self)@.allocated(old(device)@, request, reqs)
                    &&& final(self)@.live == old(self)@.live.insert(smart_tagged(&block))
                    &&& block.extent().size() >= reqs.size
                    &&& is_power_of_two(reqs.alignment as int) ==> block.extent().start % (
                    reqs.alignment as int) == 0
                    &&& mask_allows(reqs.type_mask, block.index())
                    &&& old(self)@.types[block.index()].properties.spec_contains(request.1)
                    &&& old(self)@.is_choice(block.index(), request.1, reqs)
                },
                Err(error) => {
                    &&& old(self)@.alloc_error(old(device)@, request, reqs) == Some(error)
                    &&& final(self)@ == old(self)@
                },
            },
    {
        broadcast use group_multiset_axioms;

        proof {
            self@.lemma_after_alloc(device@, request, reqs);
        }
        let chosen = match self.select(request.1, reqs) {
            Ok(chosen) => chosen,
            Err(error) => {
                return Err(error);
            },
        };
        proof {
            self@.lemma_choice(request.1, reqs);
            assert(self@.heaps[self@.types[chosen as int].heap_index as int].wf());
            self.allocators@[chosen as int].lemma_wf();
            self@.allocators[chosen as int].lemma_after_alloc(device@, request.0, reqs);
        }
        let heap_index = self.types[chosen].heap_index;
        if self.allocators[chosen].granted_size(request.0, reqs) > self.heaps[heap_index].available() {
            return Err(MemoryError::OutOfMemory);
        }
        let ghost before = self@;
        match self.allocators[chosen].allocate(device, request.0, reqs) {
            Ok(block) => {
                self.heaps[heap_index].allocate(block.size());
                let block = GenericSmartBlock::new(block, chosen);
                proof {
                    self.live@ = self.live@.insert(smart_tagged(&block));
                    assert(self@.allocators =~= before.allocators.update(
                        chosen as int,
                        self.allocators@[chosen as int]@,
                    ));
                    assert(self@.heaps =~= before.heaps.update(
                        heap_index as int,
                        self.heaps@[heap_index as int]@,
                    ));
                    block.lemma_extent();
                }
                Ok(block)
            },
            Err(error) => {
                proof {
                    assert(self@.allocators =~= before.allocators);
                }
                Err(error)
            },
        }
    }

    /// Takes back a block: the allocator of its memory type takes it, and its
    /// bytes no longer count as used in the heap of that type.
    pub fn free(&mut self, device: &mut Exchange, block: SmartBlock)
        requires
            old(self).wf(),
            old(self)@.owns(smart_tagged(&block)),
        ensures
            final(self).wf(),
            final(self).step(final(device)) == old(self)@.after_free(
                old(device)@,
                smart_tagged(&block),
            ),
            final(self)@.live == old(self)@.live.remove(smart_tagged(&block)),
    {
        broadcast use group_multiset_axioms;

        proof {
            self@.lemma_after_free(device@, smart_tagged(&block));
        }
        let ghost tagged = smart_tagged(&block);
        let ghost before = self@;
        let (block, index) = block.into_parts();
        let heap_index = self.types[index].heap_index;
        proof {
            assert(self@.heaps[heap_index as int].wf());
        }
        self.heaps[heap_index].free(block.size());
        self.allocators[index].free(device, block);
        proof {
            self.live@ = self.live@.remove(tagged);
            assert(self@.allocators =~= before.allocators.update(
                index as int,
                self.allocators@[index as int]@,
            ));
            assert(self@.heaps =~= before.heaps.update(
                heap_index as int,
                self.heaps@[heap_index as int]@,
            ));
        }
    }

    /// Ends the allocator and its allocators, one after the other. Where
    /// blocks are out, the allocator comes back unchanged.
    pub fn dispose(self, device: &mut Exchange) -> (result: Result<(), SmartAllocator>)
        requires
            self.wf(),
        ensures
            match result {
                Ok(()) => {
                    &&& !self@.is_used()
                    &&& self@.live.len() == 0
                    &&& final(device)@ == self@.device_after_dispose(
                        old(device)@,
                        self@.allocators.len() as int,
                    )
                },
                Err(smart) => {
                    &&& self@.is_used()
                    &&& self@.live.len() > 0
                    &&& smart == self
                    &&& final(device)@ == old(device)@
                },
            },
    {
        if self.is_used() {
            return Err(self);
        }
        let ghost view = self@;
        let SmartAllocator { types: _, allocators, heaps: _, live: _ } = self;
        let ghost all = allocators@;
        for allocator in iter: allocators.into_iter()
            invariant
                iter.seq() == all,
                all.len() == view.allocators.len(),
                forall|at: int|
                    0 <= at < all.len() ==> (#[trigger] all[at]).wf() && all[at]@
                        == view.allocators[at] && !view.allocators[at].is_used(),
                device@ == view.device_after_dispose(old(device)@, iter.index() as int),
        {
            match allocator.dispose(device) {
                Ok(()) => {},
                Err(_) => {
                    assert(false);
                },
            }
        }
        Ok(())
    }
}

} // verus!
