//! The arena sub-allocator: blocks are carved linearly out of chunks, and a
//! chunk goes back to its owner once every block carved from it has come
//! back.

use core::ops::Range;
use std::collections::VecDeque;
use vstd::multiset::*;
use vstd::prelude::*;

use crate::align::{
    alignment_shift, is_power_of_two, lemma_alignment_shift, lemma_alignment_shift_bounds,
    spec_alignment_shift,
};
use crate::block::{Block, RawBlock, Region};
use crate::error::MemoryError;
use crate::exchange::{Exchange, ExchangeView};
use crate::extent::{
    extent_size, lemma_total_empty, lemma_total_insert, lemma_total_remove, lemma_total_zero,
    pairwise_disjoint, sum_of_sizes, total, Extent,
};
use crate::memory::{
    mask_allows, type_allowed, Demand, MemoryHandle, MemoryTypeId, Requirements,
};
use crate::root::{RootAllocator, RootView};

verus! {

/// One chunk of the arena with its linear allocation state.
pub struct ArenaNode {
    used: u64,
    freed: u64,
    block: RawBlock,
    live: Ghost<Multiset<Extent>>,
}

/// What an arena node stands for.
pub ghost struct NodeView {
    /// The chunk that the node carves its blocks from.
    pub chunk: Extent,
    /// The bytes of the chunk, from its start, that were carved or skipped.
    pub used: nat,
    /// The bytes among the used ones that no block holds: those skipped for
    /// alignment, and those of blocks that have come back.
    pub freed: nat,
    /// The blocks carved from the chunk that are out.
    pub live: Multiset<Extent>,
}

/// The bytes that a block for `reqs` takes: a request for nothing still
/// takes one byte, so that its block keeps its chunk alive.
pub open spec fn span(reqs: Requirements) -> int {
    if reqs.size == 0 {
        1
    } else {
        reqs.size as int
    }
}

impl NodeView {
    /// A node over `chunk` from which nothing was carved yet.
    pub open spec fn fresh(chunk: Extent) -> NodeView {
        NodeView { chunk, used: 0, freed: 0, live: Multiset::empty() }
    }

    /// The used bytes lie in the chunk; every byte of them is either freed or
    /// in a block that is out; the blocks that are out lie in the used part
    /// of the chunk, side by side, none of them empty.
    pub open spec fn wf(self) -> bool {
        &&& self.chunk.wf()
        &&& self.chunk.start + self.used <= self.chunk.end
        &&& self.freed + total(self.live, extent_size()) == self.used
        &&& forall|e: Extent|
            self.live.count(e) > 0 ==> {
                &&& (#[trigger] e.memory) == self.chunk.memory
                &&& self.chunk.start <= e.start < e.end <= self.chunk.start + self.used
            }
        &&& pairwise_disjoint(self.live)
    }

    /// The offset in the memory object at which the unused bytes begin.
    pub open spec fn offset(self) -> int {
        self.chunk.start + self.used
    }

    /// The bytes to skip so that the next block starts aligned.
    pub open spec fn padding(self, reqs: Requirements) -> int {
        spec_alignment_shift(reqs.alignment, self.offset() as u64)
    }

    /// Whether the unused bytes have room for a block for `reqs`.
    pub open spec fn fits(self, reqs: Requirements) -> bool {
        self.padding(reqs) + span(reqs) <= self.chunk.size() - self.used
    }

    /// The block that a request that fits gets.
    pub open spec fn carved(self, reqs: Requirements) -> Extent {
        Extent {
            memory: self.chunk.memory,
            start: self.offset() + self.padding(reqs),
            end: self.offset() + self.padding(reqs) + span(reqs),
        }
    }

    /// The node once the block for `reqs` is carved.
    pub open spec fn after_alloc(self, reqs: Requirements) -> NodeView {
        NodeView {
            used: (self.used + self.padding(reqs) + span(reqs)) as nat,
            freed: (self.freed + self.padding(reqs)) as nat,
            live: self.live.insert(self.carved(reqs)),
            ..self
        }
    }

    /// The node once `block` has come back.
    pub open spec fn after_free(self, block: Extent) -> NodeView {
        NodeView { freed: self.freed + block.size(), live: self.live.remove(block), ..self }
    }

    /// Whether blocks carved from the chunk are out.
    pub open spec fn is_used(self) -> bool {
        self.freed != self.used
    }

    /// The bytes in the blocks that are out.
    pub open spec fn bytes_out(self) -> nat {
        (self.used - self.freed) as nat
    }

    /// A node is in use exactly when a block carved from it is out.
    pub proof fn lemma_is_used(self)
        requires
            self.wf(),
        ensures
            self.is_used() <==> self.live.len() > 0,
    {
        assert forall|e: Extent| self.live.count(e) > 0 implies #[trigger] extent_size()(e)
            > 0 by {
            assert(e.memory == self.chunk.memory);
        }
        lemma_total_zero(self.live, extent_size());
    }

    /// A fresh node over a well-formed chunk is well formed.
    pub proof fn lemma_fresh(chunk: Extent)
        requires
            chunk.wf(),
        ensures
            NodeView::fresh(chunk).wf(),
            !NodeView::fresh(chunk).is_used(),
    {
        broadcast use group_multiset_axioms;

        lemma_total_empty(extent_size());
    }

    /// Carving a block that fits keeps the node well formed, and the block
    /// was not out before.
    pub proof fn lemma_after_alloc(self, reqs: Requirements)
        requires
            self.wf(),
            self.fits(reqs),
            self.padding(reqs) >= 0,
        ensures
            self.after_alloc(reqs).wf(),
            self.after_alloc(reqs).is_used(),
            self.live.count(self.carved(reqs)) == 0,
            self.carved(reqs).wf(),
            self.chunk.contains(self.carved(reqs)),
    {
        broadcast use group_multiset_axioms;

        let e = self.carved(reqs);
        let next = self.after_alloc(reqs);
        lemma_total_insert(self.live, extent_size(), e);
        if self.live.count(e) > 0 {
            assert(e.memory == self.chunk.memory);
        }
        assert forall|x: Extent| next.live.count(x) > 0 implies {
            &&& (#[trigger] x.memory) == next.chunk.memory
            &&& next.chunk.start <= x.start < x.end <= next.chunk.start + next.used
        } by {
            if x != e {
                assert(self.live.count(x) > 0);
                assert(x.memory == self.chunk.memory);
            }
        }
        assert forall|a: Extent, b: Extent|
            next.live.count(a) > 0 && next.live.count(b) > 0 && (a != b || next.live.count(a)
                >= 2) implies #[trigger] a.disjoint(b) by {
            if a != e {
                assert(self.live.count(a) > 0);
                assert(a.memory == self.chunk.memory);
            }
            if b != e {
                assert(self.live.count(b) > 0);
                assert(b.memory == self.chunk.memory);
            }
            if a != e && b != e {
                assert(a.disjoint(b));
            }
        }
    }

    /// Taking back a block that is out keeps the node well formed.
    pub proof fn lemma_after_free(self, block: Extent)
        requires
            self.wf(),
            self.live.count(block) > 0,
        ensures
            self.after_free(block).wf(),
            self.freed + block.size() <= self.used,
            self.chunk.contains(block),
            block.size() > 0,
    {
        broadcast use group_multiset_axioms;

        let next = self.after_free(block);
        lemma_total_remove(self.live, extent_size(), block);
        assert(block.memory == self.chunk.memory);
        assert forall|x: Extent| next.live.count(x) > 0 implies {
            &&& (#[trigger] x.memory) == next.chunk.memory
            &&& next.chunk.start <= x.start < x.end <= next.chunk.start + next.used
        } by {
            assert(self.live.count(x) > 0);
            assert(x.memory == self.chunk.memory);
        }
        assert forall|a: Extent, b: Extent|
            next.live.count(a) > 0 && next.live.count(b) > 0 && (a != b || next.live.count(a)
                >= 2) implies #[trigger] a.disjoint(b) by {
            assert(self.live.count(a) > 0 && self.live.count(b) > 0);
            assert(a != b || self.live.count(a) >= 2);
            assert(a.disjoint(b));
        }
    }
}

impl View for ArenaNode {
    type V = NodeView;

    closed spec fn view(&self) -> NodeView {
        NodeView {
            chunk: self.block@,
            used: self.used as nat,
            freed: self.freed as nat,
            live: self.live@,
        }
    }
}

impl ArenaNode {
    /// The invariant of the node.
    pub open spec fn wf(&self) -> bool {
        self@.wf()
    }

    /// A node over `block` from which nothing was carved yet.
    pub fn new(block: RawBlock) -> (node: ArenaNode)
        ensures
            node.wf(),
            node@ == NodeView::fresh(block@),
    {
        let range = block.range();
        proof {
            NodeView::lemma_fresh(block@);
        }
        ArenaNode { used: 0, freed: 0, block, live: Ghost(Multiset::empty()) }
    }

    /// Tells whether the unused bytes of the chunk have room for a block for
    /// `reqs` behind the bytes skipped for alignment.
    pub fn fits(&self, reqs: Requirements) -> (fits: bool)
        requires
            self.wf(),
        ensures
            fits == self@.fits(reqs),
    {
        let range = self.block.range();
        let offset = range.start + self.used;
        let shift = alignment_shift(reqs.alignment, offset);
        let bytes: u64 = if reqs.size == 0 {
            1
        } else {
            reqs.size
        };
        let room = (range.end - range.start) - self.used;
        shift <= room && bytes <= room - shift
    }

    /// Carves the block for `reqs` out of the unused bytes of the chunk, where
    /// they have room for it behind the bytes skipped for alignment.
    pub fn allocate(&mut self, reqs: Requirements) -> (result: Option<RawBlock>)
        requires
            old(self).wf(),
        ensures
            final(self).wf(),
            match result {
                Some(block) => {
                    &&& old(self)@.fits(reqs)
                    &&& block@ == old(self)@.carved(reqs)
                    &&& final(self)@ == old(self)@.after_alloc(reqs)
                },
                None => !old(self)@.fits(reqs) && final(self)@ == old(self)@,
            },
    {
        let range = self.block.range();
        let offset = range.start + self.used;
        let shift = alignment_shift(reqs.alignment, offset);
        let bytes: u64 = if reqs.size == 0 {
            1
        } else {
            reqs.size
        };
        let room = (range.end - range.start) - self.used;
        if shift > room || bytes > room - shift {
            None
        } else {
            proof {
                self@.lemma_after_alloc(reqs);
            }
            let block = RawBlock::new(self.block.memory(), offset + shift..offset + shift + bytes);
            proof {
                self.live@ = self.live@.insert(block@);
            }
            self.used += shift + bytes;
            self.freed += shift;
            Some(block)
        }
    }

    /// Takes back a block carved from this chunk.
    pub fn free(&mut self, block: RawBlock)
        requires
            old(self).wf(),
            old(self)@.live.count(block@) > 0,
        ensures
            final(self).wf(),
            final(self)@ == old(self)@.after_free(block@),
    {
        proof {
            self@.lemma_after_free(block@);
        }
        let size = block.size();
        proof {
            self.live@ = self.live@.remove(block@);
        }
        self.freed += size;
        block.dispose();
    }

    /// Tells whether blocks carved from the chunk are out.
    pub fn is_used(&self) -> (used: bool)
        ensures
            used == self@.is_used(),
    {
        self.freed != self.used
    }

    /// The bytes in the blocks that are out.
    pub fn used(&self) -> (bytes: u64)
        requires
            self.wf(),
        ensures
            bytes == self@.bytes_out(),
            bytes == total(self@.live, extent_size()),
    {
        self.used - self.freed
    }

    /// The chunk that the node carves its blocks from.
    pub fn chunk(&self) -> (chunk: &RawBlock)
        ensures
            chunk@ == self@.chunk,
    {
        &self.block
    }

    /// Returns the chunk of a node without blocks out to `owner`.
    pub(crate) fn release(self, owner: &mut RootAllocator, device: &mut Exchange)
        requires
            self.wf(),
            !self@.is_used(),
            old(owner).wf(),
            old(owner)@.live.count(self@.chunk) > 0,
        ensures
            final(owner).wf(),
            final(owner)@ == old(owner)@.after_free(self@.chunk),
            final(device)@ == old(device)@.after_release(self@.chunk.memory),
    {
        let ArenaNode { used: _, freed: _, block, live: _ } = self;
        owner.free(device, block);
    }

    /// Returns the chunk to `owner`, unless blocks carved from it are out: then
    /// the node comes back unchanged.
    pub fn dispose(self, owner: &mut RootAllocator, device: &mut Exchange) -> (result: Result<
        (),
        ArenaNode,
    >)
        requires
            self.wf(),
            old(owner).wf(),
            old(owner)@.live.count(self@.chunk) > 0,
        ensures
            final(owner).wf(),
            match result {
                Ok(()) => {
                    &&& !self@.is_used()
                    &&& final(owner)@ == old(owner)@.after_free(self@.chunk)
                    &&& final(device)@ == old(device)@.after_release(self@.chunk.memory)
                },
                Err(node) => {
                    &&& self@.is_used()
                    &&& node == self
                    &&& final(owner)@ == old(owner)@
                    &&& final(device)@ == old(device)@
                },
            },
    {
        if self.is_used() {
            Err(self)
        } else {
            let ArenaNode { used: _, freed: _, block, live: _ } = self;
            owner.free(device, block);
            Ok(())
        }
    }
}

/// A block of an arena: the block proper, and the number of the chunk that it
/// was carved from.
#[derive(Debug)]
pub struct ArenaBlock(pub(crate) RawBlock, pub(crate) u64);

impl ArenaBlock {
    /// The number of the chunk that the block was carved from.
    pub closed spec fn tag(&self) -> int {
        self.1 as int
    }

    /// The number of the chunk that the block was carved from.
    pub fn chunk_number(&self) -> (tag: u64)
        ensures
            tag == self.tag(),
    {
        self.1
    }

    /// Puts a block and its tag together.
    pub(crate) fn new(block: RawBlock, tag: u64) -> (tagged: ArenaBlock)
        ensures
            tagged.extent() == block@,
            tagged.tag() == tag,
    {
        ArenaBlock(block, tag)
    }

    /// Takes a block and its tag apart.
    pub(crate) fn into_parts(self) -> (parts: (RawBlock, u64))
        ensures
            parts.0@ == self.extent(),
            parts.1 == self.tag(),
    {
        (self.0, self.1)
    }
}

impl Region for ArenaBlock {
    closed spec fn extent(&self) -> Extent {
        self.0@
    }

    fn memory(&self) -> (memory: MemoryHandle) {
        self.0.memory()
    }

    fn range(&self) -> (range: Range<u64>) {
        self.0.range()
    }
}

impl Block for ArenaBlock {}

/// Carves short-lived blocks out of chunks that it takes from a root
/// allocator, `chunk_size` bytes or a multiple of that at a time.
pub struct ArenaAllocator {
    id: MemoryTypeId,
    chunk_size: u64,
    freed: u64,
    hot: Option<ArenaNode>,
    nodes: VecDeque<ArenaNode>,
}

/// What an arena stands for.
pub ghost struct ArenaView {
    /// The memory type that it allocates.
    pub id: MemoryTypeId,
    /// The size that the chunks are a multiple of.
    pub chunk_size: nat,
    /// The number of chunks that have left the front of the queue.
    pub freed: nat,
    /// The node that new blocks are carved from.
    pub hot: Option<NodeView>,
    /// The older nodes, oldest first.
    pub nodes: Seq<NodeView>,
}

/// An arena with the owner of its chunks and the exchange with the device.
pub ghost struct ArenaStep {
    pub arena: ArenaView,
    pub owner: RootView,
    pub device: ExchangeView,
}

impl ArenaView {
    /// An arena without chunks.
    pub open spec fn empty(id: MemoryTypeId, chunk_size: nat) -> ArenaView {
        ArenaView { id, chunk_size, freed: 0, hot: None, nodes: Seq::empty() }
    }

    /// The invariant but for the state of the oldest node.
    pub open spec fn wf_loose(self) -> bool {
        &&& self.nodes.len() > 0 ==> self.hot is Some
        &&& self.hot is Some ==> self.hot->0.wf()
        &&& forall|i: int| 0 <= i < self.nodes.len() ==> (#[trigger] self.nodes[i]).wf()
        &&& self.freed + self.nodes.len() <= u64::MAX
    }

    /// Every node is well formed, the queue is empty where there is no hot
    /// node, the tag of the hot node fits in 64 bits, and the oldest node of
    /// the queue has blocks out.
    pub open spec fn wf(self) -> bool {
        &&& self.wf_loose()
        &&& self.nodes.len() > 0 ==> self.nodes[0].is_used()
    }

    /// The tag of the blocks carved from the hot node.
    pub open spec fn next_tag(self) -> int {
        (self.freed + self.nodes.len()) as int
    }

    /// How often the block `block` with tag `tag` is out.
    pub open spec fn count(self, block: Extent, tag: int) -> nat {
        let index = tag - self.freed;
        if 0 <= index < self.nodes.len() {
            self.nodes[index].live.count(block)
        } else if index == self.nodes.len() && self.hot is Some {
            self.hot->0.live.count(block)
        } else {
            0
        }
    }

    /// Whether the block `block` with tag `tag` is out.
    pub open spec fn owns(self, block: Extent, tag: int) -> bool {
        self.count(block, tag) > 0
    }

    /// The chunks of the queue, oldest first.
    pub open spec fn queued_chunks(self) -> Seq<Extent> {
        self.nodes.map_values(|node: NodeView| node.chunk)
    }

    /// The chunks that the arena holds.
    pub open spec fn chunks(self) -> Multiset<Extent> {
        match self.hot {
            Some(hot) => self.queued_chunks().to_multiset().insert(hot.chunk),
            None => self.queued_chunks().to_multiset(),
        }
    }

    /// Whether every chunk of the arena is a block that `owner` has out.
    pub open spec fn backed_by(self, owner: RootView) -> bool {
        self.chunks().subset_of(owner.live)
    }

    /// Whether blocks of the arena are out.
    pub open spec fn is_used(self) -> bool {
        self.nodes.len() > 0 || (self.hot is Some && self.hot->0.is_used())
    }

    /// The bytes in the blocks that are out.
    pub open spec fn bytes_out(self) -> nat {
        bytes_out_of(self.nodes) + (match self.hot {
            Some(hot) => hot.bytes_out(),
            None => 0,
        })
    }

    /// The blocks that are out have no more bytes than the chunks of the
    /// arena.
    pub proof fn lemma_bytes_out(self)
        requires
            self.wf(),
        ensures
            self.bytes_out() <= total(self.chunks(), extent_size()),
    {
        lemma_bytes_out_of(self.nodes);
        crate::extent::lemma_sum_of_sizes(self.queued_chunks());
        match self.hot {
            Some(hot) => {
                lemma_total_insert(self.queued_chunks().to_multiset(), extent_size(), hot.chunk);
            },
            None => {},
        }
    }

    /// The size of the chunk that is opened for `reqs`: the least multiple of
    /// `chunk_size` that holds the block. There is none where `chunk_size` is
    /// zero.
    pub open spec fn chunk_bytes(self, reqs: Requirements) -> int {
        ((span(reqs) - 1) / (self.chunk_size as int) + 1) * self.chunk_size
    }

    /// Whether the hot node serves `reqs`.
    pub open spec fn bumps(self, reqs: Requirements) -> bool {
        self.hot is Some && self.hot->0.fits(reqs)
    }

    /// The memory object that the device must grant before the arena can
    /// serve `reqs`: none where the hot node serves it, where the memory type
    /// is not accepted, where `chunk_size` is zero, or where a size or a tag
    /// would not fit in 64 bits.
    pub open spec fn demand(self, owner: RootView, reqs: Requirements) -> Option<Demand> {
        if mask_allows(reqs.type_mask, self.id.0 as int) && !self.bumps(reqs) && self.chunk_size
            > 0 && self.next_tag() < u64::MAX && owner.used + self.chunk_bytes(reqs) <= u64::MAX {
            Some(Demand { memory_type: self.id, size: self.chunk_bytes(reqs) as u64 })
        } else {
            None
        }
    }

    /// Whether a new chunk is opened for `reqs`.
    pub open spec fn opens(self, owner: RootView, device: ExchangeView, reqs: Requirements) -> bool {
        self.demand(owner, reqs) is Some && device.granted is Some
    }

    /// The error with which a request fails, if it does.
    pub open spec fn alloc_error(
        self,
        owner: RootView,
        device: ExchangeView,
        reqs: Requirements,
    ) -> Option<MemoryError> {
        if !mask_allows(reqs.type_mask, self.id.0 as int) {
            Some(MemoryError::NoCompatibleMemoryType)
        } else if self.bumps(reqs) || self.opens(owner, device, reqs) {
            None
        } else {
            Some(MemoryError::OutOfMemory)
        }
    }

    /// The chunk that is opened for `reqs`.
    pub open spec fn opened_chunk(self, device: ExchangeView, reqs: Requirements) -> Extent {
        Extent { memory: device.granted->0, start: 0, end: self.chunk_bytes(reqs) }
    }

    /// The arena, its owner and the exchange after a request for `reqs`.
    ///
    /// The hot node serves the request where it can. Otherwise a new chunk
    /// becomes the hot node; the old hot node joins the queue if it has
    /// blocks out, and gives its chunk back to the owner if not.
    pub open spec fn after_alloc(
        self,
        owner: RootView,
        device: ExchangeView,
        reqs: Requirements,
    ) -> ArenaStep {
        if !mask_allows(reqs.type_mask, self.id.0 as int) {
            ArenaStep { arena: self, owner, device }
        } else if self.bumps(reqs) {
            ArenaStep {
                arena: ArenaView { hot: Some(self.hot->0.after_alloc(reqs)), ..self },
                owner,
                device,
            }
        } else if self.opens(owner, device, reqs) {
            let chunk = self.opened_chunk(device, reqs);
            let node = NodeView::fresh(chunk).after_alloc(reqs);
            let owner = owner.after_alloc(chunk);
            let device = device.after_claim();
            match self.hot {
                None => ArenaStep { arena: ArenaView { hot: Some(node), ..self }, owner, device },
                Some(hot) => if hot.is_used() {
                    ArenaStep {
                        arena: ArenaView { hot: Some(node), nodes: self.nodes.push(hot), ..self },
                        owner,
                        device,
                    }
                } else {
                    ArenaStep {
                        arena: ArenaView { hot: Some(node), ..self },
                        owner: owner.after_free(hot.chunk),
                        device: device.after_release(hot.chunk.memory),
                    }
                },
            }
        } else {
            ArenaStep { arena: self, owner, device }
        }
    }

    /// The block that a request that succeeds gets.
    pub open spec fn allocated(self, device: ExchangeView, reqs: Requirements) -> Extent {
        if self.bumps(reqs) {
            self.hot->0.carved(reqs)
        } else {
            NodeView::fresh(self.opened_chunk(device, reqs)).carved(reqs)
        }
    }

    /// The arena once the node of the block `block` with tag `tag` has taken
    /// it back.
    pub open spec fn credited(self, block: Extent, tag: int) -> ArenaView {
        let index = tag - self.freed;
        if index == self.nodes.len() {
            ArenaView { hot: Some(self.hot->0.after_free(block)), ..self }
        } else {
            ArenaView {
                nodes: self.nodes.update(index, self.nodes[index].after_free(block)),
                ..self
            }
        }
    }

    /// The arena, its owner and the exchange after the block `block` with tag
    /// `tag` has come back. Where the block came from a node of the queue,
    /// the queue is cleaned up.
    pub open spec fn after_free(
        self,
        owner: RootView,
        device: ExchangeView,
        block: Extent,
        tag: int,
    ) -> ArenaStep {
        let step = ArenaStep { arena: self.credited(block, tag), owner, device };
        if tag - self.freed == self.nodes.len() {
            step
        } else {
            step.cleanup()
        }
    }

    /// The owner and the exchange after the arena has ended.
    pub open spec fn after_dispose(self, owner: RootView, device: ExchangeView) -> ArenaStep {
        match self.hot {
            Some(hot) => ArenaStep {
                arena: ArenaView { hot: None, ..self },
                owner: owner.after_free(hot.chunk),
                device: device.after_release(hot.chunk.memory),
            },
            None => ArenaStep { arena: self, owner, device },
        }
    }
}

impl ArenaStep {
    /// Whether the hot node has blocks out, as a number.
    pub open spec fn hot_rank(self) -> nat {
        if self.arena.hot is Some && self.arena.hot->0.is_used() {
            1
        } else {
            0
        }
    }

    /// Whether the oldest node of the queue has no block out.
    pub open spec fn front_drained(self) -> bool {
        self.arena.nodes.len() > 0 && !self.arena.nodes[0].is_used() && self.arena.hot is Some
    }

    /// Whether the drained oldest node changes places with the hot node.
    pub open spec fn swaps(self) -> bool {
        self.arena.hot->0.is_used() && self.arena.next_tag() < u64::MAX
    }

    /// One step of the cleanup, taken while the oldest node of the queue has
    /// no block out. The node leaves the queue. Where the hot node has blocks
    /// out, the two change places: the hot node joins the queue at its end
    /// and the drained node becomes the hot node. Otherwise the chunk of the
    /// drained node goes back to the owner.
    pub open spec fn retire_front(self) -> ArenaStep {
        let arena = self.arena;
        let node = arena.nodes[0];
        let rest = arena.nodes.drop_first();
        if self.swaps() {
            ArenaStep {
                arena: ArenaView {
                    freed: arena.freed + 1,
                    hot: Some(node),
                    nodes: rest.push(arena.hot->0),
                    ..arena
                },
                ..self
            }
        } else {
            ArenaStep {
                arena: ArenaView { freed: arena.freed + 1, nodes: rest, ..arena },
                owner: self.owner.after_free(node.chunk),
                device: self.device.after_release(node.chunk.memory),
            }
        }
    }

    /// The arena after the oldest nodes of the queue have left it, as long as
    /// they had no block out.
    pub open spec fn cleanup(self) -> ArenaStep
        decreases self.hot_rank(), self.arena.nodes.len(),
    {
        if self.front_drained() {
            self.retire_front().cleanup()
        } else {
            self
        }
    }

    /// The invariant of an arena with its owner, but for the state of the
    /// oldest node.
    pub open spec fn wf_loose(self) -> bool {
        &&& self.arena.wf_loose()
        &&& self.owner.wf()
        &&& self.arena.backed_by(self.owner)
    }

    /// The invariant of an arena with its owner.
    pub open spec fn wf(self) -> bool {
        &&& self.arena.wf()
        &&& self.owner.wf()
        &&& self.arena.backed_by(self.owner)
    }
}

/// The bytes in the blocks that are out of the nodes `nodes`.
pub open spec fn bytes_out_of(nodes: Seq<NodeView>) -> nat
    decreases nodes.len(),
{
    if nodes.len() == 0 {
        0
    } else {
        bytes_out_of(nodes.drop_last()) + nodes.last().bytes_out()
    }
}

/// The blocks that are out of well-formed nodes have no more bytes than the
/// chunks of the nodes.
pub proof fn lemma_bytes_out_of(nodes: Seq<NodeView>)
    requires
        forall|i: int| 0 <= i < nodes.len() ==> (#[trigger] nodes[i]).wf(),
    ensures
        bytes_out_of(nodes) <= sum_of_sizes(nodes.map_values(|node: NodeView| node.chunk)),
    decreases nodes.len(),
{
    if nodes.len() > 0 {
        let init = nodes.drop_last();
        lemma_bytes_out_of(init);
        assert(nodes.map_values(|node: NodeView| node.chunk).drop_last() =~= init.map_values(
            |node: NodeView| node.chunk,
        ));
        assert(nodes.last().wf());
    }
}

/// A node that joins at the end adds the bytes of its blocks that are out.
pub proof fn lemma_bytes_out_push(nodes: Seq<NodeView>, node: NodeView)
    ensures
        bytes_out_of(nodes.push(node)) == bytes_out_of(nodes) + node.bytes_out(),
{
    assert(nodes.push(node).drop_last() =~= nodes);
}

/// The first node counts as the others do.
pub proof fn lemma_bytes_out_first(nodes: Seq<NodeView>)
    requires
        nodes.len() > 0,
    ensures
        bytes_out_of(nodes) == nodes[0].bytes_out() + bytes_out_of(nodes.drop_first()),
    decreases nodes.len(),
{
    if nodes.len() == 1 {
        assert(nodes.drop_last() =~= nodes.drop_first());
    } else {
        lemma_bytes_out_first(nodes.drop_last());
        assert(nodes.drop_last().drop_first() =~= nodes.drop_first().drop_last());
    }
}

/// A node that changes takes the bytes that it had out with it and brings
/// those that it has out now.
pub proof fn lemma_bytes_out_update(nodes: Seq<NodeView>, index: int, node: NodeView)
    requires
        0 <= index < nodes.len(),
    ensures
        bytes_out_of(nodes.update(index, node)) + nodes[index].bytes_out() == bytes_out_of(nodes)
            + node.bytes_out(),
    decreases nodes.len(),
{
    let updated = nodes.update(index, node);
    if index == nodes.len() - 1 {
        assert(updated.drop_last() =~= nodes.drop_last());
    } else {
        lemma_bytes_out_update(nodes.drop_last(), index, node);
        assert(updated.drop_last() =~= nodes.drop_last().update(index, node));
    }
}

/// The blocks that are out of the first nodes have no more bytes than those
/// that are out of all.
pub proof fn lemma_bytes_out_grows(nodes: Seq<NodeView>, count: int)
    requires
        0 <= count <= nodes.len(),
    ensures
        bytes_out_of(nodes.take(count)) <= bytes_out_of(nodes),
    decreases nodes.len() - count,
{
    if count < nodes.len() {
        lemma_bytes_out_grows(nodes, count + 1);
        assert(nodes.take(count + 1).drop_last() =~= nodes.take(count));
    } else {
        assert(nodes.take(count) =~= nodes);
    }
}

/// The chunk that is opened for a request holds the block.
pub proof fn lemma_chunk_bytes(arena: ArenaView, reqs: Requirements)
    requires
        arena.chunk_size > 0,
    ensures
        span(reqs) <= arena.chunk_bytes(reqs),
        arena.chunk_bytes(reqs) % (arena.chunk_size as int) == 0,
{
    let c = arena.chunk_size as int;
    let x = span(reqs) - 1;
    let q = x / c;
    vstd::arithmetic::div_mod::lemma_fundamental_div_mod(x, c);
    vstd::arithmetic::div_mod::lemma_mod_pos_bound(x, c);
    vstd::arithmetic::div_mod::lemma_mod_multiples_basic(q + 1, c);
    assert((q + 1) * c == c * q + c) by (nonlinear_arith);
}

/// The chunks of a queue from which the oldest node has left.
proof fn lemma_chunks_drop_first(nodes: Seq<NodeView>)
    requires
        nodes.len() > 0,
    ensures
        nodes.drop_first().map_values(|node: NodeView| node.chunk).to_multiset()
            =~= nodes.map_values(|node: NodeView| node.chunk).to_multiset().remove(nodes[0].chunk),
        nodes.map_values(|node: NodeView| node.chunk).to_multiset().count(nodes[0].chunk) > 0,
{
    let chunks = nodes.map_values(|node: NodeView| node.chunk);
    assert(nodes.drop_first().map_values(|node: NodeView| node.chunk) =~= chunks.remove(0));
    vstd::seq_lib::to_multiset_remove(chunks, 0);
    chunks.to_multiset_ensures();
    assert(chunks.contains(chunks[0]));
}

/// The chunks of a queue that a node has joined.
proof fn lemma_chunks_push(nodes: Seq<NodeView>, node: NodeView)
    ensures
        nodes.push(node).map_values(|node: NodeView| node.chunk).to_multiset()
            =~= nodes.map_values(|node: NodeView| node.chunk).to_multiset().insert(node.chunk),
{
    let chunks = nodes.map_values(|node: NodeView| node.chunk);
    assert(nodes.push(node).map_values(|node: NodeView| node.chunk) =~= chunks.push(node.chunk));
    vstd::seq_lib::to_multiset_build(chunks, node.chunk);
}

/// The chunks of a queue in which a node has taken a block back.
proof fn lemma_chunks_update(nodes: Seq<NodeView>, index: int, node: NodeView)
    requires
        0 <= index < nodes.len(),
        node.chunk == nodes[index].chunk,
    ensures
        nodes.update(index, node).map_values(|node: NodeView| node.chunk) =~= nodes.map_values(
            |node: NodeView| node.chunk,
        ),
{
}

impl ArenaStep {
    /// A step of the cleanup keeps the invariant but for the state of the
    /// oldest node, and changes of no block how often it is out.
    pub proof fn lemma_retire_front(self)
        requires
            self.wf_loose(),
            self.front_drained(),
        ensures
            self.retire_front().wf_loose(),
            self.retire_front().arena.bytes_out() == self.arena.bytes_out(),
            self.retire_front().owner.live.subset_of(self.owner.live),
            self.retire_front().owner.live.add(self.arena.chunks()) =~= self.owner.live.add(
                self.retire_front().arena.chunks(),
            ),
            forall|block: Extent, tag: int|
                self.retire_front().arena.count(block, tag) == #[trigger] self.arena.count(
                    block,
                    tag,
                ),
    {
        broadcast use group_multiset_axioms;

        let arena = self.arena;
        let node = arena.nodes[0];
        let rest = arena.nodes.drop_first();
        let hot = arena.hot->0;
        let next = self.retire_front();
        lemma_chunks_drop_first(arena.nodes);
        lemma_bytes_out_first(arena.nodes);
        lemma_bytes_out_push(rest, hot);
        node.lemma_is_used();
        assert(node.live.len() == 0);
        assert(forall|i: int| 0 <= i < rest.len() ==> rest[i] == arena.nodes[i + 1]);
        if self.swaps() {
            lemma_chunks_push(rest, hot);
            assert(next.arena.chunks() =~= arena.chunks());
            assert forall|block: Extent, tag: int|
                next.arena.count(block, tag) == #[trigger] arena.count(block, tag) by {
                let index = tag - arena.freed;
                if 1 <= index < arena.nodes.len() {
                    assert(next.arena.nodes[index - 1] == arena.nodes[index]);
                } else if index == arena.nodes.len() {
                    assert(next.arena.nodes[index - 1] == hot);
                } else if index == 0 {
                    assert(node.live.count(block) == 0);
                } else if index == arena.nodes.len() + 1 {
                    assert(node.live.count(block) == 0);
                }
            }
        } else {
            self.owner.lemma_after_free(node.chunk);
            assert(next.arena.chunks() =~= arena.chunks().remove(node.chunk));
            assert forall|block: Extent, tag: int|
                next.arena.count(block, tag) == #[trigger] arena.count(block, tag) by {
                let index = tag - arena.freed;
                if 1 <= index < arena.nodes.len() {
                    assert(next.arena.nodes[index - 1] == arena.nodes[index]);
                } else if index == 0 {
                    assert(node.live.count(block) == 0);
                }
            }
        }
    }

    /// The cleanup restores the invariant, and changes of no block how often
    /// it is out.
    pub proof fn lemma_cleanup(self)
        requires
            self.wf_loose(),
        ensures
            self.cleanup().wf(),
            self.cleanup().arena.bytes_out() == self.arena.bytes_out(),
            self.cleanup().owner.live.subset_of(self.owner.live),
            self.cleanup().arena.id == self.arena.id,
            self.cleanup().arena.chunk_size == self.arena.chunk_size,
            self.cleanup().owner.id == self.owner.id,
            self.cleanup().device.granted == self.device.granted,
            self.cleanup().owner.live.add(self.arena.chunks()) =~= self.owner.live.add(
                self.cleanup().arena.chunks(),
            ),
            forall|block: Extent, tag: int|
                self.cleanup().arena.count(block, tag) == #[trigger] self.arena.count(block, tag),
        decreases self.hot_rank(), self.arena.nodes.len(),
    {
        broadcast use group_multiset_axioms;

        if self.front_drained() {
            self.lemma_retire_front();
            self.retire_front().lemma_cleanup();
            let middle = self.retire_front();
            let last = self.cleanup();
            assert forall|e: Extent|
                last.owner.live.add(self.arena.chunks()).count(e) == self.owner.live.add(
                    last.arena.chunks(),
                ).count(e) by {
                assert(middle.owner.live.add(self.arena.chunks()).count(e) == self.owner.live.add(
                    middle.arena.chunks(),
                ).count(e));
                assert(last.owner.live.add(middle.arena.chunks()).count(e)
                    == middle.owner.live.add(last.arena.chunks()).count(e));
            }
        }
    }
}

impl ArenaView {
    /// A request keeps the invariant of the arena and its owner. Where it
    /// succeeds, the new block is out once more than before under the tag of
    /// the hot node, and nothing else changes in what is out.
    pub proof fn lemma_after_alloc(self, owner: RootView, device: ExchangeView, reqs: Requirements)
        requires
            (ArenaStep { arena: self, owner, device }).wf(),
        ensures
            self.after_alloc(owner, device, reqs).wf(),
            self.after_alloc(owner, device, reqs).owner.live.subset_of(
                owner.live.insert(self.opened_chunk(device, reqs)),
            ),
            self.after_alloc(owner, device, reqs).owner.live.add(self.chunks()) =~= owner.live.add(
                self.after_alloc(owner, device, reqs).arena.chunks(),
            ),
            self.alloc_error(owner, device, reqs) is Some ==> self.after_alloc(owner, device, reqs)
                == (ArenaStep { arena: self, owner, device }),
            self.alloc_error(owner, device, reqs) is None ==> {
                let next = self.after_alloc(owner, device, reqs).arena;
                let block = self.allocated(device, reqs);
                &&& block.wf()
                &&& block.size() == span(reqs)
                &&& next.bytes_out() == self.bytes_out() + span(reqs)
                &&& self.count(block, next.next_tag()) == 0
                &&& forall|other: Extent, tag: int|
                    #[trigger] next.count(other, tag) == self.count(other, tag) + (if other
                        == block && tag == next.next_tag() {
                        1nat
                    } else {
                        0nat
                    })
            },
    {
        broadcast use group_multiset_axioms;

        let step = self.after_alloc(owner, device, reqs);
        let next = step.arena;
        let block = self.allocated(device, reqs);
        if !mask_allows(reqs.type_mask, self.id.0 as int) {
        } else if self.bumps(reqs) {
            let hot = self.hot->0;
            crate::align::lemma_alignment_shift_bounds(reqs.alignment, hot.offset() as u64);
            hot.lemma_after_alloc(reqs);
            lemma_chunks_unchanged(self, next);
            assert forall|other: Extent, tag: int|
                #[trigger] next.count(other, tag) == self.count(other, tag) + (if other == block
                    && tag == next.next_tag() {
                    1nat
                } else {
                    0nat
                }) by {}
        } else if self.opens(owner, device, reqs) {
            lemma_chunk_bytes(self, reqs);
            let chunk = self.opened_chunk(device, reqs);
            let fresh = NodeView::fresh(chunk);
            NodeView::lemma_fresh(chunk);
            assert(fresh.padding(reqs) == 0);
            fresh.lemma_after_alloc(reqs);
            let node = fresh.after_alloc(reqs);
            owner.lemma_after_alloc(chunk);
            let owner1 = owner.after_alloc(chunk);
            assert forall|other: Extent| node.live.count(other) == (if other == block {
                1nat
            } else {
                0nat
            }) by {}
            match self.hot {
                None => {
                    assert(self.nodes.len() == 0);
                    assert(next.chunks() =~= self.chunks().insert(chunk));
                    assert forall|other: Extent, tag: int|
                        #[trigger] next.count(other, tag) == self.count(other, tag) + (if other
                            == block && tag == next.next_tag() {
                            1nat
                        } else {
                            0nat
                        }) by {}
                },
                Some(hot) => {
                    if hot.is_used() {
                        lemma_chunks_push(self.nodes, hot);
                        lemma_bytes_out_push(self.nodes, hot);
                        assert(next.chunks() =~= self.chunks().insert(chunk));
                        assert forall|i: int| 0 <= i < next.nodes.len() implies (
                        #[trigger] next.nodes[i]).wf() by {
                            if i < self.nodes.len() {
                                assert(next.nodes[i] == self.nodes[i]);
                            }
                        }
                        assert(next.nodes[0].is_used()) by {
                            if self.nodes.len() > 0 {
                                assert(next.nodes[0] == self.nodes[0]);
                            }
                        }
                        assert forall|other: Extent, tag: int|
                            #[trigger] next.count(other, tag) == self.count(other, tag) + (
                            if other == block && tag == next.next_tag() {
                                1nat
                            } else {
                                0nat
                            }) by {
                            let index = tag - self.freed;
                            if 0 <= index < self.nodes.len() {
                                assert(next.nodes[index] == self.nodes[index]);
                            } else if index == self.nodes.len() {
                                assert(next.nodes[index] == hot);
                            }
                        }
                    } else {
                        hot.lemma_is_used();
                        assert(owner1.live.count(hot.chunk) > 0);
                        owner1.lemma_after_free(hot.chunk);
                        assert(next.chunks() =~= self.chunks().insert(chunk).remove(hot.chunk));
                        assert forall|other: Extent, tag: int|
                            #[trigger] next.count(other, tag) == self.count(other, tag) + (
                            if other == block && tag == next.next_tag() {
                                1nat
                            } else {
                                0nat
                            }) by {
                            assert(hot.live.count(other) == 0);
                        }
                    }
                },
            }
        } else {
        }
    }

    /// Taking back a block that is out keeps the invariant of the arena and
    /// its owner. The block is out once less than before, and nothing else
    /// changes in what is out.
    pub proof fn lemma_after_free(
        self,
        owner: RootView,
        device: ExchangeView,
        block: Extent,
        tag: int,
    )
        requires
            (ArenaStep { arena: self, owner, device }).wf(),
            self.owns(block, tag),
        ensures
            self.after_free(owner, device, block, tag).wf(),
            self.after_free(owner, device, block, tag).arena.bytes_out() + block.size()
                == self.bytes_out(),
            self.after_free(owner, device, block, tag).owner.live.subset_of(owner.live),
            self.after_free(owner, device, block, tag).arena.id == self.id,
            self.after_free(owner, device, block, tag).arena.chunk_size == self.chunk_size,
            self.after_free(owner, device, block, tag).owner.id == owner.id,
            self.after_free(owner, device, block, tag).device.granted == device.granted,
            self.after_free(owner, device, block, tag).owner.live.add(self.chunks())
                =~= owner.live.add(self.after_free(owner, device, block, tag).arena.chunks()),
            0 <= tag - self.freed <= self.nodes.len(),
            (ArenaStep { arena: self.credited(block, tag), owner, device }).wf_loose(),
            forall|other: Extent, other_tag: int|
                #[trigger] self.after_free(owner, device, block, tag).arena.count(other, other_tag)
                    == self.count(other, other_tag) - (if other == block && other_tag == tag {
                    1int
                } else {
                    0int
                }),
    {
        broadcast use group_multiset_axioms;

        let index = tag - self.freed;
        let credited = self.credited(block, tag);
        let step = ArenaStep { arena: credited, owner, device };
        if index == self.nodes.len() {
            self.hot->0.lemma_after_free(block);
            lemma_chunks_unchanged(self, credited);
            assert(credited.wf());
        } else {
            let node = self.nodes[index];
            node.lemma_after_free(block);
            lemma_chunks_update(self.nodes, index, node.after_free(block));
            lemma_bytes_out_update(self.nodes, index, node.after_free(block));
            assert(credited.chunks() =~= self.chunks());
            assert forall|i: int| 0 <= i < credited.nodes.len() implies (
            #[trigger] credited.nodes[i]).wf() by {
                if i != index {
                    assert(credited.nodes[i] == self.nodes[i]);
                }
            }
            step.lemma_cleanup();
            assert forall|other: Extent, other_tag: int|
                #[trigger] credited.count(other, other_tag) == self.count(other, other_tag) - (
                if other == block && other_tag == tag {
                    1int
                } else {
                    0int
                }) by {
                let at = other_tag - self.freed;
                if 0 <= at < self.nodes.len() && at != index {
                    assert(credited.nodes[at] == self.nodes[at]);
                }
            }
            assert forall|other: Extent, other_tag: int|
                #[trigger] step.cleanup().arena.count(other, other_tag) == self.count(
                    other,
                    other_tag,
                ) - (if other == block && other_tag == tag {
                    1int
                } else {
                    0int
                }) by {
                assert(step.cleanup().arena.count(other, other_tag) == credited.count(
                    other,
                    other_tag,
                ));
            }
        }
    }

    /// The chunk at place `place` of the arena: the places of the queue come
    /// first, the hot node last.
    pub open spec fn chunk_at(self, place: int) -> Extent {
        if place == self.nodes.len() {
            self.hot->0.chunk
        } else {
            self.nodes[place].chunk
        }
    }

    /// A block that is out has bytes in it and lies in the chunk at the place
    /// that its tag names, which is one of the chunks of the arena.
    pub proof fn lemma_block_in_chunk(self, block: Extent, tag: int)
        requires
            self.wf(),
            self.count(block, tag) > 0,
        ensures
            block.size() > 0,
            0 <= tag - self.freed <= self.nodes.len(),
            self.chunk_at(tag - self.freed).contains(block),
            self.chunks().count(self.chunk_at(tag - self.freed)) > 0,
    {
        broadcast use group_multiset_axioms;

        let place = tag - self.freed;
        let chunks = self.queued_chunks();
        chunks.to_multiset_ensures();
        if place == self.nodes.len() {
            self.hot->0.lemma_after_free(block);
        } else {
            self.nodes[place].lemma_after_free(block);
            assert(chunks[place] == self.nodes[place].chunk);
            assert(chunks.contains(self.nodes[place].chunk));
        }
    }

    /// A chunk that stands at two places of the arena occurs twice among its
    /// chunks.
    pub proof fn lemma_chunk_twice(self, first: int, second: int)
        requires
            self.wf(),
            0 <= first <= self.nodes.len(),
            0 <= second <= self.nodes.len(),
            first != second,
            self.hot is Some,
            self.chunk_at(first) == self.chunk_at(second),
        ensures
            self.chunks().count(self.chunk_at(first)) >= 2,
    {
        broadcast use group_multiset_axioms;

        let chunks = self.queued_chunks();
        chunks.to_multiset_ensures();
        if first == self.nodes.len() {
            assert(chunks[second] == self.nodes[second].chunk);
            assert(chunks.contains(self.chunk_at(first)));
        } else if second == self.nodes.len() {
            assert(chunks[first] == self.nodes[first].chunk);
            assert(chunks.contains(self.chunk_at(first)));
        } else {
            assert(chunks[first] == chunks[second]);
            crate::extent::lemma_two_places(chunks, first, second);
        }
    }

    /// The blocks that are out share no byte, as long as the chunks of the
    /// arena share none.
    pub proof fn lemma_blocks_apart(self, first: Extent, first_tag: int, second: Extent, second_tag: int)
        requires
            self.wf(),
            pairwise_disjoint(self.chunks()),
            self.count(first, first_tag) > 0,
            self.count(second, second_tag) > 0,
            first != second || first_tag != second_tag || self.count(first, first_tag) >= 2,
        ensures
            first.disjoint(second),
    {
        self.lemma_block_in_chunk(first, first_tag);
        self.lemma_block_in_chunk(second, second_tag);
        let place = first_tag - self.freed;
        let other = second_tag - self.freed;
        if place == other {
            let node = if place == self.nodes.len() {
                self.hot->0
            } else {
                self.nodes[place]
            };
            assert(node.wf());
            assert(first.disjoint(second));
        } else {
            if self.chunk_at(place) == self.chunk_at(other) {
                self.lemma_chunk_twice(place, other);
            }
            crate::extent::lemma_disjoint_hosts(
                self.chunks(),
                self.chunk_at(place),
                self.chunk_at(other),
                first,
                second,
            );
        }
    }

    /// A block that is handed out and taken back leaves the arena in use or
    /// not as it was before, and every block out as often as before.
    pub proof fn lemma_round_trip(
        self,
        owner: RootView,
        device: ExchangeView,
        reqs: Requirements,
        later: ExchangeView,
    )
        requires
            (ArenaStep { arena: self, owner, device }).wf(),
            self.alloc_error(owner, device, reqs) is None,
        ensures
            ({
                let block = self.allocated(device, reqs);
                let next = self.after_alloc(owner, device, reqs);
                let tag = next.arena.next_tag();
                let last = next.arena.after_free(next.owner, later, block, tag).arena;
                &&& next.arena.owns(block, tag)
                &&& last.is_used() == self.is_used()
                &&& forall|other: Extent, other_tag: int|
                    #[trigger] last.count(other, other_tag) == self.count(other, other_tag)
            }),
    {
        let block = self.allocated(device, reqs);
        let next = self.after_alloc(owner, device, reqs);
        let tag = next.arena.next_tag();
        self.lemma_after_alloc(owner, device, reqs);
        assert(next.arena.count(block, tag) == self.count(block, tag) + 1);
        assert((ArenaStep { arena: next.arena, owner: next.owner, device: later }).wf());
        next.arena.lemma_after_free(next.owner, later, block, tag);
        let last = next.arena.after_free(next.owner, later, block, tag).arena;
        assert forall|other: Extent, other_tag: int| #[trigger]
            last.count(other, other_tag) == self.count(other, other_tag) by {
            assert(next.arena.count(other, other_tag) == self.count(other, other_tag) + (
            if other == block && other_tag == tag {
                1nat
            } else {
                0nat
            }));
        }
        self.lemma_is_used();
        last.lemma_is_used();
        if self.is_used() {
            let (e, t) = choose|e: Extent, t: int| self.count(e, t) > 0;
            assert(last.count(e, t) > 0);
        }
        if last.is_used() {
            let (e, t) = choose|e: Extent, t: int| last.count(e, t) > 0;
            assert(self.count(e, t) > 0);
        }
    }

    /// Whether every chunk of the queue has blocks out.
    pub open spec fn all_in_use(self) -> bool {
        forall|place: int| 0 <= place < self.nodes.len() ==> (#[trigger] self.nodes[place]).is_used()
    }

    /// While the blocks come back oldest chunk first, every chunk of the queue
    /// has blocks out: the arena keeps no chunk without blocks out but its
    /// hot node. Here a block of the oldest chunk comes back.
    pub proof fn lemma_free_in_order(
        self,
        owner: RootView,
        device: ExchangeView,
        block: Extent,
        tag: int,
    )
        requires
            (ArenaStep { arena: self, owner, device }).wf(),
            self.all_in_use(),
            self.owns(block, tag),
            tag == self.freed,
        ensures
            self.after_free(owner, device, block, tag).arena.all_in_use(),
    {
        reveal_with_fuel(ArenaStep::cleanup, 3);
        self.lemma_after_free(owner, device, block, tag);
        if self.nodes.len() > 0 {
            let credited = ArenaStep { arena: self.credited(block, tag), owner, device };
            assert forall|place: int| 1 <= place < credited.arena.nodes.len() implies (
            #[trigger] credited.arena.nodes[place]).is_used() by {
                assert(credited.arena.nodes[place] == self.nodes[place]);
            }
            if credited.front_drained() {
                let next = credited.retire_front();
                let rest = credited.arena.nodes.drop_first();
                assert forall|place: int| 0 <= place < rest.len() implies (
                #[trigger] rest[place]).is_used() by {
                    assert(rest[place] == credited.arena.nodes[place + 1]);
                }
                assert forall|place: int| 0 <= place < next.arena.nodes.len() implies (
                #[trigger] next.arena.nodes[place]).is_used() by {
                    if place < rest.len() {
                        assert(next.arena.nodes[place] == rest[place]);
                    }
                }
                assert(!next.front_drained());
            }
        }
    }

    /// While the blocks come back oldest chunk first, every chunk of the queue
    /// has blocks out. Here a block is handed out.
    pub proof fn lemma_alloc_in_order(self, owner: RootView, device: ExchangeView, reqs: Requirements)
        requires
            (ArenaStep { arena: self, owner, device }).wf(),
            self.all_in_use(),
        ensures
            self.after_alloc(owner, device, reqs).arena.all_in_use(),
    {
        let next = self.after_alloc(owner, device, reqs).arena;
        assert forall|place: int| 0 <= place < next.nodes.len() implies (
        #[trigger] next.nodes[place]).is_used() by {
            if place < self.nodes.len() {
                assert(next.nodes[place] == self.nodes[place]);
            }
        }
    }

    /// The oldest chunk of the queue always has blocks out, so that a chunk
    /// without blocks out is kept only behind one that has some, or as the
    /// hot node. An arena without blocks out holds no chunk but that of its
    /// hot node.
    pub proof fn lemma_reclaimed(self)
        requires
            self.wf(),
        ensures
            self.nodes.len() > 0 ==> exists|block: Extent| self.count(block, self.freed as int) > 0,
            !self.is_used() ==> self.nodes.len() == 0 && self.chunks().len() <= 1,
    {
        broadcast use group_multiset_axioms;

        if self.nodes.len() > 0 {
            let node = self.nodes[0];
            node.lemma_is_used();
            axiom_choose_count(node.live);
            assert(self.count(node.live.choose(), self.freed as int) > 0);
        } else {
            self.queued_chunks().to_multiset_ensures();
        }
    }

    /// An arena is in use exactly when one of its blocks is out.
    pub proof fn lemma_is_used(self)
        requires
            self.wf(),
        ensures
            self.is_used() <==> exists|block: Extent, tag: int| self.count(block, tag) > 0,
    {
        broadcast use group_multiset_axioms;

        if self.nodes.len() > 0 {
            let node = self.nodes[0];
            node.lemma_is_used();
            axiom_choose_count(node.live);
            assert(self.count(node.live.choose(), self.freed as int) > 0);
        } else if self.hot is Some && self.hot->0.is_used() {
            let node = self.hot->0;
            node.lemma_is_used();
            axiom_choose_count(node.live);
            assert(self.count(node.live.choose(), self.freed as int) > 0);
        }
        if exists|block: Extent, tag: int| self.count(block, tag) > 0 {
            let (block, tag) = choose|block: Extent, tag: int| self.count(block, tag) > 0;
            if self.nodes.len() == 0 {
                let node = self.hot->0;
                node.lemma_is_used();
                assert(node.live.count(block) > 0);
                assert(node.live.len() > 0);
            }
        }
    }

    /// An arena without blocks out holds at most one chunk, that of its hot
    /// node, and ends by returning it.
    pub proof fn lemma_after_dispose(self, owner: RootView, device: ExchangeView)
        requires
            (ArenaStep { arena: self, owner, device }).wf(),
            !self.is_used(),
        ensures
            self.chunks().len() <= 1,
            self.after_dispose(owner, device).owner.live.add(self.chunks()) =~= owner.live,
            self.after_dispose(owner, device).owner.wf(),
            self.after_dispose(owner, device).arena.chunks().len() == 0,
            self.hot is Some ==> owner.live.count(self.hot->0.chunk) > 0,
    {
        broadcast use group_multiset_axioms;

        self.queued_chunks().to_multiset_ensures();
        match self.hot {
            Some(hot) => {
                owner.lemma_after_free(hot.chunk);
            },
            None => {},
        }
    }
}

/// The block that a request gets starts at a multiple of the alignment that
/// was asked for, where that is a power of two.
pub proof fn lemma_alloc_aligned(arena: ArenaView, device: ExchangeView, reqs: Requirements)
    requires
        arena.wf(),
        is_power_of_two(reqs.alignment as int),
    ensures
        arena.allocated(device, reqs).start % (reqs.alignment as int) == 0,
{
    if arena.bumps(reqs) {
        lemma_alignment_shift(reqs.alignment, arena.hot->0.offset() as u64);
    } else {
        lemma_alignment_shift(reqs.alignment, 0);
    }
}

/// Two arenas with the same chunks in the queue and in the hot node hold the
/// same chunks.
proof fn lemma_chunks_unchanged(before: ArenaView, after: ArenaView)
    requires
        before.nodes == after.nodes,
        before.hot is Some <==> after.hot is Some,
        before.hot is Some ==> before.hot->0.chunk == after.hot->0.chunk,
    ensures
        before.chunks() == after.chunks(),
{
}

impl View for ArenaAllocator {
    type V = ArenaView;

    closed spec fn view(&self) -> ArenaView {
        ArenaView {
            id: self.id,
            chunk_size: self.chunk_size as nat,
            freed: self.freed as nat,
            hot: match self.hot {
                Some(node) => Some(node@),
                None => None,
            },
            nodes: self.nodes@.map_values(|node: ArenaNode| node@),
        }
    }
}

impl ArenaAllocator {
    /// The invariant of the arena.
    pub open spec fn wf(&self) -> bool {
        self@.wf()
    }

    /// The arena with its owner and the exchange, as one value.
    pub open spec fn step(&self, owner: &RootAllocator, device: &Exchange) -> ArenaStep {
        ArenaStep { arena: self@, owner: owner@, device: device@ }
    }

    /// An arena for memory type `id` that takes its chunks in multiples of
    /// `chunk_size` bytes.
    pub fn new(id: MemoryTypeId, chunk_size: u64) -> (arena: ArenaAllocator)
        ensures
            arena.wf(),
            arena@ == ArenaView::empty(id, chunk_size as nat),
            arena@.chunks() == Multiset::<Extent>::empty(),
    {
        let arena = ArenaAllocator { id, chunk_size, freed: 0, hot: None, nodes: VecDeque::new() };
        proof {
            assert(arena@.nodes =~= Seq::empty());
            arena@.queued_chunks().to_multiset_ensures();
            lemma_multiset_empty_len(arena@.chunks());
        }
        arena
    }

    /// Tells whether blocks of the arena are out.
    pub fn is_used(&self) -> (used: bool)
        ensures
            used == self@.is_used(),
    {
        self.nodes.len() != 0 || match &self.hot {
            Some(node) => node.is_used(),
            None => false,
        }
    }

    /// The bytes in the blocks that are out.
    pub(crate) fn used(&self) -> (bytes: u64)
        requires
            self.wf(),
            self@.bytes_out() <= u64::MAX,
        ensures
            bytes == self@.bytes_out(),
    {
        let mut bytes: u64 = match &self.hot {
            Some(node) => node.used(),
            None => 0,
        };
        let ghost hot = bytes;
        let mut index: usize = 0;
        while index < self.nodes.len()
            invariant
                self.wf(),
                index <= self@.nodes.len(),
                bytes == hot + bytes_out_of(self@.nodes.take(index as int)),
                hot + bytes_out_of(self@.nodes) <= u64::MAX,
            decreases self@.nodes.len() - index,
        {
            proof {
                let next = self@.nodes.take(index + 1);
                assert(next.drop_last() =~= self@.nodes.take(index as int));
                assert(next.last() == self@.nodes[index as int]);
                lemma_bytes_out_grows(self@.nodes, index + 1);
            }
            bytes += self.nodes[index].used();
            index += 1;
        }
        assert(self@.nodes.take(index as int) =~= self@.nodes);
        bytes
    }

    /// The memory type that the arena allocates.
    pub fn memory_type(&self) -> (id: MemoryTypeId)
        ensures
            id == self@.id,
    {
        self.id
    }

    /// The size that the chunks are a multiple of.
    pub fn chunk_size(&self) -> (size: u64)
        ensures
            size == self@.chunk_size,
    {
        self.chunk_size
    }

    /// The chunk that `block` was carved from.
    pub fn underlying_block(&self, block: &ArenaBlock) -> (chunk: &RawBlock)
        requires
            self.wf(),
            self@.owns(block.extent(), block.tag()),
        ensures
            chunk@.contains(block.extent()),
            chunk@ == (if block.tag() - self@.freed == self@.nodes.len() {
                self@.hot->0.chunk
            } else {
                self@.nodes[block.tag() - self@.freed].chunk
            }),
    {
        let index = (block.1 - self.freed) as usize;
        if self.nodes.len() == index {
            proof {
                self@.hot->0.lemma_after_free(block.extent());
            }
            self.hot.as_ref().unwrap().chunk()
        } else {
            proof {
                self@.nodes[index as int].lemma_after_free(block.extent());
            }
            self.nodes[index].chunk()
        }
    }

    /// The size of the chunk to open for `reqs`, where there is one and it
    /// fits in 64 bits.
    fn chunk_bytes(&self, reqs: Requirements) -> (bytes: Option<u64>)
        requires
            self.wf(),
        ensures
            bytes == (if self@.chunk_size > 0 && self@.chunk_bytes(reqs) <= u64::MAX {
                Some(self@.chunk_bytes(reqs) as u64)
            } else {
                None
            }),
    {
        if self.chunk_size == 0 {
            return None;
        }
        let block: u64 = if reqs.size == 0 {
            1
        } else {
            reqs.size
        };
        let count = (block - 1) / self.chunk_size + 1;
        count.checked_mul(self.chunk_size)
    }

    /// Tells whether the hot node serves `reqs`.
    fn bumps(&self, reqs: Requirements) -> (bumps: bool)
        requires
            self.wf(),
        ensures
            bumps == self@.bumps(reqs),
    {
        match &self.hot {
            Some(node) => node.fits(reqs),
            None => false,
        }
    }

    /// The memory object that the device must grant before `allocate` can
    /// serve `reqs`, if it needs one.
    pub fn demand(&self, owner: &RootAllocator, reqs: Requirements) -> (demand: Option<Demand>)
        requires
            self.wf(),
            owner.wf(),
        ensures
            demand == self@.demand(owner@, reqs),
    {
        if !type_allowed(reqs.type_mask, self.id.0) || self.bumps(reqs) {
            return None;
        }
        if self.freed + self.nodes.len() as u64 == u64::MAX {
            return None;
        }
        match self.chunk_bytes(reqs) {
            Some(size) => if size <= u64::MAX - owner.used() {
                Some(Demand { memory_type: self.id, size })
            } else {
                None
            },
            None => None,
        }
    }

    /// Hands out a block for `reqs`.
    ///
    /// Fails with `NoCompatibleMemoryType` where `reqs` does not accept the
    /// memory type of the arena. Otherwise the hot node serves the request
    /// where it has room. Where it has not, a new chunk is taken from `owner`
    /// and becomes the hot node: this fails with `OutOfMemory` where the
    /// device has granted no memory object, where `chunk_size` is zero, or
    /// where a size or a tag would not fit in 64 bits. A failed request
    /// changes nothing.
    pub fn allocate(
        &mut self,
        owner: &mut RootAllocator,
        device: &mut Exchange,
        request: (),
        reqs: Requirements,
    ) -> (result: Result<ArenaBlock, MemoryError>)
        requires
            old(self).step(old(owner), old(device)).wf(),
        ensures
            final(self).step(final(owner), final(device)).wf(),
            final(self).step(final(owner), final(device)) == old(self)@.after_alloc(
                old(owner)@,
                old(device)@,
                reqs,
            ),
            match result {
                Ok(block) => {
                    &&& old(self)@.alloc_error(old(owner)@, old(device)@, reqs) is None
                    &&& block.extent() == old(self)@.allocated(old(device)@, reqs)
                    &&& block.tag() == final(self)@.next_tag()
                    &&& block.extent().size() == span(reqs)
                    &&& is_power_of_two(reqs.alignment as int) ==> block.extent().start % (
                    reqs.alignment as int) == 0
                    &&& mask_allows(reqs.type_mask, old(self)@.id.0 as int)
                    &&& forall|other: Extent, tag: int|
                        #[trigger] final(self)@.count(other, tag) == old(self)@.count(other, tag)
                            + (if other == block.extent() && tag == block.tag() {
                            1nat
                        } else {
                            0nat
                        })
                },
                Err(error) => old(self)@.alloc_error(old(owner)@, old(device)@, reqs) == Some(
                    error,
                ),
            },
    {
        broadcast use group_multiset_axioms;

        proof {
            self@.lemma_after_alloc(owner@, device@, reqs);
        }
        if !type_allowed(reqs.type_mask, self.id.0) {
            return Err(MemoryError::NoCompatibleMemoryType);
        }
        let index = self.freed + self.nodes.len() as u64;
        if self.bumps(reqs) {
            proof {
                let hot = self@.hot->0;
                lemma_alignment_shift_bounds(reqs.alignment, hot.offset() as u64);
                if is_power_of_two(reqs.alignment as int) {
                    lemma_alignment_shift(reqs.alignment, hot.offset() as u64);
                }
            }
            let mut node = self.hot.take().unwrap();
            let block = node.allocate(reqs).unwrap();
            self.hot = Some(node);
            return Ok(ArenaBlock::new(block, index));
        }
        let chunk = match self.chunk_bytes(reqs) {
            Some(chunk) => chunk,
            None => {
                return Err(MemoryError::OutOfMemory);
            },
        };
        if index == u64::MAX {
            return Err(MemoryError::OutOfMemory);
        }
        let chunk_reqs = Requirements {
            type_mask: 1u64 << (self.id.0 as u64),
            size: chunk,
            alignment: reqs.alignment,
        };
        let chunk_block = match owner.allocate(device, (), chunk_reqs) {
            Ok(block) => block,
            Err(error) => {
                return Err(error);
            },
        };
        let mut node = ArenaNode::new(chunk_block);
        proof {
            lemma_chunk_bytes(self@, reqs);
            lemma_alignment_shift_bounds(reqs.alignment, 0);
            if is_power_of_two(reqs.alignment as int) {
                lemma_alignment_shift(reqs.alignment, 0);
            }
        }
        let block = node.allocate(reqs).unwrap();
        match self.hot.take() {
            None => {},
            Some(hot) => match hot.dispose(owner, device) {
                Ok(()) => {},
                Err(hot) => {
                    self.nodes.push_back(hot);
                    assert(self@.nodes =~= old(self)@.nodes.push(hot@));
                },
            },
        }
        self.hot = Some(node);
        let index = self.freed + self.nodes.len() as u64;
        Ok(ArenaBlock::new(block, index))
    }

    /// Tells whether the oldest node of the queue has no block out.
    fn front_drained(&self) -> (drained: bool)
        ensures
            drained == (self@.nodes.len() > 0 && !self@.nodes[0].is_used()),
    {
        self.nodes.len() > 0 && !self.nodes[0].is_used()
    }

    /// Lets the oldest nodes of the queue leave it, as long as they have no
    /// block out.
    fn cleanup(&mut self, owner: &mut RootAllocator, device: &mut Exchange)
        requires
            old(self).step(old(owner), old(device)).wf_loose(),
        ensures
            final(self).step(final(owner), final(device)) == old(self).step(
                old(owner),
                old(device),
            ).cleanup(),
    {
        broadcast use group_multiset_axioms;

        let ghost start = self.step(owner, device);
        while self.front_drained()
            invariant
                self.step(owner, device).wf_loose(),
                self.step(owner, device).cleanup() == start.cleanup(),
            decreases self.step(owner, device).hot_rank(), self.nodes.len(),
        {
            let ghost before = self.step(owner, device);
            proof {
                before.lemma_retire_front();
                lemma_chunks_drop_first(before.arena.nodes);
            }
            let node = self.nodes.pop_front().unwrap();
            let hot = self.hot.take().unwrap();
            let tag = self.freed + self.nodes.len() as u64 + 1;
            if hot.is_used() && tag < u64::MAX {
                self.nodes.push_back(hot);
                self.hot = Some(node);
            } else {
                self.hot = Some(hot);
                node.release(owner, device);
            }
            self.freed += 1;
            assert(self@.nodes =~= before.retire_front().arena.nodes);
            assert(self.step(owner, device) == before.retire_front());
        }
    }

    /// Takes back a block of the arena. Where the block came from a node of
    /// the queue, the oldest nodes leave the queue as long as they have no
    /// block out: the first of them changes places with the hot node if that
    /// has blocks out, and the chunks of the others go back to `owner`.
    pub fn free(&mut self, owner: &mut RootAllocator, device: &mut Exchange, block: ArenaBlock)
        requires
            old(self).step(old(owner), old(device)).wf(),
            old(self)@.owns(block.extent(), block.tag()),
        ensures
            final(self).step(final(owner), final(device)).wf(),
            final(self).step(final(owner), final(device)) == old(self)@.after_free(
                old(owner)@,
                old(device)@,
                block.extent(),
                block.tag(),
            ),
            forall|other: Extent, tag: int|
                #[trigger] final(self)@.count(other, tag) == old(self)@.count(other, tag) - (
                if other == block.extent() && tag == block.tag() {
                    1int
                } else {
                    0int
                }),
    {
        proof {
            self@.lemma_after_free(owner@, device@, block.extent(), block.tag());
        }
        let ghost credited = self@.credited(block.extent(), block.tag());
        let (block, tag) = block.into_parts();
        let index = (tag - self.freed) as usize;
        if index == self.nodes.len() {
            let mut hot = self.hot.take().unwrap();
            hot.free(block);
            self.hot = Some(hot);
        } else {
            let mut node = self.nodes.remove(index).unwrap();
            node.free(block);
            self.nodes.insert(index, node);
            assert(self@.nodes =~= credited.nodes);
            self.cleanup(owner, device);
        }
    }

    /// Ends the arena and returns the chunk of its hot node to `owner`. Where
    /// blocks are out, the arena comes back unchanged.
    pub fn dispose(self, owner: &mut RootAllocator, device: &mut Exchange) -> (result: Result<
        (),
        ArenaAllocator,
    >)
        requires
            self.step(old(owner), old(device)).wf(),
        ensures
            final(owner).wf(),
            match result {
                Ok(()) => {
                    &&& !self@.is_used()
                    &&& forall|block: Extent, tag: int| self@.count(block, tag) == 0
                    &&& final(owner)@ == self@.after_dispose(old(owner)@, old(device)@).owner
                    &&& final(device)@ == self@.after_dispose(old(owner)@, old(device)@).device
                },
                Err(arena) => {
                    &&& self@.is_used()
                    &&& exists|block: Extent, tag: int| self@.count(block, tag) > 0
                    &&& arena == self
                    &&& final(owner)@ == old(owner)@
                    &&& final(device)@ == old(device)@
                },
            },
    {
        proof {
            self@.lemma_is_used();
        }
        if self.is_used() {
            Err(self)
        } else {
            proof {
                self@.lemma_after_dispose(owner@, device@);
            }
            let ArenaAllocator { id: _, chunk_size: _, freed: _, hot, nodes: _ } = self;
            match hot {
                Some(node) => {
                    node.release(owner, device);
                },
                None => {},
            }
            Ok(())
        }
    }
}

} // verus!
