//! The combined allocator: one memory type, with an arena for short-lived
//! blocks, size classes for the others, and whole memory objects for what
//! is too large for a size class.

use core::ops::Range;
use vstd::multiset::*;
use vstd::prelude::*;

use crate::align::is_power_of_two;
use crate::arena::{span, ArenaAllocator, ArenaBlock, ArenaView};
use crate::block::{Block, RawBlock, Region};
use crate::chunked::{ChunkedAllocator, ChunkedBlock, ChunkedView};
use crate::error::MemoryError;
use crate::exchange::{Exchange, ExchangeView};
use crate::extent::{
    extent_size, lemma_total_empty, lemma_total_insert, lemma_total_remove, lemma_total_zero,
    pairwise_disjoint, total, Extent,
};
use crate::memory::{mask_allows, Demand, MemoryHandle, MemoryTypeId, Requirements};
use crate::root::{RootAllocator, RootView};

verus! {

/// The kind of use that a block is asked for.
#[derive(Clone, Copy, Debug, PartialEq, Eq, Structural)]
pub enum Type {
    /// For blocks that come back soon, such as those of staging buffers.
    ShortLived,
    /// For everything else.
    General,
}

/// Where a block of the combined allocator came from.
#[derive(Clone, Copy, Debug, PartialEq, Eq, Structural)]
pub enum CombinedTag {
    /// From the arena, with the tag that the arena gave it.
    Arena(u64),
    /// From a size class, with the index of its chunk.
    Chunked(usize),
    /// From the root allocator: a whole memory object.
    Root,
}

/// A block of the combined allocator: the block proper, and where it came
/// from.
#[derive(Debug)]
pub struct CombinedBlock(pub(crate) RawBlock, pub(crate) CombinedTag);

/// What a block of the combined allocator stands for.
pub ghost struct Tagged {
    pub extent: Extent,
    pub tag: CombinedTag,
}

/// The size of a tagged block, as a weight for `total`.
pub open spec fn tagged_size() -> spec_fn(Tagged) -> nat {
    |block: Tagged| block.extent.size()
}

impl CombinedBlock {
    /// Where the block came from.
    pub closed spec fn tag(&self) -> CombinedTag {
        self.1
    }

    /// The range of the block and where it came from.
    pub open spec fn tagged(&self) -> Tagged {
        Tagged { extent: self.extent(), tag: self.tag() }
    }

    /// Where the block came from.
    pub fn origin(&self) -> (tag: CombinedTag)
        ensures
            tag == self.tag(),
    {
        self.1
    }

    /// Puts a block and its tag together.
    pub(crate) fn new(block: RawBlock, tag: CombinedTag) -> (tagged: CombinedBlock)
        ensures
            tagged.extent() == block@,
            tagged.tag() == tag,
    {
        CombinedBlock(block, tag)
    }

    /// Takes a block and its tag apart.
    pub(crate) fn into_parts(self) -> (parts: (RawBlock, CombinedTag))
        ensures
            parts.0@ == self.extent(),
            parts.1 == self.tag(),
    {
        (self.0, self.1)
    }
}

impl Region for CombinedBlock {
    closed spec fn extent(&self) -> Extent {
        self.0@
    }

    fn memory(&self) -> (memory: MemoryHandle) {
        self.0.memory()
    }

    fn range(&self) -> (range: Range<u64>) {
        self.0.range()
    }
}

impl Block for CombinedBlock {}

/// What a combined allocator stands for.
pub ghost struct CombinedView {
    /// The root allocator, which owns every memory object.
    pub root: RootView,
    /// The arena.
    pub arenas: ArenaView,
    /// The size classes.
    pub chunks: ChunkedView,
    /// The blocks that are out as whole memory objects.
    pub passthrough: Multiset<Extent>,
    /// The blocks that are out.
    pub live: Multiset<Tagged>,
}

/// A combined allocator with the exchange with the device.
pub ghost struct CombinedStep {
    pub combined: CombinedView,
    pub device: ExchangeView,
}

impl CombinedView {
    /// How often `block` is out, going by the part of the allocator that its
    /// tag names.
    pub open spec fn count(self, block: Tagged) -> nat {
        match block.tag {
            CombinedTag::Arena(tag) => self.arenas.count(block.extent, tag as int),
            CombinedTag::Chunked(tag) => if self.chunks.owns(block.extent, tag as int) {
                1
            } else {
                0
            },
            CombinedTag::Root => self.passthrough.count(block.extent),
        }
    }

    /// The three parts are well formed and allocate the same memory type.
    /// The blocks that the root allocator has out are the chunks of the arena,
    /// the chunks of the size classes, and the whole memory objects that are
    /// out, none of which is empty. The blocks that are out are those that
    /// the three parts have out, and their bytes are those that the three
    /// parts count.
    pub open spec fn wf(self) -> bool {
        &&& self.root.wf()
        &&& self.arenas.wf()
        &&& self.chunks.wf()
        &&& self.arenas.id == self.root.id
        &&& self.chunks.id == self.root.id
        &&& self.root.live =~= self.arenas.chunks().add(self.chunks.chunks()).add(self.passthrough)
        &&& forall|block: Extent| self.passthrough.count(block) > 0 ==> #[trigger] block.size() > 0
        &&& forall|block: Tagged| #[trigger] self.live.count(block) == self.count(block)
        &&& total(self.live, tagged_size()) == self.bytes_out()
    }

    /// Whether `block` is out.
    pub open spec fn owns(self, block: Tagged) -> bool {
        self.live.count(block) > 0
    }

    /// Whether blocks of the allocator are out.
    pub open spec fn is_used(self) -> bool {
        self.arenas.is_used() || self.chunks.is_used() || self.passthrough.len() > 0
    }

    /// The bytes in the blocks that are out.
    pub open spec fn bytes_out(self) -> nat {
        self.arenas.bytes_out() + self.chunks.bytes_out() + total(self.passthrough, extent_size())
    }

    /// The blocks that are out have no more bytes than the memory objects
    /// that the allocator holds.
    pub proof fn lemma_bytes_out(self)
        requires
            self.wf(),
        ensures
            self.bytes_out() <= self.root.used,
    {
        self.arenas.lemma_bytes_out();
        self.chunks.lemma_bytes_upto(64);
        crate::extent::lemma_total_add(
            self.arenas.chunks(),
            self.chunks.chunks(),
            extent_size(),
        );
        crate::extent::lemma_total_add(
            self.arenas.chunks().add(self.chunks.chunks()),
            self.passthrough,
            extent_size(),
        );
    }

    /// The memory type that the allocator allocates.
    pub open spec fn memory_type(self) -> MemoryTypeId {
        self.root.id
    }

    /// Whether a request gets a whole memory object: it is a general one and
    /// asks for more than the largest slot of the size classes holds.
    pub open spec fn passes_through(self, request: Type, reqs: Requirements) -> bool {
        request == Type::General && reqs.size > self.chunks.max_chunk_size
    }

    /// The memory object that the device must grant before the allocator can
    /// serve a request, if it needs one.
    pub open spec fn demand(self, request: Type, reqs: Requirements) -> Option<Demand> {
        if request == Type::ShortLived {
            self.arenas.demand(self.root, reqs)
        } else if self.passes_through(request, reqs) {
            if self.root.used + reqs.size <= u64::MAX {
                Some(Demand { memory_type: self.root.id, size: reqs.size })
            } else {
                None
            }
        } else {
            self.chunks.demand(self.root, reqs)
        }
    }

    /// The error with which a request fails, if it does.
    pub open spec fn alloc_error(
        self,
        device: ExchangeView,
        request: Type,
        reqs: Requirements,
    ) -> Option<MemoryError> {
        if request == Type::ShortLived {
            self.arenas.alloc_error(self.root, device, reqs)
        } else if self.passes_through(request, reqs) {
            if self.root.accepts(device, reqs.size) {
                None
            } else {
                Some(MemoryError::OutOfMemory)
            }
        } else {
            self.chunks.alloc_error(self.root, device, reqs)
        }
    }

    /// The block that a request that succeeds gets.
    pub open spec fn allocated(self, device: ExchangeView, request: Type, reqs: Requirements) -> Tagged {
        if request == Type::ShortLived {
            Tagged {
                extent: self.arenas.allocated(device, reqs),
                tag: CombinedTag::Arena(
                    self.arenas.after_alloc(self.root, device, reqs).arena.next_tag() as u64,
                ),
            }
        } else if self.passes_through(request, reqs) {
            Tagged { extent: self.root.allocated(device, reqs.size), tag: CombinedTag::Root }
        } else {
            Tagged {
                extent: self.chunks.allocated(device, reqs),
                tag: CombinedTag::Chunked(self.chunks.allocated_tag(device, reqs) as usize),
            }
        }
    }

    /// The allocator and the exchange after a request: a short-lived one goes
    /// to the arena, a general one to the size classes, unless it asks for
    /// more than their largest slot holds: then it goes to the root
    /// allocator. A failed request changes nothing.
    pub open spec fn after_alloc(
        self,
        device: ExchangeView,
        request: Type,
        reqs: Requirements,
    ) -> CombinedStep {
        if self.alloc_error(device, request, reqs) is Some {
            CombinedStep { combined: self, device }
        } else {
            let live = self.live.insert(self.allocated(device, request, reqs));
            if request == Type::ShortLived {
                let step = self.arenas.after_alloc(self.root, device, reqs);
                CombinedStep {
                    combined: CombinedView { root: step.owner, arenas: step.arena, live, ..self },
                    device: step.device,
                }
            } else if self.passes_through(request, reqs) {
                let block = self.root.allocated(device, reqs.size);
                CombinedStep {
                    combined: CombinedView {
                        root: self.root.after_alloc(block),
                        passthrough: self.passthrough.insert(block),
                        live,
                        ..self
                    },
                    device: device.after_claim(),
                }
            } else {
                let step = self.chunks.after_alloc(self.root, device, reqs);
                CombinedStep {
                    combined: CombinedView { root: step.owner, chunks: step.chunked, live, ..self },
                    device: step.device,
                }
            }
        }
    }

    /// The allocator and the exchange after `block` has come back to the part
    /// that its tag names.
    pub open spec fn after_free(self, device: ExchangeView, block: Tagged) -> CombinedStep {
        let live = self.live.remove(block);
        match block.tag {
            CombinedTag::Arena(tag) => {
                let step = self.arenas.after_free(self.root, device, block.extent, tag as int);
                CombinedStep {
                    combined: CombinedView { root: step.owner, arenas: step.arena, live, ..self },
                    device: step.device,
                }
            },
            CombinedTag::Chunked(tag) => CombinedStep {
                combined: CombinedView {
                    chunks: self.chunks.after_free(block.extent, tag as int),
                    live,
                    ..self
                },
                device,
            },
            CombinedTag::Root => CombinedStep {
                combined: CombinedView {
                    root: self.root.after_free(block.extent),
                    passthrough: self.passthrough.remove(block.extent),
                    live,
                    ..self
                },
                device: device.after_release(block.extent.memory),
            },
        }
    }

    /// The size of the block that a request gets if it succeeds: what it asks
    /// for from the arena and the root allocator, though never less than one
    /// byte from the arena; the size of a slot from the size classes.
    pub open spec fn granted_size(self, request: Type, reqs: Requirements) -> int {
        if request == Type::ShortLived {
            span(reqs)
        } else if self.passes_through(request, reqs) {
            reqs.size as int
        } else if self.chunks.admits(reqs) {
            self.chunks.block_size(self.chunks.class_for(reqs)) as int
        } else {
            0
        }
    }

    /// The exchange after the allocator has ended: the arena returns the chunk
    /// of its hot node, then the size classes return theirs.
    pub open spec fn device_after_dispose(self, device: ExchangeView) -> ExchangeView {
        self.chunks.device_after_dispose(
            self.arenas.after_dispose(self.root, device).device,
        )
    }

    /// The block of the root allocator that `block` lies in: a chunk of the
    /// arena or of a size class, or the block itself.
    pub open spec fn host(self, block: Tagged) -> Extent {
        match block.tag {
            CombinedTag::Arena(tag) => self.arenas.chunk_at(tag - self.arenas.freed),
            CombinedTag::Chunked(tag) => self.chunks.chunk_of(block.extent, tag as int),
            CombinedTag::Root => block.extent,
        }
    }

    /// A block that is out has bytes in it and lies in a block that the root
    /// allocator has out.
    pub proof fn lemma_block_in_host(self, block: Tagged)
        requires
            self.wf(),
            self.owns(block),
        ensures
            block.extent.size() > 0,
            self.host(block).contains(block.extent),
            self.root.live.count(self.host(block)) > 0,
    {
        broadcast use group_multiset_axioms;

        assert(self.live.count(block) == self.count(block));
        match block.tag {
            CombinedTag::Arena(tag) => {
                self.arenas.lemma_block_in_chunk(block.extent, tag as int);
            },
            CombinedTag::Chunked(tag) => {
                self.chunks.lemma_block_in_chunk(block.extent, tag as int);
            },
            CombinedTag::Root => {},
        }
    }

    /// The blocks that are out share no byte, as long as the blocks that the
    /// root allocator has out share none.
    pub proof fn lemma_blocks_apart(self, first: Tagged, second: Tagged)
        requires
            self.wf(),
            pairwise_disjoint(self.root.live),
            self.owns(first),
            self.owns(second),
            first != second || self.live.count(first) >= 2,
        ensures
            first.extent.disjoint(second.extent),
    {
        broadcast use group_multiset_axioms;

        self.lemma_block_in_host(first);
        self.lemma_block_in_host(second);
        assert(self.live.count(first) == self.count(first));
        assert(self.live.count(second) == self.count(second));
        let a = self.arenas.chunks();
        let c = self.chunks.chunks();
        crate::extent::lemma_disjoint_part(a, self.root.live);
        crate::extent::lemma_disjoint_part(c, self.root.live);
        crate::extent::lemma_disjoint_hosts(
            self.root.live,
            self.host(first),
            self.host(second),
            first.extent,
            second.extent,
        );
        if self.host(first) == self.host(second) {
            match (first.tag, second.tag) {
                (CombinedTag::Arena(tag), CombinedTag::Arena(other)) => {
                    self.arenas.lemma_blocks_apart(
                        first.extent,
                        tag as int,
                        second.extent,
                        other as int,
                    );
                },
                (CombinedTag::Chunked(tag), CombinedTag::Chunked(other)) => {
                    self.chunks.lemma_blocks_apart(
                        first.extent,
                        tag as int,
                        second.extent,
                        other as int,
                    );
                },
                (CombinedTag::Root, CombinedTag::Root) => {
                    assert(self.root.live.count(first.extent) >= 2);
                },
                (CombinedTag::Arena(tag), CombinedTag::Chunked(other)) => {
                    self.arenas.lemma_block_in_chunk(first.extent, tag as int);
                    self.chunks.lemma_block_in_chunk(second.extent, other as int);
                    assert(self.root.live.count(self.host(first)) >= 2);
                },
                (CombinedTag::Chunked(tag), CombinedTag::Arena(other)) => {
                    self.chunks.lemma_block_in_chunk(first.extent, tag as int);
                    self.arenas.lemma_block_in_chunk(second.extent, other as int);
                    assert(self.root.live.count(self.host(first)) >= 2);
                },
                (CombinedTag::Arena(tag), CombinedTag::Root) => {
                    self.arenas.lemma_block_in_chunk(first.extent, tag as int);
                    assert(self.root.live.count(self.host(first)) >= 2);
                },
                (CombinedTag::Root, CombinedTag::Arena(other)) => {
                    self.arenas.lemma_block_in_chunk(second.extent, other as int);
                    assert(self.root.live.count(self.host(first)) >= 2);
                },
                (CombinedTag::Chunked(tag), CombinedTag::Root) => {
                    self.chunks.lemma_block_in_chunk(first.extent, tag as int);
                    assert(self.root.live.count(self.host(first)) >= 2);
                },
                (CombinedTag::Root, CombinedTag::Chunked(other)) => {
                    self.chunks.lemma_block_in_chunk(second.extent, other as int);
                    assert(self.root.live.count(self.host(first)) >= 2);
                },
            }
        }
    }

    /// The blocks that the root allocator has out still share no byte after a
    /// request, as long as the device grants no memory object in which one of
    /// them lies.
    pub proof fn lemma_alloc_keeps_apart(
        self,
        device: ExchangeView,
        request: Type,
        reqs: Requirements,
    )
        requires
            self.wf(),
            pairwise_disjoint(self.root.live),
            device.granted is Some ==> self.root.fresh(device.granted->0),
        ensures
            pairwise_disjoint(self.after_alloc(device, request, reqs).combined.root.live),
            forall|e: Extent| #[trigger]
                self.after_alloc(device, request, reqs).combined.root.live.count(e) > 0
                    ==> self.root.live.count(e) > 0 || (device.granted is Some && e.memory
                    == device.granted->0),
    {
        broadcast use group_multiset_axioms;

        let next = self.after_alloc(device, request, reqs).combined.root;
        if self.alloc_error(device, request, reqs) is None {
            if request == Type::ShortLived {
                self.arenas.lemma_after_alloc(self.root, device, reqs);
                let chunk = self.arenas.opened_chunk(device, reqs);
                if device.granted is Some {
                    crate::extent::lemma_disjoint_insert(self.root.live, chunk);
                    crate::extent::lemma_disjoint_part(next.live, self.root.live.insert(chunk));
                } else {
                    assert(next == self.root);
                }
            } else if self.passes_through(request, reqs) {
                crate::extent::lemma_disjoint_insert(
                    self.root.live,
                    self.root.allocated(device, reqs.size),
                );
            } else {
                self.chunks.lemma_after_alloc(self.root, device, reqs);
                let chunk = self.chunks.classes[self.chunks.class_for(reqs)].new_chunk(device);
                if device.granted is Some {
                    crate::extent::lemma_disjoint_insert(self.root.live, chunk);
                    crate::extent::lemma_disjoint_part(next.live, self.root.live.insert(chunk));
                } else {
                    assert(next == self.root);
                }
            }
        }
    }

    /// The blocks that the root allocator has out still share no byte after a
    /// block has come back, and none has joined them.
    pub proof fn lemma_free_keeps_apart(self, device: ExchangeView, block: Tagged)
        requires
            self.wf(),
            self.owns(block),
            pairwise_disjoint(self.root.live),
        ensures
            pairwise_disjoint(self.after_free(device, block).combined.root.live),
            self.after_free(device, block).combined.root.live.subset_of(self.root.live),
    {
        broadcast use group_multiset_axioms;

        let next = self.after_free(device, block).combined.root;
        assert(self.live.count(block) == self.count(block));
        match block.tag {
            CombinedTag::Arena(tag) => {
                self.arenas.lemma_after_free(self.root, device, block.extent, tag as int);
            },
            CombinedTag::Chunked(tag) => {},
            CombinedTag::Root => {},
        }
        crate::extent::lemma_disjoint_part(next.live, self.root.live);
    }

    /// A request succeeds where the allocator demands a memory object and the
    /// device has granted one. Where the allocator demands none, the request
    /// goes its way whatever the device has granted, and the exchange stays
    /// as it is.
    pub proof fn lemma_demand(self, device: ExchangeView, request: Type, reqs: Requirements)
        requires
            self.wf(),
        ensures
            self.demand(request, reqs) is Some && device.granted is Some ==> self.alloc_error(
                device,
                request,
                reqs,
            ) is None,
            self.demand(request, reqs) is None ==> self.after_alloc(device, request, reqs).device
                == device,
    {
        broadcast use group_multiset_axioms;

        if self.demand(request, reqs) is None && self.alloc_error(device, request, reqs) is None {
            if request == Type::ShortLived {
                self.arenas.lemma_after_alloc(self.root, device, reqs);
            } else if !self.passes_through(request, reqs) {
                self.chunks.lemma_after_alloc(self.root, device, reqs);
            }
        }
    }

    /// A block that is handed out and taken back leaves the allocator in use
    /// or not as it was before.
    pub proof fn lemma_round_trip(
        self,
        device: ExchangeView,
        request: Type,
        reqs: Requirements,
        later: ExchangeView,
    )
        requires
            self.wf(),
            self.alloc_error(device, request, reqs) is None,
        ensures
            ({
                let block = self.allocated(device, request, reqs);
                let next = self.after_alloc(device, request, reqs).combined;
                &&& next.owns(block)
                &&& next.after_free(later, block).combined.live == self.live
                &&& next.after_free(later, block).combined.is_used() == self.is_used()
            }),
    {
        broadcast use group_multiset_axioms;

        let block = self.allocated(device, request, reqs);
        let next = self.after_alloc(device, request, reqs).combined;
        self.lemma_after_alloc(device, request, reqs);
        next.lemma_after_free(later, block);
        let last = next.after_free(later, block).combined;
        assert(last.live =~= self.live);
        self.lemma_is_used();
        last.lemma_is_used();
    }

    /// The allocator is in use exactly when one of its blocks is out.
    pub proof fn lemma_is_used(self)
        requires
            self.wf(),
        ensures
            self.is_used() <==> self.live.len() > 0,
    {
        broadcast use group_multiset_axioms;

        self.arenas.lemma_is_used();
        self.chunks.lemma_is_used();
        if self.arenas.is_used() {
            let (block, tag) = choose|block: Extent, tag: int| self.arenas.count(block, tag) > 0;
            let tagged = Tagged { extent: block, tag: CombinedTag::Arena(tag as u64) };
            assert(self.live.count(tagged) == self.count(tagged));
        } else if self.chunks.is_used() {
            let (block, tag) = choose|block: Extent, tag: int| self.chunks.owns(block, tag);
            self.chunks.lemma_after_free(self.root, block, tag);
            self.chunks.classes[self.chunks.class_of(block.size() as int)].lemma_after_free(
                block,
                tag,
            );
            let tagged = Tagged { extent: block, tag: CombinedTag::Chunked(tag as usize) };
            assert(self.live.count(tagged) == self.count(tagged));
        } else if self.passthrough.len() > 0 {
            axiom_choose_count(self.passthrough);
            let tagged = Tagged { extent: self.passthrough.choose(), tag: CombinedTag::Root };
            assert(self.live.count(tagged) == self.count(tagged));
        }
        if self.live.len() > 0 {
            axiom_choose_count(self.live);
            let tagged = self.live.choose();
            assert(self.live.count(tagged) == self.count(tagged));
        }
    }

    /// A request keeps the invariant. Where it succeeds, the block is large
    /// enough and aligned, and it is out once more than before.
    pub proof fn lemma_after_alloc(self, device: ExchangeView, request: Type, reqs: Requirements)
        requires
            self.wf(),
        ensures
            self.after_alloc(device, request, reqs).combined.wf(),
            self.alloc_error(device, request, reqs) is None ==> {
                let block = self.allocated(device, request, reqs);
                &&& block.extent.wf()
                &&& block.extent.size() == self.granted_size(request, reqs)
                &&& block.extent.size() >= reqs.size
                &&& is_power_of_two(reqs.alignment as int) ==> block.extent.start % (
                reqs.alignment as int) == 0
                &&& self.passes_through(request, reqs) || mask_allows(
                    reqs.type_mask,
                    self.root.id.0 as int,
                )
            },
    {
        broadcast use group_multiset_axioms;

        let next = self.after_alloc(device, request, reqs).combined;
        let block = self.allocated(device, request, reqs);
        if self.alloc_error(device, request, reqs) is None {
            lemma_total_insert(self.live, tagged_size(), block);
            if request == Type::ShortLived {
                self.arenas.lemma_after_alloc(self.root, device, reqs);
                let step = self.arenas.after_alloc(self.root, device, reqs);
                if is_power_of_two(reqs.alignment as int) {
                    crate::arena::lemma_alloc_aligned(self.arenas, device, reqs);
                }
                assert forall|other: Tagged| #[trigger]
                    next.live.count(other) == next.count(other) by {
                    assert(self.live.count(other) == self.count(other));
                    match other.tag {
                        CombinedTag::Arena(tag) => {
                            assert(step.arena.count(other.extent, tag as int) == self.arenas.count(
                                other.extent,
                                tag as int,
                            ) + (if other.extent == block.extent && tag as int
                                == step.arena.next_tag() {
                                1nat
                            } else {
                                0nat
                            }));
                        },
                        _ => {},
                    }
                }
                assert(next.root.live =~= next.arenas.chunks().add(next.chunks.chunks()).add(
                    next.passthrough,
                )) by {
                    assert forall|e: Extent|
                        next.root.live.count(e) == next.arenas.chunks().add(
                            next.chunks.chunks(),
                        ).add(next.passthrough).count(e) by {
                        assert(step.owner.live.add(self.arenas.chunks()).count(e)
                            == self.root.live.add(step.arena.chunks()).count(e));
                    }
                }
            } else if self.passes_through(request, reqs) {
                let e = self.root.allocated(device, reqs.size);
                self.root.lemma_after_alloc(e);
                lemma_total_insert(self.passthrough, extent_size(), e);
                if is_power_of_two(reqs.alignment as int) {
                    crate::align::lemma_alignment_shift(reqs.alignment, 0);
                }
                assert forall|other: Tagged| #[trigger]
                    next.live.count(other) == next.count(other) by {
                    assert(self.live.count(other) == self.count(other));
                }
            } else {
                self.chunks.lemma_after_alloc(self.root, device, reqs);
                let step = self.chunks.after_alloc(self.root, device, reqs);
                assert forall|other: Tagged| #[trigger]
                    next.live.count(other) == next.count(other) by {
                    assert(self.live.count(other) == self.count(other));
                    match other.tag {
                        CombinedTag::Chunked(tag) => {
                            assert(step.chunked.owns(other.extent, tag as int) <==> self.chunks.owns(
                                other.extent,
                                tag as int,
                            ) || (other.extent == block.extent && tag as int
                                == self.chunks.allocated_tag(device, reqs)));
                        },
                        _ => {},
                    }
                }
                assert(next.root.live =~= next.arenas.chunks().add(next.chunks.chunks()).add(
                    next.passthrough,
                )) by {
                    assert forall|e: Extent|
                        next.root.live.count(e) == next.arenas.chunks().add(
                            next.chunks.chunks(),
                        ).add(next.passthrough).count(e) by {
                        assert(step.owner.live.add(self.chunks.chunks()).count(e)
                            == self.root.live.add(step.chunked.chunks()).count(e));
                    }
                }
            }
        }
    }

    /// Taking back a block that is out keeps the invariant.
    pub proof fn lemma_after_free(self, device: ExchangeView, block: Tagged)
        requires
            self.wf(),
            self.owns(block),
        ensures
            self.after_free(device, block).combined.wf(),
            self.count(block) > 0,
    {
        broadcast use group_multiset_axioms;

        let next = self.after_free(device, block).combined;
        assert(self.live.count(block) == self.count(block));
        lemma_total_remove(self.live, tagged_size(), block);
        match block.tag {
            CombinedTag::Arena(tag) => {
                self.arenas.lemma_after_free(self.root, device, block.extent, tag as int);
                let step = self.arenas.after_free(self.root, device, block.extent, tag as int);
                assert forall|other: Tagged| #[trigger]
                    next.live.count(other) == next.count(other) by {
                    assert(self.live.count(other) == self.count(other));
                    match other.tag {
                        CombinedTag::Arena(other_tag) => {
                            assert(step.arena.count(other.extent, other_tag as int)
                                == self.arenas.count(other.extent, other_tag as int) - (
                            if other.extent == block.extent && other_tag as int == tag as int {
                                1int
                            } else {
                                0int
                            }));
                        },
                        _ => {},
                    }
                }
                assert(next.root.live =~= next.arenas.chunks().add(next.chunks.chunks()).add(
                    next.passthrough,
                )) by {
                    assert forall|e: Extent|
                        next.root.live.count(e) == next.arenas.chunks().add(
                            next.chunks.chunks(),
                        ).add(next.passthrough).count(e) by {
                        assert(step.owner.live.add(self.arenas.chunks()).count(e)
                            == self.root.live.add(step.arena.chunks()).count(e));
                    }
                }
            },
            CombinedTag::Chunked(tag) => {
                self.chunks.lemma_chunks_of_class(0, 64);
                assert(self.chunks.backed_by(self.root));
                self.chunks.lemma_after_free(self.root, block.extent, tag as int);
                let chunks = self.chunks.after_free(block.extent, tag as int);
                assert forall|other: Tagged| #[trigger]
                    next.live.count(other) == next.count(other) by {
                    assert(self.live.count(other) == self.count(other));
                    match other.tag {
                        CombinedTag::Chunked(other_tag) => {
                            assert(chunks.owns(other.extent, other_tag as int) <==> self.chunks.owns(
                                other.extent,
                                other_tag as int,
                            ) && !(other.extent == block.extent && other_tag as int == tag as int));
                        },
                        _ => {},
                    }
                }
            },
            CombinedTag::Root => {
                self.root.lemma_after_free(block.extent);
                lemma_total_remove(self.passthrough, extent_size(), block.extent);
                assert forall|other: Tagged| #[trigger]
                    next.live.count(other) == next.count(other) by {
                    assert(self.live.count(other) == self.count(other));
                }
            },
        }
    }
}

impl CombinedView {
    /// A combined allocator without blocks out.
    pub open spec fn empty(
        id: MemoryTypeId,
        arena_chunk_size: nat,
        blocks_per_chunk: nat,
        min_block_size: nat,
        max_chunk_size: nat,
    ) -> CombinedView {
        CombinedView {
            root: RootView { id, used: 0, live: Multiset::empty() },
            arenas: ArenaView::empty(id, arena_chunk_size),
            chunks: ChunkedView::empty(id, blocks_per_chunk, min_block_size, max_chunk_size),
            passthrough: Multiset::empty(),
            live: Multiset::empty(),
        }
    }

    /// A combined allocator without blocks out is well formed.
    pub proof fn lemma_empty(
        id: MemoryTypeId,
        arena_chunk_size: nat,
        blocks_per_chunk: nat,
        min_block_size: nat,
        max_chunk_size: nat,
    )
        requires
            is_power_of_two(min_block_size as int),
            is_power_of_two(max_chunk_size as int),
            min_block_size <= u64::MAX,
            max_chunk_size <= u64::MAX,
        ensures
            CombinedView::empty(
                id,
                arena_chunk_size,
                blocks_per_chunk,
                min_block_size,
                max_chunk_size,
            ).wf(),
    {
        broadcast use group_multiset_axioms;

        let view = CombinedView::empty(
            id,
            arena_chunk_size,
            blocks_per_chunk,
            min_block_size,
            max_chunk_size,
        );
        lemma_total_empty(extent_size());
        lemma_total_empty(tagged_size());
        view.chunks.lemma_chunks_beyond(0, 64);
        view.chunks.lemma_no_bytes(64);
        view.arenas.queued_chunks().to_multiset_ensures();
        assert(view.arenas.queued_chunks().to_multiset().len() == 0);
    }
}

/// Serves the requests for one memory type: short-lived blocks from an
/// arena, other blocks from size classes, and those that are too large for a
/// size class as whole memory objects.
pub struct CombinedAllocator {
    root: RootAllocator,
    root_used: u64,
    arenas: ArenaAllocator,
    chunks: ChunkedAllocator,
    passthrough: Ghost<Multiset<Extent>>,
    live: Ghost<Multiset<Tagged>>,
}

impl View for CombinedAllocator {
    type V = CombinedView;

    closed spec fn view(&self) -> CombinedView {
        CombinedView {
            root: self.root@,
            arenas: self.arenas@,
            chunks: self.chunks@,
            passthrough: self.passthrough@,
            live: self.live@,
        }
    }
}

impl CombinedAllocator {
    /// The invariant of the allocator.
    pub closed spec fn wf(&self) -> bool {
        &&& self@.wf()
        &&& self.chunks.wf()
        &&& self.root_used == total(self.passthrough@, extent_size())
    }

    /// The invariant of the allocator holds of what it stands for.
    pub proof fn lemma_wf(&self)
        requires
            self.wf(),
        ensures
            self@.wf(),
    {
    }

    /// The allocator with the exchange, as one value.
    pub open spec fn step(&self, device: &Exchange) -> CombinedStep {
        CombinedStep { combined: self@, device: device@ }
    }

    /// An allocator for memory type `memory_type_id`. The arena takes its
    /// chunks in multiples of `arena_chunk_size` bytes; the smallest slots of
    /// the size classes have `min_block_size` bytes, and their chunks hold
    /// `blocks_per_chunk` slots but have no more than `max_chunk_size` bytes.
    pub fn new(
        memory_type_id: MemoryTypeId,
        arena_chunk_size: u64,
        blocks_per_chunk: usize,
        min_block_size: u64,
        max_chunk_size: u64,
    ) -> (combined: CombinedAllocator)
        requires
            is_power_of_two(min_block_size as int),
            is_power_of_two(max_chunk_size as int),
        ensures
            combined.wf(),
            combined@ == CombinedView::empty(
                memory_type_id,
                arena_chunk_size as nat,
                blocks_per_chunk as nat,
                min_block_size as nat,
                max_chunk_size as nat,
            ),
    {
        proof {
            CombinedView::lemma_empty(
                memory_type_id,
                arena_chunk_size as nat,
                blocks_per_chunk as nat,
                min_block_size as nat,
                max_chunk_size as nat,
            );
            lemma_total_empty(extent_size());
        }
        CombinedAllocator {
            root: RootAllocator::new(memory_type_id),
            root_used: 0,
            arenas: ArenaAllocator::new(memory_type_id, arena_chunk_size),
            chunks: ChunkedAllocator::new(
                blocks_per_chunk,
                min_block_size,
                max_chunk_size,
                memory_type_id,
            ),
            passthrough: Ghost(Multiset::empty()),
            live: Ghost(Multiset::empty()),
        }
    }

    /// The memory type that the allocator allocates.
    pub fn memory_type(&self) -> (id: MemoryTypeId)
        ensures
            id == self@.memory_type(),
    {
        self.root.memory_type()
    }

    /// The bytes in the blocks that are out. They are no more than the bytes
    /// of the memory objects that the allocator holds.
    pub fn used(&self) -> (bytes: u64)
        requires
            self.wf(),
        ensures
            bytes == total(self@.live, tagged_size()),
            bytes == self@.bytes_out(),
            bytes <= self@.root.used,
    {
        proof {
            self@.lemma_bytes_out();
        }
        self.root_used + self.arenas.used() + self.chunks.used()
    }

    /// The bytes of all the memory objects that the allocator holds: its
    /// chunks and the blocks that are out as whole memory objects.
    pub fn allocated(&self) -> (bytes: u64)
        ensures
            bytes == self@.root.used,
    {
        self.root.used()
    }

    /// Tells whether blocks of the allocator are out.
    pub fn is_used(&self) -> (used: bool)
        requires
            self.wf(),
        ensures
            used == self@.is_used(),
            used == (self@.live.len() > 0),
    {
        proof {
            self@.lemma_is_used();
            lemma_total_zero(self.passthrough@, extent_size());
        }
        self.arenas.is_used() || self.chunks.is_used() || self.root_used != 0
    }

    /// The size of the block that a request gets if it succeeds.
    pub fn granted_size(&self, request: Type, reqs: Requirements) -> (size: u64)
        requires
            self.wf(),
        ensures
            size == self@.granted_size(request, reqs),
    {
        match request {
            Type::ShortLived => if reqs.size == 0 {
                1
            } else {
                reqs.size
            },
            Type::General => if reqs.size > self.chunks.max_chunk_size() {
                reqs.size
            } else {
                match self.chunks.slot_size(reqs) {
                    Some(size) => size,
                    None => 0,
                }
            },
        }
    }

    /// The memory object that the device must grant before `allocate` can
    /// serve a request, if it needs one.
    pub fn demand(&self, request: Type, reqs: Requirements) -> (demand: Option<Demand>)
        requires
            self.wf(),
        ensures
            demand == self@.demand(request, reqs),
    {
        broadcast use group_multiset_axioms;

        match request {
            Type::ShortLived => self.arenas.demand(&self.root, reqs),
            Type::General => if reqs.size > self.chunks.max_chunk_size() {
                self.root.demand(reqs)
            } else {
                self.chunks.demand(&self.root, reqs)
            },
        }
    }

    /// Hands out a block for a request. A short-lived request goes to the
    /// arena. A general request goes to the size classes, unless it asks for
    /// more than `max_chunk_size` bytes: then it gets a whole memory object
    /// from the root allocator.
    ///
    /// Fails as the part fails that the request goes to, and changes nothing
    /// then.
    pub fn allocate(&mut self, device: &mut Exchange, request: Type, reqs: Requirements) -> (result:
        Result<CombinedBlock, MemoryError>)
        requires
            old(self).wf(),
        ensures
            final(self).wf(),
            final(self).step(final(device)) == old(self)@.after_alloc(old(device)@, request, reqs),
            match result {
                Ok(block) => {
                    &&& old(self)@.alloc_error(old(device)@, request, reqs) is None
                    &&& block.tagged() == old(self)@.allocated(old(device)@, request, reqs)
                    &&& final(self)@.live == old(self)@.live.insert(block.tagged())
                    &&& block.extent().size() == old(self)@.granted_size(request, reqs)
                    &&& block.extent().size() >= reqs.size
                    &&& is_power_of_two(reqs.alignment as int) ==> block.extent().start % (
                    reqs.alignment as int) == 0
                    &&& old(self)@.passes_through(request, reqs) || mask_allows(
                        reqs.type_mask,
                        old(self)@.memory_type().0 as int,
                    )
                },
                Err(error) => {
                    &&& old(self)@.alloc_error(old(device)@, request, reqs) == Some(error)
                    &&& final(self)@ == old(self)@
                },
            },
    {
        broadcast use group_multiset_axioms;

        proof {
            self@.lemma_after_alloc(device@, request, reqs);
            if request == Type::ShortLived {
                self@.arenas.lemma_after_alloc(self@.root, device@, reqs);
            } else if !self@.passes_through(request, reqs) {
                self@.chunks.lemma_after_alloc(self@.root, device@, reqs);
            }
        }
        let ghost expected = self@.allocated(device@, request, reqs);
        match request {
            Type::ShortLived => match self.arenas.allocate(&mut self.root, device, (), reqs) {
                Ok(block) => {
                    let (block, tag) = block.into_parts();
                    proof {
                        self.live@ = self.live@.insert(expected);
                    }
                    Ok(CombinedBlock::new(block, CombinedTag::Arena(tag)))
                },
                Err(error) => Err(error),
            },
            Type::General => if reqs.size > self.chunks.max_chunk_size() {
                match self.root.allocate(device, (), reqs) {
                    Ok(block) => {
                        proof {
                            let next = old(self)@.after_alloc(old(device)@, request, reqs).combined;
                            next.root.lemma_part_fits(next.passthrough);
                            lemma_total_insert(self.passthrough@, extent_size(), block@);
                            self.passthrough@ = self.passthrough@.insert(block@);
                            self.live@ = self.live@.insert(expected);
                        }
                        self.root_used += block.size();
                        Ok(CombinedBlock::new(block, CombinedTag::Root))
                    },
                    Err(error) => Err(error),
                }
            } else {
                match self.chunks.allocate(&mut self.root, device, (), reqs) {
                    Ok(block) => {
                        let (block, tag) = block.into_parts();
                        proof {
                            self.live@ = self.live@.insert(expected);
                        }
                        Ok(CombinedBlock::new(block, CombinedTag::Chunked(tag)))
                    },
                    Err(error) => Err(error),
                }
            },
        }
    }

    /// Takes back a block and returns it to the part of the allocator that it
    /// came from.
    pub fn free(&mut self, device: &mut Exchange, block: CombinedBlock)
        requires
            old(self).wf(),
            old(self)@.owns(block.tagged()),
        ensures
            final(self).wf(),
            final(self).step(final(device)) == old(self)@.after_free(old(device)@, block.tagged()),
            final(self)@.live == old(self)@.live.remove(block.tagged()),
    {
        broadcast use group_multiset_axioms;

        proof {
            self@.lemma_after_free(device@, block.tagged());
        }
        let ghost tagged = block.tagged();
        let (block, tag) = block.into_parts();
        match tag {
            CombinedTag::Arena(tag) => {
                self.arenas.free(&mut self.root, device, ArenaBlock::new(block, tag));
            },
            CombinedTag::Chunked(tag) => {
                proof {
                    self@.chunks.lemma_chunks_of_class(0, 64);
                }
                self.chunks.free(&mut self.root, device, ChunkedBlock::new(block, tag));
            },
            CombinedTag::Root => {
                proof {
                    lemma_total_remove(self.passthrough@, extent_size(), block@);
                    self.passthrough@ = self.passthrough@.remove(block@);
                }
                self.root_used -= block.size();
                self.root.free(device, block);
            },
        }
        proof {
            self.live@ = self.live@.remove(tagged);
        }
    }

    /// Ends the allocator: the arena returns the chunk of its hot node, the
    /// size classes return their chunks, and the root allocator ends. Where
    /// blocks are out, the allocator comes back unchanged.
    pub fn dispose(self, device: &mut Exchange) -> (result: Result<(), CombinedAllocator>)
        requires
            self.wf(),
        ensures
            match result {
                Ok(()) => {
                    &&& !self@.is_used()
                    &&& self@.live.len() == 0
                    &&& final(device)@ == self@.device_after_dispose(old(device)@)
                },
                Err(combined) => {
                    &&& self@.is_used()
                    &&& self@.live.len() > 0
                    &&& combined == self
                    &&& final(device)@ == old(device)@
                },
            },
    {
        broadcast use group_multiset_axioms;

        if self.is_used() {
            return Err(self);
        }
        let ghost view = self@;
        let CombinedAllocator { root, root_used: _, arenas, chunks, passthrough: _, live: _ } =
            self;
        let mut root = root;
        proof {
            view.arenas.lemma_after_dispose(view.root, device@);
            lemma_total_empty(extent_size());
        }
        match arenas.dispose(&mut root, device) {
            Ok(()) => {},
            Err(_) => {
                assert(false);
            },
        }
        match chunks.dispose(&mut root, device) {
            Ok(()) => {},
            Err(_) => {
                assert(false);
            },
        }
        proof {
            assert(root@.live =~= Multiset::empty());
        }
        match root.dispose(device) {
            Ok(()) => {},
            Err(_) => {
                assert(false);
            },
        }
        Ok(())
    }
}

} // verus!
