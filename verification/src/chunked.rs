//! The chunked sub-allocator: long-lived blocks in slots of fixed size, the
//! sizes powers of two, the slots laid out in chunks taken from a root
//! allocator.

use core::ops::Range;
use std::collections::VecDeque;
use vstd::arithmetic::power2::{
    lemma2_to64, lemma2_to64_rest, lemma_pow2_pos, lemma_pow2_strictly_increases,
    lemma_pow2_unfold, pow2,
};
use vstd::multiset::*;
use vstd::prelude::*;

use crate::align::{is_power_of_two, lemma_power_of_two_exponent};

use crate::block::{Block, RawBlock, Region};
use crate::error::MemoryError;
use crate::exchange::{Exchange, ExchangeView};
use crate::extent::{extent_size, lemma_total_insert, pairwise_disjoint, total, Extent};
use crate::memory::{mask_allows, type_allowed, Demand, MemoryHandle, MemoryTypeId, Requirements};
use crate::root::{RootAllocator, RootView};

verus! {

/// A slot: the chunk that it lies in and its place in the chunk.
pub ghost struct Slot {
    pub chunk: int,
    pub index: int,
}

/// What a size class stands for.
pub ghost struct ClassView {
    /// The memory type that it allocates.
    pub id: MemoryTypeId,
    /// The size of its chunks.
    pub chunk_size: nat,
    /// The size of its slots.
    pub block_size: nat,
    /// The free slots: the first is handed out next.
    pub free: Seq<Slot>,
    /// The chunks, oldest first.
    pub chunks: Seq<Extent>,
    /// The slots that are out.
    pub live: Set<Slot>,
}

/// A size class with the owner of its chunks and the exchange with the
/// device.
pub ghost struct ClassStep {
    pub class: ClassView,
    pub owner: RootView,
    pub device: ExchangeView,
}

/// The slots of the chunk `chunk`, in order.
pub open spec fn slots_of(chunk: int, count: int) -> Seq<Slot> {
    Seq::new(
        if count >= 0 {
            count as nat
        } else {
            0
        },
        |index: int| Slot { chunk, index },
    )
}

/// The memory objects of `blocks`, in their order.
pub open spec fn memories_of(blocks: Seq<Extent>) -> Seq<MemoryHandle> {
    blocks.map_values(|block: Extent| block.memory)
}

impl ClassView {
    /// A size class without chunks.
    pub open spec fn empty(id: MemoryTypeId, chunk_size: nat, block_size: nat) -> ClassView {
        ClassView {
            id,
            chunk_size,
            block_size,
            free: Seq::empty(),
            chunks: Seq::empty(),
            live: Set::empty(),
        }
    }

    /// The number of slots in a chunk.
    pub open spec fn slots_per_chunk(self) -> int {
        if self.block_size == 0 {
            0
        } else {
            self.chunk_size as int / self.block_size as int
        }
    }

    /// Whether `slot` is a slot of a chunk of the class.
    pub open spec fn valid(self, slot: Slot) -> bool {
        0 <= slot.chunk < self.chunks.len() && 0 <= slot.index < self.slots_per_chunk()
    }

    /// The block that lies in `slot`.
    pub open spec fn extent_of(self, slot: Slot) -> Extent {
        Extent {
            memory: self.chunks[slot.chunk].memory,
            start: slot.index * self.block_size,
            end: (slot.index + 1) * self.block_size,
        }
    }

    /// The slot that `block` lies in, if it came from the chunk `tag`.
    pub open spec fn slot_of(self, block: Extent, tag: int) -> Slot {
        Slot { chunk: tag, index: block.start / (self.block_size as int) }
    }

    /// Every chunk spans a whole memory object of `chunk_size` bytes. Every
    /// slot of every chunk is either free or out, never both, and no slot is
    /// free twice.
    pub open spec fn wf(self) -> bool {
        &&& 0 < self.block_size <= u64::MAX
        &&& self.chunk_size <= u64::MAX
        &&& self.chunks.len() <= usize::MAX
        &&& forall|i: int|
            0 <= i < self.chunks.len() ==> (#[trigger] self.chunks[i]).start == 0
                && self.chunks[i].end == self.chunk_size
        &&& self.free.no_duplicates()
        &&& forall|i: int| 0 <= i < self.free.len() ==> self.valid(#[trigger] self.free[i])
        &&& self.live.finite()
        &&& forall|slot: Slot| #[trigger] self.live.contains(slot) ==> self.valid(slot)
        &&& forall|slot: Slot|
            self.valid(slot) ==> (#[trigger] self.free.contains(slot) <==> !self.live.contains(
                slot,
            ))
        &&& self.free.len() + self.live.len() == self.chunks.len() * self.slots_per_chunk()
    }

    /// Whether the block `block` with tag `tag` is out.
    pub open spec fn owns(self, block: Extent, tag: int) -> bool {
        self.live.contains(self.slot_of(block, tag)) && block == self.extent_of(
            self.slot_of(block, tag),
        )
    }

    /// Whether blocks of the class are out.
    pub open spec fn is_used(self) -> bool {
        self.live.len() > 0
    }

    /// The bytes in the blocks that are out.
    pub open spec fn bytes_out(self) -> nat {
        self.live.len() * self.block_size
    }

    /// The blocks that are out have no more bytes than the chunks of the
    /// class.
    pub proof fn lemma_bytes_out(self)
        requires
            self.wf(),
        ensures
            self.bytes_out() <= total(self.chunks.to_multiset(), extent_size()),
            total(self.chunks.to_multiset(), extent_size()) == self.chunks.len() * self.chunk_size,
    {
        let slots = self.slots_per_chunk();
        let b = self.block_size as int;
        let c = self.chunk_size as int;
        let n = self.chunks.len() as int;
        let l = self.live.len() as int;
        crate::extent::lemma_sum_of_sizes(self.chunks);
        lemma_sum_of_equal_sizes(self.chunks, self.chunk_size);
        vstd::arithmetic::div_mod::lemma_fundamental_div_mod(c, b);
        vstd::arithmetic::div_mod::lemma_mod_pos_bound(c, b);
        assert(l * b <= n * c) by (nonlinear_arith)
            requires
                0 <= l <= n * slots,
                0 <= n,
                b > 0,
                slots == c / b,
                c == b * (c / b) + c % b,
                0 <= c % b,
        {
            assert(l * b <= (n * slots) * b);
            assert((n * slots) * b == n * (b * slots));
            assert(b * slots <= c);
            assert(n * (b * slots) <= n * c);
        }
    }

    /// The memory object that the device must grant before the class can
    /// serve `reqs`: none where a slot is free, where the memory type is not
    /// accepted, where a chunk has no room for a slot, or where the index of
    /// the chunk or the count of used bytes of the owner would not fit in its
    /// type.
    pub open spec fn demand(self, owner: RootView, reqs: Requirements) -> Option<Demand> {
        if mask_allows(reqs.type_mask, self.id.0 as int) && self.free.len() == 0
            && self.slots_per_chunk() > 0 && self.chunks.len() < usize::MAX && owner.used
            + self.chunk_size <= u64::MAX {
            Some(Demand { memory_type: self.id, size: self.chunk_size as u64 })
        } else {
            None
        }
    }

    /// Whether a new chunk is taken for `reqs`.
    pub open spec fn grows(self, owner: RootView, device: ExchangeView, reqs: Requirements) -> bool {
        self.demand(owner, reqs) is Some && device.granted is Some
    }

    /// The error with which a request fails, if it does.
    pub open spec fn alloc_error(
        self,
        owner: RootView,
        device: ExchangeView,
        reqs: Requirements,
    ) -> Option<MemoryError> {
        if !mask_allows(reqs.type_mask, self.id.0 as int) {
            Some(MemoryError::NoCompatibleMemoryType)
        } else if self.free.len() > 0 || self.grows(owner, device, reqs) {
            None
        } else {
            Some(MemoryError::OutOfMemory)
        }
    }

    /// The chunk that is taken when no slot is free.
    pub open spec fn new_chunk(self, device: ExchangeView) -> Extent {
        Extent { memory: device.granted->0, start: 0, end: self.chunk_size as int }
    }

    /// The class once `chunk` has joined it: its slots are free, behind those
    /// that were free before.
    pub open spec fn grown(self, chunk: Extent) -> ClassView {
        ClassView {
            chunks: self.chunks.push(chunk),
            free: self.free + slots_of(self.chunks.len() as int, self.slots_per_chunk()),
            ..self
        }
    }

    /// The class once its first free slot is out.
    pub open spec fn taken(self) -> ClassView {
        ClassView { free: self.free.drop_first(), live: self.live.insert(self.free[0]), ..self }
    }

    /// The class as it serves a request: with a new chunk where no slot was
    /// free.
    pub open spec fn supplied(self, device: ExchangeView) -> ClassView {
        if self.free.len() > 0 {
            self
        } else {
            self.grown(self.new_chunk(device))
        }
    }

    /// The class, its owner and the exchange after a request for `reqs`.
    pub open spec fn after_alloc(
        self,
        owner: RootView,
        device: ExchangeView,
        reqs: Requirements,
    ) -> ClassStep {
        if self.alloc_error(owner, device, reqs) is Some {
            ClassStep { class: self, owner, device }
        } else if self.free.len() > 0 {
            ClassStep { class: self.taken(), owner, device }
        } else {
            ClassStep {
                class: self.supplied(device).taken(),
                owner: owner.after_alloc(self.new_chunk(device)),
                device: device.after_claim(),
            }
        }
    }

    /// The slot that a request that succeeds gets.
    pub open spec fn next_slot(self, device: ExchangeView) -> Slot {
        self.supplied(device).free[0]
    }

    /// The block that a request that succeeds gets.
    pub open spec fn allocated(self, device: ExchangeView) -> Extent {
        self.supplied(device).extent_of(self.next_slot(device))
    }

    /// The class once the block `block` with tag `tag` has come back: its
    /// slot is the first of the free ones.
    pub open spec fn after_free(self, block: Extent, tag: int) -> ClassView {
        ClassView {
            free: seq![self.slot_of(block, tag)] + self.free,
            live: self.live.remove(self.slot_of(block, tag)),
            ..self
        }
    }

    /// Whether every chunk of the class is a block that `owner` has out.
    pub open spec fn backed_by(self, owner: RootView) -> bool {
        self.chunks.to_multiset().subset_of(owner.live)
    }

    /// A slot of a chunk lies inside the chunk.
    pub proof fn lemma_slot_bounds(self, slot: Slot)
        requires
            self.wf(),
            self.valid(slot),
        ensures
            0 <= slot.index * self.block_size,
            (slot.index + 1) * self.block_size <= self.chunk_size,
            slot.index * self.block_size + self.block_size == (slot.index + 1) * self.block_size,
            (slot.index * self.block_size) / (self.block_size as int) == slot.index,
            self.extent_of(slot).wf(),
            self.extent_of(slot).size() == self.block_size,
            self.chunks[slot.chunk].contains(self.extent_of(slot)),
            self.slot_of(self.extent_of(slot), slot.chunk) == slot,
    {
        let b = self.block_size as int;
        let c = self.chunk_size as int;
        let i = slot.index;
        vstd::arithmetic::div_mod::lemma_fundamental_div_mod(c, b);
        vstd::arithmetic::div_mod::lemma_mod_pos_bound(c, b);
        vstd::arithmetic::div_mod::lemma_div_multiples_vanish(i, b);
        assert((i + 1) * b <= (c / b) * b) by (nonlinear_arith)
            requires
                i + 1 <= c / b,
                b > 0,
        ;
        assert((c / b) * b == b * (c / b)) by (nonlinear_arith);
        assert(i * b + b == (i + 1) * b) by (nonlinear_arith);
        assert(0 <= i * b) by (nonlinear_arith)
            requires
                0 <= i,
                0 < b,
        ;
        assert(self.chunks[slot.chunk].start == 0);
    }

    /// An empty class is well formed.
    pub proof fn lemma_empty(id: MemoryTypeId, chunk_size: nat, block_size: nat)
        requires
            0 < block_size <= u64::MAX,
            chunk_size <= u64::MAX,
        ensures
            ClassView::empty(id, chunk_size, block_size).wf(),
            !ClassView::empty(id, chunk_size, block_size).is_used(),
    {
        let class = ClassView::empty(id, chunk_size, block_size);
        assert(class.chunks.len() * class.slots_per_chunk() == 0) by (nonlinear_arith)
            requires
                class.chunks.len() == 0,
        ;
    }

    /// Handing out the first free slot keeps the class well formed.
    pub proof fn lemma_taken(self)
        requires
            self.wf(),
            self.free.len() > 0,
        ensures
            self.taken().wf(),
            self.valid(self.free[0]),
            !self.live.contains(self.free[0]),
            self.taken().owns(self.extent_of(self.free[0]), self.free[0].chunk),
            self.taken().is_used(),
    {
        let slot = self.free[0];
        let next = self.taken();
        assert(self.free.contains(slot));
        assert(forall|i: int| 0 <= i < next.free.len() ==> next.free[i] == self.free[i + 1]);
        assert forall|other: Slot| next.valid(other) implies (#[trigger] next.free.contains(other)
            <==> !next.live.contains(other)) by {
            if other == slot {
                if next.free.contains(other) {
                    let i = choose|i: int| 0 <= i < next.free.len() && next.free[i] == other;
                    assert(self.free[i + 1] == self.free[0]);
                }
            } else {
                if self.free.contains(other) {
                    let i = choose|i: int| 0 <= i < self.free.len() && self.free[i] == other;
                    assert(next.free[i - 1] == other);
                }
                if next.free.contains(other) {
                    let i = choose|i: int| 0 <= i < next.free.len() && next.free[i] == other;
                    assert(self.free[i + 1] == other);
                }
            }
        }
        self.lemma_slot_bounds(slot);
    }

    /// A new chunk keeps the class well formed, and changes nothing of the
    /// slots that were there.
    pub proof fn lemma_grown(self, chunk: Extent)
        requires
            self.wf(),
            self.chunks.len() < usize::MAX,
            chunk.start == 0,
            chunk.end == self.chunk_size,
        ensures
            self.grown(chunk).wf(),
            self.grown(chunk).live == self.live,
            self.grown(chunk).chunks.to_multiset() =~= self.chunks.to_multiset().insert(chunk),
            forall|slot: Slot|
                self.valid(slot) ==> #[trigger] self.grown(chunk).extent_of(slot) == self.extent_of(
                    slot,
                ),
    {
        let next = self.grown(chunk);
        let n = self.chunks.len() as int;
        let fresh = slots_of(n, self.slots_per_chunk());
        vstd::seq_lib::to_multiset_build(self.chunks, chunk);
        assert(self.slots_per_chunk() >= 0) by {
            vstd::arithmetic::div_mod::lemma_div_pos_is_pos(
                self.chunk_size as int,
                self.block_size as int,
            );
        }
        assert forall|i: int| 0 <= i < next.chunks.len() implies (#[trigger] next.chunks[i]).start
            == 0 && next.chunks[i].end == next.chunk_size by {
            if i < n {
                assert(next.chunks[i] == self.chunks[i]);
            }
        }
        assert forall|i: int| 0 <= i < next.free.len() implies next.valid(
            #[trigger] next.free[i],
        ) by {
            if i < self.free.len() {
                assert(next.free[i] == self.free[i]);
            } else {
                assert(next.free[i] == fresh[i - self.free.len()]);
            }
        }
        assert forall|i: int, j: int|
            0 <= i < next.free.len() && 0 <= j < next.free.len() && i != j implies next.free[i]
            != next.free[j] by {
            if i < self.free.len() {
                assert(next.free[i] == self.free[i]);
            } else {
                assert(next.free[i] == fresh[i - self.free.len()]);
            }
            if j < self.free.len() {
                assert(next.free[j] == self.free[j]);
            } else {
                assert(next.free[j] == fresh[j - self.free.len()]);
            }
        }
        assert forall|slot: Slot| next.valid(slot) implies (#[trigger] next.free.contains(slot)
            <==> !next.live.contains(slot)) by {
            if slot.chunk == n {
                assert(fresh[slot.index] == slot);
                assert(next.free[self.free.len() + slot.index] == slot);
                if self.live.contains(slot) {
                    assert(self.valid(slot));
                }
            } else {
                assert(self.valid(slot));
                if self.free.contains(slot) {
                    let i = choose|i: int| 0 <= i < self.free.len() && self.free[i] == slot;
                    assert(next.free[i] == slot);
                }
                if next.free.contains(slot) {
                    let i = choose|i: int| 0 <= i < next.free.len() && next.free[i] == slot;
                    if i < self.free.len() {
                        assert(self.free[i] == slot);
                    } else {
                        assert(next.free[i] == fresh[i - self.free.len()]);
                    }
                }
            }
        }
        assert((n + 1) * self.slots_per_chunk() == n * self.slots_per_chunk()
            + self.slots_per_chunk()) by (nonlinear_arith);
        assert forall|slot: Slot| self.valid(slot) implies #[trigger] next.extent_of(slot)
            == self.extent_of(slot) by {
            assert(next.chunks[slot.chunk] == self.chunks[slot.chunk]);
        }
    }

    /// Taking back a block that is out keeps the class well formed.
    pub proof fn lemma_after_free(self, block: Extent, tag: int)
        requires
            self.wf(),
            self.owns(block, tag),
        ensures
            self.after_free(block, tag).wf(),
            self.after_free(block, tag).bytes_out() + block.size() == self.bytes_out(),
            self.valid(self.slot_of(block, tag)),
            block.wf(),
            block.size() == self.block_size,
            0 <= tag < self.chunks.len(),
            self.chunks[tag].contains(block),
            !self.after_free(block, tag).owns(block, tag),
    {
        let slot = self.slot_of(block, tag);
        let next = self.after_free(block, tag);
        self.lemma_slot_bounds(slot);
        assert((next.live.len() + 1) * self.block_size == next.live.len() * self.block_size
            + self.block_size) by (nonlinear_arith);
        assert(forall|i: int| 1 <= i < next.free.len() ==> next.free[i] == self.free[i - 1]);
        assert(next.free[0] == slot);
        assert forall|i: int, j: int|
            0 <= i < next.free.len() && 0 <= j < next.free.len() && i != j implies next.free[i]
            != next.free[j] by {
            if i == 0 {
                assert(self.free[j - 1] == next.free[j]);
                assert(self.free.contains(next.free[j]));
            } else if j == 0 {
                assert(self.free[i - 1] == next.free[i]);
                assert(self.free.contains(next.free[i]));
            }
        }
        assert forall|other: Slot| next.valid(other) implies (#[trigger] next.free.contains(other)
            <==> !next.live.contains(other)) by {
            if other != slot {
                if self.free.contains(other) {
                    let i = choose|i: int| 0 <= i < self.free.len() && self.free[i] == other;
                    assert(next.free[i + 1] == other);
                }
                if next.free.contains(other) {
                    let i = choose|i: int| 0 <= i < next.free.len() && next.free[i] == other;
                    assert(self.free[i - 1] == other);
                }
            }
        }
    }

    /// The class is in use exactly when its free slots are not all the slots
    /// of its chunks.
    pub proof fn lemma_is_used(self)
        requires
            self.wf(),
        ensures
            self.is_used() <==> self.free.len() != self.chunks.len() * self.slots_per_chunk(),
            self.is_used() <==> exists|slot: Slot| self.live.contains(slot),
    {
        if self.live.len() != 0 {
            assert(self.live.contains(self.live.choose()));
        }
        if exists|slot: Slot| self.live.contains(slot) {
            let slot = choose|slot: Slot| self.live.contains(slot);
            assert(self.live.contains(slot));
        }
    }

    /// While fewer slots are free than a chunk holds, the class has just the
    /// chunks that its blocks need: their number is the number of blocks
    /// that are out, divided by the slots of a chunk and rounded up.
    pub proof fn lemma_no_spare_chunk(self)
        requires
            self.wf(),
            self.free.len() < self.slots_per_chunk(),
        ensures
            self.chunks.len() == (self.live.len() + self.slots_per_chunk() - 1)
                / self.slots_per_chunk(),
    {
        let n = self.chunks.len() as int;
        let s = self.slots_per_chunk();
        let l = self.live.len() as int;
        let f = self.free.len() as int;
        assert((l + s - 1) / s == n) by (nonlinear_arith)
            requires
                f + l == n * s,
                0 <= f < s,
                0 <= l,
                0 <= n,
        {
            let x = l + s - 1;
            assert(x == n * s + (s - 1 - f));
            assert(x == s * (x / s) + x % s);
            assert(0 <= x % s < s);
            assert(0 <= s - 1 - f < s);
            if x / s > n {
                assert(s * (x / s) >= s * (n + 1));
                assert(s * (n + 1) == n * s + s);
            }
            if x / s < n {
                assert(s * (x / s) <= s * (n - 1));
                assert(s * (n - 1) == n * s - s);
            }
        }
    }
}

impl ClassStep {
    /// The invariant of a size class with its owner.
    pub open spec fn wf(self) -> bool {
        &&& self.class.wf()
        &&& self.owner.wf()
        &&& self.class.backed_by(self.owner)
    }
}

/// A free slot: the index of its chunk and its index within the chunk.
#[derive(Clone, Copy, Debug)]
struct FreeBlock {
    chunk_index: usize,
    block_index: u64,
}

impl View for FreeBlock {
    type V = Slot;

    closed spec fn view(&self) -> Slot {
        Slot { chunk: self.chunk_index as int, index: self.block_index as int }
    }
}

/// A block of the chunked allocator: the block proper, and the index of the
/// chunk that it lies in.
#[derive(Debug)]
pub struct ChunkedBlock(pub(crate) RawBlock, pub(crate) usize);

impl ChunkedBlock {
    /// The index of the chunk that the block lies in.
    pub closed spec fn tag(&self) -> int {
        self.1 as int
    }

    /// The index of the chunk that the block lies in.
    pub fn chunk_index(&self) -> (tag: usize)
        ensures
            tag == self.tag(),
    {
        self.1
    }

    /// Puts a block and its tag together.
    pub(crate) fn new(block: RawBlock, tag: usize) -> (tagged: ChunkedBlock)
        ensures
            tagged.extent() == block@,
            tagged.tag() == tag,
    {
        ChunkedBlock(block, tag)
    }

    /// Takes a block and its tag apart.
    pub(crate) fn into_parts(self) -> (parts: (RawBlock, usize))
        ensures
            parts.0@ == self.extent(),
            parts.1 == self.tag(),
    {
        (self.0, self.1)
    }
}

impl Region for ChunkedBlock {
    closed spec fn extent(&self) -> Extent {
        self.0@
    }

    fn memory(&self) -> (memory: MemoryHandle) {
        self.0.memory()
    }

    fn range(&self) -> (range: Range<u64>) {
        self.0.range()
    }
}

impl Block for ChunkedBlock {}

/// One size class: chunks of one size, cut into slots of one size.
pub struct ChunkedNode {
    id: MemoryTypeId,
    chunk_size: u64,
    block_size: u64,
    free: VecDeque<FreeBlock>,
    chunks: Vec<RawBlock>,
    live: Ghost<Set<Slot>>,
}

impl View for ChunkedNode {
    type V = ClassView;

    closed spec fn view(&self) -> ClassView {
        ClassView {
            id: self.id,
            chunk_size: self.chunk_size as nat,
            block_size: self.block_size as nat,
            free: self.free@.map_values(|slot: FreeBlock| slot@),
            chunks: self.chunks@.map_values(|chunk: RawBlock| chunk@),
            live: self.live@,
        }
    }
}

impl ChunkedNode {
    /// The invariant of the class.
    pub open spec fn wf(&self) -> bool {
        self@.wf()
    }

    /// The class with its owner and the exchange, as one value.
    pub open spec fn step(&self, owner: &RootAllocator, device: &Exchange) -> ClassStep {
        ClassStep { class: self@, owner: owner@, device: device@ }
    }

    /// A class without chunks.
    pub fn new(chunk_size: u64, block_size: u64, id: MemoryTypeId) -> (class: ChunkedNode)
        requires
            block_size > 0,
        ensures
            class.wf(),
            class@ == ClassView::empty(id, chunk_size as nat, block_size as nat),
    {
        proof {
            ClassView::lemma_empty(id, chunk_size as nat, block_size as nat);
        }
        let class = ChunkedNode {
            id,
            chunk_size,
            block_size,
            free: VecDeque::new(),
            chunks: Vec::new(),
            live: Ghost(Set::empty()),
        };
        assert(class@.free =~= Seq::empty());
        assert(class@.chunks =~= Seq::empty());
        class
    }

    /// The number of slots in a chunk.
    pub fn blocks_per_chunk(&self) -> (count: u64)
        requires
            self.wf(),
        ensures
            count == self@.slots_per_chunk(),
    {
        self.chunk_size / self.block_size
    }

    /// Tells whether blocks of the class are out.
    pub fn is_used(&self) -> (used: bool)
        requires
            self.wf(),
        ensures
            used == self@.is_used(),
    {
        proof {
            self@.lemma_is_used();
        }
        let chunks = self.chunks.len() as u64;
        let free = self.free.len() as u64;
        match chunks.checked_mul(self.blocks_per_chunk()) {
            Some(slots) => slots != free,
            None => true,
        }
    }

    /// The bytes in the blocks that are out.
    pub(crate) fn used(&self) -> (bytes: u64)
        requires
            self.wf(),
            self@.bytes_out() <= u64::MAX,
        ensures
            bytes == self@.bytes_out(),
    {
        let chunks = self.chunks.len() as u128;
        let slots = self.blocks_per_chunk() as u128;
        let free = self.free.len() as u128;
        let size = self.block_size as u128;
        assert(chunks * slots <= 0xffff_ffff_ffff_ffff * 0xffff_ffff_ffff_ffff) by (nonlinear_arith)
            requires
                chunks <= 0xffff_ffff_ffff_ffff,
                slots <= 0xffff_ffff_ffff_ffff,
        ;
        let out = chunks * slots - free;
        assert(out == self@.live.len());
        assert(out <= out * size) by (nonlinear_arith)
            requires
                size >= 1,
                out >= 0,
        ;
        (out * size) as u64
    }

    /// The size of the slots.
    pub fn block_size(&self) -> (size: u64)
        ensures
            size == self@.block_size,
    {
        self.block_size
    }

    /// The size of the chunks.
    pub fn chunk_size(&self) -> (size: u64)
        ensures
            size == self@.chunk_size,
    {
        self.chunk_size
    }

    /// The chunk with index `index`.
    pub fn chunk(&self, index: usize) -> (chunk: &RawBlock)
        requires
            index < self@.chunks.len(),
        ensures
            chunk@ == self@.chunks[index as int],
    {
        &self.chunks[index]
    }

    /// The memory object that the device must grant before `allocate` can
    /// serve `reqs`, if it needs one.
    pub fn demand(&self, owner: &RootAllocator, reqs: Requirements) -> (demand: Option<Demand>)
        requires
            self.wf(),
            owner.wf(),
        ensures
            demand == self@.demand(owner@, reqs),
    {
        if type_allowed(reqs.type_mask, self.id.0) && self.free.len() == 0
            && self.blocks_per_chunk() > 0 && self.chunks.len() < usize::MAX && self.chunk_size
            <= u64::MAX - owner.used() {
            Some(Demand { memory_type: self.id, size: self.chunk_size })
        } else {
            None
        }
    }

    /// Takes a new chunk from `owner` and adds its slots to the free ones.
    fn grow(&mut self, owner: &mut RootAllocator, device: &mut Exchange) -> (result: Result<
        (),
        MemoryError,
    >)
        requires
            old(self).step(old(owner), old(device)).wf(),
            old(self).id.0 < 64,
        ensures
            final(self).step(final(owner), final(device)).wf(),
            match result {
                Ok(()) => {
                    &&& old(self)@.slots_per_chunk() > 0
                    &&& old(self)@.chunks.len() < usize::MAX
                    &&& old(owner)@.accepts(old(device)@, old(self).chunk_size)
                    &&& final(self)@ == old(self)@.grown(old(self)@.new_chunk(old(device)@))
                    &&& final(owner)@ == old(owner)@.after_alloc(
                        old(self)@.new_chunk(old(device)@),
                    )
                    &&& final(device)@ == old(device)@.after_claim()
                },
                Err(error) => {
                    &&& error == MemoryError::OutOfMemory
                    &&& !(old(self)@.slots_per_chunk() > 0 && old(self)@.chunks.len()
                        < usize::MAX && old(owner)@.accepts(old(device)@, old(self).chunk_size))
                    &&& final(self).step(final(owner), final(device)) == old(self).step(
                        old(owner),
                        old(device),
                    )
                },
            },
    {
        broadcast use group_multiset_axioms;

        let count = self.blocks_per_chunk();
        if count == 0 || self.chunks.len() == usize::MAX {
            return Err(MemoryError::OutOfMemory);
        }
        let reqs = Requirements {
            type_mask: 1u64 << (self.id.0 as u64),
            size: self.chunk_size,
            alignment: self.block_size,
        };
        let chunk = match owner.allocate(device, (), reqs) {
            Ok(chunk) => chunk,
            Err(error) => {
                return Err(error);
            },
        };
        proof {
            old(self)@.lemma_grown(chunk@);
            old(owner)@.lemma_after_alloc(chunk@);
        }
        let chunk_index = self.chunks.len();
        let ghost fresh = slots_of(chunk_index as int, count as int);
        let mut index: u64 = 0;
        while index < count
            invariant
                index <= count,
                fresh == slots_of(chunk_index as int, count as int),
                self.free@.map_values(|slot: FreeBlock| slot@) =~= old(self)@.free + fresh.take(
                    index as int,
                ),
                self.chunks == old(self).chunks,
                self.live == old(self).live,
                self.id == old(self).id,
                self.chunk_size == old(self).chunk_size,
                self.block_size == old(self).block_size,
            decreases count - index,
        {
            let ghost before = self.free@.map_values(|slot: FreeBlock| slot@);
            let slot = FreeBlock { chunk_index, block_index: index };
            self.free.push_back(slot);
            proof {
                assert(self.free@.map_values(|slot: FreeBlock| slot@) =~= before.push(slot@));
                assert(fresh[index as int] == slot@);
                assert(fresh.take(index + 1) =~= fresh.take(index as int).push(slot@));
            }
            index += 1;
        }
        assert(fresh.take(count as int) =~= fresh);
        self.chunks.push(chunk);
        assert(self@.chunks =~= old(self)@.chunks.push(chunk@));
        assert(self@ == old(self)@.grown(chunk@));
        Ok(())
    }

    /// Hands out the first free slot. Where no slot is free, a new chunk is
    /// taken from `owner` first.
    ///
    /// Fails with `NoCompatibleMemoryType` where `reqs` does not accept the
    /// memory type of the class, and with `OutOfMemory` where no slot is free
    /// and a chunk cannot be had: the device has granted no memory object, a
    /// chunk has no room for a slot, or the count of used bytes of the owner
    /// would not fit in 64 bits. A failed request changes nothing.
    pub fn allocate(
        &mut self,
        owner: &mut RootAllocator,
        device: &mut Exchange,
        request: (),
        reqs: Requirements,
    ) -> (result: Result<ChunkedBlock, MemoryError>)
        requires
            old(self).step(old(owner), old(device)).wf(),
        ensures
            final(self).step(final(owner), final(device)).wf(),
            final(self).step(final(owner), final(device)) == old(self)@.after_alloc(
                old(owner)@,
                old(device)@,
                reqs,
            ),
            match result {
                Ok(block) => {
                    &&& old(self)@.alloc_error(old(owner)@, old(device)@, reqs) is None
                    &&& block.extent() == old(self)@.allocated(old(device)@)
                    &&& block.tag() == old(self)@.next_slot(old(device)@).chunk
                    &&& block.extent().size() == old(self)@.block_size
                    &&& mask_allows(reqs.type_mask, old(self)@.id.0 as int)
                    &&& !old(self)@.owns(block.extent(), block.tag())
                    &&& final(self)@.owns(block.extent(), block.tag())
                },
                Err(error) => old(self)@.alloc_error(old(owner)@, old(device)@, reqs) == Some(
                    error,
                ),
            },
    {
        if !type_allowed(reqs.type_mask, self.id.0) {
            return Err(MemoryError::NoCompatibleMemoryType);
        }
        if self.free.len() == 0 {
            match self.grow(owner, device) {
                Ok(()) => {},
                Err(error) => {
                    return Err(error);
                },
            }
        }
        let ghost supplied = self@;
        proof {
            assert(supplied == old(self)@.supplied(old(device)@));
            assert(supplied.free.len() > 0) by {
                if old(self)@.free.len() == 0 {
                    assert(supplied.free.len() == old(self)@.slots_per_chunk());
                }
            }
            supplied.lemma_taken();
            supplied.lemma_slot_bounds(supplied.free[0]);
            if old(self)@.free.len() == 0 {
                old(self)@.lemma_grown(old(self)@.new_chunk(old(device)@));
                if old(self)@.owns(supplied.extent_of(supplied.free[0]), supplied.free[0].chunk) {
                    old(self)@.lemma_after_free(
                        supplied.extent_of(supplied.free[0]),
                        supplied.free[0].chunk,
                    );
                }
            }
        }
        let slot = self.free.pop_front().unwrap();
        let chunk = &self.chunks[slot.chunk_index];
        let offset = slot.block_index * self.block_size + chunk.range().start;
        let block = RawBlock::new(chunk.memory(), offset..self.block_size + offset);
        proof {
            self.live@ = self.live@.insert(slot@);
        }
        assert(self@.free =~= supplied.taken().free);
        assert(self@ == supplied.taken());
        Ok(ChunkedBlock::new(block, slot.chunk_index))
    }

    /// Takes back a block of the class: its slot is handed out next.
    pub fn free(&mut self, block: ChunkedBlock)
        requires
            old(self).wf(),
            old(self)@.owns(block.extent(), block.tag()),
        ensures
            final(self).wf(),
            final(self)@ == old(self)@.after_free(block.extent(), block.tag()),
            !final(self)@.owns(block.extent(), block.tag()),
    {
        proof {
            self@.lemma_after_free(block.extent(), block.tag());
        }
        let ghost slot = self@.slot_of(block.extent(), block.tag());
        let (block, chunk_index) = block.into_parts();
        let offset = block.range().start;
        block.dispose();
        let block_index = (offset - self.chunks[chunk_index].range().start) / self.block_size;
        self.free.push_front(FreeBlock { chunk_index, block_index });
        proof {
            self.live@ = self.live@.remove(slot);
        }
        assert(self@.free =~= old(self)@.after_free(block@, chunk_index as int).free);
    }

    /// Ends the class and returns its chunks to `owner`, the oldest first.
    /// Where blocks are out, the class comes back unchanged.
    pub fn dispose(self, owner: &mut RootAllocator, device: &mut Exchange) -> (result: Result<
        (),
        ChunkedNode,
    >)
        requires
            self.step(old(owner), old(device)).wf(),
        ensures
            final(owner).wf(),
            match result {
                Ok(()) => {
                    &&& !self@.is_used()
                    &&& final(owner)@ == old(owner)@.after_free_all(self@.chunks.to_multiset())
                    &&& final(device)@.granted == old(device)@.granted
                    &&& final(device)@.released == old(device)@.released + memories_of(self@.chunks)
                },
                Err(class) => {
                    &&& self@.is_used()
                    &&& class == self
                    &&& final(owner)@ == old(owner)@
                    &&& final(device)@ == old(device)@
                },
            },
    {
        broadcast use group_multiset_axioms;

        if self.is_used() {
            return Err(self);
        }
        let ChunkedNode { id: _, chunk_size: _, block_size: _, free: _, chunks, live: _ } = self;
        let ghost all = self@.chunks;
        let ghost blocks = chunks@;
        proof {
            crate::extent::lemma_total_empty(extent_size());
            all.take(0).to_multiset_ensures();
            assert(all.take(0).to_multiset() =~= Multiset::empty());
            assert(old(owner)@.live.sub(Multiset::empty()) =~= old(owner)@.live);
            assert(memories_of(all).take(0) =~= Seq::empty());
            assert(old(device)@.released + Seq::<MemoryHandle>::empty() =~= old(device)@.released);
        }
        for chunk in iter: chunks.into_iter()
            invariant
                owner.wf(),
                old(owner).wf(),
                all.to_multiset().subset_of(old(owner)@.live),
                iter.seq() == blocks,
                blocks.map_values(|chunk: RawBlock| chunk@) =~= all,
                owner@ == old(owner)@.after_free_all(all.take(iter.index() as int).to_multiset()),
                device@.granted == old(device)@.granted,
                device@.released == old(device)@.released + memories_of(all).take(
                    iter.index() as int,
                ),
        {
            proof {
                let done = iter.index() as int;
                assert(chunk@ == all[done]);
                assert(all.take(done + 1) =~= all.take(done).push(chunk@));
                vstd::seq_lib::to_multiset_build(all.take(done), chunk@);
                lemma_first_ones(all, done + 1);
                old(owner)@.lemma_after_free_all(all.take(done).to_multiset(), chunk@);
                assert(memories_of(all).take(done + 1) =~= memories_of(all).take(done).push(
                    chunk@.memory,
                ));
            }
            owner.free(device, chunk);
        }
        proof {
            assert(all.take(all.len() as int) =~= all);
            assert(memories_of(all).take(all.len() as int) =~= memories_of(all));
        }
        Ok(())
    }
}

/// The first members of a sequence are among its members.
pub proof fn lemma_first_ones(ranges: Seq<Extent>, count: int)
    requires
        0 <= count <= ranges.len(),
    ensures
        ranges.take(count).to_multiset().subset_of(ranges.to_multiset()),
    decreases ranges.len() - count,
{
    broadcast use group_multiset_axioms;

    if count < ranges.len() {
        lemma_first_ones(ranges, count + 1);
        assert(ranges.take(count + 1) =~= ranges.take(count).push(ranges[count]));
        vstd::seq_lib::to_multiset_build(ranges.take(count), ranges[count]);
    } else {
        assert(ranges.take(count) =~= ranges);
    }
}

/// Ranges of one size weigh their number times that size.
pub proof fn lemma_sum_of_equal_sizes(ranges: Seq<Extent>, size: nat)
    requires
        forall|i: int| 0 <= i < ranges.len() ==> (#[trigger] ranges[i]).start == 0 && ranges[i].end
            == size,
    ensures
        crate::extent::sum_of_sizes(ranges) == ranges.len() * size,
    decreases ranges.len(),
{
    if ranges.len() > 0 {
        let init = ranges.drop_last();
        lemma_sum_of_equal_sizes(init, size);
        assert(ranges.last() == ranges[ranges.len() - 1]);
        assert(ranges.len() * size == init.len() * size + size) by (nonlinear_arith)
            requires
                ranges.len() == init.len() + 1,
        ;
    } else {
        assert(ranges.len() * size == 0) by (nonlinear_arith)
            requires
                ranges.len() == 0,
        ;
    }
}

/// The number of doublings that take `block` up to `size` or beyond.
pub open spec fn class_from(size: int, block: int) -> nat
    decreases
            (if size > block {
                size - block
            } else {
                0
            }),
{
    if size <= block || block <= 0 {
        0
    } else {
        1 + class_from(size, 2 * block)
    }
}

/// `class_from` gives the least number of doublings.
pub proof fn lemma_class_from(size: int, block: int)
    requires
        block > 0,
    ensures
        size <= block * pow2(class_from(size, block)),
        class_from(size, block) > 0 ==> size > block * pow2((class_from(size, block) - 1) as nat),
    decreases
            (if size > block {
                size - block
            } else {
                0
            }),
{
    lemma2_to64();
    let class = class_from(size, block);
    if size <= block {
        assert(class == 0);
        assert(block * pow2(0) == block) by (nonlinear_arith)
            requires
                pow2(0) == 1,
        ;
    } else {
        let rest = class_from(size, 2 * block);
        assert(class == rest + 1);
        lemma_class_from(size, 2 * block);
        lemma_pow2_unfold(rest + 1);
        assert(block * pow2(rest + 1) == (2 * block) * pow2(rest)) by (nonlinear_arith)
            requires
                pow2(rest + 1) == 2 * pow2(rest),
        ;
        if rest > 0 {
            lemma_pow2_unfold(rest);
            assert(block * pow2(rest) == (2 * block) * pow2((rest - 1) as nat)) by (
                nonlinear_arith)
                requires
                    pow2(rest) == 2 * pow2((rest - 1) as nat),
            ;
        } else {
            assert(block * pow2(0) == block) by (nonlinear_arith)
                requires
                    pow2(0) == 1,
            ;
        }
    }
}

/// The number of doublings is the only one that reaches `size` and is not
/// more than needed.
pub proof fn lemma_class_from_unique(size: int, block: int, class: nat)
    requires
        block > 0,
        size <= block * pow2(class),
        class > 0 ==> size > block * pow2((class - 1) as nat),
    ensures
        class_from(size, block) == class,
{
    let found = class_from(size, block);
    lemma_class_from(size, block);
    if found < class {
        lemma_pow2_monotonic(found, (class - 1) as nat);
        assert(block * pow2(found) <= block * pow2((class - 1) as nat)) by (nonlinear_arith)
            requires
                block > 0,
                pow2(found) <= pow2((class - 1) as nat),
        ;
    } else if found > class {
        lemma_pow2_monotonic(class, (found - 1) as nat);
        assert(block * pow2(class) <= block * pow2((found - 1) as nat)) by (nonlinear_arith)
            requires
                block > 0,
                pow2(class) <= pow2((found - 1) as nat),
        ;
    }
}

/// Powers of two grow with their exponents.
pub proof fn lemma_pow2_monotonic(low: nat, high: nat)
    requires
        low <= high,
    ensures
        pow2(low) <= pow2(high),
        pow2(low) > 0,
{
    lemma_pow2_pos(low);
    if low < high {
        lemma_pow2_strictly_increases(low, high);
    }
}

/// What a chunked allocator stands for.
pub ghost struct ChunkedView {
    /// The memory type that it allocates.
    pub id: MemoryTypeId,
    /// The number of slots that a chunk holds, unless `max_chunk_size` allows
    /// fewer.
    pub blocks_per_chunk: nat,
    /// The size of the slots of the first class.
    pub min_block_size: nat,
    /// The size that no chunk and no block exceeds.
    pub max_chunk_size: nat,
    /// The size classes, 64 of them: the slots of each are twice as large as
    /// those of the one before.
    pub classes: Seq<ClassView>,
}

/// A chunked allocator with the owner of its chunks and the exchange with
/// the device.
pub ghost struct ChunkedStep {
    pub chunked: ChunkedView,
    pub owner: RootView,
    pub device: ExchangeView,
}

/// The greater of the size and the alignment that `reqs` asks for: what a
/// slot must hold.
pub open spec fn need(reqs: Requirements) -> int {
    if reqs.size > reqs.alignment {
        reqs.size as int
    } else {
        reqs.alignment as int
    }
}

impl ChunkedView {
    /// The size of the slots of class `class`.
    pub open spec fn block_size(self, class: int) -> nat {
        if class >= 0 {
            self.min_block_size * pow2(class as nat)
        } else {
            0
        }
    }

    /// The size of the chunks of class `class`.
    pub open spec fn chunk_size(self, class: int) -> nat {
        if self.block_size(class) * self.blocks_per_chunk <= self.max_chunk_size {
            self.block_size(class) * self.blocks_per_chunk
        } else {
            self.max_chunk_size
        }
    }

    /// The class that serves blocks of `size` bytes: the first whose slots
    /// hold them.
    pub open spec fn class_of(self, size: int) -> int {
        class_from(size, self.min_block_size as int) as int
    }

    /// Class `class` without chunks.
    pub open spec fn pristine(self, class: int) -> ClassView {
        ClassView::empty(self.id, self.chunk_size(class), self.block_size(class))
    }

    /// An allocator without chunks.
    pub open spec fn empty(
        id: MemoryTypeId,
        blocks_per_chunk: nat,
        min_block_size: nat,
        max_chunk_size: nat,
    ) -> ChunkedView {
        let sizes = ChunkedView {
            id,
            blocks_per_chunk,
            min_block_size,
            max_chunk_size,
            classes: Seq::empty(),
        };
        ChunkedView { classes: Seq::new(64, |class: int| sizes.pristine(class)), ..sizes }
    }

    /// The two sizes are powers of two. Each class has the sizes of its
    /// place, and is well formed unless it has never had a chunk.
    pub open spec fn wf(self) -> bool {
        &&& is_power_of_two(self.min_block_size as int)
        &&& is_power_of_two(self.max_chunk_size as int)
        &&& self.min_block_size <= u64::MAX
        &&& self.max_chunk_size <= u64::MAX
        &&& self.classes.len() == 64
        &&& forall|class: int|
            0 <= class < 64 ==> {
                ||| (#[trigger] self.classes[class]) == self.pristine(class)
                ||| {
                    &&& self.classes[class].wf()
                    &&& self.classes[class].id == self.id
                    &&& self.classes[class].block_size == self.block_size(class)
                    &&& self.classes[class].chunk_size == self.chunk_size(class)
                }
            }
    }

    /// Whether the block `block` with tag `tag` is out.
    pub open spec fn owns(self, block: Extent, tag: int) -> bool {
        let class = self.class_of(block.size() as int);
        class < 64 && self.classes[class].owns(block, tag)
    }

    /// Whether blocks of the allocator are out.
    pub open spec fn is_used(self) -> bool {
        exists|class: int| 0 <= class < 64 && (#[trigger] self.classes[class]).is_used()
    }

    /// The bytes in the blocks that are out of the first `count` classes.
    pub open spec fn bytes_upto(self, count: int) -> nat
        decreases count,
    {
        if count <= 0 {
            0
        } else {
            self.bytes_upto(count - 1) + self.classes[count - 1].bytes_out()
        }
    }

    /// The bytes in the blocks that are out.
    pub open spec fn bytes_out(self) -> nat {
        self.bytes_upto(64)
    }

    /// The blocks that are out of the first `count` classes have no more
    /// bytes than the chunks of these classes.
    pub proof fn lemma_bytes_upto(self, count: int)
        requires
            self.wf(),
            0 <= count <= 64,
        ensures
            self.bytes_upto(count) <= total(self.chunks_upto(count), extent_size()),
        decreases count,
    {
        if count > 0 {
            self.lemma_bytes_upto(count - 1);
            let class = self.classes[count - 1];
            crate::extent::lemma_total_add(
                self.chunks_upto(count - 1),
                class.chunks.to_multiset(),
                extent_size(),
            );
            if class == self.pristine(count - 1) {
                assert(class.live.len() == 0);
                assert(class.bytes_out() == 0) by (nonlinear_arith)
                    requires
                        class.bytes_out() == class.live.len() * class.block_size,
                        class.live.len() == 0,
                ;
            } else {
                class.lemma_bytes_out();
            }
        } else {
            crate::extent::lemma_total_empty(extent_size());
        }
    }

    /// Classes without blocks out have no bytes out.
    pub proof fn lemma_no_bytes(self, count: int)
        requires
            0 <= count <= self.classes.len(),
            forall|class: int|
                0 <= class < count ==> (#[trigger] self.classes[class]).live.len() == 0,
        ensures
            self.bytes_upto(count) == 0,
        decreases count,
    {
        if count > 0 {
            self.lemma_no_bytes(count - 1);
            let class = self.classes[count - 1];
            assert(class.bytes_out() == 0) by (nonlinear_arith)
                requires
                    class.bytes_out() == class.live.len() * class.block_size,
                    class.live.len() == 0,
            ;
        }
    }

    /// The bytes in the blocks that are out after one class has changed.
    pub proof fn lemma_bytes_update(self, class: int, next: ClassView, count: int)
        requires
            0 <= class < self.classes.len(),
            0 <= count <= self.classes.len(),
        ensures
            (ChunkedView { classes: self.classes.update(class, next), ..self }).bytes_upto(count)
                + (if class < count {
                self.classes[class].bytes_out()
            } else {
                0
            }) == self.bytes_upto(count) + (if class < count {
                next.bytes_out()
            } else {
                0
            }),
        decreases count,
    {
        if count > 0 {
            self.lemma_bytes_update(class, next, count - 1);
        }
    }

    /// The blocks that are out of the first classes have no more bytes than
    /// those that are out of more classes.
    pub proof fn lemma_bytes_grow(self, fewer: int, more: int)
        requires
            0 <= fewer <= more,
        ensures
            self.bytes_upto(fewer) <= self.bytes_upto(more),
        decreases more - fewer,
    {
        if fewer < more {
            self.lemma_bytes_grow(fewer, more - 1);
        }
    }

    /// The chunks of the first `count` classes.
    pub open spec fn chunks_upto(self, count: int) -> Multiset<Extent>
        decreases count,
    {
        if count <= 0 {
            Multiset::empty()
        } else {
            self.chunks_upto(count - 1).add(self.classes[count - 1].chunks.to_multiset())
        }
    }

    /// The chunks that the allocator holds.
    pub open spec fn chunks(self) -> Multiset<Extent> {
        self.chunks_upto(64)
    }

    /// The memory objects of the chunks of the first `count` classes, class
    /// by class, and of each class the oldest first.
    pub open spec fn memories_upto(self, count: int) -> Seq<MemoryHandle>
        decreases count,
    {
        if count <= 0 {
            Seq::empty()
        } else {
            self.memories_upto(count - 1) + memories_of(self.classes[count - 1].chunks)
        }
    }

    /// Whether every chunk of the allocator is a block that `owner` has out.
    pub open spec fn backed_by(self, owner: RootView) -> bool {
        self.chunks().subset_of(owner.live)
    }

    /// Whether the allocator takes requests like `reqs` at all: a slot for it
    /// is no larger than `max_chunk_size`.
    pub open spec fn admits(self, reqs: Requirements) -> bool {
        need(reqs) <= self.max_chunk_size
    }

    /// The class that serves `reqs`.
    pub open spec fn class_for(self, reqs: Requirements) -> int {
        self.class_of(need(reqs))
    }

    /// The memory object that the device must grant before the allocator can
    /// serve `reqs`, if it needs one.
    pub open spec fn demand(self, owner: RootView, reqs: Requirements) -> Option<Demand> {
        if self.admits(reqs) {
            self.classes[self.class_for(reqs)].demand(owner, reqs)
        } else {
            None
        }
    }

    /// The error with which a request fails, if it does.
    pub open spec fn alloc_error(
        self,
        owner: RootView,
        device: ExchangeView,
        reqs: Requirements,
    ) -> Option<MemoryError> {
        if self.admits(reqs) {
            self.classes[self.class_for(reqs)].alloc_error(owner, device, reqs)
        } else {
            Some(MemoryError::OutOfMemory)
        }
    }

    /// The allocator, its owner and the exchange after a request for `reqs`.
    pub open spec fn after_alloc(
        self,
        owner: RootView,
        device: ExchangeView,
        reqs: Requirements,
    ) -> ChunkedStep {
        if self.admits(reqs) {
            let class = self.class_for(reqs);
            let step = self.classes[class].after_alloc(owner, device, reqs);
            ChunkedStep {
                chunked: ChunkedView { classes: self.classes.update(class, step.class), ..self },
                owner: step.owner,
                device: step.device,
            }
        } else {
            ChunkedStep { chunked: self, owner, device }
        }
    }

    /// The block that a request that succeeds gets.
    pub open spec fn allocated(self, device: ExchangeView, reqs: Requirements) -> Extent {
        self.classes[self.class_for(reqs)].allocated(device)
    }

    /// The tag of the block that a request that succeeds gets.
    pub open spec fn allocated_tag(self, device: ExchangeView, reqs: Requirements) -> int {
        self.classes[self.class_for(reqs)].next_slot(device).chunk
    }

    /// The allocator once the block `block` with tag `tag` has come back.
    pub open spec fn after_free(self, block: Extent, tag: int) -> ChunkedView {
        let class = self.class_of(block.size() as int);
        ChunkedView {
            classes: self.classes.update(class, self.classes[class].after_free(block, tag)),
            ..self
        }
    }

    /// The owner once the allocator has ended.
    pub open spec fn owner_after_dispose(self, owner: RootView) -> RootView {
        owner.after_free_all(self.chunks())
    }

    /// The exchange once the allocator has ended.
    pub open spec fn device_after_dispose(self, device: ExchangeView) -> ExchangeView {
        ExchangeView { released: device.released + self.memories_upto(64), ..device }
    }
}

impl ChunkedStep {
    /// The invariant of a chunked allocator with its owner.
    pub open spec fn wf(self) -> bool {
        &&& self.chunked.wf()
        &&& self.owner.wf()
        &&& self.chunked.backed_by(self.owner)
    }
}

impl ClassView {
    /// Handing out the first free slot puts its block out and changes nothing
    /// else in what is out.
    pub proof fn lemma_taken_owns(self)
        requires
            self.wf(),
            self.free.len() > 0,
        ensures
            !self.owns(self.extent_of(self.free[0]), self.free[0].chunk),
            forall|block: Extent, tag: int|
                #[trigger] self.taken().owns(block, tag) <==> self.owns(block, tag) || (block
                    == self.extent_of(self.free[0]) && tag == self.free[0].chunk),
    {
        self.lemma_taken();
        let slot = self.free[0];
        self.lemma_slot_bounds(slot);
        assert forall|block: Extent, tag: int| #[trigger]
            self.taken().owns(block, tag) <==> self.owns(block, tag) || (block == self.extent_of(
                slot,
            ) && tag == slot.chunk) by {
            assert(self.taken().slot_of(block, tag) == self.slot_of(block, tag));
            assert(self.taken().extent_of(self.slot_of(block, tag)) == self.extent_of(
                self.slot_of(block, tag),
            ));
        }
    }

    /// A new chunk changes nothing in what is out.
    pub proof fn lemma_grown_owns(self, chunk: Extent)
        requires
            self.wf(),
            self.chunks.len() < usize::MAX,
            chunk.start == 0,
            chunk.end == self.chunk_size,
        ensures
            forall|block: Extent, tag: int|
                #[trigger] self.grown(chunk).owns(block, tag) <==> self.owns(block, tag),
    {
        self.lemma_grown(chunk);
        let next = self.grown(chunk);
        assert forall|block: Extent, tag: int| #[trigger]
            next.owns(block, tag) <==> self.owns(block, tag) by {
            let slot = self.slot_of(block, tag);
            assert(next.slot_of(block, tag) == slot);
            if self.live.contains(slot) {
                assert(self.valid(slot));
                assert(next.extent_of(slot) == self.extent_of(slot));
            }
        }
    }

    /// Taking back a block changes nothing else in what is out.
    pub proof fn lemma_after_free_owns(self, block: Extent, tag: int)
        requires
            self.wf(),
            self.owns(block, tag),
        ensures
            forall|other: Extent, other_tag: int|
                #[trigger] self.after_free(block, tag).owns(other, other_tag) <==> self.owns(
                    other,
                    other_tag,
                ) && !(other == block && other_tag == tag),
    {
        let next = self.after_free(block, tag);
        assert forall|other: Extent, other_tag: int| #[trigger]
            next.owns(other, other_tag) <==> self.owns(other, other_tag) && !(other == block
                && other_tag == tag) by {
            assert(next.slot_of(other, other_tag) == self.slot_of(other, other_tag));
            assert(next.extent_of(self.slot_of(other, other_tag)) == self.extent_of(
                self.slot_of(other, other_tag),
            ));
        }
    }

    /// A request keeps the invariant of the class and its owner. Where it
    /// succeeds, the new block is out, which it was not before, and nothing
    /// else changes in what is out.
    pub proof fn lemma_after_alloc(self, owner: RootView, device: ExchangeView, reqs: Requirements)
        requires
            (ClassStep { class: self, owner, device }).wf(),
        ensures
            self.after_alloc(owner, device, reqs).wf(),
            self.after_alloc(owner, device, reqs).owner.live.subset_of(
                owner.live.insert(self.new_chunk(device)),
            ),
            self.after_alloc(owner, device, reqs).owner.live.add(self.chunks.to_multiset())
                =~= owner.live.add(self.after_alloc(owner, device, reqs).class.chunks.to_multiset()),
            self.alloc_error(owner, device, reqs) is None ==> {
                let next = self.after_alloc(owner, device, reqs).class;
                let block = self.allocated(device);
                let tag = self.next_slot(device).chunk;
                &&& block.wf()
                &&& block.size() == self.block_size
                &&& next.bytes_out() == self.bytes_out() + self.block_size
                &&& block.start % (self.block_size as int) == 0
                &&& !self.owns(block, tag)
                &&& next.chunks.len() > 0
                &&& next.chunks.to_multiset() =~= (if self.free.len() > 0 {
                    self.chunks.to_multiset()
                } else {
                    self.chunks.to_multiset().insert(self.new_chunk(device))
                })
                &&& forall|other: Extent, other_tag: int|
                    #[trigger] next.owns(other, other_tag) <==> self.owns(other, other_tag) || (
                    other == block && other_tag == tag)
            },
    {
        broadcast use group_multiset_axioms;

        if self.alloc_error(owner, device, reqs) is None {
            let supplied = self.supplied(device);
            if self.free.len() == 0 {
                let chunk = self.new_chunk(device);
                self.lemma_grown(chunk);
                self.lemma_grown_owns(chunk);
                owner.lemma_after_alloc(chunk);
                assert(supplied.free.len() == self.slots_per_chunk());
            }
            supplied.lemma_taken();
            supplied.lemma_taken_owns();
            let slot = supplied.free[0];
            supplied.lemma_slot_bounds(slot);
            assert((self.live.len() + 1) * self.block_size == self.live.len() * self.block_size
                + self.block_size) by (nonlinear_arith);
            vstd::arithmetic::div_mod::lemma_mod_multiples_basic(
                slot.index,
                self.block_size as int,
            );
        }
    }
}

impl ChunkedView {
    /// The sizes of the slots are powers of two, each twice the one before.
    pub proof fn lemma_block_size(self, class: int) -> (exponent: nat)
        requires
            is_power_of_two(self.min_block_size as int),
            self.min_block_size <= u64::MAX,
            0 <= class,
        ensures
            exponent < 64,
            self.min_block_size == pow2(exponent),
            self.block_size(class) == pow2(exponent + class as nat),
            self.block_size(class) > 0,
            self.block_size(class + 1) == 2 * self.block_size(class),
    {
        let exponent = lemma_power_of_two_exponent(self.min_block_size as u64);
        self.lemma_block_size_from(exponent, class);
        self.lemma_block_size_from(exponent, class + 1);
        lemma_pow2_unfold(exponent + class as nat + 1);
        exponent
    }

    /// The sizes of the slots as powers of two.
    pub proof fn lemma_block_size_from(self, exponent: nat, class: int)
        requires
            self.min_block_size == pow2(exponent),
            0 <= class,
        ensures
            self.block_size(class) == pow2(exponent + class as nat),
            self.block_size(class) > 0,
    {
        vstd::arithmetic::power2::lemma_pow2_adds(exponent, class as nat);
        lemma_pow2_pos(exponent + class as nat);
    }

    /// A power of two below the largest that fits in 64 bits has a smaller
    /// exponent.
    pub proof fn lemma_exponent_below(exponent: nat)
        requires
            pow2(exponent) <= 0x8000_0000_0000_0000,
        ensures
            exponent <= 63,
    {
        lemma2_to64_rest();
        if exponent > 63 {
            lemma_pow2_strictly_increases(63, exponent);
        }
    }

    /// The class of a request that the allocator takes is one of the 64, its
    /// slots hold the request, and their size fits in 64 bits.
    pub proof fn lemma_class_of(self, size: int)
        requires
            is_power_of_two(self.min_block_size as int),
            self.min_block_size <= u64::MAX,
            size <= 0x8000_0000_0000_0000,
        ensures
            0 <= self.class_of(size) < 64,
            size <= self.block_size(self.class_of(size)) <= 0x8000_0000_0000_0000,
            self.class_of(size) > 0 ==> self.block_size(self.class_of(size) - 1) < size,
    {
        lemma2_to64_rest();
        let class = self.class_of(size);
        self.lemma_block_size(0);
        lemma_class_from(size, self.min_block_size as int);
        let exponent = self.lemma_block_size(class);
        if class == 0 {
            lemma_pow2_monotonic(exponent, 63);
        } else {
            self.lemma_block_size_from(exponent, class - 1);
            let below = exponent + (class - 1) as nat;
            assert(pow2(below) < 0x8000_0000_0000_0000);
            Self::lemma_exponent_below(below);
            if below == 63 {
                assert(false);
            }
            lemma_pow2_monotonic(below + 1, 63);
        }
    }

    /// The class of a block of the size of the slots of a class is that
    /// class.
    pub proof fn lemma_class_of_block_size(self, class: int)
        requires
            is_power_of_two(self.min_block_size as int),
            self.min_block_size <= u64::MAX,
            0 <= class,
        ensures
            self.class_of(self.block_size(class) as int) == class,
    {
        self.lemma_block_size(0);
        self.lemma_block_size(class);
        if class > 0 {
            self.lemma_block_size(class - 1);
        }
        lemma_class_from_unique(
            self.block_size(class) as int,
            self.min_block_size as int,
            class as nat,
        );
    }

    /// The chunks of a class are among the chunks of the allocator.
    pub proof fn lemma_chunks_of_class(self, class: int, count: int)
        requires
            0 <= class < count,
        ensures
            self.classes[class].chunks.to_multiset().subset_of(self.chunks_upto(count)),
        decreases count,
    {
        broadcast use group_multiset_axioms;

        if class < count - 1 {
            self.lemma_chunks_of_class(class, count - 1);
        }
    }

    /// The chunks of the allocator after one class has changed.
    pub proof fn lemma_chunks_update(self, class: int, next: ClassView, count: int)
        requires
            0 <= class < self.classes.len(),
            0 <= count <= self.classes.len(),
        ensures
            (ChunkedView { classes: self.classes.update(class, next), ..self }).chunks_upto(count)
                =~= (if class < count {
                self.chunks_upto(count).sub(self.classes[class].chunks.to_multiset()).add(
                    next.chunks.to_multiset(),
                )
            } else {
                self.chunks_upto(count)
            }),
        decreases count,
    {
        broadcast use group_multiset_axioms;

        if count > 0 {
            self.lemma_chunks_update(class, next, count - 1);
            if class < count - 1 {
                self.lemma_chunks_of_class(class, count - 1);
            }
        }
    }

    /// The memory objects of the allocator after one class has changed
    /// without a change of its chunks.
    pub proof fn lemma_memories_update(self, class: int, next: ClassView, count: int)
        requires
            0 <= class < self.classes.len(),
            0 <= count <= self.classes.len(),
            next.chunks == self.classes[class].chunks,
        ensures
            (ChunkedView { classes: self.classes.update(class, next), ..self }).memories_upto(count)
                == self.memories_upto(count),
        decreases count,
    {
        if count > 0 {
            self.lemma_memories_update(class, next, count - 1);
        }
    }

    /// Classes without chunks add nothing to the chunks of the allocator.
    pub proof fn lemma_chunks_beyond(self, grown: int, count: int)
        requires
            0 <= grown <= count <= self.classes.len(),
            forall|class: int| grown <= class < count ==> (#[trigger] self.classes[class]).chunks.len()
                == 0,
        ensures
            self.chunks_upto(count) =~= self.chunks_upto(grown),
            self.memories_upto(count) =~= self.memories_upto(grown),
        decreases count,
    {
        broadcast use group_multiset_axioms;

        if count > grown {
            self.lemma_chunks_beyond(grown, count - 1);
            self.classes[count - 1].chunks.to_multiset_ensures();
            assert(self.classes[count - 1].chunks.to_multiset().len() == 0);
            assert(memories_of(self.classes[count - 1].chunks) =~= Seq::empty());
        }
    }

    /// A request keeps the invariant of the allocator and its owner. Where it
    /// succeeds, the block is large enough and aligned, it is out, which it
    /// was not before, and nothing else changes in what is out.
    pub proof fn lemma_after_alloc(self, owner: RootView, device: ExchangeView, reqs: Requirements)
        requires
            (ChunkedStep { chunked: self, owner, device }).wf(),
        ensures
            self.after_alloc(owner, device, reqs).wf(),
            self.admits(reqs) ==> self.after_alloc(owner, device, reqs).owner.live.subset_of(
                owner.live.insert(self.classes[self.class_for(reqs)].new_chunk(device)),
            ),
            !self.admits(reqs) ==> self.after_alloc(owner, device, reqs).owner == owner,
            self.after_alloc(owner, device, reqs).owner.live.add(self.chunks()) =~= owner.live.add(
                self.after_alloc(owner, device, reqs).chunked.chunks(),
            ),
            self.alloc_error(owner, device, reqs) is Some ==> self.after_alloc(owner, device, reqs)
                == (ChunkedStep { chunked: self, owner, device }),
            self.admits(reqs) ==> {
                &&& 0 <= self.class_for(reqs) < 64
                &&& need(reqs) <= self.block_size(self.class_for(reqs)) <= 0x8000_0000_0000_0000
                &&& (ClassStep { class: self.classes[self.class_for(reqs)], owner, device }).wf()
                &&& self.classes[self.class_for(reqs)].block_size == self.block_size(
                    self.class_for(reqs),
                )
                &&& self.classes[self.class_for(reqs)].id == self.id
            },
            self.alloc_error(owner, device, reqs) is None ==> {
                let next = self.after_alloc(owner, device, reqs).chunked;
                let block = self.allocated(device, reqs);
                let tag = self.allocated_tag(device, reqs);
                &&& block.wf()
                &&& block.size() == self.block_size(self.class_for(reqs))
                &&& next.bytes_out() == self.bytes_out() + block.size()
                &&& block.size() >= reqs.size
                &&& is_power_of_two(reqs.alignment as int) ==> block.start % (
                reqs.alignment as int) == 0
                &&& !self.owns(block, tag)
                &&& forall|other: Extent, other_tag: int|
                    #[trigger] next.owns(other, other_tag) <==> self.owns(other, other_tag) || (
                    other == block && other_tag == tag)
            },
    {
        broadcast use group_multiset_axioms;

        if self.admits(reqs) {
            let class = self.class_for(reqs);
            let max = lemma_power_of_two_exponent(self.max_chunk_size as u64);
            lemma_pow2_monotonic(max, 63);
            lemma2_to64_rest();
            self.lemma_class_of(need(reqs));
            let exponent = self.lemma_block_size(class);
            let old_class = self.classes[class];
            if old_class == self.pristine(class) {
                assert(self.chunk_size(class) <= self.max_chunk_size);
                ClassView::lemma_empty(self.id, self.chunk_size(class), self.block_size(class));
            }
            self.lemma_chunks_of_class(class, 64);
            old_class.lemma_after_alloc(owner, device, reqs);
            let step = old_class.after_alloc(owner, device, reqs);
            let next = self.after_alloc(owner, device, reqs).chunked;
            self.lemma_chunks_update(class, step.class, 64);
            self.lemma_bytes_update(class, step.class, 64);
            if self.alloc_error(owner, device, reqs) is None {
                let block = self.allocated(device, reqs);
                let tag = self.allocated_tag(device, reqs);
                self.lemma_class_of_block_size(class);
                assert forall|other: Extent, other_tag: int| #[trigger]
                    next.owns(other, other_tag) <==> self.owns(other, other_tag) || (other == block
                        && other_tag == tag) by {
                    let at = self.class_of(other.size() as int);
                    if at != class && 0 <= at < 64 {
                        assert(next.classes[at] == self.classes[at]);
                    }
                }
                assert(next.wf()) by {
                    assert forall|at: int| 0 <= at < 64 implies {
                        ||| (#[trigger] next.classes[at]) == next.pristine(at)
                        ||| {
                            &&& next.classes[at].wf()
                            &&& next.classes[at].id == next.id
                            &&& next.classes[at].block_size == next.block_size(at)
                            &&& next.classes[at].chunk_size == next.chunk_size(at)
                        }
                    } by {
                        if at != class {
                            assert(next.classes[at] == self.classes[at]);
                        }
                    }
                }
                if is_power_of_two(reqs.alignment as int) {
                    let align = lemma_power_of_two_exponent(reqs.alignment);
                    let size = exponent + class as nat;
                    // the alignment divides the size of the slots
                    if align > size {
                        lemma_pow2_strictly_increases(size, align);
                    }
                    vstd::arithmetic::power2::lemma_pow2_adds(align, (size - align) as nat);
                    let a = reqs.alignment as int;
                    let b = self.block_size(class) as int;
                    let factor = pow2((size - align) as nat) as int;
                    let index = block.start / b;
                    assert(block.start % b == 0);
                    vstd::arithmetic::div_mod::lemma_fundamental_div_mod(block.start, b);
                    assert(block.start == (index * factor) * a) by (nonlinear_arith)
                        requires
                            block.start == b * index,
                            b == a * factor,
                    ;
                    vstd::arithmetic::div_mod::lemma_mod_multiples_basic(index * factor, a);
                }
            } else {
                assert(next.classes =~= self.classes);
            }
        }
    }

    /// The chunk that the block `block` with tag `tag` lies in.
    pub open spec fn chunk_of(self, block: Extent, tag: int) -> Extent {
        self.classes[self.class_of(block.size() as int)].chunks[tag]
    }

    /// The chunks of the first classes are among those of more classes.
    pub proof fn lemma_chunks_grow(self, fewer: int, more: int)
        requires
            fewer <= more,
        ensures
            self.chunks_upto(fewer).subset_of(self.chunks_upto(more)),
        decreases more - fewer,
    {
        broadcast use group_multiset_axioms;

        if fewer < more {
            if more > 0 {
                self.lemma_chunks_grow(fewer, more - 1);
            } else {
                self.lemma_chunks_grow(fewer + 1, more);
            }
        }
    }

    /// A block that is out has bytes in it and lies in its chunk, which is
    /// one of the chunks of the allocator.
    pub proof fn lemma_block_in_chunk(self, block: Extent, tag: int)
        requires
            self.wf(),
            self.owns(block, tag),
        ensures
            block.size() > 0,
            self.chunk_of(block, tag).contains(block),
            self.chunks().count(self.chunk_of(block, tag)) > 0,
    {
        broadcast use group_multiset_axioms;

        let class = self.class_of(block.size() as int);
        let node = self.classes[class];
        assert(node != self.pristine(class));
        node.lemma_after_free(block, tag);
        node.chunks.to_multiset_ensures();
        assert(node.chunks.contains(node.chunks[tag]));
        self.lemma_chunks_of_class(class, 64);
    }

    /// A chunk that stands at two places of the allocator occurs twice among
    /// its chunks.
    pub proof fn lemma_chunk_twice(self, class: int, index: int, other_class: int, other_index: int)
        requires
            0 <= class <= other_class < 64,
            0 <= index < self.classes[class].chunks.len(),
            0 <= other_index < self.classes[other_class].chunks.len(),
            class != other_class || index != other_index,
            self.classes[class].chunks[index] == self.classes[other_class].chunks[other_index],
        ensures
            self.chunks().count(self.classes[class].chunks[index]) >= 2,
    {
        broadcast use group_multiset_axioms;

        let chunk = self.classes[class].chunks[index];
        if class == other_class {
            crate::extent::lemma_two_places(self.classes[class].chunks, index, other_index);
            self.lemma_chunks_of_class(class, 64);
        } else {
            self.classes[class].chunks.to_multiset_ensures();
            assert(self.classes[class].chunks.contains(chunk));
            self.classes[other_class].chunks.to_multiset_ensures();
            assert(self.classes[other_class].chunks.contains(chunk));
            self.lemma_chunks_of_class(class, other_class);
            assert(self.chunks_upto(other_class + 1).count(chunk) >= 2);
            self.lemma_chunks_grow(other_class + 1, 64);
        }
    }

    /// The blocks that are out share no byte, as long as the chunks of the
    /// allocator share none.
    pub proof fn lemma_blocks_apart(self, first: Extent, first_tag: int, second: Extent, second_tag: int)
        requires
            self.wf(),
            pairwise_disjoint(self.chunks()),
            self.owns(first, first_tag),
            self.owns(second, second_tag),
            first != second || first_tag != second_tag,
        ensures
            first.disjoint(second),
    {
        self.lemma_block_in_chunk(first, first_tag);
        self.lemma_block_in_chunk(second, second_tag);
        let class = self.class_of(first.size() as int);
        let other = self.class_of(second.size() as int);
        let node = self.classes[class];
        assert(node != self.pristine(class));
        assert(self.classes[other] != self.pristine(other));
        node.lemma_after_free(first, first_tag);
        self.classes[other].lemma_after_free(second, second_tag);
        if class == other && first_tag == second_tag {
            let a = node.slot_of(first, first_tag);
            let b = node.slot_of(second, second_tag);
            let size = node.block_size as int;
            if a.index < b.index {
                assert((a.index + 1) * size <= b.index * size) by (nonlinear_arith)
                    requires
                        a.index + 1 <= b.index,
                        size > 0,
                ;
            } else if b.index < a.index {
                assert((b.index + 1) * size <= a.index * size) by (nonlinear_arith)
                    requires
                        b.index + 1 <= a.index,
                        size > 0,
                ;
            }
        } else {
            if self.chunk_of(first, first_tag) == self.chunk_of(second, second_tag) {
                if class <= other {
                    self.lemma_chunk_twice(class, first_tag, other, second_tag);
                } else {
                    self.lemma_chunk_twice(other, second_tag, class, first_tag);
                }
            }
            crate::extent::lemma_disjoint_hosts(
                self.chunks(),
                self.chunk_of(first, first_tag),
                self.chunk_of(second, second_tag),
                first,
                second,
            );
        }
    }

    /// A block that is handed out and taken back leaves the allocator in use
    /// or not as it was before, and the same blocks out as before.
    pub proof fn lemma_round_trip(self, owner: RootView, device: ExchangeView, reqs: Requirements)
        requires
            (ChunkedStep { chunked: self, owner, device }).wf(),
            self.alloc_error(owner, device, reqs) is None,
        ensures
            ({
                let block = self.allocated(device, reqs);
                let tag = self.allocated_tag(device, reqs);
                let next = self.after_alloc(owner, device, reqs);
                let last = next.chunked.after_free(block, tag);
                &&& next.chunked.owns(block, tag)
                &&& last.is_used() == self.is_used()
                &&& forall|other: Extent, other_tag: int|
                    #[trigger] last.owns(other, other_tag) == self.owns(other, other_tag)
            }),
    {
        let block = self.allocated(device, reqs);
        let tag = self.allocated_tag(device, reqs);
        let next = self.after_alloc(owner, device, reqs);
        self.lemma_after_alloc(owner, device, reqs);
        assert(next.chunked.owns(block, tag));
        next.chunked.lemma_after_free(next.owner, block, tag);
        let last = next.chunked.after_free(block, tag);
        assert forall|other: Extent, other_tag: int| #[trigger]
            last.owns(other, other_tag) == self.owns(other, other_tag) by {
            assert(next.chunked.owns(other, other_tag) <==> self.owns(other, other_tag) || (other
                == block && other_tag == tag));
        }
        self.lemma_is_used();
        last.lemma_is_used();
        if self.is_used() {
            let (e, t) = choose|e: Extent, t: int| self.owns(e, t);
            assert(last.owns(e, t));
        }
        if last.is_used() {
            let (e, t) = choose|e: Extent, t: int| last.owns(e, t);
            assert(self.owns(e, t));
        }
    }

    /// The allocator is in use exactly when one of its blocks is out.
    pub proof fn lemma_is_used(self)
        requires
            self.wf(),
        ensures
            self.is_used() <==> exists|block: Extent, tag: int| self.owns(block, tag),
    {
        if self.is_used() {
            let class = choose|class: int| 0 <= class < 64 && (#[trigger] self.classes[class]).is_used();
            let node = self.classes[class];
            assert(node != self.pristine(class));
            node.lemma_is_used();
            let slot = choose|slot: Slot| node.live.contains(slot);
            node.lemma_slot_bounds(slot);
            self.lemma_class_of_block_size(class);
            assert(self.owns(node.extent_of(slot), slot.chunk));
        }
        if exists|block: Extent, tag: int| self.owns(block, tag) {
            let (block, tag) = choose|block: Extent, tag: int| self.owns(block, tag);
            let class = self.class_of(block.size() as int);
            let node = self.classes[class];
            assert(node != self.pristine(class));
            node.lemma_is_used();
            assert(node.live.contains(node.slot_of(block, tag)));
            assert(node.is_used());
        }
    }

    /// Taking back a block that is out keeps the invariant of the allocator
    /// and changes nothing else in what is out.
    pub proof fn lemma_after_free(self, owner: RootView, block: Extent, tag: int)
        requires
            self.wf(),
            owner.wf(),
            self.backed_by(owner),
            self.owns(block, tag),
        ensures
            self.after_free(block, tag).wf(),
            self.after_free(block, tag).bytes_out() + block.size() == self.bytes_out(),
            self.after_free(block, tag).backed_by(owner),
            self.after_free(block, tag).chunks() == self.chunks(),
            self.after_free(block, tag).memories_upto(64) == self.memories_upto(64),
            0 <= self.class_of(block.size() as int) < 64,
            self.classes[self.class_of(block.size() as int)].wf(),
            self.classes[self.class_of(block.size() as int)].chunks.len() > 0,
            forall|other: Extent, other_tag: int|
                #[trigger] self.after_free(block, tag).owns(other, other_tag) <==> self.owns(
                    other,
                    other_tag,
                ) && !(other == block && other_tag == tag),
    {
        broadcast use group_multiset_axioms;

        let class = self.class_of(block.size() as int);
        let old_class = self.classes[class];
        let next = self.after_free(block, tag);
        assert(old_class != self.pristine(class));
        old_class.lemma_after_free(block, tag);
        old_class.lemma_after_free_owns(block, tag);
        self.lemma_chunks_update(class, old_class.after_free(block, tag), 64);
        self.lemma_bytes_update(class, old_class.after_free(block, tag), 64);
        self.lemma_memories_update(class, old_class.after_free(block, tag), 64);
        self.lemma_chunks_of_class(class, 64);
        assert(next.chunks() =~= self.chunks());
        assert forall|other: Extent, other_tag: int| #[trigger]
            next.owns(other, other_tag) <==> self.owns(other, other_tag) && !(other == block
                && other_tag == tag) by {
            let at = self.class_of(other.size() as int);
            if at != class && 0 <= at < 64 {
                assert(next.classes[at] == self.classes[at]);
            }
        }
        assert forall|at: int| 0 <= at < 64 implies {
            ||| (#[trigger] next.classes[at]) == next.pristine(at)
            ||| {
                &&& next.classes[at].wf()
                &&& next.classes[at].id == next.id
                &&& next.classes[at].block_size == next.block_size(at)
                &&& next.classes[at].chunk_size == next.chunk_size(at)
            }
        } by {
            if at != class {
                assert(next.classes[at] == self.classes[at]);
            }
        }
    }
}

/// Hands out long-lived blocks from size classes. The slots of each class
/// are twice as large as those of the one before; a block lies in a slot of
/// the first class that holds it.
pub struct ChunkedAllocator {
    id: MemoryTypeId,
    blocks_per_chunk: usize,
    min_block_size: u64,
    max_chunk_size: u64,
    nodes: Vec<ChunkedNode>,
}

impl View for ChunkedAllocator {
    type V = ChunkedView;

    closed spec fn view(&self) -> ChunkedView {
        let sizes = self.sizes();
        ChunkedView {
            classes: Seq::new(
                64,
                |class: int|
                    if class < self.nodes@.len() {
                        self.nodes@[class]@
                    } else {
                        sizes.pristine(class)
                    },
            ),
            ..sizes
        }
    }
}

impl ChunkedAllocator {
    /// The sizes of the allocator, without its classes.
    pub closed spec fn sizes(&self) -> ChunkedView {
        ChunkedView {
            id: self.id,
            blocks_per_chunk: self.blocks_per_chunk as nat,
            min_block_size: self.min_block_size as nat,
            max_chunk_size: self.max_chunk_size as nat,
            classes: Seq::empty(),
        }
    }

    /// The invariant of the allocator.
    pub closed spec fn wf(&self) -> bool {
        &&& self@.wf()
        &&& self.nodes@.len() <= 64
        &&& forall|class: int|
            0 <= class < self.nodes@.len() ==> {
                &&& (#[trigger] self.nodes@[class]).wf()
                &&& self.nodes@[class]@.id == self.id
                &&& self.nodes@[class]@.block_size == self@.block_size(class)
                &&& self.nodes@[class]@.chunk_size == self@.chunk_size(class)
                &&& self.nodes@[class]@.block_size <= 0x8000_0000_0000_0000
            }
    }

    /// The invariant of the allocator holds of what it stands for.
    pub proof fn lemma_wf(&self)
        requires
            self.wf(),
        ensures
            self@.wf(),
    {
    }

    /// The allocator with its owner and the exchange, as one value.
    pub open spec fn step(&self, owner: &RootAllocator, device: &Exchange) -> ChunkedStep {
        ChunkedStep { chunked: self@, owner: owner@, device: device@ }
    }

    /// The invariant of the allocator with its owner.
    pub open spec fn wf_with(&self, owner: &RootAllocator) -> bool {
        &&& self.wf()
        &&& owner.wf()
        &&& self@.backed_by(owner@)
    }

    /// An allocator for memory type `id` whose smallest slots have
    /// `min_block_size` bytes, and whose chunks hold `blocks_per_chunk` slots
    /// but have no more than `max_chunk_size` bytes.
    pub fn new(
        blocks_per_chunk: usize,
        min_block_size: u64,
        max_chunk_size: u64,
        id: MemoryTypeId,
    ) -> (chunked: ChunkedAllocator)
        requires
            is_power_of_two(min_block_size as int),
            is_power_of_two(max_chunk_size as int),
        ensures
            chunked.wf(),
            chunked@ == ChunkedView::empty(
                id,
                blocks_per_chunk as nat,
                min_block_size as nat,
                max_chunk_size as nat,
            ),
            chunked@.chunks() == Multiset::<Extent>::empty(),
    {
        let chunked = ChunkedAllocator {
            id,
            blocks_per_chunk,
            min_block_size,
            max_chunk_size,
            nodes: Vec::new(),
        };
        proof {
            assert(chunked@.classes =~= ChunkedView::empty(
                id,
                blocks_per_chunk as nat,
                min_block_size as nat,
                max_chunk_size as nat,
            ).classes);
            chunked@.lemma_chunks_beyond(0, 64);
        }
        chunked
    }

    /// Tells whether blocks of the allocator are out.
    pub fn is_used(&self) -> (used: bool)
        requires
            self.wf(),
        ensures
            used == self@.is_used(),
    {
        let mut class: usize = 0;
        while class < self.nodes.len()
            invariant
                self.wf(),
                class <= self.nodes@.len(),
                forall|at: int| 0 <= at < class ==> !(#[trigger] self@.classes[at]).is_used(),
            decreases self.nodes@.len() - class,
        {
            if self.nodes[class].is_used() {
                assert(self@.classes[class as int].is_used());
                return true;
            }
            class += 1;
        }
        assert forall|at: int| 0 <= at < 64 implies !(#[trigger] self@.classes[at]).is_used() by {
            if at >= self.nodes@.len() {
                assert(self@.classes[at] == self@.pristine(at));
            }
        }
        false
    }

    /// The bytes in the blocks that are out.
    pub(crate) fn used(&self) -> (bytes: u64)
        requires
            self.wf(),
            self@.bytes_out() <= u64::MAX,
        ensures
            bytes == self@.bytes_out(),
    {
        let mut bytes: u64 = 0;
        let mut class: usize = 0;
        while class < self.nodes.len()
            invariant
                self.wf(),
                class <= self.nodes@.len(),
                bytes == self@.bytes_upto(class as int),
                self@.bytes_out() <= u64::MAX,
            decreases self.nodes@.len() - class,
        {
            proof {
                self@.lemma_bytes_grow(class + 1, 64);
            }
            bytes += self.nodes[class].used();
            class += 1;
        }
        proof {
            self.lemma_bytes_beyond(64);
        }
        bytes
    }

    /// Classes without chunks have no blocks out.
    proof fn lemma_bytes_beyond(&self, count: int)
        requires
            self.wf(),
            self.nodes@.len() <= count <= 64,
        ensures
            self@.bytes_upto(count) == self@.bytes_upto(self.nodes@.len() as int),
        decreases count,
    {
        if count > self.nodes@.len() {
            self.lemma_bytes_beyond(count - 1);
            let class = self@.classes[count - 1];
            assert(class == self@.pristine(count - 1));
            assert(class.bytes_out() == 0) by (nonlinear_arith)
                requires
                    class.bytes_out() == class.live.len() * class.block_size,
                    class.live.len() == 0,
            ;
        }
    }

    /// The memory type that the allocator allocates.
    pub fn memory_type(&self) -> (id: MemoryTypeId)
        ensures
            id == self@.id,
    {
        self.id
    }

    /// The size of the smallest slots.
    pub fn min_block_size(&self) -> (size: u64)
        ensures
            size == self@.min_block_size,
    {
        self.min_block_size
    }

    /// The size that no chunk and no block exceeds.
    pub fn max_chunk_size(&self) -> (size: u64)
        ensures
            size == self@.max_chunk_size,
    {
        self.max_chunk_size
    }

    /// The number of slots that a chunk holds, unless `max_chunk_size` allows
    /// fewer.
    pub fn blocks_per_chunk(&self) -> (count: usize)
        ensures
            count == self@.blocks_per_chunk,
    {
        self.blocks_per_chunk
    }

    /// The chunk that `block` lies in.
    pub fn underlying_block(&self, block: &ChunkedBlock) -> (chunk: &RawBlock)
        requires
            self.wf(),
            self@.owns(block.extent(), block.tag()),
        ensures
            chunk@.contains(block.extent()),
            chunk@ == self@.classes[self@.class_of(block.extent().size() as int)].chunks[block.tag()],
    {
        proof {
            self.lemma_owned_class(block.extent(), block.tag());
            self@.classes[self@.class_of(block.extent().size() as int)].lemma_after_free(
                block.extent(),
                block.tag(),
            );
        }
        let class = self.pick_node(block.size());
        self.nodes[class].chunk(block.1)
    }

    /// The class of a block that is out is one that has chunks.
    proof fn lemma_owned_class(&self, block: Extent, tag: int)
        requires
            self.wf(),
            self@.owns(block, tag),
        ensures
            0 <= self@.class_of(block.size() as int) < self.nodes@.len(),
            block.size() <= 0x8000_0000_0000_0000,
    {
        let class = self@.class_of(block.size() as int);
        if class >= self.nodes@.len() {
            assert(self@.classes[class] == self@.pristine(class));
        }
        self@.classes[class].lemma_after_free(block, tag);
    }

    /// The class that serves blocks of `size` bytes.
    fn pick_node(&self, size: u64) -> (class: usize)
        requires
            self.wf(),
            size <= 0x8000_0000_0000_0000,
        ensures
            class == self@.class_of(size as int),
            class < 64,
    {
        let ghost exponent = self@.lemma_block_size(0);
        proof {
            lemma2_to64_rest();
            self@.lemma_class_of(size as int);
            lemma_pow2_monotonic(exponent, 63);
        }
        let mut class: usize = 0;
        let mut block: u64 = self.min_block_size;
        while block < size
            invariant
                self@.min_block_size == pow2(exponent),
                self@.min_block_size > 0,
                size <= 0x8000_0000_0000_0000,
                block == self@.block_size(class as int),
                0 < block <= 0x8000_0000_0000_0000,
                class < 64,
                class + class_from(size as int, block as int) == class_from(
                    size as int,
                    self@.min_block_size as int,
                ),
                class_from(size as int, self@.min_block_size as int) < 64,
            decreases
                    (if size > block {
                        size - block
                    } else {
                        0
                    }),
        {
            proof {
                let reached = exponent + class as nat;
                lemma2_to64_rest();
                self@.lemma_block_size_from(exponent, class as int);
                self@.lemma_block_size_from(exponent, class + 1);
                lemma_pow2_unfold(reached + 1);
                if reached >= 63 {
                    lemma_pow2_monotonic(63, reached);
                }
                lemma_pow2_monotonic(reached + 1, 63);
            }
            block = block * 2;
            class += 1;
        }
        class
    }

    /// The sizes of the slots and of the chunks of class `class`.
    fn class_sizes(&self, class: usize) -> (sizes: (u64, u64))
        requires
            self@.min_block_size <= u64::MAX,
            is_power_of_two(self@.min_block_size as int),
            self@.block_size(class as int) <= 0x8000_0000_0000_0000,
        ensures
            sizes.0 == self@.block_size(class as int),
            sizes.1 == self@.chunk_size(class as int),
            sizes.0 > 0,
    {
        let ghost exponent = self@.lemma_block_size(0);
        let mut at: usize = 0;
        let mut block: u64 = self.min_block_size;
        while at < class
            invariant
                self@.min_block_size == pow2(exponent),
                at <= class,
                block == self@.block_size(at as int),
                self@.block_size(class as int) <= 0x8000_0000_0000_0000,
            decreases class - at,
        {
            proof {
                self@.lemma_block_size_from(exponent, at as int);
                self@.lemma_block_size_from(exponent, at + 1);
                self@.lemma_block_size_from(exponent, class as int);
                lemma_pow2_unfold(exponent + at as nat + 1);
                lemma_pow2_monotonic(exponent + at as nat + 1, exponent + class as nat);
            }
            block = block * 2;
            at += 1;
        }
        proof {
            self@.lemma_block_size_from(exponent, class as int);
        }
        let chunk = match block.checked_mul(self.blocks_per_chunk as u64) {
            Some(chunk) => if chunk <= self.max_chunk_size {
                chunk
            } else {
                self.max_chunk_size
            },
            None => self.max_chunk_size,
        };
        (block, chunk)
    }

    /// Adds classes without chunks up to class `class`.
    fn grow(&mut self, class: usize)
        requires
            old(self).wf(),
            class < 64,
            old(self)@.block_size(class as int) <= 0x8000_0000_0000_0000,
        ensures
            final(self).wf(),
            final(self)@ == old(self)@,
            class < final(self).nodes@.len(),
    {
        while self.nodes.len() <= class
            invariant
                self.wf(),
                self@ == old(self)@,
                class < 64,
                self@.block_size(class as int) <= 0x8000_0000_0000_0000,
            decreases 64 - self.nodes@.len(),
        {
            let at = self.nodes.len();
            proof {
                let exponent = self@.lemma_block_size(at as int);
                self@.lemma_block_size_from(exponent, class as int);
                lemma_pow2_monotonic(exponent + at as nat, exponent + class as nat);
            }
            let (block_size, chunk_size) = self.class_sizes(at);
            let ghost before = self@;
            let node = ChunkedNode::new(chunk_size, block_size, self.id);
            self.nodes.push(node);
            assert(self@.classes =~= before.classes);
        }
    }

    /// The size of the slot that serves `reqs`, where the size and the
    /// alignment that it asks for do not exceed `max_chunk_size`.
    pub fn slot_size(&self, reqs: Requirements) -> (size: Option<u64>)
        requires
            self.wf(),
        ensures
            size == (if self@.admits(reqs) {
                Some(self@.block_size(self@.class_for(reqs)) as u64)
            } else {
                None
            }),
            self@.admits(reqs) ==> self@.block_size(self@.class_for(reqs)) <= u64::MAX,
    {
        let need = if reqs.size > reqs.alignment {
            reqs.size
        } else {
            reqs.alignment
        };
        if need > self.max_chunk_size {
            return None;
        }
        proof {
            let max = lemma_power_of_two_exponent(self.max_chunk_size);
            lemma_pow2_monotonic(max, 63);
            lemma2_to64_rest();
            self@.lemma_class_of(need as int);
        }
        let class = self.pick_node(need);
        let (block_size, _) = self.class_sizes(class);
        Some(block_size)
    }

    /// The memory object that the device must grant before `allocate` can
    /// serve `reqs`, if it needs one.
    pub fn demand(&self, owner: &RootAllocator, reqs: Requirements) -> (demand: Option<Demand>)
        requires
            self.wf_with(owner),
        ensures
            demand == self@.demand(owner@, reqs),
    {
        let need = if reqs.size > reqs.alignment {
            reqs.size
        } else {
            reqs.alignment
        };
        if need > self.max_chunk_size {
            return None;
        }
        proof {
            self@.lemma_after_alloc(owner@, ExchangeView { granted: None, released: Seq::empty() }, reqs);
        }
        let class = self.pick_node(need);
        if class < self.nodes.len() {
            self.nodes[class].demand(owner, reqs)
        } else {
            let (block_size, chunk_size) = self.class_sizes(class);
            if type_allowed(reqs.type_mask, self.id.0) && chunk_size / block_size > 0 && chunk_size
                <= u64::MAX - owner.used() {
                Some(Demand { memory_type: self.id, size: chunk_size })
            } else {
                None
            }
        }
    }

    /// Hands out a slot of the first class whose slots hold `reqs.size` bytes
    /// and are aligned to `reqs.alignment`.
    ///
    /// Fails with `OutOfMemory` where the size or the alignment exceeds
    /// `max_chunk_size`, and otherwise as the class does. A failed request
    /// changes nothing.
    pub fn allocate(
        &mut self,
        owner: &mut RootAllocator,
        device: &mut Exchange,
        request: (),
        reqs: Requirements,
    ) -> (result: Result<ChunkedBlock, MemoryError>)
        requires
            old(self).wf_with(old(owner)),
        ensures
            final(self).wf_with(final(owner)),
            final(self).step(final(owner), final(device)) == old(self)@.after_alloc(
                old(owner)@,
                old(device)@,
                reqs,
            ),
            match result {
                Ok(block) => {
                    &&& old(self)@.alloc_error(old(owner)@, old(device)@, reqs) is None
                    &&& block.extent() == old(self)@.allocated(old(device)@, reqs)
                    &&& block.tag() == old(self)@.allocated_tag(old(device)@, reqs)
                    &&& block.extent().size() == old(self)@.block_size(old(self)@.class_for(reqs))
                    &&& block.extent().size() >= reqs.size
                    &&& is_power_of_two(reqs.alignment as int) ==> block.extent().start % (
                    reqs.alignment as int) == 0
                    &&& mask_allows(reqs.type_mask, old(self)@.id.0 as int)
                    &&& !old(self)@.owns(block.extent(), block.tag())
                    &&& forall|other: Extent, tag: int|
                        #[trigger] final(self)@.owns(other, tag) <==> old(self)@.owns(other, tag)
                            || (other == block.extent() && tag == block.tag())
                },
                Err(error) => old(self)@.alloc_error(old(owner)@, old(device)@, reqs) == Some(
                    error,
                ),
            },
    {
        proof {
            self@.lemma_after_alloc(owner@, device@, reqs);
        }
        let need = if reqs.size > reqs.alignment {
            reqs.size
        } else {
            reqs.alignment
        };
        if need > self.max_chunk_size {
            return Err(MemoryError::OutOfMemory);
        }
        let class = self.pick_node(need);
        self.grow(class);
        let ghost before = self@;
        let result = self.nodes[class].allocate(owner, device, (), reqs);
        proof {
            assert(self@.classes =~= before.classes.update(class as int, self.nodes@[class as int]@));
            assert(self@.wf());
        }
        result
    }

    /// Takes back a block of the allocator: its slot is handed out next in
    /// its class. The owner and the exchange stay as they are.
    pub fn free(&mut self, owner: &mut RootAllocator, device: &mut Exchange, block: ChunkedBlock)
        requires
            old(self).wf_with(old(owner)),
            old(self)@.owns(block.extent(), block.tag()),
        ensures
            final(self).wf_with(final(owner)),
            final(self)@ == old(self)@.after_free(block.extent(), block.tag()),
            final(owner)@ == old(owner)@,
            final(device)@ == old(device)@,
            forall|other: Extent, tag: int|
                #[trigger] final(self)@.owns(other, tag) <==> old(self)@.owns(other, tag) && !(
                other == block.extent() && tag == block.tag()),
    {
        proof {
            self.lemma_owned_class(block.extent(), block.tag());
            self@.lemma_after_free(owner@, block.extent(), block.tag());
        }
        let class = self.pick_node(block.size());
        let ghost before = self@;
        self.nodes[class].free(block);
        proof {
            assert(self@.classes =~= before.classes.update(class as int, self.nodes@[class as int]@));
        }
    }

    /// Ends the allocator and returns its chunks to `owner`, class by class,
    /// and of each class the oldest first. Where blocks are out, the
    /// allocator comes back unchanged.
    pub fn dispose(self, owner: &mut RootAllocator, device: &mut Exchange) -> (result: Result<
        (),
        ChunkedAllocator,
    >)
        requires
            self.wf_with(old(owner)),
        ensures
            final(owner).wf(),
            match result {
                Ok(()) => {
                    &&& !self@.is_used()
                    &&& forall|block: Extent, tag: int| !self@.owns(block, tag)
                    &&& final(owner)@ == self@.owner_after_dispose(old(owner)@)
                    &&& final(device)@ == self@.device_after_dispose(old(device)@)
                },
                Err(chunked) => {
                    &&& self@.is_used()
                    &&& exists|block: Extent, tag: int| self@.owns(block, tag)
                    &&& chunked == self
                    &&& final(owner)@ == old(owner)@
                    &&& final(device)@ == old(device)@
                },
            },
    {
        broadcast use group_multiset_axioms;

        proof {
            self@.lemma_is_used();
        }
        if self.is_used() {
            return Err(self);
        }
        let ghost view = self@;
        let ghost grown = self.nodes@.len() as int;
        let ChunkedAllocator {
            id: _,
            blocks_per_chunk: _,
            min_block_size: _,
            max_chunk_size: _,
            nodes,
        } = self;
        let ghost classes = nodes@;
        proof {
            assert forall|class: int| grown <= class < 64 implies (
            #[trigger] view.classes[class]).chunks.len() == 0 by {
                assert(view.classes[class] == view.pristine(class));
            }
            view.lemma_chunks_beyond(grown, 64);
            assert(old(owner)@.live.sub(Multiset::empty()) =~= old(owner)@.live);
            crate::extent::lemma_total_empty(extent_size());
            assert(old(device)@.released + Seq::<MemoryHandle>::empty() =~= old(device)@.released);
        }
        for node in iter: nodes.into_iter()
            invariant
                owner.wf(),
                old(owner).wf(),
                view.chunks_upto(grown).subset_of(old(owner)@.live),
                iter.seq() == classes,
                classes.len() == grown <= 64,
                view.classes.len() == 64,
                forall|class: int|
                    0 <= class < grown ==> (#[trigger] classes[class])@ == view.classes[class]
                        && classes[class].wf() && !classes[class]@.is_used(),
                owner@ == old(owner)@.after_free_all(view.chunks_upto(iter.index() as int)),
                device@.granted == old(device)@.granted,
                device@.released == old(device)@.released + view.memories_upto(iter.index() as int),
        {
            proof {
                let done = iter.index() as int;
                let chunks = node@.chunks.to_multiset();
                assert(node@ == view.classes[done]);
                view.lemma_chunks_grow(done + 1, grown);
                assert(view.chunks_upto(done).add(chunks).subset_of(old(owner)@.live));
                old(owner)@.lemma_after_free_both(view.chunks_upto(done), chunks);
                assert(chunks.subset_of(owner@.live));
            }
            match node.dispose(owner, device) {
                Ok(()) => {},
                Err(node) => {
                    assert(false);
                },
            }
            proof {
                let done = iter.index() as int;
                assert(device@.released =~= old(device)@.released + view.memories_upto(done + 1));
            }
        }
        proof {
            assert(device@.released =~= old(device)@.released + view.memories_upto(64));
        }
        Ok(())
    }
}

} // verus!
