//! Hierarchical sub-allocation of device memory.
//!
//! A device exposes a few heaps of memory, split into memory types. Device
//! allocations are expensive and few. The allocators of this crate stand
//! between the resources of an application and the device: they take large
//! memory objects from the device rarely and carve the blocks that the
//! application asks for out of them.
//!
//! - [`RootAllocator`] hands out whole memory objects of one memory type.
//! - [`ArenaAllocator`] carves short-lived blocks linearly out of chunks and
//!   returns a chunk once all its blocks have come back.
//! - [`ChunkedAllocator`] keeps long-lived blocks in slots of fixed size, the
//!   sizes powers of two.
//! - [`CombinedAllocator`] sends each request for one memory type to one of
//!   the three.
//! - [`SmartAllocator`] chooses the memory type for each request and counts
//!   what is used of each heap.
//!
//! The allocators never call the device themselves. The memory objects that
//! pass between them and the device travel through an [`Exchange`]: before a
//! request the caller asks the allocator for its `demand`, allocates the
//! memory object that it names on the device and supplies its handle; after
//! any call the caller frees on the device the memory objects whose handles
//! were released.
//!
//! Each allocator stands for a mathematical value, its view, and each
//! operation for a function on these values. The invariants of the views and
//! the laws that follow from them are proved beside them.

pub mod align;
pub mod arena;
pub mod block;
pub mod chunked;
pub mod combined;
pub mod error;
pub mod exchange;
pub mod extent;
pub mod factory;
mod marker;
pub mod memory;
pub mod root;
pub mod smart;

pub use align::{alignment_shift, shift_for_alignment};
pub use arena::{ArenaAllocator, ArenaBlock, ArenaNode};
pub use block::{Block, RawBlock, Region};
pub use chunked::{ChunkedAllocator, ChunkedBlock, ChunkedNode};
pub use combined::{CombinedAllocator, CombinedBlock, CombinedTag, Type};
pub use error::MemoryError;
pub use exchange::Exchange;
pub use factory::Item;
pub use memory::{Demand, MemoryHandle, MemoryType, MemoryTypeId, Properties, Requirements};
pub use root::RootAllocator;
pub use smart::{GenericSmartBlock, Heap, MemoryProperties, SmartAllocator, SmartBlock};
