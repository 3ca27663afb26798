//! The memory objects that pass between the device and the allocators.

use vstd::prelude::*;

use crate::memory::MemoryHandle;

verus! {

/// The memory objects in transit between the device and the allocators.
///
/// The allocators do not call the device. Before an allocation the caller
/// asks the allocator for its `demand`; where there is one, the caller
/// allocates the memory object on the device and supplies its handle here.
/// After any call the caller takes the released handles from here and frees
/// their memory objects on the device.
#[derive(Debug)]
pub struct Exchange {
    granted: Option<MemoryHandle>,
    released: Vec<MemoryHandle>,
}

/// What an `Exchange` holds.
pub ghost struct ExchangeView {
    /// The memory object that the device has granted and no allocator has
    /// claimed yet.
    pub granted: Option<MemoryHandle>,
    /// The memory objects that the allocators have given up, oldest first.
    pub released: Seq<MemoryHandle>,
}

impl ExchangeView {
    /// The exchange once the granted memory object is claimed.
    pub open spec fn after_claim(self) -> ExchangeView {
        ExchangeView { granted: None, ..self }
    }

    /// The exchange once `memory` is given up.
    pub open spec fn after_release(self, memory: MemoryHandle) -> ExchangeView {
        ExchangeView { released: self.released.push(memory), ..self }
    }
}

impl View for Exchange {
    type V = ExchangeView;

    closed spec fn view(&self) -> ExchangeView {
        ExchangeView { granted: self.granted, released: self.released@ }
    }
}

impl Exchange {
    /// An exchange that holds nothing.
    pub fn new() -> (exchange: Exchange)
        ensures
            exchange@ == (ExchangeView { granted: None, released: Seq::empty() }),
    {
        Exchange { granted: None, released: Vec::new() }
    }

    /// Hands in a memory object that the device has granted. A granted object
    /// that nobody claimed before moves to the released ones.
    pub fn supply(&mut self, memory: MemoryHandle)
        ensures
            final(self)@.granted == Some(memory),
            final(self)@.released == (match old(self)@.granted {
                Some(unclaimed) => old(self)@.released.push(unclaimed),
                None => old(self)@.released,
            }),
    {
        if let Some(unclaimed) = self.granted {
            self.released.push(unclaimed);
        }
        self.granted = Some(memory);
    }

    /// The granted memory object that no allocator has claimed.
    pub fn pending(&self) -> (granted: Option<MemoryHandle>)
        ensures
            granted == self@.granted,
    {
        self.granted
    }

    /// Takes out the memory objects that the allocators have given up.
    pub fn take_released(&mut self) -> (released: Vec<MemoryHandle>)
        ensures
            released@ == old(self)@.released,
            final(self)@ == (ExchangeView { released: Seq::empty(), ..old(self)@ }),
    {
        let mut released: Vec<MemoryHandle> = Vec::new();
        core::mem::swap(&mut released, &mut self.released);
        released
    }

    /// Claims the granted memory object, if there is one.
    pub fn claim(&mut self) -> (granted: Option<MemoryHandle>)
        ensures
            granted == old(self)@.granted,
            final(self)@ == old(self)@.after_claim(),
    {
        self.granted.take()
    }

    /// Gives up a memory object.
    pub(crate) fn release(&mut self, memory: MemoryHandle)
        ensures
            final(self)@ == old(self)@.after_release(memory),
    {
        self.released.push(memory);
    }
}

} // verus!
