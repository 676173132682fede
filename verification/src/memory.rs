//! Physical frames and the allocator interface.

use vstd::prelude::*;

verus! {

/// Size of one page / frame in bytes.
pub const PAGE_SIZE: u64 = 4096;

/// Upper bound on physical frame numbers: the address field of a table
/// entry holds bits 12..52 of a physical address, so frame numbers fit
/// in 40 bits.
pub const FRAME_LIMIT: u64 = 0x100_0000_0000;

/// A physical memory page, identified by its page number.
#[derive(Clone, Copy, Debug, PartialEq, Eq, Structural)]
pub struct Frame {
    pub number: u64,
}

impl Frame {
    /// The frame holding the given physical address.
    pub fn containing_address(address: u64) -> (r: Frame)
        ensures
            r.number == address / PAGE_SIZE,
    {
        Frame { number: address / PAGE_SIZE }
    }

    /// First physical address of the frame.
    pub fn start_address(&self) -> (r: u64)
        requires
            self.number < FRAME_LIMIT,
        ensures
            r == self.number * PAGE_SIZE,
    {
        self.number * PAGE_SIZE
    }
}

/// A source of physical frames.
///
/// `avail()` is the set of frame numbers the allocator may still hand
/// out; an allocation removes exactly the returned frame from it, and a
/// failed allocation means the set is empty.  `can_accept()` says
/// whether a frame may currently be handed back.
pub trait FrameAllocator: Sized {
    spec fn inv(&self) -> bool;

    spec fn avail(&self) -> Set<u64>;

    spec fn can_accept(&self) -> bool;

    fn allocate_frame(&mut self) -> (r: Option<Frame>)
        requires
            old(self).inv(),
        ensures
            final(self).inv(),
            match r {
                Some(f) => old(self).avail().contains(f.number)
                    && final(self).avail() == old(self).avail().remove(f.number)
                    && f.number < FRAME_LIMIT,
                None => old(self).avail().is_empty() && final(self).avail().is_empty(),
            },
    ;

    fn deallocate_frame(&mut self, frame: Frame)
        requires
            old(self).inv(),
            old(self).can_accept(),
            frame.number < FRAME_LIMIT,
        ensures
            final(self).inv(),
            final(self).avail().subset_of(old(self).avail().insert(frame.number)),
    ;
}

} // verus!
