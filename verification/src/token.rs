//! One-shot capability tokens handed to the kernel by the boot code.
//! Consuming a token proves the guarded resource has not been claimed
//! before.

use vstd::prelude::*;

verus! {

/// Token for the frame allocator: while it exists, all memory not used
/// by the kernel and the boot information is unclaimed.  Consume it to
/// construct a frame allocator.
pub struct FrameToken;

/// Which token a request asks for.
#[derive(Clone, Copy)]
enum Bit {
    FrameToken,
}

/// Bit mask of one token.
spec fn spec_bit_mask(bit: Bit) -> u64 {
    match bit {
        Bit::FrameToken => 0x1,
    }
}

fn bit_mask(bit: Bit) -> (r: u64)
    ensures
        r == spec_bit_mask(bit),
{
    match bit {
        Bit::FrameToken => 0x1,
    }
}

/// Bit field storing unused tokens.  At boot it is passed into the
/// kernel with every token still present.
pub struct Dispenser(u64);

impl Dispenser {
    /// The frame-allocation token has not been taken yet.
    pub closed spec fn spec_has_frame_token(&self) -> bool {
        self.0 & 0x1 == 0x1
    }

    /// The dispenser as the boot hand-off provides it: every token
    /// still present.
    pub fn new() -> (r: Dispenser)
        ensures
            r.spec_has_frame_token(),
    {
        proof {
            assert(0x1u64 & 0x1u64 == 0x1u64) by (bit_vector);
        }
        Dispenser(0x1)
    }

    /// Take one token out of the field; true when it was still there.
    fn take_value(&mut self, value: Bit) -> (r: bool)
        ensures
            r == (old(self).0 & spec_bit_mask(value) != 0),
            final (self).0 == old(self).0 & !spec_bit_mask(value),
    {
        let mask: u64 = bit_mask(value);
        if self.0 & mask != 0 {
            self.0 = self.0 & !mask;
            true
        } else {
            let ghost v = self.0;
            let ghost m = mask;
            proof {
                assert(v & m == 0 ==> (v & !m) == v) by (bit_vector);
            }
            false
        }
    }

    /// Claim the frame-allocation token; `None` on a second request.
    pub fn frame_token(&mut self) -> (r: Option<FrameToken>)
        ensures
            r is Some <==> old(self).spec_has_frame_token(),
            !final (self).spec_has_frame_token(),
    {
        let ghost v = self.0;
        proof {
            assert((v & 0x1u64 != 0) == (v & 0x1u64 == 0x1u64)) by (bit_vector);
            assert(((v & !0x1u64) & 0x1u64) == 0u64) by (bit_vector);
        }
        if self.take_value(Bit::FrameToken) {
            Some(FrameToken)
        } else {
            None
        }
    }
}

} // verus!
