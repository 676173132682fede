//! One 64-bit page-table slot: bits 0..12 and 52..64 hold flags, bits
//! 12..52 hold the 4KiB-aligned physical address of the pointed frame.

use vstd::prelude::*;
use crate::memory::{Frame, FRAME_LIMIT};
use crate::boot::ElfSection;

verus! {

pub const PRESENT: u64 = 0x1;

pub const WRITABLE: u64 = 0x2;

pub const USER_ACCESSIBLE: u64 = 0x4;

pub const WRITE_THROUGH: u64 = 0x8;

pub const NO_CACHE: u64 = 0x10;

pub const ACCESSED: u64 = 0x20;

pub const DIRTY: u64 = 0x40;

pub const HUGE_PAGE: u64 = 0x80;

pub const GLOBAL: u64 = 0x100;

pub const NO_EXECUTE: u64 = 0x8000_0000_0000_0000;

/// All flag bits an entry can carry.
pub const ALL_FLAGS: u64 = 0x8000_0000_0000_01ff;

/// The bits of an entry that hold the pointed frame's address.
pub const ADDR_MASK: u64 = 0x000f_ffff_ffff_f000;

/// The entry maps something.
pub open spec fn e_present(e: u64) -> bool {
    e & PRESENT == PRESENT
}

/// The entry maps a huge page rather than a next-level table.
pub open spec fn e_huge(e: u64) -> bool {
    e & HUGE_PAGE == HUGE_PAGE
}

/// Physical address stored in the entry.
pub open spec fn e_addr(e: u64) -> u64 {
    e & ADDR_MASK
}

/// Frame number stored in the entry.
pub open spec fn e_frame(e: u64) -> u64 {
    e_addr(e) / 4096
}

/// The known flag bits of the entry.
pub open spec fn e_flags(e: u64) -> u64 {
    e & ALL_FLAGS
}

/// A flag word uses only known flag bits.
pub open spec fn flags_fit(fl: u64) -> bool {
    fl & ALL_FLAGS == fl
}

/// Entry value encoding the given frame and flag bits.
pub open spec fn pack(frame: u64, fl: u64) -> u64 {
    ((frame * 4096) as u64) | fl
}

/// Truncating to the known flags leaves no address bits.
pub proof fn lemma_truncate_flags(x: u64)
    ensures
        (x & ALL_FLAGS) & ADDR_MASK == 0,
        (x & ALL_FLAGS) & ALL_FLAGS == x & ALL_FLAGS,
{
    assert((x & 0x8000_0000_0000_01ffu64) & 0x000f_ffff_ffff_f000u64 == 0) by (bit_vector);
    assert((x & 0x8000_0000_0000_01ffu64) & 0x8000_0000_0000_01ffu64 == x
        & 0x8000_0000_0000_01ffu64) by (bit_vector);
}

/// A 4KiB-aligned address below 2^52 passes through the address mask.
pub proof fn lemma_aligned_addr(a: u64)
    requires
        a % 4096 == 0,
        a <= 0x000f_ffff_ffff_f000,
    ensures
        a & ADDR_MASK == a,
{
    assert(a % 4096 == 0 && a <= 0x000f_ffff_ffff_f000u64 ==> (a & 0x000f_ffff_ffff_f000u64)
        == a) by (bit_vector);
}

/// How an entry built from an aligned address and flag bits decodes.
pub proof fn lemma_pack_fields(a: u64, fl: u64)
    requires
        a & ADDR_MASK == a,
        fl & ALL_FLAGS == fl,
    ensures
        (a | fl) & ADDR_MASK == a,
        (a | fl) & ALL_FLAGS == fl,
        (a | fl) & PRESENT == fl & PRESENT,
        (a | fl) & HUGE_PAGE == fl & HUGE_PAGE,
{
    assert((a & 0x000f_ffff_ffff_f000u64) == a && (fl & 0x8000_0000_0000_01ffu64) == fl ==> ((a
        | fl) & 0x000f_ffff_ffff_f000u64) == a && ((a | fl) & 0x8000_0000_0000_01ffu64) == fl && ((a
        | fl) & 0x1u64) == (fl & 0x1u64) && ((a | fl) & 0x80u64) == (fl & 0x80u64)) by (bit_vector);
}

/// Full decoding of a packed entry: the stored frame and flags come
/// back out unchanged.
pub proof fn lemma_pack(frame: u64, fl: u64)
    requires
        frame < FRAME_LIMIT,
        flags_fit(fl),
    ensures
        e_frame(pack(frame, fl)) == frame,
        e_addr(pack(frame, fl)) == frame * 4096,
        e_flags(pack(frame, fl)) == fl,
        e_present(pack(frame, fl)) == (fl & PRESENT == PRESENT),
        e_huge(pack(frame, fl)) == (fl & HUGE_PAGE == HUGE_PAGE),
{
    let a = (frame * 4096) as u64;
    assert(frame * 4096 <= 0x000f_ffff_ffff_f000) by (nonlinear_arith)
        requires
            frame < 0x100_0000_0000,
    ;
    assert((frame * 4096) % 4096 == 0) by (nonlinear_arith);
    assert(a == frame * 4096);
    assert(a % 4096 == 0);
    lemma_aligned_addr(a);
    lemma_pack_fields(a, fl);
    assert((frame * 4096) / 4096 == frame) by (nonlinear_arith);
    assert(e_addr(pack(frame, fl)) == a);
}

/// Forcing the present bit onto a well-formed flag word keeps it
/// well-formed and does not set the huge bit.
pub proof fn lemma_or_present(fl: u64)
    requires
        flags_fit(fl),
    ensures
        flags_fit(fl | PRESENT),
        (fl | PRESENT) & PRESENT == PRESENT,
        (fl | PRESENT) & HUGE_PAGE == fl & HUGE_PAGE,
{
    assert((fl & 0x8000_0000_0000_01ffu64) == fl ==> ((fl | 0x1u64) & 0x8000_0000_0000_01ffu64)
        == (fl | 0x1u64) && ((fl | 0x1u64) & 0x1u64) == 0x1u64 && ((fl | 0x1u64) & 0x80u64) == (fl
        & 0x80u64)) by (bit_vector);
}

/// What `pointed_frame` returns for a raw entry value.
pub open spec fn spec_pointed_frame(e: u64) -> Option<Frame> {
    if e_present(e) {
        Some(Frame { number: e_frame(e) })
    } else {
        None
    }
}

/// Presence, protection and cache flags of one table slot.
#[derive(Clone, Copy, Debug, PartialEq, Eq, Structural)]
pub struct EntryFlags {
    pub bits: u64,
}

impl EntryFlags {
    /// No flags.
    pub fn empty() -> (r: EntryFlags)
        ensures
            r.bits == 0,
            flags_fit(r.bits),
    {
        proof {
            lemma_truncate_flags(0);
            assert(0u64 & ALL_FLAGS == 0) by (bit_vector);
        }
        EntryFlags { bits: 0 }
    }

    /// The raw flag bits.
    pub fn bits(&self) -> (r: u64)
        ensures
            r == self.bits,
    {
        self.bits
    }

    /// Keeps the known flag bits of a raw value and drops the rest.
    pub fn from_bits_truncate(bits: u64) -> (r: EntryFlags)
        ensures
            r.bits == bits & ALL_FLAGS,
            flags_fit(r.bits),
            r.bits & ADDR_MASK == 0,
    {
        proof {
            lemma_truncate_flags(bits);
        }
        EntryFlags { bits: bits & ALL_FLAGS }
    }

    /// All flags of `other` are set in `self`.
    pub fn contains(&self, other: EntryFlags) -> (r: bool)
        ensures
            r == (self.bits & other.bits == other.bits),
    {
        self.bits & other.bits == other.bits
    }

    /// Both sets of flags combined.
    pub fn union(&self, other: EntryFlags) -> (r: EntryFlags)
        ensures
            r.bits == self.bits | other.bits,
    {
        EntryFlags { bits: self.bits | other.bits }
    }

    /// Flag word for a loaded ELF section: present when allocated,
    /// writable when the section is writable, and no-execute unless the
    /// section holds code.
    pub fn from_elf_sections_flag(section: &ElfSection) -> (r: EntryFlags)
        ensures
            r.bits == spec_section_flags(*section),
            flags_fit(r.bits),
    {
        let p: u64 = if section.is_allocated() {
            PRESENT
        } else {
            0
        };
        let w: u64 = if section.is_writable() {
            WRITABLE
        } else {
            0
        };
        let x: u64 = if !section.is_executable() {
            NO_EXECUTE
        } else {
            0
        };
        let bits: u64 = (p | w) | x;
        proof {
            lemma_section_flag_bits();
        }
        EntryFlags { bits }
    }
}

/// The flag word `from_elf_sections_flag` builds.
pub open spec fn spec_section_flags(section: ElfSection) -> u64 {
    let p = if section.spec_is_allocated() {
        PRESENT
    } else {
        0
    };
    let w = if section.spec_is_writable() {
        WRITABLE
    } else {
        0
    };
    let x = if !section.spec_is_executable() {
        NO_EXECUTE
    } else {
        0
    };
    (p | w) | x
}

/// Bit facts behind `from_elf_sections_flag`: every combination of the
/// three section flags uses only known flag bits.
pub proof fn lemma_section_flag_bits()
    ensures
        forall|p: u64, w: u64, x: u64|
            (p == 0 || p == PRESENT) && (w == 0 || w == WRITABLE) && (x == 0 || x == NO_EXECUTE)
                ==> flags_fit(#[trigger] ((p | w) | x)) && (0u64 | p) == p && ((p | w) | x) == ((p
                | w) | x),
{
    assert forall|p: u64, w: u64, x: u64|
        (p == 0 || p == PRESENT) && (w == 0 || w == WRITABLE) && (x == 0 || x == NO_EXECUTE)
            implies flags_fit(#[trigger] ((p | w) | x)) && (0u64 | p) == p by {
        assert((p == 0 || p == 0x1u64) && (w == 0 || w == 0x2u64) && (x == 0 || x
            == 0x8000_0000_0000_0000u64) ==> (((p | w) | x) & 0x8000_0000_0000_01ffu64) == ((p | w)
            | x) && (0u64 | p) == p) by (bit_vector);
    }
}

/// One slot of a page table.
#[derive(Clone, Copy, Debug, PartialEq, Eq, Structural)]
pub struct Entry(pub u64);

impl Entry {
    /// The slot holds nothing at all.
    pub fn is_unused(&self) -> (r: bool)
        ensures
            r == (self.0 == 0),
    {
        self.0 == 0
    }

    /// Clear the slot completely.
    pub fn set_unused(&mut self)
        ensures
            final (self).0 == 0,
    {
        self.0 = 0;
    }

    /// The known flags of the slot.
    pub fn flags(&self) -> (r: EntryFlags)
        ensures
            r.bits == e_flags(self.0),
    {
        EntryFlags::from_bits_truncate(self.0)
    }

    /// The frame this slot maps, when it is present.
    pub fn pointed_frame(&self) -> (r: Option<Frame>)
        ensures
            r == spec_pointed_frame(self.0),
    {
        if self.0 & PRESENT == PRESENT {
            proof {
                let e: u64 = self.0;
                assert((e & 0x000f_ffff_ffff_f000u64) <= 0x000f_ffff_ffff_f000u64) by (bit_vector);
            }
            let addr: u64 = self.0 & ADDR_MASK;
            Some(Frame::containing_address(addr))
        } else {
            None
        }
    }

    /// Point the slot at `frame` with the given flags.  The frame's
    /// address must fit the entry's address field.
    pub fn set(&mut self, frame: Frame, flags: EntryFlags)
        requires
            frame.number < FRAME_LIMIT,
            flags_fit(flags.bits),
        ensures
            final (self).0 == pack(frame.number, flags.bits),
            e_frame(final (self).0) == frame.number,
            e_flags(final (self).0) == flags.bits,
    {
        proof {
            lemma_pack(frame.number, flags.bits);
        }
        let addr: u64 = frame.start_address();
        self.0 = addr | flags.bits;
    }
}

} // verus!
