//! Bootstrap helper breaking the circular dependency between "need a
//! mapped page to edit tables" and "need tables to map a page".

use vstd::prelude::*;
use crate::memory::{Frame, FrameAllocator, FRAME_LIMIT};
use crate::entry::{EntryFlags, WRITABLE};
use crate::mapper::{
    MapError,
    chain_exists,
    huge_blocked,
    spec_leaf_idx,
    spec_leaf_nonzero,
    spec_translate_idx,
    translations_preserved,
    translations_preserved_except,
};
use crate::entry::{pack, e_present, PRESENT};
use crate::mapper::p1_frame_of;
use crate::paging::{ActivePageTable, Page};

verus! {

/// A tiny pool of at most three spare frames, drained from the real
/// allocator at construction, enough to build the tables for a single
/// mapping.
pub struct TinyAllocator {
    s0: Option<Frame>,
    s1: Option<Frame>,
    s2: Option<Frame>,
}

/// The frames a slot contributes.
pub open spec fn slot_set(s: Option<Frame>) -> Set<u64> {
    match s {
        Some(f) => Set::empty().insert(f.number),
        None => Set::empty(),
    }
}

/// The slot's frame, if any, is below the addressable limit.
pub open spec fn slot_ok(s: Option<Frame>) -> bool {
    match s {
        Some(f) => f.number < FRAME_LIMIT,
        None => true,
    }
}

/// Two occupied slots hold different frames.
pub open spec fn slots_distinct(a: Option<Frame>, b: Option<Frame>) -> bool {
    match (a, b) {
        (Some(x), Some(y)) => x.number != y.number,
        _ => true,
    }
}

impl TinyAllocator {
    /// Drain three frames from the backing allocator.
    pub fn new<A: FrameAllocator>(frame_allocator: &mut A) -> (r: TinyAllocator)
        requires
            old(frame_allocator).inv(),
        ensures
            final(frame_allocator).inv(),
            r.inv(),
            final(frame_allocator).avail().subset_of(old(frame_allocator).avail()),
            forall|n: u64|
                r.avail().contains(n) ==> old(frame_allocator).avail().contains(n) && !final(frame_allocator).avail().contains(n),
            // The pool holds exactly the frames drained: what was
            // available before is what is available now plus the pool.
            old(frame_allocator).avail() == final(frame_allocator).avail().union(r.avail()),
            // The drain is owed: the pool is short of three spares
            // only when the backing allocator ran dry.
            r.spare_count() == 3 || final(frame_allocator).avail().is_empty(),
    {
        let f0 = frame_allocator.allocate_frame();
        let ghost a1 = frame_allocator.avail();
        let f1 = frame_allocator.allocate_frame();
        let ghost a2 = frame_allocator.avail();
        let f2 = frame_allocator.allocate_frame();
        let r = TinyAllocator { s0: f0, s1: f1, s2: f2 };
        proof {
            assert forall|n: u64| r.avail().contains(n) implies old(
                frame_allocator,
            ).avail().contains(n) && !frame_allocator.avail().contains(n) by {
                assert(slot_set(f0).contains(n) || slot_set(f1).contains(n) || slot_set(
                    f2,
                ).contains(n));
            }
            assert forall|n: u64| old(frame_allocator).avail().contains(n) implies
                frame_allocator.avail().contains(n) || r.avail().contains(n) by {}
            assert(old(frame_allocator).avail() =~= frame_allocator.avail().union(r.avail()));
        }
        r
    }

    /// A slot is free to take a frame back.
    pub closed spec fn has_room(&self) -> bool {
        self.s0 is None || self.s1 is None || self.s2 is None
    }

    /// How many spare frames the pool holds.
    pub closed spec fn spare_count(&self) -> int {
        (if self.s0 is Some {
            1int
        } else {
            0int
        }) + (if self.s1 is Some {
            1int
        } else {
            0int
        }) + (if self.s2 is Some {
            1int
        } else {
            0int
        })
    }
}

impl FrameAllocator for TinyAllocator {
    /// Slots hold distinct frames below the addressable limit.
    closed spec fn inv(&self) -> bool {
        &&& slot_ok(self.s0)
        &&& slot_ok(self.s1)
        &&& slot_ok(self.s2)
        &&& slots_distinct(self.s0, self.s1)
        &&& slots_distinct(self.s0, self.s2)
        &&& slots_distinct(self.s1, self.s2)
    }

    /// The spare frames currently held.
    closed spec fn avail(&self) -> Set<u64> {
        slot_set(self.s0).union(slot_set(self.s1)).union(slot_set(self.s2))
    }

    /// Whether a frame can be taken back without exceeding the pool.
    closed spec fn can_accept(&self) -> bool {
        self.has_room()
    }

    fn allocate_frame(&mut self) -> (r: Option<Frame>) {
        if let Some(f) = self.s0 {
            self.s0 = None;
            proof {
                assert(self.avail() =~= old(self).avail().remove(f.number));
            }
            return Some(f);
        }
        if let Some(f) = self.s1 {
            self.s1 = None;
            proof {
                assert(self.avail() =~= old(self).avail().remove(f.number));
            }
            return Some(f);
        }
        if let Some(f) = self.s2 {
            self.s2 = None;
            proof {
                assert(self.avail() =~= old(self).avail().remove(f.number));
            }
            return Some(f);
        }
        proof {
            assert(self.avail() =~= Set::<u64>::empty());
        }
        None
    }

    /// Put a frame back into a free slot.  The pool holds at most
    /// three spares; callers must leave room before handing one back,
    /// and a frame the pool already holds stays as it is.
    fn deallocate_frame(&mut self, frame: Frame)
        ensures
            final(self).avail() == old(self).avail().insert(frame.number),
    {
        let dup0 = match self.s0 {
            Some(f) => f.number == frame.number,
            None => false,
        };
        let dup1 = match self.s1 {
            Some(f) => f.number == frame.number,
            None => false,
        };
        let dup2 = match self.s2 {
            Some(f) => f.number == frame.number,
            None => false,
        };
        if dup0 || dup1 || dup2 {
            proof {
                assert(old(self).avail().contains(frame.number));
                assert(self.avail() =~= old(self).avail().insert(frame.number));
            }
            return ;
        }
        if self.s0.is_none() {
            self.s0 = Some(frame);
            proof {
                assert(self.avail() =~= old(self).avail().insert(frame.number));
            }
            return ;
        }
        if self.s1.is_none() {
            self.s1 = Some(frame);
            proof {
                assert(self.avail() =~= old(self).avail().insert(frame.number));
            }
            return ;
        }
        self.s2 = Some(frame);
        proof {
            assert(self.avail() =~= old(self).avail().insert(frame.number));
        }
    }
}

/// One fixed scratch page plus the tiny pool that backs its table
/// frames, used to reach a physical frame before the final address
/// space exists.
pub struct TemporaryPage {
    page: Page,
    allocator: TinyAllocator,
}

impl TemporaryPage {
    /// The scratch page chosen at construction.
    pub closed spec fn spec_page(&self) -> Page {
        self.page
    }

    /// A frame can go back into the pool.
    pub closed spec fn can_take_back(&self) -> bool {
        self.allocator.can_accept()
    }

    /// How many spare frames the pool holds.
    pub closed spec fn pool_spares(&self) -> int {
        self.allocator.spare_count()
    }

    /// The pool is consistent.
    pub closed spec fn inv(&self) -> bool {
        self.allocator.inv() && self.page.spec_p4_index() != 511 && self.page.number
            < 0x8_0000_0000
    }

    /// Reserve a scratch page and pre-load the pool from `allocator`.
    pub fn new<A: FrameAllocator>(page: Page, allocator: &mut A) -> (r: TemporaryPage)
        requires
            old(allocator).inv(),
            page.spec_p4_index() != 511,
            page.number < 0x8_0000_0000,
        ensures
            final(allocator).inv(),
            final(allocator).avail().subset_of(old(allocator).avail()),
            r.inv(),
            r.spec_page() == page,
            forall|n: u64|
                r.pool().contains(n) ==> old(allocator).avail().contains(n) && !final(allocator).avail().contains(n),
            // The pool was pre-loaded with exactly three frames, short
            // only if the backing allocator ran dry.
            old(allocator).avail() == final(allocator).avail().union(r.pool()),
            r.pool_spares() == 3 || final(allocator).avail().is_empty(),
    {
        TemporaryPage { page, allocator: TinyAllocator::new(allocator) }
    }

    /// Frames currently spare in the pool.
    pub closed spec fn pool(&self) -> Set<u64> {
        self.allocator.avail()
    }

    /// Map the scratch page to `frame`, writable, drawing any table
    /// frames from the tiny pool.
    pub fn map(&mut self, frame: Frame, active_table: &mut ActivePageTable) -> (r: Result<
        u64,
        MapError,
    >)
        requires
            old(self).inv(),
            old(active_table).inv(),
            frame.number < FRAME_LIMIT,
            chain_exists(
                old(active_table).mapper.mem(),
                old(active_table).mapper.wroot(),
                old(self).spec_page().spec_p4_index(),
                old(self).spec_page().spec_p3_index(),
                old(self).spec_page().spec_p2_index(),
            ) || (forall|n: u64|
                old(self).pool().contains(n) ==> !old(active_table).mapper.mem().dom().contains(
                    n,
                )),
        ensures
            final(self).inv(),
            final(active_table).inv(),
            final(self).spec_page() == old(self).spec_page(),
            final(active_table).mapper.spec_p4_frame() == old(active_table).mapper.spec_p4_frame(),
            final(active_table).mapper.wroot() == old(active_table).mapper.wroot(),
            final(self).pool().subset_of(old(self).pool()),
            forall|f: u64|
                old(active_table).mapper.mem().dom().contains(f) ==> final(active_table).mapper.mem().dom().contains(f) && final(active_table).mapper.roles()[f] == old(active_table).mapper.roles()[f],
            forall|f: u64|
                old(active_table).mapper.mem().dom().contains(f) && old(active_table).mapper.roles()[f] == crate::mapper::Role::Root ==> final(active_table).mapper.mem()[f][511] == old(active_table).mapper.mem()[f][511],
            ({
                let m0 = old(active_table).mapper.mem();
                let w = old(active_table).mapper.wroot();
                let i4 = old(self).spec_page().spec_p4_index();
                let i3 = old(self).spec_page().spec_p3_index();
                let i2 = old(self).spec_page().spec_p2_index();
                let i1 = old(self).spec_page().spec_p1_index();
                match r {
                    // On success the scratch page maps `frame`,
                    // writable, and nothing else changed.
                    Ok(a) => a == old(self).spec_page().number * 4096 && spec_translate_idx(
                        final(active_table).mapper.mem(),
                        w,
                        i4,
                        i3,
                        i2,
                        i1,
                    ) == Some(frame.number) && spec_leaf_idx(
                        final(active_table).mapper.mem(),
                        w,
                        i4,
                        i3,
                        i2,
                        i1,
                    ) == Some(pack(frame.number, crate::entry::WRITABLE | PRESENT))
                        && !huge_blocked(m0, w, i4, i3, i2) && !spec_leaf_nonzero(
                        m0,
                        w,
                        i4,
                        i3,
                        i2,
                        i1,
                    ) && translations_preserved_except(
                        m0,
                        old(active_table).mapper.roles(),
                        final(active_table).mapper.mem(),
                        w,
                        i4,
                        i3,
                        i2,
                        i1,
                    ),
                    Err(e) => {
                        &&& translations_preserved(
                            m0,
                            old(active_table).mapper.roles(),
                            final(active_table).mapper.mem(),
                        )
                        &&& (e == MapError::UnmappedAccess <==> huge_blocked(m0, w, i4, i3, i2))
                        &&& (e == MapError::DoubleMapping <==> !huge_blocked(m0, w, i4, i3, i2)
                            && spec_leaf_nonzero(m0, w, i4, i3, i2, i1))
                        &&& (e == MapError::OutOfMemory ==> final(self).pool().is_empty()
                            && !chain_exists(m0, w, i4, i3, i2))
                        &&& (e == MapError::OutOfMemory || e == MapError::UnmappedAccess || e
                            == MapError::DoubleMapping)
                    },
                }
            }),
    {
        let flags = EntryFlags::from_bits_truncate(WRITABLE);
        proof {
            assert(self.page == old(self).spec_page());
            assert(self.allocator.avail() == old(self).pool());
            assert(active_table.mapper.mem() == old(active_table).mapper.mem());
            assert((crate::entry::WRITABLE & crate::entry::ALL_FLAGS) == crate::entry::WRITABLE)
                by (bit_vector);
        }
        match active_table.mapper.map_to(self.page, frame, flags, &mut self.allocator) {
            Ok(()) => Ok(self.page.start_address()),
            Err(e) => Err(e),
        }
    }

    /// Release the scratch page; its frame returns to the tiny pool.
    pub fn unmap(&mut self, active_table: &mut ActivePageTable) -> (r: Result<Frame, MapError>)
        requires
            old(self).inv(),
            old(active_table).inv(),
            old(self).can_take_back(),
        ensures
            final(self).inv(),
            final(active_table).inv(),
            final(self).spec_page() == old(self).spec_page(),
            final(active_table).mapper.spec_p4_frame() == old(active_table).mapper.spec_p4_frame(),
            final(active_table).mapper.wroot() == old(active_table).mapper.wroot(),
            ({
                let m0 = old(active_table).mapper.mem();
                let w = old(active_table).mapper.wroot();
                let i4 = old(self).spec_page().spec_p4_index();
                let i3 = old(self).spec_page().spec_p3_index();
                let i2 = old(self).spec_page().spec_p2_index();
                let i1 = old(self).spec_page().spec_p1_index();
                match r {
                    // On success the scratch page no longer translates
                    // and its frame rejoined the tiny pool.
                    Ok(f) => spec_translate_idx(m0, w, i4, i3, i2, i1) == Some(f.number)
                        && spec_translate_idx(
                        final(active_table).mapper.mem(),
                        w,
                        i4,
                        i3,
                        i2,
                        i1,
                    ) is None && translations_preserved_except(
                        m0,
                        old(active_table).mapper.roles(),
                        final(active_table).mapper.mem(),
                        w,
                        i4,
                        i3,
                        i2,
                        i1,
                    ) && final(self).pool().subset_of(old(self).pool().insert(f.number)),
                    // The scratch page had no present 4KiB mapping:
                    // nothing changed.
                    Err(e) => e == MapError::UnmappedAccess && final(active_table).mapper.mem()
                        == m0 && final(self).pool() == old(self).pool() && !(chain_exists(
                        m0,
                        w,
                        i4,
                        i3,
                        i2,
                    ) && e_present(m0[p1_frame_of(m0, w, i4, i3, i2)][i1])),
                }
            }),
    {
        proof {
            assert(self.page == old(self).spec_page());
        }
        active_table.mapper.unmap(self.page, &mut self.allocator)
    }
}

} // verus!
