//! Sequential physical frame allocator over the loader-reported memory
//! map, excluding the kernel image and the boot-information region.

use vstd::prelude::*;
use crate::memory::{Frame, FrameAllocator, PAGE_SIZE, FRAME_LIMIT};
use crate::boot::MemoryArea;
use crate::token::FrameToken;

verus! {

/// First frame of an area (the frame containing its base address).
pub open spec fn area_first(a: MemoryArea) -> int {
    a.base_addr as int / PAGE_SIZE as int
}

/// Last frame of an area (the frame containing its final byte).
pub open spec fn area_last(a: MemoryArea) -> int {
    (a.base_addr + a.length - 1) / PAGE_SIZE as int
}

/// An area is non-empty and lies below 2^52, so its frame numbers fit
/// the entry address field.
pub open spec fn area_fits(a: MemoryArea) -> bool {
    1 <= a.length && a.base_addr + a.length <= 0x10_0000_0000_0000
}

/// Largest last-frame over a sequence of areas.
pub open spec fn max_area_last(s: Seq<MemoryArea>) -> int
    decreases s.len(),
{
    if s.len() == 0 {
        0
    } else {
        let m = max_area_last(s.drop_last());
        if area_last(s.last()) > m {
            area_last(s.last())
        } else {
            m
        }
    }
}

proof fn lemma_max_area_last(s: Seq<MemoryArea>, i: int)
    requires
        0 <= i < s.len(),
    ensures
        area_last(s[i]) <= max_area_last(s),
        max_area_last(s) >= 0,
    decreases s.len(),
{
    if s.len() > 0 {
        if i == s.len() - 1 {
            if s.len() == 1 {
            } else {
                lemma_max_area_last(s.drop_last(), 0);
            }
        } else {
            lemma_max_area_last(s.drop_last(), i);
            assert(s.drop_last()[i] == s[i]);
        }
    }
}

proof fn lemma_max_area_last_nonneg(s: Seq<MemoryArea>)
    ensures
        max_area_last(s) >= 0,
    decreases s.len(),
{
    if s.len() > 0 {
        lemma_max_area_last_nonneg(s.drop_last());
    }
}

/// `n` lies inside one of the given areas.
pub open spec fn covers(areas: Seq<MemoryArea>, n: u64) -> bool {
    exists|i: int|
        0 <= i < areas.len() && area_first(#[trigger] areas[i]) <= n && n <= area_last(areas[i])
}

/// The frames an allocator with this state may still hand out: at or
/// past the cursor, outside both excluded ranges, inside some area.
pub open spec fn frames_available(
    cursor: int,
    ks: u64,
    ke: u64,
    ms: u64,
    me: u64,
    areas: Seq<MemoryArea>,
) -> Set<u64> {
    Set::new(
        |n: u64| n >= cursor && !(ks <= n <= ke) && !(ms <= n <= me) && covers(areas, n),
    )
}

/// Membership in the available set, spelled out.
pub proof fn lemma_frames_available(
    cursor: int,
    ks: u64,
    ke: u64,
    ms: u64,
    me: u64,
    areas: Seq<MemoryArea>,
    n: u64,
)
    ensures
        frames_available(cursor, ks, ke, ms, me, areas).contains(n) == (n >= cursor && !(ks <= n
            <= ke) && !(ms <= n <= me) && covers(areas, n)),
{
}

/// Pulls frames from the reported areas, lowest addresses first,
/// skipping the kernel image and the boot-information region.  The
/// cursor only ever advances: a frame handed out is never reused while
/// the allocator lives, and handing a frame back is accounting only.
pub struct AreaFrameAllocator {
    next_free_frame: Frame,
    current_area: Option<MemoryArea>,
    areas: Vec<MemoryArea>,
    kernel_start: Frame,
    kernel_end: Frame,
    multiboot_start: Frame,
    multiboot_end: Frame,
    alloc_count: u64,
    dealloc_count: u64,
}

impl AreaFrameAllocator {
    /// The allocation cursor: no frame below it will ever be returned
    /// again.
    pub closed spec fn cursor(&self) -> int {
        self.next_free_frame.number as int
    }

    pub closed spec fn spec_kernel_start(&self) -> u64 {
        self.kernel_start.number
    }

    pub closed spec fn spec_kernel_end(&self) -> u64 {
        self.kernel_end.number
    }

    pub closed spec fn spec_multiboot_start(&self) -> u64 {
        self.multiboot_start.number
    }

    pub closed spec fn spec_multiboot_end(&self) -> u64 {
        self.multiboot_end.number
    }

    /// `n` lies in the excluded kernel frame range.
    pub open spec fn in_kernel(&self, n: u64) -> bool {
        self.spec_kernel_start() <= n <= self.spec_kernel_end()
    }

    /// `n` lies in the excluded boot-information frame range.
    pub open spec fn in_multiboot(&self, n: u64) -> bool {
        self.spec_multiboot_start() <= n <= self.spec_multiboot_end()
    }

    pub closed spec fn spec_areas(&self) -> Seq<MemoryArea> {
        self.areas@
    }

    /// `n` lies in one of the reported areas.
    pub open spec fn in_some_area(&self, n: u64) -> bool {
        covers(self.spec_areas(), n)
    }

    /// Upper bound the cursor can ever reach.
    pub closed spec fn cursor_bound(&self) -> int {
        self.kernel_end.number + self.multiboot_end.number + max_area_last(self.areas@) + 2
    }

    /// The chosen area, if any, is the lowest-based area whose end is
    /// still at or past the cursor, and the cursor is within it.
    spec fn current_ok(&self) -> bool {
        match self.current_area {
            Some(a) => {
                &&& self.areas@.contains(a)
                &&& area_first(a) <= self.cursor()
                &&& forall|i: int|
                    0 <= i < self.areas@.len() && area_last(#[trigger] self.areas@[i])
                        >= self.cursor() ==> a.base_addr <= self.areas@[i].base_addr
            },
            None => forall|i: int|
                0 <= i < self.areas@.len() ==> area_last(#[trigger] self.areas@[i]) < self.cursor(),
        }
    }

    /// Structural invariant of the allocator.
    pub closed spec fn wf(&self) -> bool {
        &&& forall|i: int|
            0 <= i < self.areas@.len() ==> area_fits(#[trigger] self.areas@[i])
        &&& self.current_ok()
        &&& 0 <= self.cursor() <= self.cursor_bound()
        &&& self.kernel_end.number < FRAME_LIMIT
        &&& self.multiboot_end.number < FRAME_LIMIT
        &&& self.alloc_count <= self.next_free_frame.number
    }

    /// Consume the frame token and take over allocation of the unused
    /// frames.  The token cannot be restored: a frame handed back is
    /// not necessarily one that came from here.
    pub fn new(
        _token: FrameToken,
        kernel_start: u64,
        kernel_end: u64,
        multiboot_start: u64,
        multiboot_end: u64,
        memory_areas: Vec<MemoryArea>,
    ) -> (r: AreaFrameAllocator)
        requires
            forall|i: int| 0 <= i < memory_areas@.len() ==> area_fits(#[trigger] memory_areas@[i]),
            kernel_end < 0x10_0000_0000_0000,
            multiboot_end < 0x10_0000_0000_0000,
        ensures
            r.wf(),
            r.inv(),
            r.can_accept(),
            r.spec_kernel_start() == kernel_start / PAGE_SIZE,
            r.spec_kernel_end() == kernel_end / PAGE_SIZE,
            r.spec_multiboot_start() == multiboot_start / PAGE_SIZE,
            r.spec_multiboot_end() == multiboot_end / PAGE_SIZE,
            r.spec_areas() == memory_areas@,
            forall|n: u64|
                r.avail().contains(n) ==> !r.in_kernel(n) && !r.in_multiboot(n) && r.in_some_area(
                    n,
                ),
            // Initially every usable frame is available: the cursor
            // starts at frame zero, clamped into the chosen area.
            forall|n: u64|
                !r.in_kernel(n) && !r.in_multiboot(n) && r.in_some_area(n) ==> r.avail().contains(
                    n,
                ),
            r.get_counts_spec() == (0u64, 0u64),
    {
        let mut allocator = AreaFrameAllocator {
            next_free_frame: Frame::containing_address(0),
            current_area: None,
            areas: memory_areas,
            kernel_start: Frame::containing_address(kernel_start),
            kernel_end: Frame::containing_address(kernel_end),
            multiboot_start: Frame::containing_address(multiboot_start),
            multiboot_end: Frame::containing_address(multiboot_end),
            alloc_count: 0,
            dealloc_count: 0,
        };
        proof {
            lemma_max_area_last_nonneg(allocator.areas@);
        }
        let ghost pre = allocator;
        allocator.choose_next_area();
        proof {
            assert forall|n: u64|
                !allocator.in_kernel(n) && !allocator.in_multiboot(n) && allocator.in_some_area(
                    n,
                ) implies allocator.avail().contains(n) by {
                assert(pre.avail().contains(n));
            }
        }
        allocator
    }

    /// Both counters: frames handed out and frames handed back.
    pub closed spec fn get_counts_spec(&self) -> (u64, u64) {
        (self.alloc_count, self.dealloc_count)
    }

    pub fn get_alloc_counts(&self) -> (r: (u64, u64))
        ensures
            r == self.get_counts_spec(),
    {
        (self.alloc_count, self.dealloc_count)
    }

    /// Select the lowest-based area whose last frame is at or past the
    /// cursor, and move the cursor up to its first frame if it was
    /// below it.
    fn choose_next_area(&mut self)
        requires
            forall|i: int|
                0 <= i < old(self).areas@.len() ==> area_fits(#[trigger] old(self).areas@[i]),
            0 <= old(self).cursor() <= old(self).cursor_bound(),
            old(self).alloc_count <= old(self).next_free_frame.number,
        ensures
            final (self).current_ok(),
            match final (self).current_area {
                Some(a) => area_last(a) >= final (self).cursor(),
                None => true,
            },
            final (self).areas@ == old(self).areas@,
            final (self).kernel_start == old(self).kernel_start,
            final (self).kernel_end == old(self).kernel_end,
            final (self).multiboot_start == old(self).multiboot_start,
            final (self).multiboot_end == old(self).multiboot_end,
            final (self).alloc_count == old(self).alloc_count,
            final (self).dealloc_count == old(self).dealloc_count,
            final (self).cursor() >= old(self).cursor(),
            0 <= final (self).cursor() <= final (self).cursor_bound(),
            final (self).avail() =~= old(self).avail(),
            final (self).alloc_count <= final (self).next_free_frame.number,
    {
        let ghost old_avail = self.avail();
        let mut best: Option<MemoryArea> = None;
        let mut i: usize = 0;
        while i < self.areas.len()
            invariant
                0 <= i <= self.areas@.len(),
                forall|j: int|
                    0 <= j < self.areas@.len() ==> area_fits(#[trigger] self.areas@[j]),
                match best {
                    Some(b) => {
                        &&& self.areas@.contains(b)
                        &&& area_last(b) >= self.cursor()
                        &&& forall|j: int|
                            0 <= j < i && area_last(#[trigger] self.areas@[j]) >= self.cursor()
                                ==> b.base_addr <= self.areas@[j].base_addr
                    },
                    None => forall|j: int|
                        0 <= j < i ==> area_last(#[trigger] self.areas@[j]) < self.cursor(),
                },
            decreases self.areas@.len() - i,
        {
            let a = self.areas[i];
            let last_addr: u64 = a.base_addr + a.length - 1;
            let last_frame: u64 = last_addr / PAGE_SIZE;
            if last_frame >= self.next_free_frame.number {
                match best {
                    None => {
                        best = Some(a);
                    },
                    Some(b) => {
                        if a.base_addr < b.base_addr {
                            best = Some(a);
                        }
                    },
                }
            }
            i = i + 1;
        }
        self.current_area = best;
        if let Some(a) = self.current_area {
            let start_addr: u64 = a.base_addr;
            let start_frame: u64 = start_addr / PAGE_SIZE;
            if self.next_free_frame.number < start_frame {
                proof {
                    // No area holds a frame between the old cursor and
                    // the chosen area's first frame: such an area would
                    // have been a lower-based candidate.
                    assert forall|n: u64|
                        old_avail.contains(n) implies self.avail_with_cursor(
                        start_frame as int,
                    ).contains(n) by {
                        let j = choose|j: int|
                            0 <= j < self.areas@.len() && area_first(
                                #[trigger] self.areas@[j],
                            ) <= n && n <= area_last(self.areas@[j]);
                        assert(area_last(self.areas@[j]) >= self.cursor());
                        assert(a.base_addr <= self.areas@[j].base_addr);
                        vstd::arithmetic::div_mod::lemma_div_is_ordered(
                            a.base_addr as int,
                            self.areas@[j].base_addr as int,
                            PAGE_SIZE as int,
                        );
                    }
                    let i0 = choose|i0: int|
                        0 <= i0 < self.areas@.len() && self.areas@[i0] == a;
                    lemma_max_area_last(self.areas@, i0);
                    vstd::arithmetic::div_mod::lemma_div_is_ordered(
                        a.base_addr as int,
                        (a.base_addr + a.length - 1) as int,
                        PAGE_SIZE as int,
                    );
                }
                self.next_free_frame = Frame { number: start_frame };
            }
        }
        proof {
            assert forall|n: u64| self.avail().contains(n) implies old_avail.contains(n) by {}
            assert forall|n: u64| old_avail.contains(n) implies self.avail().contains(n) by {}
            if let Some(a) = self.current_area {
                let i0 = choose|i0: int| 0 <= i0 < self.areas@.len() && self.areas@[i0] == a;
                lemma_max_area_last(self.areas@, i0);
                vstd::arithmetic::div_mod::lemma_div_is_ordered(
                    a.base_addr as int,
                    (a.base_addr + a.length - 1) as int,
                    PAGE_SIZE as int,
                );
            }
        }
    }

    /// Whether the next allocation step must first pick a new area.
    spec fn choose_pending(&self) -> int {
        match self.current_area {
            Some(a) => if area_last(a) < self.cursor() {
                1int
            } else {
                0int
            },
            None => 0int,
        }
    }

    /// The available set as it would be with the given cursor.
    spec fn avail_with_cursor(&self, c: int) -> Set<u64> {
        frames_available(
            c,
            self.kernel_start.number,
            self.kernel_end.number,
            self.multiboot_start.number,
            self.multiboot_end.number,
            self.areas@,
        )
    }
}

impl FrameAllocator for AreaFrameAllocator {
    /// The structural invariant.
    closed spec fn inv(&self) -> bool {
        self.wf()
    }

    /// Frames that may still be handed out: at or past the cursor,
    /// outside both excluded ranges, inside some reported area.
    closed spec fn avail(&self) -> Set<u64> {
        self.avail_with_cursor(self.cursor())
    }

    /// Handing frames back is always accepted (it is accounting only).
    open spec fn can_accept(&self) -> bool {
        true
    }

    fn allocate_frame(&mut self) -> (r: Option<Frame>)
        ensures
            final (self).can_accept(),
            final (self).spec_kernel_start() == old(self).spec_kernel_start(),
            final (self).spec_kernel_end() == old(self).spec_kernel_end(),
            final (self).spec_multiboot_start() == old(self).spec_multiboot_start(),
            final (self).spec_multiboot_end() == old(self).spec_multiboot_end(),
            final (self).spec_areas() == old(self).spec_areas(),
            // The cursor never moves backwards, so frames strictly
            // increase over the allocator's whole lifetime.
            final (self).cursor() >= old(self).cursor(),
            match r {
                // Returned frames strictly increase: each is at or past
                // the old cursor and below the new one, none lies in
                // the kernel or boot-information ranges, and exactly
                // the allocation counter advances.
                Some(f) => f.number >= old(self).cursor() && final (self).cursor() > f.number
                    && !old(self).in_kernel(f.number) && !old(self).in_multiboot(f.number)
                    && old(self).in_some_area(f.number) && (forall|n: u64|
                    old(self).avail().contains(n) ==> n >= f.number) && final (
                self).get_counts_spec().0 == old(self).get_counts_spec().0 + 1 && final (
                self).get_counts_spec().1 == old(self).get_counts_spec().1,
                None => final (self).get_counts_spec() == old(self).get_counts_spec(),
            },
    {
        loop
            invariant
                self.wf(),
                self.areas@ == old(self).areas@,
                self.kernel_start == old(self).kernel_start,
                self.kernel_end == old(self).kernel_end,
                self.multiboot_start == old(self).multiboot_start,
                self.multiboot_end == old(self).multiboot_end,
                self.dealloc_count == old(self).dealloc_count,
                self.alloc_count == old(self).alloc_count,
                self.cursor() >= old(self).cursor(),
                self.avail() =~= old(self).avail(),
            decreases self.cursor_bound() - self.cursor(), self.choose_pending(),
        {
            let area = match self.current_area {
                None => {
                    return None;
                },
                Some(a) => a,
            };
            let frame = self.next_free_frame;
            let last_addr: u64 = area.base_addr + area.length - 1;
            let current_area_last_frame: u64 = last_addr / PAGE_SIZE;
            proof {
                let i0 = choose|i0: int| 0 <= i0 < self.areas@.len() && self.areas@[i0] == area;
                lemma_max_area_last(self.areas@, i0);
            }
            if frame.number > current_area_last_frame {
                // This area is used up; go on to the next one.
                self.choose_next_area();
            } else if frame.number >= self.kernel_start.number && frame.number
                <= self.kernel_end.number {
                // The frame is used by the kernel: jump past the whole
                // kernel range at once.
                let ghost pre = *self;
                self.next_free_frame = Frame { number: self.kernel_end.number + 1 };
                proof {
                    assert forall|n: u64| pre.avail().contains(n) implies self.avail().contains(
                        n,
                    ) by {
                        assert(!pre.in_kernel(n));
                    }
                    assert forall|n: u64| self.avail().contains(n) implies pre.avail().contains(
                        n,
                    ) by {}
                    assert(self.avail() =~= pre.avail());
                }
            } else if frame.number >= self.multiboot_start.number && frame.number
                <= self.multiboot_end.number {
                // The frame is used by the boot information: jump past
                // that range at once.
                let ghost pre = *self;
                self.next_free_frame = Frame { number: self.multiboot_end.number + 1 };
                proof {
                    assert forall|n: u64| pre.avail().contains(n) implies self.avail().contains(
                        n,
                    ) by {
                        assert(!pre.in_multiboot(n));
                    }
                    assert forall|n: u64| self.avail().contains(n) implies pre.avail().contains(
                        n,
                    ) by {}
                    assert(self.avail() =~= pre.avail());
                }
            } else {
                let ghost pre = *self;
                self.next_free_frame = Frame { number: frame.number + 1 };
                self.alloc_count = self.alloc_count + 1;
                proof {
                    assert(pre.avail().contains(frame.number));
                    assert(self.avail() =~= pre.avail().remove(frame.number));
                    assert(frame.number < FRAME_LIMIT) by {
                        let i0 = choose|i0: int|
                            0 <= i0 < pre.areas@.len() && pre.areas@[i0] == area;
                        lemma_max_area_last(pre.areas@, i0);
                    }
                }
                return Some(frame);
            }
        }
    }

    /// Accounting only: the frame is counted but never reused while
    /// this allocator lives.
    fn deallocate_frame(&mut self, _frame: Frame)
        ensures
            final (self).can_accept(),
            final (self).avail() == old(self).avail(),
            final (self).spec_kernel_start() == old(self).spec_kernel_start(),
            final (self).spec_kernel_end() == old(self).spec_kernel_end(),
            final (self).spec_multiboot_start() == old(self).spec_multiboot_start(),
            final (self).spec_multiboot_end() == old(self).spec_multiboot_end(),
            final (self).spec_areas() == old(self).spec_areas(),
            // No reclamation: only the deallocation counter moves (it
            // wraps on overflow); the cursor and the allocation
            // counter are untouched.
            final (self).cursor() == old(self).cursor(),
            final (self).get_counts_spec().0 == old(self).get_counts_spec().0,
            final (self).get_counts_spec().1 == (if old(self).get_counts_spec().1 == u64::MAX {
                0u64
            } else {
                (old(self).get_counts_spec().1 + 1) as u64
            }),
    {
        self.dealloc_count = self.dealloc_count.wrapping_add(1);
    }
}

} // verus!
