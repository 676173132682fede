//! Virtual pages and the page-table typestate: the table the hardware
//! walks (active) against one under construction (inactive).

use vstd::prelude::*;
use crate::memory::{Frame, FrameAllocator, PAGE_SIZE, FRAME_LIMIT};
use crate::entry::{EntryFlags, flags_fit, pack, PRESENT, WRITABLE, NO_EXECUTE};
use crate::mapper::{
    Mapper,
    MapError,
    Role,
    chain_exists,
    spec_translate_idx,
    spec_translate_page,
    spec_leaf_idx,
    spec_leaf_nonzero,
    translations_preserved,
    translations_preserved_except,
    lemma_preserved_at,
    lemma_preserved_except_at,
    lemma_leaf_some_nonzero,
    lemma_empty_root_translates_none,
};
use crate::entry::{flags_fit as entry_flags_fit, lemma_pack, lemma_or_present, ALL_FLAGS};
use crate::mapper::lemma_zero_entry;
use crate::boot::ElfSection;
use crate::entry::spec_section_flags;
use crate::table::TableArena;
use crate::boot::BootInfo;
use crate::area_frame_allocator::AreaFrameAllocator;
use crate::temporary_mapping::TemporaryPage;

verus! {

/// Largest page number: virtual addresses are 64 bits wide.
pub const PAGE_NUMBER_LIMIT: u64 = 0x10_0000_0000_0000;

/// A virtual memory page, identified by its page number.  Valid pages
/// lie in the two canonical x86-64 half-ranges.
#[derive(Clone, Copy, Debug, PartialEq, Eq, Structural)]
pub struct Page {
    pub number: u64,
}

impl Page {
    /// The page number is canonical: below 2^47 or sign-extended.
    pub open spec fn valid(&self) -> bool {
        self.number < 0x8_0000_0000 || (0xffff_8000_0000_0 <= self.number < PAGE_NUMBER_LIMIT)
    }

    pub open spec fn spec_p4_index(&self) -> int {
        (self.number as int / 0x800_0000) % 512
    }

    pub open spec fn spec_p3_index(&self) -> int {
        (self.number as int / 0x4_0000) % 512
    }

    pub open spec fn spec_p2_index(&self) -> int {
        (self.number as int / 0x200) % 512
    }

    pub open spec fn spec_p1_index(&self) -> int {
        self.number as int % 512
    }

    /// The page holding the given virtual address, which must be
    /// canonical.
    pub fn containing_address(address: u64) -> (r: Page)
        requires
            address < 0x0000_8000_0000_0000 || address >= 0xffff_8000_0000_0000,
        ensures
            r.number == address / PAGE_SIZE,
            r.valid(),
    {
        proof {
            if address >= 0xffff_8000_0000_0000 {
                vstd::arithmetic::div_mod::lemma_div_is_ordered(
                    0xffff_8000_0000_0000u64 as int,
                    address as int,
                    PAGE_SIZE as int,
                );
            }
        }
        Page { number: address / PAGE_SIZE }
    }

    /// First virtual address of the page.
    pub fn start_address(&self) -> (r: u64)
        requires
            self.number < PAGE_NUMBER_LIMIT,
        ensures
            r == self.number * PAGE_SIZE,
    {
        self.number * PAGE_SIZE
    }

    pub fn p4_index(&self) -> (r: usize)
        ensures
            r == self.spec_p4_index(),
            r < 512,
    {
        ((self.number / 0x800_0000) % 512) as usize
    }

    pub fn p3_index(&self) -> (r: usize)
        ensures
            r == self.spec_p3_index(),
            r < 512,
    {
        ((self.number / 0x4_0000) % 512) as usize
    }

    pub fn p2_index(&self) -> (r: usize)
        ensures
            r == self.spec_p2_index(),
            r < 512,
    {
        ((self.number / 0x200) % 512) as usize
    }

    pub fn p1_index(&self) -> (r: usize)
        ensures
            r == self.spec_p1_index(),
            r < 512,
    {
        (self.number % 512) as usize
    }
}


/// The page table the hardware is walking.  Conceptually unique: it
/// owns the arena of table memory and the loaded root frame.
pub struct ActivePageTable {
    pub mapper: Mapper,
}

impl ActivePageTable {
    /// The table is in a consistent state.
    pub open spec fn inv(&self) -> bool {
        self.mapper.inv()
    }

    /// A freshly initialised address space: one root table, cleared
    /// except for its recursive slot.
    pub fn new(p4_frame: u64) -> (r: ActivePageTable)
        requires
            p4_frame < FRAME_LIMIT,
        ensures
            r.inv(),
            r.mapper.spec_p4_frame() == p4_frame,
            r.mapper.wroot() == p4_frame,
    {
        ActivePageTable { mapper: Mapper::boot(p4_frame) }
    }

    /// What a virtual address maps to.
    pub fn translate(&self, address: u64) -> (r: Option<u64>)
        requires
            self.inv(),
            address < 0x0000_8000_0000_0000 || address >= 0xffff_8000_0000_0000,
        ensures
            match r {
                Some(a) => {
                    &&& crate::mapper::spec_translate_page(
                        self.mapper.mem(),
                        self.mapper.wroot(),
                        Page { number: address / PAGE_SIZE },
                    ) matches Some(f)
                    &&& a == f * PAGE_SIZE + address % PAGE_SIZE
                },
                None => crate::mapper::spec_translate_page(
                    self.mapper.mem(),
                    self.mapper.wroot(),
                    Page { number: address / PAGE_SIZE },
                ) is None,
            },
    {
        self.mapper.translate(address)
    }

    /// Exchange the loaded root for the given inactive one; the old
    /// root becomes inactive.  Models the write of the hardware
    /// table-base register: the switch itself cannot fail, a bad frame
    /// only faults on the first later translation.
    pub fn switch(&mut self, new_table: InactivePageTable) -> (r: InactivePageTable)
        requires
            old(self).inv(),
            old(self).mapper.is_self_mapped_root(new_table.p4_frame.number),
        ensures
            final(self).inv(),
            final(self).mapper.spec_p4_frame() == new_table.p4_frame.number,
            final(self).mapper.wroot() == new_table.p4_frame.number,
            final(self).mapper.mem() == old(self).mapper.mem(),
            final(self).mapper.roles() == old(self).mapper.roles(),
            r.p4_frame.number == old(self).mapper.spec_p4_frame(),
    {
        let old_root = self.mapper.switch_root(new_table.p4_frame.number);
        InactivePageTable { p4_frame: Frame { number: old_root } }
    }
}

/// A page table under construction: allocated, cleared and self-mapped
/// at slot 511, but not loaded by the hardware.
pub struct InactivePageTable {
    pub p4_frame: Frame,
}

impl InactivePageTable {
    /// Turn the unused `frame` into a cleared root that maps itself,
    /// present and writable, at slot 511.  In the arena model the
    /// frame's record is written directly; `temporary_page` is kept
    /// for the shape of the original interface, whose scratch window
    /// this write stands for, and comes back untouched.
    pub fn new(
        frame: Frame,
        active_table: &mut ActivePageTable,
        temporary_page: &mut TemporaryPage,
    ) -> (r: InactivePageTable)
        requires
            old(active_table).inv(),
            frame.number < FRAME_LIMIT,
            !old(active_table).mapper.mem().dom().contains(frame.number),
        ensures
            final(active_table).inv(),
            final(active_table).mapper.spec_p4_frame() == old(active_table).mapper.spec_p4_frame(),
            final(active_table).mapper.wroot() == old(active_table).mapper.wroot(),
            final(active_table).mapper.is_self_mapped_root(frame.number),
            final(active_table).mapper.mem()[frame.number][511] == pack(
                frame.number,
                PRESENT | WRITABLE,
            ),
            *final(temporary_page) == *old(temporary_page),
            r.p4_frame == frame,
            final(active_table).mapper.mem().dom() == old(active_table).mapper.mem().dom().insert(
                frame.number,
            ),
            forall|f: u64|
                old(active_table).mapper.mem().dom().contains(f) ==> final(active_table).mapper.mem()[f] == old(active_table).mapper.mem()[f] && final(active_table).mapper.roles()[f] == old(active_table).mapper.roles()[f],
            forall|i: int| 0 <= i < 511 ==> final(active_table).mapper.mem()[frame.number][i] == 0,
            crate::mapper::translations_preserved(
                old(active_table).mapper.mem(),
                old(active_table).mapper.roles(),
                final(active_table).mapper.mem(),
            ),
    {
        active_table.mapper.install_root_table(frame);
        InactivePageTable { p4_frame: frame }
    }
}


/// The page with number `p`.
pub open spec fn page_of(p: u64) -> Page {
    Page { number: p }
}

/// Page `p` lies inside the loaded ELF section `s`.
pub open spec fn section_page(s: ElfSection, p: u64) -> bool {
    s.spec_is_allocated() && s.addr / 4096 <= p && p * 4096 < s.addr + s.size
}

/// Page `p` lies inside one of the first `si` sections.
pub open spec fn in_sections_upto(sections: Seq<ElfSection>, si: int, p: u64) -> bool {
    exists|ii: int| 0 <= ii < si && section_page(#[trigger] sections[ii], p)
}

/// Page `p` is one the boot-information pass maps for `[mb0, mb1)`.
pub open spec fn multiboot_page(mb0: u64, mb1: u64, p: u64) -> bool {
    mb0 / 4096 <= p && mb0 + 4096 * (p - mb0 / 4096) < mb1
}

/// Page `p` is covered by the regions the remapping exposes.
pub open spec fn remap_covered(sections: Seq<ElfSection>, mb0: u64, mb1: u64, p: u64) -> bool {
    in_sections_upto(sections, sections.len() as int, p) || p == 0xb8 || multiboot_page(
        mb0,
        mb1,
        p,
    )
}

/// Page `p` translates to itself and its P1 slot holds exactly the
/// present flag word `fl`.
pub open spec fn identity_mapped(mem: Map<u64, Seq<u64>>, w: u64, p: u64, fl: u64) -> bool {
    &&& spec_translate_page(mem, w, page_of(p)) == Some(p)
    &&& spec_leaf_idx(
        mem,
        w,
        page_of(p).spec_p4_index(),
        page_of(p).spec_p3_index(),
        page_of(p).spec_p2_index(),
        page_of(p).spec_p1_index(),
    ) == Some(crate::entry::pack(p, fl))
    &&& entry_flags_fit(fl)
    &&& fl & PRESENT == PRESENT
}

/// The four indices of page `p`.
pub open spec fn page_has_idx(p: u64, j4: int, j3: int, j2: int, j1: int) -> bool {
    page_of(p).spec_p4_index() == j4 && page_of(p).spec_p3_index() == j3 && page_of(p).spec_p2_index() == j2 && page_of(p).spec_p1_index() == j1
}

/// Outside the walks of the pages `done` admits, nothing translates.
spec fn no_mapping_outside(mem: Map<u64, Seq<u64>>, w: u64, done: spec_fn(u64) -> bool) -> bool {
    forall|j4: int, j3: int, j2: int, j1: int|
        0 <= j4 < 511 && 0 <= j3 < 512 && 0 <= j2 < 512 && 0 <= j1 < 512 && !(exists|p: u64|
            p < 0x8_0000_0000 && done(p) && #[trigger] page_has_idx(p, j4, j3, j2, j1))
            ==> #[trigger] spec_translate_idx(mem, w, j4, j3, j2, j1) is None
}

/// A low page's indices are in range, with the P4 index below 256.
proof fn lemma_low_page_idx(p: u64)
    requires
        p < 0x8_0000_0000,
    ensures
        0 <= page_of(p).spec_p4_index() < 256,
        0 <= page_of(p).spec_p3_index() < 512,
        0 <= page_of(p).spec_p2_index() < 512,
        0 <= page_of(p).spec_p1_index() < 512,
        page_has_idx(
            p,
            page_of(p).spec_p4_index(),
            page_of(p).spec_p3_index(),
            page_of(p).spec_p2_index(),
            page_of(p).spec_p1_index(),
        ),
{
    assert(p < 0x8_0000_0000u64 ==> ((p / 0x800_0000u64) % 512u64) < 256u64) by (bit_vector);
}

/// Distinct low pages differ in at least one index.
proof fn lemma_page_idx_inj(p: u64, q: u64)
    requires
        p < 0x8_0000_0000,
        q < 0x8_0000_0000,
        p != q,
    ensures
        !(page_of(p).spec_p4_index() == page_of(q).spec_p4_index() && page_of(p).spec_p3_index() == page_of(q).spec_p3_index() && page_of(p).spec_p2_index()
            == page_of(q).spec_p2_index() && page_of(p).spec_p1_index() == page_of(q).spec_p1_index()),
{
    assert(p < 0x8_0000_0000u64 && q < 0x8_0000_0000u64 && p != q ==> !((p / 0x800_0000u64)
        % 512u64 == (q / 0x800_0000u64) % 512u64 && (p / 0x4_0000u64) % 512u64 == (q
        / 0x4_0000u64) % 512u64 && (p / 0x200u64) % 512u64 == (q / 0x200u64) % 512u64 && p % 512u64
        == q % 512u64)) by (bit_vector);
}

/// A canonical high-half page has a P4 index of at least 256.
proof fn lemma_high_page_idx(p: u64)
    requires
        0xffff_8000_0000_0 <= p < 0x10_0000_0000_0000,
    ensures
        page_of(p).spec_p4_index() >= 256,
{
    assert(0xffff_8000_0000_0u64 <= p && p < 0x10_0000_0000_0000u64 ==> ((p / 0x800_0000u64)
        % 512u64) >= 256u64) by (bit_vector);
}

/// An identity mapping is a nonzero P1 slot.
proof fn lemma_identity_nonzero(mem: Map<u64, Seq<u64>>, w: u64, p: u64, fl: u64)
    requires
        p < 0x8_0000_0000,
        identity_mapped(mem, w, p, fl),
    ensures
        spec_leaf_nonzero(
            mem,
            w,
            page_of(p).spec_p4_index(),
            page_of(p).spec_p3_index(),
            page_of(p).spec_p2_index(),
            page_of(p).spec_p1_index(),
        ),
{
    lemma_pack(p, fl);
    lemma_zero_entry();
    lemma_leaf_some_nonzero(
        mem,
        w,
        page_of(p).spec_p4_index(),
        page_of(p).spec_p3_index(),
        page_of(p).spec_p2_index(),
        page_of(p).spec_p1_index(),
        crate::entry::pack(p, fl),
    );
}

/// After mapping the fresh page `q`, every established identity
/// mapping of another page survives.
proof fn lemma_identity_kept(
    m0: Map<u64, Seq<u64>>,
    r0: Map<u64, Role>,
    m1: Map<u64, Seq<u64>>,
    w: u64,
    q: u64,
    p: u64,
    fl: u64,
)
    requires
        m0.dom().contains(w),
        r0[w] == Role::Root,
        p < 0x8_0000_0000,
        q < 0x8_0000_0000,
        identity_mapped(m0, w, p, fl),
        translations_preserved_except(
            m0,
            r0,
            m1,
            w,
            page_of(q).spec_p4_index(),
            page_of(q).spec_p3_index(),
            page_of(q).spec_p2_index(),
            page_of(q).spec_p1_index(),
        ),
        !spec_leaf_nonzero(
            m0,
            w,
            page_of(q).spec_p4_index(),
            page_of(q).spec_p3_index(),
            page_of(q).spec_p2_index(),
            page_of(q).spec_p1_index(),
        ),
    ensures
        identity_mapped(m1, w, p, fl),
{
    lemma_identity_nonzero(m0, w, p, fl);
    lemma_low_page_idx(p);
    if p == q {
        assert(false);
    }
    lemma_page_idx_inj(p, q);
    lemma_preserved_except_at(
        m0,
        r0,
        m1,
        w,
        page_of(q).spec_p4_index(),
        page_of(q).spec_p3_index(),
        page_of(q).spec_p2_index(),
        page_of(q).spec_p1_index(),
        w,
        page_of(p).spec_p4_index(),
        page_of(p).spec_p3_index(),
        page_of(p).spec_p2_index(),
        page_of(p).spec_p1_index(),
    );
}

/// Under an unchanged-translation step, an established identity
/// mapping survives.
proof fn lemma_identity_kept_full(
    m0: Map<u64, Seq<u64>>,
    r0: Map<u64, Role>,
    m1: Map<u64, Seq<u64>>,
    w: u64,
    p: u64,
    fl: u64,
)
    requires
        m0.dom().contains(w),
        r0[w] == Role::Root,
        p < 0x8_0000_0000,
        identity_mapped(m0, w, p, fl),
        translations_preserved(m0, r0, m1),
    ensures
        identity_mapped(m1, w, p, fl),
{
    lemma_identity_nonzero(m0, w, p, fl);
    lemma_low_page_idx(p);
    lemma_preserved_at(
        m0,
        r0,
        m1,
        w,
        page_of(p).spec_p4_index(),
        page_of(p).spec_p3_index(),
        page_of(p).spec_p2_index(),
        page_of(p).spec_p1_index(),
    );
}

/// Build a minimal replacement address space exposing exactly the
/// loaded ELF sections (identity-mapped with flags derived from each
/// section), the VGA text buffer (writable, no-execute) and the
/// boot-information range (read-only, no-execute), switch to it, and
/// retire the old root as an unmapped guard page.  On success the
/// returned table maps exactly those regions — every other canonical
/// address translates to nothing — and the guard page is gone even if
/// a region covered it.  A mapping collision, a huge mapping, or an
/// exhausted allocator is handed back as the matching error.
#[verifier::rlimit(100)]
pub fn remap_the_kernel(
    allocator: &mut AreaFrameAllocator,
    multiboot_pos: (u64, u64),
    boot_info: &BootInfo,
    active_table: ActivePageTable,
) -> (r: Result<ActivePageTable, MapError>)
    requires
        active_table.inv(),
        active_table.mapper.wroot() == active_table.mapper.spec_p4_frame(),
        active_table.mapper.spec_p4_frame() < 0x8_0000_0000,
        old(allocator).inv(),
        forall|n: u64|
            old(allocator).avail().contains(n) ==> !active_table.mapper.mem().dom().contains(n)
                && n < 0x8_0000_0000,
        forall|i: int|
            0 <= i < boot_info.elf_sections@.len() ==> (#[trigger] boot_info.elf_sections@[i]).addr
                + boot_info.elf_sections@[i].size < 0x8000_0000_0000,
        // Loaded sections start on page boundaries, as the original
        // asserts fatally.
        forall|i: int|
            0 <= i < boot_info.elf_sections@.len() && (
            #[trigger] boot_info.elf_sections@[i]).spec_is_allocated()
                ==> boot_info.elf_sections@[i].addr % 4096 == 0,
        multiboot_pos.0 <= multiboot_pos.1 < 0x8000_0000_0000,
    ensures
        final(allocator).inv(),
        ({
            let old_root = active_table.mapper.spec_p4_frame();
            let sections = boot_info.elf_sections@;
            match r {
                Ok(t) => {
                    &&& t.inv()
                    &&& t.mapper.wroot() == t.mapper.spec_p4_frame()
                    // The old root was retired into a guard page: its
                    // own address no longer translates.
                    &&& spec_translate_page(
                        t.mapper.mem(),
                        t.mapper.wroot(),
                        page_of(old_root),
                    ) is None
                    // Every page of every loaded section is identity
                    // mapped with that section's derived flags.
                    &&& forall|i: int, p: u64|
                        0 <= i < sections.len() && #[trigger] section_page(sections[i], p) && p
                            != old_root ==> identity_mapped(
                            t.mapper.mem(),
                            t.mapper.wroot(),
                            p,
                            spec_section_flags(sections[i]) | PRESENT,
                        )
                    // The VGA text buffer is identity mapped, writable
                    // and no-execute.
                    &&& (old_root != 0xb8 ==> identity_mapped(
                        t.mapper.mem(),
                        t.mapper.wroot(),
                        0xb8,
                        (WRITABLE | NO_EXECUTE) | PRESENT,
                    ))
                    // The boot-information range is identity mapped,
                    // read-only and no-execute.
                    &&& forall|p: u64|
                        #[trigger] multiboot_page(multiboot_pos.0, multiboot_pos.1, p) && p
                            != old_root ==> identity_mapped(
                            t.mapper.mem(),
                            t.mapper.wroot(),
                            p,
                            NO_EXECUTE | PRESENT,
                        )
                    // Minimality: nothing else is mapped.
                    &&& forall|q: Page|
                        q.valid() && (#[trigger] q.spec_p4_index()) != 511 && !remap_covered(
                            sections,
                            multiboot_pos.0,
                            multiboot_pos.1,
                            q.number,
                        ) ==> spec_translate_page(t.mapper.mem(), t.mapper.wroot(), q) is None
                },
                Err(e) => (e == MapError::OutOfMemory ==> final(allocator).avail().is_empty()) && (
                e == MapError::OutOfMemory || e == MapError::UnmappedAccess || e
                    == MapError::DoubleMapping),
            }
        }),
{
    let mut active_table = active_table;
    let ghost old_root = active_table.mapper.spec_p4_frame();
    let ghost sections = boot_info.elf_sections@;
    let ghost mb0 = multiboot_pos.0;
    let ghost mb1 = multiboot_pos.1;
    // An arbitrary scratch address far from the regions being mapped.
    let mut temporary_page = TemporaryPage::new(Page { number: 0xcafebabe }, allocator);
    let new_frame = match allocator.allocate_frame() {
        None => {
            return Err(MapError::OutOfMemory);
        },
        Some(f) => f,
    };
    let new_table = InactivePageTable::new(new_frame, &mut active_table, &mut temporary_page);
    // Redirect the recursive slot so the passes below build the new
    // tree, then restore it: the transaction of the original design.
    active_table.mapper.set_recursive_slot(new_frame.number);
    let ghost w = new_frame.number;
    proof {
        assert forall|j4: int, j3: int, j2: int, j1: int|
            0 <= j4 < 511 && 0 <= j3 < 512 && 0 <= j2 < 512 && 0 <= j1 < 512 implies
            spec_translate_idx(active_table.mapper.mem(), w, j4, j3, j2, j1) is None by {
            lemma_empty_root_translates_none(active_table.mapper.mem(), w, j4, j3, j2, j1);
        }
    }
    // First pass: identity-map every allocated ELF section.
    let mut si: usize = 0;
    while si < boot_info.elf_sections.len()
        invariant
            active_table.inv(),
            allocator.inv(),
            allocator.can_accept(),
            active_table.mapper.spec_p4_frame() == old_root,
            active_table.mapper.wroot() == w,
            active_table.mapper.is_self_mapped_root(w),
            active_table.mapper.mem().dom().contains(old_root),
            active_table.mapper.roles()[old_root] == Role::Root,
            old_root < 0x8_0000_0000,
            sections == boot_info.elf_sections@,
            si <= sections.len(),
            forall|n: u64|
                allocator.avail().contains(n) ==> !active_table.mapper.mem().dom().contains(n)
                    && n < 0x8_0000_0000,
            forall|i: int|
                0 <= i < sections.len() ==> (#[trigger] sections[i]).addr + sections[i].size
                    < 0x8000_0000_0000,
            forall|i: int|
                0 <= i < sections.len() && (#[trigger] sections[i]).spec_is_allocated()
                    ==> sections[i].addr % 4096 == 0,
            forall|ii: int, p: u64|
                0 <= ii < si && #[trigger] section_page(sections[ii], p) ==> identity_mapped(
                    active_table.mapper.mem(),
                    w,
                    p,
                    spec_section_flags(sections[ii]) | PRESENT,
                ),
            no_mapping_outside(
                active_table.mapper.mem(),
                w,
                |p: u64| in_sections_upto(sections, si as int, p),
            ),
        decreases sections.len() - si,
    {
        let section = boot_info.elf_sections[si];
        if section.is_allocated() {
            let flags = EntryFlags::from_elf_sections_flag(&section);
            let mut address: u64 = section.addr;
            let end: u64 = section.addr + section.size;
            while address < end
                invariant
                    active_table.inv(),
                    allocator.inv(),
                    allocator.can_accept(),
                    active_table.mapper.spec_p4_frame() == old_root,
                    active_table.mapper.wroot() == w,
                    active_table.mapper.is_self_mapped_root(w),
                    active_table.mapper.mem().dom().contains(old_root),
                    active_table.mapper.roles()[old_root] == Role::Root,
                    old_root < 0x8_0000_0000,
                    sections == boot_info.elf_sections@,
                    si < sections.len(),
                    section == sections[si as int],
                    section.spec_is_allocated(),
                    flags.bits == spec_section_flags(section),
                    flags_fit(flags.bits),
                    section.addr % 4096 == 0,
                    section.addr <= address,
                    address <= end,
                    address % 4096 == 0 || address == end,
                    end == section.addr + section.size,
                    end < 0x8000_0000_0000,
                    forall|n: u64|
                        allocator.avail().contains(n) ==> !active_table.mapper.mem().dom().contains(
                            n,
                        ) && n < 0x8_0000_0000,
                    forall|i: int|
                        0 <= i < sections.len() ==> (#[trigger] sections[i]).addr
                            + sections[i].size < 0x8000_0000_0000,
                    forall|i: int|
                        0 <= i < sections.len() && (#[trigger] sections[i]).spec_is_allocated()
                            ==> sections[i].addr % 4096 == 0,
                    forall|ii: int, p: u64|
                        0 <= ii < si && #[trigger] section_page(sections[ii], p)
                            ==> identity_mapped(
                            active_table.mapper.mem(),
                            w,
                            p,
                            spec_section_flags(sections[ii]) | PRESENT,
                        ),
                    forall|p: u64|
                        section.addr / 4096 <= p && (#[trigger] (p * 4096)) < address
                            ==> identity_mapped(
                            active_table.mapper.mem(),
                            w,
                            p,
                            spec_section_flags(section) | PRESENT,
                        ),
                    no_mapping_outside(
                        active_table.mapper.mem(),
                        w,
                        |p: u64|
                            in_sections_upto(sections, si as int, p) || (section.addr / 4096 <= p
                                && p * 4096 < address),
                    ),
                decreases end - address,
            {
                let frame = Frame::containing_address(address);
                let ghost m_pre = active_table.mapper.mem();
                let ghost r_pre = active_table.mapper.roles();
                let ghost q = frame.number;
                match active_table.mapper.identity_map(frame, flags, allocator) {
                    Ok(()) => {},
                    Err(e) => {
                        return Err(e);
                    },
                }
                proof {
                    let m_now = active_table.mapper.mem();
                    lemma_low_page_idx(q);
                    lemma_or_present(flags.bits);
                    assert(identity_mapped(m_now, w, q, flags.bits | PRESENT));
                    assert forall|ii: int, p: u64|
                        0 <= ii < si && #[trigger] section_page(sections[ii], p) implies
                        identity_mapped(m_now, w, p, spec_section_flags(sections[ii]) | PRESENT) by {
                        lemma_identity_kept(
                            m_pre,
                            r_pre,
                            m_now,
                            w,
                            q,
                            p,
                            spec_section_flags(sections[ii]) | PRESENT,
                        );
                    }
                    assert forall|p: u64|
                        section.addr / 4096 <= p && (#[trigger] (p * 4096)) < address
                            + 4096 implies identity_mapped(
                        m_now,
                        w,
                        p,
                        spec_section_flags(section) | PRESENT,
                    ) by {
                        if p * 4096 < address {
                            lemma_identity_kept(
                                m_pre,
                                r_pre,
                                m_now,
                                w,
                                q,
                                p,
                                spec_section_flags(section) | PRESENT,
                            );
                        } else {
                            assert(p == address / 4096) by (nonlinear_arith)
                                requires
                                    address % 4096 == 0,
                                    address <= p * 4096,
                                    p * 4096 < address + 4096,
                            ;
                        }
                    }
                    assert forall|j4: int, j3: int, j2: int, j1: int|
                        0 <= j4 < 511 && 0 <= j3 < 512 && 0 <= j2 < 512 && 0 <= j1 < 512 && !(
                        exists|p: u64|
                            p < 0x8_0000_0000 && (in_sections_upto(sections, si as int, p) || (
                            section.addr / 4096 <= p && p * 4096 < address + 4096))
                                && #[trigger] page_has_idx(p, j4, j3, j2, j1)) implies
                        spec_translate_idx(m_now, w, j4, j3, j2, j1) is None by {
                        assert(page_has_idx(
                            q,
                            page_of(q).spec_p4_index(),
                            page_of(q).spec_p3_index(),
                            page_of(q).spec_p2_index(),
                            page_of(q).spec_p1_index(),
                        ));
                        assert(section.addr / 4096 <= q && q * 4096 < address + 4096)
                            by (nonlinear_arith)
                            requires
                                q == address / 4096,
                                address % 4096 == 0,
                                section.addr % 4096 == 0,
                                section.addr <= address,
                        ;
                        assert(!(j4 == page_of(q).spec_p4_index() && j3 == page_of(
                            q,
                        ).spec_p3_index() && j2 == page_of(q).spec_p2_index() && j1 == page_of(
                            q,
                        ).spec_p1_index()));
                        lemma_preserved_except_at(
                            m_pre,
                            r_pre,
                            m_now,
                            w,
                            page_of(q).spec_p4_index(),
                            page_of(q).spec_p3_index(),
                            page_of(q).spec_p2_index(),
                            page_of(q).spec_p1_index(),
                            w,
                            j4,
                            j3,
                            j2,
                            j1,
                        );
                    }
                }
                if end - address <= 4096 {
                    address = end;
                } else {
                    address = address + 4096;
                }
            }
            proof {
                assert forall|ii: int, p: u64|
                    0 <= ii < si + 1 && #[trigger] section_page(sections[ii], p) implies
                    identity_mapped(
                    active_table.mapper.mem(),
                    w,
                    p,
                    spec_section_flags(sections[ii]) | PRESENT,
                ) by {
                    if ii == si {
                        assert(p * 4096 < end);
                    }
                }
                assert forall|j4: int, j3: int, j2: int, j1: int|
                    0 <= j4 < 511 && 0 <= j3 < 512 && 0 <= j2 < 512 && 0 <= j1 < 512 && !(exists|
                        p: u64,
                    |
                        p < 0x8_0000_0000 && in_sections_upto(sections, si + 1, p)
                            && #[trigger] page_has_idx(p, j4, j3, j2, j1)) implies
                    spec_translate_idx(active_table.mapper.mem(), w, j4, j3, j2, j1) is None by {
                    assert(!(exists|p: u64|
                        p < 0x8_0000_0000 && (in_sections_upto(sections, si as int, p) || (
                        section.addr / 4096 <= p && p * 4096 < end)) && #[trigger] page_has_idx(
                            p,
                            j4,
                            j3,
                            j2,
                            j1,
                        )));
                }
            }
        } else {
            proof {
                assert forall|ii: int, p: u64|
                    0 <= ii < si + 1 && #[trigger] section_page(sections[ii], p) implies
                    identity_mapped(
                    active_table.mapper.mem(),
                    w,
                    p,
                    spec_section_flags(sections[ii]) | PRESENT,
                ) by {
                    assert(ii < si);
                }
                assert forall|j4: int, j3: int, j2: int, j1: int|
                    0 <= j4 < 511 && 0 <= j3 < 512 && 0 <= j2 < 512 && 0 <= j1 < 512 && !(exists|
                        p: u64,
                    |
                        p < 0x8_0000_0000 && in_sections_upto(sections, si + 1, p)
                            && #[trigger] page_has_idx(p, j4, j3, j2, j1)) implies
                    spec_translate_idx(active_table.mapper.mem(), w, j4, j3, j2, j1) is None by {
                    assert(!(exists|p: u64|
                        p < 0x8_0000_0000 && in_sections_upto(sections, si as int, p)
                            && #[trigger] page_has_idx(p, j4, j3, j2, j1)));
                }
            }
        }
        si = si + 1;
    }
    // Second pass: the VGA text buffer, writable but never executable.
    let vga_buffer_frame = Frame::containing_address(0xb8000);
    let vga_flags = EntryFlags::from_bits_truncate(WRITABLE | NO_EXECUTE);
    let ghost m_p2 = active_table.mapper.mem();
    let ghost r_p2 = active_table.mapper.roles();
    match active_table.mapper.identity_map(vga_buffer_frame, vga_flags, allocator) {
        Ok(()) => {},
        Err(e) => {
            return Err(e);
        },
    }
    proof {
        let m_now = active_table.mapper.mem();
        assert(((WRITABLE | NO_EXECUTE) & ALL_FLAGS) == (WRITABLE | NO_EXECUTE)) by (bit_vector);
        lemma_low_page_idx(0xb8);
        lemma_or_present(vga_flags.bits);
        assert(identity_mapped(m_now, w, 0xb8, (WRITABLE | NO_EXECUTE) | PRESENT));
        assert forall|ii: int, p: u64|
            0 <= ii < sections.len() && #[trigger] section_page(sections[ii], p) implies
            identity_mapped(m_now, w, p, spec_section_flags(sections[ii]) | PRESENT) by {
            lemma_identity_kept(
                m_p2,
                r_p2,
                m_now,
                w,
                0xb8,
                p,
                spec_section_flags(sections[ii]) | PRESENT,
            );
        }
        assert forall|j4: int, j3: int, j2: int, j1: int|
            0 <= j4 < 511 && 0 <= j3 < 512 && 0 <= j2 < 512 && 0 <= j1 < 512 && !(exists|p: u64|
                p < 0x8_0000_0000 && (in_sections_upto(sections, sections.len() as int, p) || p
                    == 0xb8) && #[trigger] page_has_idx(p, j4, j3, j2, j1)) implies
            spec_translate_idx(m_now, w, j4, j3, j2, j1) is None by {
            assert(page_has_idx(
                0xb8,
                page_of(0xb8).spec_p4_index(),
                page_of(0xb8).spec_p3_index(),
                page_of(0xb8).spec_p2_index(),
                page_of(0xb8).spec_p1_index(),
            ));
            assert(!(j4 == page_of(0xb8).spec_p4_index() && j3 == page_of(0xb8).spec_p3_index()
                && j2 == page_of(0xb8).spec_p2_index() && j1 == page_of(0xb8).spec_p1_index()));
            lemma_preserved_except_at(
                m_p2,
                r_p2,
                m_now,
                w,
                page_of(0xb8).spec_p4_index(),
                page_of(0xb8).spec_p3_index(),
                page_of(0xb8).spec_p2_index(),
                page_of(0xb8).spec_p1_index(),
                w,
                j4,
                j3,
                j2,
                j1,
            );
        }
    }
    // Third pass: the boot-information range, read-only.
    let nx_flags = EntryFlags::from_bits_truncate(NO_EXECUTE);
    let mut address: u64 = multiboot_pos.0;
    let end: u64 = multiboot_pos.1;
    proof {
        assert((NO_EXECUTE & ALL_FLAGS) == NO_EXECUTE) by (bit_vector);
    }
    while address < end
        invariant
            active_table.inv(),
            allocator.inv(),
            allocator.can_accept(),
            active_table.mapper.spec_p4_frame() == old_root,
            active_table.mapper.wroot() == w,
            active_table.mapper.is_self_mapped_root(w),
            active_table.mapper.mem().dom().contains(old_root),
            active_table.mapper.roles()[old_root] == Role::Root,
            old_root < 0x8_0000_0000,
            sections == boot_info.elf_sections@,
            nx_flags.bits == NO_EXECUTE,
            flags_fit(nx_flags.bits),
            mb0 == multiboot_pos.0,
            mb1 == multiboot_pos.1,
            end == mb1,
            forall|i: int|
                0 <= i < sections.len() ==> (#[trigger] sections[i]).addr + sections[i].size
                    < 0x8000_0000_0000,
            mb0 <= address <= end,
            (address - mb0) % 4096 == 0 || address == end,
            end < 0x8000_0000_0000,
            forall|n: u64|
                allocator.avail().contains(n) ==> !active_table.mapper.mem().dom().contains(n) && n
                    < 0x8_0000_0000,
            forall|ii: int, p: u64|
                0 <= ii < sections.len() && #[trigger] section_page(sections[ii], p)
                    ==> identity_mapped(
                    active_table.mapper.mem(),
                    w,
                    p,
                    spec_section_flags(sections[ii]) | PRESENT,
                ),
            identity_mapped(active_table.mapper.mem(), w, 0xb8, (WRITABLE | NO_EXECUTE) | PRESENT),
            forall|p: u64|
                mb0 / 4096 <= p && (#[trigger] (mb0 + 4096 * (p - mb0 / 4096))) < address
                    ==> identity_mapped(active_table.mapper.mem(), w, p, NO_EXECUTE | PRESENT),
            no_mapping_outside(
                active_table.mapper.mem(),
                w,
                |p: u64|
                    in_sections_upto(sections, sections.len() as int, p) || p == 0xb8 || (mb0
                        / 4096 <= p && mb0 + 4096 * (p - mb0 / 4096) < address),
            ),
        decreases end - address,
    {
        let frame = Frame::containing_address(address);
        let ghost m_pre = active_table.mapper.mem();
        let ghost r_pre = active_table.mapper.roles();
        let ghost q = frame.number;
        let ghost k = ((address - mb0) / 4096) as int;
        proof {
            vstd::arithmetic::div_mod::lemma_hoist_over_denominator(mb0 as int, k, 4096nat);
            assert(q == mb0 / 4096 + k);
            assert(mb0 + 4096 * (q - mb0 / 4096) == address);
        }
        match active_table.mapper.identity_map(frame, nx_flags, allocator) {
            Ok(()) => {},
            Err(e) => {
                return Err(e);
            },
        }
        let ghost next_address: u64 = if end - address <= 4096 {
            end
        } else {
            (address + 4096) as u64
        };
        proof {
            let m_now = active_table.mapper.mem();
            lemma_low_page_idx(q);
            lemma_or_present(nx_flags.bits);
            assert(q < 0x8_0000_0000) by (nonlinear_arith)
                requires
                    q == address / 4096,
                    address < 0x8000_0000_0000u64,
            ;
            assert(identity_mapped(m_now, w, q, NO_EXECUTE | PRESENT));
            assert forall|ii: int, p: u64|
                0 <= ii < sections.len() && #[trigger] section_page(sections[ii], p) implies
                identity_mapped(m_now, w, p, spec_section_flags(sections[ii]) | PRESENT) by {
                assert(p * 4096 < sections[ii].addr + sections[ii].size);
                assert(p < 0x8_0000_0000) by (nonlinear_arith)
                    requires
                        p * 4096 < 0x8000_0000_0000u64,
                ;
                lemma_identity_kept(
                    m_pre,
                    r_pre,
                    m_now,
                    w,
                    q,
                    p,
                    spec_section_flags(sections[ii]) | PRESENT,
                );
            }
            lemma_identity_kept(
                m_pre,
                r_pre,
                m_now,
                w,
                q,
                0xb8,
                (WRITABLE | NO_EXECUTE) | PRESENT,
            );
            assert forall|p: u64|
                mb0 / 4096 <= p && (#[trigger] (mb0 + 4096 * (p - mb0 / 4096)))
                    < next_address implies identity_mapped(m_now, w, p, NO_EXECUTE | PRESENT) by {
                if mb0 + 4096 * (p - mb0 / 4096) < address {
                    assert(p < 0x8_0000_0000) by (nonlinear_arith)
                        requires
                            mb0 / 4096 <= p,
                            mb0 + 4096 * (p - mb0 / 4096) < 0x8000_0000_0000u64,
                            mb0 < 0x8000_0000_0000u64,
                    ;
                    lemma_identity_kept(m_pre, r_pre, m_now, w, q, p, NO_EXECUTE | PRESENT);
                } else {
                    assert(p == q);
                }
            }
            assert forall|j4: int, j3: int, j2: int, j1: int|
                0 <= j4 < 511 && 0 <= j3 < 512 && 0 <= j2 < 512 && 0 <= j1 < 512 && !(exists|
                    p: u64,
                |
                    p < 0x8_0000_0000 && (in_sections_upto(sections, sections.len() as int, p) || p
                        == 0xb8 || (mb0 / 4096 <= p && mb0 + 4096 * (p - mb0 / 4096)
                        < next_address)) && #[trigger] page_has_idx(p, j4, j3, j2, j1)) implies
                spec_translate_idx(m_now, w, j4, j3, j2, j1) is None by {
                assert(page_has_idx(
                    q,
                    page_of(q).spec_p4_index(),
                    page_of(q).spec_p3_index(),
                    page_of(q).spec_p2_index(),
                    page_of(q).spec_p1_index(),
                ));
                assert(mb0 / 4096 <= q && mb0 + 4096 * (q - mb0 / 4096) < next_address);
                assert(!(j4 == page_of(q).spec_p4_index() && j3 == page_of(q).spec_p3_index() && j2
                    == page_of(q).spec_p2_index() && j1 == page_of(q).spec_p1_index()));
                lemma_preserved_except_at(
                    m_pre,
                    r_pre,
                    m_now,
                    w,
                    page_of(q).spec_p4_index(),
                    page_of(q).spec_p3_index(),
                    page_of(q).spec_p2_index(),
                    page_of(q).spec_p1_index(),
                    w,
                    j4,
                    j3,
                    j2,
                    j1,
                );
            }
        }
        if end - address <= 4096 {
            address = end;
        } else {
            address = address + 4096;
        }
    }
    // Restore the recursive slot, adopt the new table, and retire the
    // old root into a guard page.
    let root_now = active_table.mapper.p4_frame_number();
    let ghost m_p4 = active_table.mapper.mem();
    let ghost r_p4 = active_table.mapper.roles();
    active_table.mapper.set_recursive_slot(root_now);
    proof {
        let m_now = active_table.mapper.mem();
        assert forall|ii: int, p: u64|
            0 <= ii < sections.len() && #[trigger] section_page(sections[ii], p) implies
            identity_mapped(m_now, w, p, spec_section_flags(sections[ii]) | PRESENT) by {
            lemma_identity_kept_full(
                m_p4,
                r_p4,
                m_now,
                w,
                p,
                spec_section_flags(sections[ii]) | PRESENT,
            );
        }
        lemma_identity_kept_full(m_p4, r_p4, m_now, w, 0xb8, (WRITABLE | NO_EXECUTE) | PRESENT);
        assert forall|p: u64|
            #[trigger] multiboot_page(mb0, mb1, p) implies identity_mapped(
            m_now,
            w,
            p,
            NO_EXECUTE | PRESENT,
        ) by {
            lemma_identity_kept_full(m_p4, r_p4, m_now, w, p, NO_EXECUTE | PRESENT);
        }
        assert forall|j4: int, j3: int, j2: int, j1: int|
            0 <= j4 < 511 && 0 <= j3 < 512 && 0 <= j2 < 512 && 0 <= j1 < 512 && !(exists|p: u64|
                p < 0x8_0000_0000 && remap_covered(sections, mb0, mb1, p) && #[trigger] page_has_idx(
                    p,
                    j4,
                    j3,
                    j2,
                    j1,
                )) implies spec_translate_idx(m_now, w, j4, j3, j2, j1) is None by {
            lemma_preserved_at(m_p4, r_p4, m_now, w, j4, j3, j2, j1);
        }
    }
    let old_table = active_table.switch(new_table);
    let old_p4_page = Page::containing_address(old_table.p4_frame.start_address());
    let ghost m_p5 = active_table.mapper.mem();
    let ghost r_p5 = active_table.mapper.roles();
    proof {
        assert(old_table.p4_frame.number == old_root);
        assert(old_p4_page.number == old_root);
        lemma_low_page_idx(old_root);
    }
    match active_table.mapper.unmap(old_p4_page, allocator) {
        Ok(_) => {},
        Err(e) => {
            return Err(e);
        },
    }
    proof {
        let m_now = active_table.mapper.mem();
        assert forall|ii: int, p: u64|
            0 <= ii < sections.len() && #[trigger] section_page(sections[ii], p) && p
                != old_root implies identity_mapped(
            m_now,
            w,
            p,
            spec_section_flags(sections[ii]) | PRESENT,
        ) by {
            lemma_low_page_idx(p);
            lemma_page_idx_inj(p, old_root);
            lemma_preserved_except_at(
                m_p5,
                r_p5,
                m_now,
                w,
                page_of(old_root).spec_p4_index(),
                page_of(old_root).spec_p3_index(),
                page_of(old_root).spec_p2_index(),
                page_of(old_root).spec_p1_index(),
                w,
                page_of(p).spec_p4_index(),
                page_of(p).spec_p3_index(),
                page_of(p).spec_p2_index(),
                page_of(p).spec_p1_index(),
            );
            lemma_identity_nonzero(m_p5, w, p, spec_section_flags(sections[ii]) | PRESENT);
        }
        if old_root != 0xb8 {
            lemma_low_page_idx(0xb8);
            lemma_page_idx_inj(0xb8, old_root);
            lemma_preserved_except_at(
                m_p5,
                r_p5,
                m_now,
                w,
                page_of(old_root).spec_p4_index(),
                page_of(old_root).spec_p3_index(),
                page_of(old_root).spec_p2_index(),
                page_of(old_root).spec_p1_index(),
                w,
                page_of(0xb8).spec_p4_index(),
                page_of(0xb8).spec_p3_index(),
                page_of(0xb8).spec_p2_index(),
                page_of(0xb8).spec_p1_index(),
            );
            lemma_identity_nonzero(m_p5, w, 0xb8, (WRITABLE | NO_EXECUTE) | PRESENT);
        }
        assert forall|p: u64|
            #[trigger] multiboot_page(mb0, mb1, p) && p != old_root implies identity_mapped(
            m_now,
            w,
            p,
            NO_EXECUTE | PRESENT,
        ) by {
            lemma_low_page_idx(p);
            lemma_page_idx_inj(p, old_root);
            lemma_preserved_except_at(
                m_p5,
                r_p5,
                m_now,
                w,
                page_of(old_root).spec_p4_index(),
                page_of(old_root).spec_p3_index(),
                page_of(old_root).spec_p2_index(),
                page_of(old_root).spec_p1_index(),
                w,
                page_of(p).spec_p4_index(),
                page_of(p).spec_p3_index(),
                page_of(p).spec_p2_index(),
                page_of(p).spec_p1_index(),
            );
            lemma_identity_nonzero(m_p5, w, p, NO_EXECUTE | PRESENT);
        }
        // Minimality: outside the exposed regions nothing translates.
        assert forall|q: Page|
            q.valid() && (#[trigger] q.spec_p4_index()) != 511 && !remap_covered(
                sections,
                mb0,
                mb1,
                q.number,
            ) implies spec_translate_page(m_now, w, q) is None by {
            if q.number < 0x8_0000_0000 {
                lemma_low_page_idx(q.number);
                assert(!(exists|p: u64|
                    p < 0x8_0000_0000 && remap_covered(sections, mb0, mb1, p)
                        && #[trigger] page_has_idx(
                        p,
                        q.spec_p4_index(),
                        q.spec_p3_index(),
                        q.spec_p2_index(),
                        q.spec_p1_index(),
                    ))) by {
                    if exists|p: u64|
                        p < 0x8_0000_0000 && remap_covered(sections, mb0, mb1, p)
                            && #[trigger] page_has_idx(
                            p,
                            q.spec_p4_index(),
                            q.spec_p3_index(),
                            q.spec_p2_index(),
                            q.spec_p1_index(),
                        ) {
                        let p = choose|p: u64|
                            p < 0x8_0000_0000 && remap_covered(sections, mb0, mb1, p)
                                && #[trigger] page_has_idx(
                                p,
                                q.spec_p4_index(),
                                q.spec_p3_index(),
                                q.spec_p2_index(),
                                q.spec_p1_index(),
                            );
                        if p != q.number {
                            lemma_page_idx_inj(p, q.number);
                        }
                        assert(false);
                    }
                }
                if q.spec_p4_index() == page_of(old_root).spec_p4_index() && q.spec_p3_index()
                    == page_of(old_root).spec_p3_index() && q.spec_p2_index() == page_of(
                    old_root,
                ).spec_p2_index() && q.spec_p1_index() == page_of(old_root).spec_p1_index() {
                    // This walk was just force-cleared by the guard
                    // unmap.
                    if q.number != old_root {
                        lemma_page_idx_inj(q.number, old_root);
                    }
                    assert(q.number == old_root);
                } else {
                    lemma_preserved_except_at(
                        m_p5,
                        r_p5,
                        m_now,
                        w,
                        page_of(old_root).spec_p4_index(),
                        page_of(old_root).spec_p3_index(),
                        page_of(old_root).spec_p2_index(),
                        page_of(old_root).spec_p1_index(),
                        w,
                        q.spec_p4_index(),
                        q.spec_p3_index(),
                        q.spec_p2_index(),
                        q.spec_p1_index(),
                    );
                }
            } else {
                lemma_high_page_idx(q.number);
                assert(!(exists|p: u64|
                    p < 0x8_0000_0000 && remap_covered(sections, mb0, mb1, p)
                        && #[trigger] page_has_idx(
                        p,
                        q.spec_p4_index(),
                        q.spec_p3_index(),
                        q.spec_p2_index(),
                        q.spec_p1_index(),
                    ))) by {
                    assert forall|p: u64| p < 0x8_0000_0000 implies !page_has_idx(
                        p,
                        q.spec_p4_index(),
                        q.spec_p3_index(),
                        q.spec_p2_index(),
                        q.spec_p1_index(),
                    ) by {
                        lemma_low_page_idx(p);
                    }
                }
                if q.spec_p4_index() == page_of(old_root).spec_p4_index() && q.spec_p3_index()
                    == page_of(old_root).spec_p3_index() && q.spec_p2_index() == page_of(
                    old_root,
                ).spec_p2_index() && q.spec_p1_index() == page_of(old_root).spec_p1_index() {
                    lemma_low_page_idx(old_root);
                    assert(false);
                } else {
                    lemma_preserved_except_at(
                        m_p5,
                        r_p5,
                        m_now,
                        w,
                        page_of(old_root).spec_p4_index(),
                        page_of(old_root).spec_p3_index(),
                        page_of(old_root).spec_p2_index(),
                        page_of(old_root).spec_p1_index(),
                        w,
                        q.spec_p4_index(),
                        q.spec_p3_index(),
                        q.spec_p2_index(),
                        q.spec_p1_index(),
                    );
                }
            }
        }
    }
    Ok(active_table)
}

} // verus!