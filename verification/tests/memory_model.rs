use kernel_vm::area_frame_allocator::AreaFrameAllocator;
use kernel_vm::boot::{BootInfo, ElfSection, MemoryArea};
use kernel_vm::entry::{Entry, EntryFlags};
use kernel_vm::mapper::{MapError, Mapper};
use kernel_vm::memory::{Frame, FrameAllocator};
use kernel_vm::paging::{ActivePageTable, InactivePageTable, Page};
use kernel_vm::table::TableArena;
use kernel_vm::temporary_mapping::TemporaryPage;
use kernel_vm::token::Dispenser;
use kernel_vm::paging::remap_the_kernel;

const PRESENT: u64 = 0x1;
const WRITABLE: u64 = 0x2;
const HUGE_PAGE: u64 = 0x80;

fn scenario_allocator() -> AreaFrameAllocator {
    let mut dispenser = Dispenser::new();
    let token = dispenser.frame_token().expect("token taken twice");
    AreaFrameAllocator::new(
        token,
        0x100000,
        0x200000,
        0x201000,
        0x202000,
        vec![MemoryArea { base_addr: 0x0, length: 0x40000000 }],
    )
}

#[test]
fn first_allocation_starts_below_kernel() {
    let mut allocator = scenario_allocator();
    let f = allocator.allocate_frame().expect("out of memory");
    assert_eq!(f.number, 0x0);
}

#[test]
fn allocation_skips_kernel_and_multiboot_in_one_step() {
    let mut allocator = scenario_allocator();
    // Consume every frame below the kernel image.
    let mut last = None;
    for _ in 0..0x100 {
        last = allocator.allocate_frame();
    }
    assert_eq!(last.unwrap().number, 0xff);
    // The next frame jumps the whole kernel range and the whole
    // boot-information range at once.
    let f = allocator.allocate_frame().expect("out of memory");
    assert_eq!(f.number, 0x203);
}

#[test]
fn allocations_strictly_increase() {
    let mut allocator = scenario_allocator();
    let mut previous: Option<u64> = None;
    for _ in 0..600 {
        let f = allocator.allocate_frame().expect("out of memory");
        if let Some(p) = previous {
            assert!(f.number > p);
        }
        previous = Some(f.number);
    }
}

#[test]
fn allocations_avoid_excluded_ranges() {
    let mut allocator = scenario_allocator();
    for _ in 0..800 {
        let f = allocator.allocate_frame().expect("out of memory");
        assert!(!(0x100 <= f.number && f.number <= 0x200));
        assert!(!(0x201 <= f.number && f.number <= 0x202));
    }
}

#[test]
fn allocator_counts_allocations() {
    let mut allocator = scenario_allocator();
    for _ in 0..5 {
        allocator.allocate_frame();
    }
    allocator.deallocate_frame(Frame { number: 0 });
    assert_eq!(allocator.get_alloc_counts(), (5, 1));
}

#[test]
fn map_to_translate_round_trip() {
    let mut active = ActivePageTable::new(0x150);
    let mut allocator = scenario_allocator();
    let addr: u64 = 42 * 512 * 512 * 4096;
    let page = Page::containing_address(addr);
    let frame = Frame { number: 0xcafe };
    assert_eq!(active.translate(addr), None);
    active
        .mapper
        .map_to(page, frame, EntryFlags::from_bits_truncate(0), &mut allocator)
        .expect("map_to failed");
    assert_eq!(active.translate(addr), Some(0xcafe * 4096));
    assert_eq!(active.translate(addr + 0x123), Some(0xcafe * 4096 + 0x123));
}

#[test]
fn double_mapping_is_reported() {
    let mut active = ActivePageTable::new(0x150);
    let mut allocator = scenario_allocator();
    let page = Page::containing_address(0x4000_0000);
    let frame = Frame { number: 0x300 };
    active
        .mapper
        .map_to(page, frame, EntryFlags::from_bits_truncate(0), &mut allocator)
        .expect("map_to failed");
    let again = active
        .mapper
        .map_to(page, Frame { number: 0x301 }, EntryFlags::from_bits_truncate(0), &mut allocator);
    assert_eq!(again, Err(MapError::DoubleMapping));
}

#[test]
fn unmap_removes_translation() {
    let mut active = ActivePageTable::new(0x150);
    let mut allocator = scenario_allocator();
    let addr: u64 = 0x8000_0000;
    let page = Page::containing_address(addr);
    let frame = Frame { number: 0x777 };
    active
        .mapper
        .map_to(page, frame, EntryFlags::from_bits_truncate(WRITABLE), &mut allocator)
        .expect("map_to failed");
    assert_eq!(active.translate(addr), Some(0x777 * 4096));
    let freed = active.mapper.unmap(page, &mut allocator).expect("unmap failed");
    assert_eq!(freed.number, 0x777);
    assert_eq!(active.translate(addr), None);
}

#[test]
fn unmap_of_unmapped_page_is_an_error() {
    let mut active = ActivePageTable::new(0x150);
    let mut allocator = scenario_allocator();
    let page = Page::containing_address(0x5000_0000);
    let r = active.mapper.unmap(page, &mut allocator);
    assert_eq!(r, Err(MapError::UnmappedAccess));
}

#[test]
fn huge_p3_translation_at_boundaries() {
    // Hand-build a table hierarchy: a self-mapped root at frame 1 and
    // a P3 table at frame 2 whose slot 0 is a present huge entry with
    // base frame 0x40000.
    let mut arena = TableArena::new();
    arena.install_zeroed(1);
    arena.write(1, 511, 1 * 4096 | PRESENT | WRITABLE);
    arena.write(1, 0, 2 * 4096 | PRESENT | WRITABLE);
    arena.install_zeroed(2);
    arena.write(2, 0, 0x40000 * 4096 | PRESENT | HUGE_PAGE);
    let mapper = Mapper::new(arena, 1);
    // Offsets (0, 0) and (511, 511) within the 1 GiB mapping.
    let low = mapper.translate_page(Page::containing_address(0)).expect("not mapped");
    assert_eq!(low.number, 0x40000);
    let addr_high: u64 = (511 << 21) | (511 << 12);
    let high = mapper.translate_page(Page::containing_address(addr_high)).expect("not mapped");
    assert_eq!(high.number, 0x40000 + 511 * 512 + 511);
}

#[test]
fn entry_round_trip() {
    let mut e = Entry(0);
    assert!(e.is_unused());
    assert_eq!(e.pointed_frame(), None);
    e.set(Frame { number: 0xabc }, EntryFlags::from_bits_truncate(PRESENT | WRITABLE));
    assert!(!e.is_unused());
    assert_eq!(e.pointed_frame(), Some(Frame { number: 0xabc }));
    assert_eq!(e.flags().bits(), PRESENT | WRITABLE);
    e.set_unused();
    assert!(e.is_unused());
}

#[test]
fn section_flags_follow_attributes() {
    // Allocated and writable, not executable: present, writable,
    // no-execute.
    let s = ElfSection { addr: 0x1000, size: 0x1000, flags: 0x3 };
    assert_eq!(EntryFlags::from_elf_sections_flag(&s).bits(), 0x8000_0000_0000_0003);
    // Allocated executable code: present only.
    let code = ElfSection { addr: 0x2000, size: 0x1000, flags: 0x6 };
    assert_eq!(EntryFlags::from_elf_sections_flag(&code).bits(), 0x1);
}

#[test]
fn kernel_bounds_cover_all_sections() {
    let info = BootInfo {
        elf_sections: vec![
            ElfSection { addr: 0x180000, size: 0x1000, flags: 0x2 },
            ElfSection { addr: 0x100000, size: 0x20000, flags: 0x6 },
            ElfSection { addr: 0x150000, size: 0x80000, flags: 0x3 },
        ],
    };
    assert_eq!(info.kernel_bounds(), Some((0x100000, 0x1d0000)));
}

#[test]
fn frame_token_is_one_shot() {
    let mut dispenser = Dispenser::new();
    assert!(dispenser.frame_token().is_some());
    assert!(dispenser.frame_token().is_none());
}

#[test]
fn temporary_page_maps_and_releases_scratch_page() {
    let mut active = ActivePageTable::new(0x150);
    let mut allocator = scenario_allocator();
    let scratch = Page::containing_address(0xcafebabe * 4096);
    let mut temp = TemporaryPage::new(scratch, &mut allocator);
    let addr = temp.map(Frame { number: 0x999 }, &mut active).expect("map failed");
    assert_eq!(addr, 0xcafebabe * 4096);
    assert_eq!(active.translate(addr), Some(0x999 * 4096));
    temp.unmap(&mut active).expect("unmap failed");
    assert_eq!(active.translate(addr), None);
}

#[test]
fn inactive_table_is_self_mapped() {
    let mut active = ActivePageTable::new(0x150);
    let mut allocator = scenario_allocator();
    let mut temp = TemporaryPage::new(Page::containing_address(0xcafebabe * 4096), &mut allocator);
    let frame = allocator.allocate_frame().expect("out of memory");
    let inactive = InactivePageTable::new(frame, &mut active, &mut temp);
    assert_eq!(inactive.p4_frame, frame);
}

#[test]
fn remap_identity_maps_vga_and_guards_old_root() {
    let active = ActivePageTable::new(0x150);
    let mut allocator = scenario_allocator();
    let info = BootInfo {
        elf_sections: vec![ElfSection { addr: 0x100000, size: 0x100000, flags: 0x3 }],
    };
    let table = remap_the_kernel(&mut allocator, (0x201000, 0x202000), &info, active)
        .expect("remap failed");
    // The VGA buffer is identity-mapped.
    assert_eq!(table.translate(0xb8000), Some(0xb8000));
    // Kernel sections stay identity-mapped; the boot information too.
    assert_eq!(table.translate(0x123456), Some(0x123456));
    assert_eq!(table.translate(0x201010), Some(0x201010));
    // The retired old root is a guard page now.
    assert_eq!(table.translate(0x150000), None);
    // Untouched addresses are unmapped.
    assert_eq!(table.translate(0x300000), None);
}
