//! Loader-reported boot data, held as plain values: the physical memory
//! map and the list of loaded ELF sections.

use vstd::prelude::*;

verus! {

/// One usable region of physical memory, as reported by the loader.
#[derive(Clone, Copy, Debug, PartialEq, Eq, Structural)]
pub struct MemoryArea {
    pub base_addr: u64,
    pub length: u64,
}

/// The section was loaded into memory.
pub const ELF_SECTION_ALLOCATED: u64 = 0x2;

/// The section is writable.
pub const ELF_SECTION_WRITABLE: u64 = 0x1;

/// The section holds executable code.
pub const ELF_SECTION_EXECUTABLE: u64 = 0x4;

/// One loaded ELF section: where it sits, how large it is, and its
/// attribute flags.
#[derive(Clone, Copy, Debug, PartialEq, Eq, Structural)]
pub struct ElfSection {
    pub addr: u64,
    pub size: u64,
    pub flags: u64,
}

impl ElfSection {
    pub open spec fn spec_is_allocated(&self) -> bool {
        self.flags & ELF_SECTION_ALLOCATED == ELF_SECTION_ALLOCATED
    }

    pub open spec fn spec_is_writable(&self) -> bool {
        self.flags & ELF_SECTION_WRITABLE == ELF_SECTION_WRITABLE
    }

    pub open spec fn spec_is_executable(&self) -> bool {
        self.flags & ELF_SECTION_EXECUTABLE == ELF_SECTION_EXECUTABLE
    }

    /// Whether the section occupies memory at run time.
    pub fn is_allocated(&self) -> (r: bool)
        ensures
            r == self.spec_is_allocated(),
    {
        self.flags & ELF_SECTION_ALLOCATED == ELF_SECTION_ALLOCATED
    }

    /// Whether the section may be written.
    pub fn is_writable(&self) -> (r: bool)
        ensures
            r == self.spec_is_writable(),
    {
        self.flags & ELF_SECTION_WRITABLE == ELF_SECTION_WRITABLE
    }

    /// Whether the section holds code.
    pub fn is_executable(&self) -> (r: bool)
        ensures
            r == self.spec_is_executable(),
    {
        self.flags & ELF_SECTION_EXECUTABLE == ELF_SECTION_EXECUTABLE
    }
}

/// The boot data the memory subsystem reads: the loaded ELF sections.
pub struct BootInfo {
    pub elf_sections: Vec<ElfSection>,
}

impl BootInfo {
    /// Lowest start address and highest end address over all sections:
    /// the physical extent of the kernel image.  `None` when the loader
    /// reported no sections.
    pub fn kernel_bounds(&self) -> (r: Option<(u64, u64)>)
        requires
            forall|i: int|
                0 <= i < self.elf_sections@.len() ==> (#[trigger] self.elf_sections@[i]).addr
                    + self.elf_sections@[i].size <= u64::MAX,
        ensures
            match r {
                Some(b) => self.elf_sections@.len() > 0 && (exists|i: int|
                    0 <= i < self.elf_sections@.len() && (#[trigger] self.elf_sections@[i]).addr
                        == b.0) && (exists|i: int|
                    0 <= i < self.elf_sections@.len() && (#[trigger] self.elf_sections@[i]).addr
                        + self.elf_sections@[i].size == b.1) && (forall|i: int|
                    0 <= i < self.elf_sections@.len() ==> b.0 <= (
                    #[trigger] self.elf_sections@[i]).addr && self.elf_sections@[i].addr
                        + self.elf_sections@[i].size <= b.1),
                None => self.elf_sections@.len() == 0,
            },
    {
        if self.elf_sections.len() == 0 {
            return None;
        }
        let first = self.elf_sections[0];
        let mut start: u64 = first.addr;
        let mut end: u64 = first.addr + first.size;
        let mut k: usize = 1;
        while k < self.elf_sections.len()
            invariant
                1 <= k <= self.elf_sections@.len(),
                forall|i: int|
                    0 <= i < self.elf_sections@.len() ==> (#[trigger] self.elf_sections@[i]).addr
                        + self.elf_sections@[i].size <= u64::MAX,
                exists|i: int|
                    0 <= i < k && (#[trigger] self.elf_sections@[i]).addr == start,
                exists|i: int|
                    0 <= i < k && (#[trigger] self.elf_sections@[i]).addr
                        + self.elf_sections@[i].size == end,
                forall|i: int|
                    0 <= i < k ==> start <= (#[trigger] self.elf_sections@[i]).addr
                        && self.elf_sections@[i].addr + self.elf_sections@[i].size <= end,
            decreases self.elf_sections@.len() - k,
        {
            let s = self.elf_sections[k];
            if s.addr < start {
                start = s.addr;
            }
            if s.addr + s.size > end {
                end = s.addr + s.size;
            }
            k = k + 1;
        }
        Some((start, end))
    }
}

} // verus!
