//! Raw page-table mutation over the arena: translate, map, unmap,
//! identity-map, walking the hierarchy from the slot-511 recursive
//! self-mapping of the root table.

use vstd::prelude::*;
use crate::memory::{Frame, FrameAllocator, PAGE_SIZE, FRAME_LIMIT};
use crate::entry::{
    e_present,
    e_huge,
    e_frame,
    e_flags,
    pack,
    flags_fit,
    lemma_pack,
    lemma_or_present,
    EntryFlags,
    PRESENT,
    WRITABLE,
    HUGE_PAGE,
    ALL_FLAGS,
    ADDR_MASK,
};
use crate::table::{TableArena, zero_table};
use crate::paging::Page;

verus! {

/// Role of a frame in the table forest: the root of a four-level tree,
/// or the child table behind one specific slot of one specific parent.
/// A frame has at most one role, which is what rules out aliasing
/// between tables.
pub ghost enum Role {
    Root,
    Child { level: int, parent: u64, index: int },
}

/// Depth of a table: 4 for a root, the stored level otherwise.
pub open spec fn level_of(roles: Map<u64, Role>, f: u64) -> int {
    match roles[f] {
        Role::Root => 4,
        Role::Child { level, .. } => level,
    }
}

/// Parent table of a child; a root is its own parent.
pub open spec fn parent_of(roles: Map<u64, Role>, f: u64) -> u64 {
    match roles[f] {
        Role::Root => f,
        Role::Child { parent, .. } => parent,
    }
}

/// Parent slot of a child table; -1 for a root.
pub open spec fn index_of(roles: Map<u64, Role>, f: u64) -> int {
    match roles[f] {
        Role::Root => -1,
        Role::Child { index, .. } => index,
    }
}

/// Slot `i` of table `f` points at a next-level table.
pub open spec fn is_edge(mem: Map<u64, Seq<u64>>, f: u64, i: int) -> bool {
    e_present(mem[f][i]) && !e_huge(mem[f][i])
}

/// The forest invariant over table memory.
///
/// Every frame holding a table has one role.  A present, non-huge slot
/// of a table at level 2 or above (the reserved slot 511 of a root
/// excepted) leads to a table in the arena whose role records exactly
/// this parent slot — so distinct paths reach distinct tables.  Slot
/// 511 of a root, when present, points back at a root.  Huge entries
/// at P3 and P2 are aligned to their level.
pub open spec fn forest(mem: Map<u64, Seq<u64>>, roles: Map<u64, Role>) -> bool {
    &&& roles.dom() =~= mem.dom()
    &&& forall|f: u64| #[trigger] mem.dom().contains(f) ==> mem[f].len() == 512
    &&& forall|f: u64|
        mem.dom().contains(f) && (#[trigger] roles[f]) is Child ==> 1 <= level_of(roles, f) <= 3
    &&& forall|f: u64, i: int|
        mem.dom().contains(f) && 0 <= i < 512 && 2 <= level_of(roles, f) && !(level_of(roles, f)
            == 4 && i == 511) && is_edge(mem, f, i) ==> mem.dom().contains(
            #[trigger] e_frame(mem[f][i]),
        ) && roles[e_frame(mem[f][i])] == (Role::Child {
            level: level_of(roles, f) - 1,
            parent: f,
            index: i,
        })
    &&& forall|f: u64| #![trigger mem[f]]
        mem.dom().contains(f) && roles[f] == Role::Root && e_present(mem[f][511]) ==> !e_huge(
            mem[f][511],
        ) && mem.dom().contains(e_frame(mem[f][511])) && roles[e_frame(mem[f][511])] == Role::Root
    &&& forall|f: u64, i: int|
        mem.dom().contains(f) && 0 <= i < 512 && e_present(mem[f][i]) && e_huge(
            #[trigger] mem[f][i],
        ) ==> (level_of(roles, f) == 3 ==> e_frame(mem[f][i]) % 0x40000 == 0) && (level_of(roles, f)
            == 2 ==> e_frame(mem[f][i]) % 512 == 0)
}

/// The hardware walk from root `w` along the four 9-bit indices:
/// either a 4KiB leaf, a 1GiB or 2MiB huge mapping, or nothing.
#[verifier::opaque]
pub open spec fn spec_translate_idx(
    mem: Map<u64, Seq<u64>>,
    w: u64,
    i4: int,
    i3: int,
    i2: int,
    i1: int,
) -> Option<u64> {
    let e4 = mem[w][i4];
    if !(e_present(e4) && !e_huge(e4)) {
        None
    } else {
        let e3 = mem[e_frame(e4)][i3];
        if e_present(e3) && e_huge(e3) {
            Some((e_frame(e3) + i2 * 512 + i1) as u64)
        } else if !(e_present(e3) && !e_huge(e3)) {
            None
        } else {
            let e2 = mem[e_frame(e3)][i2];
            if e_present(e2) && e_huge(e2) {
                Some((e_frame(e2) + i1) as u64)
            } else if !(e_present(e2) && !e_huge(e2)) {
                None
            } else {
                let e1 = mem[e_frame(e2)][i1];
                if e_present(e1) {
                    Some(e_frame(e1))
                } else {
                    None
                }
            }
        }
    }
}

/// The walk for a page.
pub open spec fn spec_translate_page(mem: Map<u64, Seq<u64>>, w: u64, page: Page) -> Option<u64> {
    spec_translate_idx(
        mem,
        w,
        page.spec_p4_index(),
        page.spec_p3_index(),
        page.spec_p2_index(),
        page.spec_p1_index(),
    )
}

/// A present non-huge slot of a table at level 2 or above leads into
/// the arena; slot 511 of a root leads to a root.
proof fn lemma_step(mem: Map<u64, Seq<u64>>, roles: Map<u64, Role>, f: u64, i: int)
    requires
        forest(mem, roles),
        mem.dom().contains(f),
        0 <= i < 512,
        2 <= level_of(roles, f),
        is_edge(mem, f, i),
    ensures
        mem.dom().contains(e_frame(mem[f][i])),
        level_of(roles, f) == 4 && i == 511 ==> roles[e_frame(mem[f][i])] == Role::Root,
        !(level_of(roles, f) == 4 && i == 511) ==> roles[e_frame(mem[f][i])] == (Role::Child {
            level: level_of(roles, f) - 1,
            parent: f,
            index: i,
        }),
{
    if level_of(roles, f) == 4 && i == 511 {
        assert(roles[f] == Role::Root);
        assert(e_present(mem[f][511]));
    }
}

/// Raw page-table mutation bound to one root frame.  Owns the arena of
/// table memory; the table actually walked is the one behind slot 511
/// of the root, so redirecting that slot retargets every operation.
pub struct Mapper {
    memory: TableArena,
    p4_frame: u64,
    roles: Ghost<Map<u64, Role>>,
}

impl Mapper {
    /// Contents of table memory.
    pub closed spec fn mem(&self) -> Map<u64, Seq<u64>> {
        self.memory@
    }

    /// The root frame loaded in the hardware table-base register.
    pub closed spec fn spec_p4_frame(&self) -> u64 {
        self.p4_frame
    }

    /// Role of each table frame.
    pub closed spec fn roles(&self) -> Map<u64, Role> {
        self.roles@
    }

    /// The frame every walk starts from: the target of the root's
    /// recursive slot.
    pub open spec fn wroot(&self) -> u64 {
        e_frame(self.mem()[self.spec_p4_frame()][511])
    }

    /// `f` holds a root table that maps itself at slot 511.
    pub open spec fn is_self_mapped_root(&self, f: u64) -> bool {
        &&& self.mem().dom().contains(f)
        &&& self.roles()[f] == Role::Root
        &&& e_present(self.mem()[f][511])
        &&& !e_huge(self.mem()[f][511])
        &&& e_frame(self.mem()[f][511]) == f
    }

    /// Structural invariant: the forest holds, the loaded root is a
    /// root table whose slot 511 is present, and the walk root is a
    /// self-mapped root.
    pub open spec fn inv(&self) -> bool {
        &&& forest(self.mem(), self.roles())
        &&& self.mem().dom().contains(self.spec_p4_frame())
        &&& self.roles()[self.spec_p4_frame()] == Role::Root
        &&& e_present(self.mem()[self.spec_p4_frame()][511])
        &&& !e_huge(self.mem()[self.spec_p4_frame()][511])
        &&& self.is_self_mapped_root(self.wroot())
    }

    /// What a virtual page currently maps to.
    pub open spec fn spec_translate(&self, page: Page) -> Option<u64> {
        spec_translate_page(self.mem(), self.wroot(), page)
    }

    /// Wrap existing table memory rooted at `p4_frame`.
    pub fn new(memory: TableArena, p4_frame: u64) -> (r: Mapper)
        requires
            exists|roles: Map<u64, Role>|
                {
                    &&& #[trigger] forest(memory@, roles)
                    &&& memory@.dom().contains(p4_frame)
                    &&& roles[p4_frame] == Role::Root
                    &&& e_present(memory@[p4_frame][511])
                    &&& !e_huge(memory@[p4_frame][511])
                    &&& memory@.dom().contains(e_frame(memory@[p4_frame][511]))
                    &&& roles[e_frame(memory@[p4_frame][511])] == Role::Root
                    &&& e_frame(memory@[e_frame(memory@[p4_frame][511])][511]) == e_frame(
                        memory@[p4_frame][511],
                    )
                    &&& e_present(memory@[e_frame(memory@[p4_frame][511])][511])
                    &&& !e_huge(memory@[e_frame(memory@[p4_frame][511])][511])
                },
        ensures
            r.inv(),
            r.mem() == memory@,
            r.spec_p4_frame() == p4_frame,
    {
        let ghost roles = choose|roles: Map<u64, Role>|
            {
                &&& #[trigger] forest(memory@, roles)
                &&& memory@.dom().contains(p4_frame)
                &&& roles[p4_frame] == Role::Root
                &&& e_present(memory@[p4_frame][511])
                &&& !e_huge(memory@[p4_frame][511])
                &&& memory@.dom().contains(e_frame(memory@[p4_frame][511]))
                &&& roles[e_frame(memory@[p4_frame][511])] == Role::Root
                &&& e_frame(memory@[e_frame(memory@[p4_frame][511])][511]) == e_frame(
                    memory@[p4_frame][511],
                )
                &&& e_present(memory@[e_frame(memory@[p4_frame][511])][511])
                &&& !e_huge(memory@[e_frame(memory@[p4_frame][511])][511])
            };
        Mapper { memory, p4_frame, roles: Ghost(roles) }
    }

    /// A fresh address space: a single root table, cleared except for
    /// its recursive slot.
    pub fn boot(p4_frame: u64) -> (r: Mapper)
        requires
            p4_frame < FRAME_LIMIT,
        ensures
            r.inv(),
            r.spec_p4_frame() == p4_frame,
            r.wroot() == p4_frame,
            r.mem().dom() =~= set![p4_frame],
            forall|page: Page|
                (#[trigger] page.spec_p4_index()) != 511 ==> r.spec_translate(page) is None,
    {
        let mut memory = TableArena::new();
        memory.install_zeroed(p4_frame);
        let flags = EntryFlags::from_bits_truncate(PRESENT | WRITABLE);
        proof {
            lemma_pack(p4_frame, flags.bits);
        }
        memory.write(p4_frame, 511, pack_entry(p4_frame, flags.bits));
        let ghost roles = Map::<u64, Role>::empty().insert(p4_frame, Role::Root);
        let r = Mapper { memory, p4_frame, roles: Ghost(roles) };
        proof {
            reveal(spec_translate_idx);
            lemma_zero_entry();
            lemma_pw_bits();
            let m = r.mem();
            let se = m[p4_frame][511];
            assert(m.dom() =~= set![p4_frame]);
            assert(r.roles().dom() =~= m.dom());
            assert(m[p4_frame] =~= zero_table().update(511, pack(p4_frame, flags.bits)));
            assert(se == pack(p4_frame, flags.bits));
            assert(e_present(se) && !e_huge(se) && e_frame(se) == p4_frame);
            assert(m[p4_frame].len() == 512);
            assert forall|f: u64, i: int|
                m.dom().contains(f) && 0 <= i < 512 && 2 <= level_of(r.roles(), f) && !(level_of(
                    r.roles(),
                    f,
                ) == 4 && i == 511) && is_edge(m, f, i) implies m.dom().contains(
                #[trigger] e_frame(m[f][i]),
            ) && r.roles()[e_frame(m[f][i])] == (Role::Child {
                level: level_of(r.roles(), f) - 1,
                parent: f,
                index: i,
            }) by {
                assert(f == p4_frame && i != 511);
                assert(m[f][i] == 0);
                assert(!e_present(m[f][i]));
            }
            assert forall|f: u64, i: int|
                m.dom().contains(f) && 0 <= i < 512 && e_present(m[f][i]) && e_huge(
                    #[trigger] m[f][i],
                ) implies (level_of(r.roles(), f) == 3 ==> e_frame(m[f][i]) % 0x40000 == 0) && (
            level_of(r.roles(), f) == 2 ==> e_frame(m[f][i]) % 512 == 0) by {
                assert(level_of(r.roles(), f) == 4);
            }
            assert(forest(m, r.roles()));
            assert(r.is_self_mapped_root(p4_frame));
            assert forall|page: Page| (#[trigger] page.spec_p4_index()) != 511 implies
                r.spec_translate(page) is None by {
                let i4 = page.spec_p4_index();
                assert(0 <= i4 < 512);
                assert(m[p4_frame][i4] == 0);
                assert(!e_present(m[p4_frame][i4]));
            }
        }
        r
    }

    /// Walk the tables for `page`: a present 4KiB leaf wins; otherwise
    /// a present huge entry at P3 resolves as a 1GiB page and one at P2
    /// as a 2MiB page.
    pub fn translate_page(&self, page: Page) -> (r: Option<Frame>)
        requires
            self.inv(),
        ensures
            match r {
                Some(f) => self.spec_translate(page) == Some(f.number),
                None => self.spec_translate(page) is None,
            },
    {
        proof {
            reveal(spec_translate_idx);
        }
        let i4 = page.p4_index();
        let i3 = page.p3_index();
        let i2 = page.p2_index();
        let i1 = page.p1_index();
        let w: u64 = entry_frame(self.memory.read(self.p4_frame, 511));
        let e4 = self.memory.read(w, i4 as usize);
        if !(entry_present(e4) && !entry_huge(e4)) {
            return None;
        }
        let p3 = entry_frame(e4);
        proof {
            lemma_step(self.mem(), self.roles(), w, i4 as int);
        }
        let e3 = self.memory.read(p3, i3 as usize);
        if entry_present(e3) && entry_huge(e3) {
            // A 1GiB page: the frame advances by 512 frames per P2
            // step and one per P1 step.
            proof {
                lemma_entry_frame_bound(e3);
            }
            return Some(Frame { number: entry_frame(e3) + (i2 as u64) * 512 + (i1 as u64) });
        }
        if !entry_present(e3) {
            return None;
        }
        let p2 = entry_frame(e3);
        proof {
            lemma_step(self.mem(), self.roles(), p3, i3 as int);
        }
        let e2 = self.memory.read(p2, i2 as usize);
        if entry_present(e2) && entry_huge(e2) {
            // A 2MiB page: the frame advances by one per P1 step.
            proof {
                lemma_entry_frame_bound(e2);
            }
            return Some(Frame { number: entry_frame(e2) + (i1 as u64) });
        }
        if !entry_present(e2) {
            return None;
        }
        let p1 = entry_frame(e2);
        proof {
            lemma_step(self.mem(), self.roles(), p2, i2 as int);
        }
        let e1 = self.memory.read(p1, i1 as usize);
        if entry_present(e1) {
            Some(Frame { number: entry_frame(e1) })
        } else {
            None
        }
    }

    /// Translate a whole virtual address: the page translation plus
    /// the offset within the page.
    pub fn translate(&self, virtual_address: u64) -> (r: Option<u64>)
        requires
            self.inv(),
            virtual_address < 0x0000_8000_0000_0000 || virtual_address >= 0xffff_8000_0000_0000,
        ensures
            match r {
                Some(a) => {
                    &&& spec_translate_page(
                        self.mem(),
                        self.wroot(),
                        Page { number: virtual_address / PAGE_SIZE },
                    ) matches Some(f)
                    &&& a == f * PAGE_SIZE + virtual_address % PAGE_SIZE
                },
                None => spec_translate_page(
                    self.mem(),
                    self.wroot(),
                    Page { number: virtual_address / PAGE_SIZE },
                ) is None,
            },
    {
        let offset: u64 = virtual_address % PAGE_SIZE;
        let page = Page::containing_address(virtual_address);
        match self.translate_page(page) {
            Some(frame) => {
                proof {
                    lemma_translate_frame_bound(
                        self.mem(),
                        self.wroot(),
                        page.spec_p4_index(),
                        page.spec_p3_index(),
                        page.spec_p2_index(),
                        page.spec_p1_index(),
                        self.roles(),
                    );
                }
                Some(frame.number * PAGE_SIZE + offset)
            },
            None => None,
        }
    }
}

/// The present-and-writable flag word used for table entries.
pub proof fn lemma_pw_bits()
    ensures
        flags_fit((PRESENT | WRITABLE) & ALL_FLAGS),
        (PRESENT | WRITABLE) & ALL_FLAGS == PRESENT | WRITABLE,
        (PRESENT | WRITABLE) & PRESENT == PRESENT,
        (PRESENT | WRITABLE) & HUGE_PAGE != HUGE_PAGE,
{
    assert(((0x1u64 | 0x2u64) & 0x8000_0000_0000_01ffu64) == (0x1u64 | 0x2u64) && ((0x1u64
        | 0x2u64) & 0x1u64) == 0x1u64 && ((0x1u64 | 0x2u64) & 0x80u64) != 0x80u64) by (bit_vector);
}

/// Zero is neither present nor huge.
pub proof fn lemma_zero_entry()
    ensures
        !e_present(0),
        !e_huge(0),
        e_frame(0) == 0,
        e_flags(0) == 0,
{
    assert(0u64 & 0x1u64 != 0x1u64 && 0u64 & 0x80u64 != 0x80u64 && 0u64 & 0x000f_ffff_ffff_f000u64
        == 0u64 && 0u64 & 0x8000_0000_0000_01ffu64 == 0u64) by (bit_vector);
}

/// The frame field of an entry is below 2^40.
pub proof fn lemma_entry_frame_bound(e: u64)
    ensures
        e_frame(e) < FRAME_LIMIT,
{
    assert((e & 0x000f_ffff_ffff_f000u64) <= 0x000f_ffff_ffff_f000u64) by (bit_vector);
}

/// Any frame a walk yields is below 2^40 + 2^18 + 2^9, so its start
/// address fits in 64 bits.
proof fn lemma_translate_frame_bound(
    mem: Map<u64, Seq<u64>>,
    w: u64,
    i4: int,
    i3: int,
    i2: int,
    i1: int,
    roles: Map<u64, Role>,
)
    requires
        0 <= i2 < 512,
        0 <= i1 < 512,
    ensures
        spec_translate_idx(mem, w, i4, i3, i2, i1) matches Some(f) ==> f < FRAME_LIMIT + 0x40000
            + 0x200,
{
    reveal(spec_translate_idx);
    let e4 = mem[w][i4];
    if e_present(e4) && !e_huge(e4) {
        let e3 = mem[e_frame(e4)][i3];
        lemma_entry_frame_bound(e3);
        if e_present(e3) && !e_huge(e3) {
            let e2 = mem[e_frame(e3)][i2];
            lemma_entry_frame_bound(e2);
            if e_present(e2) && !e_huge(e2) {
                lemma_entry_frame_bound(mem[e_frame(e2)][i1]);
            }
        }
    }
}

/// Whether a raw entry is present.
pub(crate) fn entry_present(e: u64) -> (r: bool)
    ensures
        r == e_present(e),
{
    e & PRESENT == PRESENT
}

/// Whether a raw entry maps a huge page.
pub(crate) fn entry_huge(e: u64) -> (r: bool)
    ensures
        r == e_huge(e),
{
    e & HUGE_PAGE == HUGE_PAGE
}

/// The frame number stored in a raw entry.
pub(crate) fn entry_frame(e: u64) -> (r: u64)
    ensures
        r == e_frame(e),
{
    (e & ADDR_MASK) / 4096
}

/// Build a raw entry from a frame number and flag bits.
pub(crate) fn pack_entry(frame: u64, fl: u64) -> (r: u64)
    requires
        frame < FRAME_LIMIT,
        flags_fit(fl),
    ensures
        r == pack(frame, fl),
{
    proof {
        assert(frame * 4096 <= 0x000f_ffff_ffff_f000) by (nonlinear_arith)
            requires
                frame < 0x100_0000_0000u64,
        ;
    }
    (frame * 4096) | fl
}

/// Why a mapping operation failed.
#[derive(Clone, Copy, Debug, PartialEq, Eq, Structural)]
pub enum MapError {
    /// The frame allocator was exhausted.
    OutOfMemory,
    /// The target slot already holds something.
    DoubleMapping,
    /// A lookup met a missing intermediate table or an unexpected huge
    /// page.
    UnmappedAccess,
}

/// The walk for these indices runs into a huge mapping before P1.
pub open spec fn huge_blocked(mem: Map<u64, Seq<u64>>, w: u64, i4: int, i3: int, i2: int) -> bool {
    let e4 = mem[w][i4];
    let e3 = mem[e_frame(e4)][i3];
    let e2 = mem[e_frame(e3)][i2];
    ||| (e_present(e4) && e_huge(e4))
    ||| (is_edge(mem, w, i4) && e_present(e3) && e_huge(e3))
    ||| (is_edge(mem, w, i4) && is_edge(mem, e_frame(e4), i3) && e_present(e2) && e_huge(e2))
}

/// All three intermediate tables for these indices exist.
pub open spec fn chain_exists(mem: Map<u64, Seq<u64>>, w: u64, i4: int, i3: int, i2: int) -> bool {
    is_edge(mem, w, i4) && is_edge(mem, e_frame(mem[w][i4]), i3) && is_edge(
        mem,
        e_frame(mem[e_frame(mem[w][i4])][i3]),
        i2,
    )
}

/// The P1 table frame behind these indices, once the chain exists.
pub open spec fn p1_frame_of(mem: Map<u64, Seq<u64>>, w: u64, i4: int, i3: int, i2: int) -> u64 {
    e_frame(mem[e_frame(mem[e_frame(mem[w][i4])][i3])][i2])
}

/// The raw P1 slot behind these indices, once the chain exists.
#[verifier::opaque]
pub open spec fn spec_leaf_idx(
    mem: Map<u64, Seq<u64>>,
    w: u64,
    i4: int,
    i3: int,
    i2: int,
    i1: int,
) -> Option<u64> {
    if chain_exists(mem, w, i4, i3, i2) {
        Some(mem[p1_frame_of(mem, w, i4, i3, i2)][i1])
    } else {
        None
    }
}

/// The P1 slot behind these indices exists and is in use.
#[verifier::opaque]
pub open spec fn spec_leaf_nonzero(
    mem: Map<u64, Seq<u64>>,
    w: u64,
    i4: int,
    i3: int,
    i2: int,
    i1: int,
) -> bool {
    chain_exists(mem, w, i4, i3, i2) && mem[p1_frame_of(mem, w, i4, i3, i2)][i1] != 0
}

/// Preservation of translations composes, as long as the middle state
/// keeps the first state's tables and roles.
proof fn lemma_preserved_trans(
    m0: Map<u64, Seq<u64>>,
    r0: Map<u64, Role>,
    m1: Map<u64, Seq<u64>>,
    r1: Map<u64, Role>,
    m2: Map<u64, Seq<u64>>,
)
    requires
        translations_preserved(m0, r0, m1),
        translations_preserved(m1, r1, m2),
        forall|f: u64|
            m0.dom().contains(f) ==> m1.dom().contains(f) && r1[f] == r0[f],
    ensures
        translations_preserved(m0, r0, m2),
{
    reveal(translations_preserved);
    reveal(spec_leaf_idx);
    reveal(spec_leaf_nonzero);
    assert forall|t: u64, j4: int, j3: int, j2: int, j1: int|
        m0.dom().contains(t) && r0[t] == Role::Root && 0 <= j4 < 511 && 0 <= j3 < 512 && 0 <= j2
            < 512 && 0 <= j1 < 512 implies #[trigger] spec_translate_idx(m2, t, j4, j3, j2, j1)
        == spec_translate_idx(m0, t, j4, j3, j2, j1) && (spec_leaf_nonzero(m0, t, j4, j3, j2, j1)
        ==> spec_leaf_idx(m2, t, j4, j3, j2, j1) == spec_leaf_idx(m0, t, j4, j3, j2, j1)) by {
        assert(spec_translate_idx(m1, t, j4, j3, j2, j1) == spec_translate_idx(
            m0,
            t,
            j4,
            j3,
            j2,
            j1,
        ));
        assert(spec_translate_idx(m2, t, j4, j3, j2, j1) == spec_translate_idx(
            m1,
            t,
            j4,
            j3,
            j2,
            j1,
        ));
        if spec_leaf_nonzero(m0, t, j4, j3, j2, j1) {
            assert(spec_leaf_idx(m1, t, j4, j3, j2, j1) == spec_leaf_idx(m0, t, j4, j3, j2, j1));
            assert(spec_leaf_nonzero(m1, t, j4, j3, j2, j1));
            assert(spec_leaf_idx(m2, t, j4, j3, j2, j1) == spec_leaf_idx(m1, t, j4, j3, j2, j1));
        }
    }
}

/// Unchanged memory preserves every walk.
pub proof fn lemma_preserved_refl(m0: Map<u64, Seq<u64>>, r0: Map<u64, Role>)
    ensures
        translations_preserved(m0, r0, m0),
{
    reveal(translations_preserved);
}

/// Installing a fresh, cleared table under an unused slot of an
/// existing table changes no translation outside the recursive window.
proof fn lemma_install_preserves(
    mem: Map<u64, Seq<u64>>,
    roles: Map<u64, Role>,
    p: u64,
    i: int,
    c: u64,
    v: u64,
    t: u64,
    j4: int,
    j3: int,
    j2: int,
    j1: int,
)
    requires
        forest(mem, roles),
        mem.dom().contains(p),
        0 <= i < 512,
        2 <= level_of(roles, p),
        !(level_of(roles, p) == 4 && i == 511),
        !mem.dom().contains(c),
        !e_present(mem[p][i]),
        e_present(v) && !e_huge(v) && e_frame(v) == c,
        mem.dom().contains(t),
        roles[t] == Role::Root,
        0 <= j4 < 511,
        0 <= j3 < 512,
        0 <= j2 < 512,
        0 <= j1 < 512,
    ensures
        spec_translate_idx(
            mem.insert(c, zero_table()).insert(p, mem[p].update(i, v)),
            t,
            j4,
            j3,
            j2,
            j1,
        ) == spec_translate_idx(mem, t, j4, j3, j2, j1),
        spec_leaf_nonzero(mem, t, j4, j3, j2, j1) ==> spec_leaf_idx(
            mem.insert(c, zero_table()).insert(p, mem[p].update(i, v)),
            t,
            j4,
            j3,
            j2,
            j1,
        ) == spec_leaf_idx(mem, t, j4, j3, j2, j1),
{
    reveal(spec_translate_idx);
    reveal(spec_leaf_idx);
    reveal(spec_leaf_nonzero);
    lemma_zero_entry();
    let m2 = mem.insert(c, zero_table()).insert(p, mem[p].update(i, v));
    assert(t != c);
    let e4 = mem[t][j4];
    if t == p && j4 == i {
        assert(m2[t][j4] == v);
        assert(!e_present(e4));
        assert(m2[c][j3] == 0);
        assert(spec_translate_idx(m2, t, j4, j3, j2, j1) is None);
    } else {
        assert(m2[t][j4] == e4);
        if e_present(e4) && !e_huge(e4) {
            lemma_step(mem, roles, t, j4);
            let f3 = e_frame(e4);
            assert(roles[f3] == (Role::Child { level: 3, parent: t, index: j4 }));
            assert(f3 != c);
            let e3 = mem[f3][j3];
            if f3 == p && j3 == i {
                assert(m2[f3][j3] == v);
                assert(!e_present(e3));
                assert(m2[c][j2] == 0);
                assert(spec_translate_idx(m2, t, j4, j3, j2, j1) is None);
                assert(spec_translate_idx(mem, t, j4, j3, j2, j1) is None);
            } else {
                assert(m2[f3][j3] == e3);
                if e_present(e3) && !e_huge(e3) {
                    lemma_step(mem, roles, f3, j3);
                    let f2 = e_frame(e3);
                    assert(roles[f2] == (Role::Child { level: 2, parent: f3, index: j3 }));
                    assert(f2 != c);
                    let e2 = mem[f2][j2];
                    if f2 == p && j2 == i {
                        assert(m2[f2][j2] == v);
                        assert(!e_present(e2));
                        assert(m2[c][j1] == 0);
                        assert(spec_translate_idx(m2, t, j4, j3, j2, j1) is None);
                        assert(spec_translate_idx(mem, t, j4, j3, j2, j1) is None);
                    } else {
                        assert(m2[f2][j2] == e2);
                        if e_present(e2) && !e_huge(e2) {
                            lemma_step(mem, roles, f2, j2);
                            let f1 = e_frame(e2);
                            assert(roles[f1] == (Role::Child { level: 1, parent: f2, index: j2 }));
                            assert(f1 != c);
                            assert(f1 != p);
                            assert(m2[f1][j1] == mem[f1][j1]);
                        }
                    }
                }
            }
        }
    }
}

/// Writing a slot of a P1 table changes only the translation whose
/// walk ends at exactly that slot; every other walk outside the
/// recursive window is unchanged.
proof fn lemma_leaf_write_preserves(
    mem: Map<u64, Seq<u64>>,
    roles: Map<u64, Role>,
    g: u64,
    i: int,
    v: u64,
    t: u64,
    j4: int,
    j3: int,
    j2: int,
    j1: int,
)
    requires
        forest(mem, roles),
        mem.dom().contains(g),
        level_of(roles, g) == 1,
        0 <= i < 512,
        mem.dom().contains(t),
        roles[t] == Role::Root,
        0 <= j4 < 511,
        0 <= j3 < 512,
        0 <= j2 < 512,
        0 <= j1 < 512,
        !({
            let f2 = parent_of(roles, g);
            let f3 = parent_of(roles, f2);
            &&& index_of(roles, g) == j2
            &&& level_of(roles, f2) == 2
            &&& index_of(roles, f2) == j3
            &&& level_of(roles, f3) == 3
            &&& index_of(roles, f3) == j4
            &&& parent_of(roles, f3) == t
            &&& j1 == i
        }),
    ensures
        spec_translate_idx(mem.insert(g, mem[g].update(i, v)), t, j4, j3, j2, j1)
            == spec_translate_idx(mem, t, j4, j3, j2, j1),
        spec_leaf_idx(mem.insert(g, mem[g].update(i, v)), t, j4, j3, j2, j1) == spec_leaf_idx(
            mem,
            t,
            j4,
            j3,
            j2,
            j1,
        ),
{
    reveal(spec_translate_idx);
    reveal(spec_leaf_idx);
    reveal(spec_leaf_nonzero);
    let m2 = mem.insert(g, mem[g].update(i, v));
    assert(t != g);
    let e4 = mem[t][j4];
    assert(m2[t][j4] == e4);
    if e_present(e4) && !e_huge(e4) {
        lemma_step(mem, roles, t, j4);
        let f3 = e_frame(e4);
        assert(roles[f3] == (Role::Child { level: 3, parent: t, index: j4 }));
        assert(f3 != g);
        let e3 = mem[f3][j3];
        assert(m2[f3][j3] == e3);
        if e_present(e3) && !e_huge(e3) {
            lemma_step(mem, roles, f3, j3);
            let f2 = e_frame(e3);
            assert(roles[f2] == (Role::Child { level: 2, parent: f3, index: j3 }));
            assert(f2 != g);
            let e2 = mem[f2][j2];
            assert(m2[f2][j2] == e2);
            if e_present(e2) && !e_huge(e2) {
                lemma_step(mem, roles, f2, j2);
                let f1 = e_frame(e2);
                assert(roles[f1] == (Role::Child { level: 1, parent: f2, index: j2 }));
                if f1 == g {
                    assert(parent_of(roles, g) == f2 && index_of(roles, g) == j2);
                    assert(level_of(roles, f2) == 2 && index_of(roles, f2) == j3 && parent_of(
                        roles,
                        f2,
                    ) == f3);
                    assert(level_of(roles, f3) == 3 && index_of(roles, f3) == j4 && parent_of(
                        roles,
                        f3,
                    ) == t);
                    assert(j1 != i);
                    assert(m2[f1][j1] == mem[f1][j1]);
                } else {
                    assert(m2[f1][j1] == mem[f1][j1]);
                }
            }
        }
    }
}

/// Redirecting the recursive slot of a root changes no translation
/// outside the recursive window, for any walk root.
proof fn lemma_root_slot_preserves(
    mem: Map<u64, Seq<u64>>,
    roles: Map<u64, Role>,
    r: u64,
    v: u64,
    t: u64,
    j4: int,
    j3: int,
    j2: int,
    j1: int,
)
    requires
        forest(mem, roles),
        mem.dom().contains(r),
        roles[r] == Role::Root,
        mem.dom().contains(t),
        roles[t] == Role::Root,
        0 <= j4 < 511,
        0 <= j3 < 512,
        0 <= j2 < 512,
        0 <= j1 < 512,
    ensures
        spec_translate_idx(mem.insert(r, mem[r].update(511, v)), t, j4, j3, j2, j1)
            == spec_translate_idx(mem, t, j4, j3, j2, j1),
        spec_leaf_idx(mem.insert(r, mem[r].update(511, v)), t, j4, j3, j2, j1) == spec_leaf_idx(
            mem,
            t,
            j4,
            j3,
            j2,
            j1,
        ),
{
    reveal(spec_translate_idx);
    reveal(spec_leaf_idx);
    reveal(spec_leaf_nonzero);
    let m2 = mem.insert(r, mem[r].update(511, v));
    let e4 = mem[t][j4];
    assert(m2[t][j4] == e4);
    if e_present(e4) && !e_huge(e4) {
        lemma_step(mem, roles, t, j4);
        let f3 = e_frame(e4);
        assert(roles[f3] == (Role::Child { level: 3, parent: t, index: j4 }));
        assert(f3 != r);
        let e3 = mem[f3][j3];
        assert(m2[f3][j3] == e3);
        if e_present(e3) && !e_huge(e3) {
            lemma_step(mem, roles, f3, j3);
            let f2 = e_frame(e3);
            assert(f2 != r);
            let e2 = mem[f2][j2];
            assert(m2[f2][j2] == e2);
            if e_present(e2) && !e_huge(e2) {
                lemma_step(mem, roles, f2, j2);
                let f1 = e_frame(e2);
                assert(f1 != r);
                assert(m2[f1][j1] == mem[f1][j1]);
            }
        }
    }
}

/// Putting a fresh self-mapped root table into unused memory changes
/// no existing translation.
proof fn lemma_new_root_preserves(
    mem: Map<u64, Seq<u64>>,
    roles: Map<u64, Role>,
    c: u64,
    v: u64,
    t: u64,
    j4: int,
    j3: int,
    j2: int,
    j1: int,
)
    requires
        forest(mem, roles),
        !mem.dom().contains(c),
        mem.dom().contains(t),
        roles[t] == Role::Root,
        0 <= j4 < 511,
        0 <= j3 < 512,
        0 <= j2 < 512,
        0 <= j1 < 512,
    ensures
        spec_translate_idx(mem.insert(c, zero_table().update(511, v)), t, j4, j3, j2, j1)
            == spec_translate_idx(mem, t, j4, j3, j2, j1),
        spec_leaf_idx(mem.insert(c, zero_table().update(511, v)), t, j4, j3, j2, j1)
            == spec_leaf_idx(mem, t, j4, j3, j2, j1),
{
    reveal(spec_translate_idx);
    reveal(spec_leaf_idx);
    reveal(spec_leaf_nonzero);
    let m2 = mem.insert(c, zero_table().update(511, v));
    assert(t != c);
    let e4 = mem[t][j4];
    assert(m2[t][j4] == e4);
    if e_present(e4) && !e_huge(e4) {
        lemma_step(mem, roles, t, j4);
        let f3 = e_frame(e4);
        assert(f3 != c);
        let e3 = mem[f3][j3];
        assert(m2[f3][j3] == e3);
        if e_present(e3) && !e_huge(e3) {
            lemma_step(mem, roles, f3, j3);
            let f2 = e_frame(e3);
            assert(f2 != c);
            let e2 = mem[f2][j2];
            assert(m2[f2][j2] == e2);
            if e_present(e2) && !e_huge(e2) {
                lemma_step(mem, roles, f2, j2);
                let f1 = e_frame(e2);
                assert(f1 != c);
                assert(m2[f1][j1] == mem[f1][j1]);
            }
        }
    }
}
/// Installing a fresh cleared table as the child behind slot `i` of
/// table `p` keeps the forest, with the new frame taking exactly that
/// child role.
proof fn lemma_forest_install(
    mem: Map<u64, Seq<u64>>,
    roles: Map<u64, Role>,
    p: u64,
    i: int,
    c: u64,
    v: u64,
)
    requires
        forest(mem, roles),
        mem.dom().contains(p),
        0 <= i < 512,
        2 <= level_of(roles, p),
        !(level_of(roles, p) == 4 && i == 511),
        !mem.dom().contains(c),
        !e_present(mem[p][i]),
        e_present(v) && !e_huge(v) && e_frame(v) == c,
    ensures
        forest(
            mem.insert(c, zero_table()).insert(p, mem[p].update(i, v)),
            roles.insert(c, Role::Child { level: level_of(roles, p) - 1, parent: p, index: i }),
        ),
{
    lemma_zero_entry();
    let m2 = mem.insert(c, zero_table()).insert(p, mem[p].update(i, v));
    let r2 = roles.insert(c, Role::Child { level: level_of(roles, p) - 1, parent: p, index: i });
    assert(r2.dom() =~= m2.dom());
    assert forall|f: u64| #[trigger] m2.dom().contains(f) implies m2[f].len() == 512 by {
        if f == c {
        } else if f == p {
        } else {
            assert(mem.dom().contains(f));
        }
    }
    assert forall|f: u64, k: int|
        m2.dom().contains(f) && 0 <= k < 512 && 2 <= level_of(r2, f) && !(level_of(r2, f) == 4 && k
            == 511) && is_edge(m2, f, k) implies m2.dom().contains(#[trigger] e_frame(m2[f][k]))
        && r2[e_frame(m2[f][k])] == (Role::Child {
        level: level_of(r2, f) - 1,
        parent: f,
        index: k,
    }) by {
        if f == c {
            assert(m2[c][k] == 0);
            assert(false);
        } else if f == p && k == i {
            assert(m2[f][k] == v);
            assert(e_frame(v) == c);
            assert(level_of(r2, p) == level_of(roles, p));
        } else {
            assert(m2[f][k] == mem[f][k]);
            assert(level_of(r2, f) == level_of(roles, f));
            assert(mem.dom().contains(e_frame(mem[f][k])));
            assert(e_frame(mem[f][k]) != c);
        }
    }
    assert forall|f: u64| #![trigger m2[f]]
        m2.dom().contains(f) && r2[f] == Role::Root && e_present(m2[f][511]) implies !e_huge(
        m2[f][511],
    ) && m2.dom().contains(e_frame(m2[f][511])) && r2[e_frame(m2[f][511])] == Role::Root by {
        assert(f != c);
        if f == p {
            assert(i != 511);
            assert(m2[f][511] == mem[f][511]);
        } else {
            assert(m2[f][511] == mem[f][511]);
        }
        assert(e_frame(mem[f][511]) != c);
    }
    assert forall|f: u64, k: int|
        m2.dom().contains(f) && 0 <= k < 512 && e_present(m2[f][k]) && e_huge(
            #[trigger] m2[f][k],
        ) implies (level_of(r2, f) == 3 ==> e_frame(m2[f][k]) % 0x40000 == 0) && (level_of(r2, f)
        == 2 ==> e_frame(m2[f][k]) % 512 == 0) by {
        if f == c {
            assert(m2[c][k] == 0);
        } else if f == p && k == i {
            assert(!e_huge(v));
        } else {
            assert(m2[f][k] == mem[f][k]);
            assert(level_of(r2, f) == level_of(roles, f));
        }
    }
}

/// Writing a slot of a P1 table keeps the forest unchanged.
proof fn lemma_forest_leaf_write(
    mem: Map<u64, Seq<u64>>,
    roles: Map<u64, Role>,
    g: u64,
    i: int,
    v: u64,
)
    requires
        forest(mem, roles),
        mem.dom().contains(g),
        level_of(roles, g) == 1,
        0 <= i < 512,
    ensures
        forest(mem.insert(g, mem[g].update(i, v)), roles),
{
    let m2 = mem.insert(g, mem[g].update(i, v));
    assert(roles.dom() =~= m2.dom());
    assert forall|f: u64| #[trigger] m2.dom().contains(f) implies m2[f].len() == 512 by {
        if f != g {
            assert(m2[f] == mem[f]);
        }
    }
    assert forall|f: u64, k: int|
        m2.dom().contains(f) && 0 <= k < 512 && 2 <= level_of(roles, f) && !(level_of(roles, f)
            == 4 && k == 511) && is_edge(m2, f, k) implies m2.dom().contains(
        #[trigger] e_frame(m2[f][k]),
    ) && roles[e_frame(m2[f][k])] == (Role::Child {
        level: level_of(roles, f) - 1,
        parent: f,
        index: k,
    }) by {
        assert(f != g);
        assert(m2[f][k] == mem[f][k]);
    }
    assert forall|f: u64| #![trigger m2[f]]
        m2.dom().contains(f) && roles[f] == Role::Root && e_present(m2[f][511]) implies !e_huge(
        m2[f][511],
    ) && m2.dom().contains(e_frame(m2[f][511])) && roles[e_frame(m2[f][511])] == Role::Root by {
        assert(f != g);
        assert(m2[f][511] == mem[f][511]);
    }
    assert forall|f: u64, k: int|
        m2.dom().contains(f) && 0 <= k < 512 && e_present(m2[f][k]) && e_huge(
            #[trigger] m2[f][k],
        ) implies (level_of(roles, f) == 3 ==> e_frame(m2[f][k]) % 0x40000 == 0) && (level_of(
        roles,
        f,
    ) == 2 ==> e_frame(m2[f][k]) % 512 == 0) by {
        if f != g {
            assert(m2[f][k] == mem[f][k]);
        }
    }
}

/// Redirecting the recursive slot of a root to another root keeps the
/// forest.
proof fn lemma_forest_root_slot(
    mem: Map<u64, Seq<u64>>,
    roles: Map<u64, Role>,
    r: u64,
    v: u64,
)
    requires
        forest(mem, roles),
        mem.dom().contains(r),
        roles[r] == Role::Root,
        e_present(v) && !e_huge(v),
        mem.dom().contains(e_frame(v)),
        roles[e_frame(v)] == Role::Root,
    ensures
        forest(mem.insert(r, mem[r].update(511, v)), roles),
{
    let m2 = mem.insert(r, mem[r].update(511, v));
    assert(roles.dom() =~= m2.dom());
    assert forall|f: u64| #[trigger] m2.dom().contains(f) implies m2[f].len() == 512 by {
        if f != r {
            assert(m2[f] == mem[f]);
        }
    }
    assert forall|f: u64, k: int|
        m2.dom().contains(f) && 0 <= k < 512 && 2 <= level_of(roles, f) && !(level_of(roles, f)
            == 4 && k == 511) && is_edge(m2, f, k) implies m2.dom().contains(
        #[trigger] e_frame(m2[f][k]),
    ) && roles[e_frame(m2[f][k])] == (Role::Child {
        level: level_of(roles, f) - 1,
        parent: f,
        index: k,
    }) by {
        if f == r {
            assert(k != 511);
            assert(m2[f][k] == mem[f][k]);
        } else {
            assert(m2[f][k] == mem[f][k]);
        }
    }
    assert forall|f: u64| #![trigger m2[f]]
        m2.dom().contains(f) && roles[f] == Role::Root && e_present(m2[f][511]) implies !e_huge(
        m2[f][511],
    ) && m2.dom().contains(e_frame(m2[f][511])) && roles[e_frame(m2[f][511])] == Role::Root by {
        if f == r {
            assert(m2[f][511] == v);
        } else {
            assert(m2[f][511] == mem[f][511]);
        }
    }
    assert forall|f: u64, k: int|
        m2.dom().contains(f) && 0 <= k < 512 && e_present(m2[f][k]) && e_huge(
            #[trigger] m2[f][k],
        ) implies (level_of(roles, f) == 3 ==> e_frame(m2[f][k]) % 0x40000 == 0) && (level_of(
        roles,
        f,
    ) == 2 ==> e_frame(m2[f][k]) % 512 == 0) by {
        if f == r && k == 511 {
            assert(!e_huge(v));
        } else {
            assert(m2[f][k] == mem[f][k]);
        }
    }
}

/// Placing a fresh self-mapped root into unused memory keeps the
/// forest, with the new frame as a root.
proof fn lemma_forest_new_root(
    mem: Map<u64, Seq<u64>>,
    roles: Map<u64, Role>,
    c: u64,
    v: u64,
)
    requires
        forest(mem, roles),
        !mem.dom().contains(c),
        e_present(v) && !e_huge(v) && e_frame(v) == c,
    ensures
        forest(mem.insert(c, zero_table().update(511, v)), roles.insert(c, Role::Root)),
{
    lemma_zero_entry();
    let m2 = mem.insert(c, zero_table().update(511, v));
    let r2 = roles.insert(c, Role::Root);
    assert(r2.dom() =~= m2.dom());
    assert forall|f: u64| #[trigger] m2.dom().contains(f) implies m2[f].len() == 512 by {
        if f != c {
            assert(m2[f] == mem[f]);
        }
    }
    assert forall|f: u64, k: int|
        m2.dom().contains(f) && 0 <= k < 512 && 2 <= level_of(r2, f) && !(level_of(r2, f) == 4 && k
            == 511) && is_edge(m2, f, k) implies m2.dom().contains(#[trigger] e_frame(m2[f][k]))
        && r2[e_frame(m2[f][k])] == (Role::Child {
        level: level_of(r2, f) - 1,
        parent: f,
        index: k,
    }) by {
        if f == c {
            assert(level_of(r2, c) == 4);
            assert(k != 511);
            assert(m2[c][k] == 0);
            assert(false);
        } else {
            assert(m2[f][k] == mem[f][k]);
            assert(level_of(r2, f) == level_of(roles, f));
            assert(e_frame(mem[f][k]) != c);
        }
    }
    assert forall|f: u64| #![trigger m2[f]]
        m2.dom().contains(f) && r2[f] == Role::Root && e_present(m2[f][511]) implies !e_huge(
        m2[f][511],
    ) && m2.dom().contains(e_frame(m2[f][511])) && r2[e_frame(m2[f][511])] == Role::Root by {
        if f == c {
            assert(m2[c][511] == v);
        } else {
            assert(m2[f][511] == mem[f][511]);
            assert(e_frame(mem[f][511]) != c);
        }
    }
    assert forall|f: u64, k: int|
        m2.dom().contains(f) && 0 <= k < 512 && e_present(m2[f][k]) && e_huge(
            #[trigger] m2[f][k],
        ) implies (level_of(r2, f) == 3 ==> e_frame(m2[f][k]) % 0x40000 == 0) && (level_of(r2, f)
        == 2 ==> e_frame(m2[f][k]) % 512 == 0) by {
        if f == c {
            if k != 511 {
                assert(m2[c][k] == 0);
            } else {
                assert(!e_huge(v));
            }
        } else {
            assert(m2[f][k] == mem[f][k]);
            assert(level_of(r2, f) == level_of(roles, f));
        }
    }
}


/// A complete chain of edges ending in a present leaf translates to
/// the leaf's frame.
proof fn lemma_chain_target(
    mem: Map<u64, Seq<u64>>,
    w: u64,
    i4: int,
    i3: int,
    i2: int,
    i1: int,
)
    requires
        is_edge(mem, w, i4),
        is_edge(mem, e_frame(mem[w][i4]), i3),
        is_edge(mem, e_frame(mem[e_frame(mem[w][i4])][i3]), i2),
    ensures
        spec_translate_idx(mem, w, i4, i3, i2, i1) == (if e_present(
            mem[p1_frame_of(mem, w, i4, i3, i2)][i1],
        ) {
            Some(e_frame(mem[p1_frame_of(mem, w, i4, i3, i2)][i1]))
        } else {
            None
        }),
{
    reveal(spec_translate_idx);
}

/// Walks from every root of `r1` in `m1` (outside the recursive
/// window) give the same result in `m2`, and a P1 slot in use keeps
/// its exact contents.
#[verifier::opaque]
pub open spec fn translations_preserved(
    m1: Map<u64, Seq<u64>>,
    r1: Map<u64, Role>,
    m2: Map<u64, Seq<u64>>,
) -> bool {
    forall|t: u64, j4: int, j3: int, j2: int, j1: int|
        m1.dom().contains(t) && r1[t] == Role::Root && 0 <= j4 < 511 && 0 <= j3 < 512 && 0 <= j2
            < 512 && 0 <= j1 < 512 ==> #[trigger] spec_translate_idx(m2, t, j4, j3, j2, j1)
            == spec_translate_idx(m1, t, j4, j3, j2, j1) && (spec_leaf_nonzero(
            m1,
            t,
            j4,
            j3,
            j2,
            j1,
        ) ==> spec_leaf_idx(m2, t, j4, j3, j2, j1) == spec_leaf_idx(m1, t, j4, j3, j2, j1))
}

/// Like `translations_preserved`, excepting the single walk that was
/// deliberately changed.
#[verifier::opaque]
pub open spec fn translations_preserved_except(
    m1: Map<u64, Seq<u64>>,
    r1: Map<u64, Role>,
    m2: Map<u64, Seq<u64>>,
    w: u64,
    i4: int,
    i3: int,
    i2: int,
    i1: int,
) -> bool {
    forall|t: u64, j4: int, j3: int, j2: int, j1: int|
        m1.dom().contains(t) && r1[t] == Role::Root && 0 <= j4 < 511 && 0 <= j3 < 512 && 0 <= j2
            < 512 && 0 <= j1 < 512 && !(t == w && j4 == i4 && j3 == i3 && j2 == i2 && j1 == i1)
            ==> #[trigger] spec_translate_idx(m2, t, j4, j3, j2, j1) == spec_translate_idx(
            m1,
            t,
            j4,
            j3,
            j2,
            j1,
        ) && (spec_leaf_nonzero(m1, t, j4, j3, j2, j1) ==> spec_leaf_idx(m2, t, j4, j3, j2, j1)
            == spec_leaf_idx(m1, t, j4, j3, j2, j1))
}

impl Mapper {
    /// `f` holds a root table.
    pub open spec fn is_root_table(&self, f: u64) -> bool {
        self.mem().dom().contains(f) && self.roles()[f] == Role::Root
    }

    /// Return the table behind slot `index` of `parent`, creating,
    /// clearing and installing a fresh one from `allocator` when the
    /// slot is empty.  Fails on an exhausted allocator or a huge entry.
    fn next_table_create<A: FrameAllocator>(
        &mut self,
        parent: u64,
        index: usize,
        allocator: &mut A,
    ) -> (r: Result<u64, MapError>)
        requires
            old(self).inv(),
            old(allocator).inv(),
            old(self).mem().dom().contains(parent),
            2 <= level_of(old(self).roles(), parent),
            index < 512,
            !(level_of(old(self).roles(), parent) == 4 && index == 511),
            !(e_present(old(self).mem()[parent][index as int]) && e_huge(
                old(self).mem()[parent][index as int],
            )),
            !e_present(old(self).mem()[parent][index as int]) ==> forall|n: u64|
                old(allocator).avail().contains(n) ==> !old(self).mem().dom().contains(n),
        ensures
            final(self).inv(),
            final(allocator).inv(),
            final(self).spec_p4_frame() == old(self).spec_p4_frame(),
            final(self).wroot() == old(self).wroot(),
            final(allocator).avail().subset_of(old(allocator).avail()),
            forall|f: u64|
                old(self).mem().dom().contains(f) ==> final(self).mem().dom().contains(f) && final(self).roles()[f] == old(self).roles()[f],
            forall|f: u64|
                final(self).mem().dom().contains(f) && !old(self).mem().dom().contains(f) ==> old(allocator).avail().contains(f),
            forall|f: u64|
                old(self).mem().dom().contains(f) && old(self).roles()[f] == Role::Root ==> final(self).mem()[f][511] == old(self).mem()[f][511],
            translations_preserved(old(self).mem(), old(self).roles(), final(self).mem()),
            match r {
                Ok(c) => {
                    &&& final(self).mem().dom().contains(c)
                    &&& final(self).roles()[c] == (Role::Child {
                        level: level_of(old(self).roles(), parent) - 1,
                        parent: parent,
                        index: index as int,
                    })
                    &&& is_edge(final(self).mem(), parent, index as int)
                    &&& e_frame(final(self).mem()[parent][index as int]) == c
                    &&& c < FRAME_LIMIT
                    &&& (e_present(old(self).mem()[parent][index as int]) ==> final(self).mem()
                        == old(self).mem() && final(self).roles() == old(self).roles() && final(allocator).avail() == old(allocator).avail() && c == e_frame(
                        old(self).mem()[parent][index as int],
                    ))
                    &&& (!e_present(old(self).mem()[parent][index as int]) ==> old(allocator).avail().contains(c) && final(allocator).avail() == old(allocator).avail().remove(c) && !old(self).mem().dom().contains(c) && final(self).mem().dom() == old(self).mem().dom().insert(c) && final(self).mem()[c] == zero_table() && final(self).mem()[parent] == old(self).mem()[parent].update(index as int, pack(c, PRESENT | WRITABLE)) && (forall|f: u64|
                        old(self).mem().dom().contains(f) && f != parent ==> final(self).mem()[f]
                            == old(self).mem()[f]))
                },
                Err(e) => {
                    &&& final(self).mem() == old(self).mem()
                    &&& final(self).roles() == old(self).roles()
                    &&& e == MapError::OutOfMemory
                    &&& !e_present(old(self).mem()[parent][index as int])
                    &&& old(allocator).avail().is_empty()
                    &&& final(allocator).avail().is_empty()
                },
            },
    {
        let ghost m0 = self.mem();
        let ghost r0 = self.roles();
        let e = self.memory.read(parent, index);
        if entry_present(e) {
            proof {
                lemma_step(self.mem(), self.roles(), parent, index as int);
                lemma_entry_frame_bound(e);
                lemma_preserved_refl(m0, r0);
            }
            Ok(entry_frame(e))
        } else {
            match allocator.allocate_frame() {
                None => {
                    proof {
                        lemma_preserved_refl(m0, r0);
                    }
                    Err(MapError::OutOfMemory)
                },
                Some(frame) => {
                    let c = frame.number;
                    proof {
                        lemma_pw_bits();
                        lemma_pack(c, PRESENT | WRITABLE);
                    }
                    self.memory.install_zeroed(c);
                    let v = pack_entry(c, PRESENT | WRITABLE);
                    self.memory.write(parent, index, v);
                    proof {
                        self.roles@ = r0.insert(
                            c,
                            Role::Child {
                                level: level_of(r0, parent) - 1,
                                parent: parent,
                                index: index as int,
                            },
                        );
                        lemma_forest_install(m0, r0, parent, index as int, c, v);
                        assert(self.mem() =~= m0.insert(c, zero_table()).insert(
                            parent,
                            m0[parent].update(index as int, v),
                        ));
                        assert(self.mem().dom() =~= m0.dom().insert(c));
                        assert(self.mem()[c] == zero_table());
                        assert(self.mem()[parent] == m0[parent].update(index as int, v));
                        assert(forall|f: u64|
                            m0.dom().contains(f) && f != parent ==> #[trigger] self.mem()[f]
                                == m0[f]);
                        assert forall|t: u64, j4: int, j3: int, j2: int, j1: int|
                            m0.dom().contains(t) && r0[t] == Role::Root && 0 <= j4 < 511 && 0 <= j3
                                < 512 && 0 <= j2 < 512 && 0 <= j1 < 512 implies
                            #[trigger] spec_translate_idx(self.mem(), t, j4, j3, j2, j1)
                                == spec_translate_idx(m0, t, j4, j3, j2, j1) && (spec_leaf_nonzero(
                                m0,
                                t,
                                j4,
                                j3,
                                j2,
                                j1,
                            ) ==> spec_leaf_idx(self.mem(), t, j4, j3, j2, j1) == spec_leaf_idx(
                                m0,
                                t,
                                j4,
                                j3,
                                j2,
                                j1,
                            )) by {
                            lemma_install_preserves(
                                m0,
                                r0,
                                parent,
                                index as int,
                                c,
                                v,
                                t,
                                j4,
                                j3,
                                j2,
                                j1,
                            );
                        }
                        assert(translations_preserved(m0, r0, self.mem())) by {
                            reveal(translations_preserved);
                        }
                    }
                    Ok(c)
                },
            }
        }
    }
}


impl Mapper {
    /// Classify the path to `page` without touching anything: a huge
    /// mapping on the path means `UnmappedAccess`, an occupied target
    /// slot means `DoubleMapping`, and `None` means a mapping may
    /// proceed.
    fn check_path(&self, page: Page) -> (r: Option<MapError>)
        requires
            self.inv(),
            page.spec_p4_index() != 511,
        ensures
            ({
                let m = self.mem();
                let w = self.wroot();
                let i4 = page.spec_p4_index();
                let i3 = page.spec_p3_index();
                let i2 = page.spec_p2_index();
                let i1 = page.spec_p1_index();
                match r {
                    Some(e) => (e == MapError::UnmappedAccess <==> huge_blocked(m, w, i4, i3, i2))
                        && (e == MapError::DoubleMapping <==> !huge_blocked(m, w, i4, i3, i2)
                        && spec_leaf_nonzero(m, w, i4, i3, i2, i1)) && (e
                        == MapError::UnmappedAccess || e == MapError::DoubleMapping),
                    None => !huge_blocked(m, w, i4, i3, i2) && !spec_leaf_nonzero(
                        m,
                        w,
                        i4,
                        i3,
                        i2,
                        i1,
                    ),
                }
            }),
    {
        proof {
            reveal(spec_leaf_nonzero);
        }
        let ghost m = self.mem();
        let ghost r0 = self.roles();
        let i4 = page.p4_index();
        let i3 = page.p3_index();
        let i2 = page.p2_index();
        let i1 = page.p1_index();
        let w: u64 = entry_frame(self.memory.read(self.p4_frame, 511));
        let e4 = self.memory.read(w, i4);
        if entry_present(e4) && entry_huge(e4) {
            return Some(MapError::UnmappedAccess);
        }
        if !entry_present(e4) {
            return None;
        }
        let p3 = entry_frame(e4);
        proof {
            lemma_step(m, r0, w, i4 as int);
        }
        let e3 = self.memory.read(p3, i3);
        if entry_present(e3) && entry_huge(e3) {
            return Some(MapError::UnmappedAccess);
        }
        if !entry_present(e3) {
            return None;
        }
        let p2 = entry_frame(e3);
        proof {
            lemma_step(m, r0, p3, i3 as int);
        }
        let e2 = self.memory.read(p2, i2);
        if entry_present(e2) && entry_huge(e2) {
            return Some(MapError::UnmappedAccess);
        }
        if !entry_present(e2) {
            return None;
        }
        let p1 = entry_frame(e2);
        proof {
            lemma_step(m, r0, p2, i2 as int);
        }
        let e1 = self.memory.read(p1, i1);
        if e1 != 0 {
            return Some(MapError::DoubleMapping);
        }
        None
    }

    /// Walk toward `page`, creating any missing P3/P2/P1 tables from
    /// `allocator`, and hand back the three table frames on its path.
    /// Callers rule out huge mappings on the path first, so the only
    /// failure left is an exhausted allocator.
    #[verifier::rlimit(100)]
    fn create_chain<A: FrameAllocator>(
        &mut self,
        page: Page,
        allocator: &mut A,
    ) -> (r: Result<(u64, u64, u64), MapError>)
        requires
            old(self).inv(),
            old(allocator).inv(),
            page.spec_p4_index() != 511,
            !huge_blocked(
                old(self).mem(),
                old(self).wroot(),
                page.spec_p4_index(),
                page.spec_p3_index(),
                page.spec_p2_index(),
            ),
            chain_exists(
                old(self).mem(),
                old(self).wroot(),
                page.spec_p4_index(),
                page.spec_p3_index(),
                page.spec_p2_index(),
            ) || (forall|n: u64|
                old(allocator).avail().contains(n) ==> !old(self).mem().dom().contains(n)),
        ensures
            final(self).inv(),
            final(allocator).inv(),
            final(self).spec_p4_frame() == old(self).spec_p4_frame(),
            final(self).wroot() == old(self).wroot(),
            final(allocator).avail().subset_of(old(allocator).avail()),
            (forall|n: u64|
                old(allocator).avail().contains(n) ==> !old(self).mem().dom().contains(n))
                ==> (forall|n: u64|
                final(allocator).avail().contains(n) ==> !final(self).mem().dom().contains(n)),
            forall|f: u64|
                old(self).mem().dom().contains(f) ==> final(self).mem().dom().contains(f) && final(self).roles()[f] == old(self).roles()[f],
            forall|f: u64|
                final(self).mem().dom().contains(f) && !old(self).mem().dom().contains(f) ==> old(allocator).avail().contains(f),
            forall|f: u64|
                old(self).mem().dom().contains(f) && old(self).roles()[f] == Role::Root ==> final(self).mem()[f][511] == old(self).mem()[f][511],
            translations_preserved(old(self).mem(), old(self).roles(), final(self).mem()),
            ({
                let m0 = old(self).mem();
                let w = old(self).wroot();
                let i4 = page.spec_p4_index();
                let i3 = page.spec_p3_index();
                let i2 = page.spec_p2_index();
                match r {
                    Ok(c) => {
                        &&& is_edge(final(self).mem(), w, i4) && e_frame(final(self).mem()[w][i4])
                            == c.0
                        &&& is_edge(final(self).mem(), c.0, i3) && e_frame(
                            final(self).mem()[c.0][i3],
                        ) == c.1
                        &&& is_edge(final(self).mem(), c.1, i2) && e_frame(
                            final(self).mem()[c.1][i2],
                        ) == c.2
                        &&& final(self).roles()[c.0] == (Role::Child {
                            level: 3,
                            parent: w,
                            index: i4,
                        })
                        &&& final(self).roles()[c.1] == (Role::Child {
                            level: 2,
                            parent: c.0,
                            index: i3,
                        })
                        &&& final(self).roles()[c.2] == (Role::Child {
                            level: 1,
                            parent: c.1,
                            index: i2,
                        })
                        &&& final(self).mem().dom().contains(c.2)
                        &&& (chain_exists(m0, w, i4, i3, i2) ==> final(self).mem() == m0 && c.2
                            == p1_frame_of(m0, w, i4, i3, i2) && final(allocator).avail() == old(allocator).avail())
                        &&& (!chain_exists(m0, w, i4, i3, i2) ==> final(self).mem()[c.2]
                            == zero_table())
                        &&& (!is_edge(m0, w, i4) ==> e_flags(final(self).mem()[w][i4]) == PRESENT
                            | WRITABLE)
                        &&& (is_edge(m0, w, i4) && !is_edge(m0, e_frame(m0[w][i4]), i3)
                            ==> e_flags(final(self).mem()[c.0][i3]) == PRESENT | WRITABLE)
                        &&& (is_edge(m0, w, i4) && is_edge(m0, e_frame(m0[w][i4]), i3)
                            && !is_edge(m0, e_frame(m0[e_frame(m0[w][i4])][i3]), i2) ==> e_flags(
                            final(self).mem()[c.1][i2],
                        ) == PRESENT | WRITABLE)
                    },
                    Err(e) => {
                        &&& e == MapError::OutOfMemory
                        &&& final(allocator).avail().is_empty()
                        &&& !chain_exists(m0, w, i4, i3, i2)
                    },
                }
            }),
    {
        let ghost m0 = self.mem();
        let ghost r0 = self.roles();
        let ghost w = self.wroot();
        let i4 = page.p4_index();
        let i3 = page.p3_index();
        let i2 = page.p2_index();
        let ghost i4s = page.spec_p4_index();
        let ghost i3s = page.spec_p3_index();
        let ghost i2s = page.spec_p2_index();
        let ghost a0 = old(allocator).avail();
        proof {
            assert(!(e_present(m0[w][i4s]) && e_huge(m0[w][i4s])));
        }
        let wx: u64 = entry_frame(self.memory.read(self.p4_frame, 511));
        let p3 = match self.next_table_create(wx, i4, allocator) {
            Err(e) => {
                proof {
                    assert(!e_present(m0[w][i4s]));
                    assert(!chain_exists(m0, w, i4s, i3s, i2s));
                }
                return Err(e);
            },
            Ok(f) => f,
        };
        let ghost m1 = self.mem();
        let ghost r1 = self.roles();
        let ghost installed1 = !e_present(m0[w][i4s]);
        proof {
            if installed1 {
                assert(!chain_exists(m0, w, i4s, i3s, i2s));
                assert(m1[p3] == zero_table());
                lemma_zero_entry();
                assert(!e_present(m1[p3][i3s]) && !e_huge(m1[p3][i3s]));
            } else {
                assert(m1 == m0);
                assert(is_edge(m0, w, i4s));
                assert(!(e_present(m0[p3][i3s]) && e_huge(m0[p3][i3s])));
            }
            if forall|n: u64| a0.contains(n) ==> !m0.dom().contains(n) {
                assert(forall|n: u64| allocator.avail().contains(n) ==> !m1.dom().contains(n));
            }
        }
        let p2 = match self.next_table_create(p3, i3, allocator) {
            Err(e) => {
                proof {
                    lemma_preserved_trans(m0, r0, m1, r1, self.mem());
                    assert(e == MapError::OutOfMemory);
                    assert(!e_present(m1[p3][i3s]));
                    if !installed1 {
                        assert(m1 == m0);
                    }
                    assert(!chain_exists(m0, w, i4s, i3s, i2s));
                }
                return Err(e);
            },
            Ok(f) => f,
        };
        let ghost m2 = self.mem();
        let ghost r2 = self.roles();
        let ghost installed2 = !e_present(m1[p3][i3s]);
        proof {
            lemma_preserved_trans(m0, r0, m1, r1, m2);
            assert(p3 != w);
            assert(m2[w][i4s] == m1[w][i4s]);
            assert(is_edge(m2, w, i4s) && e_frame(m2[w][i4s]) == p3);
            if installed2 {
                assert(m2[p2] == zero_table());
                lemma_zero_entry();
                assert(!e_present(m2[p2][i2s]) && !e_huge(m2[p2][i2s]));
                if !installed1 {
                    assert(m1 == m0);
                }
                assert(!chain_exists(m0, w, i4s, i3s, i2s));
            } else {
                assert(m2 == m1);
                if installed1 {
                    assert(false);
                }
                assert(m2 == m0);
                assert(!(e_present(m0[p2][i2s]) && e_huge(m0[p2][i2s])));
            }
            if forall|n: u64| a0.contains(n) ==> !m0.dom().contains(n) {
                assert(forall|n: u64| allocator.avail().contains(n) ==> !m2.dom().contains(n));
            }
        }
        let p1 = match self.next_table_create(p2, i2, allocator) {
            Err(e) => {
                proof {
                    lemma_preserved_trans(m0, r0, m2, r2, self.mem());
                    assert(e == MapError::OutOfMemory);
                    assert(!e_present(m2[p2][i2s]));
                    if !installed1 && !installed2 {
                        assert(m2 == m0);
                    }
                    assert(!chain_exists(m0, w, i4s, i3s, i2s));
                }
                return Err(e);
            },
            Ok(f) => f,
        };
        let ghost m3 = self.mem();
        let ghost installed3 = !e_present(m2[p2][i2s]);
        proof {
            lemma_preserved_trans(m0, r0, m2, r2, m3);
            assert(p2 != w && p2 != p3);
            assert(p1 != w && p1 != p3 && p1 != p2);
            assert(m3[w][i4s] == m2[w][i4s]);
            assert(m3[p3][i3s] == m2[p3][i3s]);
            assert(is_edge(m3, w, i4s) && e_frame(m3[w][i4s]) == p3);
            assert(is_edge(m3, p3, i3s) && e_frame(m3[p3][i3s]) == p2);
            assert(is_edge(m3, p2, i2s) && e_frame(m3[p2][i2s]) == p1);
            if installed3 {
                assert(m3[p1] == zero_table());
                assert(!chain_exists(m0, w, i4s, i3s, i2s));
            } else {
                if installed2 || installed1 {
                    assert(false);
                }
                assert(m3 == m0);
                assert(chain_exists(m0, w, i4s, i3s, i2s));
                assert(p1 == p1_frame_of(m0, w, i4s, i3s, i2s));
            }
            lemma_pw_bits();
            if installed1 {
                lemma_pack(p3, PRESENT | WRITABLE);
                assert(m1[w][i4s] == pack(p3, PRESENT | WRITABLE));
                assert(e_flags(m3[w][i4s]) == PRESENT | WRITABLE);
            }
            if installed2 {
                lemma_pack(p2, PRESENT | WRITABLE);
                assert(m2[p3][i3s] == pack(p2, PRESENT | WRITABLE));
                assert(e_flags(m3[p3][i3s]) == PRESENT | WRITABLE);
            }
            if installed3 {
                lemma_pack(p1, PRESENT | WRITABLE);
                assert(m3[p2][i2s] == pack(p1, PRESENT | WRITABLE));
                assert(e_flags(m3[p2][i2s]) == PRESENT | WRITABLE);
            }
            if !installed1 {
                assert(m1 == m0);
                if !installed2 {
                    assert(m2 == m0);
                }
            }
        }
        Ok((p3, p2, p1))
    }

    /// Map `page` to `frame` with the given flags (present forced on),
    /// creating intermediate tables from `allocator` on demand.
    ///
    /// On success the target P1 slot holds exactly `frame` with
    /// `flags | PRESENT`, and every other translation outside the
    /// recursive window is unchanged; new tables only occupy frames
    /// the allocator handed out.  The errors are tied to their causes:
    /// `UnmappedAccess` exactly when a huge mapping blocks the path,
    /// `DoubleMapping` exactly when the target slot is already in use,
    /// and `OutOfMemory` only when the allocator was drained while
    /// tables were missing — so success is owed whenever the path is
    /// clear, the slot is unused, and no table is missing.  A failed
    /// call leaves every translation unchanged.
    #[verifier::rlimit(100)]
    pub fn map_to<A: FrameAllocator>(
        &mut self,
        page: Page,
        frame: Frame,
        flags: EntryFlags,
        allocator: &mut A,
    ) -> (r: Result<(), MapError>)
        requires
            old(self).inv(),
            old(allocator).inv(),
            page.spec_p4_index() != 511,
            frame.number < FRAME_LIMIT,
            flags_fit(flags.bits),
            chain_exists(
                old(self).mem(),
                old(self).wroot(),
                page.spec_p4_index(),
                page.spec_p3_index(),
                page.spec_p2_index(),
            ) || (forall|n: u64|
                old(allocator).avail().contains(n) ==> !old(self).mem().dom().contains(n)),
        ensures
            final(self).inv(),
            final(allocator).inv(),
            final(self).spec_p4_frame() == old(self).spec_p4_frame(),
            final(self).wroot() == old(self).wroot(),
            final(allocator).avail().subset_of(old(allocator).avail()),
            (forall|n: u64|
                old(allocator).avail().contains(n) ==> !old(self).mem().dom().contains(n))
                ==> (forall|n: u64|
                final(allocator).avail().contains(n) ==> !final(self).mem().dom().contains(n)),
            forall|f: u64|
                old(self).mem().dom().contains(f) ==> final(self).mem().dom().contains(f) && final(self).roles()[f] == old(self).roles()[f],
            forall|f: u64|
                final(self).mem().dom().contains(f) && !old(self).mem().dom().contains(f) ==> old(allocator).avail().contains(f),
            forall|f: u64|
                old(self).mem().dom().contains(f) && old(self).roles()[f] == Role::Root ==> final(self).mem()[f][511] == old(self).mem()[f][511],
            ({
                let m0 = old(self).mem();
                let r0 = old(self).roles();
                let w = old(self).wroot();
                let i4 = page.spec_p4_index();
                let i3 = page.spec_p3_index();
                let i2 = page.spec_p2_index();
                let i1 = page.spec_p1_index();
                match r {
                    Ok(()) => {
                        &&& spec_translate_idx(final(self).mem(), w, i4, i3, i2, i1) == Some(
                            frame.number,
                        )
                        // The written P1 slot holds exactly the frame
                        // and flags asked for, with PRESENT forced on.
                        &&& spec_leaf_idx(final(self).mem(), w, i4, i3, i2, i1) == Some(
                            pack(frame.number, flags.bits | PRESENT),
                        )
                        &&& !huge_blocked(m0, w, i4, i3, i2)
                        &&& !spec_leaf_nonzero(m0, w, i4, i3, i2, i1)
                        // No table missing means no allocation at all;
                        // freshly created tables hang from entries
                        // installed present and writable.
                        &&& (chain_exists(m0, w, i4, i3, i2) ==> final(allocator).avail() == old(allocator).avail())
                        &&& (!is_edge(m0, w, i4) ==> e_flags(final(self).mem()[w][i4]) == PRESENT
                            | WRITABLE)
                        &&& (is_edge(m0, w, i4) && !is_edge(m0, e_frame(m0[w][i4]), i3)
                            ==> e_flags(
                            final(self).mem()[e_frame(final(self).mem()[w][i4])][i3],
                        ) == PRESENT | WRITABLE)
                        &&& (is_edge(m0, w, i4) && is_edge(m0, e_frame(m0[w][i4]), i3)
                            && !is_edge(m0, e_frame(m0[e_frame(m0[w][i4])][i3]), i2) ==> e_flags(
                            final(self).mem()[e_frame(
                                final(self).mem()[e_frame(final(self).mem()[w][i4])][i3],
                            )][i2],
                        ) == PRESENT | WRITABLE)
                        &&& translations_preserved_except(
                            m0,
                            r0,
                            final(self).mem(),
                            w,
                            i4,
                            i3,
                            i2,
                            i1,
                        )
                    },
                    Err(e) => {
                        &&& translations_preserved(m0, r0, final(self).mem())
                        &&& (e == MapError::UnmappedAccess <==> huge_blocked(m0, w, i4, i3, i2))
                        &&& (e == MapError::DoubleMapping <==> !huge_blocked(m0, w, i4, i3, i2)
                            && spec_leaf_nonzero(m0, w, i4, i3, i2, i1))
                        &&& (e == MapError::OutOfMemory ==> final(allocator).avail().is_empty()
                            && !chain_exists(m0, w, i4, i3, i2) && !huge_blocked(m0, w, i4, i3, i2))
                        &&& (e == MapError::OutOfMemory || e == MapError::UnmappedAccess || e
                            == MapError::DoubleMapping)
                    },
                }
            }),
    {
        let ghost m0 = self.mem();
        let ghost r0 = self.roles();
        let ghost w = self.wroot();
        let ghost i4s = page.spec_p4_index();
        let ghost i3s = page.spec_p3_index();
        let ghost i2s = page.spec_p2_index();
        let i1 = page.p1_index();
        // First classify the path, exactly as the original's entry
        // assertions would: this touches nothing.
        match self.check_path(page) {
            Some(e) => {
                proof {
                    lemma_preserved_refl(m0, r0);
                }
                return Err(e);
            },
            None => {},
        }
        let (p3, p2, p1) = match self.create_chain(page, allocator) {
            Err(e) => {
                proof {
                    reveal(spec_leaf_nonzero);
                }
                return Err(e);
            },
            Ok(c) => c,
        };
        let ghost m3 = self.mem();
        let ghost r3 = self.roles();
        let ghost chain0 = chain_exists(m0, w, i4s, i3s, i2s);
        proof {
            reveal(spec_leaf_nonzero);
            if chain0 {
                assert(m3 == m0);
                assert(p1 == p1_frame_of(m0, w, i4s, i3s, i2s));
                assert(m3[p1][i1 as int] == 0);
            } else {
                assert(m3[p1] == zero_table());
                assert(m3[p1][i1 as int] == 0);
            }
        }
        let fb: u64 = flags.bits();
        proof {
            lemma_or_present(flags.bits);
            lemma_pack(frame.number, flags.bits | PRESENT);
        }
        let v = pack_entry(frame.number, fb | PRESENT);
        self.memory.write(p1, i1, v);
        proof {
            let m4 = self.mem();
            lemma_forest_leaf_write(m3, r3, p1, i1 as int, v);
            assert(m4 =~= m3.insert(p1, m3[p1].update(i1 as int, v)));
            assert(p1 != w && p1 != p3 && p1 != p2);
            assert(m4[w][i4s] == m3[w][i4s]);
            assert(m4[p3][i3s] == m3[p3][i3s]);
            assert(m4[p2][i2s] == m3[p2][i2s]);
            assert(m4[p1][i1 as int] == v);
            assert(e_present(v) && e_frame(v) == frame.number);
            assert(is_edge(m4, w, i4s) && e_frame(m4[w][i4s]) == p3);
            assert(is_edge(m4, p3, i3s) && e_frame(m4[p3][i3s]) == p2);
            assert(is_edge(m4, p2, i2s) && e_frame(m4[p2][i2s]) == p1);
            assert(p1_frame_of(m4, w, i4s, i3s, i2s) == p1);
            lemma_chain_target(m4, w, i4s, i3s, i2s, i1 as int);
            assert(v == pack(frame.number, flags.bits | PRESENT));
            assert(spec_leaf_idx(m4, w, i4s, i3s, i2s, i1 as int) == Some(v)) by {
                reveal(spec_leaf_idx);
            }
            assert forall|t: u64, j4: int, j3: int, j2: int, j1: int|
                m0.dom().contains(t) && r0[t] == Role::Root && 0 <= j4 < 511 && 0 <= j3 < 512 && 0
                    <= j2 < 512 && 0 <= j1 < 512 && !(t == w && j4 == i4s && j3 == i3s && j2 == i2s
                    && j1 == i1 as int) implies #[trigger] spec_translate_idx(m4, t, j4, j3, j2, j1)
                == spec_translate_idx(m0, t, j4, j3, j2, j1) && (spec_leaf_nonzero(
                m0,
                t,
                j4,
                j3,
                j2,
                j1,
            ) ==> spec_leaf_idx(m4, t, j4, j3, j2, j1) == spec_leaf_idx(m0, t, j4, j3, j2, j1)) by {
                reveal(translations_preserved);
                reveal(spec_leaf_idx);
                reveal(spec_leaf_nonzero);
                assert(m3.dom().contains(t) && r3[t] == Role::Root);
                assert(parent_of(r3, p1) == p2 && index_of(r3, p1) == i2s);
                assert(parent_of(r3, p2) == p3 && index_of(r3, p2) == i3s);
                assert(parent_of(r3, p3) == w && index_of(r3, p3) == i4s);
                assert(level_of(r3, p2) == 2 && level_of(r3, p3) == 3);
                lemma_leaf_write_preserves(m3, r3, p1, i1 as int, v, t, j4, j3, j2, j1);
                assert(spec_translate_idx(m3, t, j4, j3, j2, j1) == spec_translate_idx(m0, t, j4, j3, j2, j1));
                if spec_leaf_nonzero(m0, t, j4, j3, j2, j1) {
                    assert(spec_leaf_idx(m3, t, j4, j3, j2, j1) == spec_leaf_idx(m0, t, j4, j3, j2, j1));
                    assert(spec_leaf_nonzero(m3, t, j4, j3, j2, j1));
                }
            }
            assert(translations_preserved_except(
                m0,
                r0,
                m4,
                w,
                i4s,
                i3s,
                i2s,
                i1 as int,
            )) by {
                reveal(translations_preserved_except);
            }
            assert(self.mem()[self.spec_p4_frame()][511] == m3[self.spec_p4_frame()][511]);
        }
        Ok(())
    }
}

impl Mapper {
    /// Allocate a frame and map `page` to it.
    pub fn map<A: FrameAllocator>(
        &mut self,
        page: Page,
        flags: EntryFlags,
        allocator: &mut A,
    ) -> (r: Result<(), MapError>)
        requires
            old(self).inv(),
            old(allocator).inv(),
            page.spec_p4_index() != 511,
            flags_fit(flags.bits),
            forall|n: u64|
                old(allocator).avail().contains(n) ==> !old(self).mem().dom().contains(n),
        ensures
            final(self).inv(),
            final(allocator).inv(),
            final(self).spec_p4_frame() == old(self).spec_p4_frame(),
            final(self).wroot() == old(self).wroot(),
            final(allocator).avail().subset_of(old(allocator).avail()),
            (forall|n: u64|
                old(allocator).avail().contains(n) ==> !old(self).mem().dom().contains(n))
                ==> (forall|n: u64|
                final(allocator).avail().contains(n) ==> !final(self).mem().dom().contains(n)),
            forall|f: u64|
                old(self).mem().dom().contains(f) ==> final(self).mem().dom().contains(f) && final(self).roles()[f] == old(self).roles()[f],
            forall|f: u64|
                old(self).mem().dom().contains(f) && old(self).roles()[f] == Role::Root ==> final(self).mem()[f][511] == old(self).mem()[f][511],
            ({
                let m0 = old(self).mem();
                let w = old(self).wroot();
                let i4 = page.spec_p4_index();
                let i3 = page.spec_p3_index();
                let i2 = page.spec_p2_index();
                let i1 = page.spec_p1_index();
                match r {
                    // The mapped frame is one the allocator handed out,
                    // and its slot carries exactly the asked-for flags.
                    Ok(()) => exists|n: u64|
                        old(allocator).avail().contains(n) && !final(allocator).avail().contains(n)
                            && spec_translate_idx(final(self).mem(), w, i4, i3, i2, i1) == Some(n)
                            && spec_leaf_idx(final(self).mem(), w, i4, i3, i2, i1) == Some(
                            pack(n, flags.bits | PRESENT),
                        ) && translations_preserved_except(
                            m0,
                            old(self).roles(),
                            final(self).mem(),
                            w,
                            i4,
                            i3,
                            i2,
                            i1,
                        ),
                    Err(e) => {
                        &&& translations_preserved(m0, old(self).roles(), final(self).mem())
                        &&& (e == MapError::UnmappedAccess ==> huge_blocked(m0, w, i4, i3, i2))
                        &&& (e == MapError::DoubleMapping ==> !huge_blocked(m0, w, i4, i3, i2)
                            && spec_leaf_nonzero(m0, w, i4, i3, i2, i1))
                        &&& (e == MapError::OutOfMemory ==> final(allocator).avail().is_empty())
                        &&& (e == MapError::OutOfMemory || e == MapError::UnmappedAccess || e
                            == MapError::DoubleMapping)
                    },
                }
            }),
    {
        match allocator.allocate_frame() {
            None => {
                proof {
                    lemma_preserved_refl(self.mem(), self.roles());
                }
                Err(MapError::OutOfMemory)
            },
            Some(frame) => {
                let r = self.map_to(page, frame, EntryFlags { bits: flags.bits }, allocator);
                proof {
                    if r is Ok {
                        assert(old(allocator).avail().contains(frame.number));
                    }
                }
                r
            },
        }
    }

    /// Map the page whose virtual address equals the frame's physical
    /// address: used for bootstrap regions only.
    pub fn identity_map<A: FrameAllocator>(
        &mut self,
        frame: Frame,
        flags: EntryFlags,
        allocator: &mut A,
    ) -> (r: Result<(), MapError>)
        requires
            old(self).inv(),
            old(allocator).inv(),
            frame.number < 0x8_0000_0000,
            flags_fit(flags.bits),
            forall|n: u64|
                old(allocator).avail().contains(n) ==> !old(self).mem().dom().contains(n),
        ensures
            final(self).inv(),
            final(allocator).inv(),
            final(self).spec_p4_frame() == old(self).spec_p4_frame(),
            final(self).wroot() == old(self).wroot(),
            final(allocator).avail().subset_of(old(allocator).avail()),
            (forall|n: u64|
                old(allocator).avail().contains(n) ==> !old(self).mem().dom().contains(n))
                ==> (forall|n: u64|
                final(allocator).avail().contains(n) ==> !final(self).mem().dom().contains(n)),
            forall|f: u64|
                old(self).mem().dom().contains(f) ==> final(self).mem().dom().contains(f) && final(self).roles()[f] == old(self).roles()[f],
            forall|f: u64|
                old(self).mem().dom().contains(f) && old(self).roles()[f] == Role::Root ==> final(self).mem()[f][511] == old(self).mem()[f][511],
            ({
                let m0 = old(self).mem();
                let w = old(self).wroot();
                let page = Page { number: frame.number };
                let i4 = page.spec_p4_index();
                let i3 = page.spec_p3_index();
                let i2 = page.spec_p2_index();
                let i1 = page.spec_p1_index();
                match r {
                    Ok(()) => {
                        &&& spec_translate_idx(final(self).mem(), w, i4, i3, i2, i1) == Some(
                            frame.number,
                        )
                        &&& spec_leaf_idx(final(self).mem(), w, i4, i3, i2, i1) == Some(
                            pack(frame.number, flags.bits | PRESENT),
                        )
                        &&& !huge_blocked(m0, w, i4, i3, i2)
                        &&& !spec_leaf_nonzero(m0, w, i4, i3, i2, i1)
                        &&& translations_preserved_except(
                            m0,
                            old(self).roles(),
                            final(self).mem(),
                            w,
                            i4,
                            i3,
                            i2,
                            i1,
                        )
                    },
                    Err(e) => {
                        &&& translations_preserved(m0, old(self).roles(), final(self).mem())
                        &&& (e == MapError::UnmappedAccess <==> huge_blocked(m0, w, i4, i3, i2))
                        &&& (e == MapError::DoubleMapping <==> !huge_blocked(m0, w, i4, i3, i2)
                            && spec_leaf_nonzero(m0, w, i4, i3, i2, i1))
                        &&& (e == MapError::OutOfMemory ==> final(allocator).avail().is_empty()
                            && !chain_exists(m0, w, i4, i3, i2) && !huge_blocked(m0, w, i4, i3, i2))
                        &&& (e == MapError::OutOfMemory || e == MapError::UnmappedAccess || e
                            == MapError::DoubleMapping)
                    },
                }
            }),
    {
        proof {
            assert(frame.number * 4096 < 0x0000_8000_0000_0000) by (nonlinear_arith)
                requires
                    frame.number < 0x8_0000_0000u64,
            ;
            assert(frame.number / 0x800_0000 < 512) by (nonlinear_arith)
                requires
                    frame.number < 0x8_0000_0000u64,
            ;
        }
        let addr: u64 = frame.start_address();
        let page = Page::containing_address(addr);
        proof {
            assert(page.number == frame.number);
        }
        self.map_to(page, frame, EntryFlags { bits: flags.bits }, allocator)
    }

    /// Remove the 4KiB mapping for `page`, hand its frame back to
    /// `allocator`, and return the frame.  A missing intermediate
    /// table, a huge mapping, or an absent leaf gives
    /// `UnmappedAccess` and changes nothing.
    #[verifier::rlimit(100)]
    pub fn unmap<A: FrameAllocator>(
        &mut self,
        page: Page,
        allocator: &mut A,
    ) -> (r: Result<Frame, MapError>)
        requires
            old(self).inv(),
            old(allocator).inv(),
            old(allocator).can_accept(),
            page.spec_p4_index() != 511,
        ensures
            final(self).inv(),
            final(allocator).inv(),
            final(self).spec_p4_frame() == old(self).spec_p4_frame(),
            final(self).wroot() == old(self).wroot(),
            final(self).mem().dom() == old(self).mem().dom(),
            final(self).roles() == old(self).roles(),
            forall|f: u64|
                old(self).mem().dom().contains(f) && old(self).roles()[f] == Role::Root ==> final(self).mem()[f][511] == old(self).mem()[f][511],
            match r {
                Ok(f) => chain_exists(
                    old(self).mem(),
                    old(self).wroot(),
                    page.spec_p4_index(),
                    page.spec_p3_index(),
                    page.spec_p2_index(),
                ) && e_present(
                    old(self).mem()[p1_frame_of(
                        old(self).mem(),
                        old(self).wroot(),
                        page.spec_p4_index(),
                        page.spec_p3_index(),
                        page.spec_p2_index(),
                    )][page.spec_p1_index()],
                ) && spec_translate_idx(
                    old(self).mem(),
                    old(self).wroot(),
                    page.spec_p4_index(),
                    page.spec_p3_index(),
                    page.spec_p2_index(),
                    page.spec_p1_index(),
                ) == Some(f.number) && spec_translate_idx(
                    final(self).mem(),
                    old(self).wroot(),
                    page.spec_p4_index(),
                    page.spec_p3_index(),
                    page.spec_p2_index(),
                    page.spec_p1_index(),
                ) is None && translations_preserved_except(
                    old(self).mem(),
                    old(self).roles(),
                    final(self).mem(),
                    old(self).wroot(),
                    page.spec_p4_index(),
                    page.spec_p3_index(),
                    page.spec_p2_index(),
                    page.spec_p1_index(),
                ) && final(allocator).avail().subset_of(
                    old(allocator).avail().insert(f.number),
                ),
                Err(e) => final(self).mem() == old(self).mem() && final(allocator).avail() == old(allocator).avail() && e == MapError::UnmappedAccess && !(chain_exists(
                    old(self).mem(),
                    old(self).wroot(),
                    page.spec_p4_index(),
                    page.spec_p3_index(),
                    page.spec_p2_index(),
                ) && e_present(
                    old(self).mem()[p1_frame_of(
                        old(self).mem(),
                        old(self).wroot(),
                        page.spec_p4_index(),
                        page.spec_p3_index(),
                        page.spec_p2_index(),
                    )][page.spec_p1_index()])),
            },
    {
        let ghost m0 = self.mem();
        let ghost r0 = self.roles();
        let ghost w = self.wroot();
        let i4 = page.p4_index();
        let i3 = page.p3_index();
        let i2 = page.p2_index();
        let i1 = page.p1_index();
        let ghost i4s = page.spec_p4_index();
        let ghost i3s = page.spec_p3_index();
        let ghost i2s = page.spec_p2_index();
        let wx: u64 = entry_frame(self.memory.read(self.p4_frame, 511));
        let e4 = self.memory.read(wx, i4);
        if !(entry_present(e4) && !entry_huge(e4)) {
            return Err(MapError::UnmappedAccess);
        }
        let p3 = entry_frame(e4);
        proof {
            lemma_step(m0, r0, wx, i4 as int);
        }
        let e3 = self.memory.read(p3, i3);
        if !(entry_present(e3) && !entry_huge(e3)) {
            return Err(MapError::UnmappedAccess);
        }
        let p2 = entry_frame(e3);
        proof {
            lemma_step(m0, r0, p3, i3 as int);
        }
        let e2 = self.memory.read(p2, i2);
        if !(entry_present(e2) && !entry_huge(e2)) {
            return Err(MapError::UnmappedAccess);
        }
        let p1 = entry_frame(e2);
        proof {
            lemma_step(m0, r0, p2, i2 as int);
            assert(p1 == p1_frame_of(m0, w, i4s, i3s, i2s));
        }
        let e1 = self.memory.read(p1, i1);
        if !entry_present(e1) {
            proof {
                lemma_chain_target(m0, w, i4s, i3s, i2s, i1 as int);
            }
            return Err(MapError::UnmappedAccess);
        }
        let frame = Frame { number: entry_frame(e1) };
        proof {
            lemma_chain_target(m0, w, i4s, i3s, i2s, i1 as int);
            lemma_entry_frame_bound(e1);
        }
        self.memory.write(p1, i1, 0);
        proof {
            let m4 = self.mem();
            lemma_forest_leaf_write(m0, r0, p1, i1 as int, 0);
            lemma_zero_entry();
            assert(m4 =~= m0.insert(p1, m0[p1].update(i1 as int, 0)));
            assert(m4[w][i4s] == m0[w][i4s]);
            assert(p1 != w && p1 != p3 && p1 != p2);
            assert(m4[p3][i3s] == m0[p3][i3s]);
            assert(m4[p2][i2s] == m0[p2][i2s]);
            assert(m4[p1][i1 as int] == 0);
            assert(is_edge(m4, w, i4s) && e_frame(m4[w][i4s]) == p3);
            assert(is_edge(m4, p3, i3s) && e_frame(m4[p3][i3s]) == p2);
            assert(is_edge(m4, p2, i2s) && e_frame(m4[p2][i2s]) == p1);
            assert(p1_frame_of(m4, w, i4s, i3s, i2s) == p1);
            lemma_chain_target(m4, w, i4s, i3s, i2s, i1 as int);
            assert forall|t: u64, j4: int, j3: int, j2: int, j1: int|
                m0.dom().contains(t) && r0[t] == Role::Root && 0 <= j4 < 511 && 0 <= j3 < 512 && 0
                    <= j2 < 512 && 0 <= j1 < 512 && !(t == w && j4 == i4s && j3 == i3s && j2 == i2s
                    && j1 == i1 as int) implies #[trigger] spec_translate_idx(m4, t, j4, j3, j2, j1)
                == spec_translate_idx(m0, t, j4, j3, j2, j1) && (spec_leaf_nonzero(
                m0,
                t,
                j4,
                j3,
                j2,
                j1,
            ) ==> spec_leaf_idx(m4, t, j4, j3, j2, j1) == spec_leaf_idx(m0, t, j4, j3, j2, j1)) by {
                assert(parent_of(r0, p1) == p2 && index_of(r0, p1) == i2s);
                assert(parent_of(r0, p2) == p3 && index_of(r0, p2) == i3s);
                assert(parent_of(r0, p3) == w && index_of(r0, p3) == i4s);
                assert(level_of(r0, p2) == 2 && level_of(r0, p3) == 3);
                lemma_leaf_write_preserves(m0, r0, p1, i1 as int, 0, t, j4, j3, j2, j1);
            }
            assert(translations_preserved_except(
                m0,
                r0,
                m4,
                w,
                i4s,
                i3s,
                i2s,
                i1 as int,
            )) by {
                reveal(translations_preserved_except);
            }
            assert(self.mem().dom() =~= m0.dom());
            assert(self.mem()[self.spec_p4_frame()][511] == m0[self.spec_p4_frame()][511]);
        }
        allocator.deallocate_frame(frame);
        Ok(frame)
    }

    /// Redirect the recursive slot of the loaded root at `target`,
    /// retargeting every later operation at that root's tree.
    pub fn set_recursive_slot(&mut self, target: u64)
        requires
            old(self).inv(),
            target < FRAME_LIMIT,
            target == old(self).spec_p4_frame() || old(self).is_self_mapped_root(target),
        ensures
            final(self).inv(),
            final(self).spec_p4_frame() == old(self).spec_p4_frame(),
            final(self).wroot() == target,
            final(self).roles() == old(self).roles(),
            final(self).mem().dom() == old(self).mem().dom(),
            forall|f: u64|
                old(self).mem().dom().contains(f) && f != old(self).spec_p4_frame() ==> final(self).mem()[f] == old(self).mem()[f],
            translations_preserved(old(self).mem(), old(self).roles(), final(self).mem()),
    {
        let ghost m0 = self.mem();
        let ghost r0 = self.roles();
        proof {
            lemma_pw_bits();
            lemma_pack(target, PRESENT | WRITABLE);
        }
        let v = pack_entry(target, PRESENT | WRITABLE);
        self.memory.write(self.p4_frame, 511, v);
        proof {
            lemma_forest_root_slot(m0, r0, self.p4_frame, v);
            assert(self.mem() =~= m0.insert(self.p4_frame, m0[self.p4_frame].update(511, v)));
            assert(self.mem().dom() =~= m0.dom());
            assert forall|t: u64, j4: int, j3: int, j2: int, j1: int|
                m0.dom().contains(t) && r0[t] == Role::Root && 0 <= j4 < 511 && 0 <= j3 < 512 && 0
                    <= j2 < 512 && 0 <= j1 < 512 implies #[trigger] spec_translate_idx(
                self.mem(),
                t,
                j4,
                j3,
                j2,
                j1,
            ) == spec_translate_idx(m0, t, j4, j3, j2, j1) && (spec_leaf_nonzero(
                m0,
                t,
                j4,
                j3,
                j2,
                j1,
            ) ==> spec_leaf_idx(self.mem(), t, j4, j3, j2, j1) == spec_leaf_idx(m0, t, j4, j3, j2, j1)) by {
                lemma_root_slot_preserves(m0, r0, self.p4_frame, v, t, j4, j3, j2, j1);
            }
            assert(translations_preserved(m0, r0, self.mem())) by {
                reveal(translations_preserved);
            }
        }
    }

    /// Put a cleared, self-mapped root table into the unused frame
    /// `target`, leaving every existing translation alone.
    pub fn install_root_table(&mut self, target: Frame)
        requires
            old(self).inv(),
            target.number < FRAME_LIMIT,
            !old(self).mem().dom().contains(target.number),
        ensures
            final(self).inv(),
            final(self).spec_p4_frame() == old(self).spec_p4_frame(),
            final(self).wroot() == old(self).wroot(),
            final(self).is_self_mapped_root(target.number),
            final(self).mem()[target.number][511] == pack(target.number, PRESENT | WRITABLE),
            final(self).mem().dom() == old(self).mem().dom().insert(target.number),
            forall|f: u64|
                old(self).mem().dom().contains(f) ==> final(self).mem()[f] == old(self).mem()[f] && final(self).roles()[f] == old(self).roles()[f],
            forall|i: int|
                0 <= i < 511 ==> final(self).mem()[target.number][i] == 0,
            translations_preserved(old(self).mem(), old(self).roles(), final(self).mem()),
    {
        let ghost m0 = self.mem();
        let ghost r0 = self.roles();
        let c = target.number;
        proof {
            lemma_pw_bits();
            lemma_pack(c, PRESENT | WRITABLE);
        }
        self.memory.install_zeroed(c);
        let v = pack_entry(c, PRESENT | WRITABLE);
        self.memory.write(c, 511, v);
        proof {
            self.roles@ = r0.insert(c, Role::Root);
            lemma_forest_new_root(m0, r0, c, v);
            assert(self.mem() =~= m0.insert(c, zero_table().update(511, v)));
            assert(self.mem().dom() =~= m0.dom().insert(c));
            assert forall|t: u64, j4: int, j3: int, j2: int, j1: int|
                m0.dom().contains(t) && r0[t] == Role::Root && 0 <= j4 < 511 && 0 <= j3 < 512 && 0
                    <= j2 < 512 && 0 <= j1 < 512 implies #[trigger] spec_translate_idx(
                self.mem(),
                t,
                j4,
                j3,
                j2,
                j1,
            ) == spec_translate_idx(m0, t, j4, j3, j2, j1) && (spec_leaf_nonzero(
                m0,
                t,
                j4,
                j3,
                j2,
                j1,
            ) ==> spec_leaf_idx(self.mem(), t, j4, j3, j2, j1) == spec_leaf_idx(m0, t, j4, j3, j2, j1)) by {
                lemma_new_root_preserves(m0, r0, c, v, t, j4, j3, j2, j1);
            }
            assert(translations_preserved(m0, r0, self.mem())) by {
                reveal(translations_preserved);
            }
        }
    }

    /// The loaded root frame, as a value.
    pub fn p4_frame_number(&self) -> (r: u64)
        ensures
            r == self.spec_p4_frame(),
    {
        self.p4_frame
    }

    /// Load `new_root` as the root the hardware walks, returning the
    /// previously loaded root frame.
    pub fn switch_root(&mut self, new_root: u64) -> (r: u64)
        requires
            old(self).inv(),
            old(self).is_self_mapped_root(new_root),
        ensures
            final(self).inv(),
            final(self).spec_p4_frame() == new_root,
            final(self).wroot() == new_root,
            final(self).mem() == old(self).mem(),
            final(self).roles() == old(self).roles(),
            r == old(self).spec_p4_frame(),
    {
        let old_root = self.p4_frame;
        self.p4_frame = new_root;
        old_root
    }
}

/// Instantiate preservation at one walk: the translation is unchanged,
/// and an in-use P1 slot keeps its contents and stays in use.
pub proof fn lemma_preserved_at(
    m1: Map<u64, Seq<u64>>,
    r1: Map<u64, Role>,
    m2: Map<u64, Seq<u64>>,
    t: u64,
    j4: int,
    j3: int,
    j2: int,
    j1: int,
)
    requires
        translations_preserved(m1, r1, m2),
        m1.dom().contains(t),
        r1[t] == Role::Root,
        0 <= j4 < 511,
        0 <= j3 < 512,
        0 <= j2 < 512,
        0 <= j1 < 512,
    ensures
        spec_translate_idx(m2, t, j4, j3, j2, j1) == spec_translate_idx(m1, t, j4, j3, j2, j1),
        spec_leaf_nonzero(m1, t, j4, j3, j2, j1) ==> spec_leaf_idx(m2, t, j4, j3, j2, j1)
            == spec_leaf_idx(m1, t, j4, j3, j2, j1) && spec_leaf_nonzero(m2, t, j4, j3, j2, j1),
{
    reveal(translations_preserved);
    reveal(spec_leaf_idx);
    reveal(spec_leaf_nonzero);
}

/// Instantiate preservation-except at one walk other than the changed
/// one.
pub proof fn lemma_preserved_except_at(
    m1: Map<u64, Seq<u64>>,
    r1: Map<u64, Role>,
    m2: Map<u64, Seq<u64>>,
    w: u64,
    e4: int,
    e3: int,
    e2: int,
    e1: int,
    t: u64,
    j4: int,
    j3: int,
    j2: int,
    j1: int,
)
    requires
        translations_preserved_except(m1, r1, m2, w, e4, e3, e2, e1),
        m1.dom().contains(t),
        r1[t] == Role::Root,
        0 <= j4 < 511,
        0 <= j3 < 512,
        0 <= j2 < 512,
        0 <= j1 < 512,
        !(t == w && j4 == e4 && j3 == e3 && j2 == e2 && j1 == e1),
    ensures
        spec_translate_idx(m2, t, j4, j3, j2, j1) == spec_translate_idx(m1, t, j4, j3, j2, j1),
        spec_leaf_nonzero(m1, t, j4, j3, j2, j1) ==> spec_leaf_idx(m2, t, j4, j3, j2, j1)
            == spec_leaf_idx(m1, t, j4, j3, j2, j1) && spec_leaf_nonzero(m2, t, j4, j3, j2, j1),
{
    reveal(translations_preserved_except);
    reveal(spec_leaf_idx);
    reveal(spec_leaf_nonzero);
}

/// A P1 slot holding a nonzero value is in use.
pub proof fn lemma_leaf_some_nonzero(
    mem: Map<u64, Seq<u64>>,
    w: u64,
    i4: int,
    i3: int,
    i2: int,
    i1: int,
    v: u64,
)
    requires
        spec_leaf_idx(mem, w, i4, i3, i2, i1) == Some(v),
        v != 0,
    ensures
        spec_leaf_nonzero(mem, w, i4, i3, i2, i1),
{
    reveal(spec_leaf_idx);
    reveal(spec_leaf_nonzero);
}

/// A root whose slots below the recursive one are all clear maps
/// nothing outside the recursive window.
pub proof fn lemma_empty_root_translates_none(
    mem: Map<u64, Seq<u64>>,
    f: u64,
    j4: int,
    j3: int,
    j2: int,
    j1: int,
)
    requires
        forall|i: int| 0 <= i < 511 ==> mem[f][i] == 0,
        0 <= j4 < 511,
    ensures
        spec_translate_idx(mem, f, j4, j3, j2, j1) is None,
        !spec_leaf_nonzero(mem, f, j4, j3, j2, j1),
{
    reveal(spec_translate_idx);
    reveal(spec_leaf_nonzero);
    lemma_zero_entry();
    assert(mem[f][j4] == 0);
}

} // verus!
