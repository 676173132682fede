//! The arena of page tables: physical memory holding table data, indexed
//! by frame number.  A table is a fixed 512-slot record; reading or
//! writing a slot goes through the frame number that holds the table.

use vstd::prelude::*;
use vstd::hash_map::HashMapWithView;
use crate::entry::Entry;

verus! {

broadcast use vstd::std_specs::hash::group_hash_axioms;

/// Number of entries in each page table.
pub const ENTRY_COUNT: usize = 512;

/// Contents of a table whose slots are all clear.
pub open spec fn zero_table() -> Seq<u64> {
    Seq::new(512, |i: int| 0u64)
}

/// A 512-slot page table.
pub struct Table {
    pub entries: Vec<Entry>,
}

impl View for Table {
    type V = Seq<u64>;

    open spec fn view(&self) -> Seq<u64> {
        self.entries@.map_values(|e: Entry| e.0)
    }
}

impl Table {
    /// A table with every slot clear.
    pub fn new() -> (r: Table)
        ensures
            r@ == zero_table(),
    {
        let t = Table { entries: vec![Entry(0u64); 512] };
        proof {
            assert(t@ =~= zero_table());
        }
        t
    }

    /// Clear every slot.
    pub fn zero(&mut self)
        ensures
            final (self)@ == zero_table(),
    {
        self.entries = vec![Entry(0u64); 512];
        proof {
            assert(self@ =~= zero_table());
        }
    }
}

/// Page-table memory: for each frame that holds a table, its 512 slots.
pub struct TableArena {
    tables: HashMapWithView<u64, Table>,
}

impl View for TableArena {
    type V = Map<u64, Seq<u64>>;

    closed spec fn view(&self) -> Map<u64, Seq<u64>> {
        self.tables@.map_values(|t: Table| t@)
    }
}

impl TableArena {
    /// Every table in the arena has exactly 512 slots.
    pub open spec fn wf(&self) -> bool {
        forall|f: u64| #[trigger] self@.dom().contains(f) ==> self@[f].len() == 512
    }

    /// Empty memory: no frame holds a table yet.
    pub fn new() -> (r: TableArena)
        ensures
            r@ == Map::<u64, Seq<u64>>::empty(),
            r.wf(),
    {
        let r = TableArena { tables: HashMapWithView::new() };
        proof {
            assert(r@ =~= Map::<u64, Seq<u64>>::empty());
        }
        r
    }

    /// Whether `frame` holds a table.
    pub fn contains(&self, frame: u64) -> (r: bool)
        ensures
            r == self@.dom().contains(frame),
    {
        self.tables.contains_key(&frame)
    }

    /// Slot `index` of the table in `frame`.
    pub fn read(&self, frame: u64, index: usize) -> (r: u64)
        requires
            self.wf(),
            self@.dom().contains(frame),
            index < 512,
        ensures
            r == self@[frame][index as int],
    {
        match self.tables.get(&frame) {
            Some(t) => t.entries[index].0,
            None => vstd::pervasive::unreached(),
        }
    }

    /// Overwrite slot `index` of the table in `frame`.
    pub fn write(&mut self, frame: u64, index: usize, value: u64)
        requires
            old(self).wf(),
            old(self)@.dom().contains(frame),
            index < 512,
        ensures
            final (self)@ == old(self)@.insert(frame, old(self)@[frame].update(index as int, value)),
            final (self).wf(),
    {
        let mut t = match self.tables.remove(&frame) {
            Some(t) => t,
            None => vstd::pervasive::unreached(),
        };
        t.entries[index] = Entry(value);
        self.tables.insert(frame, t);
        proof {
            assert(t@ =~= old(self)@[frame].update(index as int, value));
            assert(self@ =~= old(self)@.insert(
                frame,
                old(self)@[frame].update(index as int, value),
            ));
        }
    }

    /// Put a cleared table into `frame`, replacing whatever the frame
    /// held.
    pub fn install_zeroed(&mut self, frame: u64)
        requires
            old(self).wf(),
        ensures
            final (self)@ == old(self)@.insert(frame, zero_table()),
            final (self).wf(),
    {
        let t = Table::new();
        self.tables.insert(frame, t);
        proof {
            assert(self@ =~= old(self)@.insert(frame, zero_table()));
        }
    }
}

} // verus!
