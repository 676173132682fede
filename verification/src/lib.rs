//! Bring-up core of a 64-bit kernel: physical frame accounting and the
//! four-level hardware page tables that define virtual addressing.
//!
//! Page-table memory is modelled as an arena indexed by physical frame
//! number: a table is identified by the frame that holds it, and
//! "dereferencing" a table becomes reading or writing a fixed-layout
//! 512-slot record in the arena.  The hardware walk (including the
//! recursive slot-511 self-mapping trick) is defined over that arena.

use vstd::prelude::*;

pub mod memory;
pub mod entry;
pub mod table;
pub mod boot;
pub mod area_frame_allocator;
pub mod token;
pub mod paging;
pub mod mapper;
pub mod temporary_mapping;
