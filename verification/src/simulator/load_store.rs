//! Load and store buffers: resource slots specialised for memory address
//! computation and data movement.

use vstd::prelude::*;
use crate::simulator::tag::Tag;
use crate::simulator::types::Cycle;

verus! {

/// The datum a store buffer will write: either a ready 64-bit value or a
/// pending-producer tag still waiting for a broadcast.
#[derive(Debug, Clone, Copy)]
pub enum StoreData {
    Ready(u64),
    Waiting(Tag),
}

/// One load buffer.  While busy it holds the destination register, the
/// memory operand (base register and byte offset), the countdown of remaining
/// work cycles, and the index of the owning instruction.
#[derive(Debug, Clone, Copy)]
pub struct LoadBuffer {
    /// Stable identity, used as a reference target by consumers.
    pub name: Tag,
    pub busy: bool,
    /// Destination floating register index.
    pub dest: Option<usize>,
    pub offset: Option<i32>,
    /// Base integer register index.
    pub base: Option<usize>,
    pub remaining_cycles: Option<Cycle>,
    pub inst_idx: Option<usize>,
}

impl LoadBuffer {
    /// An empty load buffer carrying the given name.
    pub fn new(name: Tag) -> (r: LoadBuffer)
        ensures
            r == spec_empty_load(name),
    {
        LoadBuffer {
            name,
            busy: false,
            dest: None,
            offset: None,
            base: None,
            remaining_cycles: None,
            inst_idx: None,
        }
    }

    /// Reset the buffer to empty, keeping its name.
    pub fn clear(&mut self)
        ensures
            *final(self) == spec_empty_load(old(self).name),
    {
        *self = LoadBuffer::new(self.name);
    }
}

/// The cleared state of a load buffer.
pub open spec fn spec_empty_load(name: Tag) -> LoadBuffer {
    LoadBuffer {
        name,
        busy: false,
        dest: None,
        offset: None,
        base: None,
        remaining_cycles: None,
        inst_idx: None,
    }
}

/// One store buffer.  Beyond the memory operand it holds the datum to write,
/// either ready or still pending on a producer.
#[derive(Debug, Clone, Copy)]
pub struct StoreBuffer {
    /// Stable identity.
    pub name: Tag,
    pub busy: bool,
    pub data: Option<StoreData>,
    pub offset: Option<i32>,
    /// Base integer register index.
    pub base: Option<usize>,
    pub remaining_cycles: Option<Cycle>,
    pub inst_idx: Option<usize>,
}

impl StoreBuffer {
    /// An empty store buffer carrying the given name.
    pub fn new(name: Tag) -> (r: StoreBuffer)
        ensures
            r == spec_empty_store(name),
    {
        StoreBuffer {
            name,
            busy: false,
            data: None,
            offset: None,
            base: None,
            remaining_cycles: None,
            inst_idx: None,
        }
    }

    /// Reset the buffer to empty, keeping its name.
    pub fn clear(&mut self)
        ensures
            *final(self) == spec_empty_store(old(self).name),
    {
        *self = StoreBuffer::new(self.name);
    }
}

/// The cleared state of a store buffer.
pub open spec fn spec_empty_store(name: Tag) -> StoreBuffer {
    StoreBuffer {
        name,
        busy: false,
        data: None,
        offset: None,
        base: None,
        remaining_cycles: None,
        inst_idx: None,
    }
}

} // verus!
