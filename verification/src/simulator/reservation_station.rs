//! Reservation stations for the arithmetic pools (add/subtract and
//! multiply/divide).

use vstd::prelude::*;
use crate::simulator::instruction::InstructionType;
use crate::simulator::tag::Tag;
use crate::simulator::types::Cycle;

verus! {

/// One reservation station.  While busy it holds the pending operation, each
/// operand either as a ready 64-bit value (`vj`/`vk`) or as a pending-producer
/// tag (`qj`/`qk`), the countdown of remaining work cycles, and the index of
/// the owning instruction.
#[derive(Debug, Clone, Copy)]
pub struct ReservationStation {
    /// Stable identity, used as a reference target by consumers.
    pub name: Tag,
    pub op: Option<InstructionType>,
    /// First operand, when its value is ready.
    pub vj: Option<u64>,
    /// Second operand, when its value is ready.
    pub vk: Option<u64>,
    /// Pending producer of the first operand.
    pub qj: Option<Tag>,
    /// Pending producer of the second operand.
    pub qk: Option<Tag>,
    pub busy: bool,
    pub remaining_cycles: Option<Cycle>,
    pub inst_idx: Option<usize>,
}

impl ReservationStation {
    /// An empty station carrying the given name.
    pub fn new(name: Tag) -> (r: ReservationStation)
        ensures
            r == spec_empty_station(name),
    {
        ReservationStation {
            name,
            op: None,
            vj: None,
            vk: None,
            qj: None,
            qk: None,
            busy: false,
            remaining_cycles: None,
            inst_idx: None,
        }
    }

    /// Reset the station to empty, keeping its name; it is then eligible for
    /// reuse by a later instruction.
    pub fn clear(&mut self)
        ensures
            *final(self) == spec_empty_station(old(self).name),
    {
        *self = ReservationStation::new(self.name);
    }
}

/// The cleared state of a station: not busy, no operation, no operands.
pub open spec fn spec_empty_station(name: Tag) -> ReservationStation {
    ReservationStation {
        name,
        op: None,
        vj: None,
        vk: None,
        qj: None,
        qk: None,
        busy: false,
        remaining_cycles: None,
        inst_idx: None,
    }
}

} // verus!
