//! Slot identities.  Every functional-unit slot carries a stable name that
//! doubles as the pending-producer tag broadcast on the common data bus.

use vstd::prelude::*;

verus! {

/// The name of a functional-unit slot: the pool it belongs to together with
/// its position inside that pool.  A `Tag` recorded in place of an operand
/// value is a pending-producer reference, resolved later by broadcast.
#[derive(Debug, Clone, Copy, PartialEq, Eq, Structural)]
pub enum Tag {
    AddStation(usize),
    MulStation(usize),
    LoadBuffer(usize),
    StoreBuffer(usize),
}

} // verus!
