//! The cycle clock: a monotonically increasing integer counter.

use vstd::prelude::*;

verus! {

/// One point on the simulation's discrete clock, or a countdown of remaining
/// work cycles.  Wraps a plain `u32` so that timestamps can be copied freely.
#[derive(Debug, Clone, Copy, PartialEq, Eq, Structural)]
pub struct Cycle(pub u32);

impl Cycle {
    pub fn new(n: u32) -> (c: Cycle)
        ensures
            c.0 == n,
    {
        Cycle(n)
    }

    /// The next point on the clock.
    pub fn next(&self) -> (c: Cycle)
        requires
            self.0 < u32::MAX,
        ensures
            c.0 == self.0 + 1,
    {
        Cycle(self.0 + 1)
    }

    /// Count one cycle of work off a countdown, stopping at zero.
    pub fn tick_down(&mut self)
        ensures
            final(self).0 == if old(self).0 > 0 { (old(self).0 - 1) as u32 } else { 0u32 },
    {
        self.0 = if self.0 > 0 { self.0 - 1 } else { 0 };
    }

    pub fn value(&self) -> (n: u32)
        ensures
            n == self.0,
    {
        self.0
    }
}

} // verus!
