//! Deterministic logical clock. It advances only when the scheduler
//! dispatches a quantum, never from wall-clock time, so that event-log keys
//! are reproducible across hosts.

use vstd::prelude::*;

verus! {

pub type Tick = u64;

/// A monotonic tick counter, one unit per dispatched execution quantum. There
/// is exactly one authority that advances it, so it cannot be cloned.
pub struct LogicalClock {
    tick: Tick,
}

impl View for LogicalClock {
    type V = u64;

    closed spec fn view(&self) -> u64 {
        self.tick
    }
}

impl LogicalClock {
    pub fn new() -> (clock: Self)
        ensures
            clock@ == 0,
    {
        LogicalClock { tick: 0 }
    }

    /// Advance by exactly one quantum.
    pub fn advance(&mut self) -> (tick: Tick)
        requires
            old(self)@ < u64::MAX,
        ensures
            tick == old(self)@ + 1,
            final(self)@ == tick,
    {
        self.tick += 1;
        self.tick
    }

    pub fn snapshot(&self) -> (tick: Tick)
        ensures
            tick == self@,
    {
        self.tick
    }
}

impl Default for LogicalClock {
    fn default() -> (clock: Self)
        ensures
            clock@ == 0,
    {
        Self::new()
    }
}

} // verus!
