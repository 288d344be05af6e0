use vstd::prelude::*;

verus! {

/// Cumulative event counters. All counts run since the sampler was built:
/// `received` counts events that matched at least one filter, `sampled`
/// events kept in some reservoir, and `dropped` events that were discarded,
/// either after falling through every matching reservoir or because
/// formatting failed.
#[derive(Clone, Copy, PartialEq, Eq, Structural, Debug)]
pub struct Stats {
    pub received: u64,
    pub sampled: u64,
    pub dropped: u64,
}

impl Stats {
    pub fn new() -> (r: Stats)
        ensures
            r.received == 0,
            r.sampled == 0,
            r.dropped == 0,
    {
        Stats { received: 0, sampled: 0, dropped: 0 }
    }

    /// Events that matched at least one filter.
    pub fn received(&self) -> (r: u64)
        ensures
            r == self.received,
    {
        self.received
    }

    /// Events that were kept in a reservoir.
    pub fn sampled(&self) -> (r: u64)
        ensures
            r == self.sampled,
    {
        self.sampled
    }

    /// Events that were dropped after failing to enter any reservoir, or
    /// that failed to format.
    pub fn dropped(&self) -> (r: u64)
        ensures
            r == self.dropped,
    {
        self.dropped
    }
}

} // verus!
