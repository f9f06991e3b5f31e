//! Monotone counter that issues reservation ids.
//!
//! The counter is seeded from the largest id already present in the durable
//! store, so that an id is never issued twice across restarts.

use vstd::prelude::*;

verus! {

/// A monotone counter. `next` returns `value + 1` and never repeats a value.
pub struct CumulativeCounter {
    pub value: i64,
}

impl CumulativeCounter {
    /// Creates a counter whose first issued id will be `start + 1`.
    pub fn new(start: i64) -> (c: CumulativeCounter)
        ensures
            c.value == start,
    {
        CumulativeCounter { value: start }
    }

    /// Issues the next id: strictly greater than every id issued before.
    pub fn next(&mut self) -> (id: i64)
        requires
            old(self).value < i64::MAX,
        ensures
            final(self).value == old(self).value + 1,
            id == final(self).value,
    {
        self.value = self.value + 1;
        self.value
    }
}

} // verus!
