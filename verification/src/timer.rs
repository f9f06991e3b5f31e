//! Periodic flush timer.
//!
//! The clock is injected: callers pass the current time (in milliseconds) to
//! `did_fire`, so the timer is deterministic and the flush decision is part
//! of the verified logic.

use vstd::prelude::*;

verus! {

/// Fires once every `interval_ms`, measured on the caller-supplied clock.
#[verifier::ext_equal]
pub struct FlushTimer {
    pub interval_ms: u64,
    pub last_fire: u64,
}

impl FlushTimer {
    /// Whether the timer would fire at time `now`.
    pub open spec fn fires_at(self, now: u64) -> bool {
        now >= self.last_fire + self.interval_ms
    }

    /// A timer that last fired at `now` and fires every `interval_ms`.
    pub fn new(interval_ms: u64, now: u64) -> (t: FlushTimer)
        ensures
            t.interval_ms == interval_ms,
            t.last_fire == now,
    {
        FlushTimer { interval_ms, last_fire: now }
    }

    /// Returns true, and resets the deadline, when the interval has elapsed
    /// since the last fire.
    pub fn did_fire(&mut self, now: u64) -> (r: bool)
        ensures
            r == old(self).fires_at(now),
            final(self).interval_ms == old(self).interval_ms,
            final(self).last_fire == if r {
                now
            } else {
                old(self).last_fire
            },
    {
        if now >= self.last_fire && now - self.last_fire >= self.interval_ms {
            self.last_fire = now;
            true
        } else {
            false
        }
    }
}

} // verus!
