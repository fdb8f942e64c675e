//! Adaptive delay controller for auto-tuning click timing.
//!
//! Starts with a base delay and adjusts it down after runs of successes and up
//! after failures, finding a workable speed for the current server connection.

use vstd::prelude::*;

verus! {

/// Adaptive delay controller: after `speedup_threshold` consecutive successes the
/// delay shrinks to nine tenths (not below the minimum); after a failure it grows
/// by half (not above the maximum). A fixed controller never changes.
#[derive(Debug, Clone)]
pub struct AdaptiveDelay {
    current_ms: u64,
    min_ms: u64,
    max_ms: u64,
    speedup_threshold: u32,
    consecutive_successes: u32,
    enabled: bool,
}

impl AdaptiveDelay {
    /// The current delay in milliseconds.
    pub closed spec fn delay(&self) -> u64 {
        self.current_ms
    }

    /// Consecutive successes since the last change.
    pub closed spec fn successes(&self) -> u32 {
        self.consecutive_successes
    }

    /// Whether the delay adapts.
    pub closed spec fn adapts(&self) -> bool {
        self.enabled
    }

    /// Bounds, threshold and counter as `new` sets them.
    pub closed spec fn wf(&self) -> bool {
        &&& self.min_ms == 5
        &&& self.max_ms == 200
        &&& self.speedup_threshold == 50
        &&& self.consecutive_successes < 50
    }

    /// An adaptive controller starting at `base_ms`, kept within 5..=200 ms once it
    /// adjusts, speeding up after 50 consecutive successes.
    pub fn new(base_ms: u64) -> (d: Self)
        ensures
            d.wf(),
            d.delay() == base_ms,
            d.successes() == 0,
            d.adapts(),
    {
        AdaptiveDelay {
            current_ms: base_ms,
            min_ms: 5,
            max_ms: 200,
            speedup_threshold: 50,
            consecutive_successes: 0,
            enabled: true,
        }
    }

    /// A fixed (non-adaptive) delay.
    pub fn fixed(ms: u64) -> (d: Self)
        ensures
            d.wf(),
            d.delay() == ms,
            d.successes() == 0,
            !d.adapts(),
    {
        AdaptiveDelay {
            current_ms: ms,
            min_ms: 5,
            max_ms: 200,
            speedup_threshold: 50,
            consecutive_successes: 0,
            enabled: false,
        }
    }

    /// The current delay in milliseconds.
    pub fn current_ms(&self) -> (ms: u64)
        ensures
            ms == self.delay(),
    {
        self.current_ms
    }

    /// Whether adaptive mode is enabled.
    pub fn is_adaptive(&self) -> (a: bool)
        ensures
            a == self.adapts(),
    {
        self.enabled
    }

    /// Report that a command succeeded: the 50th consecutive success sets the delay
    /// to nine tenths of itself, rounded down, but at least 5 ms.
    pub fn report_success(&mut self)
        requires
            old(self).wf(),
        ensures
            final(self).wf(),
            final(self).adapts() == old(self).adapts(),
            !old(self).adapts() ==> final(self).delay() == old(self).delay()
                && final(self).successes() == old(self).successes(),
            old(self).adapts() && old(self).successes() + 1 < 50 ==> final(self).delay() == old(self).delay()
                && final(self).successes() == old(self).successes() + 1,
            old(self).adapts() && old(self).successes() + 1 == 50 ==> final(self).successes() == 0
                && final(self).delay() == if old(self).delay() * 9 / 10 < 5 {
                    5
                } else {
                    old(self).delay() * 9 / 10
                },
    {
        if !self.enabled {
            return;
        }
        self.consecutive_successes += 1;
        if self.consecutive_successes >= self.speedup_threshold {
            self.consecutive_successes = 0;
            let new_ms: u64 = ((self.current_ms as u128 * 9) / 10) as u64;
            self.current_ms = if new_ms < self.min_ms { self.min_ms } else { new_ms };
        }
    }

    /// Report that a command failed: the success count restarts and the delay grows
    /// to one and a half times itself, rounded down, but at most 200 ms.
    pub fn report_failure(&mut self)
        requires
            old(self).wf(),
        ensures
            final(self).wf(),
            final(self).adapts() == old(self).adapts(),
            !old(self).adapts() ==> final(self).delay() == old(self).delay()
                && final(self).successes() == old(self).successes(),
            old(self).adapts() ==> final(self).successes() == 0 && final(self).delay() == if old(self).delay() * 3
                / 2 > 200 {
                200
            } else {
                old(self).delay() * 3 / 2
            },
    {
        if !self.enabled {
            return;
        }
        self.consecutive_successes = 0;
        let grown: u128 = (self.current_ms as u128 * 3) / 2;
        self.current_ms = if grown > self.max_ms as u128 { self.max_ms } else { grown as u64 };
    }
}

} // verus!
