use vstd::prelude::*;

verus! {

/// How long, in microseconds, a minimum RTT sample stands before any sample replaces it.
pub const MIN_RTT_REFRESH_US: u64 = 3_000_000;

/// Minimum RTT before any sample, in microseconds.
pub const INITIAL_MIN_RTT_US: u64 = 500_000;

/// The smallest round-trip sample of the last three seconds. Times are microseconds.
pub struct MinRtt {
    min_rtt: u64,
    updated: u64,
}

impl MinRtt {
    pub closed spec fn value(&self) -> u64 {
        self.min_rtt
    }

    pub closed spec fn since(&self) -> u64 {
        self.updated
    }

    /// The initial estimate, set at `now`.
    pub fn new(now: u64) -> (r: Self)
        ensures
            r.value() == INITIAL_MIN_RTT_US,
            r.since() == now,
    {
        MinRtt { min_rtt: INITIAL_MIN_RTT_US, updated: now }
    }

    /// Takes a sample at `now`: it becomes the minimum if it is smaller, or if the minimum
    /// has stood for over three seconds.
    pub fn record_sample(&mut self, sample: u64, now: u64)
        ensures
            (sample < old(self).value() || (now > old(self).since() && now - old(self).since() > MIN_RTT_REFRESH_US))
                ==> final(self).value() == sample && final(self).since() == now,
            !(sample < old(self).value() || (now > old(self).since() && now - old(self).since() > MIN_RTT_REFRESH_US))
                ==> final(self).value() == old(self).value() && final(self).since() == old(self).since(),
    {
        if sample < self.min_rtt || (now > self.updated && now - self.updated > MIN_RTT_REFRESH_US) {
            self.min_rtt = sample;
            self.updated = now;
        }
    }

    /// The current minimum.
    pub fn min_rtt(&self) -> (r: u64)
        ensures
            r == self.value(),
    {
        self.min_rtt
    }
}

} // verus!
