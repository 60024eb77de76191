use vstd::prelude::*;

verus! {

/// How many sends are batched into one timer wait.
pub const QUANTUM: u32 = 8;

/// Outbound rate shaping. Every send takes one tick; every `QUANTUM`-th tick waits for the
/// pacing deadline, which then moves on by `QUANTUM` intervals. Times are microseconds.
pub struct Pacer {
    next_pace_time: u64,
    interval: u64,
    counter: u32,
}

impl Pacer {
    pub closed spec fn deadline(&self) -> u64 {
        self.next_pace_time
    }

    pub closed spec fn gap(&self) -> u64 {
        self.interval
    }

    pub closed spec fn ticks(&self) -> u32 {
        self.counter
    }

    /// A pacer sending one packet per `interval`, starting at `now`.
    pub fn new(interval: u64, now: u64) -> (r: Self)
        ensures
            r.deadline() == now,
            r.gap() == interval,
            r.ticks() == 0,
    {
        Pacer { next_pace_time: now, interval, counter: 0 }
    }

    /// One send. Returns the deadline to sleep until when a batch is full (and then starts a
    /// new batch), or `None` when the caller should only yield.
    pub fn tick(&mut self) -> (r: Option<u64>)
        requires
            old(self).ticks() < QUANTUM,
        ensures
            final(self).ticks() < QUANTUM,
            final(self).deadline() == old(self).deadline(),
            final(self).gap() == old(self).gap(),
            old(self).ticks() + 1 >= QUANTUM ==> r == Some(old(self).deadline()) && final(self).ticks() == 0,
            old(self).ticks() + 1 < QUANTUM ==> r.is_none() && final(self).ticks() == old(self).ticks() + 1,
    {
        self.counter = self.counter + 1;
        if self.counter >= QUANTUM {
            self.counter = 0;
            Some(self.next_pace_time)
        } else {
            None
        }
    }

    /// After the wait for a batch ended at `now`: the next deadline is `QUANTUM` intervals on,
    /// but never in the past.
    pub fn advance(&mut self, now: u64)
        ensures
            final(self).ticks() == old(self).ticks(),
            final(self).gap() == old(self).gap(),
            final(self).deadline() == ({
                let later = old(self).deadline() + old(self).gap() * QUANTUM;
                let later = if later > u64::MAX { u64::MAX as int } else { later };
                if now > later { now as int } else { later }
            }),
    {
        let step: u64 = if self.interval > u64::MAX / (QUANTUM as u64) {
            u64::MAX
        } else {
            self.interval * (QUANTUM as u64)
        };
        let later: u64 = if self.next_pace_time > u64::MAX - step { u64::MAX } else { self.next_pace_time + step };
        self.next_pace_time = if now > later { now } else { later };
    }

    /// Changes the interval.
    pub fn set_interval(&mut self, interval: u64)
        ensures
            final(self).gap() == interval,
            final(self).deadline() == old(self).deadline(),
            final(self).ticks() == old(self).ticks(),
    {
        self.interval = interval;
    }
}

} // verus!
