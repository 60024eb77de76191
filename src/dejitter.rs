use vstd::prelude::*;

verus! {

/// How long, by default, in microseconds, a packet may wait for the ones before it.
pub const DEJITTER_DELAY_US: u64 = 20_000;

/// A packet waiting in the dejitter buffer.
pub struct DejitterSlot<T> {
    pub seqno: u64,
    pub pkt: T,
}

/// What the receiver should do next.
#[derive(Clone, Copy, Debug, PartialEq, Eq, Structural)]
pub enum DejitterStep {
    /// The next packet in sequence is here: pop it now.
    Ready,
    /// Wait for a new packet, but pop the lowest one anyway at this time (microseconds).
    WaitUntil(u64),
    /// Nothing is buffered: wait for a new packet.
    Idle,
}

pub open spec fn lowest_at<T>(s: Seq<DejitterSlot<T>>, i: int) -> bool {
    &&& 0 <= i < s.len()
    &&& forall|j: int| 0 <= j < s.len() ==> s[i].seqno <= #[trigger] s[j].seqno
}

/// Reorders packets that fan in from several shards by sequence number, holding each for a
/// short while at most. Times are microseconds.
pub struct Dejitter<T> {
    slots: Vec<DejitterSlot<T>>,
    arrivals: Vec<u64>,
    last_popped: u64,
    delay: u64,
}

impl<T> Dejitter<T> {
    pub closed spec fn slots(&self) -> Seq<DejitterSlot<T>> {
        self.slots@
    }

    /// Arrival times, oldest first.
    pub closed spec fn arrivals(&self) -> Seq<u64> {
        self.arrivals@
    }

    /// Sequence number of the packet popped last.
    pub closed spec fn last_popped(&self) -> u64 {
        self.last_popped
    }

    /// How long a packet may wait for the ones before it.
    pub closed spec fn delay(&self) -> u64 {
        self.delay
    }

    /// One arrival time per buffered packet.
    pub closed spec fn wf(&self) -> bool {
        self.slots@.len() == self.arrivals@.len()
    }

    /// An empty buffer with the default delay.
    pub fn new() -> (r: Self)
        ensures
            r.wf(),
            r.slots().len() == 0,
            r.last_popped() == 0,
            r.delay() == DEJITTER_DELAY_US,
    {
        Self::with_delay(DEJITTER_DELAY_US)
    }

    /// An empty buffer in which a packet waits at most `delay` for the ones before it.
    pub fn with_delay(delay: u64) -> (r: Self)
        ensures
            r.wf(),
            r.slots().len() == 0,
            r.last_popped() == 0,
            r.delay() == delay,
    {
        Dejitter { slots: Vec::new(), arrivals: Vec::new(), last_popped: 0, delay }
    }

    fn min_index(&self) -> (r: Option<usize>)
        ensures
            r.is_none() == (self.slots@.len() == 0),
            r.is_some() ==> lowest_at(self.slots@, r.unwrap() as int),
            r.is_some() ==> forall|j: int| 0 <= j < r.unwrap() ==> self.slots@[r.unwrap() as int].seqno < #[trigger] self.slots@[j].seqno,
    {
        if self.slots.len() == 0 {
            return None;
        }
        let mut best: usize = 0;
        let mut i: usize = 1;
        while i < self.slots.len()
            invariant
                1 <= i <= self.slots@.len(),
                best < i,
                forall|j: int| 0 <= j < i ==> self.slots@[best as int].seqno <= #[trigger] self.slots@[j].seqno,
                forall|j: int| 0 <= j < best ==> self.slots@[best as int].seqno < #[trigger] self.slots@[j].seqno,
            decreases self.slots@.len() - i,
        {
            if self.slots[i].seqno < self.slots[best].seqno {
                best = i;
            }
            i = i + 1;
        }
        Some(best)
    }

    /// Buffers a packet that arrived at `now`.
    pub fn push(&mut self, pkt: T, seqno: u64, now: u64)
        requires
            old(self).wf(),
        ensures
            final(self).wf(),
            final(self).slots() == old(self).slots().push(DejitterSlot { seqno, pkt }),
            final(self).arrivals() == old(self).arrivals().push(now),
            final(self).last_popped() == old(self).last_popped(),
            final(self).delay() == old(self).delay(),
    {
        self.slots.push(DejitterSlot { seqno, pkt });
        self.arrivals.push(now);
    }

    /// Pops the packet with the lowest sequence number (the earliest buffered among equals),
    /// dropping the oldest arrival time.
    pub fn pop(&mut self) -> (r: Option<(T, u64)>)
        requires
            old(self).wf(),
        ensures
            final(self).wf(),
            final(self).delay() == old(self).delay(),
            r.is_none() == (old(self).slots().len() == 0),
            r.is_none() ==> final(self).slots() == old(self).slots() && final(self).arrivals() == old(self).arrivals()
                && final(self).last_popped() == old(self).last_popped(),
            r.is_some() ==> exists|i: int|
                #[trigger] lowest_at(old(self).slots(), i) && r == Some((old(self).slots()[i].pkt, old(self).slots()[i].seqno))
                    && final(self).slots() == old(self).slots().remove(i),
            r.is_some() ==> final(self).arrivals() == old(self).arrivals().drop_first()
                && final(self).last_popped() == r.unwrap().1,
    {
        match self.min_index() {
            None => None,
            Some(i) => {
                let ghost before = self.slots@;
                let slot = self.slots.remove(i);
                self.arrivals.remove(0);
                self.last_popped = slot.seqno;
                proof {
                    assert(lowest_at(before, i as int));
                    assert(self.arrivals@ =~= old(self).arrivals@.drop_first());
                }
                Some((slot.pkt, slot.seqno))
            },
        }
    }

    /// Decides between popping now and waiting: pop when the lowest buffered packet is the
    /// one right after the last popped; otherwise wait, until the oldest arrival has waited
    /// its delay.
    pub fn next_step(&self) -> (r: DejitterStep)
        requires
            self.wf(),
        ensures
            r == DejitterStep::Ready <==> exists|i: int|
                #[trigger] lowest_at(self.slots(), i) && self.slots()[i].seqno == self.last_popped() + 1,
            self.slots().len() == 0 ==> r == DejitterStep::Idle,
            r != DejitterStep::Ready && self.slots().len() > 0 ==> r == DejitterStep::WaitUntil(
                if self.arrivals()[0] + self.delay() > u64::MAX { u64::MAX } else {
                    (self.arrivals()[0] + self.delay()) as u64
                },
            ),
    {
        match self.min_index() {
            None => DejitterStep::Idle,
            Some(i) => {
                let lowest = self.slots[i].seqno;
                if self.last_popped < u64::MAX && lowest == self.last_popped + 1 {
                    DejitterStep::Ready
                } else {
                    proof {
                        assert forall|k: int| #[trigger] lowest_at(self.slots(), k) implies self.slots()[k].seqno != self.last_popped() + 1 by {
                            assert(self.slots@[k].seqno <= self.slots@[i as int].seqno);
                            assert(self.slots@[i as int].seqno <= self.slots@[k].seqno);
                        }
                    }
                    let first = self.arrivals[0];
                    let at = if first > u64::MAX - self.delay { u64::MAX } else { first + self.delay };
                    DejitterStep::WaitUntil(at)
                }
            },
        }
    }
}

} // verus!
