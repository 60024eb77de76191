use crate::buffer::Buff;
use vstd::prelude::*;

verus! {

/// One unacknowledged segment. Times are microseconds on a monotonic clock.
pub struct InflightEntry {
    pub seqno: u64,
    pub send_time: u64,
    pub retrans: u64,
    pub payload: Buff,
    /// When the segment is next due for retransmission.
    pub retrans_time: u64,
    /// How many segments had been delivered when this one was sent.
    pub delivered: u64,
    pub delivered_time: u64,
    pub known_lost: bool,
}

/// What acknowledging one segment tells the RTT and delivery-rate estimators.
#[derive(Clone, Copy, Debug, PartialEq, Eq)]
pub struct AckSample {
    pub seqno: u64,
    /// Round-trip sample; only for a segment that was never retransmitted.
    pub rtt: Option<u64>,
    /// Delivered count when the segment was sent.
    pub packet_delivered: u64,
    pub packet_send_time: u64,
    /// Delivered count after this acknowledgement.
    pub delivered: u64,
    /// Time of this acknowledgement.
    pub delivered_time: u64,
}

/// Number of segments flagged as known lost.
pub open spec fn lost_in(s: Seq<InflightEntry>) -> nat
    decreases s.len(),
{
    if s.len() == 0 {
        0
    } else {
        lost_in(s.drop_last()) + if s.last().known_lost { 1nat } else { 0nat }
    }
}

/// Segments ordered by strictly increasing sequence number.
pub open spec fn sorted_by_seqno(s: Seq<InflightEntry>) -> bool {
    forall|i: int, j: int| 0 <= i < j < s.len() ==> #[trigger] s[i].seqno < #[trigger] s[j].seqno
}

pub open spec fn holds_seqno(s: Seq<InflightEntry>, seqno: u64) -> bool {
    exists|i: int| 0 <= i < s.len() && #[trigger] s[i].seqno == seqno
}

/// `a + b`, held at the largest `u64`.
pub open spec fn sat_add(a: nat, b: nat) -> u64 {
    if a + b > u64::MAX { u64::MAX } else { (a + b) as u64 }
}

/// The retransmission timeout doubled once per retransmission.
pub open spec fn backoff(rto: nat, n: nat) -> nat
    decreases n,
{
    if n == 0 { rto } else { 2 * backoff(rto, (n - 1) as nat) }
}

/// Fast retransmit: a never-retransmitted segment that was due at least four RTT
/// variances before the acknowledged one, and is not yet due, becomes due now.
pub open spec fn early_due(e: InflightEntry, acked_due: u64, now: u64, rtt_var: u64) -> InflightEntry {
    if e.retrans == 0 && e.retrans_time + 4 * rtt_var <= acked_due && e.retrans_time > now {
        InflightEntry { retrans_time: now, ..e }
    } else {
        e
    }
}

/// What acknowledging `e` at time `now` reports, `delivered` being the new delivered count.
pub open spec fn sample_of(e: InflightEntry, now: u64, delivered: u64) -> AckSample {
    AckSample {
        seqno: e.seqno,
        rtt: if e.retrans == 0 {
            Some(if now >= e.send_time { (now - e.send_time) as u64 } else { 0u64 })
        } else {
            None
        },
        packet_delivered: e.delivered,
        packet_send_time: e.send_time,
        delivered,
        delivered_time: now,
    }
}

/// The segment after it is sent again at `now`: one more retransmission, due after
/// the doubled timeout, and no longer counted as lost.
pub open spec fn resent(e: InflightEntry, now: u64, rto: u64) -> InflightEntry {
    let n = sat_add(e.retrans as nat, 1);
    let b = backoff(rto as nat, n as nat);
    InflightEntry {
        retrans: n,
        retrans_time: sat_add(now as nat, if b > u64::MAX { u64::MAX as nat } else { b }),
        known_lost: false,
        ..e
    }
}

/// The segments left after one is acknowledged, with fast retransmit applied below it.
pub open spec fn after_ack(rest: Seq<InflightEntry>, acked: u64, acked_due: u64, now: u64, rtt_var: u64) -> Seq<InflightEntry> {
    rest.map_values(|e: InflightEntry| if e.seqno < acked { early_due(e, acked_due, now, rtt_var) } else { e })
}

proof fn lemma_lost_concat(a: Seq<InflightEntry>, b: Seq<InflightEntry>)
    ensures
        lost_in(a + b) == lost_in(a) + lost_in(b),
    decreases b.len(),
{
    if b.len() == 0 {
        assert(a + b =~= a);
    } else {
        lemma_lost_concat(a, b.drop_last());
        assert((a + b).drop_last() =~= a + b.drop_last());
    }
}

proof fn lemma_lost_at(s: Seq<InflightEntry>, i: int)
    requires
        0 <= i < s.len(),
    ensures
        lost_in(s) == lost_in(s.subrange(0, i)) + (if s[i].known_lost { 1nat } else { 0nat })
            + lost_in(s.subrange(i + 1, s.len() as int)),
{
    let a = s.subrange(0, i);
    let m = seq![s[i]];
    let b = s.subrange(i + 1, s.len() as int);
    assert(s =~= a + m + b);
    lemma_lost_concat(a + m, b);
    lemma_lost_concat(a, m);
    assert(m.drop_last() =~= Seq::<InflightEntry>::empty());
    assert(lost_in(Seq::<InflightEntry>::empty()) == 0);
    assert(lost_in(m) == (if s[i].known_lost { 1nat } else { 0nat }));
}

proof fn lemma_lost_bound(s: Seq<InflightEntry>)
    ensures
        lost_in(s) <= s.len(),
    decreases s.len(),
{
    if s.len() > 0 {
        lemma_lost_bound(s.drop_last());
    }
}

proof fn lemma_lost_same_flags(a: Seq<InflightEntry>, b: Seq<InflightEntry>)
    requires
        a.len() == b.len(),
        forall|i: int| 0 <= i < a.len() ==> #[trigger] a[i].known_lost == b[i].known_lost,
    ensures
        lost_in(a) == lost_in(b),
    decreases a.len(),
{
    if a.len() > 0 {
        lemma_lost_same_flags(a.drop_last(), b.drop_last());
    }
}

proof fn lemma_backoff_grows(rto: nat, k: nat, n: nat)
    requires
        k <= n,
    ensures
        backoff(rto, k) <= backoff(rto, n),
        rto == 0 ==> backoff(rto, n) == 0,
    decreases n,
{
    if n > 0 {
        lemma_backoff_grows(rto, if k == n { (n - 1) as nat } else { k }, (n - 1) as nat);
    }
}

/// `rto · 2^n`, held at the largest `u64`.
fn backoff_exec(rto: u64, n: u64) -> (r: u64)
    ensures
        r == (if backoff(rto as nat, n as nat) > u64::MAX { u64::MAX } else { backoff(rto as nat, n as nat) as u64 }),
{
    let mut d: u64 = rto;
    let mut k: u64 = 0;
    while k < n
        invariant
            k <= n,
            d == (if backoff(rto as nat, k as nat) > u64::MAX { u64::MAX } else { backoff(rto as nat, k as nat) as u64 }),
        decreases n - k,
    {
        if d == 0 || d == u64::MAX {
            proof {
                lemma_backoff_grows(rto as nat, k as nat, n as nat);
                if d == 0 {
                    lemma_backoff_grows(rto as nat, 0, k as nat);
                }
            }
            return d;
        }
        d = if d > u64::MAX / 2 { u64::MAX } else { 2 * d };
        k = k + 1;
    }
    d
}

fn sat_add_exec(a: u64, b: u64) -> (r: u64)
    ensures
        r == sat_add(a as nat, b as nat),
{
    if a > u64::MAX - b { u64::MAX } else { a + b }
}

/// Tracks the segments of one stream that are sent and not yet acknowledged,
/// which of them are known to be lost, and when each is due for retransmission.
pub struct Inflight {
    segments: Vec<InflightEntry>,
    lost_count: usize,
    delivered: u64,
    delivered_time: u64,
}

impl View for Inflight {
    type V = Seq<InflightEntry>;

    closed spec fn view(&self) -> Seq<InflightEntry> {
        self.segments@
    }
}

impl Inflight {
    /// Segments are kept in sequence order and the lost counter agrees with the flags.
    pub closed spec fn wf(&self) -> bool {
        &&& sorted_by_seqno(self.segments@)
        &&& self.lost_count == lost_in(self.segments@)
    }

    /// How many segments have been acknowledged so far.
    pub closed spec fn delivered_count(&self) -> u64 {
        self.delivered
    }

    /// When the last acknowledgement came.
    pub closed spec fn last_delivery(&self) -> u64 {
        self.delivered_time
    }

    /// A well-formed tracker holds its segments in strictly increasing sequence order, so
    /// no sequence number appears twice.
    pub proof fn lemma_sorted(&self)
        requires
            self.wf(),
        ensures
            sorted_by_seqno(self@),
    {
    }

    /// An empty tracker, created at time `now`.
    pub fn new(now: u64) -> (r: Self)
        ensures
            r.wf(),
            r@ == Seq::<InflightEntry>::empty(),
            r.delivered_count() == 0,
            r.last_delivery() == now,
    {
        Inflight { segments: Vec::new(), lost_count: 0, delivered: 0, delivered_time: now }
    }

    /// Number of segments not yet acknowledged.
    pub fn unacked(&self) -> (r: usize)
        ensures
            r == self@.len(),
    {
        self.segments.len()
    }

    /// Number of unacknowledged segments not known to be lost.
    pub fn inflight(&self) -> (r: usize)
        requires
            self.wf(),
        ensures
            r == self@.len() - lost_in(self@),
    {
        proof {
            lemma_lost_bound(self.segments@);
        }
        self.segments.len() - self.lost_count
    }

    /// Number of unacknowledged segments known to be lost.
    pub fn lost_count(&self) -> (r: usize)
        requires
            self.wf(),
        ensures
            r == lost_in(self@),
    {
        self.lost_count
    }

    /// Distance between the highest and the lowest unacknowledged sequence number.
    pub fn last_minus_first(&self) -> (r: u64)
        requires
            self.wf(),
        ensures
            self@.len() == 0 ==> r == 0,
            self@.len() > 0 ==> r == self@.last().seqno - self@[0].seqno,
    {
        let n = self.segments.len();
        if n == 0 {
            0
        } else {
            proof {
                if n > 1 {
                    assert(self.segments@[0].seqno < self.segments@[n - 1].seqno);
                }
            }
            self.segments[n - 1].seqno - self.segments[0].seqno
        }
    }

    /// Whether `seqno` is unacknowledged and flagged as lost.
    pub fn is_lost(&self, seqno: u64) -> (r: bool)
        ensures
            r == exists|i: int| 0 <= i < self@.len() && #[trigger] self@[i].seqno == seqno && self@[i].known_lost,
    {
        let mut i: usize = 0;
        while i < self.segments.len()
            invariant
                i <= self.segments@.len(),
                forall|j: int| 0 <= j < i ==> !(#[trigger] self.segments@[j].seqno == seqno && self.segments@[j].known_lost),
            decreases self.segments@.len() - i,
        {
            if self.segments[i].seqno == seqno && self.segments[i].known_lost {
                assert(self@[i as int].seqno == seqno && self@[i as int].known_lost);
                return true;
            }
            i = i + 1;
        }
        false
    }

    /// The lowest sequence number flagged as lost: the next one to resend.
    pub fn first_lost(&self) -> (r: Option<u64>)
        requires
            self.wf(),
        ensures
            r.is_none() == (forall|i: int| 0 <= i < self@.len() ==> !(#[trigger] self@[i]).known_lost),
            r.is_some() ==> exists|i: int|
                0 <= i < self@.len() && (#[trigger] self@[i]).known_lost && self@[i].seqno == r.unwrap()
                    && forall|j: int| 0 <= j < i ==> !(#[trigger] self@[j]).known_lost,
    {
        let mut i: usize = 0;
        while i < self.segments.len()
            invariant
                i <= self.segments@.len(),
                forall|j: int| 0 <= j < i ==> !(#[trigger] self.segments@[j]).known_lost,
            decreases self.segments@.len() - i,
        {
            if self.segments[i].known_lost {
                proof {
                    assert(self@[i as int].known_lost);
                }
                return Some(self.segments[i].seqno);
            }
            i = i + 1;
        }
        proof {
            assert(self@ =~= self.segments@);
        }
        None
    }

    /// Position of `seqno`, if it is unacknowledged.
    fn position(&self, seqno: u64) -> (r: Option<usize>)
        ensures
            r.is_none() == !holds_seqno(self@, seqno),
            r.is_some() ==> r.unwrap() < self@.len() && self@[r.unwrap() as int].seqno == seqno,
    {
        let mut i: usize = 0;
        while i < self.segments.len()
            invariant
                i <= self.segments@.len(),
                forall|j: int| 0 <= j < i ==> #[trigger] self.segments@[j].seqno != seqno,
            decreases self.segments@.len() - i,
        {
            if self.segments[i].seqno == seqno {
                return Some(i);
            }
            i = i + 1;
        }
        None
    }

    /// Records a newly sent segment at time `now`, due for retransmission after `rto`.
    pub fn insert(&mut self, seqno: u64, msg: Buff, now: u64, rto: u64)
        requires
            old(self).wf(),
            !holds_seqno(old(self)@, seqno),
        ensures
            final(self).wf(),
            final(self).delivered_count() == old(self).delivered_count(),
            final(self).last_delivery() == old(self).last_delivery(),
            final(self)@.len() == old(self)@.len() + 1,
            lost_in(final(self)@) == lost_in(old(self)@),
            forall|x: u64| #[trigger] holds_seqno(final(self)@, x) <==> (holds_seqno(old(self)@, x) || x == seqno),
            exists|i: int|
                0 <= i <= old(self)@.len() && final(self)@ == old(self)@.insert(
                    i,
                    (InflightEntry {
                        seqno,
                        send_time: now,
                        retrans: 0,
                        payload: msg,
                        retrans_time: sat_add(now as nat, rto as nat),
                        delivered: old(self).delivered_count(),
                        delivered_time: old(self).last_delivery(),
                        known_lost: false,
                    }),
                ),
    {
        let entry = InflightEntry {
            seqno,
            send_time: now,
            retrans: 0,
            payload: msg,
            retrans_time: sat_add_exec(now, rto),
            delivered: self.delivered,
            delivered_time: self.delivered_time,
            known_lost: false,
        };
        let mut i: usize = self.segments.len();
        while i > 0 && self.segments[i - 1].seqno > seqno
            invariant
                i <= self.segments@.len(),
                forall|k: int| i <= k < self.segments@.len() ==> #[trigger] self.segments@[k].seqno > seqno,
            decreases i,
        {
            i = i - 1;
        }
        let ghost old_segs = self.segments@;
        proof {
            assert forall|k: int| 0 <= k < i implies #[trigger] old_segs[k].seqno < seqno by {
                if k < i - 1 {
                    assert(old_segs[k].seqno < old_segs[i - 1].seqno);
                }
                assert(old_segs[i - 1].seqno != seqno);
            }
        }
        self.segments.insert(i, entry);
        proof {
            let s = self.segments@;
            assert(s == old_segs.insert(i as int, entry));
            assert(sorted_by_seqno(s)) by {
                assert forall|a: int, b: int| 0 <= a < b < s.len() implies #[trigger] s[a].seqno < #[trigger] s[b].seqno by {
                    if a < i && b > i {
                        assert(s[a] == old_segs[a]);
                        assert(s[b] == old_segs[b - 1]);
                    } else if a < i && b < i {
                        assert(old_segs[a].seqno < old_segs[b].seqno);
                    } else if a > i {
                        assert(old_segs[a - 1].seqno < old_segs[b - 1].seqno);
                    }
                }
            }
            lemma_lost_at(s, i as int);
            assert(s.subrange(0, i as int) =~= old_segs.subrange(0, i as int));
            assert(s.subrange(i + 1, s.len() as int) =~= old_segs.subrange(i as int, old_segs.len() as int));
            assert forall|x: u64| #[trigger] holds_seqno(s, x) <==> (holds_seqno(old_segs, x) || x == seqno) by {
                if holds_seqno(s, x) {
                    let k = choose|k: int| 0 <= k < s.len() && #[trigger] s[k].seqno == x;
                    if k < i {
                        assert(s[k] == old_segs[k]);
                    } else if k > i {
                        assert(s[k] == old_segs[k - 1]);
                    }
                }
                if holds_seqno(old_segs, x) {
                    let k = choose|k: int| 0 <= k < old_segs.len() && #[trigger] old_segs[k].seqno == x;
                    if k < i {
                        assert(s[k] == old_segs[k]);
                    } else {
                        assert(s[k + 1] == old_segs[k]);
                    }
                }
                if x == seqno {
                    assert(s[i as int].seqno == seqno);
                }
            }
            if i < old_segs.len() {
                lemma_lost_concat(old_segs.subrange(0, i as int), old_segs.subrange(i as int, old_segs.len() as int));
                assert(old_segs =~= old_segs.subrange(0, i as int) + old_segs.subrange(i as int, old_segs.len() as int));
            } else {
                assert(old_segs.subrange(0, i as int) =~= old_segs);
            }
        }
    }
    /// Flags `seqno` as known lost, without resending it; `false` if it is not unacknowledged.
    pub fn mark_lost(&mut self, seqno: u64) -> (r: bool)
        requires
            old(self).wf(),
        ensures
            final(self).wf(),
            final(self).delivered_count() == old(self).delivered_count(),
            final(self).last_delivery() == old(self).last_delivery(),
            r == holds_seqno(old(self)@, seqno),
            !r ==> final(self)@ == old(self)@,
            !r ==> lost_in(final(self)@) == lost_in(old(self)@),
            r ==> exists|i: int|
                0 <= i < old(self)@.len() && old(self)@[i].seqno == seqno && final(self)@ == old(self)@.update(
                    i,
                    (InflightEntry { known_lost: true, ..old(self)@[i] }),
                ) && lost_in(final(self)@) == lost_in(old(self)@) + (if old(self)@[i].known_lost { 0int } else { 1int }),
    {
        match self.position(seqno) {
            None => false,
            Some(i) => {
                let ghost old_segs = self.segments@;
                let was_lost = self.segments[i].known_lost;
                self.segments[i].known_lost = true;
                proof {
                    let s = self.segments@;
                    assert(s == old_segs.update(i as int, InflightEntry { known_lost: true, ..old_segs[i as int] }));
                    lemma_lost_at(s, i as int);
                    lemma_lost_at(old_segs, i as int);
                    assert(s.subrange(0, i as int) =~= old_segs.subrange(0, i as int));
                    assert(s.subrange(i + 1, s.len() as int) =~= old_segs.subrange(i + 1, old_segs.len() as int));
                    lemma_lost_bound(s);
                }
                let unacked = self.segments.len();
                if !was_lost {
                    assert(self.lost_count < unacked);
                    self.lost_count = self.lost_count + 1;
                }
                true
            },
        }
    }

    /// Sends `seqno` again at `now`: its payload, if it is unacknowledged.
    /// Only a segment flagged as lost may be resent.
    pub fn retransmit(&mut self, seqno: u64, now: u64, rto: u64) -> (r: Option<Buff>)
        requires
            old(self).wf(),
            forall|i: int| 0 <= i < old(self)@.len() && #[trigger] old(self)@[i].seqno == seqno ==> old(self)@[i].known_lost,
        ensures
            final(self).wf(),
            final(self).delivered_count() == old(self).delivered_count(),
            final(self).last_delivery() == old(self).last_delivery(),
            r.is_some() == holds_seqno(old(self)@, seqno),
            r.is_none() ==> final(self)@ == old(self)@,
            r.is_some() ==> exists|i: int|
                0 <= i < old(self)@.len() && old(self)@[i].seqno == seqno
                    && final(self)@ == old(self)@.update(i, resent(old(self)@[i], now, rto))
                    && r.unwrap()@ == old(self)@[i].payload@
                    && lost_in(final(self)@) == lost_in(old(self)@) - 1,
    {
        match self.position(seqno) {
            None => None,
            Some(i) => {
                let ghost old_segs = self.segments@;
                let n = sat_add_exec(self.segments[i].retrans, 1);
                let due = sat_add_exec(now, backoff_exec(rto, n));
                self.segments[i].retrans = n;
                self.segments[i].retrans_time = due;
                self.segments[i].known_lost = false;
                let payload = self.segments[i].payload.clone();
                proof {
                    let s = self.segments@;
                    assert(s == old_segs.update(i as int, resent(old_segs[i as int], now, rto)));
                    lemma_lost_at(s, i as int);
                    lemma_lost_at(old_segs, i as int);
                    assert(s.subrange(0, i as int) =~= old_segs.subrange(0, i as int));
                    assert(s.subrange(i + 1, s.len() as int) =~= old_segs.subrange(i + 1, old_segs.len() as int));
                }
                self.lost_count = self.lost_count - 1;
                Some(payload)
            },
        }
    }

    /// The segment that is due first among those not known to be lost, and when.
    pub fn first_rto(&self) -> (r: Option<(u64, u64)>)
        requires
            self.wf(),
        ensures
            r.is_some() ==> forall|i: int| 0 <= i < self@.len() && #[trigger] self@[i].seqno == r.unwrap().0
                ==> !self@[i].known_lost,
            r.is_none() == (forall|i: int| 0 <= i < self@.len() ==> #[trigger] self@[i].known_lost),
            r.is_some() ==> (exists|i: int|
                0 <= i < self@.len() && !self@[i].known_lost && #[trigger] self@[i].seqno == r.unwrap().0
                    && self@[i].retrans_time == r.unwrap().1),
            r.is_some() ==> (forall|i: int|
                0 <= i < self@.len() && !self@[i].known_lost ==> #[trigger] self@[i].retrans_time >= r.unwrap().1),
    {
        let mut best: Option<(u64, u64)> = None;
        let mut i: usize = 0;
        while i < self.segments.len()
            invariant
                i <= self.segments@.len(),
                best.is_none() == (forall|k: int| 0 <= k < i ==> #[trigger] self.segments@[k].known_lost),
                best.is_some() ==> (exists|k: int|
                    0 <= k < i && !self.segments@[k].known_lost && #[trigger] self.segments@[k].seqno == best.unwrap().0
                        && self.segments@[k].retrans_time == best.unwrap().1),
                best.is_some() ==> (forall|k: int|
                    0 <= k < i && !self.segments@[k].known_lost ==> #[trigger] self.segments@[k].retrans_time >= best.unwrap().1),
            decreases self.segments@.len() - i,
        {
            let e = &self.segments[i];
            if !e.known_lost {
                match best {
                    None => {
                        best = Some((e.seqno, e.retrans_time));
                    },
                    Some((_, t)) => {
                        if e.retrans_time < t {
                            best = Some((e.seqno, e.retrans_time));
                        }
                    },
                }
            }
            i = i + 1;
        }
        proof {
            assert(self@ =~= self.segments@);
            if best.is_some() {
                let k = choose|k: int| 0 <= k < self@.len() && !self@[k].known_lost && #[trigger] self@[k].seqno == best.unwrap().0
                    && self@[k].retrans_time == best.unwrap().1;
                assert forall|i: int| 0 <= i < self@.len() && #[trigger] self@[i].seqno == best.unwrap().0 implies !self@[i].known_lost by {
                    if i != k {
                        if i < k {
                            assert(self@[i].seqno < self@[k].seqno);
                        } else {
                            assert(self@[k].seqno < self@[i].seqno);
                        }
                    }
                }
            }
        }
        best
    }

    /// Acknowledges `acked` at time `now`: it leaves the tracker, and any older segment that
    /// fast retransmit picks becomes due now. `None` if `acked` was not unacknowledged.
    pub fn mark_acked(&mut self, acked: u64, now: u64, rtt_var: u64) -> (r: Option<AckSample>)
        requires
            old(self).wf(),
        ensures
            final(self).wf(),
            r.is_some() == holds_seqno(old(self)@, acked),
            r.is_none() ==> final(self)@ == old(self)@ && final(self).delivered_count() == old(self).delivered_count()
                && final(self).last_delivery() == old(self).last_delivery(),
            r.is_some() ==> final(self).delivered_count() == sat_add(old(self).delivered_count() as nat, 1)
                && final(self).last_delivery() == now,
            r.is_some() ==> final(self)@.len() == old(self)@.len() - 1,
            forall|x: u64| #[trigger] holds_seqno(final(self)@, x) <==> (holds_seqno(old(self)@, x) && x != acked),
            r.is_some() ==> exists|i: int|
                0 <= i < old(self)@.len() && old(self)@[i].seqno == acked
                    && final(self)@ == after_ack(old(self)@.remove(i), acked, old(self)@[i].retrans_time, now, rtt_var)
                    && lost_in(final(self)@) == lost_in(old(self)@) - (if old(self)@[i].known_lost { 1int } else { 0int })
                    && r.unwrap() == sample_of(old(self)@[i], now, sat_add(old(self).delivered_count() as nat, 1)),
    {
        match self.position(acked) {
            None => None,
            Some(i) => {
                let ghost old_segs = self.segments@;
                let seg = self.segments.remove(i);
                let ghost rest = self.segments@;
                proof {
                    assert(rest == old_segs.remove(i as int));
                    lemma_lost_at(old_segs, i as int);
                    lemma_lost_concat(old_segs.subrange(0, i as int), old_segs.subrange(i + 1, old_segs.len() as int));
                    assert(rest =~= old_segs.subrange(0, i as int) + old_segs.subrange(i + 1, old_segs.len() as int));
                }
                if seg.known_lost {
                    self.lost_count = self.lost_count - 1;
                }
                self.delivered = sat_add_exec(self.delivered, 1);
                self.delivered_time = now;
                let rtt = if seg.retrans == 0 {
                    Some(if now >= seg.send_time { now - seg.send_time } else { 0 })
                } else {
                    None
                };
                let sample = AckSample {
                    seqno: seg.seqno,
                    rtt,
                    packet_delivered: seg.delivered,
                    packet_send_time: seg.send_time,
                    delivered: self.delivered,
                    delivered_time: now,
                };
                let acked_due = seg.retrans_time;
                let mut j: usize = 0;
                while j < i
                    invariant
                        j <= i <= rest.len(),
                        i < old_segs.len(),
                        rest == old_segs.remove(i as int),
                        sorted_by_seqno(old_segs),
                        self.lost_count == lost_in(rest),
                        self.delivered == sat_add(old(self).delivered as nat, 1),
                        self.delivered_time == now,
                        old_segs[i as int].seqno == acked,
                        self.segments@.len() == rest.len(),
                        forall|k: int| 0 <= k < j ==> #[trigger] self.segments@[k] == early_due(rest[k], acked_due, now, rtt_var),
                        forall|k: int| j <= k < rest.len() ==> #[trigger] self.segments@[k] == rest[k],
                    decreases i - j,
                {
                    let e = &self.segments[j];
                    if e.retrans == 0 && (e.retrans_time as u128) + 4 * (rtt_var as u128) <= (acked_due as u128)
                        && e.retrans_time > now {
                        self.segments[j].retrans_time = now;
                    }
                    j = j + 1;
                }
                proof {
                    let s = self.segments@;
                    let t = after_ack(rest, acked, acked_due, now, rtt_var);
                    assert forall|k: int| 0 <= k < s.len() implies #[trigger] s[k] == t[k] by {
                        if k < i {
                            assert(old_segs[k].seqno < old_segs[i as int].seqno);
                        } else {
                            assert(old_segs[i as int].seqno < old_segs[k + 1].seqno);
                        }
                    }
                    assert(s =~= t);
                    lemma_lost_same_flags(s, rest);
                    assert forall|x: u64| #[trigger] holds_seqno(s, x) <==> (holds_seqno(old_segs, x) && x != acked) by {
                        if holds_seqno(s, x) {
                            let k = choose|k: int| 0 <= k < s.len() && #[trigger] s[k].seqno == x;
                            let k2 = if k < i { k } else { k + 1 };
                            assert(s[k].seqno == old_segs[k2].seqno);
                            if k2 < i {
                                assert(old_segs[k2].seqno < old_segs[i as int].seqno);
                            } else {
                                assert(old_segs[i as int].seqno < old_segs[k2].seqno);
                            }
                        }
                        if holds_seqno(old_segs, x) && x != acked {
                            let k = choose|k: int| 0 <= k < old_segs.len() && #[trigger] old_segs[k].seqno == x;
                            if k < i {
                                assert(s[k].seqno == old_segs[k].seqno);
                            } else {
                                assert(k != i);
                                assert(s[k - 1].seqno == old_segs[k].seqno);
                            }
                        }
                    }
                    assert(sorted_by_seqno(s)) by {
                        assert forall|a: int, b: int| 0 <= a < b < s.len() implies #[trigger] s[a].seqno < #[trigger] s[b].seqno by {
                            assert(s[a].seqno == rest[a].seqno);
                            assert(s[b].seqno == rest[b].seqno);
                            if b < i {
                                assert(old_segs[a].seqno < old_segs[b].seqno);
                            } else if a >= i {
                                assert(old_segs[a + 1].seqno < old_segs[b + 1].seqno);
                            } else {
                                assert(old_segs[a].seqno < old_segs[b + 1].seqno);
                            }
                        }
                    }
                }
                Some(sample)
            },
        }
    }

    /// Cumulative acknowledgement at `now`: every segment below `seqno` leaves the tracker,
    /// in sequence order. One sample per segment acknowledged.
    pub fn mark_acked_lt(&mut self, seqno: u64, now: u64) -> (r: Vec<AckSample>)
        requires
            old(self).wf(),
        ensures
            final(self).wf(),
            r@.len() <= old(self)@.len(),
            final(self)@ == old(self)@.subrange(r@.len() as int, old(self)@.len() as int),
            lost_in(final(self)@) == lost_in(old(self)@) - lost_in(old(self)@.subrange(0, r@.len() as int)),
            forall|j: int| 0 <= j < r@.len() ==> #[trigger] old(self)@[j].seqno < seqno,
            r@.len() < old(self)@.len() ==> old(self)@[r@.len() as int].seqno >= seqno,
            forall|j: int| 0 <= j < r@.len() ==> #[trigger] r@[j] == sample_of(
                old(self)@[j],
                now,
                sat_add(old(self).delivered_count() as nat, (j + 1) as nat),
            ),
            final(self).delivered_count() == sat_add(old(self).delivered_count() as nat, r@.len()),
            forall|x: u64| #[trigger] holds_seqno(final(self)@, x) <==> (holds_seqno(old(self)@, x) && x >= seqno),
            r@.len() == 0 ==> final(self).last_delivery() == old(self).last_delivery(),
            r@.len() > 0 ==> final(self).last_delivery() == now,
    {
        let ghost old_segs = self.segments@;
        let ghost d0 = self.delivered;
        let mut out: Vec<AckSample> = Vec::new();
        let mut lost: usize = 0;
        let mut k: usize = 0;
        while k < self.segments.len() && self.segments[k].seqno < seqno
            invariant
                self.segments@ == old_segs,
                self.lost_count == lost_in(old_segs),
                k <= old_segs.len(),
                out@.len() == k,
                lost == lost_in(old_segs.subrange(0, k as int)),
                lost <= k,
                self.delivered == sat_add(d0 as nat, k as nat),
                k == 0 ==> self.delivered_time == old(self).delivered_time,
                k > 0 ==> self.delivered_time == now,
                forall|j: int| 0 <= j < k ==> #[trigger] old_segs[j].seqno < seqno,
                forall|j: int| 0 <= j < k ==> #[trigger] out@[j] == sample_of(old_segs[j], now, sat_add(d0 as nat, (j + 1) as nat)),
            decreases old_segs.len() - k,
        {
            let e = &self.segments[k];
            self.delivered = sat_add_exec(self.delivered, 1);
            self.delivered_time = now;
            let rtt = if e.retrans == 0 {
                Some(if now >= e.send_time { now - e.send_time } else { 0 })
            } else {
                None
            };
            out.push(AckSample {
                seqno: e.seqno,
                rtt,
                packet_delivered: e.delivered,
                packet_send_time: e.send_time,
                delivered: self.delivered,
                delivered_time: now,
            });
            proof {
                let p = old_segs.subrange(0, k as int);
                let q = old_segs.subrange(0, k + 1);
                assert(q.drop_last() =~= p);
            }
            if e.known_lost {
                lost = lost + 1;
            }
            k = k + 1;
        }
        let rest = self.segments.split_off(k);
        proof {
            let p = old_segs.subrange(0, k as int);
            lemma_lost_concat(p, rest@);
            assert(old_segs =~= p + rest@);
            assert(rest@ =~= old_segs.subrange(k as int, old_segs.len() as int));
            let s = rest@;
            assert forall|x: u64| #[trigger] holds_seqno(s, x) <==> (holds_seqno(old_segs, x) && x >= seqno) by {
                if holds_seqno(s, x) {
                    let m = choose|m: int| 0 <= m < s.len() && #[trigger] s[m].seqno == x;
                    assert(s[m] == old_segs[m + k]);
                    if k < old_segs.len() && m > 0 {
                        assert(old_segs[k as int].seqno < old_segs[m + k].seqno);
                    }
                }
                if holds_seqno(old_segs, x) && x >= seqno {
                    let m = choose|m: int| 0 <= m < old_segs.len() && #[trigger] old_segs[m].seqno == x;
                    if m < k {
                        assert(old_segs[m].seqno < seqno);
                    }
                    assert(s[m - k] == old_segs[m]);
                }
            }
        }
        self.segments = rest;
        self.lost_count = self.lost_count - lost;
        out
    }
}

proof fn lemma_lost_filters(s: Seq<InflightEntry>)
    ensures
        lost_in(s) == s.filter(|e: InflightEntry| e.known_lost).len(),
        s.len() - lost_in(s) == s.filter(|e: InflightEntry| !e.known_lost).len(),
    decreases s.len(),
{
    reveal(Seq::filter);
    if s.len() > 0 {
        lemma_lost_filters(s.drop_last());
        lemma_lost_bound(s.drop_last());
    }
}

/// Accounting of a tracker: the lost count is the number of segments flagged lost, and
/// what is in flight, the unacknowledged count less the lost count, is the number of
/// segments not flagged lost.
pub proof fn lemma_inflight_accounting(t: Inflight)
    requires
        t.wf(),
    ensures
        lost_in(t@) == t@.filter(|e: InflightEntry| e.known_lost).len(),
        lost_in(t@) <= t@.len(),
        t@.len() - lost_in(t@) == t@.filter(|e: InflightEntry| !e.known_lost).len(),
{
    lemma_lost_filters(t@);
    lemma_lost_bound(t@);
}

} // verus!
