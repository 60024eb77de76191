use crate::buffer::Buff;
use crate::inflight::{after_ack, sample_of, sat_add, holds_seqno, lemma_inflight_accounting, lost_in, resent, sorted_by_seqno, AckSample, Inflight, InflightEntry};
use crate::reorder::{has_slot, one_of, slot_data, Reorderer, ReorderSlot};
use crate::stream::{send_gates, SendGates, ACK_BATCH};
use vstd::prelude::*;

verus! {

/// `x` is entry `e`, except that its retransmission may have been moved up to `now`.
pub open spec fn kept_from(x: InflightEntry, e: InflightEntry, now: u64) -> bool {
    &&& x.seqno == e.seqno && x.send_time == e.send_time && x.retrans == e.retrans
    &&& x.payload == e.payload && x.delivered == e.delivered && x.delivered_time == e.delivered_time
    &&& x.known_lost == e.known_lost
    &&& (x.retrans_time == e.retrans_time || x.retrans_time == now)
}

/// `x` comes from one of the entries `s`, as `kept_from` says.
pub open spec fn kept_in(s: Seq<InflightEntry>, x: InflightEntry, now: u64) -> bool {
    exists|i: int| 0 <= i < s.len() && kept_from(x, s[i], now)
}

/// `smp` is what acknowledging one of the entries `s` at `now` reports.
pub open spec fn acked_from(s: Seq<InflightEntry>, smp: AckSample, now: u64) -> bool {
    exists|i: int| 0 <= i < s.len() && s[i].seqno == smp.seqno && smp == sample_of(s[i], now, smp.delivered)
}

pub open spec fn strictly_sorted(s: Seq<u64>) -> bool {
    forall|i: int, j: int| 0 <= i < j < s.len() ==> #[trigger] s[i] < #[trigger] s[j]
}

/// The state of one stream in steady state, and its reactions to the stream's events.
/// Times are microseconds.
pub struct ConnVars {
    next_free_seqno: u64,
    inflight: Inflight,
    reorderer: Reorderer,
    ack_seqnos: Vec<u64>,
    closing: bool,
    last_loss: Option<u64>,
}

impl ConnVars {
    pub closed spec fn next_free(&self) -> u64 {
        self.next_free_seqno
    }

    pub closed spec fn sent(&self) -> Seq<InflightEntry> {
        self.inflight@
    }

    pub closed spec fn lowest_unseen(&self) -> u64 {
        self.reorderer.lowest_unseen()
    }

    pub closed spec fn waiting(&self) -> Seq<ReorderSlot> {
        self.reorderer.waiting()
    }

    /// Received sequence numbers not yet acknowledged, in order.
    pub closed spec fn pending_acks(&self) -> Seq<u64> {
        self.ack_seqnos@
    }

    /// When the congestion controller was last told of a loss.
    pub closed spec fn last_loss(&self) -> Option<u64> {
        self.last_loss
    }

    pub closed spec fn is_closing(&self) -> bool {
        self.closing
    }

    pub closed spec fn wf(&self) -> bool {
        &&& self.inflight.wf()
        &&& self.reorderer.wf()
        &&& strictly_sorted(self.ack_seqnos@)
        &&& forall|i: int| 0 <= i < self.inflight@.len() ==> (#[trigger] self.inflight@[i]).seqno < self.next_free_seqno
        &&& self.reorderer.lowest_unseen() < u64::MAX ==> !has_slot(self.reorderer.waiting(), self.reorderer.lowest_unseen())
    }

    /// A fresh stream at `now`: nothing sent, nothing received.
    pub fn new(now: u64) -> (r: Self)
        ensures
            r.wf(),
            r.next_free() == 0,
            r.sent().len() == 0,
            r.lowest_unseen() == 0,
            r.waiting().len() == 0,
            r.pending_acks().len() == 0,
            !r.is_closing(),
    {
        ConnVars {
            next_free_seqno: 0,
            inflight: Inflight::new(now),
            reorderer: Reorderer::new(),
            ack_seqnos: Vec::new(),
            closing: false,
            last_loss: None,
        }
    }

    /// A retransmission timer fired at `now`: whether to tell the congestion controller of a
    /// loss. Not when the window `cwnd` is within the bandwidth-delay product `bdp` (the loss
    /// was not caused by this stream), nor more than once per minimum RTT `min_rtt`.
    pub fn loss_signal(&mut self, cwnd: usize, bdp: usize, now: u64, min_rtt: u64) -> (r: bool)
        requires
            old(self).wf(),
        ensures
            final(self).wf(),
            final(self).sent() == old(self).sent(),
            final(self).lowest_unseen() == old(self).lowest_unseen(),
            final(self).next_free() == old(self).next_free(),
            r == (cwnd > bdp && match old(self).last_loss() {
                None => true,
                Some(t) => now > t && now - t > min_rtt,
            }),
            r ==> final(self).last_loss() == Some(now),
            !r ==> final(self).last_loss() == old(self).last_loss(),
    {
        if cwnd <= bdp {
            return false;
        }
        let fire = match self.last_loss {
            None => true,
            Some(t) => now > t && now - t > min_rtt,
        };
        if fire {
            self.last_loss = Some(now);
        }
        fire
    }

    /// Segments sent and not acknowledged.
    pub fn unacked(&self) -> (r: usize)
        requires
            self.wf(),
        ensures
            r == self.sent().len(),
    {
        self.inflight.unacked()
    }

    /// Unacknowledged segments flagged lost: the number of entries that carry the flag.
    pub fn lost_count(&self) -> (r: usize)
        requires
            self.wf(),
        ensures
            r == lost_in(self.sent()),
            r == self.sent().filter(|e: InflightEntry| e.known_lost).len(),
            r <= self.sent().len(),
    {
        proof {
            lemma_inflight_accounting(self.inflight);
        }
        self.inflight.lost_count()
    }

    /// A stream's sent segments are in strictly increasing sequence order.
    pub proof fn lemma_sent_sorted(&self)
        requires
            self.wf(),
        ensures
            sorted_by_seqno(self.sent()),
    {
        self.inflight.lemma_sorted();
    }

    /// The writer closed: no new segment goes out from now on.
    pub fn start_closing(&mut self)
        requires
            old(self).wf(),
        ensures
            final(self).wf(),
            final(self).is_closing(),
            final(self).sent() == old(self).sent(),
    {
        self.closing = true;
    }

    /// Whether the stream is done: closing, and everything sent was acknowledged.
    pub fn check_closed(&self) -> (r: bool)
        ensures
            r == (self.is_closing() && self.sent().len() == 0),
    {
        self.closing && self.inflight.unacked() == 0
    }

    /// What the congestion window `cwnd` allows now.
    pub fn gates(&self, cwnd: usize) -> (r: SendGates)
        requires
            self.wf(),
        ensures
            r.can_retransmit == (self.sent().len() - lost_in(self.sent()) <= cwnd && (if self.sent().len() == 0 {
                0
            } else {
                self.sent().last().seqno - self.sent()[0].seqno
            }) <= crate::stream::MAX_SEQNO_SPREAD),
            r.can_write_new == (r.can_retransmit && self.sent().len() <= cwnd && !self.is_closing() && lost_in(
                self.sent(),
            ) == 0),
    {
        let lost = self.inflight.lost_count();
        send_gates(
            self.inflight.inflight(),
            self.inflight.unacked(),
            cwnd,
            self.inflight.last_minus_first(),
            self.closing,
            lost > 0,
        )
    }

    /// The next lost segment to resend, the lowest.
    pub fn next_retransmit(&self) -> (r: Option<u64>)
        requires
            self.wf(),
        ensures
            r.is_none() == (forall|i: int| 0 <= i < self.sent().len() ==> !(#[trigger] self.sent()[i]).known_lost),
            r.is_some() ==> exists|i: int|
                0 <= i < self.sent().len() && (#[trigger] self.sent()[i]).known_lost && self.sent()[i].seqno == r.unwrap(),
    {
        proof {
            assert(self.sent() == self.inflight@);
        }
        self.inflight.first_lost()
    }

    /// Sends a new segment carrying `payload` at `now`; returns its sequence number.
    pub fn on_write(&mut self, payload: Buff, now: u64, rto: u64) -> (r: u64)
        requires
            old(self).wf(),
            old(self).next_free() < u64::MAX,
        ensures
            final(self).wf(),
            r == old(self).next_free(),
            final(self).next_free() == r + 1,
            final(self).sent().len() == old(self).sent().len() + 1,
            holds_seqno(final(self).sent(), r),
            exists|i: int|
                0 <= i < final(self).sent().len() && #[trigger] final(self).sent()[i].seqno == r && final(self).sent()[i].payload
                    == payload && final(self).sent()[i].send_time == now && final(self).sent()[i].retrans == 0
                    && !final(self).sent()[i].known_lost,
            final(self).lowest_unseen() == old(self).lowest_unseen(),
    {
        let seqno = self.next_free_seqno;
        let ghost before = self.inflight@;
        self.inflight.insert(seqno, payload, now, rto);
        self.next_free_seqno = seqno + 1;
        proof {
            let s = self.inflight@;
            assert forall|i: int| 0 <= i < s.len() implies (#[trigger] s[i]).seqno < self.next_free_seqno by {
                assert(holds_seqno(s, s[i].seqno));
                if s[i].seqno != seqno {
                    assert(holds_seqno(before, s[i].seqno));
                    let k = choose|k: int| 0 <= k < before.len() && #[trigger] before[k].seqno == s[i].seqno;
                }
            }
            assert(holds_seqno(s, seqno));
            assert(self.sent() == s);
        }
        seqno
    }

    /// The retransmission timer of `seqno` fired: it is flagged as lost, to be resent when
    /// the window allows.
    pub fn on_rto(&mut self, seqno: u64) -> (r: bool)
        requires
            old(self).wf(),
        ensures
            final(self).wf(),
            r == holds_seqno(old(self).sent(), seqno),
            final(self).sent().len() == old(self).sent().len(),
            final(self).next_free() == old(self).next_free(),
            !r ==> final(self).sent() == old(self).sent(),
            r ==> exists|i: int|
                0 <= i < old(self).sent().len() && old(self).sent()[i].seqno == seqno && final(self).sent()
                    == old(self).sent().update(i, (InflightEntry { known_lost: true, ..old(self).sent()[i] })),
    {
        let ghost before = self.inflight@;
        let r = self.inflight.mark_lost(seqno);
        proof {
            let s = self.inflight@;
            assert forall|i: int| 0 <= i < s.len() implies (#[trigger] s[i]).seqno < self.next_free_seqno by {
                assert(s[i].seqno == before[i].seqno);
            }
        }
        r
    }

    /// An acknowledgement came in: everything below `cumulative` is acknowledged, then each
    /// number of `sacks`. One sample per segment that left the tracker, for the estimators
    /// and the congestion controller.
    pub fn on_data_ack(&mut self, cumulative: u64, sacks: &[u64], now: u64, rtt_var: u64) -> (r: Vec<AckSample>)
        requires
            old(self).wf(),
        ensures
            final(self).wf(),
            final(self).next_free() == old(self).next_free(),
            final(self).sent().len() + r@.len() == old(self).sent().len(),
            forall|x: u64| #[trigger] holds_seqno(final(self).sent(), x) <==> (holds_seqno(old(self).sent(), x)
                && x >= cumulative && !sacks@.contains(x)),
            forall|t: int| 0 <= t < final(self).sent().len() ==> kept_in(old(self).sent(), #[trigger] final(self).sent()[t], now),
            forall|q: int| 0 <= q < r@.len() ==> acked_from(old(self).sent(), #[trigger] r@[q], now)
                && !holds_seqno(final(self).sent(), r@[q].seqno),
            final(self).lowest_unseen() == old(self).lowest_unseen(),
            final(self).waiting() == old(self).waiting(),
            final(self).pending_acks() == old(self).pending_acks(),
            final(self).is_closing() == old(self).is_closing(),
            final(self).last_loss() == old(self).last_loss(),
    {
        let ghost s0 = self.inflight@;
        let mut out = self.inflight.mark_acked_lt(cumulative, now);
        proof {
            let c = self.inflight@;
            assert forall|t: int| 0 <= t < c.len() implies kept_in(s0, #[trigger] c[t], now) by {
                assert(c[t] == s0[t + out@.len()]);
                assert(kept_from(c[t], s0[t + out@.len()], now));
            }
            assert forall|q: int| 0 <= q < out@.len() implies acked_from(s0, #[trigger] out@[q], now)
                && !holds_seqno(self.inflight@, out@[q].seqno) by {
                assert(s0[q].seqno < cumulative);
                assert(out@[q].seqno == s0[q].seqno);
            }
        }
        let mut k: usize = 0;
        while k < sacks.len()
            invariant
                self.inflight.wf(),
                self.reorderer == old(self).reorderer,
                self.ack_seqnos == old(self).ack_seqnos,
                self.next_free_seqno == old(self).next_free_seqno,
                self.closing == old(self).closing,
                self.last_loss == old(self).last_loss,
                k <= sacks@.len(),
                self.inflight@.len() + out@.len() == s0.len(),
                forall|t: int| 0 <= t < self.inflight@.len() ==> kept_in(s0, #[trigger] self.inflight@[t], now),
                forall|q: int| 0 <= q < out@.len() ==> acked_from(s0, #[trigger] out@[q], now)
                    && !holds_seqno(self.inflight@, out@[q].seqno),
                forall|x: u64| #[trigger] holds_seqno(self.inflight@, x) <==> (holds_seqno(s0, x) && x >= cumulative
                    && !sacks@.subrange(0, k as int).contains(x)),
            decreases sacks@.len() - k,
        {
            let ghost before = self.inflight@;
            let ghost out0 = out@;
            let ghost dc = self.inflight.delivered_count();
            let sack = sacks[k];
            match self.inflight.mark_acked(sack, now, rtt_var) {
                Some(sample) => {
                    proof {
                        let c = self.inflight@;
                        let i = choose|i: int| 0 <= i < before.len() && before[i].seqno == sack
                            && c == after_ack(before.remove(i), sack, before[i].retrans_time, now, rtt_var)
                            && sample == sample_of(before[i], now, sat_add(dc as nat, 1));
                        assert(kept_in(s0, before[i], now));
                        let i2 = choose|i2: int| 0 <= i2 < s0.len() && kept_from(before[i], s0[i2], now);
                        assert(acked_from(s0, sample, now));
                    }
                    out.push(sample);
                },
                None => {},
            }
            proof {
                let c = self.inflight@;
                assert forall|t: int| 0 <= t < c.len() implies kept_in(s0, #[trigger] c[t], now) by {
                    if out@.len() > out0.len() {
                        let i = choose|i: int| 0 <= i < before.len() && before[i].seqno == sack
                            && c == after_ack(before.remove(i), sack, before[i].retrans_time, now, rtt_var);
                        let t2 = if t < i { t } else { t + 1 };
                        assert(before.remove(i)[t] == before[t2]);
                        assert(kept_from(c[t], before[t2], now));
                        assert(kept_in(s0, before[t2], now));
                        let i2 = choose|i2: int| 0 <= i2 < s0.len() && kept_from(before[t2], s0[i2], now);
                        assert(kept_from(c[t], s0[i2], now));
                    } else {
                        assert(c[t] == before[t]);
                    }
                }
                assert forall|q: int| 0 <= q < out@.len() implies acked_from(s0, #[trigger] out@[q], now)
                    && !holds_seqno(c, out@[q].seqno) by {
                    if q < out0.len() {
                        assert(out@[q] == out0[q]);
                        assert(!holds_seqno(before, out0[q].seqno));
                    } else {
                        assert(out@[q].seqno == sack);
                    }
                }
                assert forall|x: u64| #[trigger] holds_seqno(self.inflight@, x) <==> (holds_seqno(s0, x) && x >= cumulative
                    && !sacks@.subrange(0, k + 1).contains(x)) by {
                    if sacks@.subrange(0, k + 1).contains(x) && x != sack {
                        let m = choose|m: int| 0 <= m < k + 1 && #[trigger] sacks@.subrange(0, k + 1)[m] == x;
                        assert(sacks@.subrange(0, k as int)[m] == x);
                    }
                    if sacks@.subrange(0, k as int).contains(x) {
                        let m = choose|m: int| 0 <= m < k && #[trigger] sacks@.subrange(0, k as int)[m] == x;
                        assert(sacks@.subrange(0, k + 1)[m] == x);
                    }
                    assert(sacks@.subrange(0, k + 1)[k as int] == sack);
                }
            }
            k = k + 1;
        }
        proof {
            assert(sacks@.subrange(0, k as int) =~= sacks@);
            let s = self.inflight@;
            assert forall|i: int| 0 <= i < s.len() implies (#[trigger] s[i]).seqno < self.next_free_seqno by {
                assert(holds_seqno(s, s[i].seqno));
                let m = choose|m: int| 0 <= m < s0.len() && #[trigger] s0[m].seqno == s[i].seqno;
            }
        }
        out
    }

    /// Resends the lost segment `seqno` at `now`: its payload, if it is unacknowledged.
    pub fn on_retransmit(&mut self, seqno: u64, now: u64, rto: u64) -> (r: Option<Buff>)
        requires
            old(self).wf(),
            forall|i: int| 0 <= i < old(self).sent().len() && #[trigger] old(self).sent()[i].seqno == seqno
                ==> old(self).sent()[i].known_lost,
        ensures
            final(self).wf(),
            r.is_some() == holds_seqno(old(self).sent(), seqno),
            final(self).sent().len() == old(self).sent().len(),
            final(self).next_free() == old(self).next_free(),
            r.is_none() ==> final(self).sent() == old(self).sent(),
            r.is_some() ==> exists|i: int|
                0 <= i < old(self).sent().len() && old(self).sent()[i].seqno == seqno
                    && final(self).sent() == old(self).sent().update(i, resent(old(self).sent()[i], now, rto))
                    && r.unwrap()@ == old(self).sent()[i].payload@,
    {
        let ghost before = self.inflight@;
        proof {
            assert(self.sent() == before);
        }
        let r = self.inflight.retransmit(seqno, now, rto);
        proof {
            let s = self.inflight@;
            assert forall|i: int| 0 <= i < s.len() implies (#[trigger] s[i]).seqno < self.next_free_seqno by {
                assert(s[i].seqno == before[i].seqno);
            }
        }
        r
    }

    /// A data segment came in: it is stored unless already seen, queued for acknowledgement
    /// if it was new, and whatever is now in order goes to the reader.
    pub fn on_data(&mut self, seqno: u64, payload: Buff) -> (r: Vec<Buff>)
        requires
            old(self).wf(),
        ensures
            final(self).wf(),
            final(self).sent() == old(self).sent(),
            (seqno >= old(self).lowest_unseen() && !has_slot(old(self).waiting(), seqno))
                ==> final(self).pending_acks().contains(seqno),
            final(self).lowest_unseen() == old(self).lowest_unseen() + r@.len(),
            forall|j: int| 0 <= j < r@.len() ==> (old(self).lowest_unseen() + j == seqno && #[trigger] r@[j]@ == payload@)
                || slot_data(old(self).waiting(), old(self).lowest_unseen() + j, r@[j]@),
            (seqno >= old(self).lowest_unseen() && !has_slot(old(self).waiting(), seqno))
                ==> has_slot(final(self).waiting(), seqno) || seqno < final(self).lowest_unseen(),
            !(seqno >= old(self).lowest_unseen() && !has_slot(old(self).waiting(), seqno))
                ==> r@.len() == 0 && final(self).lowest_unseen() == old(self).lowest_unseen(),
            final(self).lowest_unseen() < u64::MAX ==> !has_slot(final(self).waiting(), final(self).lowest_unseen()),
    {
        let ghost w0 = self.reorderer.waiting();
        let ghost pl = payload@;
        let fresh = self.reorderer.insert(seqno, payload);
        let ghost w1 = self.reorderer.waiting();
        let out = self.reorderer.take();
        if fresh {
            self.insert_ack(seqno);
        }
        proof {
            assert forall|j: int| 0 <= j < out@.len() implies (old(self).lowest_unseen() + j == seqno && #[trigger] out@[j]@ == pl)
                || slot_data(w0, old(self).lowest_unseen() + j, out@[j]@) by {
                assert(slot_data(w1, old(self).lowest_unseen() + j, out@[j]@));
                let i = choose|i: int| 0 <= i < w1.len() && #[trigger] w1[i].seqno == old(self).lowest_unseen() + j
                    && out@[j]@ == w1[i].data@;
                if i < w0.len() {
                    assert(w1[i] == w0[i]);
                }
            }
            let l0 = old(self).lowest_unseen();
            if !fresh {
                assert(w1 == w0);
                if out@.len() > 0 {
                    assert(slot_data(w1, l0 + 0, out@[0]@));
                    let i = choose|i: int| 0 <= i < w1.len() && #[trigger] w1[i].seqno == l0 + 0 && out@[0]@ == w1[i].data@;
                    assert(has_slot(w0, l0));
                }
            } else {
                let k = (w1.len() - 1) as int;
                assert(w1[k].seqno == seqno);
                if seqno >= self.reorderer.lowest_unseen() {
                    assert(one_of(self.reorderer.waiting(), w1[k]));
                    let m = choose|m: int| 0 <= m < self.reorderer.waiting().len() && self.reorderer.waiting()[m] == w1[k];
                    assert(self.reorderer.waiting()[m].seqno == seqno);
                }
            }
        }
        out
    }

    fn insert_ack(&mut self, seqno: u64)
        requires
            old(self).wf(),
        ensures
            final(self).wf(),
            final(self).pending_acks().contains(seqno),
            final(self).sent() == old(self).sent(),
            final(self).reorderer == old(self).reorderer,
            final(self).next_free() == old(self).next_free(),
            final(self).closing == old(self).closing,
    {
        let mut i: usize = 0;
        while i < self.ack_seqnos.len() && self.ack_seqnos[i] < seqno
            invariant
                i <= self.ack_seqnos@.len(),
                forall|k: int| 0 <= k < i ==> #[trigger] self.ack_seqnos@[k] < seqno,
            decreases self.ack_seqnos@.len() - i,
        {
            i = i + 1;
        }
        if i < self.ack_seqnos.len() && self.ack_seqnos[i] == seqno {
            assert(self.ack_seqnos@[i as int] == seqno);
            return;
        }
        let ghost before = self.ack_seqnos@;
        self.ack_seqnos.insert(i, seqno);
        proof {
            let s = self.ack_seqnos@;
            assert(s[i as int] == seqno);
            assert forall|a: int, b: int| 0 <= a < b < s.len() implies #[trigger] s[a] < #[trigger] s[b] by {
                if a < i && b > i {
                    assert(before[a] < seqno);
                    if b - 1 > i {
                        assert(before[i as int] < before[b - 1]);
                    }
                } else if b < i {
                    assert(before[a] < before[b]);
                } else if a > i {
                    assert(before[a - 1] < before[b - 1]);
                } else if a == i {
                    if b - 1 > i {
                        assert(before[i as int] < before[b - 1]);
                    }
                }
            }
        }
    }

    /// Whether enough acknowledgements are pending to send them without waiting.
    pub fn ack_batch_full(&self) -> (r: bool)
        ensures
            r == (self.pending_acks().len() >= ACK_BATCH),
    {
        self.ack_seqnos.len() >= ACK_BATCH
    }

    /// The acknowledgement to send: the lowest sequence number not yet delivered, and the
    /// numbers received since the last one, in order. The pending list is emptied.
    pub fn take_acks(&mut self) -> (r: (u64, Vec<u64>))
        requires
            old(self).wf(),
        ensures
            final(self).wf(),
            r.0 == old(self).lowest_unseen(),
            r.1@ == old(self).pending_acks(),
            strictly_sorted(r.1@),
            final(self).pending_acks().len() == 0,
            final(self).sent() == old(self).sent(),
    {
        let acks = self.ack_seqnos.split_off(0);
        proof {
            assert(acks@ =~= old(self).ack_seqnos@);
        }
        (self.reorderer.lowest(), acks)
    }
}

} // verus!
