use vstd::prelude::*;

verus! {

/// How long, in microseconds, a frame or a gap is watched before it is counted.
pub const LOSS_SETTLE_US: u64 = 1_000_000;

/// A frame number and when it was seen, or when its gap opened.
#[derive(Clone, Copy, Debug, PartialEq, Eq, Structural)]
pub struct Mark {
    pub seqno: u64,
    pub at: u64,
}

/// Whether a mark has been watched long enough at `now` to be counted.
pub open spec fn settled(m: Mark, now: u64) -> bool {
    now > m.at && now - m.at > LOSS_SETTLE_US
}

pub open spec fn marks_seqno(s: Seq<Mark>, seqno: u64) -> bool {
    exists|i: int| 0 <= i < s.len() && #[trigger] s[i].seqno == seqno
}

/// The first `k` marks, and no more, are settled at `now`.
pub open spec fn settled_prefix(s: Seq<Mark>, now: u64, k: int) -> bool {
    &&& 0 <= k <= s.len()
    &&& forall|i: int| 0 <= i < k ==> settled(#[trigger] s[i], now)
    &&& k < s.len() ==> !settled(s[k], now)
}

/// `a + b`, held at the largest `u64`.
pub open spec fn sat_add(a: u64, b: nat) -> u64 {
    if a + b > u64::MAX { u64::MAX } else { (a + b) as u64 }
}

/// Good marks, gap marks and highest number seen after frame `seqno` arrives at `now`,
/// before anything is counted.
pub open spec fn marks_after(good: Seq<Mark>, gaps: Seq<Mark>, last_seen: u64, seqno: u64, now: u64) -> (Seq<Mark>, Seq<Mark>, u64) {
    if marks_seqno(gaps, seqno) {
        let i = choose|i: int| 0 <= i < gaps.len() && #[trigger] gaps[i].seqno == seqno;
        (good.push(Mark { seqno, at: gaps[i].at }), gaps.remove(i), last_seen)
    } else if seqno > last_seen {
        (
            good.push(Mark { seqno, at: now }),
            gaps + Seq::new((seqno - last_seen - 1) as nat, |j: int| Mark { seqno: (last_seen + 1 + j) as u64, at: now }),
            seqno,
        )
    } else {
        (good, gaps, last_seen)
    }
}

/// Counts received frames and gaps in the frame numbers. A gap not filled within a second
/// counts as a lost frame; a frame seen counts as good once a second has passed.
/// Times are microseconds.
pub struct LossCounter {
    last_seen: u64,
    good: Vec<Mark>,
    gaps: Vec<Mark>,
    lost_count: u64,
    good_count: u64,
}

impl LossCounter {
    /// `b` is `a` after recording frame `seqno` at `now`: the marks move as `marks_after`
    /// says, then the settled prefix of each list is counted.
    pub open spec fn recorded(a: LossCounter, seqno: u64, now: u64, b: LossCounter) -> bool {
        let (g, p, l) = marks_after(a.good_marks(), a.gap_marks(), a.last_seen(), seqno, now);
        &&& b.last_seen() == l
        &&& exists|kg: int, kp: int|
            #[trigger] settled_prefix(g, now, kg) && #[trigger] settled_prefix(p, now, kp)
                && b.good_marks() == g.subrange(kg, g.len() as int)
                && b.gap_marks() == p.subrange(kp, p.len() as int)
                && b.good_total() == sat_add(a.good_total(), kg as nat)
                && b.lost() == sat_add(a.lost(), kp as nat)
    }

    pub closed spec fn last_seen(&self) -> u64 {
        self.last_seen
    }

    /// Frames seen and not yet counted.
    pub closed spec fn good_marks(&self) -> Seq<Mark> {
        self.good@
    }

    /// Missing frames not yet counted.
    pub closed spec fn gap_marks(&self) -> Seq<Mark> {
        self.gaps@
    }

    pub closed spec fn lost(&self) -> u64 {
        self.lost_count
    }

    pub closed spec fn good_total(&self) -> u64 {
        self.good_count
    }

    /// Gaps lie below the highest number seen, each number once.
    pub closed spec fn wf(&self) -> bool {
        &&& forall|i: int| 0 <= i < self.gaps@.len() ==> #[trigger] self.gaps@[i].seqno < self.last_seen
        &&& forall|i: int, j: int| 0 <= i < j < self.gaps@.len() ==> #[trigger] self.gaps@[i].seqno != #[trigger] self.gaps@[j].seqno
    }

    /// Nothing seen; the good count starts at one.
    pub fn new() -> (r: Self)
        ensures
            r.wf(),
            r.last_seen() == 0,
            r.good_marks().len() == 0,
            r.gap_marks().len() == 0,
            r.lost() == 0,
            r.good_total() == 1,
    {
        LossCounter { last_seen: 0, good: Vec::new(), gaps: Vec::new(), lost_count: 0, good_count: 1 }
    }

    /// The lost and good counts so far.
    pub fn counts(&self) -> (r: (u64, u64))
        ensures
            r == (self.lost(), self.good_total()),
    {
        (self.lost_count, self.good_count)
    }

    /// Starts a new counting window: both counts go back to zero.
    pub fn reset_counts(&mut self)
        requires
            old(self).wf(),
        ensures
            final(self).wf(),
            final(self).lost() == 0,
            final(self).good_total() == 0,
            final(self).last_seen() == old(self).last_seen(),
            final(self).good_marks() == old(self).good_marks(),
            final(self).gap_marks() == old(self).gap_marks(),
    {
        self.lost_count = 0;
        self.good_count = 0;
    }

    fn find(marks: &Vec<Mark>, seqno: u64) -> (r: Option<usize>)
        ensures
            r.is_none() == !marks_seqno(marks@, seqno),
            r.is_some() ==> r.unwrap() < marks@.len() && marks@[r.unwrap() as int].seqno == seqno,
    {
        let mut i: usize = 0;
        while i < marks.len()
            invariant
                i <= marks@.len(),
                forall|k: int| 0 <= k < i ==> #[trigger] marks@[k].seqno != seqno,
            decreases marks@.len() - i,
        {
            if marks[i].seqno == seqno {
                return Some(i);
            }
            i = i + 1;
        }
        None
    }

    /// Drops the settled marks from the front of `marks`; returns how many.
    fn settle(marks: &mut Vec<Mark>, now: u64) -> (r: usize)
        ensures
            r <= old(marks)@.len(),
            forall|i: int| 0 <= i < r ==> settled(#[trigger] old(marks)@[i], now),
            r < old(marks)@.len() ==> !settled(old(marks)@[r as int], now),
            final(marks)@ == old(marks)@.subrange(r as int, old(marks)@.len() as int),
    {
        let mut k: usize = 0;
        while k < marks.len() && now > marks[k].at && now - marks[k].at > LOSS_SETTLE_US
            invariant
                marks@ == old(marks)@,
                k <= marks@.len(),
                forall|i: int| 0 <= i < k ==> settled(#[trigger] marks@[i], now),
            decreases marks@.len() - k,
        {
            k = k + 1;
        }
        let rest = marks.split_off(k);
        *marks = rest;
        k
    }

    /// Records frame `seqno`, seen at `now`. A frame that fills a gap becomes good with the
    /// gap's time; a frame above all seen opens gaps for the numbers skipped. Then settled
    /// marks at the front of each list are counted, good ones as good and gaps as lost.
    pub fn record(&mut self, seqno: u64, now: u64)
        requires
            old(self).wf(),
        ensures
            final(self).wf(),
            Self::recorded(*old(self), seqno, now, *final(self)),
    {
        let ghost g0 = self.good@;
        let ghost gaps0 = self.gaps@;
        let ghost l0 = self.last_seen;
        match Self::find(&self.gaps, seqno) {
            Some(i) => {
                proof {
                    let c = choose|c: int| 0 <= c < gaps0.len() && #[trigger] gaps0[c].seqno == seqno;
                    if c != i {
                        if c < i {
                            assert(gaps0[c].seqno != gaps0[i as int].seqno);
                        } else {
                            assert(gaps0[i as int].seqno != gaps0[c].seqno);
                        }
                    }
                }
                let gap = self.gaps.remove(i);
                self.good.push(Mark { seqno, at: gap.at });
                proof {
                    let s = self.gaps@;
                    assert forall|a: int, b: int| 0 <= a < b < s.len() implies #[trigger] s[a].seqno != #[trigger] s[b].seqno by {
                        let a2 = if a < i { a } else { a + 1 };
                        let b2 = if b < i { b } else { b + 1 };
                        assert(gaps0[a2].seqno != gaps0[b2].seqno);
                    }
                    assert forall|a: int| 0 <= a < s.len() implies #[trigger] s[a].seqno < self.last_seen by {
                        let a2 = if a < i { a } else { a + 1 };
                        assert(gaps0[a2].seqno < l0);
                    }
                }
            },
            None => {
                if seqno > self.last_seen {
                    let mut missing: u64 = self.last_seen + 1;
                    while missing < seqno
                        invariant
                            l0 < missing <= seqno,
                            self.gaps@ == gaps0 + Seq::new((missing - l0 - 1) as nat, |j: int| Mark { seqno: (l0 + 1 + j) as u64, at: now }),
                            self.good@ == g0,
                            self.last_seen == l0,
                            self.good_count == old(self).good_count,
                            self.lost_count == old(self).lost_count,
                        decreases seqno - missing,
                    {
                        self.gaps.push(Mark { seqno: missing, at: now });
                        missing = missing + 1;
                        assert(self.gaps@ =~= gaps0 + Seq::new((missing - l0 - 1) as nat, |j: int| Mark { seqno: (l0 + 1 + j) as u64, at: now }));
                    }
                    self.last_seen = seqno;
                    self.good.push(Mark { seqno, at: now });
                    proof {
                        let s = self.gaps@;
                        assert forall|a: int| 0 <= a < s.len() implies #[trigger] s[a].seqno < seqno by {
                            if a < gaps0.len() {
                                assert(gaps0[a].seqno < l0);
                            }
                        }
                        assert forall|a: int, b: int| 0 <= a < b < s.len() implies #[trigger] s[a].seqno != #[trigger] s[b].seqno by {
                            if b < gaps0.len() {
                                assert(gaps0[a].seqno != gaps0[b].seqno);
                            } else if a < gaps0.len() {
                                assert(gaps0[a].seqno < l0);
                            }
                        }
                    }
                }
            },
        }
        let ghost g1 = self.good@;
        let ghost gaps1 = self.gaps@;
        proof {
            assert((g1, gaps1, self.last_seen) == marks_after(g0, gaps0, l0, seqno, now));
        }
        let kg = Self::settle(&mut self.good, now);
        let kp = Self::settle(&mut self.gaps, now);
        proof {
            let s = self.gaps@;
            assert forall|a: int| 0 <= a < s.len() implies #[trigger] s[a].seqno < self.last_seen by {
                assert(s[a] == gaps1[a + kp]);
            }
            assert forall|a: int, b: int| 0 <= a < b < s.len() implies #[trigger] s[a].seqno != #[trigger] s[b].seqno by {
                assert(s[a] == gaps1[a + kp]);
                assert(s[b] == gaps1[b + kp]);
            }
            assert(settled_prefix(g1, now, kg as int));
            assert(settled_prefix(gaps1, now, kp as int));
        }
        self.good_count = if self.good_count > u64::MAX - kg as u64 { u64::MAX } else { self.good_count + kg as u64 };
        self.lost_count = if self.lost_count > u64::MAX - kp as u64 { u64::MAX } else { self.lost_count + kp as u64 };
        proof {
            assert(old(self).good_marks() == g0 && old(self).gap_marks() == gaps0 && old(self).last_seen() == l0);
            assert(self.good_total() == sat_add(old(self).good_total(), kg as nat));
            assert(self.lost() == sat_add(old(self).lost(), kp as nat));
            assert(self.good_marks() == g1.subrange(kg as int, g1.len() as int));
            assert(self.gap_marks() == gaps1.subrange(kp as int, gaps1.len() as int));
            assert(settled_prefix(g1, now, kg as int) && settled_prefix(gaps1, now, kp as int));
            let m = marks_after(old(self).good_marks(), old(self).gap_marks(), old(self).last_seen(), seqno, now);
            assert(m.0 == g1 && m.1 == gaps1 && m.2 == self.last_seen());
            assert(settled_prefix(m.0, now, kg as int) && settled_prefix(m.1, now, kp as int)
                && self.good_marks() == m.0.subrange(kg as int, m.0.len() as int)
                && self.gap_marks() == m.1.subrange(kp as int, m.1.len() as int)
                && self.good_total() == sat_add(old(self).good_total(), kg as nat)
                && self.lost() == sat_add(old(self).lost(), kp as nat));
        }
    }
}

} // verus!
