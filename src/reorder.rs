use crate::buffer::Buff;
use vstd::prelude::*;

verus! {

/// A received segment waiting for the ones before it.
pub struct ReorderSlot {
    pub seqno: u64,
    pub data: Buff,
}

pub open spec fn has_slot(p: Seq<ReorderSlot>, s: u64) -> bool {
    exists|i: int| 0 <= i < p.len() && #[trigger] p[i].seqno == s
}

/// `d` is the data of the waiting segment numbered `s`.
pub open spec fn slot_data(p: Seq<ReorderSlot>, s: int, d: Seq<u8>) -> bool {
    exists|i: int| 0 <= i < p.len() && #[trigger] p[i].seqno == s && d == p[i].data@
}

/// `x` is one of the slots of `p`.
pub open spec fn one_of(p: Seq<ReorderSlot>, x: ReorderSlot) -> bool {
    exists|k: int| 0 <= k < p.len() && p[k] == x
}

/// The receive side of a stream: segments that arrived ahead of the lowest one not yet
/// delivered wait here until the gap before them is filled.
pub struct Reorderer {
    lowest: u64,
    pending: Vec<ReorderSlot>,
}

impl Reorderer {
    /// The lowest sequence number not yet delivered.
    pub closed spec fn lowest_unseen(&self) -> u64 {
        self.lowest
    }

    /// The segments waiting.
    pub closed spec fn waiting(&self) -> Seq<ReorderSlot> {
        self.pending@
    }

    /// Waiting segments are all at or above the lowest undelivered number, each number once.
    pub closed spec fn wf(&self) -> bool {
        &&& forall|i: int| 0 <= i < self.pending@.len() ==> #[trigger] self.pending@[i].seqno >= self.lowest
        &&& forall|i: int, j: int|
            0 <= i < j < self.pending@.len() ==> #[trigger] self.pending@[i].seqno != #[trigger] self.pending@[j].seqno
    }

    /// Nothing delivered and nothing waiting.
    pub fn new() -> (r: Self)
        ensures
            r.wf(),
            r.lowest_unseen() == 0,
            r.waiting().len() == 0,
    {
        Reorderer { lowest: 0, pending: Vec::new() }
    }

    /// The lowest sequence number not yet delivered.
    pub fn lowest(&self) -> (r: u64)
        ensures
            r == self.lowest_unseen(),
    {
        self.lowest
    }

    /// Stores a segment that arrived; `false` if it was delivered or is waiting already.
    pub fn insert(&mut self, seqno: u64, data: Buff) -> (r: bool)
        requires
            old(self).wf(),
        ensures
            final(self).wf(),
            final(self).lowest_unseen() == old(self).lowest_unseen(),
            r == (seqno >= old(self).lowest_unseen() && !has_slot(old(self).waiting(), seqno)),
            r ==> final(self).waiting() == old(self).waiting().push(ReorderSlot { seqno, data }),
            !r ==> final(self).waiting() == old(self).waiting(),
    {
        if seqno < self.lowest {
            return false;
        }
        let mut i: usize = 0;
        while i < self.pending.len()
            invariant
                self.pending@ == old(self).pending@,
                self.lowest == old(self).lowest,
                self.wf(),
                i <= self.pending@.len(),
                forall|k: int| 0 <= k < i ==> #[trigger] self.pending@[k].seqno != seqno,
            decreases self.pending@.len() - i,
        {
            if self.pending[i].seqno == seqno {
                assert(self.pending@[i as int].seqno == seqno);
                return false;
            }
            i = i + 1;
        }
        self.pending.push(ReorderSlot { seqno, data });
        true
    }

    /// Takes the segments that are now contiguous from the lowest undelivered number, in
    /// order, and moves that number past them.
    pub fn take(&mut self) -> (r: Vec<Buff>)
        requires
            old(self).wf(),
        ensures
            final(self).wf(),
            final(self).lowest_unseen() == old(self).lowest_unseen() + r@.len(),
            forall|j: int| 0 <= j < r@.len() ==> slot_data(old(self).waiting(), old(self).lowest_unseen() + j, #[trigger] r@[j]@),
            final(self).lowest_unseen() < u64::MAX ==> !has_slot(final(self).waiting(), final(self).lowest_unseen()),
            forall|i: int| 0 <= i < final(self).waiting().len() ==> one_of(old(self).waiting(), #[trigger] final(self).waiting()[i]),
            forall|k: int| 0 <= k < old(self).waiting().len() && #[trigger] old(self).waiting()[k].seqno >= final(self).lowest_unseen()
                ==> one_of(final(self).waiting(), old(self).waiting()[k]),
    {
        let mut out: Vec<Buff> = Vec::new();
        let ghost l0 = self.lowest;
        let ghost start = self.pending@;
        assert forall|i: int| 0 <= i < start.len() implies one_of(start, #[trigger] start[i]) by {
            assert(start[i] == start[i]);
        }
        assert forall|k: int| 0 <= k < start.len() && #[trigger] start[k].seqno >= self.lowest implies one_of(self.pending@, start[k]) by {
            assert(self.pending@[k] == start[k]);
        }
        loop
            invariant
                self.wf(),
                self.lowest == l0 + out@.len(),
                forall|j: int| 0 <= j < out@.len() ==> slot_data(start, l0 + j, #[trigger] out@[j]@),
                forall|i: int| 0 <= i < self.pending@.len() ==> one_of(start, #[trigger] self.pending@[i]),
                forall|k: int| 0 <= k < start.len() && #[trigger] start[k].seqno >= self.lowest ==> one_of(self.pending@, start[k]),
            ensures
                self.wf(),
                self.lowest == l0 + out@.len(),
                forall|j: int| 0 <= j < out@.len() ==> slot_data(start, l0 + j, #[trigger] out@[j]@),
                forall|i: int| 0 <= i < self.pending@.len() ==> one_of(start, #[trigger] self.pending@[i]),
                forall|k: int| 0 <= k < start.len() && #[trigger] start[k].seqno >= self.lowest ==> one_of(self.pending@, start[k]),
                self.lowest < u64::MAX ==> !has_slot(self.pending@, self.lowest),
            decreases self.pending@.len(),
        {
            if self.lowest == u64::MAX {
                break;
            }
            let mut i: usize = 0;
            while i < self.pending.len() && self.pending[i].seqno != self.lowest
                invariant
                    i <= self.pending@.len(),
                    forall|k: int| 0 <= k < i ==> #[trigger] self.pending@[k].seqno != self.lowest,
                decreases self.pending@.len() - i,
            {
                i = i + 1;
            }
            if i == self.pending.len() {
                break;
            }
            let ghost before = self.pending@;
            let slot = self.pending.remove(i);
            proof {
                let s = self.pending@;
                assert(s == before.remove(i as int));
                assert(one_of(start, before[i as int]));
                assert forall|a: int, b: int| 0 <= a < b < s.len() implies #[trigger] s[a].seqno != #[trigger] s[b].seqno by {
                    let a2 = if a < i { a } else { a + 1 };
                    let b2 = if b < i { b } else { b + 1 };
                    assert(before[a2].seqno != before[b2].seqno);
                }
                assert forall|a: int| 0 <= a < s.len() implies #[trigger] s[a].seqno > self.lowest by {
                    let a2 = if a < i { a } else { a + 1 };
                    assert(before[a2].seqno != before[i as int].seqno);
                    assert(before[a2].seqno >= self.lowest);
                }
                assert forall|a: int| 0 <= a < s.len() implies one_of(start, #[trigger] s[a]) by {
                    let a2 = if a < i { a } else { a + 1 };
                    assert(s[a] == before[a2]);
                    assert(one_of(start, before[a2]));
                }
                assert forall|k: int| 0 <= k < start.len() && #[trigger] start[k].seqno >= self.lowest + 1 implies one_of(s, start[k]) by {
                    assert(one_of(before, start[k]));
                    let m = choose|m: int| 0 <= m < before.len() && before[m] == start[k];
                    assert(m != i);
                    if m < i {
                        assert(s[m] == before[m]);
                    } else {
                        assert(s[m - 1] == before[m]);
                    }
                }
            }
            let ghost n = out@.len() as int;
            out.push(slot.data);
            proof {
                let k = choose|k: int| 0 <= k < start.len() && start[k] == before[i as int];
                assert(start[k].seqno == l0 + n && out@[n]@ == start[k].data@);
                assert(slot_data(start, l0 + n, out@[n]@));
            }
            self.lowest = self.lowest + 1;
        }
        out
    }
}

/// Every waiting segment carries what the writer sent under its number; `w[s]` is the
/// writer's chunk numbered `s`.
pub open spec fn matches_writer(p: Seq<ReorderSlot>, w: Seq<Seq<u8>>) -> bool {
    forall|i: int| 0 <= i < p.len() ==> p[i].seqno < w.len() && #[trigger] p[i].data@ == w[p[i].seqno as int]
}

/// In-order delivery. If the reader has received exactly the writer's chunks below the
/// lowest undelivered number, and the waiting segments carry the writer's data, then what
/// `take` hands out next continues the writer's chunks in order, with no gap or repeat.
pub proof fn lemma_delivery_in_order(
    w: Seq<Seq<u8>>,
    delivered: Seq<Seq<u8>>,
    lowest: u64,
    waiting: Seq<ReorderSlot>,
    out: Seq<Seq<u8>>,
)
    requires
        lowest <= w.len(),
        delivered == w.subrange(0, lowest as int),
        matches_writer(waiting, w),
        forall|j: int| 0 <= j < out.len() ==> slot_data(waiting, lowest + j, #[trigger] out[j]),
    ensures
        lowest + out.len() <= w.len(),
        delivered + out == w.subrange(0, lowest + out.len()),
{
    assert forall|j: int| 0 <= j < out.len() implies #[trigger] out[j] == w[lowest + j] && lowest + j < w.len() by {
        assert(slot_data(waiting, lowest + j, out[j]));
        let i = choose|i: int| 0 <= i < waiting.len() && #[trigger] waiting[i].seqno == lowest + j && out[j] == waiting[i].data@;
        assert(waiting[i].data@ == w[waiting[i].seqno as int]);
    }
    if out.len() > 0 {
        let last = out.len() - 1;
        assert(out[last] == w[lowest + last] && lowest + last < w.len());
    }
    assert(delivered + out =~= w.subrange(0, lowest + out.len()));
}

} // verus!
