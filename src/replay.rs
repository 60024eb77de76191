use crate::buffer::Buff;
use std::collections::HashSet;
use vstd::prelude::*;

verus! {

broadcast use vstd::std_specs::hash::group_hash_axioms;

/// How many sequence numbers behind the highest one seen are still remembered.
pub const REPLAY_WINDOW: u64 = 10000;

/// Abstract state of a replay filter: the lowest sequence number still accepted,
/// the highest one seen, and the set of those seen within the window.
pub struct ReplayState {
    pub bottom: u64,
    pub top: u64,
    pub seen: Set<u64>,
}

/// The window's shape: the highest number seen is at most `REPLAY_WINDOW` above the
/// lowest one accepted, and everything remembered lies between them.
pub open spec fn window_ok(st: ReplayState) -> bool {
    &&& st.bottom <= st.top
    &&& st.top - st.bottom <= REPLAY_WINDOW
    &&& forall|x: u64| #[trigger] st.seen.contains(x) ==> st.bottom <= x <= st.top
}

/// Whether `add(s)` accepts `s` in state `st`.
pub open spec fn replay_accepts(st: ReplayState, s: u64) -> bool {
    s >= st.bottom && !st.seen.contains(s)
}

/// The state after `add(s)` accepted `s`: `s` is remembered, the window slides up
/// behind the highest number seen, and whatever falls below it is forgotten.
pub open spec fn replay_after(st: ReplayState, s: u64) -> ReplayState {
    let top = if s > st.top { s } else { st.top };
    let bottom = if top - st.bottom > REPLAY_WINDOW { (top - REPLAY_WINDOW) as u64 } else { st.bottom };
    ReplayState { bottom, top, seen: st.seen.insert(s).filter(|x: u64| x >= bottom) }
}

/// Records recently seen sequence numbers and rejects repeats and numbers too old to judge.
#[derive(Debug)]
pub struct ReplayFilter {
    top_seqno: u64,
    bottom_seqno: u64,
    seen_seqno: HashSet<u64>,
}

impl ReplayFilter {
    pub closed spec fn state(&self) -> ReplayState {
        ReplayState { bottom: self.bottom_seqno, top: self.top_seqno, seen: self.seen_seqno@ }
    }

    /// The filter's invariant: everything remembered lies in the window.
    pub closed spec fn wf(&self) -> bool {
        &&& self.bottom_seqno <= self.top_seqno
        &&& self.top_seqno - self.bottom_seqno <= REPLAY_WINDOW
        &&& forall|x: u64| #[trigger]
            self.seen_seqno@.contains(x) ==> self.bottom_seqno <= x <= self.top_seqno
    }

    /// A well-formed filter has a well-shaped window.
    pub proof fn lemma_window(&self)
        requires
            self.wf(),
        ensures
            window_ok(self.state()),
    {
    }

    /// A filter that has seen nothing.
    pub fn new() -> (r: Self)
        ensures
            r.wf(),
            window_ok(r.state()),
            r.state().bottom == 0,
            r.state().top == 0,
            r.state().seen == Set::<u64>::empty(),
    {
        ReplayFilter { top_seqno: 0, bottom_seqno: 0, seen_seqno: HashSet::new() }
    }

    /// Offers a sequence number: `true` if it is new and not too old, and then it is remembered.
    pub fn add(&mut self, seqno: u64) -> (r: bool)
        requires
            old(self).wf(),
        ensures
            final(self).wf(),
            window_ok(final(self).state()),
            r == replay_accepts(old(self).state(), seqno),
            r ==> final(self).state() == replay_after(old(self).state(), seqno),
            r ==> final(self).state().seen.contains(seqno),
            !r ==> final(self).state() == old(self).state(),
    {
        if seqno < self.bottom_seqno {
            return false;
        }
        if self.seen_seqno.contains(&seqno) {
            return false;
        }
        let ghost st = self.state();
        self.seen_seqno.insert(seqno);
        if seqno > self.top_seqno {
            self.top_seqno = seqno;
        }
        let ghost target = replay_after(st, seqno);
        assert(self.seen_seqno@.filter(|x: u64| x >= self.bottom_seqno) =~= self.seen_seqno@);
        while self.top_seqno - self.bottom_seqno > REPLAY_WINDOW
            invariant
                self.top_seqno == target.top,
                st.bottom <= self.bottom_seqno <= self.top_seqno,
                self.bottom_seqno <= target.bottom,
                target.bottom == (if target.top - st.bottom > REPLAY_WINDOW {
                    (target.top - REPLAY_WINDOW) as u64
                } else {
                    st.bottom
                }),
                self.seen_seqno@ == st.seen.insert(seqno).filter(|x: u64| x >= self.bottom_seqno),
            decreases self.top_seqno - self.bottom_seqno,
        {
            let b = self.bottom_seqno;
            self.seen_seqno.remove(&b);
            self.bottom_seqno = b + 1;
            assert(self.seen_seqno@ =~= st.seen.insert(seqno).filter(|x: u64| x >= self.bottom_seqno));
        }
        assert(self.bottom_seqno == target.bottom);
        true
    }
}

/// `later` follows `earlier`: the window only rises, and a number remembered in `earlier`
/// and still inside the window of `later` is remembered there too.
pub open spec fn grows(earlier: ReplayState, later: ReplayState) -> bool {
    &&& earlier.bottom <= later.bottom
    &&& forall|x: u64| #[trigger] earlier.seen.contains(x) && x >= later.bottom ==> later.seen.contains(x)
}

/// `x` carries the body and number of one of `frames`.
pub open spec fn one_of_frames(frames: Seq<(Buff, u64)>, x: (Buff, u64)) -> bool {
    exists|j: int| 0 <= j < frames.len() && x.1 == frames[j].1 && x.0@ == frames[j].0@
}

/// Numbers and bytes of frames.
pub open spec fn emitted(r: Seq<(Buff, u64)>) -> Seq<(u64, Seq<u8>)> {
    r.map_values(|x: (Buff, u64)| (x.1, x.0@))
}

/// Offering the frames `fs` in order, starting in state `st`: the state after, and the
/// number and bytes of each frame let through, in order.
pub open spec fn pass_run(st: ReplayState, fs: Seq<(Buff, u64)>) -> (ReplayState, Seq<(u64, Seq<u8>)>)
    decreases fs.len(),
{
    if fs.len() == 0 {
        (st, Seq::empty())
    } else {
        let prev = pass_run(st, fs.drop_last());
        let f = fs.last();
        if replay_accepts(prev.0, f.1) {
            (replay_after(prev.0, f.1), prev.1.push((f.1, f.0@)))
        } else {
            prev
        }
    }
}

/// Frame numbers strictly increasing.
pub open spec fn ascending_frames(fs: Seq<(Buff, u64)>) -> bool {
    forall|i: int, j: int| 0 <= i < j < fs.len() ==> #[trigger] fs[i].1 < #[trigger] fs[j].1
}

/// What the filter lets through keeps the order of what it was offered: from frames in
/// increasing order, the frames let through are in increasing order too, each one of them.
pub proof fn lemma_pass_run_ascending(st: ReplayState, fs: Seq<(Buff, u64)>)
    requires
        ascending_frames(fs),
    ensures
        forall|i: int| 0 <= i < pass_run(st, fs).1.len() ==> exists|k: int|
            0 <= k < fs.len() && fs[k].1 == #[trigger] pass_run(st, fs).1[i].0,
        forall|i: int, j: int| 0 <= i < j < pass_run(st, fs).1.len() ==> #[trigger] pass_run(st, fs).1[i].0
            < #[trigger] pass_run(st, fs).1[j].0,
    decreases fs.len(),
{
    if fs.len() > 0 {
        let t = fs.drop_last();
        assert(ascending_frames(t)) by {
            assert forall|i: int, j: int| 0 <= i < j < t.len() implies #[trigger] t[i].1 < #[trigger] t[j].1 by {
                assert(fs[i].1 < fs[j].1);
            }
        }
        lemma_pass_run_ascending(st, t);
        let prev = pass_run(st, t);
        let out = pass_run(st, fs).1;
        assert forall|i: int| 0 <= i < prev.1.len() implies prev.1[i].0 < fs.last().1 by {
            let k = choose|k: int| 0 <= k < t.len() && t[k].1 == #[trigger] prev.1[i].0;
            assert(fs[k].1 < fs[fs.len() - 1].1);
        }
        assert forall|i: int| 0 <= i < out.len() implies exists|k: int| 0 <= k < fs.len() && fs[k].1 == #[trigger] out[i].0 by {
            if i < prev.1.len() {
                assert(out[i] == prev.1[i]);
                let k = choose|k: int| 0 <= k < t.len() && t[k].1 == #[trigger] prev.1[i].0;
                assert(fs[k] == t[k]);
            } else {
                assert(out[i].0 == fs[fs.len() - 1].1);
            }
        }
        assert forall|i: int, j: int| 0 <= i < j < out.len() implies #[trigger] out[i].0 < #[trigger] out[j].0 by {
            if j < prev.1.len() {
                assert(out[i] == prev.1[i] && out[j] == prev.1[j]);
            } else {
                assert(out[i] == prev.1[i]);
            }
        }
    }
}

impl ReplayFilter {
    /// Lets through, in order, the frames whose numbers the filter accepts; used for frames
    /// rebuilt from parity, which must pass the filter like any other.
    pub fn pass_fresh(&mut self, frames: Vec<(Buff, u64)>) -> (r: Vec<(Buff, u64)>)
        requires
            old(self).wf(),
        ensures
            final(self).wf(),
            window_ok(final(self).state()),
            final(self).state() == pass_run(old(self).state(), frames@).0,
            emitted(r@) == pass_run(old(self).state(), frames@).1,
            grows(old(self).state(), final(self).state()),
            forall|k: int| 0 <= k < r@.len() ==> one_of_frames(frames@, #[trigger] r@[k]),
            forall|k: int| 0 <= k < r@.len() ==> replay_accepts(old(self).state(), (#[trigger] r@[k]).1),
            forall|a: int, b: int| 0 <= a < b < r@.len() ==> (#[trigger] r@[a]).1 != (#[trigger] r@[b]).1,
            forall|k: int| 0 <= k < r@.len() ==> (#[trigger] r@[k]).1 < final(self).state().bottom
                || final(self).state().seen.contains(r@[k].1),
    {
        let ghost st0 = self.state();
        let mut out: Vec<(Buff, u64)> = Vec::new();
        let mut i: usize = 0;
        while i < frames.len()
            invariant
                self.wf(),
                i <= frames@.len(),
                grows(st0, self.state()),
                self.state() == pass_run(st0, frames@.subrange(0, i as int)).0,
                emitted(out@) == pass_run(st0, frames@.subrange(0, i as int)).1,
                forall|k: int| 0 <= k < out@.len() ==> one_of_frames(frames@, #[trigger] out@[k]),
                forall|k: int| 0 <= k < out@.len() ==> replay_accepts(st0, (#[trigger] out@[k]).1),
                forall|a: int, b: int| 0 <= a < b < out@.len() ==> (#[trigger] out@[a]).1 != (#[trigger] out@[b]).1,
                forall|k: int| 0 <= k < out@.len() ==> (#[trigger] out@[k]).1 < self.state().bottom
                    || self.state().seen.contains(out@[k].1),
            decreases frames@.len() - i,
        {
            let n = frames[i].1;
            let ghost before = self.state();
            let ghost out0 = out@;
            proof {
                assert(frames@.subrange(0, i + 1).drop_last() =~= frames@.subrange(0, i as int));
                assert(frames@.subrange(0, i + 1).last() == frames@[i as int]);
            }
            if self.add(n) {
                let body = frames[i].0.clone();
                proof {
                    let nx = self.state();
                    assert(nx == replay_after(before, n));
                    assert(replay_accepts(st0, n)) by {
                        if st0.seen.contains(n) {
                            assert(before.seen.contains(n));
                        }
                    }
                    assert forall|k: int| 0 <= k < out@.len() implies (#[trigger] out@[k]).1 != n by {
                        if out@[k].1 == n {
                            assert(out@[k].1 < before.bottom || before.seen.contains(out@[k].1));
                        }
                    }
                    assert forall|k: int| 0 <= k < out@.len() implies (#[trigger] out@[k]).1 < nx.bottom
                        || nx.seen.contains(out@[k].1) by {
                        let x = out@[k].1;
                        if x >= nx.bottom {
                            assert(before.seen.contains(x));
                        }
                    }
                    assert(nx.seen.contains(n));
                }
                let ghost prev = out@;
                out.push((body, n));
                proof {
                    assert(out@[prev.len() as int].1 == frames@[i as int].1);
                    assert forall|k: int| 0 <= k < out@.len() implies one_of_frames(frames@, #[trigger] out@[k]) by {
                        if k < prev.len() {
                            assert(out@[k] == prev[k]);
                        } else {
                            assert(out@[k].0@ == frames@[i as int].0@);
                        }
                    }
                }
            }
            proof {
                assert(emitted(out@) =~= pass_run(st0, frames@.subrange(0, i + 1)).1) by {
                    if out@.len() > out0.len() {
                        assert(emitted(out@) =~= emitted(out0).push((n, frames@[i as int].0@)));
                    } else {
                        assert(out@ == out0);
                    }
                }
            }
            i = i + 1;
        }
        proof {
            assert(frames@.subrange(0, i as int) =~= frames@);
        }
        out
    }
}

/// Offering the same sequence number twice: the first offer may pass, the second never does.
pub proof fn lemma_add_twice(st: ReplayState, s: u64)
    requires
        st.bottom <= st.top,
        st.top - st.bottom <= REPLAY_WINDOW,
        replay_accepts(st, s),
    ensures
        !replay_accepts(replay_after(st, s), s),
{
    let nx = replay_after(st, s);
    assert(nx.bottom <= s);
    assert(nx.seen.contains(s));
}

/// Every number in `h` is either below the window or remembered as seen.
pub open spec fn covers(st: ReplayState, h: Set<u64>) -> bool {
    forall|x: u64| #[trigger] h.contains(x) ==> x < st.bottom || st.seen.contains(x)
}

/// No frame number passes the filter twice: if the numbers accepted so far, `h`, are all
/// below the window or remembered, a number that is accepted now is not among them, and
/// the same holds afterwards with it added; a rejected number changes nothing.
pub proof fn lemma_accepts_each_once(st: ReplayState, h: Set<u64>, s: u64)
    requires
        st.bottom <= st.top,
        covers(st, h),
    ensures
        replay_accepts(st, s) ==> !h.contains(s) && covers(replay_after(st, s), h.insert(s)),
{
    if replay_accepts(st, s) {
        let nx = replay_after(st, s);
        assert forall|x: u64| #[trigger] h.insert(s).contains(x) implies x < nx.bottom || nx.seen.contains(x) by {
            if x != s && x >= nx.bottom {
                assert(st.seen.contains(x));
            }
        }
    }
}

} // verus!
