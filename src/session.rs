use crate::buffer::Buff;
use crate::protocol::DataFrameV2;
use crate::replay::{emitted, pass_run, covers, lemma_accepts_each_once, replay_accepts, replay_after, window_ok, ReplayFilter, ReplayState};
use crate::rloss::LossCounter;
use vstd::prelude::*;

verus! {

/// No frame number comes out of a session twice. `h` holds the numbers emitted so far, all
/// below the window or remembered (which holds from the start, when nothing was emitted);
/// one more call of `process` that emits `n` (`emitted`) never emits a number of `h`, and
/// the same holds afterwards of `h` with `n` added.
pub proof fn lemma_session_emits_once(before: ReplayState, after: ReplayState, h: Set<u64>, n: u64, emitted: bool)
    requires
        window_ok(before),
        covers(before, h),
        emitted ==> replay_accepts(before, n) && after == replay_after(before, n),
        !emitted ==> after == before,
    ensures
        emitted ==> !h.contains(n),
        covers(after, if emitted { h.insert(n) } else { h }),
{
    lemma_accepts_each_once(before, h, n);
}

/// Before anything is emitted, the empty history is covered.
pub proof fn lemma_session_starts_covered(st: ReplayState)
    requires
        st.seen == Set::<u64>::empty(),
    ensures
        covers(st, Set::<u64>::empty()),
{
}

/// The receive side of a session, after decryption: every data frame passes the replay
/// filter before it is counted for loss and handed up.
pub struct RecvCore {
    replay: ReplayFilter,
    loss: LossCounter,
}

impl RecvCore {
    pub closed spec fn replay_state(&self) -> ReplayState {
        self.replay.state()
    }

    /// The loss counter.
    pub closed spec fn counter(&self) -> LossCounter {
        self.loss
    }

    pub closed spec fn wf(&self) -> bool {
        self.replay.wf() && self.loss.wf()
    }

    /// Nothing received yet.
    pub fn new() -> (r: Self)
        ensures
            r.wf(),
            r.replay_state().seen == Set::<u64>::empty(),
            r.replay_state().bottom == 0,
            r.replay_state().top == 0,
    {
        RecvCore { replay: ReplayFilter::new(), loss: LossCounter::new() }
    }

    /// The loss counter.
    pub fn loss(&self) -> (r: &LossCounter)
        requires
            self.wf(),
        ensures
            r.wf(),
            *r == self.counter(),
    {
        &self.loss
    }

    /// A decoded frame received at `now`. A data frame comes out, with its number, if the
    /// replay filter accepts that number. A parity frame yields nothing here; frames rebuilt
    /// from parity go through [`ReplayFilter::pass_fresh`].
    pub fn process(&mut self, frame: DataFrameV2, now: u64) -> (r: Option<(Buff, u64)>)
        requires
            old(self).wf(),
        ensures
            final(self).wf(),
            window_ok(final(self).replay_state()),
            match frame {
                DataFrameV2::Data { frame_no, body, .. } => {
                    &&& r.is_some() == replay_accepts(old(self).replay_state(), frame_no)
                    &&& r.is_some() ==> r.unwrap().1 == frame_no && r.unwrap().0@ == body@
                        && final(self).replay_state() == replay_after(old(self).replay_state(), frame_no)
                        && final(self).replay_state().seen.contains(frame_no)
                        && LossCounter::recorded(old(self).counter(), frame_no, now, final(self).counter())
                    &&& r.is_none() ==> final(self).replay_state() == old(self).replay_state()
                        && final(self).counter() == old(self).counter()
                },
                DataFrameV2::Parity { .. } => r.is_none() && final(self).replay_state() == old(self).replay_state()
                    && final(self).counter() == old(self).counter(),
            },
    {
        proof {
            self.replay.lemma_window();
        }
        match frame {
            DataFrameV2::Data { frame_no, body, .. } => {
                if !self.replay.add(frame_no) {
                    return None;
                }
                self.loss.record(frame_no, now);
                Some((body, frame_no))
            },
            DataFrameV2::Parity { .. } => None,
        }
    }

    /// Frames rebuilt from parity: those whose numbers the replay filter accepts come out,
    /// in order, as [`ReplayFilter::pass_fresh`] states.
    pub fn pass_rebuilt(&mut self, frames: Vec<(Buff, u64)>) -> (r: Vec<(Buff, u64)>)
        requires
            old(self).wf(),
        ensures
            final(self).wf(),
            window_ok(final(self).replay_state()),
            final(self).replay_state() == pass_run(old(self).replay_state(), frames@).0,
            emitted(r@) == pass_run(old(self).replay_state(), frames@).1,
            final(self).counter() == old(self).counter(),
    {
        self.replay.pass_fresh(frames)
    }
}

} // verus!
