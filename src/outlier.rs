use vstd::prelude::*;

verus! {

/// `i` is the first index holding the smallest count.
pub open spec fn is_worst(counts: Seq<usize>, i: int) -> bool {
    &&& 0 <= i < counts.len()
    &&& forall|j: int| 0 <= j < counts.len() ==> counts[i] <= #[trigger] counts[j]
    &&& forall|j: int| 0 <= j < i ==> counts[i] < #[trigger] counts[j]
}

/// Index of the worker that received the fewest packets: the first one among equals.
pub fn worst_worker(counts: &[usize]) -> (r: Option<usize>)
    ensures
        counts@.len() == 0 <==> r.is_none(),
        r.is_some() ==> is_worst(counts@, r.unwrap() as int),
{
    if counts.len() == 0 {
        return None;
    }
    let mut best: usize = 0;
    let mut i: usize = 1;
    while i < counts.len()
        invariant
            1 <= i <= counts@.len(),
            best < i,
            forall|j: int| 0 <= j < i ==> counts@[best as int] <= #[trigger] counts@[j],
            forall|j: int| 0 <= j < best ==> counts@[best as int] < #[trigger] counts@[j],
        decreases counts@.len() - i,
    {
        if counts[i] < counts[best] {
            best = i;
        }
        i = i + 1;
    }
    Some(best)
}

/// The worker that carries upload number `ctr`: round robin over `workers` workers.
pub fn upload_worker(ctr: u64, workers: usize) -> (r: usize)
    requires
        workers > 0,
    ensures
        r == ctr % (workers as u64),
        r < workers,
{
    (ctr % (workers as u64)) as usize
}

/// Workers that were replaced, kept a while so that answers still in flight to their old
/// sockets arrive: at most as many as there are workers, oldest first.
pub struct FiredWorkers<T> {
    queue: Vec<T>,
    cap: usize,
}

impl<T> FiredWorkers<T> {
    pub closed spec fn kept(&self) -> Seq<T> {
        self.queue@
    }

    pub closed spec fn capacity(&self) -> usize {
        self.cap
    }

    /// Keeps at most `cap` fired workers.
    pub fn new(cap: usize) -> (r: Self)
        ensures
            r.kept().len() == 0,
            r.capacity() == cap,
    {
        FiredWorkers { queue: Vec::new(), cap }
    }

    /// Keeps a fired worker; the oldest one goes when there are more than the capacity.
    pub fn fire(&mut self, worker: T) -> (r: Option<T>)
        ensures
            final(self).capacity() == old(self).capacity(),
            old(self).kept().len() + 1 <= old(self).capacity() ==> r.is_none() && final(self).kept() == old(self).kept().push(worker),
            old(self).kept().len() + 1 > old(self).capacity() ==> r.is_some() && final(self).kept() == old(self).kept().push(worker).drop_first()
                && r.unwrap() == old(self).kept().push(worker)[0],
    {
        let ghost pushed = self.queue@.push(worker);
        self.queue.push(worker);
        if self.queue.len() > self.cap {
            let oldest = self.queue.remove(0);
            assert(self.queue@ =~= pushed.drop_first());
            Some(oldest)
        } else {
            None
        }
    }
}

/// What the client does when its reset interval has passed.
#[derive(Clone, Copy, Debug, PartialEq, Eq, Structural)]
pub enum RoundAction {
    /// A worker was just replaced: zero all receive counts and judge nothing this time.
    Rebaseline,
    /// Judge the receive counts, and replace the worst worker if they are too uneven.
    Check,
}

/// Paces the statistical check of the client's workers. Times are microseconds.
pub struct OutlierRounds {
    last_reset: u64,
    just_respawned: bool,
}

impl OutlierRounds {
    pub closed spec fn last_reset(&self) -> u64 {
        self.last_reset
    }

    pub closed spec fn just_respawned(&self) -> bool {
        self.just_respawned
    }

    /// Rounds starting at `now`.
    pub fn new(now: u64) -> (r: Self)
        ensures
            r.last_reset() == now,
            !r.just_respawned(),
    {
        OutlierRounds { last_reset: now, just_respawned: false }
    }

    /// Called on each upload at `now`: once more than `interval` has passed since the last
    /// round, a new round starts; right after a replacement it only re-baselines.
    pub fn on_upload(&mut self, now: u64, interval: Option<u64>) -> (r: Option<RoundAction>)
        ensures
            (match interval {
                Some(d) => now > old(self).last_reset() && now - old(self).last_reset() > d,
                None => false,
            }) ==> final(self).last_reset() == now && !final(self).just_respawned() && r == Some(
                if old(self).just_respawned() { RoundAction::Rebaseline } else { RoundAction::Check },
            ),
            !(match interval {
                Some(d) => now > old(self).last_reset() && now - old(self).last_reset() > d,
                None => false,
            }) ==> r.is_none() && final(self).last_reset() == old(self).last_reset()
                && final(self).just_respawned() == old(self).just_respawned(),
    {
        match interval {
            Some(d) => {
                if now > self.last_reset && now - self.last_reset > d {
                    self.last_reset = now;
                    if self.just_respawned {
                        self.just_respawned = false;
                        Some(RoundAction::Rebaseline)
                    } else {
                        Some(RoundAction::Check)
                    }
                } else {
                    None
                }
            },
            None => None,
        }
    }

    /// In a `Check` round: the worker to replace, the worst one, if the counts were judged
    /// too uneven (`significant`); a replacement makes the next round a re-baseline.
    pub fn pick(&mut self, counts: &[usize], significant: bool) -> (r: Option<usize>)
        ensures
            final(self).last_reset() == old(self).last_reset(),
            !significant ==> r.is_none() && final(self).just_respawned() == old(self).just_respawned(),
            significant ==> (r.is_none() <==> counts@.len() == 0) && (r.is_some() ==> is_worst(counts@, r.unwrap() as int))
                && final(self).just_respawned() == (old(self).just_respawned() || r.is_some()),
    {
        if !significant {
            return None;
        }
        let w = worst_worker(counts);
        if w.is_some() {
            self.just_respawned = true;
        }
        w
    }
}

} // verus!
