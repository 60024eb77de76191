use crate::buffer::Buff;
use vstd::prelude::*;

verus! {

/// How many recent data frames are kept for reconstruction.
pub const DATA_CACHE: usize = 100;

/// How many parity runs are kept.
pub const PARITY_RUNS: usize = 10;

/// Identifies one run of parity shards: its first data frame, how many data and parity
/// shards it covers, and the padded shard size.
#[derive(Clone, Copy, Debug, PartialEq, Eq, Structural)]
pub struct ParitySpaceKey {
    pub first_data: u64,
    pub data_len: u8,
    pub parity_len: u8,
    pub pad_size: usize,
}

/// A recent data frame.
pub struct DataEntry {
    pub frame_no: u64,
    pub data: Buff,
}

/// The parity shards received for one run, and whether the run is done.
pub struct ParityRun {
    pub key: ParitySpaceKey,
    pub shards: Vec<(u8, Buff)>,
    pub done: bool,
}

/// Everything the erasure decoder needs for one run: the data frames at hand (ascending),
/// the parity shards, and the numbers of the data frames to rebuild (ascending).
pub struct ParityJob {
    pub key: ParitySpaceKey,
    pub present: Vec<(u64, Buff)>,
    pub parity: Vec<(u8, Buff)>,
    pub missing: Vec<u64>,
}

pub open spec fn holds_frame(d: Seq<DataEntry>, n: u64) -> bool {
    exists|i: int| 0 <= i < d.len() && #[trigger] d[i].frame_no == n
}

/// Frame `first + k`, if that number fits.
pub open spec fn in_run(first: u64, k: nat) -> bool {
    first + k <= u64::MAX
}

/// The numbers among the first `k` of a run starting at `first` with no cached frame, ascending.
pub open spec fn missing_upto(d: Seq<DataEntry>, first: u64, k: nat) -> Seq<u64>
    decreases k,
{
    if k == 0 {
        Seq::empty()
    } else {
        let prev = missing_upto(d, first, (k - 1) as nat);
        let n = first + (k - 1);
        if n <= u64::MAX && !holds_frame(d, n as u64) { prev.push(n as u64) } else { prev }
    }
}

/// The bytes of cached frame `n`.
pub open spec fn frame_bytes(d: Seq<DataEntry>, n: u64) -> Seq<u8> {
    d[choose|i: int| 0 <= i < d.len() && #[trigger] d[i].frame_no == n].data@
}

/// The cached frames among the first `k` of a run starting at `first`: number and bytes,
/// ascending.
pub open spec fn present_list(d: Seq<DataEntry>, first: u64, k: nat) -> Seq<(u64, Seq<u8>)>
    decreases k,
{
    if k == 0 {
        Seq::empty()
    } else {
        let prev = present_list(d, first, (k - 1) as nat);
        let n = first + (k - 1);
        if n <= u64::MAX && holds_frame(d, n as u64) { prev.push((n as u64, frame_bytes(d, n as u64))) } else { prev }
    }
}

/// Numbers and bytes of frames.
pub open spec fn numbered_bytes(v: Seq<(u64, Buff)>) -> Seq<(u64, Seq<u8>)> {
    v.map_values(|p: (u64, Buff)| (p.0, p.1@))
}

/// How many of the first `k` frames of a run starting at `first` are cached.
pub open spec fn present_upto(d: Seq<DataEntry>, first: u64, k: nat) -> nat
    decreases k,
{
    if k == 0 {
        0
    } else {
        let n = first + (k - 1);
        present_upto(d, first, (k - 1) as nat) + if n <= u64::MAX && holds_frame(d, n as u64) { 1nat } else { 0nat }
    }
}

/// Every cached frame of the first `k` of a run fits a shard of `pad_size` bytes with its
/// 2-byte length.
pub open spec fn pads_fit(d: Seq<DataEntry>, first: u64, k: nat, pad_size: usize) -> bool {
    forall|i: int| 0 <= i < d.len() && first <= #[trigger] d[i].frame_no < first + k ==> d[i].data@.len() + 2 <= pad_size
}

pub open spec fn run_index(runs: Seq<ParityRun>, key: ParitySpaceKey, j: int) -> bool {
    0 <= j < runs.len() && runs[j].key == key
}

/// Out-of-band FEC bookkeeping: recent data frames and parity runs, and when a run has
/// enough shards to rebuild its missing frames.
pub struct OobDecoder {
    enabled: bool,
    data_frames: Vec<DataEntry>,
    runs: Vec<ParityRun>,
}

impl OobDecoder {
    pub closed spec fn data(&self) -> Seq<DataEntry> {
        self.data_frames@
    }

    pub closed spec fn parity_runs(&self) -> Seq<ParityRun> {
        self.runs@
    }

    pub closed spec fn is_enabled(&self) -> bool {
        self.enabled
    }

    /// Each frame number and each run key at most once, and the caches within their sizes.
    pub closed spec fn wf(&self) -> bool {
        &&& self.data_frames@.len() <= DATA_CACHE
        &&& self.runs@.len() <= PARITY_RUNS
        &&& forall|i: int, j: int|
            0 <= i < j < self.data_frames@.len() ==> #[trigger] self.data_frames@[i].frame_no != #[trigger] self.data_frames@[j].frame_no
        &&& forall|i: int, j: int| 0 <= i < j < self.runs@.len() ==> #[trigger] self.runs@[i].key != #[trigger] self.runs@[j].key
    }

    /// An empty decoder; a disabled one keeps nothing and rebuilds nothing.
    pub fn new(enabled: bool) -> (r: Self)
        ensures
            r.wf(),
            r.is_enabled() == enabled,
            r.data().len() == 0,
            r.parity_runs().len() == 0,
    {
        OobDecoder { enabled, data_frames: Vec::new(), runs: Vec::new() }
    }

    fn find_frame(&self, n: u64) -> (r: Option<usize>)
        ensures
            r.is_none() == !holds_frame(self.data_frames@, n),
            r.is_some() ==> r.unwrap() < self.data_frames@.len() && self.data_frames@[r.unwrap() as int].frame_no == n,
    {
        let mut i: usize = 0;
        while i < self.data_frames.len()
            invariant
                i <= self.data_frames@.len(),
                forall|k: int| 0 <= k < i ==> #[trigger] self.data_frames@[k].frame_no != n,
            decreases self.data_frames@.len() - i,
        {
            if self.data_frames[i].frame_no == n {
                return Some(i);
            }
            i = i + 1;
        }
        None
    }

    /// Remembers a data frame, dropping the oldest when the cache is full.
    pub fn insert_data(&mut self, frame_no: u64, data: Buff)
        requires
            old(self).wf(),
        ensures
            final(self).wf(),
            final(self).parity_runs() == old(self).parity_runs(),
            final(self).is_enabled() == old(self).is_enabled(),
            !old(self).is_enabled() ==> final(self).data() == old(self).data(),
            old(self).is_enabled() ==> exists|i: int|
                0 <= i < final(self).data().len() && #[trigger] final(self).data()[i].frame_no == frame_no
                    && final(self).data()[i].data@ == data@,
    {
        if !self.enabled {
            return;
        }
        let ghost before = self.data_frames@;
        let ghost dv = data@;
        match self.find_frame(frame_no) {
            Some(i) => {
                self.data_frames.set(i, DataEntry { frame_no, data });
                proof {
                    let s = self.data_frames@;
                    assert forall|a: int, b: int| 0 <= a < b < s.len() implies #[trigger] s[a].frame_no != #[trigger] s[b].frame_no by {
                        assert(before[a].frame_no != before[b].frame_no);
                    }
                    assert(s[i as int].frame_no == frame_no && s[i as int].data@ == dv);
                    assert(self.data() == s);
                }
            },
            None => {
                if self.data_frames.len() >= DATA_CACHE {
                    self.data_frames.remove(0);
                }
                let ghost mid = self.data_frames@;
                proof {
                    assert forall|a: int| 0 <= a < mid.len() implies #[trigger] mid[a].frame_no != frame_no by {
                        if before.len() >= DATA_CACHE {
                            assert(mid[a] == before[a + 1]);
                        } else {
                            assert(mid[a] == before[a]);
                        }
                    }
                    assert forall|a: int, b: int| 0 <= a < b < mid.len() implies #[trigger] mid[a].frame_no != #[trigger] mid[b].frame_no by {
                        if before.len() >= DATA_CACHE {
                            assert(mid[a] == before[a + 1] && mid[b] == before[b + 1]);
                        }
                    }
                }
                self.data_frames.push(DataEntry { frame_no, data });
                proof {
                    let s = self.data_frames@;
                    assert(s[mid.len() as int].frame_no == frame_no && s[mid.len() as int].data@ == dv);
                    assert(self.data() == s);
                }
            },
        }
    }

    fn find_run(&self, key: ParitySpaceKey) -> (r: Option<usize>)
        ensures
            r.is_none() == !exists|j: int| #[trigger] run_index(self.runs@, key, j),
            r.is_some() ==> run_index(self.runs@, key, r.unwrap() as int),
    {
        let mut j: usize = 0;
        while j < self.runs.len()
            invariant
                j <= self.runs@.len(),
                forall|k: int| 0 <= k < j ==> !#[trigger] run_index(self.runs@, key, k),
            decreases self.runs@.len() - j,
        {
            if self.runs[j].key == key {
                assert(run_index(self.runs@, key, j as int));
                return Some(j);
            }
            j = j + 1;
        }
        None
    }

    /// A parity shard arrived. A finished run, or a disabled decoder, changes nothing and
    /// gives `None`. Otherwise the shard is stored (a run that is new evicts the oldest run
    /// when the cache is full); once the cached data frames of the run plus its parity shards
    /// reach the run's data count, the run is done, and if every cached data frame fits the
    /// shard size a job for the erasure decoder comes back.
    pub fn insert_parity(&mut self, key: ParitySpaceKey, idx: u8, parity: Buff) -> (r: Option<ParityJob>)
        requires
            old(self).wf(),
        ensures
            final(self).wf(),
            final(self).data() == old(self).data(),
            final(self).is_enabled() == old(self).is_enabled(),
            (!old(self).is_enabled() || exists|j: int| #[trigger] run_index(old(self).parity_runs(), key, j)
                && old(self).parity_runs()[j].done) ==> r.is_none() && final(self).parity_runs() == old(self).parity_runs(),
            (old(self).is_enabled() && !exists|j: int| #[trigger] run_index(old(self).parity_runs(), key, j)
                && old(self).parity_runs()[j].done) ==> exists|j: int| #[trigger] run_index(final(self).parity_runs(), key, j) && ({
                let run = final(self).parity_runs()[j];
                let n = key.data_len as nat;
                &&& exists|m: int| 0 <= m < run.shards@.len() && (#[trigger] run.shards@[m]).0 == idx && run.shards@[m].1@ == parity@
                &&& run.done == (present_upto(old(self).data(), key.first_data, n) + run.shards@.len() >= n)
                &&& r.is_some() == (run.done && pads_fit(old(self).data(), key.first_data, n, key.pad_size))
                &&& r.is_some() ==> r.unwrap().key == key && r.unwrap().missing@ == missing_upto(old(self).data(), key.first_data, n)
                    && r.unwrap().present@.len() == present_upto(old(self).data(), key.first_data, n)
                    && numbered_bytes(r.unwrap().present@) == present_list(old(self).data(), key.first_data, n)
                    && r.unwrap().parity@.len() == run.shards@.len()
                    && forall|q: int| 0 <= q < run.shards@.len() ==> (#[trigger] r.unwrap().parity@[q]).0 == run.shards@[q].0
                        && r.unwrap().parity@[q].1@ == run.shards@[q].1@
            }),
    {
        if !self.enabled {
            return None;
        }
        let ghost runs0 = self.runs@;
        let ghost pv = parity@;
        let j = match self.find_run(key) {
            Some(j) => {
                if self.runs[j].done {
                    assert(run_index(old(self).parity_runs(), key, j as int) && old(self).parity_runs()[j as int].done);
                    return None;
                }
                j
            },
            None => {
                if self.runs.len() >= PARITY_RUNS {
                    self.runs.remove(0);
                }
                let ghost mid = self.runs@;
                proof {
                    assert forall|a: int| 0 <= a < mid.len() implies #[trigger] mid[a].key != key by {
                        let a2 = if runs0.len() >= PARITY_RUNS { a + 1 } else { a };
                        assert(mid[a] == runs0[a2]);
                        assert(!run_index(runs0, key, a2));
                    }
                    assert forall|a: int, b: int| 0 <= a < b < mid.len() implies #[trigger] mid[a].key != #[trigger] mid[b].key by {
                        let d = if runs0.len() >= PARITY_RUNS { 1int } else { 0int };
                        assert(mid[a] == runs0[a + d] && mid[b] == runs0[b + d]);
                    }
                }
                self.runs.push(ParityRun { key, shards: Vec::new(), done: false });
                self.runs.len() - 1
            },
        };
        let ghost runs1 = self.runs@;
        let mut run = self.runs.remove(j);
        let mut m: usize = 0;
        while m < run.shards.len() && run.shards[m].0 != idx
            invariant
                m <= run.shards@.len(),
            decreases run.shards@.len() - m,
        {
            m = m + 1;
        }
        if m < run.shards.len() {
            run.shards.set(m, (idx, parity));
        } else {
            run.shards.push((idx, parity));
        }
        assert(run.shards@[m as int].0 == idx && run.shards@[m as int].1@ == pv);
        // scan the run's data frames
        let first = key.first_data;
        let n = key.data_len as u64;
        let mut present: Vec<(u64, Buff)> = Vec::new();
        let mut missing: Vec<u64> = Vec::new();
        let mut pads_ok = true;
        let mut k: u64 = 0;
        while k < n
            invariant
                k <= n,
                n == key.data_len as u64,
                first == key.first_data,
                self.data_frames@ == old(self).data_frames@,
                forall|a: int, b: int|
                    0 <= a < b < self.data_frames@.len() ==> #[trigger] self.data_frames@[a].frame_no != #[trigger] self.data_frames@[b].frame_no,
                present@.len() == present_upto(self.data_frames@, first, k as nat),
                present@.len() <= k,
                numbered_bytes(present@) == present_list(self.data_frames@, first, k as nat),
                missing@ == missing_upto(self.data_frames@, first, k as nat),
                pads_ok == pads_fit(self.data_frames@, first, k as nat, key.pad_size),
            decreases n - k,
        {
            let ghost d = self.data_frames@;
            let ghost p0 = present@;
            if first <= u64::MAX - k {
                let fno = first + k;
                match self.find_frame(fno) {
                    Some(i) => {
                        let len = self.data_frames[i].data.len();
                        if len > key.pad_size || key.pad_size - len < 2 {
                            pads_ok = false;
                        }
                        present.push((fno, self.data_frames[i].data.clone()));
                        proof {
                            let c = choose|c: int| 0 <= c < d.len() && #[trigger] d[c].frame_no == fno;
                            if c != i {
                                if c < i {
                                    assert(d[c].frame_no != d[i as int].frame_no);
                                } else {
                                    assert(d[i as int].frame_no != d[c].frame_no);
                                }
                            }
                            assert(frame_bytes(d, fno) == d[i as int].data@);
                            assert(numbered_bytes(present@) =~= numbered_bytes(p0).push((fno, d[i as int].data@)));
                            assert forall|e: int| 0 <= e < d.len() && first <= #[trigger] d[e].frame_no < first + k + 1
                                && !(first <= d[e].frame_no < first + k) implies e == i by {
                                if e != i {
                                    if e < i {
                                        assert(d[e].frame_no != d[i as int].frame_no);
                                    } else {
                                        assert(d[i as int].frame_no != d[e].frame_no);
                                    }
                                }
                            }
                        }
                    },
                    None => {
                        missing.push(fno);
                    },
                }
            }
            proof {
                reveal_with_fuel(missing_upto, 2);
                reveal_with_fuel(present_upto, 2);
                reveal_with_fuel(present_list, 2);
            }
            k = k + 1;
        }
        let count_ok = present.len() as u128 + run.shards.len() as u128 >= n as u128;
        if count_ok {
            run.done = true;
        }
        let parity_copy = if count_ok && pads_ok { clone_shards(&run.shards) } else { Vec::new() };
        self.runs.insert(j, run);
        proof {
            let s = self.runs@;
            assert(s == runs1.remove(j as int).insert(j as int, run));
            assert forall|a: int, b: int| 0 <= a < b < s.len() implies #[trigger] s[a].key != #[trigger] s[b].key by {
                assert(runs1[a].key == s[a].key || a == j);
                assert(s[a].key == runs1[a].key);
                assert(s[b].key == runs1[b].key);
            }
            assert(run_index(s, key, j as int));
        }
        let ghost fin = self.runs@[j as int];
        let r = if count_ok && pads_ok {
            Some(ParityJob { key, present, parity: parity_copy, missing })
        } else {
            None
        };
        proof {
            assert(self.parity_runs() == self.runs@);
            assert(self.data_frames@ == old(self).data());
            assert(fin.shards@[m as int].0 == idx && fin.shards@[m as int].1@ == pv);
            assert(run_index(self.parity_runs(), key, j as int));
        }
        r
    }
}

fn clone_shards(v: &Vec<(u8, Buff)>) -> (r: Vec<(u8, Buff)>)
    ensures
        r@.len() == v@.len(),
        forall|k: int| 0 <= k < r@.len() ==> (#[trigger] r@[k]).0 == v@[k].0 && r@[k].1@ == v@[k].1@,
{
    let mut out: Vec<(u8, Buff)> = Vec::new();
    let mut k: usize = 0;
    while k < v.len()
        invariant
            k <= v@.len(),
            out@.len() == k,
            forall|j: int| 0 <= j < k ==> (#[trigger] out@[j]).0 == v@[j].0 && out@[j].1@ == v@[j].1@,
        decreases v@.len() - k,
    {
        out.push((v[k].0, v[k].1.clone()));
        k = k + 1;
    }
    out
}

/// Pairs each rebuilt frame with its number, in order.
pub fn assign_missing(missing: &[u64], decoded: Vec<Buff>) -> (r: Vec<(u64, Buff)>)
    requires
        decoded@.len() == missing@.len(),
    ensures
        r@.len() == missing@.len(),
        forall|k: int| 0 <= k < r@.len() ==> (#[trigger] r@[k]).0 == missing@[k] && r@[k].1@ == decoded@[k]@,
{
    let mut out: Vec<(u64, Buff)> = Vec::new();
    let mut k: usize = 0;
    while k < missing.len()
        invariant
            k <= missing@.len(),
            decoded@.len() == missing@.len(),
            out@.len() == k,
            forall|j: int| 0 <= j < k ==> (#[trigger] out@[j]).0 == missing@[j] && out@[j].1@ == decoded@[j]@,
        decreases missing@.len() - k,
    {
        out.push((missing[k], decoded[k].clone()));
        k = k + 1;
    }
    out
}

} // verus!
