use crate::buffer::Buff;
use crate::rng::random_below;
use vstd::prelude::*;

verus! {

/// A peer's socket address: the IP address as 128 bits (IPv4 mapped into IPv6) and the port.
#[derive(Clone, Copy, Debug, PartialEq, Eq, Structural, Hash)]
pub struct PeerAddr {
    pub ip: u128,
    pub port: u16,
}

/// How long, in microseconds, a shard counts as recently used.
pub const RECENT_SHARD_US: u64 = 10_000_000;

/// One shard of a session: its id, the address it was last seen from, and when.
#[derive(Clone, Copy, Debug)]
pub struct ShardEntry {
    pub shard: u8,
    pub addr: PeerAddr,
    pub last_used: u64,
}

/// Whether a shard was used within the recent window before `now`.
pub open spec fn recently_used(e: ShardEntry, now: u64) -> bool {
    e.last_used >= now || now - e.last_used < RECENT_SHARD_US
}

pub open spec fn shard_ids_unique(s: Seq<ShardEntry>) -> bool {
    forall|i: int, j: int| 0 <= i < j < s.len() ==> #[trigger] s[i].shard != #[trigger] s[j].shard
}

/// `r` is a fit address to send to at `now`: that of a shard; of a recently used shard if
/// there is one; else of a shard used last.
pub open spec fn addr_choice(s: Seq<ShardEntry>, now: u64, r: PeerAddr) -> bool {
    &&& exists|i: int| 0 <= i < s.len() && #[trigger] s[i].addr == r
    &&& (exists|j: int| 0 <= j < s.len() && recently_used(#[trigger] s[j], now)) ==> exists|i: int|
        0 <= i < s.len() && recently_used(#[trigger] s[i], now) && s[i].addr == r
    &&& (forall|j: int| 0 <= j < s.len() ==> !recently_used(#[trigger] s[j], now)) ==> exists|i: int|
        0 <= i < s.len() && #[trigger] s[i].addr == r && forall|j: int|
            0 <= j < s.len() ==> #[trigger] s[j].last_used <= s[i].last_used
}

/// Roaming: once shard `e.shard` is bound to a new address at time `e.last_used`, and every
/// other shard was last used over ten seconds before, the next address chosen at that time
/// is the new one.
pub proof fn lemma_roamed_shard_chosen(before: Seq<ShardEntry>, after: Seq<ShardEntry>, e: ShardEntry, r: PeerAddr)
    requires
        shard_ids_unique(before),
        shard_rebound(before, after, e),
        forall|i: int| 0 <= i < before.len() && #[trigger] before[i].shard != e.shard ==> !recently_used(before[i], e.last_used),
        addr_choice(after, e.last_used, r),
    ensures
        r == e.addr,
{
    let k: int = if exists|m: int| 0 <= m < before.len() && #[trigger] before[m].shard == e.shard && after == before.update(m, e) {
        choose|m: int| 0 <= m < before.len() && #[trigger] before[m].shard == e.shard && after == before.update(m, e)
    } else {
        before.len() as int
    };
    assert(after[k] == e);
    assert(recently_used(after[k], e.last_used));
    let i = choose|i: int| 0 <= i < after.len() && recently_used(#[trigger] after[i], e.last_used) && after[i].addr == r;
    if i != k {
        assert(after[i] == before[i]);
        if before[i].shard == e.shard {
            assert(k < before.len());
            if i < k {
                assert(before[i].shard != before[k].shard);
            } else {
                assert(before[k].shard != before[i].shard);
            }
        }
    }
}

/// `after` is `before` with shard `e.shard` set to `e`: in its place if the shard was there,
/// else at the end.
pub open spec fn shard_rebound(before: Seq<ShardEntry>, after: Seq<ShardEntry>, e: ShardEntry) -> bool {
    ||| exists|m: int| 0 <= m < before.len() && #[trigger] before[m].shard == e.shard && after == before.update(m, e)
    ||| (forall|m: int| 0 <= m < before.len() ==> #[trigger] before[m].shard != e.shard) && after == before.push(e)
}

/// The entries of `s` whose address is not `a`, in order.
pub open spec fn without_addr(s: Seq<ShardEntry>, a: PeerAddr) -> Seq<ShardEntry> {
    s.filter(|e: ShardEntry| e.addr != a)
}

/// Entries left by filtering out address `a` are entries of `s`.
proof fn lemma_filter_from(s: Seq<ShardEntry>, a: PeerAddr)
    ensures
        forall|p: int| 0 <= p < without_addr(s, a).len() ==> exists|m: int|
            0 <= m < s.len() && s[m] == #[trigger] without_addr(s, a)[p],
    decreases s.len(),
{
    reveal(Seq::filter);
    if s.len() > 0 {
        let t = s.drop_last();
        lemma_filter_from(t, a);
        let f = without_addr(s, a);
        let ft = without_addr(t, a);
        assert forall|p: int| 0 <= p < f.len() implies exists|m: int| 0 <= m < s.len() && s[m] == #[trigger] f[p] by {
            if p < ft.len() {
                assert(f[p] == ft[p]);
                let m = choose|m: int| 0 <= m < t.len() && t[m] == #[trigger] ft[p];
                assert(s[m] == t[m]);
            } else {
                assert(f[p] == s[s.len() - 1]);
            }
        }
    }
}

/// Filtering out `a` keeps every other address and only those.
pub proof fn lemma_without_addr(s: Seq<ShardEntry>, a: PeerAddr)
    ensures
        forall|x: PeerAddr| #[trigger] in_shards(without_addr(s, a), x) <==> (in_shards(s, x) && x != a),
{
    let f = without_addr(s, a);
    s.filter_lemma(|e: ShardEntry| e.addr != a);
    lemma_filter_from(s, a);
    assert forall|x: PeerAddr| #[trigger] in_shards(f, x) <==> (in_shards(s, x) && x != a) by {
        if in_shards(f, x) {
            let m = choose|m: int| 0 <= m < f.len() && #[trigger] f[m].addr == x;
            let m2 = choose|m2: int| 0 <= m2 < s.len() && s[m2] == #[trigger] f[m];
            assert(s[m2].addr == x);
        }
        if in_shards(s, x) && x != a {
            let m = choose|m: int| 0 <= m < s.len() && #[trigger] s[m].addr == x;
            assert(f.contains(s[m]));
            let m2 = choose|m2: int| 0 <= m2 < f.len() && f[m2] == s[m];
            assert(f[m2].addr == x);
        }
    }
}

/// Two entries left by filtering out address `a` come from two distinct entries, in order.
proof fn lemma_filter_keeps_order(s: Seq<ShardEntry>, a: PeerAddr, p: int, q: int)
    requires
        shard_ids_unique(s),
        0 <= p < q < without_addr(s, a).len(),
    ensures
        without_addr(s, a)[p].shard != without_addr(s, a)[q].shard,
    decreases s.len(),
{
    reveal(Seq::filter);
    let t = s.drop_last();
    let ft = without_addr(t, a);
    assert(shard_ids_unique(t)) by {
        assert forall|i: int, j: int| 0 <= i < j < t.len() implies #[trigger] t[i].shard != #[trigger] t[j].shard by {
            assert(s[i].shard != s[j].shard);
        }
    }
    if s.last().addr != a && q == ft.len() {
        // the last kept entry is s.last(); the other comes from t
        lemma_filter_from(t, a);
        let m = choose|m: int| 0 <= m < t.len() && t[m] == #[trigger] ft[p];
        assert(without_addr(s, a)[p] == ft[p]);
        assert(without_addr(s, a)[q] == s.last());
        assert(s[m] == t[m]);
        assert(s[m].shard != s[s.len() - 1].shard);
    } else {
        lemma_filter_keeps_order(t, a, p, q);
    }
}

/// The addresses of a session's shards. Times are microseconds on a monotonic clock.
pub struct ShardedAddrs {
    entries: Vec<ShardEntry>,
}

impl View for ShardedAddrs {
    type V = Seq<ShardEntry>;

    closed spec fn view(&self) -> Seq<ShardEntry> {
        self.entries@
    }
}

impl ShardedAddrs {
    /// No shard id twice.
    pub closed spec fn wf(&self) -> bool {
        shard_ids_unique(self.entries@)
    }

    /// No shard id appears twice in a well-formed table.
    pub proof fn lemma_unique(&self)
        requires
            self.wf(),
        ensures
            shard_ids_unique(self@),
    {
    }

    /// A table holding one shard, used at `now`.
    pub fn new(initial_shard: u8, initial_addr: PeerAddr, now: u64) -> (r: Self)
        ensures
            r.wf(),
            r@ == seq![ShardEntry { shard: initial_shard, addr: initial_addr, last_used: now }],
    {
        let mut entries = Vec::new();
        entries.push(ShardEntry { shard: initial_shard, addr: initial_addr, last_used: now });
        ShardedAddrs { entries }
    }

    /// The address to send the next packet to: one picked at random among the shards used
    /// recently, or if there are none, that of the shard used last; `None` when every shard's
    /// address has moved to another session.
    pub fn get_addr(&self, now: u64) -> (r: Option<PeerAddr>)
        requires
            self.wf(),
        ensures
            r.is_none() == (self@.len() == 0),
            r.is_some() ==> addr_choice(self@, now, r.unwrap()),
    {
        if self.entries.len() == 0 {
            return None;
        }
        let mut recent: Vec<usize> = Vec::new();
        let mut best: usize = 0;
        let mut i: usize = 0;
        while i < self.entries.len()
            invariant
                i <= self.entries@.len(),
                self.entries@.len() > 0,
                best < self.entries@.len(),
                best <= i,
                forall|j: int| 0 <= j < i ==> #[trigger] self.entries@[j].last_used <= self.entries@[best as int].last_used,
                forall|k: int| 0 <= k < recent@.len() ==> #[trigger] recent@[k] < i,
                forall|k: int| 0 <= k < recent@.len() ==> recently_used(self.entries@[#[trigger] recent@[k] as int], now),
                forall|j: int| 0 <= j < i && recently_used(#[trigger] self.entries@[j], now) ==> recent@.len() > 0,
            decreases self.entries@.len() - i,
        {
            let e = self.entries[i];
            if e.last_used >= now || now - e.last_used < RECENT_SHARD_US {
                recent.push(i);
            }
            if e.last_used >= self.entries[best].last_used {
                best = i;
            }
            i = i + 1;
        }
        proof {
            assert(self@ =~= self.entries@);
        }
        if recent.len() == 0 {
            Some(self.entries[best].addr)
        } else {
            let k = random_below(0, recent.len());
            let pick = recent[k];
            assert(recently_used(self.entries@[pick as int], now));
            Some(self.entries[pick].addr)
        }
    }

    /// Forgets every shard whose address is `a`.
    pub fn remove_addr(&mut self, a: PeerAddr)
        requires
            old(self).wf(),
        ensures
            final(self).wf(),
            final(self)@ == without_addr(old(self)@, a),
            !in_shards(final(self)@, a),
            forall|x: PeerAddr| #[trigger] in_shards(final(self)@, x) <==> (in_shards(old(self)@, x) && x != a),
    {
        let ghost old_e = self.entries@;
        let mut kept: Vec<ShardEntry> = Vec::new();
        let mut i: usize = 0;
        while i < self.entries.len()
            invariant
                self.entries@ == old_e,
                i <= old_e.len(),
                kept@ == old_e.subrange(0, i as int).filter(|e: ShardEntry| e.addr != a),
            decreases old_e.len() - i,
        {
            let e = self.entries[i];
            proof {
                reveal(Seq::filter);
                assert(old_e.subrange(0, i + 1).drop_last() =~= old_e.subrange(0, i as int));
            }
            if e.addr != a {
                kept.push(e);
            }
            i = i + 1;
        }
        proof {
            assert(old_e.subrange(0, i as int) =~= old_e);
            let f = without_addr(old_e, a);
            old_e.filter_lemma(|e: ShardEntry| e.addr != a);
            assert forall|x: PeerAddr| #[trigger] in_shards(f, x) <==> (in_shards(old_e, x) && x != a) by {
                if in_shards(f, x) {
                    let m = choose|m: int| 0 <= m < f.len() && #[trigger] f[m].addr == x;
                    lemma_filter_from(old_e, a);
                    let m2 = choose|m2: int| 0 <= m2 < old_e.len() && old_e[m2] == #[trigger] f[m];
                    assert(old_e[m2].addr == x);
                    assert(x != a);
                }
                if in_shards(old_e, x) && x != a {
                    let m = choose|m: int| 0 <= m < old_e.len() && #[trigger] old_e[m].addr == x;
                    assert(f.contains(old_e[m]));
                    let m2 = choose|m2: int| 0 <= m2 < f.len() && f[m2] == old_e[m];
                    assert(f[m2].addr == x);
                }
            }
            assert forall|p: int, q: int| 0 <= p < q < f.len() implies #[trigger] f[p].shard != #[trigger] f[q].shard by {
                lemma_filter_keeps_order(old_e, a, p, q);
            }
        }
        self.entries = kept;
    }

    /// The address of every shard, in table order.
    pub fn addrs(&self) -> (r: Vec<PeerAddr>)
        ensures
            r@ == self@.map_values(|e: ShardEntry| e.addr),
    {
        let mut out: Vec<PeerAddr> = Vec::new();
        let mut i: usize = 0;
        while i < self.entries.len()
            invariant
                i <= self.entries@.len(),
                out@ =~= self.entries@.subrange(0, i as int).map_values(|e: ShardEntry| e.addr),
            decreases self.entries@.len() - i,
        {
            out.push(self.entries[i].addr);
            i = i + 1;
            assert(out@ =~= self.entries@.subrange(0, i as int).map_values(|e: ShardEntry| e.addr));
        }
        assert(self.entries@.subrange(0, i as int) =~= self.entries@);
        out
    }

    /// Binds shard `index` to `addr`, used at `now`; returns the address it was bound to before.
    pub fn insert_addr(&mut self, index: u8, addr: PeerAddr, now: u64) -> (r: Option<PeerAddr>)
        requires
            old(self).wf(),
        ensures
            final(self).wf(),
            r.is_none() ==> (forall|j: int| 0 <= j < old(self)@.len() ==> #[trigger] old(self)@[j].shard != index)
                && final(self)@ == old(self)@.push(ShardEntry { shard: index, addr, last_used: now }),
            r.is_some() ==> exists|j: int|
                0 <= j < old(self)@.len() && #[trigger] old(self)@[j].shard == index && r == Some(old(self)@[j].addr)
                    && final(self)@ == old(self)@.update(j, ShardEntry { shard: index, addr, last_used: now }),
            shard_rebound(old(self)@, final(self)@, ShardEntry { shard: index, addr, last_used: now }),
    {
        let mut i: usize = 0;
        while i < self.entries.len()
            invariant
                self.entries@ == old(self).entries@,
                shard_ids_unique(self.entries@),
                i <= self.entries@.len(),
                forall|j: int| 0 <= j < i ==> #[trigger] self.entries@[j].shard != index,
            decreases self.entries@.len() - i,
        {
            if self.entries[i].shard == index {
                let before = self.entries[i].addr;
                let fresh = ShardEntry { shard: index, addr, last_used: now };
                let ghost old_entries = self.entries@;
                self.entries.set(i, fresh);
                proof {
                    let s = self.entries@;
                    assert(s == old_entries.update(i as int, fresh));
                    assert forall|a: int| 0 <= a < s.len() implies #[trigger] s[a].shard == old_entries[a].shard by {}
                    assert(self@ == old(self)@.update(i as int, fresh));
                    assert forall|a: int, b: int| 0 <= a < b < s.len() implies #[trigger] s[a].shard != #[trigger] s[b].shard by {
                        assert(old_entries[a].shard != old_entries[b].shard);
                    }
                }
                return Some(before);
            }
            i = i + 1;
        }
        self.entries.push(ShardEntry { shard: index, addr, last_used: now });
        None
    }
}

/// Whether two byte strings are equal.
pub fn same_bytes(a: &[u8], b: &[u8]) -> (r: bool)
    ensures
        r == (a@ == b@),
{
    if a.len() != b.len() {
        return false;
    }
    let mut i: usize = 0;
    while i < a.len()
        invariant
            a@.len() == b@.len(),
            i <= a@.len(),
            forall|k: int| 0 <= k < i ==> a@[k] == b@[k],
        decreases a@.len() - i,
    {
        if a[i] != b[i] {
            return false;
        }
        i = i + 1;
    }
    assert(a@ =~= b@);
    true
}

/// A session known to the listener: its resume token, its handle, and its shards.
pub struct SessEntry<S> {
    pub token: Buff,
    pub session: S,
    pub addrs: ShardedAddrs,
}

/// Which session's token a remote address belongs to.
pub struct Binding {
    pub addr: PeerAddr,
    pub token: Buff,
}

pub open spec fn has_token<S>(s: Seq<SessEntry<S>>, t: Seq<u8>) -> bool {
    exists|j: int| 0 <= j < s.len() && #[trigger] s[j].token@ == t
}

/// Some shard of `s` has address `a`.
pub open spec fn in_shards(s: Seq<ShardEntry>, a: PeerAddr) -> bool {
    exists|m: int| 0 <= m < s.len() && #[trigger] s[m].addr == a
}

/// The binding's address is among the shards of the session its token names.
pub open spec fn bound_in_table<S>(sess: Seq<SessEntry<S>>, b: Binding) -> bool {
    exists|j: int| 0 <= j < sess.len() && #[trigger] sess[j].token@ == b.token@ && in_shards(sess[j].addrs@, b.addr)
}

/// If the binding's address is among the session's shards, the binding names that session.
pub open spec fn only_own<S>(e: SessEntry<S>, b: Binding) -> bool {
    in_shards(e.addrs@, b.addr) ==> e.token@ == b.token@
}

/// `x` is one of the bindings `b`.
pub open spec fn one_binding(b: Seq<Binding>, x: Binding) -> bool {
    exists|k: int| 0 <= k < b.len() && b[k] == x
}

pub open spec fn has_addr(b: Seq<Binding>, a: PeerAddr) -> bool {
    exists|i: int| 0 <= i < b.len() && #[trigger] b[i].addr == a
}

/// The listener's table: resume token to session, and remote address to token.
pub struct SessionTable<S> {
    sessions: Vec<SessEntry<S>>,
    bindings: Vec<Binding>,
}

impl<S> SessionTable<S> {
    pub closed spec fn sessions(&self) -> Seq<SessEntry<S>> {
        self.sessions@
    }

    pub closed spec fn bindings(&self) -> Seq<Binding> {
        self.bindings@
    }

    /// No token twice, no address twice, every session's shard table well formed, and every
    /// bound address among the shards of the session its token names and of no other.
    pub closed spec fn wf(&self) -> bool {
        &&& self.wf_core()
        &&& forall|i: int| 0 <= i < self.bindings@.len() ==> bound_in_table(self.sessions@, #[trigger] self.bindings@[i])
        &&& forall|i: int, k: int|
            0 <= i < self.bindings@.len() && 0 <= k < self.sessions@.len() ==> #[trigger] only_own(self.sessions@[k], self.bindings@[i])
    }

    closed spec fn wf_core(&self) -> bool {
        &&& forall|i: int, j: int|
            0 <= i < j < self.sessions@.len() ==> #[trigger] self.sessions@[i].token@ != #[trigger] self.sessions@[j].token@
        &&& forall|i: int, j: int|
            0 <= i < j < self.bindings@.len() ==> #[trigger] self.bindings@[i].addr != #[trigger] self.bindings@[j].addr
        &&& forall|i: int| 0 <= i < self.sessions@.len() ==> (#[trigger] self.sessions@[i]).addrs.wf()
    }

    /// Every bound address is among the shards of the session its token names, and among
    /// those of no other session.
    pub proof fn lemma_bound_addrs(&self)
        requires
            self.wf(),
        ensures
            forall|i: int| 0 <= i < self.bindings().len() ==> bound_in_table(self.sessions(), #[trigger] self.bindings()[i]),
            forall|i: int, k: int| 0 <= i < self.bindings().len() && 0 <= k < self.sessions().len()
                ==> #[trigger] only_own(self.sessions()[k], self.bindings()[i]),
    {
    }

    /// An empty table.
    pub fn new() -> (r: Self)
        ensures
            r.wf(),
            r.sessions().len() == 0,
            r.bindings().len() == 0,
    {
        SessionTable { sessions: Vec::new(), bindings: Vec::new() }
    }

    fn find_token(&self, token: &Buff) -> (r: Option<usize>)
        ensures
            r.is_none() == !has_token(self.sessions@, token@),
            r.is_some() ==> r.unwrap() < self.sessions@.len() && self.sessions@[r.unwrap() as int].token@ == token@,
    {
        let mut j: usize = 0;
        while j < self.sessions.len()
            invariant
                j <= self.sessions@.len(),
                forall|k: int| 0 <= k < j ==> #[trigger] self.sessions@[k].token@ != token@,
            decreases self.sessions@.len() - j,
        {
            if same_bytes(self.sessions[j].token.as_slice(), token.as_slice()) {
                return Some(j);
            }
            j = j + 1;
        }
        None
    }

    fn find_addr(&self, addr: PeerAddr) -> (r: Option<usize>)
        ensures
            r.is_none() == !has_addr(self.bindings@, addr),
            r.is_some() ==> r.unwrap() < self.bindings@.len() && self.bindings@[r.unwrap() as int].addr == addr,
    {
        let mut i: usize = 0;
        while i < self.bindings.len()
            invariant
                i <= self.bindings@.len(),
                forall|k: int| 0 <= k < i ==> #[trigger] self.bindings@[k].addr != addr,
            decreases self.bindings@.len() - i,
        {
            if self.bindings[i].addr == addr {
                return Some(i);
            }
            i = i + 1;
        }
        None
    }

    /// Registers a session under `token`. A session that held the token before is replaced,
    /// and the addresses of its shards lose their bindings.
    pub fn new_sess(&mut self, token: Buff, session: S, addrs: ShardedAddrs)
        requires
            old(self).wf(),
            addrs.wf(),
        ensures
            final(self).wf(),
            forall|m: int| 0 <= m < addrs@.len() ==> !has_addr(final(self).bindings(), #[trigger] addrs@[m].addr),
            forall|i: int| 0 <= i < final(self).bindings().len() ==> one_binding(old(self).bindings(), #[trigger] final(self).bindings()[i]),
            has_token(old(self).sessions(), token@) ==> exists|j: int|
                0 <= j < old(self).sessions().len() && #[trigger] old(self).sessions()[j].token@ == token@
                    && final(self).sessions().len() == old(self).sessions().len()
                    && final(self).sessions()[j].session == session && final(self).sessions()[j].addrs@ == addrs@
                    && forall|k: int| 0 <= k < old(self).sessions().len() && k != j ==> #[trigger] final(self).sessions()[k] == old(self).sessions()[k]
                    && forall|m: int| 0 <= m < old(self).sessions()[j].addrs@.len()
                        ==> !has_addr(final(self).bindings(), #[trigger] old(self).sessions()[j].addrs@[m].addr),
            !has_token(old(self).sessions(), token@) ==> final(self).sessions().len() == old(self).sessions().len() + 1
                && final(self).sessions().last().token@ == token@ && final(self).sessions().last().session == session
                && final(self).sessions().last().addrs@ == addrs@
                && forall|k: int| 0 <= k < old(self).sessions().len() ==> #[trigger] final(self).sessions()[k] == old(self).sessions()[k],
    {
        let ghost old_s = self.sessions@;
        let ghost old_b = self.bindings@;
        let ghost na = addrs@;
        let fresh = addrs.addrs();
        assert forall|i: int| 0 <= i < old_b.len() implies one_binding(old_b, #[trigger] old_b[i]) by {
            assert(old_b[i] == old_b[i]);
        }
        let mut f: usize = 0;
        while f < fresh.len()
            invariant
                self.wf(),
                self.sessions@ == old_s,
                f <= fresh@.len(),
                fresh@ == na.map_values(|x: ShardEntry| x.addr),
                forall|m: int| 0 <= m < f ==> !has_addr(self.bindings@, #[trigger] fresh@[m]),
                forall|i: int| 0 <= i < self.bindings@.len() ==> one_binding(old_b, #[trigger] self.bindings@[i]),
            decreases fresh@.len() - f,
        {
            let ghost b0 = self.bindings@;
            self.unbind(fresh[f]);
            proof {
                let bb = self.bindings@;
                assert forall|i: int| 0 <= i < bb.len() implies one_binding(old_b, #[trigger] bb[i]) by {
                    assert(one_binding(b0, bb[i]));
                    let q = choose|q: int| 0 <= q < b0.len() && b0[q] == bb[i];
                    assert(one_binding(old_b, b0[q]));
                }
            }
            f = f + 1;
        }
        proof {
            assert forall|m: int| 0 <= m < na.len() implies !has_addr(self.bindings@, #[trigger] na[m].addr) by {
                assert(fresh@[m] == na[m].addr);
            }
        }
        match self.find_token(&token) {
            Some(j) => {
                let gone = self.sessions[j].addrs.addrs();
                let ghost ej = old_s[j as int].addrs@;
                let mut k: usize = 0;
                while k < gone.len()
                    invariant
                        self.wf(),
                        self.sessions@ == old_s,
                        k <= gone@.len(),
                        gone@ == ej.map_values(|x: ShardEntry| x.addr),
                        forall|m: int| 0 <= m < k ==> !has_addr(self.bindings@, #[trigger] gone@[m]),
                        forall|i: int| 0 <= i < self.bindings@.len() ==> one_binding(old_b, #[trigger] self.bindings@[i]),
                        forall|m: int| 0 <= m < na.len() ==> !has_addr(self.bindings@, #[trigger] na[m].addr),
                    decreases gone@.len() - k,
                {
                    let ghost b0 = self.bindings@;
                    self.unbind(gone[k]);
                    proof {
                        let b = self.bindings@;
                        assert forall|i: int| 0 <= i < b.len() implies one_binding(old_b, #[trigger] b[i]) by {
                            assert(one_binding(b0, b[i]));
                            let q = choose|q: int| 0 <= q < b0.len() && b0[q] == b[i];
                            assert(one_binding(old_b, b0[q]));
                        }
                    }
                    k = k + 1;
                }
                let ghost b1 = self.bindings@;
                self.sessions.set(j, SessEntry { token, session, addrs });
                proof {
                    let s = self.sessions@;
                    assert forall|a: int| 0 <= a < s.len() implies #[trigger] s[a].token@ == old_s[a].token@ by {}
                    assert forall|a: int, b: int| 0 <= a < b < s.len() implies #[trigger] s[a].token@ != #[trigger] s[b].token@ by {
                        assert(old_s[a].token@ != old_s[b].token@);
                    }
                    assert forall|a: int| 0 <= a < s.len() implies (#[trigger] s[a]).addrs.wf() by {
                        if a != j {
                            assert(old_s[a].addrs.wf());
                        }
                    }
                    assert forall|i: int| 0 <= i < b1.len() implies bound_in_table(s, #[trigger] b1[i]) by {
                        assert(bound_in_table(old_s, b1[i]));
                        let j2 = choose|j2: int| 0 <= j2 < old_s.len() && #[trigger] old_s[j2].token@ == b1[i].token@
                            && in_shards(old_s[j2].addrs@, b1[i].addr);
                        if j2 == j {
                            let m = choose|m: int| 0 <= m < ej.len() && #[trigger] ej[m].addr == b1[i].addr;
                            assert(gone@[m] == b1[i].addr);
                            assert(has_addr(b1, b1[i].addr));
                        } else {
                            assert(s[j2] == old_s[j2]);
                        }
                    }
                    assert forall|m: int| 0 <= m < ej.len() implies !has_addr(b1, #[trigger] ej[m].addr) by {
                        assert(gone@[m] == ej[m].addr);
                    }
                    assert forall|i: int, k2: int| 0 <= i < b1.len() && 0 <= k2 < s.len() implies #[trigger] only_own(s[k2], b1[i]) by {
                        if k2 == j {
                            if in_shards(s[k2].addrs@, b1[i].addr) {
                                let m = choose|m: int| 0 <= m < na.len() && #[trigger] na[m].addr == b1[i].addr;
                                assert(has_addr(b1, b1[i].addr));
                            }
                        } else {
                            assert(s[k2] == old_s[k2]);
                            assert(only_own(old_s[k2], b1[i]));
                        }
                    }
                    assert(self.sessions() == s && self.bindings() == b1 && old(self).sessions() == old_s);
                    assert(old(self).bindings() == old_b);
                }
            },
            None => {
                self.sessions.push(SessEntry { token, session, addrs });
                proof {
                    let s = self.sessions@;
                    assert forall|a: int, b: int| 0 <= a < b < s.len() implies #[trigger] s[a].token@ != #[trigger] s[b].token@ by {
                        if b < old_s.len() {
                            assert(old_s[a].token@ != old_s[b].token@);
                        }
                    }
                    assert forall|a: int| 0 <= a < s.len() implies (#[trigger] s[a]).addrs.wf() by {
                        if a < old_s.len() {
                            assert(old_s[a].addrs.wf());
                        }
                    }
                    let b1 = self.bindings@;
                    assert forall|i: int| 0 <= i < b1.len() implies bound_in_table(s, #[trigger] b1[i]) by {
                        assert(bound_in_table(old_s, b1[i]));
                        let j2 = choose|j2: int| 0 <= j2 < old_s.len() && #[trigger] old_s[j2].token@ == b1[i].token@
                            && in_shards(old_s[j2].addrs@, b1[i].addr);
                        assert(s[j2] == old_s[j2]);
                    }
                    assert forall|i: int, k2: int| 0 <= i < b1.len() && 0 <= k2 < s.len() implies #[trigger] only_own(s[k2], b1[i]) by {
                        if k2 == old_s.len() {
                            if in_shards(s[k2].addrs@, b1[i].addr) {
                                let m = choose|m: int| 0 <= m < na.len() && #[trigger] na[m].addr == b1[i].addr;
                                assert(has_addr(b1, b1[i].addr));
                            }
                        } else {
                            assert(s[k2] == old_s[k2]);
                            assert(only_own(old_s[k2], b1[i]));
                        }
                    }
                }
            },
        }
    }

    /// Drops the binding of `addr`, if there is one.
    fn unbind(&mut self, addr: PeerAddr)
        requires
            old(self).wf_core(),
        ensures
            final(self).wf_core(),
            old(self).wf() ==> final(self).wf(),
            forall|i: int| 0 <= i < final(self).bindings().len() ==> one_binding(old(self).bindings(), #[trigger] final(self).bindings()[i]),
            final(self).sessions() == old(self).sessions(),
            !has_addr(final(self).bindings(), addr),
            forall|a: PeerAddr| !has_addr(old(self).bindings(), a) ==> !has_addr(final(self).bindings(), a),
    {
        if let Some(k) = self.find_addr(addr) {
            let ghost ob = self.bindings@;
            self.bindings.remove(k);
            proof {
                let nb = self.bindings@;
                assert(nb == ob.remove(k as int));
                assert forall|a: int, b: int| 0 <= a < b < nb.len() implies #[trigger] nb[a].addr != #[trigger] nb[b].addr by {
                    let a2 = if a < k { a } else { a + 1 };
                    let b2 = if b < k { b } else { b + 1 };
                    assert(ob[a2].addr != ob[b2].addr);
                }
                assert forall|i: int| 0 <= i < nb.len() implies #[trigger] nb[i].addr != addr by {
                    let i2 = if i < k { i } else { i + 1 };
                    if i2 < k {
                        assert(ob[i2].addr != ob[k as int].addr);
                    } else {
                        assert(ob[k as int].addr != ob[i2].addr);
                    }
                }
                assert forall|a: PeerAddr| !has_addr(ob, a) implies !has_addr(nb, a) by {
                    if has_addr(nb, a) {
                        let i = choose|i: int| 0 <= i < nb.len() && #[trigger] nb[i].addr == a;
                        let i2 = if i < k { i } else { i + 1 };
                        assert(ob[i2].addr == a);
                    }
                }
                assert forall|i: int| 0 <= i < nb.len() implies one_binding(ob, #[trigger] nb[i]) by {
                    let i2 = if i < k { i } else { i + 1 };
                    assert(ob[i2] == nb[i]);
                }
                if old(self).wf() {
                    assert forall|i: int| 0 <= i < nb.len() implies bound_in_table(self.sessions@, #[trigger] nb[i]) by {
                        let i2 = if i < k { i } else { i + 1 };
                        assert(ob[i2] == nb[i]);
                        assert(bound_in_table(self.sessions@, ob[i2]));
                    }
                }
            }
        } else {
            assert forall|i: int| 0 <= i < self.bindings@.len() implies one_binding(self.bindings@, #[trigger] self.bindings@[i]) by {
                assert(self.bindings@[i] == self.bindings@[i]);
            }
        }
    }

    /// Roaming: binds shard `shard_id` of the session holding `token` to `addr`, used at
    /// `now`. The address that shard had before loses its binding, and `addr` is bound to
    /// `token`. `false`, and nothing changes, if no session holds `token`.
    #[verifier::rlimit(100)]
    pub fn rebind(&mut self, addr: PeerAddr, shard_id: u8, token: Buff, now: u64) -> (r: bool)
        requires
            old(self).wf(),
        ensures
            final(self).wf(),
            r == has_token(old(self).sessions(), token@),
            !r ==> final(self).sessions() == old(self).sessions() && final(self).bindings() == old(self).bindings(),
            r ==> exists|i: int|
                0 <= i < final(self).bindings().len() && #[trigger] final(self).bindings()[i].addr == addr
                    && final(self).bindings()[i].token@ == token@,
            r ==> exists|j: int|
                0 <= j < old(self).sessions().len() && #[trigger] old(self).sessions()[j].token@ == token@
                    && final(self).sessions().len() == old(self).sessions().len()
                    && final(self).sessions()[j].token == old(self).sessions()[j].token
                    && final(self).sessions()[j].session == old(self).sessions()[j].session
                    && (exists|m: int| 0 <= m < final(self).sessions()[j].addrs@.len()
                        && #[trigger] final(self).sessions()[j].addrs@[m] == (ShardEntry { shard: shard_id, addr, last_used: now }))
                    && (forall|k: int| 0 <= k < old(self).sessions().len() && k != j ==> #[trigger] final(self).sessions()[k].token
                        == old(self).sessions()[k].token && final(self).sessions()[k].session == old(self).sessions()[k].session
                        && final(self).sessions()[k].addrs@ == without_addr(old(self).sessions()[k].addrs@, addr))
                    && shard_rebound(old(self).sessions()[j].addrs@, final(self).sessions()[j].addrs@,
                        ShardEntry { shard: shard_id, addr, last_used: now })
                    && forall|m: int| 0 <= m < old(self).sessions()[j].addrs@.len() && old(self).sessions()[j].addrs@[m].shard == shard_id
                        && old(self).sessions()[j].addrs@[m].addr != addr
                        ==> !has_addr(final(self).bindings(), #[trigger] old(self).sessions()[j].addrs@[m].addr),
            r ==> forall|a: PeerAddr| #[trigger] has_addr(final(self).bindings(), a) ==> a == addr || has_addr(old(self).bindings(), a),
    {
        match self.find_token(&token) {
            None => false,
            Some(j) => {
                let ghost old_s = self.sessions@;
                let mut e = self.sessions.remove(j);
                proof {
                    assert(old_s[j as int].addrs.wf());
                }
                let before = e.addrs.insert_addr(shard_id, addr, now);
                self.sessions.insert(j, e);
                let ghost mut mw: int = 0;
                proof {
                    let s = self.sessions@;
                    assert(s == old_s.remove(j as int).insert(j as int, e));
                    assert forall|a: int| 0 <= a < s.len() && a != j implies #[trigger] s[a] == old_s[a] by {}
                    assert forall|a: int| 0 <= a < s.len() implies #[trigger] s[a].token@ == old_s[a].token@ by {}
                    assert forall|a: int, b: int| 0 <= a < b < s.len() implies #[trigger] s[a].token@ != #[trigger] s[b].token@ by {
                        assert(old_s[a].token@ != old_s[b].token@);
                    }
                    assert forall|a: int| 0 <= a < s.len() implies (#[trigger] s[a]).addrs.wf() by {
                        if a != j {
                            assert(old_s[a].addrs.wf());
                        }
                    }
                    let fresh = ShardEntry { shard: shard_id, addr, last_used: now };
                    if before.is_none() {
                        mw = s[j as int].addrs@.len() - 1;
                        assert(s[j as int].addrs@[mw] == fresh);
                    } else {
                        let m = choose|m: int| 0 <= m < old_s[j as int].addrs@.len() && #[trigger] old_s[j as int].addrs@[m].shard == shard_id
                            && before == Some(old_s[j as int].addrs@[m].addr)
                            && e.addrs@ == old_s[j as int].addrs@.update(m, fresh);
                        assert(s[j as int].addrs@[m] == fresh);
                        mw = m;
                    }
                }
                let ghost s1 = self.sessions@;
                let ghost b0 = self.bindings@;
                if let Some(o) = before {
                    self.unbind(o);
                }
                let ghost mid = self.bindings@;
                proof {
                    if let Some(o) = before {
                        assert(!has_addr(mid, o));
                    }
                    assert(forall|a: PeerAddr| #[trigger] has_addr(mid, a) ==> has_addr(b0, a));
                }
                let tok = token.clone();
                match self.find_addr(addr) {
                    Some(k) => {
                        self.bindings.set(k, Binding { addr, token: tok });
                        proof {
                            let nb = self.bindings@;
                            assert(nb == mid.update(k as int, Binding { addr, token: tok }));
                            assert forall|a: int, b: int| 0 <= a < b < nb.len() implies #[trigger] nb[a].addr != #[trigger] nb[b].addr by {
                                assert(mid[a].addr != mid[b].addr);
                            }
                            assert(nb[k as int].addr == addr);
                            assert forall|i: int| 0 <= i < nb.len() implies (nb[i].addr == addr && (#[trigger] nb[i]).token@ == token@)
                                || (nb[i].addr != addr && one_binding(mid, nb[i])) by {
                                if i != k {
                                    assert(nb[i] == mid[i]);
                                    assert(mid[i].addr != mid[k as int].addr || i == k);
                                }
                            }
                            assert forall|a: PeerAddr| #[trigger] has_addr(nb, a) implies a == addr || has_addr(mid, a) by {
                                if has_addr(nb, a) && a != addr {
                                    let q = choose|q: int| 0 <= q < nb.len() && #[trigger] nb[q].addr == a;
                                    assert(mid[q].addr == a);
                                }
                            }
                        }
                    },
                    None => {
                        self.bindings.push(Binding { addr, token: tok });
                        proof {
                            let nb = self.bindings@;
                            assert forall|a: int, b: int| 0 <= a < b < nb.len() implies #[trigger] nb[a].addr != #[trigger] nb[b].addr by {
                                if b < mid.len() {
                                    assert(mid[a].addr != mid[b].addr);
                                } else {
                                    assert(mid[a].addr != addr);
                                }
                            }
                            assert(nb[mid.len() as int].addr == addr);
                            assert forall|i: int| 0 <= i < nb.len() implies (nb[i].addr == addr && (#[trigger] nb[i]).token@ == token@)
                                || (nb[i].addr != addr && one_binding(mid, nb[i])) by {
                                if i < mid.len() {
                                    assert(nb[i] == mid[i]);
                                    assert(mid[i].addr != addr);
                                }
                            }
                            assert forall|a: PeerAddr| #[trigger] has_addr(nb, a) implies a == addr || has_addr(mid, a) by {
                                if has_addr(nb, a) && a != addr {
                                    let q = choose|q: int| 0 <= q < nb.len() && #[trigger] nb[q].addr == a;
                                    assert(mid[q].addr == a);
                                }
                            }
                        }
                    },
                }
                proof {
                    assert(self.sessions@ == s1);
                    assert(self.sessions() == self.sessions@);
                    assert(self.bindings() == self.bindings@);
                    assert(s1[j as int].addrs@[mw] == ShardEntry { shard: shard_id, addr, last_used: now });
                    assert(old_s[j as int].token@ == token@);
                    assert(old(self).sessions() == old_s);
                    assert(old(self).bindings() == b0);
                    let fresh = ShardEntry { shard: shard_id, addr, last_used: now };
                    let oa = old_s[j as int].addrs@;
                    assert(shard_rebound(oa, s1[j as int].addrs@, fresh));
                    let nb = self.bindings@;
                    assert(forall|i: int| 0 <= i < nb.len() ==> (nb[i].addr == addr && (#[trigger] nb[i]).token@ == token@)
                                || (nb[i].addr != addr && one_binding(mid, nb[i])));
                    assert(0 <= mw < s1[j as int].addrs@.len());
                    assert forall|i: int| 0 <= i < nb.len() implies bound_in_table(s1, #[trigger] nb[i]) by {
                        if nb[i].addr == addr {
                            assert(s1[j as int].token@ == token@);
                            assert(s1[j as int].addrs@[mw].addr == addr);
                            assert(in_shards(s1[j as int].addrs@, nb[i].addr));
                        } else {
                            assert(one_binding(mid, nb[i]));
                            let q = choose|q: int| 0 <= q < mid.len() && mid[q] == nb[i];
                            assert(one_binding(b0, mid[q]));
                            let q2 = choose|q2: int| 0 <= q2 < b0.len() && b0[q2] == mid[q];
                            assert(bound_in_table(old_s, b0[q2]));
                            let x = nb[i];
                            let j2 = choose|j2: int| 0 <= j2 < old_s.len() && #[trigger] old_s[j2].token@ == x.token@
                                && in_shards(old_s[j2].addrs@, x.addr);
                            if j2 != j {
                                assert(s1[j2] == old_s[j2]);
                                assert(s1[j2].token@ == x.token@ && in_shards(s1[j2].addrs@, x.addr));
                            } else {
                                assert(s1[j as int].token@ == x.token@);
                                let m1 = choose|m1: int| 0 <= m1 < oa.len() && #[trigger] oa[m1].addr == x.addr;
                                let na = s1[j as int].addrs@;
                                if exists|m: int| 0 <= m < oa.len() && #[trigger] oa[m].shard == fresh.shard && na == oa.update(m, fresh) {
                                    let m = choose|m: int| 0 <= m < oa.len() && #[trigger] oa[m].shard == fresh.shard && na == oa.update(m, fresh);
                                    if m1 == m {
                                        let m2 = choose|m2: int| 0 <= m2 < oa.len() && #[trigger] oa[m2].shard == shard_id
                                            && before == Some(oa[m2].addr) && e.addrs@ == oa.update(m2, fresh);
                                        if m2 != m {
                                            if m < m2 {
                                                assert(oa[m].shard != oa[m2].shard);
                                            } else {
                                                assert(oa[m2].shard != oa[m].shard);
                                            }
                                        }
                                        assert(!has_addr(mid, x.addr));
                                        assert(mid[q].addr == x.addr);
                                    } else {
                                        assert(na[m1] == oa[m1]);
                                        assert(na[m1].addr == x.addr);
                                    }
                                } else {
                                    assert(na == oa.push(fresh));
                                    assert(na[m1] == oa[m1]);
                                    assert(na[m1].addr == x.addr);
                                }
                                assert(in_shards(na, x.addr));
                            }
                        }
                    }
                    assert forall|m: int| 0 <= m < oa.len() && oa[m].shard == shard_id && oa[m].addr != addr
                        implies !has_addr(self.bindings@, #[trigger] oa[m].addr) by {
                        let m2 = choose|m2: int| 0 <= m2 < oa.len() && #[trigger] oa[m2].shard == shard_id
                            && before == Some(oa[m2].addr) && e.addrs@ == oa.update(m2, fresh);
                        if m2 != m {
                            if m < m2 {
                                assert(oa[m].shard != oa[m2].shard);
                            } else {
                                assert(oa[m2].shard != oa[m].shard);
                            }
                        }
                    }
                    assert(forall|i: int| 0 <= i < nb.len() ==> (nb[i].addr == addr && (#[trigger] nb[i]).token@ == token@)
                                || (nb[i].addr != addr && one_binding(mid, nb[i])));
                }
                let ghost nb = self.bindings@;
                // the address now belongs to this session only: drop it from every other one
                let mut k: usize = 0;
                while k < self.sessions.len()
                    invariant
                        self.bindings@ == nb,
                        self.sessions@.len() == s1.len(),
                        0 <= j < s1.len(),
                        k <= s1.len(),
                        forall|q: int| 0 <= q < s1.len() ==> (#[trigger] s1[q]).addrs.wf(),
                        forall|q: int| 0 <= q < s1.len() ==> (#[trigger] self.sessions@[q]).addrs.wf(),
                        forall|q: int| 0 <= q < s1.len() ==> #[trigger] self.sessions@[q].token == s1[q].token
                            && self.sessions@[q].session == s1[q].session,
                        forall|q: int| 0 <= q < k && q != j ==> #[trigger] self.sessions@[q].addrs@ == without_addr(s1[q].addrs@, addr),
                        forall|q: int| k <= q < s1.len() || q == j ==> #[trigger] self.sessions@[q] == s1[q],
                    decreases s1.len() - k,
                {
                    if k != j {
                        let ghost before_k = self.sessions@;
                        let mut e2 = self.sessions.remove(k);
                        proof {
                            assert(before_k[k as int].addrs.wf());
                        }
                        e2.addrs.remove_addr(addr);
                        self.sessions.insert(k, e2);
                        proof {
                            let s = self.sessions@;
                            assert(s == before_k.remove(k as int).insert(k as int, e2));
                            assert forall|q: int| 0 <= q < s.len() && q != k implies #[trigger] s[q] == before_k[q] by {}
                        }
                    }
                    k = k + 1;
                }
                proof {
                    let s2 = self.sessions@;
                    assert(self.sessions() == s2 && self.bindings() == nb);
                    let fresh = ShardEntry { shard: shard_id, addr, last_used: now };
                    let oa = old_s[j as int].addrs@;
                    assert forall|q: int| 0 <= q < s1.len() implies #[trigger] s1[q].token@ == old_s[q].token@ by {}
                    assert forall|q: int| 0 <= q < s2.len() && q != j implies in_shards(#[trigger] s2[q].addrs@, addr) == false by {
                        lemma_without_addr(s1[q].addrs@, addr);
                    }
                    // wf_core
                    assert forall|p: int, q: int| 0 <= p < q < s2.len() implies #[trigger] s2[p].token@ != #[trigger] s2[q].token@ by {
                        assert(old_s[p].token@ != old_s[q].token@);
                    }
                    // every binding is in its own session's shards
                    assert forall|i: int| 0 <= i < nb.len() implies bound_in_table(s2, #[trigger] nb[i]) by {
                        if nb[i].addr == addr {
                            assert(s2[j as int] == s1[j as int]);
                            assert(s1[j as int].addrs@[mw].addr == addr);
                            assert(in_shards(s2[j as int].addrs@, nb[i].addr));
                        } else {
                            assert(bound_in_table(s1, nb[i]));
                            let j2 = choose|j2: int| 0 <= j2 < s1.len() && #[trigger] s1[j2].token@ == nb[i].token@
                                && in_shards(s1[j2].addrs@, nb[i].addr);
                            if j2 != j {
                                lemma_without_addr(s1[j2].addrs@, addr);
                            }
                            assert(s2[j2].token@ == nb[i].token@);
                            assert(in_shards(s2[j2].addrs@, nb[i].addr));
                        }
                    }
                    // and in no other
                    assert forall|i: int, q: int| 0 <= i < nb.len() && 0 <= q < s2.len() implies #[trigger] only_own(s2[q], nb[i]) by {
                        if in_shards(s2[q].addrs@, nb[i].addr) {
                            if nb[i].addr == addr {
                                assert(q == j);
                            } else {
                                assert(one_binding(mid, nb[i]));
                                let q1 = choose|q1: int| 0 <= q1 < mid.len() && mid[q1] == nb[i];
                                assert(one_binding(b0, mid[q1]));
                                let q2 = choose|q2: int| 0 <= q2 < b0.len() && b0[q2] == mid[q1];
                                assert(only_own(old_s[q], b0[q2]));
                                if q != j {
                                    lemma_without_addr(s1[q].addrs@, addr);
                                    assert(s1[q] == old_s[q]);
                                } else {
                                    let na = s1[j as int].addrs@;
                                    let m1 = choose|m1: int| 0 <= m1 < na.len() && #[trigger] na[m1].addr == nb[i].addr;
                                    if exists|m: int| 0 <= m < oa.len() && #[trigger] oa[m].shard == fresh.shard && na == oa.update(m, fresh) {
                                        let m = choose|m: int| 0 <= m < oa.len() && #[trigger] oa[m].shard == fresh.shard && na == oa.update(m, fresh);
                                        assert(m1 != m);
                                        assert(na[m1] == oa[m1]);
                                    } else {
                                        assert(na == oa.push(fresh));
                                        assert(na[m1] == oa[m1]);
                                    }
                                    assert(in_shards(oa, nb[i].addr));
                                }
                            }
                        }
                    }
                    assert(s2[j as int] == s1[j as int]);
                    assert(s1[j as int].addrs@[mw] == fresh);
                    assert(forall|q: int| 0 <= q < old_s.len() && q != j ==> #[trigger] s1[q] == old_s[q]);
                    assert(old(self).sessions() == old_s);
                    assert(s2.len() == old_s.len());
                    assert(s2[j as int].token == old_s[j as int].token && s2[j as int].session == old_s[j as int].session);
                    assert(s2[j as int].addrs@[mw] == fresh);
                    assert(shard_rebound(oa, s2[j as int].addrs@, fresh));
                    assert forall|q: int| 0 <= q < old_s.len() && q != j implies #[trigger] s2[q].token == old_s[q].token
                        && s2[q].session == old_s[q].session && s2[q].addrs@ == without_addr(old_s[q].addrs@, addr) by {
                        assert(s1[q] == old_s[q]);
                    }
                    assert forall|m: int| 0 <= m < oa.len() && oa[m].shard == shard_id && oa[m].addr != addr
                        implies !has_addr(nb, #[trigger] oa[m].addr) by {}
                    assert(old_s[j as int].token@ == token@);
                }
                true
            },
        }
    }

    /// Forgets the session holding `token`, and unbinds every address of its shards.
    pub fn delete(&mut self, token: Buff)
        requires
            old(self).wf(),
        ensures
            final(self).wf(),
            !has_token(final(self).sessions(), token@),
            !has_token(old(self).sessions(), token@) ==> final(self).sessions() == old(self).sessions()
                && final(self).bindings() == old(self).bindings(),
            has_token(old(self).sessions(), token@) ==> exists|j: int|
                0 <= j < old(self).sessions().len() && #[trigger] old(self).sessions()[j].token@ == token@
                    && final(self).sessions() == old(self).sessions().remove(j)
                    && forall|m: int| 0 <= m < old(self).sessions()[j].addrs@.len()
                        ==> !has_addr(final(self).bindings(), #[trigger] old(self).sessions()[j].addrs@[m].addr),
    {
        if let Some(j) = self.find_token(&token) {
            let ghost old_s = self.sessions@;
            let e = self.sessions.remove(j);
            proof {
                let s = self.sessions@;
                assert(s == old_s.remove(j as int));
                assert forall|a: int, b: int| 0 <= a < b < s.len() implies #[trigger] s[a].token@ != #[trigger] s[b].token@ by {
                    let a2 = if a < j { a } else { a + 1 };
                    let b2 = if b < j { b } else { b + 1 };
                    assert(old_s[a2].token@ != old_s[b2].token@);
                }
                assert forall|a: int| 0 <= a < s.len() implies (#[trigger] s[a]).addrs.wf() by {
                    let a2 = if a < j { a } else { a + 1 };
                    assert(old_s[a2].addrs.wf());
                }
                assert forall|a: int| 0 <= a < s.len() implies #[trigger] s[a].token@ != token@ by {
                    let a2 = if a < j { a } else { a + 1 };
                    if a2 < j {
                        assert(old_s[a2].token@ != old_s[j as int].token@);
                    } else {
                        assert(old_s[j as int].token@ != old_s[a2].token@);
                    }
                }
                let b = self.bindings@;
                assert forall|i: int, k: int| 0 <= i < b.len() && 0 <= k < s.len() implies #[trigger] only_own(s[k], b[i]) by {
                    let k2 = if k < j { k } else { k + 1 };
                    assert(s[k] == old_s[k2]);
                    assert(only_own(old_s[k2], b[i]));
                }
                assert forall|i: int| 0 <= i < b.len() implies bound_in_table(s, #[trigger] b[i]) || in_shards(e.addrs@, b[i].addr) by {
                    assert(bound_in_table(old_s, b[i]));
                    let j2 = choose|j2: int| 0 <= j2 < old_s.len() && #[trigger] old_s[j2].token@ == b[i].token@ && in_shards(old_s[j2].addrs@, b[i].addr);
                    if j2 < j {
                        assert(s[j2] == old_s[j2]);
                    } else if j2 > j {
                        assert(s[j2 - 1] == old_s[j2]);
                    }
                }
            }
            let gone = e.addrs.addrs();
            let mut k: usize = 0;
            while k < gone.len()
                invariant
                    self.wf_core(),
                    self.sessions@ == old_s.remove(j as int),
                    k <= gone@.len(),
                    gone@ == e.addrs@.map_values(|x: ShardEntry| x.addr),
                    forall|m: int| 0 <= m < k ==> !has_addr(self.bindings@, #[trigger] gone@[m]),
                    forall|i: int| 0 <= i < self.bindings@.len() ==> bound_in_table(self.sessions@, #[trigger] self.bindings@[i])
                        || in_shards(e.addrs@, self.bindings@[i].addr),
                    forall|i: int, k: int| 0 <= i < self.bindings@.len() && 0 <= k < self.sessions@.len()
                        ==> #[trigger] only_own(self.sessions@[k], self.bindings@[i]),
                decreases gone@.len() - k,
            {
                let ghost b0 = self.bindings@;
                self.unbind(gone[k]);
                proof {
                    let b = self.bindings@;
                    assert forall|i: int| 0 <= i < b.len() implies bound_in_table(self.sessions@, #[trigger] b[i])
                        || in_shards(e.addrs@, b[i].addr) by {
                        assert(one_binding(b0, b[i]));
                        let q = choose|q: int| 0 <= q < b0.len() && b0[q] == b[i];
                        assert(bound_in_table(self.sessions@, b0[q]) || in_shards(e.addrs@, b0[q].addr));
                    }
                    assert forall|i: int, k: int| 0 <= i < b.len() && 0 <= k < self.sessions@.len()
                        implies #[trigger] only_own(self.sessions@[k], b[i]) by {
                        assert(one_binding(b0, b[i]));
                        let q = choose|q: int| 0 <= q < b0.len() && b0[q] == b[i];
                        assert(only_own(self.sessions@[k], b0[q]));
                    }
                }
                k = k + 1;
            }
            proof {
                let b = self.bindings@;
                assert forall|i: int| 0 <= i < b.len() implies bound_in_table(self.sessions@, #[trigger] b[i]) by {
                    if in_shards(e.addrs@, b[i].addr) {
                        let m = choose|m: int| 0 <= m < e.addrs@.len() && #[trigger] e.addrs@[m].addr == b[i].addr;
                        assert(gone@[m] == b[i].addr);
                        assert(has_addr(b, b[i].addr));
                    }
                }
                assert(self.sessions() == self.sessions@);
                assert(self.bindings() == self.bindings@);
                assert forall|m: int| 0 <= m < e.addrs@.len() implies !has_addr(self.bindings@, #[trigger] e.addrs@[m].addr) by {
                    assert(gone@[m] == e.addrs@[m].addr);
                }
                assert(old(self).sessions()[j as int] == e);
            }
        }
    }

    /// The shard table of the session holding `token`: where that session's packets go.
    pub fn shard_addrs(&self, token: &Buff) -> (r: Option<&ShardedAddrs>)
        requires
            self.wf(),
        ensures
            r.is_some() == has_token(self.sessions(), token@),
            r.is_some() ==> r.unwrap().wf() && exists|j: int|
                0 <= j < self.sessions().len() && #[trigger] self.sessions()[j].token@ == token@
                    && r.unwrap()@ == self.sessions()[j].addrs@,
    {
        match self.find_token(token) {
            None => None,
            Some(j) => {
                proof {
                    assert(self.sessions@[j as int].addrs.wf());
                    assert(self.sessions() == self.sessions@);
                }
                Some(&self.sessions[j].addrs)
            },
        }
    }

    /// The session that the address `addr` is bound to, if any.
    pub fn lookup(&self, addr: PeerAddr) -> (r: Option<&S>)
        requires
            self.wf(),
        ensures
            r.is_some() == exists|i: int, j: int|
                0 <= i < self.bindings().len() && 0 <= j < self.sessions().len() && #[trigger] self.bindings()[i].addr == addr
                    && #[trigger] self.sessions()[j].token@ == self.bindings()[i].token@,
            r.is_some() ==> exists|i: int, j: int|
                0 <= i < self.bindings().len() && 0 <= j < self.sessions().len() && #[trigger] self.bindings()[i].addr == addr
                    && #[trigger] self.sessions()[j].token@ == self.bindings()[i].token@ && r == Some(&self.sessions()[j].session),
    {
        proof {
            assert(self.bindings() == self.bindings@);
            assert(self.sessions() == self.sessions@);
        }
        match self.find_addr(addr) {
            None => None,
            Some(i) => match self.find_token(&self.bindings[i].token) {
                None => {
                    proof {
                        assert forall|i2: int, j: int|
                            0 <= i2 < self.bindings().len() && 0 <= j < self.sessions().len() && #[trigger] self.bindings()[i2].addr == addr
                            implies #[trigger] self.sessions()[j].token@ != self.bindings()[i2].token@ by {
                            if i2 != i {
                                if i2 < i {
                                    assert(self.bindings()[i2].addr != self.bindings()[i as int].addr);
                                } else {
                                    assert(self.bindings()[i as int].addr != self.bindings()[i2].addr);
                                }
                            }
                        }
                    }
                    None
                },
                Some(j) => {
                    proof {
                        assert(self.bindings()[i as int].addr == addr);
                        assert(self.sessions()[j as int].token@ == self.bindings()[i as int].token@);
                    }
                    Some(&self.sessions[j].session)
                },
            },
        }
    }
}

} // verus!
