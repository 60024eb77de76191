use vstd::prelude::*;

verus! {

/// How long, in microseconds, a handshake message is remembered.
pub const RECENT_TTL_US: u64 = 600_000_000;

/// The BLAKE3 digest of a byte string.
pub uninterp spec fn blake3_of(data: Seq<u8>) -> Seq<u8>;

/// Relies on `blake3::hash`: the 32-byte BLAKE3 digest of `data`, a function of `data` alone.
#[verifier::external_body]
fn blake3_digest(data: &[u8]) -> (r: Vec<u8>)
    ensures
        r@ == blake3_of(data@),
        r@.len() == 32,
{
    blake3::hash(data).as_bytes().to_vec()
}

/// A remembered handshake message: its digest and when it was first seen (microseconds).
pub struct RecentEntry {
    pub digest: Vec<u8>,
    pub seen_at: u64,
}

/// Whether an entry is past its time to live at `now`.
pub open spec fn expired(e: RecentEntry, now: u64) -> bool {
    now > e.seen_at && now - e.seen_at > RECENT_TTL_US
}

pub open spec fn holds_digest(s: Seq<RecentEntry>, d: Seq<u8>) -> bool {
    exists|i: int| 0 <= i < s.len() && #[trigger] s[i].digest@ == d
}

/// The first `k` entries, and no more, are expired at `now`.
pub open spec fn expired_prefix(s: Seq<RecentEntry>, now: u64, k: int) -> bool {
    &&& 0 <= k <= s.len()
    &&& forall|i: int| 0 <= i < k ==> expired(#[trigger] s[i], now)
    &&& k < s.len() ==> !expired(s[k], now)
}

/// A check of digest `d` at `now` on entries `before`, answering `r` and leaving `after`:
/// the expired prefix is forgotten; then `d` passes if no entry left holds it, and is
/// remembered as seen at `now`.
pub open spec fn checked(before: Seq<RecentEntry>, now: u64, d: Seq<u8>, r: bool, after: Seq<RecentEntry>) -> bool {
    exists|k: int| #[trigger] expired_prefix(before, now, k) && {
        let kept = before.subrange(k, before.len() as int);
        &&& r == !holds_digest(kept, d)
        &&& r ==> after.len() == kept.len() + 1 && after.drop_last() == kept && after.last().digest@ == d
            && after.last().seen_at == now
        &&& !r ==> after == kept
    }
}

/// Entries in the order they were seen, no later than `now`.
pub open spec fn seen_in_order(s: Seq<RecentEntry>, now: u64) -> bool {
    &&& forall|i: int, j: int| 0 <= i < j < s.len() ==> #[trigger] s[i].seen_at <= #[trigger] s[j].seen_at
    &&& forall|i: int| 0 <= i < s.len() ==> #[trigger] s[i].seen_at <= now
}

/// A replay after the time to live passes: when the entries are in time order and every
/// entry for digest `d` has expired at `now`, the check lets `d` through.
pub proof fn lemma_expired_replay_accepted(before: Seq<RecentEntry>, now: u64, d: Seq<u8>, r: bool, after: Seq<RecentEntry>)
    requires
        seen_in_order(before, now),
        forall|i: int| 0 <= i < before.len() && #[trigger] before[i].digest@ == d ==> expired(before[i], now),
        checked(before, now, d, r, after),
    ensures
        r,
{
    let k = choose|k: int| #[trigger] expired_prefix(before, now, k) && {
        let kept = before.subrange(k, before.len() as int);
        &&& r == !holds_digest(kept, d)
        &&& r ==> after.len() == kept.len() + 1 && after.drop_last() == kept && after.last().digest@ == d
            && after.last().seen_at == now
        &&& !r ==> after == kept
    };
    let kept = before.subrange(k, before.len() as int);
    if holds_digest(kept, d) {
        let i = choose|i: int| 0 <= i < kept.len() && #[trigger] kept[i].digest@ == d;
        assert(kept[i] == before[k + i]);
        assert(expired(before[k + i], now));
        if i > 0 {
            assert(before[k].seen_at <= before[k + i].seen_at);
        }
        assert(expired(before[k], now));
    }
}

/// Remembers the handshake messages seen in the last ten minutes, so that a replayed one
/// is refused.
pub struct RecentFilter {
    entries: Vec<RecentEntry>,
}

impl View for RecentFilter {
    type V = Seq<RecentEntry>;

    closed spec fn view(&self) -> Seq<RecentEntry> {
        self.entries@
    }
}

impl RecentFilter {
    /// A filter that remembers nothing.
    pub fn new() -> (r: Self)
        ensures
            r@.len() == 0,
    {
        RecentFilter { entries: Vec::new() }
    }

    /// First forgets the oldest entries while they are expired at `now`; then `true`, and
    /// `digest` is remembered as seen at `now`, if no entry left holds it.
    pub fn check_digest(&mut self, digest: Vec<u8>, now: u64) -> (r: bool)
        ensures
            checked(old(self)@, now, digest@, r, final(self)@),
            seen_in_order(old(self)@, now) ==> seen_in_order(final(self)@, now),
    {
        let ghost old_e = self.entries@;
        let mut k: usize = 0;
        while k < self.entries.len() && now > self.entries[k].seen_at && now - self.entries[k].seen_at > RECENT_TTL_US
            invariant
                self.entries@ == old_e,
                old(self)@ == old_e,
                k <= old_e.len(),
                forall|i: int| 0 <= i < k ==> expired(#[trigger] old_e[i], now),
            decreases old_e.len() - k,
        {
            k = k + 1;
        }
        proof {
            assert(expired_prefix(old_e, now, k as int));
        }
        let kept = self.entries.split_off(k);
        self.entries = kept;
        let ghost kept_s = self.entries@;
        proof {
            assert(kept_s =~= old_e.subrange(k as int, old_e.len() as int));
        }
        let mut i: usize = 0;
        while i < self.entries.len()
            invariant
                self.entries@ == kept_s,
                old(self)@ == old_e,
                kept_s == old_e.subrange(k as int, old_e.len() as int),
                expired_prefix(old_e, now, k as int),
                i <= kept_s.len(),
                forall|j: int| 0 <= j < i ==> #[trigger] kept_s[j].digest@ != digest@,
            decreases kept_s.len() - i,
        {
            if crate::table::same_bytes(self.entries[i].digest.as_slice(), digest.as_slice()) {
                proof {
                    assert(kept_s[i as int].digest@ == digest@);
                    assert(self@ == kept_s);
                    assert(expired_prefix(old_e, now, k as int));
                    assert(holds_digest(kept_s, digest@));
                    assert(old(self)@ == old_e);
                }
                return false;
            }
            i = i + 1;
        }
        let ghost d = digest@;
        self.entries.push(RecentEntry { digest, seen_at: now });
        proof {
            assert(expired_prefix(old_e, now, k as int));
            assert(self@.drop_last() =~= kept_s);
            assert(!holds_digest(kept_s, d));
        }
        true
    }

    /// Checks a handshake message seen at `now`: `true` the first time within the time to live,
    /// `false` for a replay. See [`RecentFilter::check_digest`], on the message's BLAKE3 digest.
    pub fn check(&mut self, val: &[u8], now: u64) -> (r: bool)
        ensures
            checked(old(self)@, now, blake3_of(val@), r, final(self)@),
            seen_in_order(old(self)@, now) ==> seen_in_order(final(self)@, now),
    {
        let d = blake3_digest(val);
        self.check_digest(d, now)
    }
}

} // verus!
