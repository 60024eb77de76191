use crate::buffer::{Buff, BuffMut};
use vstd::prelude::*;

verus! {

/// Little-endian encoding of a 16-bit length.
pub open spec fn le16(n: nat) -> Seq<u8> {
    seq![(n % 256) as u8, (n / 256 % 256) as u8]
}

/// Value of a little-endian 16-bit length.
pub open spec fn le16_value(lo: u8, hi: u8) -> nat {
    (lo as nat) + 256 * (hi as nat)
}

/// The shard that carries `pkt` in a run whose shards are `len` bytes long:
/// the length of `pkt`, `pkt` itself, then zeros.
pub open spec fn shard_of(pkt: Seq<u8>, len: nat) -> Seq<u8> {
    le16(pkt.len()) + pkt + Seq::new((len - pkt.len() - 2) as nat, |i: int| 0u8)
}

/// What a shard decodes to: the bytes its length prefix declares, if they are all there.
pub open spec fn body_of_shard(raw: Seq<u8>) -> Option<Seq<u8>> {
    if raw.len() < 2 {
        None
    } else if raw.len() < 2 + le16_value(raw[0], raw[1]) {
        None
    } else {
        Some(raw.subrange(2, 2 + le16_value(raw[0], raw[1]) as int))
    }
}

/// Frames a packet as a shard of `len` bytes, ready for the erasure coder.
pub fn pre_encode(pkt: &[u8], len: usize) -> (r: BuffMut)
    requires
        pkt@.len() <= 65535,
        pkt@.len() + 2 <= len,
    ensures
        r@ == shard_of(pkt@, len as nat),
{
    let n = pkt.len();
    let mut bts = BuffMut::new();
    bts.push((n % 256) as u8);
    bts.push((n / 256) as u8);
    bts.extend_from_slice(pkt);
    let fill = len - n - 2;
    let mut i: usize = 0;
    while i < fill
        invariant
            i <= fill,
            bts@ == le16(n as nat) + pkt@ + Seq::new(i as nat, |j: int| 0u8),
        decreases fill - i,
    {
        bts.push(0u8);
        i = i + 1;
        assert(bts@ =~= le16(n as nat) + pkt@ + Seq::new(i as nat, |j: int| 0u8));
    }
    assert(bts@ =~= shard_of(pkt@, len as nat));
    bts
}

/// Takes the packet back out of a reconstructed shard; `None` if the shard is malformed.
pub fn post_decode(raw: Buff) -> (r: Option<Buff>)
    ensures
        r.is_some() == body_of_shard(raw@).is_some(),
        r.is_some() ==> r.unwrap()@ == body_of_shard(raw@).unwrap(),
{
    if raw.len() < 2 {
        return None;
    }
    let s = raw.as_slice();
    let body_len = (s[0] as usize) + 256 * (s[1] as usize);
    if raw.len() < 2 + body_len {
        return None;
    }
    Some(raw.slice(2, 2 + body_len))
}

/// A packet framed as a shard comes back whole from the shard.
pub proof fn lemma_shard_round_trip(pkt: Seq<u8>, len: nat)
    requires
        pkt.len() <= 65535,
        pkt.len() + 2 <= len,
    ensures
        body_of_shard(shard_of(pkt, len)) == Some(pkt),
{
    let s = shard_of(pkt, len);
    assert(s[0] == (pkt.len() % 256) as u8);
    assert(s[1] == (pkt.len() / 256 % 256) as u8);
    assert(le16_value(s[0], s[1]) == pkt.len());
    assert(s.subrange(2, 2 + pkt.len() as int) =~= pkt);
}

} // verus!
