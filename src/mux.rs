use crate::buffer::Buff;
use crate::rng::{random_below, random_u64};
use vstd::prelude::*;
use vstd::set_lib::{lemma_int_range, lemma_len_subset, set_int_range};

verus! {

/// Most streams that one multiplexer holds at once.
pub const MAX_STREAMS: usize = 65535;

/// A list that holds every 16-bit id is at least 65536 long.
proof fn lemma_every_id_taken_needs_room(taken: Seq<u16>)
    requires
        forall|id: u16| taken.contains(id),
    ensures
        taken.len() >= 65536,
{
    let t = taken.map_values(|x: u16| x as int);
    assert forall|i: int| #[trigger] set_int_range(0, 65536).contains(i) implies t.to_set().contains(i) by {
        assert(taken.contains(i as u16));
        let m = choose|m: int| 0 <= m < taken.len() && taken[m] == i as u16;
        assert(t[m] == i);
    }
    t.lemma_cardinality_of_set();
    lemma_int_range(0, 65536);
    lemma_len_subset(set_int_range(0, 65536), t.to_set());
}

/// Picks a stream id that `taken` does not hold, starting the search at a random id.
/// `None` when the multiplexer is full.
pub fn find_id(taken: &[u16]) -> (r: Option<u16>)
    ensures
        taken@.len() >= MAX_STREAMS ==> r.is_none(),
        r.is_some() ==> !taken@.contains(r.unwrap()),
        r.is_none() <==> taken@.len() >= MAX_STREAMS,
{
    if taken.len() >= MAX_STREAMS {
        return None;
    }
    let mut used: Vec<bool> = Vec::new();
    let mut k: usize = 0;
    while k < 65536
        invariant
            k <= 65536,
            taken@.len() < MAX_STREAMS,
            used@.len() == k,
            forall|j: int| 0 <= j < k ==> !#[trigger] used@[j],
        decreases 65536 - k,
    {
        used.push(false);
        k = k + 1;
    }
    let mut i: usize = 0;
    while i < taken.len()
        invariant
            i <= taken@.len(),
            taken@.len() < MAX_STREAMS,
            used@.len() == 65536,
            forall|j: int| 0 <= j < 65536 ==> (#[trigger] used@[j] <==> exists|m: int| 0 <= m < i && taken@[m] == j),
        decreases taken@.len() - i,
    {
        let id = taken[i] as usize;
        let ghost prev = used@;
        used.set(id, true);
        proof {
            assert forall|j: int| 0 <= j < 65536 implies (#[trigger] used@[j] <==> exists|m: int| 0 <= m < i + 1 && taken@[m] == j) by {
                if j == id {
                    assert(taken@[i as int] == j);
                } else {
                    assert(used@[j] == prev[j]);
                    if exists|m: int| 0 <= m < i + 1 && taken@[m] == j {
                        let m = choose|m: int| 0 <= m < i + 1 && taken@[m] == j;
                        assert(m != i);
                    }
                }
            }
        }
        i = i + 1;
    }
    let start = random_below(0, 65536);
    let mut step: usize = 0;
    while step < 65536
        invariant
            step <= 65536,
            start < 65536,
            taken@.len() < MAX_STREAMS,
            used@.len() == 65536,
            forall|j: int| 0 <= j < 65536 ==> (#[trigger] used@[j] <==> exists|m: int| 0 <= m < taken@.len() && taken@[m] == j),
            forall|s: int| 0 <= s < step ==> #[trigger] used@[((start + s) % 65536) as int],
        decreases 65536 - step,
    {
        let id = (start + step) % 65536;
        if !used[id] {
            proof {
                if taken@.contains(id as u16) {
                    let m = choose|m: int| 0 <= m < taken@.len() && taken@[m] == id as u16;
                    assert(used@[id as int]);
                }
            }
            return Some(id as u16);
        }
        step = step + 1;
    }
    proof {
        assert forall|id: u16| taken@.contains(id) by {
            let s = ((id as int) - start + 65536) % 65536;
            assert(0 <= s < 65536);
            assert((start + s) % 65536 == id as int);
            assert(used@[((start + s) % 65536) as int]);
            let m = choose|m: int| 0 <= m < taken@.len() && taken@[m] == id as int;
            assert(taken@[m] == id);
        }
        lemma_every_id_taken_needs_room(taken@);
    }
    None
}

/// Kinds of reliable-stream messages.
#[derive(Clone, Copy, Debug, PartialEq, Eq, Structural)]
pub enum RelKind {
    Syn,
    SynAck,
    Data,
    DataAck,
    Fin,
    Rst,
}

/// A message between two multiplexers.
pub enum Message {
    /// Keepalive or probe.
    Empty,
    /// Unreliable datagram.
    Urel(Buff),
    /// Reliable-stream message.
    Rel { kind: RelKind, stream_id: u16, seqno: u64, payload: Buff },
}

/// What the multiplexer does with a message that came in.
#[derive(Clone, Copy, Debug, PartialEq, Eq, Structural)]
pub enum InboundAction {
    /// Nothing more to do.
    Absorb,
    /// Hand the unreliable datagram to the application.
    DeliverUrel,
    /// A SYN for a stream that exists: answer with a SYN-ACK again.
    ReplySynAck(u16),
    /// A SYN for a new stream: open it and queue it for `accept`.
    Accept(u16),
    /// Hand the message to the stream.
    Deliver(u16),
    /// A message for an unknown stream: answer with a courtesy RST.
    ReplyRst(u16),
}

/// Routes an inbound message; `stream_known` says whether its stream id is open.
pub fn route_inbound(msg: &Message, stream_known: bool) -> (r: InboundAction)
    ensures
        r == (match msg {
            Message::Empty => InboundAction::Absorb,
            Message::Urel(_) => InboundAction::DeliverUrel,
            Message::Rel { kind, stream_id, .. } => if *kind == RelKind::Syn {
                if stream_known { InboundAction::ReplySynAck(*stream_id) } else { InboundAction::Accept(*stream_id) }
            } else if stream_known {
                InboundAction::Deliver(*stream_id)
            } else if *kind == RelKind::Rst {
                InboundAction::Absorb
            } else {
                InboundAction::ReplyRst(*stream_id)
            },
        }),
{
    match msg {
        Message::Empty => InboundAction::Absorb,
        Message::Urel(_) => InboundAction::DeliverUrel,
        Message::Rel { kind, stream_id, .. } => {
            if *kind == RelKind::Syn {
                if stream_known {
                    InboundAction::ReplySynAck(*stream_id)
                } else {
                    InboundAction::Accept(*stream_id)
                }
            } else if stream_known {
                InboundAction::Deliver(*stream_id)
            } else if *kind == RelKind::Rst {
                InboundAction::Absorb
            } else {
                InboundAction::ReplyRst(*stream_id)
            }
        },
    }
}

/// Identifies one multiplexer in packet traces.
#[derive(Clone, Copy, Debug, PartialEq, Eq, Structural)]
pub struct PktTraceCtx {
    pub mux_uniqid: u64,
}

impl PktTraceCtx {
    /// A context with a random id.
    pub fn new_random() -> (r: Self) {
        PktTraceCtx { mux_uniqid: random_u64() }
    }
}

} // verus!
