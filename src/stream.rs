use crate::buffer::Buff;
use crate::mux::RelKind;
use vstd::prelude::*;

verus! {

/// Largest payload of one stream segment.
pub const MSS: usize = 1100;

/// Number of pending acknowledgements that forces an immediate ACK.
pub const ACK_BATCH: usize = 32;

/// Seconds a reset stream lingers, absorbing late packets.
pub const MAX_WAIT_SECS: u64 = 60;

/// How many times a SYN is resent before the stream gives up.
pub const MAX_SYN_TRIES: u64 = 5;

/// Largest spread of unacknowledged sequence numbers under which sending goes on.
pub const MAX_SEQNO_SPREAD: u64 = 10000;

/// Two to the power `n`.
pub open spec fn pow2(n: nat) -> nat
    decreases n,
{
    if n == 0 { 1 } else { 2 * pow2((n - 1) as nat) }
}

/// Milliseconds to wait for an answer to the SYN sent after `tries` earlier attempts:
/// 500 ms doubled per attempt; `None` once the attempts are used up.
pub fn syn_wait_ms(tries: u64) -> (r: Option<u64>)
    ensures
        tries > MAX_SYN_TRIES ==> r.is_none(),
        tries <= MAX_SYN_TRIES ==> r == Some((500 * pow2(tries as nat)) as u64),
{
    proof {
        reveal_with_fuel(pow2, 6);
    }
    if tries > MAX_SYN_TRIES {
        None
    } else if tries == 0 {
        Some(500)
    } else if tries == 1 {
        Some(1000)
    } else if tries == 2 {
        Some(2000)
    } else if tries == 3 {
        Some(4000)
    } else if tries == 4 {
        Some(8000)
    } else {
        Some(16000)
    }
}

/// Microseconds a reset stream lingers.
pub const RESET_LINGER_US: u64 = MAX_WAIT_SECS * 1_000_000;

/// Where a stream is in its life.
#[derive(Clone, Copy, Debug, PartialEq, Eq, Structural)]
pub enum Phase {
    /// Opened by the peer; the SYN-ACK is still to be sent.
    SynReceived,
    /// Opened here; `tries` SYNs were resent so far.
    SynSent { tries: u64 },
    /// Exchanging data.
    SteadyState,
    /// Broken; absorbing late packets until `death` (microseconds).
    Reset { death: u64 },
    /// Gone.
    Dead,
}

/// What happened to the stream.
#[derive(Clone, Copy, Debug, PartialEq, Eq, Structural)]
pub enum StreamEvent {
    /// The stream's turn came with nothing received (the phase's own work).
    Turn,
    /// A reliable-stream frame of this kind arrived.
    Frame(RelKind),
    /// The phase's timer ran out.
    Timeout,
    /// Steady-state processing failed: the peer reset, or the stream finished closing.
    Failed,
}

/// What the stream sends or reports on a step.
#[derive(Clone, Copy, Debug, PartialEq, Eq, Structural)]
pub enum StreamAction {
    Nothing,
    SendSynAck,
    /// Resend the SYN, with the opening's extra information.
    SendSyn,
    SendRst,
    /// Report to the opener that the stream is open.
    Opened,
}

/// One step of the stream's life. A peer-opened stream answers with a SYN-ACK at once. An
/// opened stream waits for any frame from the peer; on each timeout it resends the SYN,
/// and gives up after `MAX_SYN_TRIES` resends. A failure in steady state resets the stream
/// for `MAX_WAIT_SECS`; a reset stream answers traffic with RST and dies at its deadline or
/// when an RST arrives.
pub open spec fn phase_step(phase: Phase, evt: StreamEvent, now: u64) -> (Phase, StreamAction) {
    match phase {
        Phase::SynReceived => (Phase::SteadyState, StreamAction::SendSynAck),
        Phase::SynSent { tries } => if tries > MAX_SYN_TRIES {
            (Phase::Dead, StreamAction::Nothing)
        } else {
            match evt {
                StreamEvent::Frame(_) => (Phase::SteadyState, StreamAction::Opened),
                StreamEvent::Timeout => (Phase::SynSent { tries: (tries + 1) as u64 }, StreamAction::SendSyn),
                _ => (phase, StreamAction::Nothing),
            }
        },
        Phase::SteadyState => match evt {
            StreamEvent::Failed => (Phase::Reset {
                death: if now + RESET_LINGER_US > u64::MAX { u64::MAX } else { (now + RESET_LINGER_US) as u64 },
            }, StreamAction::SendRst),
            _ => (phase, StreamAction::Nothing),
        },
        Phase::Reset { death } => match evt {
            StreamEvent::Timeout => if now >= death { (Phase::Dead, StreamAction::Nothing) } else { (phase, StreamAction::Nothing) },
            StreamEvent::Frame(k) => if k == RelKind::Rst { (Phase::Dead, StreamAction::Nothing) } else { (phase, StreamAction::SendRst) },
            _ => (phase, StreamAction::Nothing),
        },
        Phase::Dead => (Phase::Dead, StreamAction::Nothing),
    }
}

/// Steps a stream's phase; see [`phase_step`].
pub fn next_phase(phase: Phase, evt: StreamEvent, now: u64) -> (r: (Phase, StreamAction))
    ensures
        r == phase_step(phase, evt, now),
{
    match phase {
        Phase::SynReceived => (Phase::SteadyState, StreamAction::SendSynAck),
        Phase::SynSent { tries } => {
            if tries > MAX_SYN_TRIES {
                (Phase::Dead, StreamAction::Nothing)
            } else {
                match evt {
                    StreamEvent::Frame(_) => (Phase::SteadyState, StreamAction::Opened),
                    StreamEvent::Timeout => (Phase::SynSent { tries: tries + 1 }, StreamAction::SendSyn),
                    _ => (phase, StreamAction::Nothing),
                }
            }
        },
        Phase::SteadyState => match evt {
            StreamEvent::Failed => {
                let death = if now > u64::MAX - RESET_LINGER_US { u64::MAX } else { now + RESET_LINGER_US };
                (Phase::Reset { death }, StreamAction::SendRst)
            },
            _ => (phase, StreamAction::Nothing),
        },
        Phase::Reset { death } => match evt {
            StreamEvent::Timeout => {
                if now >= death {
                    (Phase::Dead, StreamAction::Nothing)
                } else {
                    (phase, StreamAction::Nothing)
                }
            },
            StreamEvent::Frame(k) => {
                if k == RelKind::Rst {
                    (Phase::Dead, StreamAction::Nothing)
                } else {
                    (phase, StreamAction::SendRst)
                }
            },
            _ => (phase, StreamAction::Nothing),
        },
        Phase::Dead => (Phase::Dead, StreamAction::Nothing),
    }
}

/// Whether a stream may resend a lost segment, and whether it may send a new one.
#[derive(Clone, Copy, Debug, PartialEq, Eq, Structural)]
pub struct SendGates {
    pub can_retransmit: bool,
    pub can_write_new: bool,
}

/// The congestion window caps resends and new sends together. Resending needs the segments
/// in flight within the window and a bounded spread of sequence numbers; a new segment
/// needs that, all unacknowledged segments within the window, no close under way and no
/// lost segment waiting to be resent.
pub fn send_gates(inflight: usize, unacked: usize, cwnd: usize, spread: u64, closing: bool, lost_waiting: bool) -> (r: SendGates)
    ensures
        r.can_retransmit == (inflight <= cwnd && spread <= MAX_SEQNO_SPREAD),
        r.can_write_new == (r.can_retransmit && unacked <= cwnd && !closing && !lost_waiting),
{
    let can_retransmit = inflight <= cwnd && spread <= MAX_SEQNO_SPREAD;
    let can_write_new = can_retransmit && unacked <= cwnd && !closing && !lost_waiting;
    SendGates { can_retransmit, can_write_new }
}

/// Concatenation of chunks.
pub open spec fn joined(chunks: Seq<Seq<u8>>) -> Seq<u8>
    decreases chunks.len(),
{
    if chunks.len() == 0 {
        Seq::empty()
    } else {
        joined(chunks.drop_last()) + chunks.last()
    }
}

/// Cuts written bytes into segments of at most `MSS` bytes, none empty, which joined give
/// the bytes back.
pub fn fragment(data: &[u8]) -> (r: Vec<Buff>)
    ensures
        joined(r@.map_values(|b: Buff| b@)) == data@,
        forall|i: int| 0 <= i < r@.len() ==> 0 < (#[trigger] r@[i])@.len() <= MSS,
{
    let mut out: Vec<Buff> = Vec::new();
    let mut pos: usize = 0;
    while pos < data.len()
        invariant
            pos <= data@.len(),
            joined(out@.map_values(|b: Buff| b@)) == data@.subrange(0, pos as int),
            forall|i: int| 0 <= i < out@.len() ==> 0 < (#[trigger] out@[i])@.len() <= MSS,
        decreases data@.len() - pos,
    {
        let end = if data.len() - pos > MSS { pos + MSS } else { data.len() };
        let piece = Buff::copy_from_slice(vstd::slice::slice_subrange(data, pos, end));
        let ghost before = out@;
        out.push(piece);
        proof {
            let m = out@.map_values(|b: Buff| b@);
            assert(m.drop_last() =~= before.map_values(|b: Buff| b@));
            assert(m.last() == piece@);
            assert(data@.subrange(0, end as int) =~= data@.subrange(0, pos as int) + data@.subrange(pos as int, end as int));
        }
        pos = end;
    }
    assert(data@.subrange(0, pos as int) =~= data@);
    out
}

} // verus!
