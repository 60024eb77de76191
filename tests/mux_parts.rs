use sosistab::buffer::Buff;
use sosistab::client::ClientWorker;
use sosistab::dejitter::{Dejitter, DejitterStep, DEJITTER_DELAY_US};
use sosistab::mux::{find_id, route_inbound, InboundAction, Message, PktTraceCtx, RelKind, MAX_STREAMS};
use sosistab::outlier::{upload_worker, FiredWorkers, OutlierRounds, RoundAction};
use sosistab::reorder::Reorderer;
use sosistab::replay::ReplayFilter;
use sosistab::stream::{fragment, next_phase, send_gates, syn_wait_ms, Phase, StreamAction, StreamEvent, MSS};

fn b(bytes: &[u8]) -> Buff {
    Buff::copy_from_slice(bytes)
}

#[test]
fn reorderer_delivers_in_order() {
    let mut r = Reorderer::new();
    assert!(r.insert(1, b(b"world")));
    assert!(r.take().is_empty());
    assert!(r.insert(0, b(b"hello ")));
    let out: Vec<Vec<u8>> = r.take().iter().map(|x| x.as_slice().to_vec()).collect();
    assert_eq!(out, vec![b"hello ".to_vec(), b"world".to_vec()]);
    assert_eq!(r.lowest(), 2);
}

#[test]
fn reorderer_rejects_duplicates_and_old() {
    let mut r = Reorderer::new();
    assert!(r.insert(0, b(b"a")));
    assert_eq!(r.take().len(), 1);
    assert!(!r.insert(0, b(b"a")));
    assert!(r.insert(3, b(b"d")));
    assert!(!r.insert(3, b(b"d")));
    assert!(r.take().is_empty());
    assert_eq!(r.lowest(), 1);
}

#[test]
fn reorderer_stream_of_shuffled_chunks() {
    let chunks: Vec<Vec<u8>> = (0..20u8).map(|i| vec![i; (i as usize % 5) + 1]).collect();
    let order = [3usize, 0, 1, 7, 2, 5, 4, 6, 19, 8, 9, 11, 10, 12, 15, 13, 14, 16, 18, 17];
    let mut r = Reorderer::new();
    let mut got: Vec<u8> = Vec::new();
    for &i in order.iter() {
        r.insert(i as u64, b(&chunks[i]));
        for piece in r.take() {
            got.extend_from_slice(piece.as_slice());
        }
    }
    let want: Vec<u8> = chunks.concat();
    assert_eq!(got, want);
}

#[test]
fn dejitter_pops_in_sequence() {
    let mut d: Dejitter<&'static str> = Dejitter::new();
    assert_eq!(d.next_step(), DejitterStep::Idle);
    d.push("two", 2, 100);
    assert_eq!(d.next_step(), DejitterStep::WaitUntil(100 + DEJITTER_DELAY_US));
    d.push("one", 1, 150);
    assert_eq!(d.next_step(), DejitterStep::Ready);
    assert_eq!(d.pop(), Some(("one", 1)));
    assert_eq!(d.next_step(), DejitterStep::Ready);
    assert_eq!(d.pop(), Some(("two", 2)));
    assert_eq!(d.pop(), None);
}

#[test]
fn dejitter_gap_waits_from_oldest_arrival() {
    let mut d: Dejitter<u32> = Dejitter::with_delay(5);
    d.push(10, 10, 1000);
    d.push(7, 7, 1003);
    assert_eq!(d.next_step(), DejitterStep::WaitUntil(1005));
    assert_eq!(d.pop(), Some((7, 7)));
    assert_eq!(d.next_step(), DejitterStep::WaitUntil(1008));
}

#[test]
fn route_inbound_cases() {
    let syn = Message::Rel { kind: RelKind::Syn, stream_id: 9, seqno: 0, payload: b(b"") };
    assert_eq!(route_inbound(&syn, false), InboundAction::Accept(9));
    assert_eq!(route_inbound(&syn, true), InboundAction::ReplySynAck(9));
    let data = Message::Rel { kind: RelKind::Data, stream_id: 4, seqno: 3, payload: b(b"x") };
    assert_eq!(route_inbound(&data, true), InboundAction::Deliver(4));
    assert_eq!(route_inbound(&data, false), InboundAction::ReplyRst(4));
    let rst = Message::Rel { kind: RelKind::Rst, stream_id: 4, seqno: 0, payload: b(b"") };
    assert_eq!(route_inbound(&rst, false), InboundAction::Absorb);
    assert_eq!(route_inbound(&Message::Empty, false), InboundAction::Absorb);
    assert_eq!(route_inbound(&Message::Urel(b(b"u")), false), InboundAction::DeliverUrel);
}

#[test]
fn find_id_avoids_taken() {
    let taken: Vec<u16> = (0..65000u16).collect();
    for _ in 0..20 {
        let id = find_id(&taken).expect("room left");
        assert!(id >= 65000);
    }
    assert_eq!(find_id(&vec![0u16; MAX_STREAMS]), None);
    let all: Vec<u16> = (0..=65534u16).collect();
    assert_eq!(find_id(&all), None);
}

#[test]
fn trace_ctx_ids_differ() {
    let a = PktTraceCtx::new_random();
    let c = PktTraceCtx::new_random();
    assert_ne!(a.mux_uniqid, c.mux_uniqid);
}

#[test]
fn fragment_cuts_at_mss() {
    let data: Vec<u8> = (0..2500u32).map(|i| i as u8).collect();
    let parts = fragment(&data);
    let lens: Vec<usize> = parts.iter().map(|p| p.len()).collect();
    assert_eq!(lens, vec![MSS, MSS, 300]);
    let joined: Vec<u8> = parts.iter().flat_map(|p| p.as_slice().to_vec()).collect();
    assert_eq!(joined, data);
    assert!(fragment(&[]).is_empty());
}

#[test]
fn send_gates_follow_window() {
    let g = send_gates(10, 12, 16, 5, false, false);
    assert!(g.can_retransmit && g.can_write_new);
    let g = send_gates(10, 20, 16, 5, false, false);
    assert!(g.can_retransmit && !g.can_write_new);
    let g = send_gates(17, 20, 16, 5, false, false);
    assert!(!g.can_retransmit && !g.can_write_new);
    let g = send_gates(1, 1, 16, 5, false, true);
    assert!(g.can_retransmit && !g.can_write_new);
    let g = send_gates(1, 1, 16, 20000, false, false);
    assert!(!g.can_retransmit);
    let g = send_gates(1, 1, 16, 5, true, false);
    assert!(!g.can_write_new);
}

#[test]
fn syn_wait_doubles_then_gives_up() {
    assert_eq!(syn_wait_ms(0), Some(500));
    assert_eq!(syn_wait_ms(3), Some(4000));
    assert_eq!(syn_wait_ms(5), Some(16000));
    assert_eq!(syn_wait_ms(6), None);
}

#[test]
fn reconstructed_frames_pass_filter_once() {
    let mut f = ReplayFilter::new();
    assert!(f.add(2));
    let frames = vec![(b(b"a"), 1u64), (b(b"b"), 2), (b(b"c"), 3), (b(b"c"), 3)];
    let out = f.pass_fresh(frames);
    let nos: Vec<u64> = out.iter().map(|x| x.1).collect();
    assert_eq!(nos, vec![1, 3]);
    assert_eq!(out[1].0.as_slice(), b"c");
    assert!(f.pass_fresh(vec![(b(b"a"), 1)]).is_empty());
}

#[test]
fn outlier_rounds_fire_then_rebaseline() {
    let mut r = OutlierRounds::new(0);
    assert_eq!(r.on_upload(500, Some(1000)), None);
    assert_eq!(r.on_upload(2000, None), None);
    assert_eq!(r.on_upload(1500, Some(1000)), Some(RoundAction::Check));
    assert_eq!(r.pick(&[0, 30, 28, 32], true), Some(0));
    assert_eq!(r.on_upload(3000, Some(1000)), Some(RoundAction::Rebaseline));
    assert_eq!(r.on_upload(4500, Some(1000)), Some(RoundAction::Check));
    assert_eq!(r.pick(&[10, 11, 9, 10], false), None);
    assert_eq!(r.on_upload(6000, Some(1000)), Some(RoundAction::Check));
}

#[test]
fn stream_phases_open_and_reset() {
    let (p, a) = next_phase(Phase::SynReceived, StreamEvent::Turn, 0);
    assert_eq!((p, a), (Phase::SteadyState, StreamAction::SendSynAck));
    let (p, a) = next_phase(Phase::SynSent { tries: 0 }, StreamEvent::Timeout, 0);
    assert_eq!((p, a), (Phase::SynSent { tries: 1 }, StreamAction::SendSyn));
    let (p, a) = next_phase(p, StreamEvent::Frame(RelKind::SynAck), 10);
    assert_eq!((p, a), (Phase::SteadyState, StreamAction::Opened));
    let (p, a) = next_phase(p, StreamEvent::Failed, 1_000);
    assert_eq!((p, a), (Phase::Reset { death: 60_001_000 }, StreamAction::SendRst));
    let (q, a) = next_phase(p, StreamEvent::Frame(RelKind::Data), 2_000);
    assert_eq!((q, a), (p, StreamAction::SendRst));
    assert_eq!(next_phase(p, StreamEvent::Timeout, 60_001_000).0, Phase::Dead);
    assert_eq!(next_phase(p, StreamEvent::Frame(RelKind::Rst), 5).0, Phase::Dead);
}

#[test]
fn stream_syn_gives_up() {
    let mut p = Phase::SynSent { tries: 0 };
    for _ in 0..6 {
        p = next_phase(p, StreamEvent::Timeout, 0).0;
    }
    assert_eq!(p, Phase::SynSent { tries: 6 });
    assert_eq!(next_phase(p, StreamEvent::Turn, 0).0, Phase::Dead);
}

#[test]
fn worker_resumes_when_idle() {
    let mut w = ClientWorker::new();
    assert!(w.on_outgoing(0));
    assert!(!w.on_outgoing(500_000));
    w.on_incoming(true, 600_000);
    w.on_incoming(false, 700_000);
    assert_eq!(w.get_received_count(), 1);
    // more than a second since the last resume
    assert!(w.on_outgoing(1_200_000));
    assert!(!w.on_outgoing(1_300_000));
    w.reset_received_count();
    assert_eq!(w.get_received_count(), 0);
}

#[test]
fn fired_workers_keep_at_most_capacity() {
    let mut f = FiredWorkers::new(2);
    assert_eq!(f.fire(1), None);
    assert_eq!(f.fire(2), None);
    assert_eq!(f.fire(3), Some(1));
    assert_eq!(upload_worker(7, 4), 3);
    assert_eq!(upload_worker(8, 4), 0);
}
