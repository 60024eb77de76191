use sosistab::buffer::Buff;
use sosistab::congestion::{CongestionControl, Trivial};
use sosistab::connvars::ConnVars;
use sosistab::inflight::Inflight;
use sosistab::minqueue::MinQueue;
use sosistab::outlier::worst_worker;
use sosistab::pacer::{Pacer, QUANTUM};

fn payload(b: u8) -> Buff {
    Buff::copy_from_slice(&[b, b, b])
}

#[test]
fn inflight_counts_lost_segments() {
    let mut t = Inflight::new(0);
    for s in 0..5u64 {
        t.insert(s, payload(s as u8), 100, 1000);
    }
    assert_eq!(t.unacked(), 5);
    assert_eq!(t.inflight(), 5);
    assert!(t.mark_lost(1));
    assert!(t.mark_lost(3));
    assert!(t.mark_lost(3));
    assert!(!t.mark_lost(42));
    assert_eq!(t.lost_count(), 2);
    assert_eq!(t.inflight(), t.unacked() - t.lost_count());
    assert_eq!(t.inflight(), 3);
}

#[test]
fn inflight_retransmit_clears_lost_and_backs_off() {
    let mut t = Inflight::new(0);
    t.insert(7, payload(7), 0, 1000);
    assert!(t.mark_lost(7));
    assert!(t.is_lost(7));
    assert_eq!(t.first_rto(), None);
    let p = t.retransmit(7, 5000, 1000).expect("present");
    assert_eq!(p.as_slice(), &[7, 7, 7]);
    assert_eq!(t.lost_count(), 0);
    // one retransmission: timeout doubled
    assert_eq!(t.first_rto(), Some((7, 7000)));
    assert!(t.mark_lost(7));
    t.retransmit(7, 10_000, 1000);
    assert_eq!(t.first_rto(), Some((7, 14_000)));
    assert_eq!(t.retransmit(8, 0, 1000).map(|b| b.len()), None);
}

#[test]
fn inflight_first_rto_is_earliest_live() {
    let mut t = Inflight::new(0);
    t.insert(1, payload(1), 100, 500);
    t.insert(2, payload(2), 50, 500);
    t.insert(3, payload(3), 10, 500);
    assert_eq!(t.first_rto(), Some((3, 510)));
    t.mark_lost(3);
    assert_eq!(t.first_rto(), Some((2, 550)));
}

#[test]
fn inflight_ack_reports_sample() {
    let mut t = Inflight::new(0);
    t.insert(1, payload(1), 100, 1000);
    let s = t.mark_acked(1, 350, 10).expect("acked");
    assert_eq!(s.seqno, 1);
    assert_eq!(s.rtt, Some(250));
    assert_eq!(s.delivered, 1);
    assert_eq!(s.packet_delivered, 0);
    assert_eq!(t.unacked(), 0);
    assert!(t.mark_acked(1, 400, 10).is_none());
}

#[test]
fn inflight_ack_of_retransmitted_gives_no_rtt() {
    let mut t = Inflight::new(0);
    t.insert(1, payload(1), 0, 100);
    t.mark_lost(1);
    t.retransmit(1, 10, 100);
    let s = t.mark_acked(1, 50, 0).expect("acked");
    assert_eq!(s.rtt, None);
}

#[test]
fn inflight_fast_retransmit_pulls_older_segment() {
    let mut t = Inflight::new(0);
    t.insert(1, payload(1), 0, 1000);
    t.insert(2, payload(2), 600, 1000);
    // segment 1 is due at 1000, segment 2 at 1600; with rtt_var 100, 1000 + 400 <= 1600
    t.mark_acked(2, 700, 100);
    assert_eq!(t.first_rto(), Some((1, 700)));
}

#[test]
fn inflight_cumulative_ack() {
    let mut t = Inflight::new(0);
    for s in [4u64, 1, 3, 2, 6] {
        t.insert(s, payload(s as u8), 10 * s, 1000);
    }
    t.mark_lost(2);
    let acked = t.mark_acked_lt(4, 500);
    let nos: Vec<u64> = acked.iter().map(|a| a.seqno).collect();
    assert_eq!(nos, vec![1, 2, 3]);
    assert_eq!(acked[2].delivered, 3);
    assert_eq!(t.unacked(), 2);
    assert_eq!(t.lost_count(), 0);
    assert_eq!(t.last_minus_first(), 2);
}

#[test]
fn worker_outlier_picks_starved_worker() {
    assert_eq!(worst_worker(&[0, 30, 28, 32]), Some(0));
    assert_eq!(worst_worker(&[5, 2, 2, 9]), Some(1));
    assert_eq!(worst_worker(&[]), None);
}

#[test]
fn pacer_waits_every_quantum() {
    let mut p = Pacer::new(100, 1000);
    for _ in 0..QUANTUM - 1 {
        assert_eq!(p.tick(), None);
    }
    assert_eq!(p.tick(), Some(1000));
    p.advance(1000);
    for _ in 0..QUANTUM - 1 {
        assert_eq!(p.tick(), None);
    }
    assert_eq!(p.tick(), Some(1800));
    p.advance(5000);
    p.set_interval(10);
    for _ in 0..QUANTUM - 1 {
        p.tick();
    }
    assert_eq!(p.tick(), Some(5000));
}

#[test]
fn trivial_window_is_constant() {
    let mut c = Trivial::new(64);
    c.mark_ack(10, 10);
    c.mark_loss();
    assert_eq!(c.cwnd(), 64);
    assert_eq!(CongestionControl::cwnd(&c), 64);
    CongestionControl::mark_loss(&mut c);
    assert_eq!(c.cwnd(), 64);
}

#[test]
fn connvars_write_ack_and_retransmit() {
    let mut c = ConnVars::new(0);
    assert_eq!(c.on_write(payload(1), 0, 1000), 0);
    assert_eq!(c.on_write(payload(2), 0, 1000), 1);
    assert_eq!(c.on_write(payload(3), 0, 1000), 2);
    let g = c.gates(2);
    assert!(!g.can_retransmit && !g.can_write_new);
    assert!(c.on_rto(1));
    assert_eq!(c.next_retransmit(), Some(1));
    assert!(!c.gates(16).can_write_new);
    let resent = c.on_retransmit(1, 2000, 1000).expect("still unacknowledged");
    assert_eq!(resent.as_slice(), &[2, 2, 2]);
    assert_eq!(c.next_retransmit(), None);
    let acked = c.on_data_ack(1, &[2], 2500, 0);
    let nos: Vec<u64> = acked.iter().map(|a| a.seqno).collect();
    assert_eq!(nos, vec![0, 2]);
    assert!(!c.check_closed());
    c.start_closing();
    assert!(!c.gates(16).can_write_new);
    c.on_data_ack(2, &[], 2600, 0);
    assert!(c.check_closed());
}

#[test]
fn connvars_receive_and_ack() {
    let mut c = ConnVars::new(0);
    assert!(c.on_data(1, payload(1)).is_empty());
    let out = c.on_data(0, payload(0));
    assert_eq!(out.len(), 2);
    assert_eq!(out[0].as_slice(), &[0, 0, 0]);
    assert_eq!(out[1].as_slice(), &[1, 1, 1]);
    // a duplicate is not acknowledged twice
    assert!(c.on_data(1, payload(1)).is_empty());
    assert!(!c.ack_batch_full());
    let (lowest, acks) = c.take_acks();
    assert_eq!(lowest, 2);
    assert_eq!(acks, vec![0, 1]);
    assert_eq!(c.take_acks().1, Vec::<u64>::new());
}

#[test]
fn minqueue_tracks_minimum_fifo() {
    let mut q = MinQueue::new();
    assert_eq!(q.min(), None);
    assert_eq!(q.pop_front(), None);
    for x in [5u64, 3, 8, 1, 9] {
        q.push_back(x);
    }
    assert_eq!(q.len(), 5);
    assert_eq!(q.peek_front(), Some(5));
    assert_eq!(q.min(), Some(1));
    assert_eq!(q.pop_front(), Some(5));
    assert_eq!(q.pop_front(), Some(3));
    q.push_back(2);
    assert_eq!(q.min(), Some(1));
    assert_eq!(q.pop_front(), Some(8));
    assert_eq!(q.pop_front(), Some(1));
    assert_eq!(q.min(), Some(2));
    assert_eq!(q.peek_front(), Some(9));
    assert_eq!(q.pop_front(), Some(9));
    assert_eq!(q.pop_front(), Some(2));
    assert_eq!(q.len(), 0);
}

#[test]
fn inflight_accounting_holds_throughout() {
    let mut t = Inflight::new(0);
    let mut next = 0u64;
    let mut now = 0u64;
    let mut x: u64 = 12345;
    for _ in 0..2000 {
        x = x.wrapping_mul(6364136223846793005).wrapping_add(1442695040888963407);
        now += 10;
        match (x >> 33) % 5 {
            0 | 1 => {
                t.insert(next, payload(next as u8), now, 500);
                next += 1;
            }
            2 => {
                if next > 0 {
                    t.mark_lost((x >> 40) % next);
                }
            }
            3 => {
                if let Some(s) = t.first_rto() {
                    if !t.is_lost(s.0) {
                        t.mark_lost(s.0);
                    }
                    t.retransmit(s.0, now, 500);
                }
            }
            _ => {
                if next > 0 {
                    t.mark_acked((x >> 40) % next, now, 5);
                }
            }
        }
        assert!(t.lost_count() <= t.unacked());
        assert_eq!(t.inflight(), t.unacked() - t.lost_count());
    }
}

#[test]
fn loss_signal_squelches() {
    let mut c = ConnVars::new(0);
    assert!(!c.loss_signal(10, 10, 100, 50));
    assert!(c.loss_signal(20, 10, 100, 50));
    assert!(!c.loss_signal(20, 10, 140, 50));
    assert!(c.loss_signal(20, 10, 151, 50));
    assert_eq!(c.lost_count(), 0);
    assert_eq!(c.unacked(), 0);
}
