use sosistab::buffer::Buff;
use sosistab::client::{hello_step, hello_timeout_secs, HelloAction, HelloEvent};
use sosistab::oob::{assign_missing, OobDecoder, ParitySpaceKey};
use sosistab::rtt::MinRtt;
use sosistab::protocol::{hidden_byte, padding_len, DataFrameV2};
use sosistab::rloss::LossCounter;
use sosistab::session::RecvCore;
use sosistab::recent::RecentFilter;
use sosistab::replay::ReplayFilter;
use sosistab::sniff::{guess_client_hello, read_u24, SniffError};
use sosistab::table::{PeerAddr, SessionTable, ShardedAddrs};

#[test]
fn replay_add_twice() {
    let mut f = ReplayFilter::new();
    assert!(f.add(5));
    assert!(!f.add(5));
}

#[test]
fn replay_out_of_order_inside_window() {
    let mut f = ReplayFilter::new();
    assert!(f.add(10));
    assert!(f.add(3));
    assert!(f.add(7));
    assert!(!f.add(3));
}

#[test]
fn replay_window_slides() {
    let mut f = ReplayFilter::new();
    assert!(f.add(1));
    assert!(f.add(20_000));
    // now everything below 10_000 is too old
    assert!(!f.add(9_999));
    assert!(f.add(10_000));
    assert!(!f.add(1));
}

fn addr(last: u8, port: u16) -> PeerAddr {
    PeerAddr { ip: 0xffff_0a00_0000 | last as u128, port }
}

#[test]
fn get_addr_single_shard() {
    let a = addr(1, 1000);
    let s = ShardedAddrs::new(0, a, 0);
    assert_eq!(s.get_addr(5_000_000), Some(a));
    // long unused: still the only one
    assert_eq!(s.get_addr(100_000_000), Some(a));
}

#[test]
fn get_addr_prefers_recent_shards() {
    let old = addr(1, 1000);
    let fresh = addr(2, 2000);
    let mut s = ShardedAddrs::new(0, old, 0);
    assert_eq!(s.insert_addr(1, fresh, 50_000_000), None);
    for _ in 0..50 {
        assert_eq!(s.get_addr(55_000_000), Some(fresh));
    }
}

#[test]
fn get_addr_falls_back_to_most_recent() {
    let a = addr(1, 1000);
    let b = addr(2, 2000);
    let mut s = ShardedAddrs::new(0, a, 1_000);
    s.insert_addr(3, b, 2_000);
    assert_eq!(s.get_addr(90_000_000), Some(b));
}

#[test]
fn insert_addr_returns_previous() {
    let a = addr(1, 1000);
    let b = addr(2, 2000);
    let mut s = ShardedAddrs::new(4, a, 0);
    assert_eq!(s.insert_addr(4, b, 10), Some(a));
    assert_eq!(s.addrs(), vec![b]);
}

#[test]
fn roaming_rebinds_session() {
    let token = Buff::copy_from_slice(b"token-one");
    let first = addr(1, 1000);
    let moved = addr(9, 4000);
    let mut t: SessionTable<u32> = SessionTable::new();
    t.new_sess(token.clone(), 77, ShardedAddrs::new(0, first, 0));
    assert!(t.rebind(first, 0, token.clone(), 10));
    assert_eq!(t.lookup(first), Some(&77));
    // client moves: same shard, new source address
    assert!(t.rebind(moved, 0, token.clone(), 20));
    assert_eq!(t.lookup(moved), Some(&77));
    assert_eq!(t.lookup(first), None);
    assert_eq!(t.shard_addrs(&token).expect("session").get_addr(30), Some(moved));
}

#[test]
fn rebind_unknown_token_fails() {
    let mut t: SessionTable<u32> = SessionTable::new();
    assert!(!t.rebind(addr(1, 1), 0, Buff::copy_from_slice(b"nope"), 0));
    assert_eq!(t.lookup(addr(1, 1)), None);
}

#[test]
fn delete_unbinds_all_shards() {
    let token = Buff::copy_from_slice(b"tok");
    let mut t: SessionTable<&'static str> = SessionTable::new();
    t.new_sess(token.clone(), "s", ShardedAddrs::new(0, addr(1, 1), 0));
    assert!(t.rebind(addr(1, 1), 0, token.clone(), 0));
    assert!(t.rebind(addr(2, 2), 1, token.clone(), 0));
    t.delete(token.clone());
    assert_eq!(t.lookup(addr(1, 1)), None);
    assert_eq!(t.lookup(addr(2, 2)), None);
    assert!(!t.rebind(addr(3, 3), 0, token, 0));
}

#[test]
fn handshake_replay_rejected_within_ttl() {
    let mut f = RecentFilter::new();
    let hello = b"captured client hello";
    assert!(f.check(hello, 1_000_000));
    assert!(!f.check(hello, 300_000_000));
    assert!(f.check(b"another hello", 300_000_000));
}

#[test]
fn handshake_replay_accepted_after_ttl() {
    let mut f = RecentFilter::new();
    let hello = b"captured client hello";
    assert!(f.check(hello, 1_000_000));
    assert!(f.check(hello, 602_000_000));
    assert!(!f.check(hello, 603_000_000));
}

#[test]
fn recent_filter_distinguishes_by_digest() {
    let mut f = RecentFilter::new();
    assert!(f.check(b"a", 0));
    assert!(f.check(b"b", 0));
    assert!(!f.check(b"a", 0));
}

#[test]
fn sniff_accepts_client_hello() {
    let bytes = [0x16, 0x03, 0x01, 0x02, 0x00, 0x01, 0x00, 0x01, 0xfc, 0x03, 0x03];
    assert_eq!(guess_client_hello(&bytes), Ok(()));
}

#[test]
fn sniff_rejects_other_types() {
    let bytes = [0x16, 0x03, 0x01, 0x02, 0x00, 0x02, 0x00, 0x01, 0xfc];
    assert_eq!(guess_client_hello(&bytes), Err(SniffError::NotClientHello(2)));
}

#[test]
fn sniff_rejects_long_hello() {
    let bytes = [0x16, 0x03, 0x01, 0x02, 0x00, 0x01, 0x00, 0x27, 0x10];
    assert_eq!(guess_client_hello(&bytes), Err(SniffError::BadLength(10000)));
}

#[test]
fn sniff_rejects_truncated() {
    assert_eq!(guess_client_hello(&[0x16, 0x03]), Err(SniffError::Truncated));
    assert_eq!(guess_client_hello(&[0, 0, 0, 0, 0, 1, 0]), Err(SniffError::Truncated));
}

#[test]
fn u24_is_big_endian() {
    assert_eq!(read_u24(&[0x01, 0x02, 0x03, 0xff]), Some(0x010203));
    assert_eq!(read_u24(&[1, 2]), None);
}

#[test]
fn padding_reaches_alignment() {
    assert_eq!(padding_len(40, 3), 3 + 24);
    assert_eq!(padding_len(64, 0), 32);
    assert_eq!(padding_len(1, 9), 9 + 31);
}

#[test]
fn hidden_byte_defaults_to_unknown() {
    assert_eq!(hidden_byte(&[]), 0xff);
    assert_eq!(hidden_byte(&[7, 8]), 7);
}

#[test]
fn loss_counter_counts_gaps_and_good() {
    let mut c = LossCounter::new();
    assert_eq!(c.counts(), (0, 1));
    c.record(1, 0);
    c.record(4, 10);
    // 2 and 3 are gaps; 3 arrives late
    c.record(3, 500_000);
    assert_eq!(c.counts(), (0, 1));
    // two seconds on: frames 1, 4, 3 settle as good and the gap at 2 as lost
    c.record(5, 2_100_000);
    assert_eq!(c.counts(), (1, 4));
    c.reset_counts();
    assert_eq!(c.counts(), (0, 0));
}

#[test]
fn session_emits_each_frame_once() {
    let mut core = RecvCore::new();
    let mut emitted = Vec::new();
    for (i, n) in [1u64, 2, 2, 5, 3, 1, 5, 4].iter().enumerate() {
        let frame = DataFrameV2::Data {
            frame_no: *n,
            high_recv_frame_no: 0,
            total_recv_frames: 0,
            body: Buff::copy_from_slice(&[*n as u8]),
        };
        if let Some((body, no)) = core.process(frame, i as u64) {
            assert_eq!(body.as_slice(), &[no as u8]);
            emitted.push(no);
        }
    }
    assert_eq!(emitted, vec![1, 2, 5, 3, 4]);
    let parity = DataFrameV2::Parity {
        data_frame_first: 0,
        data_count: 2,
        parity_count: 1,
        parity_index: 0,
        pad_size: 10,
        body: Buff::new(),
    };
    assert!(core.process(parity, 9).is_none());
}

#[test]
fn hello_retries_then_accepts() {
    let key = vec![7u8; 32];
    assert_eq!(hello_timeout_secs(0), 1);
    let (a, act) = hello_step(0, &key, &HelloEvent::TimedOut);
    assert_eq!((a, act), (1, HelloAction::Retry { timeout_secs: 2 }));
    let (a, act) = hello_step(a, &key, &HelloEvent::Reply { server_long_pk: None });
    assert_eq!((a, act), (2, HelloAction::Retry { timeout_secs: 4 }));
    let (_, act) = hello_step(a, &key, &HelloEvent::Reply { server_long_pk: Some(key.clone()) });
    assert_eq!(act, HelloAction::Accept);
}

#[test]
fn hello_refuses_wrong_key_and_caps_wait() {
    let key = vec![7u8; 32];
    let other = vec![8u8; 32];
    assert_eq!(hello_step(3, &key, &HelloEvent::Reply { server_long_pk: Some(other) }).1, HelloAction::Refuse);
    assert_eq!(hello_step(3, &key, &HelloEvent::TimedOut).1, HelloAction::Retry { timeout_secs: 10 });
    assert_eq!(hello_step(40, &key, &HelloEvent::TimedOut).1, HelloAction::Retry { timeout_secs: 10 });
    assert_eq!(hello_step(2, &key, &HelloEvent::IoError), (2, HelloAction::Fail));
}

fn key(first: u64, data_len: u8, pad_size: usize) -> ParitySpaceKey {
    ParitySpaceKey { first_data: first, data_len, parity_len: 2, pad_size }
}

#[test]
fn oob_job_when_enough_shards() {
    let mut d = OobDecoder::new(true);
    d.insert_data(10, Buff::copy_from_slice(b"aa"));
    d.insert_data(12, Buff::copy_from_slice(b"cc"));
    let k = key(10, 4, 16);
    assert!(d.insert_parity(k, 0, Buff::copy_from_slice(b"p0")).is_none());
    let job = d.insert_parity(k, 1, Buff::copy_from_slice(b"p1")).expect("2 data + 2 parity");
    assert_eq!(job.missing, vec![11, 13]);
    assert_eq!(job.present.len(), 2);
    assert_eq!(job.parity.len(), 2);
    // the run is done now
    assert!(d.insert_parity(k, 1, Buff::copy_from_slice(b"p1")).is_none());
    let rebuilt = assign_missing(&job.missing, vec![Buff::copy_from_slice(b"bb"), Buff::copy_from_slice(b"dd")]);
    assert_eq!(rebuilt[0].0, 11);
    assert_eq!(rebuilt[1].1.as_slice(), b"dd");
}

#[test]
fn oob_pad_too_small_gives_no_job() {
    let mut d = OobDecoder::new(true);
    d.insert_data(0, Buff::copy_from_slice(&[1u8; 20]));
    let k = key(0, 2, 8);
    assert!(d.insert_parity(k, 0, Buff::new()).is_none());
    assert!(d.insert_parity(k, 1, Buff::new()).is_none());
}

#[test]
fn oob_disabled_does_nothing() {
    let mut d = OobDecoder::new(false);
    d.insert_data(0, Buff::copy_from_slice(b"x"));
    assert!(d.insert_parity(key(0, 1, 8), 0, Buff::new()).is_none());
}

#[test]
fn min_rtt_refreshes_after_three_seconds() {
    let mut m = MinRtt::new(0);
    assert_eq!(m.min_rtt(), 500_000);
    m.record_sample(80_000, 1_000);
    m.record_sample(120_000, 2_000);
    assert_eq!(m.min_rtt(), 80_000);
    m.record_sample(120_000, 3_002_000);
    assert_eq!(m.min_rtt(), 120_000);
}

#[test]
fn pass_fresh_keeps_order_of_accepted() {
    let mut f = ReplayFilter::new();
    let out = f.pass_fresh(vec![(Buff::copy_from_slice(b"x"), 9), (Buff::copy_from_slice(b"y"), 4)]);
    let nos: Vec<u64> = out.iter().map(|x| x.1).collect();
    assert_eq!(nos, vec![9, 4]);
}

#[test]
fn new_sess_replacing_token_unbinds_old_shards() {
    let token = Buff::copy_from_slice(b"tok");
    let mut t: SessionTable<u8> = SessionTable::new();
    t.new_sess(token.clone(), 1, ShardedAddrs::new(0, addr(1, 1), 0));
    assert!(t.rebind(addr(1, 1), 0, token.clone(), 0));
    assert_eq!(t.lookup(addr(1, 1)), Some(&1));
    t.new_sess(token.clone(), 2, ShardedAddrs::new(0, addr(5, 5), 0));
    assert_eq!(t.lookup(addr(1, 1)), None);
    assert!(t.rebind(addr(5, 5), 0, token, 1));
    assert_eq!(t.lookup(addr(5, 5)), Some(&2));
}

#[test]
fn roaming_across_sessions_moves_binding() {
    let ta = Buff::copy_from_slice(b"a");
    let tb = Buff::copy_from_slice(b"b");
    let mut t: SessionTable<char> = SessionTable::new();
    t.new_sess(ta.clone(), 'a', ShardedAddrs::new(0, addr(1, 1), 0));
    t.new_sess(tb.clone(), 'b', ShardedAddrs::new(0, addr(2, 2), 0));
    assert!(t.rebind(addr(1, 1), 0, ta, 0));
    assert!(t.rebind(addr(1, 1), 3, tb, 5));
    assert_eq!(t.lookup(addr(1, 1)), Some(&'b'));
    // the address left session a's shards
    let ta2 = Buff::copy_from_slice(b"a");
    assert_eq!(t.shard_addrs(&ta2).expect("a").get_addr(5), None);
    assert_eq!(t.shard_addrs(&tb2()).expect("b").addrs(), vec![addr(2, 2), addr(1, 1)]);
}

fn tb2() -> Buff {
    Buff::copy_from_slice(b"b")
}
