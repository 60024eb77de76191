use sosistab::buffer::{Buff, BuffMut};
use sosistab::fec::{post_decode, pre_encode};

#[test]
fn buffmut_starts_empty() {
    let b = BuffMut::new();
    assert_eq!(b.len(), 0);
    assert_eq!(b.as_slice(), &[] as &[u8]);
}

#[test]
fn buffmut_copy_and_freeze() {
    let mut b = BuffMut::copy_from_slice(&[1, 2, 3]);
    b.push(4);
    b.extend_from_slice(&[5, 6]);
    let f = b.freeze();
    assert_eq!(f.as_slice(), &[1, 2, 3, 4, 5, 6]);
    assert_eq!(f.len(), 6);
}

#[test]
fn buff_slice_shares_and_narrows() {
    let b = Buff::copy_from_slice(&[10, 11, 12, 13, 14, 15]);
    let c = b.clone();
    let s = b.slice(1, 5);
    assert_eq!(s.as_slice(), &[11, 12, 13, 14]);
    let t = s.slice(2, 4);
    assert_eq!(t.as_slice(), &[13, 14]);
    assert_eq!(c.as_slice(), &[10, 11, 12, 13, 14, 15]);
    assert_eq!(Buff::new().len(), 0);
}

#[test]
fn buff_slice_to_empty() {
    let b = Buff::copy_from_slice(&[1, 2, 3]);
    let s = b.slice(3, 3);
    assert_eq!(s.len(), 0);
}

#[test]
fn pre_encode_frames_with_length_and_zeros() {
    let b = pre_encode(&[0xaa, 0xbb, 0xcc], 8);
    assert_eq!(b.as_slice(), &[3, 0, 0xaa, 0xbb, 0xcc, 0, 0, 0]);
}

#[test]
fn pre_encode_long_length_is_little_endian() {
    let pkt = vec![7u8; 300];
    let b = pre_encode(&pkt, 302);
    assert_eq!(b.len(), 302);
    assert_eq!(b.as_slice()[0], 44);
    assert_eq!(b.as_slice()[1], 1);
    assert_eq!(&b.as_slice()[2..], &pkt[..]);
}

#[test]
fn shard_round_trip() {
    let pkt = [9u8, 8, 7, 6, 5];
    let shard = pre_encode(&pkt, 20).freeze();
    let back = post_decode(shard).expect("decodes");
    assert_eq!(back.as_slice(), &pkt);
}

#[test]
fn post_decode_rejects_short_and_overlong() {
    assert!(post_decode(Buff::copy_from_slice(&[1])).is_none());
    assert!(post_decode(Buff::copy_from_slice(&[5, 0, 1, 2])).is_none());
    let empty_body = post_decode(Buff::copy_from_slice(&[0, 0, 9, 9])).expect("empty body");
    assert_eq!(empty_body.len(), 0);
}
