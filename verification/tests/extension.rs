use vole_rust::comm_channel::CommunicationChannel;
use vole_rust::cope::Cope;
use vole_rust::error::VoleError;
use vole_rust::field::Fe;
use vole_rust::iknp::{and_blocks, xor_blocks, xor_blocks_arr, IKNP};
use vole_rust::role::Role;
use vole_rust::spfss_receiver::SpfssRecverFp;

fn pass(from: &mut CommunicationChannel, to: &mut CommunicationChannel) {
    from.flush();
    let bytes = from.take_sent();
    to.feed(&bytes);
}

fn keyed_pair(malicious: bool) -> (IKNP, IKNP, CommunicationChannel, CommunicationChannel) {
    let k0: Vec<[u8; 16]> = (0..256).map(|i| [i as u8; 16]).collect();
    let k1: Vec<[u8; 16]> = (0..256).map(|i| [(i as u8) ^ 0x5a; 16]).collect();
    let s: Vec<bool> = (0..256).map(|i| i % 5 == 0 || i % 7 == 3).collect();
    let chosen: Vec<[u8; 16]> = (0..256).map(|i| if s[i] { k1[i] } else { k0[i] }).collect();
    let mut io_s = CommunicationChannel::new();
    let mut io_r = CommunicationChannel::new();
    let mut sender = IKNP::new(malicious);
    let mut receiver = IKNP::new(malicious);
    assert_eq!(sender.setup_send(&mut io_s, Some(&s), Some(&chosen)), Ok(true));
    assert!(receiver.setup_recv(&mut io_r, Some(&k0), Some(&k1)));
    (sender, receiver, io_s, io_r)
}

fn check_correlation(q: &[[u8; 32]], t: &[[u8; 32]], r: &[bool], delta: &[u8; 32]) {
    assert_eq!(q.len(), r.len());
    assert_eq!(t.len(), r.len());
    for n in 0..r.len() {
        for k in 0..32 {
            assert_eq!(q[n][k] ^ t[n][k], if r[n] { delta[k] } else { 0 });
        }
    }
}

#[test]
fn extension_with_given_keys_correlates_every_row() {
    let (mut sender, mut receiver, mut io_s, mut io_r) = keyed_pair(false);
    let r: Vec<bool> = (0..3000).map(|i| i % 2 == 1 || i % 11 == 0).collect();
    let t = receiver.recv_cot(&mut io_r, &r, 3000);
    pass(&mut io_r, &mut io_s);
    let q = sender.send_cot(&mut io_s, 3000).unwrap();
    let delta = sender.delta.unwrap();
    // the key holds the sender's choice bits, lowest bit of the first byte first
    assert_eq!(delta[0] & 1, 1);
    assert_eq!(delta[0], 0b0010_1001);
    check_correlation(&q, &t, &r, &delta);
    // a second extension goes on in the key streams, with the same key
    let t2 = receiver.recv_cot(&mut io_r, &r, 3000);
    pass(&mut io_r, &mut io_s);
    let q2 = sender.send_cot(&mut io_s, 3000).unwrap();
    check_correlation(&q2, &t2, &r, &delta);
    assert_ne!(t, t2);
}

#[test]
fn checked_extension_accepts_an_honest_receiver() {
    let (mut sender, mut receiver, mut io_s, mut io_r) = keyed_pair(true);
    let r: Vec<bool> = (0..2500).map(|i| i % 3 == 1).collect();
    let t = receiver.recv_cot(&mut io_r, &r, 2500);
    pass(&mut io_r, &mut io_s);
    let q = sender.send_cot(&mut io_s, 2500).unwrap();
    check_correlation(&q, &t, &r, &sender.delta.unwrap());
}

#[test]
fn the_check_in_two_steps_accepts_honest_data_and_refuses_other_data() {
    let (mut sender, mut receiver, mut io_s, mut io_r) = keyed_pair(true);
    let r: Vec<bool> = (0..100).map(|i| i % 4 == 0).collect();
    let t = receiver.recv_pre(&mut io_r, &r, 100);
    pass(&mut io_r, &mut io_s);
    let q = sender.send_pre(&mut io_s, 100).unwrap();
    check_correlation(&q, &t, &r, &sender.delta.unwrap());
    receiver.recv_check(&mut io_r, &t, &r, 100);
    pass(&mut io_r, &mut io_s);
    assert_eq!(sender.send_check(&mut io_s, &q, 100), Ok(true));
    // the same check values against data with one bit flipped
    let mut wrong = q.clone();
    wrong[17][3] ^= 0x10;
    receiver.recv_check(&mut io_r, &t, &r, 100);
    pass(&mut io_r, &mut io_s);
    assert_eq!(sender.send_check(&mut io_s, &wrong, 100), Ok(false));
    // nothing to read
    assert_eq!(sender.send_check(&mut io_s, &q, 100), Err(VoleError::ShortRead));
}

#[test]
fn blocks_are_combined_place_by_place() {
    let a: Vec<[u8; 32]> = vec![[0xf0; 32], [0x0f; 32]];
    let b: Vec<[u8; 32]> = vec![[0x3c; 32], [0xff; 32], [0x11; 32]];
    assert_eq!(xor_blocks_arr(&a, &b), vec![[0xcc; 32], [0xf0; 32]]);
    assert_eq!(xor_blocks_arr(&b, &a), vec![[0xcc; 32], [0xf0; 32]]);
    let mut x = a.clone();
    xor_blocks(&mut x, &b);
    assert_eq!(x, vec![[0xcc; 32], [0xf0; 32]]);
    let mut y = a.clone();
    and_blocks(&mut y, &b);
    assert_eq!(y, vec![[0x30; 32], [0x0f; 32]]);
}

#[test]
fn rows_are_folded_at_the_weights_of_the_powers_of_two() {
    let cope = Cope::new(Role::Receiver, 4);
    let rows = vec![Fe::from_u64(1), Fe::from_u64(2), Fe::from_u64(3), Fe::from_u64(4)];
    assert_eq!(cope.prm2pr(&rows), Fe::from_u64(1 + 2 * 2 + 3 * 4 + 4 * 8));
    let table = vec![
        vec![Fe::from_u64(1), Fe::from_u64(10)],
        vec![Fe::from_u64(2), Fe::from_u64(20)],
        vec![Fe::from_u64(3), Fe::from_u64(30)],
        vec![Fe::from_u64(4), Fe::from_u64(40)],
    ];
    assert_eq!(cope.prm2pr_batch(&table, 2), vec![Fe::from_u64(49), Fe::from_u64(490)]);
    let wide = Cope::new(Role::Sender, 252);
    let mut ones = vec![Fe::zero(); 252];
    ones[251] = Fe::one();
    let mut top = [0u8; 32];
    top[31] = 0x08;
    assert_eq!(wide.prm2pr(&ones), Fe::from_bytes_le(&top).unwrap());
}

#[test]
fn the_receiver_of_a_tree_accepts_the_expected_value_only() {
    let receiver = SpfssRecverFp::new(4);
    let w = Fe::from_u64(77);
    let mut peer = CommunicationChannel::new();
    let mut io = CommunicationChannel::new();
    peer.send_stark252(&vec![Fe::from_u64(77)]);
    peer.send_stark252(&vec![Fe::from_u64(78)]);
    pass(&mut peer, &mut io);
    assert_eq!(receiver.consistency_check_verify(&mut io, &w), Ok(()));
    assert_eq!(receiver.consistency_check_verify(&mut io, &w), Err(VoleError::MaliciousAbort));
    assert_eq!(receiver.consistency_check_verify(&mut io, &w), Err(VoleError::ShortRead));
}
