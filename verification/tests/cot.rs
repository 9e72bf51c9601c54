use vole_rust::base_cot::BaseCot;
use vole_rust::comm_channel::CommunicationChannel;
use vole_rust::role::Role;

fn deliver(from: &mut CommunicationChannel, to: &mut CommunicationChannel) {
    from.flush();
    let bytes = from.take_sent();
    to.feed(&bytes);
}

fn set_up(malicious: bool) -> (BaseCot, BaseCot, CommunicationChannel, CommunicationChannel) {
    let mut sender = BaseCot::new(Role::Sender, malicious);
    let mut receiver = BaseCot::new(Role::Receiver, malicious);
    let mut io_s = CommunicationChannel::new();
    let mut io_r = CommunicationChannel::new();
    receiver.cot_gen_pre(&mut io_r, None).unwrap();
    deliver(&mut io_r, &mut io_s);
    sender.cot_gen_pre(&mut io_s, None).unwrap();
    deliver(&mut io_s, &mut io_r);
    receiver.cot_gen_pre_finish(&mut io_r).unwrap();
    deliver(&mut io_r, &mut io_s);
    sender.cot_gen_pre_finish(&mut io_s).unwrap();
    (sender, receiver, io_s, io_r)
}

fn check_low_bit_law(q: &[[u8; 32]], t: &[[u8; 32]], delta: &[u8; 32]) {
    assert_eq!(delta[0] & 1, 1);
    for i in 0..q.len() {
        let b = t[i][0] & 1;
        assert_eq!(q[i][0] & 1, 0);
        for k in 0..32 {
            let expected = if b == 1 { delta[k] } else { 0 };
            assert_eq!(q[i][k] ^ t[i][k], expected);
        }
    }
}

#[test]
fn tiny_cot_round_trip() {
    let (mut sender, mut receiver, mut io_s, mut io_r) = set_up(false);
    let t = receiver.cot_gen(&mut io_r, 1024, None).unwrap();
    deliver(&mut io_r, &mut io_s);
    let q = sender.cot_gen(&mut io_s, 1024, None).unwrap();
    assert_eq!(q.len(), 1024);
    assert_eq!(t.len(), 1024);
    check_low_bit_law(&q, &t, &sender.ot_delta.unwrap());
    assert!(t.iter().any(|x| x[0] & 1 == 1));
    assert!(t.iter().any(|x| x[0] & 1 == 0));
}

#[test]
fn cot_with_given_choice_bits_over_several_inner_blocks() {
    let (mut sender, mut receiver, mut io_s, mut io_r) = set_up(false);
    let bits: Vec<bool> = (0..5000).map(|i| i % 3 == 0).collect();
    let t = receiver.cot_gen(&mut io_r, 5000, Some(&bits)).unwrap();
    deliver(&mut io_r, &mut io_s);
    let q = sender.cot_gen(&mut io_s, 5000, None).unwrap();
    check_low_bit_law(&q, &t, &sender.ot_delta.unwrap());
    for i in 0..5000 {
        assert_eq!(t[i][0] & 1 == 1, bits[i]);
    }
    // a second generation continues the key streams
    let t2 = receiver.cot_gen(&mut io_r, 100, None).unwrap();
    deliver(&mut io_r, &mut io_s);
    let q2 = sender.cot_gen(&mut io_s, 100, None).unwrap();
    check_low_bit_law(&q2, &t2, &sender.ot_delta.unwrap());
    assert_ne!(q2[0], q[0]);
}

#[test]
fn malicious_cot_passes_the_check_when_both_are_honest() {
    let (mut sender, mut receiver, mut io_s, mut io_r) = set_up(true);
    let t = receiver.cot_gen(&mut io_r, 3000, None).unwrap();
    deliver(&mut io_r, &mut io_s);
    let q = sender.cot_gen(&mut io_s, 3000, None).unwrap();
    check_low_bit_law(&q, &t, &sender.ot_delta.unwrap());
}

#[test]
fn malicious_cot_aborts_on_a_flipped_bit() {
    let (mut sender, mut receiver, mut io_s, mut io_r) = set_up(true);
    let _t = receiver.cot_gen(&mut io_r, 300, None).unwrap();
    io_r.flush();
    let mut bytes = io_r.take_sent();
    // the last frame holds the receiver's sum
    let last = bytes.len() - 1;
    bytes[last] ^= 0x10;
    io_s.feed(&bytes);
    let r = sender.cot_gen(&mut io_s, 300, None);
    assert_eq!(r, Err(vole_rust::error::VoleError::MaliciousAbort));
}

#[test]
fn malicious_cot_notices_a_flipped_row_bit_where_the_key_bit_is_set() {
    let (mut sender, mut receiver, mut io_s, mut io_r) = set_up(true);
    let _t = receiver.cot_gen(&mut io_r, 300, None).unwrap();
    io_r.flush();
    let mut bytes = io_r.take_sent();
    // row 3 of the first message starts at block 24
    bytes[8 + 32 * 8 * 3] ^= 1;
    io_s.feed(&bytes);
    let key_bit = (sender.ot_delta.unwrap()[0] >> 3) & 1 == 1;
    let r = sender.cot_gen(&mut io_s, 300, None);
    if key_bit {
        assert_eq!(r, Err(vole_rust::error::VoleError::MaliciousAbort));
    } else {
        assert!(r.is_ok());
    }
}

#[test]
fn check_cot_accepts_correlated_data() {
    let (mut sender, mut receiver, mut io_s, mut io_r) = set_up(false);
    let t = receiver.cot_gen(&mut io_r, 64, None).unwrap();
    deliver(&mut io_r, &mut io_s);
    let q = sender.cot_gen(&mut io_s, 64, None).unwrap();
    assert_eq!(sender.check_cot(&mut io_s, &q, 64), Ok(true));
    deliver(&mut io_s, &mut io_r);
    assert_eq!(receiver.check_cot(&mut io_r, &t, 64), Ok(true));
}
