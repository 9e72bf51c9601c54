use vole_rust::base_svole::BaseSvole;
use vole_rust::comm_channel::CommunicationChannel;
use vole_rust::cope::Cope;
use vole_rust::error::VoleError;
use vole_rust::field::Fe;
use vole_rust::role::Role;

fn pass(from: &mut CommunicationChannel, to: &mut CommunicationChannel) {
    from.flush();
    let bytes = from.take_sent();
    to.feed(&bytes);
}

fn cope_pair(delta: Fe, m: usize) -> (Cope, Cope, CommunicationChannel, CommunicationChannel) {
    let mut sender = Cope::new(Role::Sender, m);
    let mut receiver = Cope::new(Role::Receiver, m);
    let mut io_s = CommunicationChannel::new();
    let mut io_r = CommunicationChannel::new();
    receiver.initialize_receiver(&mut io_r);
    pass(&mut io_r, &mut io_s);
    sender.initialize_sender(&mut io_s, delta).unwrap();
    pass(&mut io_s, &mut io_r);
    receiver.initialize_receiver_finish(&mut io_r).unwrap();
    pass(&mut io_r, &mut io_s);
    sender.initialize_sender_finish(&mut io_s).unwrap();
    (sender, receiver, io_s, io_r)
}

#[test]
fn cope_single_extend_gives_the_product_with_the_key() {
    let delta = Fe::from_u64(12345);
    let u = Fe::from_u64(54321);
    let (mut sender, mut receiver, mut io_s, mut io_r) = cope_pair(delta, 252);
    let w = receiver.extend_receiver(&mut io_r, u);
    pass(&mut io_r, &mut io_s);
    let k = sender.extend_sender(&mut io_s).unwrap();
    // the receiver's share is the sender's plus the key times the value
    assert_eq!(w, k.add(&delta.mul(&u)));
    assert_eq!(delta.mul(&u), Fe::from_u64(12345 * 54321));
    // and a second extension draws fresh shares
    let w2 = receiver.extend_receiver(&mut io_r, u);
    pass(&mut io_r, &mut io_s);
    let k2 = sender.extend_sender(&mut io_s).unwrap();
    assert_eq!(w2, k2.add(&delta.mul(&u)));
    assert_ne!(w2, w);
}

#[test]
fn cope_batch_extend_and_its_check() {
    let delta = Fe::from_bytes_reduced(&[0xa5u8; 32]);
    let (mut sender, mut receiver, mut io_s, mut io_r) = cope_pair(delta, 252);
    let u: Vec<Fe> = (0..7).map(|i| Fe::from_u64(1000 + i)).collect();
    let w = receiver.extend_receiver_batch(&mut io_r, &u, 7);
    pass(&mut io_r, &mut io_s);
    let k = sender.extend_sender_batch(&mut io_s, 7).unwrap();
    for j in 0..7 {
        assert_eq!(w[j], k[j].add(&delta.mul(&u[j])));
    }
    assert_eq!(sender.check_triple(&mut io_s, &vec![delta], &k, 7), Ok(true));
    pass(&mut io_s, &mut io_r);
    assert_eq!(receiver.check_triple(&mut io_r, &u, &w, 7), Ok(true));
}

#[test]
fn cope_sender_reports_a_short_message() {
    let delta = Fe::from_u64(3);
    let (mut sender, mut receiver, mut io_s, mut io_r) = cope_pair(delta, 252);
    let _ = receiver.extend_receiver(&mut io_r, Fe::one());
    io_r.flush();
    let mut bytes = io_r.take_sent();
    bytes.truncate(100);
    io_s.feed(&bytes);
    assert_eq!(sender.extend_sender(&mut io_s), Err(VoleError::ShortRead));
}

fn svole_pair(delta: Fe) -> (BaseSvole, BaseSvole, CommunicationChannel, CommunicationChannel) {
    let mut io_s = CommunicationChannel::new();
    let mut io_r = CommunicationChannel::new();
    let mut receiver = BaseSvole::new_receiver(&mut io_r);
    pass(&mut io_r, &mut io_s);
    let mut sender = BaseSvole::new_sender(&mut io_s, delta).unwrap();
    pass(&mut io_s, &mut io_r);
    receiver.finish(&mut io_r).unwrap();
    pass(&mut io_r, &mut io_s);
    sender.finish(&mut io_s).unwrap();
    (sender, receiver, io_s, io_r)
}

#[test]
fn base_svole_batch_holds_the_relation_and_passes_the_check() {
    let delta = Fe::from_bytes_reduced(&[0x3cu8; 32]);
    let (mut sender, mut receiver, mut io_s, mut io_r) = svole_pair(delta);
    let size = 300;
    let u: Vec<Fe> = (0..size).map(|i| Fe::from_u64(7 * i as u64 + 1)).collect();
    let w = receiver.triple_gen_recv(&mut io_r, &u, size);
    pass(&mut io_r, &mut io_s);
    let k = sender.triple_gen_send(&mut io_s, size).unwrap();
    pass(&mut io_s, &mut io_r);
    receiver.receiver_check(&mut io_r).unwrap();
    pass(&mut io_r, &mut io_s);
    assert_eq!(sender.sender_check(&mut io_s), Ok(()));
    for j in 0..size {
        assert_eq!(k[j], w[j].add(&delta.mul(&u[j])));
    }
}

#[test]
fn base_svole_aborts_when_a_share_was_tampered_with() {
    let delta = Fe::from_u64(99);
    let (mut sender, mut receiver, mut io_s, mut io_r) = svole_pair(delta);
    let size = 20;
    let u: Vec<Fe> = (0..size).map(|i| Fe::from_u64(i as u64)).collect();
    let _w = receiver.triple_gen_recv(&mut io_r, &u, size);
    pass(&mut io_r, &mut io_s);
    let _k = sender.triple_gen_send(&mut io_s, size).unwrap();
    // the sender's value of the check no longer fits its shares
    sender.pending_y = sender.pending_y.add(&Fe::one());
    pass(&mut io_s, &mut io_r);
    receiver.receiver_check(&mut io_r).unwrap();
    pass(&mut io_r, &mut io_s);
    assert_eq!(sender.sender_check(&mut io_s), Err(VoleError::MaliciousAbort));
}
