use p256::elliptic_curve::sec1::{FromEncodedPoint, ToEncodedPoint};
use p256::{AffinePoint, EncodedPoint, ProjectivePoint, Scalar};
use vole_rust::comm_channel::CommunicationChannel;
use vole_rust::error::VoleError;
use vole_rust::hash::CCRH;
use vole_rust::ot::OTCO;
use vole_rust::preot::OTPre;

fn carry(from: &mut CommunicationChannel, to: &mut CommunicationChannel) {
    from.flush();
    let bytes = from.take_sent();
    to.feed(&bytes);
}

#[test]
fn base_transfers_deliver_the_chosen_messages() {
    let mut sender = OTCO::new();
    let mut receiver = OTCO::new();
    let mut io_s = CommunicationChannel::new();
    let mut io_r = CommunicationChannel::new();
    let choices = vec![false, true, true, false, true];
    let m0: Vec<[u8; 16]> = (0..5).map(|i| [i as u8; 16]).collect();
    let m1: Vec<[u8; 16]> = (0..5).map(|i| [0x80 + i as u8; 16]).collect();
    sender.send_start(&mut io_s);
    carry(&mut io_s, &mut io_r);
    receiver.recv_start(&mut io_r, &choices).unwrap();
    carry(&mut io_r, &mut io_s);
    sender.send(&mut io_s, &m0, &m1).unwrap();
    carry(&mut io_s, &mut io_r);
    let out = receiver.recv(&mut io_r).unwrap();
    for i in 0..5 {
        assert_eq!(out[i], if choices[i] { m1[i] } else { m0[i] });
    }
}

#[test]
fn base_transfers_with_given_scalars_send_the_expected_points() {
    let mut sender = OTCO::new();
    let mut io_s = CommunicationChannel::new();
    let mut a = [0u8; 32];
    a[31] = 2;
    sender.send_start_with(&mut io_s, a);
    let two_g = (ProjectivePoint::GENERATOR * Scalar::from(2u64)).to_affine().to_encoded_point(false);
    assert_eq!(sender.point_a, two_g.as_bytes().to_vec());
    io_s.flush();
    let wire = io_s.take_sent();
    assert_eq!(wire.len(), 8 + 65);
    assert_eq!(wire[0], 65);
    assert_eq!(wire[8], 4);

    let mut receiver = OTCO::new();
    let mut io_r = CommunicationChannel::new();
    io_r.feed(&wire);
    let mut b = [0u8; 32];
    b[31] = 3;
    receiver.recv_start_with(&mut io_r, &vec![false, true], vec![b, b]).unwrap();
    io_r.flush();
    let answer = io_r.take_sent();
    let three_g = (ProjectivePoint::GENERATOR * Scalar::from(3u64)).to_affine().to_encoded_point(false);
    let five_g = (ProjectivePoint::GENERATOR * Scalar::from(5u64)).to_affine().to_encoded_point(false);
    assert_eq!(&answer[8..73], three_g.as_bytes());
    assert_eq!(&answer[81..146], five_g.as_bytes());
}

#[test]
fn curve_points_survive_encoding_and_decoding() {
    let p = (ProjectivePoint::GENERATOR * Scalar::from(12345u64)).to_affine();
    let encoded = p.to_encoded_point(false);
    let decoded = EncodedPoint::from_bytes(encoded.as_bytes()).unwrap();
    let back = Option::<AffinePoint>::from(AffinePoint::from_encoded_point(&decoded)).unwrap();
    assert_eq!(back, p);
}

#[test]
fn a_malformed_point_is_an_invalid_encoding() {
    let mut receiver = OTCO::new();
    let mut io_r = CommunicationChannel::new();
    let mut other = CommunicationChannel::new();
    // the right shape, but not on the curve
    let mut bad = vec![4u8];
    bad.extend(vec![1u8; 64]);
    other.send_point(&bad);
    carry(&mut other, &mut io_r);
    assert_eq!(receiver.recv_start(&mut io_r, &vec![true]), Err(VoleError::InvalidEncoding));
    // the wrong shape
    let mut io_r2 = CommunicationChannel::new();
    other.send_point(&vec![2u8; 33]);
    carry(&mut other, &mut io_r2);
    assert_eq!(OTCO::new().recv_start(&mut io_r2, &vec![false]), Err(VoleError::InvalidEncoding));
    // the sender refuses a point that is not on the curve
    let mut sender = OTCO::new();
    let mut io_s = CommunicationChannel::new();
    sender.send_start(&mut io_s);
    other.send_point(&bad);
    carry(&mut other, &mut io_s);
    assert_eq!(sender.send(&mut io_s, &vec![[0u8; 16]], &vec![[1u8; 16]]), Err(VoleError::InvalidEncoding));
}

fn xor(a: &[u8; 32], b: &[u8; 32]) -> [u8; 32] {
    let mut r = [0u8; 32];
    for i in 0..32 {
        r[i] = a[i] ^ b[i];
    }
    r
}

#[test]
fn precomputed_transfers_deliver_the_chosen_messages() {
    // correlated transfers made by hand: t = q ^ r * delta
    let mut delta = [0x5au8; 32];
    delta[0] |= 1;
    let n = 6;
    let q: Vec<[u8; 32]> = (0..n).map(|i| [(i * 16) as u8; 32]).collect();
    let r = vec![true, false, true, true, false, false];
    let t: Vec<[u8; 32]> = (0..n).map(|i| if r[i] { xor(&q[i], &delta) } else { q[i] }).collect();
    let mut pre_s = OTPre::new(3, 2);
    let mut pre_r = OTPre::new(3, 2);
    pre_s.send_pre(&q, delta);
    pre_r.recv_pre(&t, Some(&r));
    let ccrh = CCRH::new();
    assert_eq!(pre_s.pre_data[1], ccrh.h(&q[1]));
    assert_eq!(pre_s.pre_data[n + 1], ccrh.h(&xor(&q[1], &delta)));
    assert_eq!(pre_r.pre_data[0], ccrh.h(&t[0]));

    let mut io_s = CommunicationChannel::new();
    let mut io_r = CommunicationChannel::new();
    let wanted = vec![vec![false, false, true], vec![true, false, true]];
    pre_r.choices_recver(&mut io_r, &wanted[0]);
    pre_r.choices_recver(&mut io_r, &wanted[1]);
    assert_eq!(pre_r.count, 6);
    pre_r.reset();
    assert_eq!(pre_r.count, 0);
    carry(&mut io_r, &mut io_s);
    pre_s.choices_sender(&mut io_s).unwrap();
    pre_s.choices_sender(&mut io_s).unwrap();
    pre_s.reset();
    for slot in [1usize, 0] {
        let m0: Vec<[u8; 32]> = (0..3).map(|i| [(10 * slot + i) as u8; 32]).collect();
        let m1: Vec<[u8; 32]> = (0..3).map(|i| [(100 + 10 * slot + i) as u8; 32]).collect();
        pre_s.send(&mut io_s, &m0, &m1, 3, slot);
        carry(&mut io_s, &mut io_r);
        let got = pre_r.recv(&mut io_r, &wanted[slot], 3, slot).unwrap();
        for i in 0..3 {
            assert_eq!(got[i], if wanted[slot][i] { m1[i] } else { m0[i] });
        }
    }
}

#[test]
fn receiver_precomputation_takes_its_bits_from_the_lowest_bit() {
    let mut pre = OTPre::new(2, 1);
    let mut a = [0u8; 32];
    a[0] = 1;
    pre.recv_pre(&vec![a, [0xfeu8; 32]], None);
    assert_eq!(pre.bits, vec![true, false]);
    let mut io = CommunicationChannel::new();
    pre.choices_recver(&mut io, &vec![true, true]);
    io.flush();
    // adjusted bits: choice xor precomputed bit
    assert_eq!(io.take_sent(), vec![2, 0, 0, 0, 0, 0, 0, 0, 0b10]);
}

#[test]
fn sender_refuses_adjustment_bits_of_the_wrong_length() {
    let mut pre = OTPre::new(3, 1);
    let mut io = CommunicationChannel::new();
    let mut other = CommunicationChannel::new();
    other.send_bits(&vec![true, false]);
    carry(&mut other, &mut io);
    assert_eq!(pre.choices_sender(&mut io), Err(VoleError::WireFormat));
}
