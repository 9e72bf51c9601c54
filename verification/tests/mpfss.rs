use vole_rust::base_cot::BaseCot;
use vole_rust::comm_channel::CommunicationChannel;
use vole_rust::error::VoleError;
use vole_rust::field::Fe;
use vole_rust::mpfss_reg::MpfssReg;
use vole_rust::preot::OTPre;
use vole_rust::role::Role;

fn hand_over(from: &mut CommunicationChannel, to: &mut CommunicationChannel) {
    from.flush();
    let bytes = from.take_sent();
    to.feed(&bytes);
}

struct Pair {
    cot_s: BaseCot,
    cot_r: BaseCot,
    io_s: CommunicationChannel,
    io_r: CommunicationChannel,
}

fn cot_pair() -> Pair {
    let mut cot_s = BaseCot::new(Role::Sender, false);
    let mut cot_r = BaseCot::new(Role::Receiver, false);
    let mut io_s = CommunicationChannel::new();
    let mut io_r = CommunicationChannel::new();
    cot_r.cot_gen_pre(&mut io_r, None).unwrap();
    hand_over(&mut io_r, &mut io_s);
    cot_s.cot_gen_pre(&mut io_s, None).unwrap();
    hand_over(&mut io_s, &mut io_r);
    cot_r.cot_gen_pre_finish(&mut io_r).unwrap();
    hand_over(&mut io_r, &mut io_s);
    cot_s.cot_gen_pre_finish(&mut io_s).unwrap();
    Pair { cot_s, cot_r, io_s, io_r }
}

fn fill(p: &mut Pair, log_bin_sz: usize, t: usize) -> (OTPre, OTPre) {
    let mut ot_s = OTPre::new(log_bin_sz, t);
    let mut ot_r = OTPre::new(log_bin_sz, t);
    p.cot_r.cot_gen_preot(&mut p.io_r, &mut ot_r, log_bin_sz * t, None).unwrap();
    hand_over(&mut p.io_r, &mut p.io_s);
    p.cot_s.cot_gen_preot(&mut p.io_s, &mut ot_s, log_bin_sz * t, None).unwrap();
    (ot_s, ot_r)
}

fn sum_of(v: &[Fe]) -> Fe {
    v.iter().fold(Fe::zero(), |acc, x| acc.add(x))
}

fn run(log_bin_sz: usize, t: usize, malicious: bool) -> (Vec<Fe>, Result<Vec<Fe>, VoleError>, Vec<usize>, Vec<Fe>, Vec<Fe>) {
    let mut p = cot_pair();
    let (mut ot_s, mut ot_r) = fill(&mut p, log_bin_sz, t);
    let n = t << log_bin_sz;
    let mut s = MpfssReg::new(n, t, log_bin_sz, Role::Sender).unwrap();
    let mut r = MpfssReg::new(n, t, log_bin_sz, Role::Receiver).unwrap();
    if malicious {
        s.set_malicious();
        r.set_malicious();
    }
    let delta = Fe::from_u64(3);
    s.sender_init(delta);
    r.receiver_init();
    let keys: Vec<Fe> = (0..t + 1).map(|i| Fe::from_u64(1000 + i as u64)).collect();
    let macs: Vec<Fe> = (0..t + 1).map(|i| Fe::from_u64(5000 + 3 * i as u64)).collect();
    let us: Vec<Fe> = (0..t + 1).map(|i| Fe::from_u64(7 + i as u64)).collect();
    r.mpfss_receiver_start(&mut p.io_r, &mut ot_r, &us);
    hand_over(&mut p.io_r, &mut p.io_s);
    let sparse_s = s.mpfss_sender(&mut p.io_s, &mut ot_s, &keys).unwrap();
    hand_over(&mut p.io_s, &mut p.io_r);
    let sparse_r = r.mpfss_receiver(&mut p.io_r, &mut ot_r, &macs, &us);
    (sparse_s, sparse_r, r.item_pos_receiver.clone(), keys, macs)
}

#[test]
fn spfss_depth_4_shares_all_leaves_but_one() {
    let (s, r, places, keys, macs) = run(3, 1, false);
    let r = r.unwrap();
    assert_eq!(s.len(), 8);
    assert_eq!(r.len(), 8);
    let alpha = places[0];
    assert!(alpha < 8);
    for j in 0..8 {
        if j != alpha {
            assert_eq!(r[j], s[j]);
        }
    }
    // at its own place the receiver holds its share less the known leaves and the secret sum
    let secret_sum = sum_of(&s).add(&keys[0]);
    let known = sum_of(&s).sub(&s[alpha]);
    assert_eq!(r[alpha], macs[0].sub(&known.add(&secret_sum)));
}

#[test]
fn mpfss_of_100_trees_differs_in_one_place_of_every_block() {
    let (s, r, places, _, _) = run(4, 100, false);
    let r = r.unwrap();
    assert_eq!(s.len(), 1600);
    assert_eq!(r.len(), 1600);
    let mut weight = 0;
    for i in 0..100 {
        let mut in_block = 0;
        for j in 0..16 {
            if r[16 * i + j] != s[16 * i + j] {
                in_block += 1;
                assert_eq!(j, places[i]);
            }
        }
        assert_eq!(in_block, 1);
        weight += in_block;
    }
    assert_eq!(weight, 100);
}

#[test]
fn mpfss_rejects_sizes_that_do_not_fit() {
    assert!(MpfssReg::new(1600, 100, 4, Role::Sender).is_ok());
    assert!(matches!(MpfssReg::new(1601, 100, 4, Role::Sender), Err(VoleError::ParameterMismatch)));
    assert!(matches!(MpfssReg::new(16, 1, 0, Role::Sender), Err(VoleError::ParameterMismatch)));
}

#[test]
fn mpfss_receiver_reports_missing_pads() {
    let mut p = cot_pair();
    let (_ot_s, mut ot_r) = fill(&mut p, 3, 2);
    let mut r = MpfssReg::new(16, 2, 3, Role::Receiver).unwrap();
    let us: Vec<Fe> = (0..3).map(|i| Fe::from_u64(i)).collect();
    r.mpfss_receiver_start(&mut p.io_r, &mut ot_r, &us);
    let out = r.mpfss_receiver(&mut p.io_r, &mut ot_r, &us, &us);
    assert_eq!(out, Err(VoleError::ShortRead));
}

#[test]
fn the_seed_of_a_check_is_the_next_block_of_the_generator() {
    let mut r = MpfssReg::new(16, 2, 3, Role::Receiver).unwrap();
    r.prg = vole_rust::prg::PRG::new(Some(&[7u8; 16]), 5);
    let mut twin = r.prg;
    let expected = twin.random_block(2);
    assert_eq!(r.seed_expand(), expected[0]);
    assert_eq!(r.prg.counter, 1);
    assert_eq!(r.seed_expand(), expected[1]);
    assert_eq!(r.prg.counter, 2);
    assert_ne!(expected[0], expected[1]);
    // a fresh channel and a fresh party of the base transfers hold nothing
    let io = CommunicationChannel::new();
    assert!(io.incoming.is_empty() && io.outgoing.is_empty());
    assert_eq!((io.read_pos, io.flushed), (0, 0));
    let ot = vole_rust::ot::OTCO::new();
    assert_eq!(ot.scalar, [0u8; 32]);
    assert!(ot.point_a.is_empty() && ot.scalars.is_empty() && ot.choices.is_empty());
}
