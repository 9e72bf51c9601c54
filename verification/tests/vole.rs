use vole_rust::base_cot::BaseCot;
use vole_rust::comm_channel::CommunicationChannel;
use vole_rust::error::VoleError;
use vole_rust::field::Fe;
use vole_rust::lpn::Lpn;
use vole_rust::role::Role;
use vole_rust::vole_triple::{
    fp_default, phuoc_lpn, wolverine_lpn, Layer,
    PrimalLPNParameterFp61, VoleTriple,
};

fn ferry(from: &mut CommunicationChannel, to: &mut CommunicationChannel) {
    from.flush();
    let bytes = from.take_sent();
    to.feed(&bytes);
}

fn small() -> PrimalLPNParameterFp61 {
    PrimalLPNParameterFp61::with_params(32, 4, 10, 3, 16, 2, 5, 3, 8, 2, 3, 2).unwrap()
}

#[test]
fn parameter_sets_are_checked() {
    let p = small();
    assert_eq!(p.buf_sz(), 17);
    assert!(p.is_usable());
    // n is not t * 2^log_bin_sz
    assert_eq!(
        PrimalLPNParameterFp61::with_params(33, 4, 10, 3, 16, 2, 5, 3, 8, 2, 3, 2),
        Err(VoleError::ParameterMismatch)
    );
    // the first bootstrap layer does not fit
    assert_eq!(
        PrimalLPNParameterFp61::with_params(32, 4, 10, 3, 17, 2, 5, 3, 8, 2, 3, 2),
        Err(VoleError::ParameterMismatch)
    );
    // the seed bootstrap layer does not fit
    assert_eq!(
        PrimalLPNParameterFp61::with_params(32, 4, 10, 3, 16, 2, 5, 3, 9, 2, 3, 2),
        Err(VoleError::ParameterMismatch)
    );
    // the bootstrap layer is too small to seed the main layer
    assert_eq!(
        PrimalLPNParameterFp61::with_params(32, 4, 12, 3, 16, 2, 5, 3, 8, 2, 3, 2),
        Err(VoleError::ParameterMismatch)
    );
    let zero = PrimalLPNParameterFp61::new();
    assert_eq!(zero.n, 0);
    assert!(!zero.is_usable());
    // the relations are all that validity asks: any exponent will do where they hold
    let wide = PrimalLPNParameterFp61::with_params(0, 0, 0, 31, 16, 2, 5, 3, 8, 2, 3, 2).unwrap();
    assert_eq!((wide.n, wide.log_bin_sz, wide.n_pre), (0, 31, 16));
    assert!(!wide.is_usable());
    assert!(PrimalLPNParameterFp61::with_params(0, 0, 0, usize::MAX, 16, 2, 5, 3, 8, 2, 3, 2).is_ok());
    assert!(PrimalLPNParameterFp61::with_params(1 << 31, 1, 0, 31, (1 << 31) + 2, (1 << 30) + 1, 5, 1, 8, 2, 3, 2).is_ok());
    assert_eq!(
        PrimalLPNParameterFp61::with_params(8, 1, 0, 70, 16, 2, 5, 3, 8, 2, 3, 2),
        Err(VoleError::ParameterMismatch)
    );
    assert_eq!(
        PrimalLPNParameterFp61::with_params(0, 1, 0, 64, 16, 2, 5, 3, 8, 2, 3, 2),
        Err(VoleError::ParameterMismatch)
    );
    for p in [fp_default(), wolverine_lpn(), phuoc_lpn()] {
        assert!(p.is_usable());
        let again = PrimalLPNParameterFp61::with_params(
            p.n, p.t, p.k, p.log_bin_sz, p.n_pre, p.t_pre, p.k_pre, p.log_bin_sz_pre, p.n_pre0, p.t_pre0, p.k_pre0,
            p.log_bin_sz_pre0,
        );
        assert_eq!(again, Ok(p));
    }
    assert_eq!(fp_default().buf_sz(), 10168320 - 4965 - 158000 - 1);
    let mut io = CommunicationChannel::new();
    assert!(matches!(VoleTriple::new(Role::Receiver, false, &mut io, zero), Err(VoleError::ParameterMismatch)));
}

#[test]
fn lpn_adds_ten_weighted_seed_entries_to_every_row() {
    let seed = [0u8; 16];
    let mut seed_field = [0u8; 32];
    seed_field[0] = 1;
    assert!(matches!(Lpn::new(0, 5, &seed, &seed_field), Err(VoleError::ParameterMismatch)));
    let mut lpn = Lpn::new(7, 5, &seed, &seed_field).unwrap();
    let pre: Vec<Fe> = (0..7).map(|i| Fe::from_u64(100 + i)).collect();
    let noise: Vec<Fe> = (0..5).map(|i| Fe::from_u64(i)).collect();
    let mut out = noise.clone();
    lpn.compute_send(&mut out, &pre);
    for i in 0..5 {
        let (cols, coeffs) = lpn.row(i);
        assert_eq!(cols.len(), 10);
        let mut expected = noise[i];
        for m in 0..10 {
            assert!(cols[m] < 7);
            expected = expected.add(&coeffs[m].mul(&pre[cols[m]]));
        }
        assert_eq!(out[i], expected);
    }
    // rows differ, and the expansion is the same for both parties
    assert_ne!(lpn.row(0).1, lpn.row(1).1);
    let mut k2 = noise.clone();
    let mut m2 = vec![Fe::zero(); 5];
    let mut other = Lpn::new(7, 5, &seed, &seed_field).unwrap();
    other.compute_recv(&mut k2, &mut m2, &pre, &pre);
    assert_eq!(k2, out);
    for i in 0..5 {
        assert_eq!(m2[i].add(&noise[i]), out[i]);
    }
}

fn cot_pair(malicious: bool) -> (BaseCot, BaseCot, CommunicationChannel, CommunicationChannel) {
    let mut cot_s = BaseCot::new(Role::Sender, malicious);
    let mut cot_r = BaseCot::new(Role::Receiver, malicious);
    let mut io_s = CommunicationChannel::new();
    let mut io_r = CommunicationChannel::new();
    cot_r.cot_gen_pre(&mut io_r, None).unwrap();
    ferry(&mut io_r, &mut io_s);
    cot_s.cot_gen_pre(&mut io_s, None).unwrap();
    ferry(&mut io_s, &mut io_r);
    cot_r.cot_gen_pre_finish(&mut io_r).unwrap();
    ferry(&mut io_r, &mut io_s);
    cot_s.cot_gen_pre_finish(&mut io_s).unwrap();
    (cot_s, cot_r, io_s, io_r)
}

#[test]
fn one_round_keeps_the_correlation_everywhere_but_at_the_receivers_places() {
    let (mut cot_s, mut cot_r, mut io_s, mut io_r) = cot_pair(false);
    let delta = Fe::from_bytes_reduced(&[0x77u8; 32]);
    let (n, t, k, log) = (64usize, 4usize, 12usize, 4usize);
    let mut layer_s = Layer::new(Role::Sender, false, delta, n, t, k, log).unwrap();
    let mut layer_r = Layer::new(Role::Receiver, false, Fe::zero(), n, t, k, log).unwrap();
    cot_r.cot_gen_preot(&mut io_r, &mut layer_r.pre_ot, t * log, None).unwrap();
    ferry(&mut io_r, &mut io_s);
    cot_s.cot_gen_preot(&mut io_s, &mut layer_s.pre_ot, t * log, None).unwrap();
    // correlated seeds: key = mac + delta * u
    let m = t + 1 + k;
    let mac: Vec<Fe> = (0..m).map(|i| Fe::from_u64(1000 + 17 * i as u64)).collect();
    let u: Vec<Fe> = (0..m).map(|i| Fe::from_u64(3 + i as u64)).collect();
    let key: Vec<Fe> = (0..m).map(|i| mac[i].add(&delta.mul(&u[i]))).collect();
    VoleTriple::extend_recv_start(&mut io_r, &mut layer_r, &u);
    ferry(&mut io_r, &mut io_s);
    let y_s = VoleTriple::extend_send(&mut io_s, &mut layer_s, &key).unwrap();
    ferry(&mut io_s, &mut io_r);
    let (y_r, z_r) = VoleTriple::extend_recv(&mut io_r, &mut layer_r, &mac, &u).unwrap();
    assert_eq!(y_s.len(), n);
    assert_eq!(y_r.len(), n);
    assert_eq!(z_r.len(), n);
    let places = layer_r.mpfss.item_pos_receiver.clone();
    let mut off = 0;
    for i in 0..n {
        let holds = y_s[i] == y_r[i].add(&delta.mul(&z_r[i]));
        let at_place = places[i / 16] == i % 16;
        if !at_place {
            assert!(holds);
        }
        if !holds {
            off += 1;
        }
    }
    assert!(off <= t);
    // a corrupted seed entry of the sender breaks the correlation in the rows that use it
    let mut layer_s2 = Layer::new(Role::Sender, false, delta, n, t, k, log).unwrap();
    let mut layer_r2 = Layer::new(Role::Receiver, false, Fe::zero(), n, t, k, log).unwrap();
    cot_r.cot_gen_preot(&mut io_r, &mut layer_r2.pre_ot, t * log, None).unwrap();
    ferry(&mut io_r, &mut io_s);
    cot_s.cot_gen_preot(&mut io_s, &mut layer_s2.pre_ot, t * log, None).unwrap();
    let mut bad_key = key.clone();
    for j in t + 1..m {
        bad_key[j] = bad_key[j].add(&Fe::one());
    }
    VoleTriple::extend_recv_start(&mut io_r, &mut layer_r2, &u);
    ferry(&mut io_r, &mut io_s);
    let y_bad = VoleTriple::extend_send(&mut io_s, &mut layer_s2, &bad_key).unwrap();
    ferry(&mut io_s, &mut io_r);
    let (y_r2, z_r2) = VoleTriple::extend_recv(&mut io_r, &mut layer_r2, &mac, &u).unwrap();
    let broken = (0..n).filter(|&i| y_bad[i] != y_r2[i].add(&delta.mul(&z_r2[i]))).count();
    assert!(broken * 100 >= 99 * n);
}

fn run_setup(malicious: bool) -> (Result<VoleTriple, VoleError>, Result<VoleTriple, VoleError>, CommunicationChannel, CommunicationChannel) {
    let mut io_s = CommunicationChannel::new();
    let mut io_r = CommunicationChannel::new();
    let delta = Fe::from_u64(0x1234_5678);
    let mut r = VoleTriple::new(Role::Receiver, malicious, &mut io_r, small()).unwrap();
    ferry(&mut io_r, &mut io_s);
    let mut s = VoleTriple::new(Role::Sender, malicious, &mut io_s, small()).unwrap();
    ferry(&mut io_s, &mut io_r);
    loop {
        let done_r = match r.setup_receiver(&mut io_r) {
            Ok(d) => d,
            Err(e) => return (Ok(s), Err(e), io_s, io_r),
        };
        if done_r {
            break;
        }
        ferry(&mut io_r, &mut io_s);
        match s.setup_sender(&mut io_s, delta) {
            Ok(_) => {}
            Err(e) => return (Err(e), Ok(r), io_s, io_r),
        }
        ferry(&mut io_s, &mut io_r);
    }
    (Ok(s), Ok(r), io_s, io_r)
}

fn extend_both(
    s: &mut VoleTriple,
    r: &mut VoleTriple,
    io_s: &mut CommunicationChannel,
    io_r: &mut CommunicationChannel,
    num: usize,
) -> (Vec<Fe>, Vec<Fe>, Vec<Fe>) {
    let mut y_s = Vec::new();
    let mut unused = Vec::new();
    let mut y_r = Vec::new();
    let mut z_r = Vec::new();
    let mut done_s = false;
    let mut done_r = false;
    let mut steps = 0;
    while !(done_s && done_r) {
        if !done_r {
            done_r = r.extend(io_r, &mut y_r, &mut z_r, num).unwrap();
            ferry(io_r, io_s);
        }
        if !done_s {
            done_s = s.extend(io_s, &mut y_s, &mut unused, num).unwrap();
            ferry(io_s, io_r);
        }
        steps += 1;
        assert!(steps < 100);
    }
    assert!(unused.is_empty());
    (y_s, y_r, z_r)
}

#[test]
fn a_session_sets_up_and_extends_step_by_step() {
    let (s, r, mut io_s, mut io_r) = run_setup(false);
    let mut s = s.unwrap();
    let mut r = r.unwrap();
    assert_eq!(s.stage, 4);
    assert_eq!(r.stage, 5);
    assert_eq!(s.pre_y.len(), 16);
    assert_eq!(r.pre_y.len(), 16);
    assert_eq!(r.pre_z.len(), 16);
    let delta = s.delta;
    assert_eq!(delta, Fe::from_u64(0x1234_5678));
    s.extend_initialization();
    r.extend_initialization();
    assert_eq!(s.m, 15);
    assert_eq!(s.ot_limit, 17);
    assert_eq!(s.silent_ot_left(), 0);
    assert_eq!(s.byte_memory_need_inplace(1), 32);
    assert_eq!(s.byte_memory_need_inplace(17), 32);
    assert_eq!(s.byte_memory_need_inplace(18), 49);
    // ten correlations: one round, seven stay in the buffer
    let (y_s, y_r, z_r) = extend_both(&mut s, &mut r, &mut io_s, &mut io_r, 10);
    assert_eq!((y_s.len(), y_r.len(), z_r.len()), (10, 10, 10));
    assert_eq!(s.silent_ot_left(), 7);
    assert_eq!(r.silent_ot_left(), 7);
    assert_eq!(&y_s[..], &s.vole_y[..10]);
    assert_eq!(&z_r[..], &r.vole_z[..10]);
    // five more come from the buffer, with no message
    let before = s.vole_y.clone();
    let (y_s2, y_r2, _) = extend_both(&mut s, &mut r, &mut io_s, &mut io_r, 5);
    assert_eq!(&y_s2[..], &before[10..15]);
    assert_eq!(y_r2.len(), 5);
    assert_eq!(s.silent_ot_left(), 2);
    // forty more: two from the buffer and three rounds
    let (y_s3, y_r3, z_r3) = extend_both(&mut s, &mut r, &mut io_s, &mut io_r, 40);
    assert_eq!((y_s3.len(), y_r3.len(), z_r3.len()), (40, 40, 40));
    assert_eq!(&y_s3[..2], &before[15..17]);
    assert_eq!(s.silent_ot_left(), 17 * 3 - 38);
    assert_eq!(r.silent_ot_left(), s.silent_ot_left());
    // the key is the same throughout
    assert_eq!(s.delta, delta);
    // the seed of the next round is the tail of the last
    assert_eq!(&s.pre_y[..15], &s.vole_y[17..]);
    assert_eq!(&r.pre_z[..15], &r.vole_z[17..]);
}

#[test]
fn a_session_extends_in_place_by_whole_rounds() {
    let (s, r, mut io_s, mut io_r) = run_setup(false);
    let mut s = s.unwrap();
    let mut r = r.unwrap();
    s.extend_initialization();
    r.extend_initialization();
    let space = s.byte_memory_need_inplace(30);
    assert_eq!(space, 49);
    let mut y_s = Vec::new();
    let mut unused = Vec::new();
    let mut y_r = Vec::new();
    let mut z_r = Vec::new();
    let mut done_r = r.extend_inplace(&mut io_r, &mut y_r, &mut z_r, space).unwrap();
    assert!(!done_r);
    let mut done_s = false;
    let mut steps = 0;
    while !(done_s && done_r) {
        ferry(&mut io_r, &mut io_s);
        done_s = s.extend_inplace(&mut io_s, &mut y_s, &mut unused, space).unwrap();
        ferry(&mut io_s, &mut io_r);
        done_r = r.extend_inplace(&mut io_r, &mut y_r, &mut z_r, space).unwrap();
        steps += 1;
        assert!(steps < 10);
    }
    assert_eq!(steps, 2);
    assert_eq!((y_s.len(), y_r.len(), z_r.len()), (49, 49, 49));
    assert_eq!(s.silent_ot_left(), 0);
    // the last fifteen are the seed that the last round left behind
    assert_eq!(&y_s[34..], &s.pre_y[..15]);
    assert_eq!(&y_r[34..], &r.pre_y[..15]);
}

#[test]
fn check_triple_tells_whether_the_correlation_holds() {
    let (s, r, mut io_s, mut io_r) = run_setup(false);
    let s = s.unwrap();
    let r = r.unwrap();
    let delta = Fe::from_u64(11);
    let y_r = vec![Fe::from_u64(5), Fe::from_u64(6)];
    let z_r = vec![Fe::from_u64(2), Fe::from_u64(3)];
    let y_s = vec![Fe::from_u64(27), Fe::from_u64(39)];
    assert_eq!(s.check_triple(&mut io_s, delta, &y_s, &vec![], 2), Ok(true));
    ferry(&mut io_s, &mut io_r);
    assert_eq!(r.check_triple(&mut io_r, Fe::zero(), &y_r, &z_r, 2), Ok(true));
    let wrong = vec![Fe::from_u64(27), Fe::from_u64(40)];
    assert_eq!(s.check_triple(&mut io_s, delta, &wrong, &vec![], 2), Ok(true));
    ferry(&mut io_s, &mut io_r);
    assert_eq!(r.check_triple(&mut io_r, Fe::zero(), &y_r, &z_r, 2), Ok(false));
    assert_eq!(r.check_triple(&mut io_r, Fe::zero(), &y_r, &z_r, 2), Err(VoleError::ShortRead));
}

#[test]
fn a_failed_batched_check_is_a_malicious_abort() {
    let (s, r, _, _) = run_setup(true);
    assert!(s.is_ok());
    assert!(matches!(r, Err(VoleError::MaliciousAbort)));
}

#[test]
fn after_an_extension_the_correlation_holds_where_the_seed_was_correlated() {
    let (s, r, mut io_s, mut io_r) = run_setup(false);
    let mut s = s.unwrap();
    let mut r = r.unwrap();
    s.extend_initialization();
    r.extend_initialization();
    // the seed correlations are still those of the setup
    assert_eq!(s.pre_y.len(), 16);
    let delta = s.delta;
    let p = small();
    let m = s.m;
    assert_eq!(m, p.k + p.t + 1);
    assert!(!s.round_due(0, 0));
    assert!(s.round_due(0, 1));
    let seed_ok: Vec<bool> = (0..m).map(|j| s.pre_y[j] == r.pre_y[j].add(&delta.mul(&r.pre_z[j]))).collect();
    let (y_s, y_r, z_r) = extend_both(&mut s, &mut r, &mut io_s, &mut io_r, 17);
    assert_eq!(s.delta, delta);
    assert_eq!((y_s.len(), y_r.len(), z_r.len()), (17, 17, 17));
    assert!(!s.round_due(17, 17));
    assert!(s.round_due(0, 1));
    // the whole round lies in the buffers, what was given out first
    assert_eq!(&s.vole_y[..17], &y_s[..]);
    assert_eq!(&r.vole_y[..17], &y_r[..]);
    assert_eq!(&r.vole_z[..17], &z_r[..]);
    let mut seed_field = [0u8; 32];
    seed_field[0] = 1;
    let lpn = Lpn::new(p.k, p.n, &[0u8; 16], &seed_field).unwrap();
    let leaves = 1 << p.log_bin_sz;
    for tree in 0..p.t {
        let mut off = 0;
        for j in 0..leaves {
            let i = tree * leaves + j;
            let (columns, _) = lpn.row(i);
            let seeded = columns.iter().all(|&c| seed_ok[p.t + 1 + c]);
            let holds = s.vole_y[i] == r.vole_y[i].add(&delta.mul(&r.vole_z[i]));
            if seeded && !holds {
                off += 1;
            }
        }
        // every row whose seed entries were correlated is correlated, but for the receiver's place
        assert!(off <= 1);
    }
}

#[test]
fn a_session_that_is_only_built_can_be_made_ready_to_extend() {
    let mut io = CommunicationChannel::new();
    let mut r = VoleTriple::new(Role::Receiver, false, &mut io, phuoc_lpn()).unwrap();
    assert_eq!(r.stage, 0);
    r.extend_initialization();
    assert!(r.extend_initialized);
    assert_eq!(r.m, 591080);
    assert_eq!(r.ot_limit, 84248);
    assert_eq!(r.ot_used, r.ot_limit);
    assert_eq!(r.silent_ot_left(), 0);
    assert_eq!(r.stage, 0);
    assert!(r.pre_y.is_empty() && r.pre_z.is_empty());
    assert_eq!(r.delta, Fe::zero());
    assert_eq!(r.vole_y.len(), 675328);
}
