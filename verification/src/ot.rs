use vstd::prelude::*;
use crate::block::{xor_block16, xor_seq};
use crate::collect::{collect, lemma_collect_err};
use crate::comm_channel::{
    blocks16_frame, frame_size, parse_blocks16, parse_point, parse_points, point_frame, points_frames,
    vec_views, views16, CommunicationChannel,
};
use crate::crypto::{
    curve_add, curve_base_mul, curve_mul, curve_sub, p256_add, p256_base_mul, p256_mul, p256_sub,
    random_scalar,
};
use crate::error::VoleError;
use crate::hash::kdf_spec;

verus! {

/// The byte strings of a sequence of scalars.
pub open spec fn scalar_views(s: Seq<[u8; 32]>) -> Seq<Seq<u8>> {
    Seq::new(s.len(), |i: int| s[i]@)
}

/// The encoding has the shape of an uncompressed SEC1 point.
pub open spec fn uncompressed(p: Seq<u8>) -> bool {
    p.len() == 65 && p[0] == 4u8
}

/// The point that the receiver of transfer sends: `b * G`, plus the sender's point where the choice bit is
/// set.
pub open spec fn receiver_point(point_a: Seq<u8>, b: Seq<u8>, choice: bool) -> Result<Seq<u8>, VoleError> {
    if choice {
        match p256_add(p256_base_mul(b), point_a) {
            Some(p) => Ok(p),
            None => Err(VoleError::InvalidEncoding),
        }
    } else {
        Ok(p256_base_mul(b))
    }
}

/// The receiver's points for all transfers, or the first error.
pub open spec fn receiver_points(point_a: Seq<u8>, bs: Seq<Seq<u8>>, choices: Seq<bool>) -> Result<
    Seq<Seq<u8>>,
    VoleError,
> {
    collect(|i: int| receiver_point(point_a, bs[i], choices[i]), bs.len())
}

/// The receiver's key of transfer `i`: derived from `b * A`.
pub open spec fn receiver_key(point_a: Seq<u8>, b: Seq<u8>, i: int) -> Result<Seq<u8>, VoleError> {
    match p256_mul(point_a, b) {
        Some(p) => Ok(kdf_spec(p, i as u64)),
        None => Err(VoleError::InvalidEncoding),
    }
}

/// What the receiver gets out of transfer `i`: the ciphertext that its choice bit selects, opened with its
/// key.
pub open spec fn receiver_output(
    point_a: Seq<u8>,
    bs: Seq<Seq<u8>>,
    choices: Seq<bool>,
    cts: Seq<Seq<u8>>,
    i: int,
) -> Result<Seq<u8>, VoleError> {
    match receiver_key(point_a, bs[i], i) {
        Err(e) => Err(e),
        Ok(k) => Ok(xor_seq(cts[2 * i + if choices[i] {
            1int
        } else {
            0int
        }], k)),
    }
}

/// What the receiver gets out of all transfers, or the first error.
pub open spec fn receiver_outputs(
    point_a: Seq<u8>,
    bs: Seq<Seq<u8>>,
    choices: Seq<bool>,
    cts: Seq<Seq<u8>>,
) -> Result<Seq<Seq<u8>>, VoleError> {
    collect(|i: int| receiver_output(point_a, bs, choices, cts, i), bs.len())
}

/// The two keys of the sender for transfer `i`: derived from `a * B` and from `a * B - a * A`.
pub open spec fn sender_keys(a: Seq<u8>, aa: Seq<u8>, b_point: Seq<u8>, i: int) -> Result<
    (Seq<u8>, Seq<u8>),
    VoleError,
> {
    if !uncompressed(b_point) {
        Err(VoleError::InvalidEncoding)
    } else {
        match p256_mul(b_point, a) {
            None => Err(VoleError::InvalidEncoding),
            Some(ba) => match p256_sub(ba, aa) {
                None => Err(VoleError::InvalidEncoding),
                Some(d) => Ok((kdf_spec(ba, i as u64), kdf_spec(d, i as u64))),
            },
        }
    }
}

/// Ciphertext `j` of the sender: ciphertexts `2 * i` and `2 * i + 1` hide the two messages of transfer `i`
/// under its two keys.
pub open spec fn sender_ciphertext(
    a: Seq<u8>,
    aa: Seq<u8>,
    points: Seq<Seq<u8>>,
    data0: Seq<Seq<u8>>,
    data1: Seq<Seq<u8>>,
    j: int,
) -> Result<Seq<u8>, VoleError> {
    match sender_keys(a, aa, points[j / 2], j / 2) {
        Err(e) => Err(e),
        Ok((k0, k1)) => if j % 2 == 0 {
            Ok(xor_seq(data0[j / 2], k0))
        } else {
            Ok(xor_seq(data1[j / 2], k1))
        },
    }
}

/// All ciphertexts of the sender, or the first error.
pub open spec fn sender_ciphertexts(
    a: Seq<u8>,
    aa: Seq<u8>,
    points: Seq<Seq<u8>>,
    data0: Seq<Seq<u8>>,
    data1: Seq<Seq<u8>>,
) -> Result<Seq<Seq<u8>>, VoleError> {
    collect(|j: int| sender_ciphertext(a, aa, points, data0, data1, j), 2 * data0.len())
}

/// What the receiver's second step makes of the unread bytes: the messages that it opens and the bytes
/// left over, or the error. The ciphertexts must be two for each transfer.
pub open spec fn receiver_reads(point_a: Seq<u8>, scalars: Seq<Seq<u8>>, choices: Seq<bool>, unread: Seq<u8>) -> Result<
    (Seq<Seq<u8>>, Seq<u8>),
    VoleError,
> {
    match parse_blocks16(unread) {
        Err(e) => Err(e),
        Ok(cts) => if cts.len() != 2 * scalars.len() {
            Err(VoleError::WireFormat)
        } else {
            match receiver_outputs(point_a, scalars, choices, cts) {
                Err(e) => Err(e),
                Ok(outs) => Ok((outs, unread.skip(frame_size(unread, false) as int))),
            }
        },
    }
}

/// What the sender's second step makes of the unread bytes for its messages `data0` and `data1`: the
/// ciphertexts that it sends and the bytes left over, or the error.
pub open spec fn sender_answers(
    scalar: Seq<u8>,
    point_a: Seq<u8>,
    data0: Seq<Seq<u8>>,
    data1: Seq<Seq<u8>>,
    unread: Seq<u8>,
) -> Result<(Seq<Seq<u8>>, Seq<u8>), VoleError> {
    match p256_mul(point_a, scalar) {
        None => Err(VoleError::InvalidEncoding),
        Some(aa) => match crate::comm_channel::parse_points(unread, data0.len()) {
            Err(e) => Err(e),
            Ok((points, rest)) => match sender_ciphertexts(scalar, aa, points, data0, data1) {
                Err(e) => Err(e),
                Ok(cts) => Ok((cts, rest)),
            },
        },
    }
}

/// The error of a step, if it failed.
pub open spec fn failure<T>(r: Result<T, VoleError>) -> Option<VoleError> {
    match r {
        Ok(_) => None,
        Err(e) => Some(e),
    }
}

/// What the receiver's first step comes to with the scalars `bs`, after it has read the sender's point
/// `a`: it fails with the first error of its points, or it succeeds, holds the point, the scalars and the
/// choice bits, has read the frame of the point, and has written its points. `after` is the party after
/// the step, `failed` the step's error if it failed; the bytes are the unread and the written ones before
/// and after the step.
pub open spec fn receiver_start(
    a: Seq<u8>,
    bs: Seq<Seq<u8>>,
    choices: Seq<bool>,
    failed: Option<VoleError>,
    after: OTCO,
    unread_before: Seq<u8>,
    unread_after: Seq<u8>,
    written_before: Seq<u8>,
    written_after: Seq<u8>,
) -> bool {
    match receiver_points(a, bs, choices) {
        Err(e) => failed == Some(e),
        Ok(ps) => {
            &&& failed is None
            &&& scalar_views(after.scalars@) == bs
            &&& after.point_a@ == a
            &&& after.choices@ == choices
            &&& unread_after == unread_before.skip(frame_size(unread_before, false) as int)
            &&& written_after == written_before + points_frames(ps)
        },
    }
}

/// One party of a batch of 1-out-of-2 oblivious transfers over P-256. A party is a sender or a receiver, and
/// runs its two steps in order; the channel is lent to each step.
#[derive(Clone)]
pub struct OTCO {
    /// The sender's secret scalar `a`.
    pub scalar: [u8; 32],
    /// The sender's point `A = a * G`.
    pub point_a: Vec<u8>,
    /// The receiver's secret scalars `b_i`.
    pub scalars: Vec<[u8; 32]>,
    /// The receiver's choice bits.
    pub choices: Vec<bool>,
}

/// Whether the bytes have the shape of an uncompressed SEC1 point.
pub fn is_uncompressed(p: &Vec<u8>) -> (r: bool)
    ensures
        r == uncompressed(p@),
{
    p.len() == 65 && p[0] == 4
}

impl OTCO {
    /// A party that has not started: its scalar is zero, and it holds no point, no scalars and no choice
    /// bits.
    pub fn new() -> (r: Self)
        ensures
            r.scalar@ == crate::block::zeros(32),
            r.scalars.len() == 0,
            r.choices.len() == 0,
            r.point_a.len() == 0,
    {
        let r = OTCO { scalar: [0u8; 32], point_a: Vec::new(), scalars: Vec::new(), choices: Vec::new() };
        assert(r.scalar@ =~= crate::block::zeros(32));
        r
    }

    /// The sender's first step with a scalar of the caller's: sends `A = a * G`.
    pub fn send_start_with(&mut self, io: &mut CommunicationChannel, a: [u8; 32])
        requires
            old(io).wf(),
        ensures
            final(io).wf(),
            final(self).scalar == a,
            final(self).point_a@ == p256_base_mul(a@),
            final(self).scalars == old(self).scalars,
            final(self).choices == old(self).choices,
            final(io).written() == old(io).written() + point_frame(p256_base_mul(a@)),
            final(io).incoming == old(io).incoming,
            final(io).read_pos == old(io).read_pos,
    {
        self.scalar = a;
        self.point_a = curve_base_mul(&a);
        io.send_point(&self.point_a);
    }

    /// The sender's first step: draws a random scalar `a` and sends `A = a * G`.
    pub fn send_start(&mut self, io: &mut CommunicationChannel)
        requires
            old(io).wf(),
        ensures
            final(io).wf(),
            final(self).point_a@ == p256_base_mul(final(self).scalar@),
            final(io).written() == old(io).written() + point_frame(final(self).point_a@),
            final(io).incoming == old(io).incoming,
            final(io).read_pos == old(io).read_pos,
    {
        let a = random_scalar();
        self.send_start_with(io, a);
    }

    /// The two keys of the sender for transfer `i`, given the receiver's point and `a * A`.
    pub fn keys_for(&self, aa: &Vec<u8>, b_point: &Vec<u8>, i: usize) -> (r: Result<([u8; 16], [u8; 16]), VoleError>)
        ensures
            match sender_keys(self.scalar@, aa@, b_point@, i as int) {
                Err(e) => r == Err::<([u8; 16], [u8; 16]), VoleError>(e),
                Ok((k0, k1)) => r.is_ok() && r.unwrap().0@ == k0 && r.unwrap().1@ == k1,
            },
    {
        if !is_uncompressed(b_point) {
            return Err(VoleError::InvalidEncoding);
        }
        let ba = match curve_mul(b_point, &self.scalar) {
            None => {
                return Err(VoleError::InvalidEncoding);
            },
            Some(p) => p,
        };
        let d = match curve_sub(&ba, aa) {
            None => {
                return Err(VoleError::InvalidEncoding);
            },
            Some(p) => p,
        };
        Ok((crate::hash::Hash::kdf(ba.as_slice(), i as u64), crate::hash::Hash::kdf(d.as_slice(), i as u64)))
    }

    /// The sender's second step: reads the receiver's points, derives two keys per transfer, and sends the
    /// two messages of each transfer under them, all ciphertexts in one frame.
    #[verifier::loop_isolation(false)]
    pub fn send(
        &mut self,
        io: &mut CommunicationChannel,
        data0: &Vec<[u8; 16]>,
        data1: &Vec<[u8; 16]>,
    ) -> (r: Result<(), VoleError>)
        requires
            old(io).wf(),
            data0.len() == data1.len(),
            32 * data0.len() <= u64::MAX,
        ensures
            final(io).wf(),
            *final(self) == *old(self),
            match p256_mul(old(self).point_a@, old(self).scalar@) {
                None => r == Err::<(), VoleError>(VoleError::InvalidEncoding),
                Some(aa) => match parse_points(old(io).unread(), data0.len() as nat) {
                    Err(e) => r == Err::<(), VoleError>(e),
                    Ok((points, rest)) => match sender_ciphertexts(
                        old(self).scalar@,
                        aa,
                        points,
                        views16(data0@),
                        views16(data1@),
                    ) {
                        Err(e) => r == Err::<(), VoleError>(e),
                        Ok(cts) => r == Ok::<(), VoleError>(()) && final(io).unread() == rest && final(io).written() == old(io).written() + blocks16_frame(cts),
                    },
                },
            },
    {
        let n = data0.len();
        let aa = match curve_mul(&self.point_a, &self.scalar) {
            None => {
                return Err(VoleError::InvalidEncoding);
            },
            Some(p) => p,
        };
        let points = io.receive_points(n)?;
        let ghost f = |j: int|
            sender_ciphertext(self.scalar@, aa@, vec_views(points@), views16(data0@), views16(data1@), j);
        let mut cts: Vec<[u8; 16]> = Vec::new();
        let mut i: usize = 0;
        assert(views16(cts@) =~= Seq::<Seq<u8>>::empty());
        while i < n
            invariant
                i <= n,
                n == data0.len(),
                n == data1.len(),
                points.len() == n,
                cts.len() == 2 * i,
                f == |j: int|
                    sender_ciphertext(
                        self.scalar@,
                        aa@,
                        vec_views(points@),
                        views16(data0@),
                        views16(data1@),
                        j,
                    ),
                collect(f, (2 * i) as nat) == Ok::<Seq<Seq<u8>>, VoleError>(views16(cts@)),
            decreases n - i,
        {
            let ghost before = views16(cts@);
            match self.keys_for(&aa, &points[i], i) {
                Err(e) => {
                    proof {
                        assert((2 * i) / 2 == i as int);
                        assert(f(2 * i as int) == Err::<Seq<u8>, VoleError>(e));
                        assert(collect(f, (2 * i + 1) as nat) == Err::<Seq<Seq<u8>>, VoleError>(e));
                        lemma_collect_err(f, (2 * i + 1) as nat, (2 * n) as nat);
                    }
                    return Err(e);
                },
                Ok((k0, k1)) => {
                    let e0 = xor_block16(&data0[i], &k0);
                    let e1 = xor_block16(&data1[i], &k1);
                    cts.push(e0);
                    cts.push(e1);
                    proof {
                        assert((2 * i) / 2 == i as int && (2 * i) % 2 == 0);
                        assert((2 * i + 1) / 2 == i as int && (2 * i + 1) % 2 == 1);
                        assert(f(2 * i as int) == Ok::<Seq<u8>, VoleError>(e0@));
                        assert(f(2 * i as int + 1) == Ok::<Seq<u8>, VoleError>(e1@));
                        assert(collect(f, (2 * i + 1) as nat) == Ok::<Seq<Seq<u8>>, VoleError>(before.push(e0@)));
                        assert(collect(f, (2 * i + 2) as nat) == Ok::<Seq<Seq<u8>>, VoleError>(
                            before.push(e0@).push(e1@),
                        ));
                        assert(views16(cts@) =~= before.push(e0@).push(e1@));
                    }
                },
            }
            i += 1;
        }
        io.send_data(&cts);
        Ok(())
    }

    /// The receiver's first step with scalars of the caller's: reads the sender's point `A` and answers each
    /// transfer with `b_i * G`, plus `A` where the choice bit is set.
    #[verifier::loop_isolation(false)]
    pub fn recv_start_with(
        &mut self,
        io: &mut CommunicationChannel,
        choices: &Vec<bool>,
        bs: Vec<[u8; 32]>,
    ) -> (r: Result<(), VoleError>)
        requires
            old(io).wf(),
            bs.len() == choices.len(),
        ensures
            final(io).wf(),
            match parse_point(old(io).unread()) {
                Err(e) => r == Err::<(), VoleError>(e),
                Ok(a) => if !uncompressed(a) {
                    r == Err::<(), VoleError>(VoleError::InvalidEncoding)
                } else {
                    match receiver_points(a, scalar_views(bs@), choices@) {
                        Err(e) => r == Err::<(), VoleError>(e),
                        Ok(ps) => r == Ok::<(), VoleError>(()) && final(self).point_a@ == a && final(self).scalars == bs && final(self).choices@ == choices@ && final(self).scalar == old(self).scalar && final(io).unread() == old(io).unread().skip(
                            frame_size(old(io).unread(), false) as int,
                        ) && final(io).written() == old(io).written() + points_frames(ps),
                    }
                },
            },
    {
        let n = choices.len();
        let a = io.receive_point()?;
        if !is_uncompressed(&a) {
            return Err(VoleError::InvalidEncoding);
        }
        let ghost f = |i: int| receiver_point(a@, scalar_views(bs@)[i], choices@[i]);
        let mut points: Vec<Vec<u8>> = Vec::new();
        let mut i: usize = 0;
        assert(vec_views(points@) =~= Seq::<Seq<u8>>::empty());
        while i < n
            invariant
                i <= n,
                n == choices.len(),
                n == bs.len(),
                points.len() == i,
                f == |i: int| receiver_point(a@, scalar_views(bs@)[i], choices@[i]),
                collect(f, i as nat) == Ok::<Seq<Seq<u8>>, VoleError>(vec_views(points@)),
            decreases n - i,
        {
            let ghost before = vec_views(points@);
            let g = curve_base_mul(&bs[i]);
            let p = if choices[i] {
                match curve_add(&g, &a) {
                    None => {
                        proof {
                            assert(f(i as int) == Err::<Seq<u8>, VoleError>(VoleError::InvalidEncoding));
                            assert(collect(f, (i + 1) as nat).is_err());
                            lemma_collect_err(f, (i + 1) as nat, n as nat);
                        }
                        return Err(VoleError::InvalidEncoding);
                    },
                    Some(p) => p,
                }
            } else {
                g
            };
            points.push(p);
            proof {
                assert(f(i as int) == Ok::<Seq<u8>, VoleError>(p@));
                assert(vec_views(points@) =~= before.push(p@));
            }
            i += 1;
        }
        io.send_points(&points);
        self.point_a = a;
        self.scalars = bs;
        self.choices = choices.clone();
        Ok(())
    }

    /// The receiver's first step: draws a random scalar for each transfer and answers the sender's point.
    /// After the point is read, the step comes to what `recv_start_with` comes to with some scalars, one
    /// for each transfer.
    pub fn recv_start(&mut self, io: &mut CommunicationChannel, choices: &Vec<bool>) -> (r: Result<
        (),
        VoleError,
    >)
        requires
            old(io).wf(),
        ensures
            final(io).wf(),
            match parse_point(old(io).unread()) {
                Err(e) => r == Err::<(), VoleError>(e),
                Ok(a) => if !uncompressed(a) {
                    r == Err::<(), VoleError>(VoleError::InvalidEncoding)
                } else {
                    exists|bs: Seq<Seq<u8>>|
                        bs.len() == choices.len() && #[trigger] receiver_start(
                            a,
                            bs,
                            choices@,
                            failure(r),
                            *final(self),
                            old(io).unread(),
                            final(io).unread(),
                            old(io).written(),
                            final(io).written(),
                        )
                },
            },
    {
        let mut bs: Vec<[u8; 32]> = Vec::new();
        let mut i: usize = 0;
        while i < choices.len()
            invariant
                i <= choices.len(),
                bs.len() == i,
            decreases choices.len() - i,
        {
            bs.push(random_scalar());
            i += 1;
        }
        let ghost drawn = scalar_views(bs@);
        let r = self.recv_start_with(io, choices, bs);
        proof {
            match parse_point(old(io).unread()) {
                Ok(a) => {
                    if uncompressed(a) {
                        assert(receiver_start(
                            a,
                            drawn,
                            choices@,
                            failure(r),
                            *self,
                            old(io).unread(),
                            io.unread(),
                            old(io).written(),
                            io.written(),
                        ));
                    }
                },
                Err(e) => {},
            }
        }
        r
    }

    /// The receiver's second step: reads the ciphertexts and opens, for each transfer, the one that its
    /// choice bit selects.
    #[verifier::loop_isolation(false)]
    pub fn recv(&mut self, io: &mut CommunicationChannel) -> (r: Result<Vec<[u8; 16]>, VoleError>)
        requires
            old(io).wf(),
            old(self).scalars.len() == old(self).choices.len(),
        ensures
            final(io).wf(),
            *final(self) == *old(self),
            final(io).outgoing == old(io).outgoing,
            match parse_blocks16(old(io).unread()) {
                Err(e) => r == Err::<Vec<[u8; 16]>, VoleError>(e),
                Ok(cts) => if cts.len() != 2 * old(self).scalars.len() {
                    r == Err::<Vec<[u8; 16]>, VoleError>(VoleError::WireFormat)
                } else {
                    match receiver_outputs(
                        old(self).point_a@,
                        scalar_views(old(self).scalars@),
                        old(self).choices@,
                        cts,
                    ) {
                        Err(e) => r == Err::<Vec<[u8; 16]>, VoleError>(e),
                        Ok(outs) => r.is_ok() && views16(r.unwrap()@) == outs && final(io).unread() == old(io).unread().skip(frame_size(old(io).unread(), false) as int),
                    }
                },
            },
    {
        let n = self.scalars.len();
        let cts = io.receive_data()?;
        if cts.len() / 2 != n || cts.len() % 2 != 0 {
            return Err(VoleError::WireFormat);
        }
        let ghost f = |i: int|
            receiver_output(self.point_a@, scalar_views(self.scalars@), self.choices@, views16(cts@), i);
        let mut out: Vec<[u8; 16]> = Vec::new();
        let mut i: usize = 0;
        assert(views16(out@) =~= Seq::<Seq<u8>>::empty());
        while i < n
            invariant
                i <= n,
                n == self.scalars.len(),
                n == self.choices.len(),
                cts.len() == 2 * n,
                out.len() == i,
                f == |i: int|
                    receiver_output(self.point_a@, scalar_views(self.scalars@), self.choices@, views16(cts@), i),
                collect(f, i as nat) == Ok::<Seq<Seq<u8>>, VoleError>(views16(out@)),
            decreases n - i,
        {
            let ghost before = views16(out@);
            let shared = match curve_mul(&self.point_a, &self.scalars[i]) {
                None => {
                    proof {
                        assert(f(i as int) == Err::<Seq<u8>, VoleError>(VoleError::InvalidEncoding));
                        assert(collect(f, (i + 1) as nat).is_err());
                        lemma_collect_err(f, (i + 1) as nat, n as nat);
                    }
                    return Err(VoleError::InvalidEncoding);
                },
                Some(p) => p,
            };
            let key = crate::hash::Hash::kdf(shared.as_slice(), i as u64);
            let pick: usize = if self.choices[i] {
                2 * i + 1
            } else {
                2 * i
            };
            let m = xor_blocks(&cts[pick], &key);
            out.push(m);
            proof {
                assert(f(i as int) == Ok::<Seq<u8>, VoleError>(m@));
                assert(views16(out@) =~= before.push(m@));
            }
            i += 1;
        }
        Ok(out)
    }
}

/// The exclusive-or of two 16-byte blocks.
fn xor_blocks(block1: &[u8; 16], block2: &[u8; 16]) -> (r: [u8; 16])
    ensures
        r@ == xor_seq(block1@, block2@),
{
    xor_block16(block1, block2)
}

} // verus!
