use vstd::prelude::*;
use crate::comm_channel::{blocks16_frame, field_frame, frame_size, parse_blocks16, parse_field, CommunicationChannel};
use crate::cope::{draw_column, fold, sender_column, tau_rows, Cope};
use crate::error::VoleError;
use crate::field::{all_wf, dot, fadd, fmul, fsub, values, vector_inner_product, Fe};
use crate::field_laws::{
    lemma_cong_add, lemma_cong_eq, lemma_cong_mul, lemma_cong_refl, lemma_cong_trans, lemma_fadd_cong,
    lemma_field_ops, lemma_fmul_cong, lemma_fsub_cong,
};
use crate::iknp::shift;
use crate::prg::{mix_id, stream_field, PRG};
use crate::role::Role;

verus! {

/// The number of bits of a field element, and of rows of the protocol underneath.
pub const FIELD_BITS: usize = 252;

/// The coefficients of the check that a seed gives: the field elements of the key stream under it.
pub open spec fn hash_coeffs(seed: Seq<u8>, size: nat) -> Seq<nat> {
    Seq::new(size, |j: int| stream_field(mix_id(seed, 0), 2 * j))
}

/// The sender's value `Y` of the check: its shares combined with the coefficients of the seed, plus its
/// extra share.
pub open spec fn check_value(shares: Seq<nat>, seed: Seq<u8>, extra: nat) -> nat {
    fadd(dot(shares, hash_coeffs(seed, shares.len()), shares.len()), extra)
}

/// What the receiver writes in the first step of a generation on its values `u`, with the value `a` of
/// its extra correlation: its corrections for the negated values, row after row, and then those for the
/// negated `a`, made with the generators as the first left them.
pub open spec fn receiver_corrections(g0: Seq<PRG>, g1: Seq<PRG>, u: Seq<nat>, a: nat, size: int) -> Seq<u8> {
    field_frame(tau_rows(g0, g1, negated(u), size, FIELD_BITS as nat)) + field_frame(
        tau_rows(shift(g0, 2 * size), shift(g1, 2 * size), seq![fsub(0, a)], 1, FIELD_BITS as nat),
    )
}

/// Whether the generators are keyed by the keys, each with the id 0, and stand at the start of their key
/// streams.
pub open spec fn fresh_generators(g: Seq<PRG>, keys: Seq<[u8; 16]>) -> bool {
    &&& g.len() == FIELD_BITS
    &&& forall|i: int| 0 <= i < FIELD_BITS ==> (#[trigger] g[i]).counter == 0 && g[i].key@ == mix_id(keys[i]@, 0)
}

/// The negations of a vector of field values.
pub open spec fn negated(u: Seq<nat>) -> Seq<nat> {
    Seq::new(u.len(), |j: int| fsub(0, u[j]))
}

/// The sender's shares of a batch, as the receiver's corrections `tau` determine them.
pub open spec fn sender_shares(g0: Seq<PRG>, bits: Seq<bool>, tau: Seq<nat>, size: nat) -> Seq<nat> {
    Seq::new(size, |j: int| fold(sender_column(g0, bits, tau, size as int, j), g0.len()))
}

/// The receiver's shares of a batch.
pub open spec fn receiver_shares(g0: Seq<PRG>, size: nat) -> Seq<nat> {
    Seq::new(size, |j: int| fold(draw_column(g0, j), g0.len()))
}

/// One party of the base protocol that gives a small batch of correlations `k = w + delta * u`: the sender
/// gets the `k`, the receiver the `w` for its `u`. A check with a random linear combination, for which one
/// more correlation is used up, makes the sender abort if the receiver's corrections were not formed as they
/// should.
#[derive(Clone)]
pub struct BaseSvole {
    pub party: Role,
    pub cope: Cope,
    pub delta: Option<Fe>,
    /// The sender's value `Y` of the check, between its two steps.
    pub pending_y: Fe,
    /// The receiver's shares, values and extra correlation, between its two steps.
    pub pending_share: Vec<Fe>,
    pub pending_u: Vec<Fe>,
    pub pending_c: Fe,
    pub pending_a: Fe,
}

impl BaseSvole {
    /// The protocol underneath has one row for each bit of a field element, and what is kept for the check
    /// is canonical.
    pub open spec fn wf(&self) -> bool {
        &&& self.cope.wf()
        &&& self.cope.m == FIELD_BITS
        &&& self.pending_y.wf()
        &&& self.pending_c.wf()
        &&& self.pending_a.wf()
        &&& all_wf(self.pending_share@)
        &&& all_wf(self.pending_u@)
        &&& self.pending_share.len() == self.pending_u.len()
    }

    /// The party can generate correlations.
    pub open spec fn ready(&self) -> bool {
        &&& self.wf()
        &&& self.party == Role::Sender ==> self.cope.ready_sender() && self.delta.is_some() && self.delta.unwrap().wf()
        &&& self.party == Role::Receiver ==> self.cope.ready_receiver()
    }

    /// The first step of the sender's construction with the key `delta`. The receiver's first message must
    /// be in the channel.
    pub fn new_sender(io: &mut CommunicationChannel, delta: Fe) -> (r: Result<Self, VoleError>)
        requires
            old(io).wf(),
            delta.wf(),
        ensures
            final(io).wf(),
            match crate::comm_channel::parse_point(old(io).unread()) {
                Err(e) => r matches Err(x) && x == e,
                Ok(a) => if !crate::ot::uncompressed(a) {
                    r matches Err(x) && x == VoleError::InvalidEncoding
                } else {
                    exists|bs: Seq<Seq<u8>>|
                        bs.len() == FIELD_BITS && #[trigger] crate::ot::receiver_start(
                            a,
                            bs,
                            crate::cope::encoding_bits(delta.bytes@, FIELD_BITS as nat),
                            crate::ot::failure(r),
                            r.unwrap().cope.ot,
                            old(io).unread(),
                            final(io).unread(),
                            old(io).written(),
                            final(io).written(),
                        )
                },
            },
            r.is_ok() ==> r.unwrap().wf() && r.unwrap().party == Role::Sender && r.unwrap().delta == Some(delta)
                && r.unwrap().cope.ot.scalars.len() == FIELD_BITS && r.unwrap().cope.ot.choices@
                == r.unwrap().cope.delta_bool@ && r.unwrap().cope.ot.choices.len() == FIELD_BITS
                && r.unwrap().cope.delta_bool@ == crate::cope::encoding_bits(delta.bytes@, FIELD_BITS as nat)
                && forall|i: int|
                0 <= i < FIELD_BITS ==> #[trigger] r.unwrap().cope.delta_bool[i] == crate::block::bit_at(
                    delta.bytes@,
                    i,
                ),
    {
        let mut cope = Cope::new(Role::Sender, FIELD_BITS);
        let started = cope.initialize_sender(io, delta);
        let ghost bits = crate::cope::encoding_bits(delta.bytes@, FIELD_BITS as nat);
        let ghost ot = cope.ot;
        proof {
            assert(cope.delta_bool@ =~= bits);
        }
        let r = match started {
            Err(e) => Err(e),
            Ok(()) => Ok(
                BaseSvole {
                    party: Role::Sender,
                    cope,
                    delta: Some(delta),
                    pending_y: Fe::zero(),
                    pending_share: Vec::new(),
                    pending_u: Vec::new(),
                    pending_c: Fe::zero(),
                    pending_a: Fe::zero(),
                },
            ),
        };
        proof {
            match crate::comm_channel::parse_point(old(io).unread()) {
                Ok(a) => {
                    if crate::ot::uncompressed(a) {
                        let bs = choose|bs: Seq<Seq<u8>>|
                            bs.len() == FIELD_BITS && #[trigger] crate::ot::receiver_start(
                                a,
                                bs,
                                bits,
                                crate::ot::failure(started),
                                ot,
                                old(io).unread(),
                                io.unread(),
                                old(io).written(),
                                io.written(),
                            );
                        assert(crate::ot::failure(r) == crate::ot::failure(started));
                        if r.is_ok() {
                            assert(r.unwrap().cope.ot == ot);
                        }
                        assert(crate::ot::receiver_start(
                            a,
                            bs,
                            bits,
                            crate::ot::failure(r),
                            r.unwrap().cope.ot,
                            old(io).unread(),
                            io.unread(),
                            old(io).written(),
                            io.written(),
                        ));
                    }
                },
                Err(e) => {},
            }
        }
        r
    }

    /// The first step of the receiver's construction.
    pub fn new_receiver(io: &mut CommunicationChannel) -> (r: Self)
        requires
            old(io).wf(),
        ensures
            final(io).wf(),
            final(io).incoming == old(io).incoming,
            final(io).read_pos == old(io).read_pos,
            r.wf(),
            r.party == Role::Receiver,
            r.delta.is_none(),
            r.cope.k0.len() == FIELD_BITS,
            r.cope.k1.len() == FIELD_BITS,
            r.cope.ot.point_a@ == crate::crypto::p256_base_mul(r.cope.ot.scalar@),
            final(io).written() == old(io).written() + crate::comm_channel::point_frame(r.cope.ot.point_a@),
    {
        let mut cope = Cope::new(Role::Receiver, FIELD_BITS);
        cope.initialize_receiver(io);
        BaseSvole {
            party: Role::Receiver,
            cope,
            delta: None,
            pending_y: Fe::zero(),
            pending_share: Vec::new(),
            pending_u: Vec::new(),
            pending_c: Fe::zero(),
            pending_a: Fe::zero(),
        }
    }

    /// The second step of the construction, after the peer's answer has arrived. The receiver acts first.
    pub fn finish(&mut self, io: &mut CommunicationChannel) -> (r: Result<(), VoleError>)
        requires
            old(self).wf(),
            old(io).wf(),
            old(self).party == Role::Sender ==> old(self).cope.ot.scalars.len() == FIELD_BITS && old(self).cope.ot.choices.len() == FIELD_BITS && old(self).delta.is_some() && old(self).delta.unwrap().wf(),
            old(self).party == Role::Receiver ==> old(self).cope.k0.len() == FIELD_BITS && old(self).cope.k1.len()
                == FIELD_BITS,
        ensures
            final(self).wf(),
            final(io).wf(),
            final(self).party == old(self).party,
            final(self).delta == old(self).delta,
            final(self).cope.delta_bool == old(self).cope.delta_bool,
            r.is_ok() ==> final(self).ready(),
            old(self).party == Role::Sender ==> final(io).outgoing == old(io).outgoing && match crate::ot::receiver_reads(
                old(self).cope.ot.point_a@,
                crate::ot::scalar_views(old(self).cope.ot.scalars@),
                old(self).cope.ot.choices@,
                old(io).unread(),
            ) {
                Err(e) => r == Err::<(), VoleError>(e),
                Ok((keys, rest)) => r == Ok::<(), VoleError>(()) && final(io).unread() == rest && forall|i: int|
                    0 <= i < FIELD_BITS ==> (#[trigger] final(self).cope.prg_g0[i]).counter == 0 && final(self).cope.prg_g0[i].key@ == mix_id(keys[i], 0),
            },
            old(self).party == Role::Receiver ==> match crate::ot::sender_answers(
                old(self).cope.ot.scalar@,
                old(self).cope.ot.point_a@,
                crate::comm_channel::views16(old(self).cope.k0@),
                crate::comm_channel::views16(old(self).cope.k1@),
                old(io).unread(),
            ) {
                Err(e) => r == Err::<(), VoleError>(e),
                Ok((cts, rest)) => {
                    &&& r == Ok::<(), VoleError>(())
                    &&& final(io).unread() == rest
                    &&& final(io).written() == old(io).written() + blocks16_frame(cts)
                    &&& fresh_generators(final(self).cope.prg_g0@, old(self).cope.k0@)
                    &&& fresh_generators(final(self).cope.prg_g1@, old(self).cope.k1@)
                    &&& forall|i: int|
                        0 <= i < FIELD_BITS ==> (#[trigger] final(self).cope.prg_g0[i]).counter == 0 && final(self).cope.prg_g0[i].key@ == mix_id(old(self).cope.k0[i]@, 0)
                    &&& forall|i: int|
                        0 <= i < FIELD_BITS ==> (#[trigger] final(self).cope.prg_g1[i]).counter == 0 && final(self).cope.prg_g1[i].key@ == mix_id(old(self).cope.k1[i]@, 0)
                },
            },
    {
        match self.party {
            Role::Sender => self.cope.initialize_sender_finish(io),
            Role::Receiver => self.cope.initialize_receiver_finish(io),
        }
    }

    /// The coefficients of the check for a seed.
    fn generate_hash_coeff(&self, seed: [u8; 16], size: usize) -> (r: Vec<Fe>)
        ensures
            r.len() == size,
            all_wf(r@),
            values(r@) == hash_coeffs(seed@, size as nat),
    {
        let mut prg = PRG::new(Some(&seed), 0);
        let coeffs = prg.random_stark252_elements(size);
        assert(values(coeffs@) =~= hash_coeffs(seed@, size as nat));
        coeffs
    }

    /// The inner product of two vectors, in the field.
    fn vector_inner_product_mod(&self, vec1: &Vec<Fe>, vec2: &Vec<Fe>) -> (r: Fe)
        requires
            vec1.len() == vec2.len(),
        ensures
            r.wf(),
            r.value() == dot(values(vec1@), values(vec2@), vec1.len() as nat),
    {
        vector_inner_product(vec1, vec2)
    }

    /// The sender's first step of a generation with a seed of the caller's: reads the receiver's
    /// corrections, gives the `size` shares `k`, and sends the seed of the check.
    pub fn triple_gen_send_with(&mut self, io: &mut CommunicationChannel, size: usize, seed: [u8; 16]) -> (r:
        Result<Vec<Fe>, VoleError>)
        requires
            old(self).ready(),
            old(self).party == Role::Sender,
            old(io).wf(),
            FIELD_BITS * size <= usize::MAX / 32,
        ensures
            final(self).wf(),
            final(io).wf(),
            final(self).party == old(self).party,
            final(self).delta == old(self).delta,
            final(self).cope.delta_bool == old(self).cope.delta_bool,
            match parse_field(old(io).unread(), (FIELD_BITS * size) as nat) {
                Err(e) => r == Err::<Vec<Fe>, VoleError>(e),
                Ok(tau) => {
                    let rest = old(io).unread().skip(frame_size(old(io).unread(), false) as int);
                    match parse_field(rest, FIELD_BITS as nat) {
                        Err(e) => r == Err::<Vec<Fe>, VoleError>(e),
                        Ok(tau1) => {
                            &&& r.is_ok()
                            &&& final(self).ready()
                            &&& r.unwrap().len() == size
                            &&& all_wf(r.unwrap()@)
                            &&& values(r.unwrap()@) == sender_shares(
                                old(self).cope.prg_g0@,
                                old(self).cope.delta_bool@,
                                tau,
                                size as nat,
                            )
                            &&& final(self).pending_y.value() == fadd(
                                dot(values(r.unwrap()@), hash_coeffs(seed@, size as nat), size as nat),
                                sender_shares(
                                    shift(old(self).cope.prg_g0@, 2 * size),
                                    old(self).cope.delta_bool@,
                                    tau1,
                                    1,
                                )[0],
                            )
                            &&& final(self).cope.prg_g0@ == shift(old(self).cope.prg_g0@, 2 * size + 2)
                            &&& final(io).unread() == rest.skip(frame_size(rest, false) as int)
                            &&& final(io).written() == old(io).written() + blocks16_frame(seq![seed@])
                        },
                    }
                },
            },
    {
        let share = self.cope.extend_sender_batch(io, size)?;
        let ghost g_mid = self.cope.prg_g0@;
        let b = self.cope.extend_sender_batch(io, 1)?;
        let mut seeds: Vec<[u8; 16]> = Vec::new();
        seeds.push(seed);
        assert(crate::comm_channel::views16(seeds@) =~= seq![seed@]);
        io.send_data(&seeds);
        let chi = self.generate_hash_coeff(seed, size);
        let y = self.vector_inner_product_mod(&share, &chi).add(&b[0]);
        self.pending_y = y;
        proof {
            let tau = parse_field(old(io).unread(), (FIELD_BITS * size) as nat).unwrap();
            assert(values(share@) =~= sender_shares(
                old(self).cope.prg_g0@,
                old(self).cope.delta_bool@,
                tau,
                size as nat,
            ));
            crate::iknp::lemma_shift_shift(old(self).cope.prg_g0@, 2 * size, 2);
        }
        Ok(share)
    }

    /// The sender's first step of a generation, with a random seed for the check: it reads, returns, keeps
    /// and sends what `triple_gen_send_with` reads, returns, keeps and sends with some seed.
    pub fn triple_gen_send(&mut self, io: &mut CommunicationChannel, size: usize) -> (r: Result<
        Vec<Fe>,
        VoleError,
    >)
        requires
            old(self).ready(),
            old(self).party == Role::Sender,
            old(io).wf(),
            FIELD_BITS * size <= usize::MAX / 32,
        ensures
            final(self).wf(),
            final(io).wf(),
            final(self).party == old(self).party,
            final(self).delta == old(self).delta,
            final(self).cope.delta_bool == old(self).cope.delta_bool,
            match parse_field(old(io).unread(), (FIELD_BITS * size) as nat) {
                Err(e) => r == Err::<Vec<Fe>, VoleError>(e),
                Ok(tau) => {
                    let rest = old(io).unread().skip(frame_size(old(io).unread(), false) as int);
                    match parse_field(rest, FIELD_BITS as nat) {
                        Err(e) => r == Err::<Vec<Fe>, VoleError>(e),
                        Ok(tau1) => {
                            &&& r.is_ok()
                            &&& final(self).ready()
                            &&& r.unwrap().len() == size
                            &&& all_wf(r.unwrap()@)
                            &&& values(r.unwrap()@) == sender_shares(
                                old(self).cope.prg_g0@,
                                old(self).cope.delta_bool@,
                                tau,
                                size as nat,
                            )
                            &&& final(self).cope.prg_g0@ == shift(old(self).cope.prg_g0@, 2 * size + 2)
                            &&& final(io).unread() == rest.skip(frame_size(rest, false) as int)
                            &&& exists|seed: Seq<u8>|
                                final(io).written() == old(io).written() + blocks16_frame(seq![seed]) && final(self).pending_y.value() == #[trigger] check_value(
                                    values(r.unwrap()@),
                                    seed,
                                    sender_shares(
                                        shift(old(self).cope.prg_g0@, 2 * size),
                                        old(self).cope.delta_bool@,
                                        tau1,
                                        1,
                                    )[0],
                                )
                        },
                    }
                },
            },
    {
        let mut seed_prg = PRG::new(None, 0);
        let seeds = seed_prg.random_block(1);
        let r = self.triple_gen_send_with(io, size, seeds[0]);
        proof {
            if r.is_ok() {
                let rest = old(io).unread().skip(frame_size(old(io).unread(), false) as int);
                let tau1 = parse_field(rest, FIELD_BITS as nat).unwrap();
                assert(self.pending_y.value() == check_value(
                    values(r.unwrap()@),
                    seeds[0]@,
                    sender_shares(shift(old(self).cope.prg_g0@, 2 * size), old(self).cope.delta_bool@, tau1, 1)[0],
                ));
            }
        }
        r
    }

    /// The sender's second step of a generation: reads the receiver's two values of the check and accepts
    /// if `Y = X0 + delta * X1`; if not, the generation is a `MaliciousAbort`.
    pub fn sender_check(&mut self, io: &mut CommunicationChannel) -> (r: Result<(), VoleError>)
        requires
            old(self).ready(),
            old(self).party == Role::Sender,
            old(io).wf(),
        ensures
            *final(self) == *old(self),
            final(io).wf(),
            final(io).outgoing == old(io).outgoing,
            match parse_field(old(io).unread(), 2) {
                Err(e) => r == Err::<(), VoleError>(e),
                Ok(xz) => if old(self).pending_y.value() == fadd(
                    xz[0],
                    fmul(old(self).delta.unwrap().value(), xz[1]),
                ) {
                    r == Ok::<(), VoleError>(()) && final(io).unread() == old(io).unread().skip(
                        frame_size(old(io).unread(), false) as int,
                    )
                } else {
                    r == Err::<(), VoleError>(VoleError::MaliciousAbort)
                },
            },
    {
        let xz = io.receive_stark252(2)?;
        let delta = match self.delta {
            Some(d) => d,
            None => Fe::zero(),
        };
        let rhs = xz[0].add(&delta.mul(&xz[1]));
        proof {
            assert(values(xz@)[0] == xz[0].value());
            assert(values(xz@)[1] == xz[1].value());
        }
        if self.pending_y.equals(&rhs) {
            Ok(())
        } else {
            Err(VoleError::MaliciousAbort)
        }
    }

    /// The receiver's first step of a generation on its values `u`, with the value `a` of the extra
    /// correlation given by the caller: sends the corrections and gives the `size` shares `w`. The
    /// protocol underneath gives the receiver's share as the sender's plus the key times the value, so the
    /// values are handed to it negated.
    pub fn triple_gen_recv_with(&mut self, io: &mut CommunicationChannel, u: &Vec<Fe>, size: usize, a: Fe) -> (r:
        Vec<Fe>)
        requires
            old(self).ready(),
            old(self).party == Role::Receiver,
            old(io).wf(),
            u.len() == size,
            all_wf(u@),
            a.wf(),
            FIELD_BITS * size <= usize::MAX / 32,
        ensures
            final(self).ready(),
            final(io).wf(),
            final(io).incoming == old(io).incoming,
            final(io).read_pos == old(io).read_pos,
            final(self).party == old(self).party,
            r.len() == size,
            all_wf(r@),
            values(r@) == receiver_shares(old(self).cope.prg_g0@, size as nat),
            final(self).pending_share@ == r@,
            final(self).pending_u@ == u@,
            final(self).pending_a == a,
            final(self).pending_c.value() == receiver_shares(shift(old(self).cope.prg_g0@, 2 * size), 1)[0],
            final(self).cope.prg_g0@ == shift(old(self).cope.prg_g0@, 2 * size + 2),
            final(self).cope.prg_g1@ == shift(old(self).cope.prg_g1@, 2 * size + 2),
            final(io).written() == old(io).written() + receiver_corrections(
                old(self).cope.prg_g0@,
                old(self).cope.prg_g1@,
                values(u@),
                a.value(),
                size as int,
            ),
            final(io).written() == old(io).written() + field_frame(
                tau_rows(
                    old(self).cope.prg_g0@,
                    old(self).cope.prg_g1@,
                    negated(values(u@)),
                    size as int,
                    FIELD_BITS as nat,
                ),
            ) + field_frame(
                tau_rows(
                    shift(old(self).cope.prg_g0@, 2 * size),
                    shift(old(self).cope.prg_g1@, 2 * size),
                    seq![fsub(0, a.value())],
                    1,
                    FIELD_BITS as nat,
                ),
            ),
    {
        let neg_u = negate_all(u);
        let share = self.cope.extend_receiver_batch(io, &neg_u, size);
        let mut xs: Vec<Fe> = Vec::new();
        xs.push(a.neg());
        assert(values(xs@) =~= seq![fsub(0, a.value())]);
        let c = self.cope.extend_receiver_batch(io, &xs, 1);
        self.pending_share = copy_elements(&share);
        self.pending_u = copy_elements(u);
        self.pending_c = c[0];
        self.pending_a = a;
        proof {
            assert(values(share@) =~= receiver_shares(old(self).cope.prg_g0@, size as nat));
            crate::iknp::lemma_shift_shift(old(self).cope.prg_g0@, 2 * size, 2);
            crate::iknp::lemma_shift_shift(old(self).cope.prg_g1@, 2 * size, 2);
        }
        share
    }

    /// The receiver's first step of a generation on its values `u`, with a random extra correlation.
    pub fn triple_gen_recv(&mut self, io: &mut CommunicationChannel, u: &Vec<Fe>, size: usize) -> (r: Vec<Fe>)
        requires
            old(self).ready(),
            old(self).party == Role::Receiver,
            old(io).wf(),
            u.len() == size,
            all_wf(u@),
            FIELD_BITS * size <= usize::MAX / 32,
        ensures
            final(self).ready(),
            final(io).wf(),
            final(io).incoming == old(io).incoming,
            final(io).read_pos == old(io).read_pos,
            final(self).party == old(self).party,
            r.len() == size,
            all_wf(r@),
            values(r@) == receiver_shares(old(self).cope.prg_g0@, size as nat),
            final(self).pending_share@ == r@,
            final(self).pending_u@ == u@,
            final(self).pending_c.value() == receiver_shares(shift(old(self).cope.prg_g0@, 2 * size), 1)[0],
            final(self).cope.prg_g0@ == shift(old(self).cope.prg_g0@, 2 * size + 2),
            final(self).cope.prg_g1@ == shift(old(self).cope.prg_g1@, 2 * size + 2),
            final(io).written() == old(io).written() + receiver_corrections(
                old(self).cope.prg_g0@,
                old(self).cope.prg_g1@,
                values(u@),
                final(self).pending_a.value(),
                size as int,
            ),
    {
        let mut prg = PRG::new(None, 0);
        let x = prg.random_stark252_elements(1);
        self.triple_gen_recv_with(io, u, size, x[0])
    }

    /// The receiver's second step of a generation: reads the seed of the check and sends its two values
    /// `X0 = <chi, w> + c` and `X1 = <chi, u> + a`.
    pub fn receiver_check(&mut self, io: &mut CommunicationChannel) -> (r: Result<(), VoleError>)
        requires
            old(self).ready(),
            old(self).party == Role::Receiver,
            old(io).wf(),
        ensures
            *final(self) == *old(self),
            final(io).wf(),
            match parse_blocks16(old(io).unread()) {
                Err(e) => r == Err::<(), VoleError>(e),
                Ok(seeds) => if seeds.len() != 1 {
                    r == Err::<(), VoleError>(VoleError::WireFormat)
                } else {
                    let n = old(self).pending_share.len() as nat;
                    &&& r == Ok::<(), VoleError>(())
                    &&& final(io).unread() == old(io).unread().skip(frame_size(old(io).unread(), false) as int)
                    &&& final(io).written() == old(io).written() + field_frame(
                        seq![
                            fadd(
                                dot(values(old(self).pending_share@), hash_coeffs(seeds[0], n), n),
                                old(self).pending_c.value(),
                            ),
                            fadd(
                                dot(values(old(self).pending_u@), hash_coeffs(seeds[0], n), n),
                                old(self).pending_a.value(),
                            ),
                        ],
                    )
                },
            },
    {
        let seeds = io.receive_data()?;
        if seeds.len() != 1 {
            return Err(VoleError::WireFormat);
        }
        let seed = seeds[0];
        assert(crate::comm_channel::views16(seeds@)[0] == seed@);
        let chi = self.generate_hash_coeff(seed, self.pending_share.len());
        let xz_0 = self.vector_inner_product_mod(&self.pending_share, &chi).add(&self.pending_c);
        let xz_1 = self.vector_inner_product_mod(&self.pending_u, &chi).add(&self.pending_a);
        let mut xz: Vec<Fe> = Vec::new();
        xz.push(xz_0);
        xz.push(xz_1);
        assert(values(xz@) =~= seq![xz_0.value(), xz_1.value()]);
        io.send_stark252(&xz);
        Ok(())
    }
}

/// The negation of each element.
pub fn negate_all(u: &Vec<Fe>) -> (r: Vec<Fe>)
    ensures
        r.len() == u.len(),
        all_wf(r@),
        values(r@) == negated(values(u@)),
{
    let mut r: Vec<Fe> = Vec::new();
    let mut i: usize = 0;
    while i < u.len()
        invariant
            i <= u.len(),
            r.len() == i,
            all_wf(r@),
            forall|j: int| 0 <= j < i ==> (#[trigger] r[j]).value() == fsub(0, u[j].value()),
        decreases u.len() - i,
    {
        r.push(u[i].neg());
        i += 1;
    }
    assert(values(r@) =~= negated(values(u@)));
    r
}

/// A copy of a vector of field elements.
pub fn copy_elements(v: &Vec<Fe>) -> (r: Vec<Fe>)
    ensures
        r@ == v@,
{
    let mut r: Vec<Fe> = Vec::new();
    let mut i: usize = 0;
    while i < v.len()
        invariant
            i <= v.len(),
            r@ == v@.take(i as int),
        decreases v.len() - i,
    {
        r.push(v[i]);
        assert(v@.take(i as int).push(v@[i as int]) =~= v@.take(i as int + 1));
        i += 1;
    }
    assert(v@.take(v.len() as int) =~= v@);
    r
}


/// The correlation of a generation. Let the sender's generator for each bit of the key be the one of the
/// receiver's two that the bit selects, the bits being those of the key `delta`, and let the sender read the
/// corrections that the receiver made for its values `u`. Then each share of the sender is the receiver's
/// share plus the key times the receiver's value: `k = w + delta * u`.
pub proof fn lemma_base_relation(
    sg: Seq<PRG>,
    rg0: Seq<PRG>,
    rg1: Seq<PRG>,
    u: Seq<nat>,
    size: nat,
    j: int,
    delta: Fe,
)
    requires
        sg.len() == FIELD_BITS,
        rg0.len() == FIELD_BITS,
        rg1.len() == FIELD_BITS,
        delta.wf(),
        0 <= j < size,
        u.len() == size,
        forall|i: int|
            0 <= i < FIELD_BITS ==> #[trigger] sg[i] == (if crate::cope::encoding_bits(
                delta.bytes@,
                FIELD_BITS as nat,
            )[i] {
                rg1[i]
            } else {
                rg0[i]
            }),
    ensures
        sender_shares(
            sg,
            crate::cope::encoding_bits(delta.bytes@, FIELD_BITS as nat),
            tau_rows(rg0, rg1, negated(u), size as int, FIELD_BITS as nat),
            size,
        )[j] == fadd(receiver_shares(rg0, size)[j], fmul(delta.value(), u[j])),
{
    let bits = crate::cope::encoding_bits(delta.bytes@, FIELD_BITS as nat);
    let nu = negated(u);
    crate::cope::lemma_cope_relation(sg, bits, rg0, rg1, nu, size as int, j, FIELD_BITS as nat);
    crate::cope::lemma_bits_fold_value(delta, FIELD_BITS as nat);
    let k = fold(sender_column(sg, bits, tau_rows(rg0, rg1, nu, size as int, FIELD_BITS as nat), size as int, j), FIELD_BITS as nat);
    let w = fold(draw_column(rg0, j), FIELD_BITS as nat);
    let d = delta.value();
    lemma_move_product(k, w, d, u[j]);
    crate::cope::lemma_fold_bound(
        sender_column(sg, bits, tau_rows(rg0, rg1, nu, size as int, FIELD_BITS as nat), size as int, j),
        FIELD_BITS as nat,
    );
}

/// If `k + d * (-u) = w` in the field, then `k = w + d * u`.
pub proof fn lemma_move_product(k: nat, w: nat, d: nat, u: nat)
    requires
        fadd(k, fmul(d, fsub(0, u))) == w,
        k < crate::field::modulus(),
    ensures
        k == fadd(w, fmul(d, u)),
{
    lemma_cong_refl(k as int, 0);
    lemma_cong_refl(d as int, 0);
    lemma_cong_refl(u as int, 0);
    lemma_cong_refl(0, 0);
    lemma_fsub_cong(0, u, 0, u as int);
    lemma_fmul_cong(d, fsub(0, u), d as int, 0 - u as int);
    lemma_fadd_cong(k, fmul(d, fsub(0, u)), k as int, d as int * (0 - u as int));
    // w is congruent to k - d * u
    lemma_fmul_cong(d, u, d as int, u as int);
    lemma_fadd_cong(w, fmul(d, u), k as int + d as int * (0 - u as int), d as int * u as int);
    assert(k as int + d as int * (0 - u as int) + d as int * u as int == k as int) by (nonlinear_arith);
    lemma_field_ops(w, fmul(d, u));
    lemma_cong_refl(fadd(w, fmul(d, u)) as int, k as int);
    lemma_cong_eq(k as int, fadd(w, fmul(d, u)) as int);
}

/// The inner product with the coefficients keeps the correlation, up to congruence.
proof fn lemma_dot_relation(k: Seq<nat>, w: Seq<nat>, u: Seq<nat>, chi: Seq<nat>, d: nat, n: nat)
    requires
        forall|j: int| 0 <= j < n ==> #[trigger] k[j] == fadd(w[j], fmul(d, u[j])),
    ensures
        crate::field_laws::cong(dot(k, chi, n) as int, dot(w, chi, n) as int + d as int * dot(u, chi, n) as int),
    decreases n,
{
    if n == 0 {
        assert(0int + d as int * 0int == 0) by (nonlinear_arith);
        lemma_cong_refl(0, 0);
    } else {
        let m = (n - 1) as nat;
        lemma_dot_relation(k, w, u, chi, d, m);
        let j = m as int;
        lemma_cong_refl(w[j] as int, 0);
        lemma_cong_refl(u[j] as int, 0);
        lemma_cong_refl(chi[j] as int, 0);
        lemma_cong_refl(d as int, 0);
        lemma_fmul_cong(d, u[j], d as int, u[j] as int);
        lemma_fadd_cong(w[j], fmul(d, u[j]), w[j] as int, d as int * u[j] as int);
        assert(k[j] == fadd(w[j], fmul(d, u[j])));
        lemma_fmul_cong(k[j], chi[j], w[j] as int + d as int * u[j] as int, chi[j] as int);
        lemma_fadd_cong(
            dot(k, chi, m),
            fmul(k[j], chi[j]),
            dot(w, chi, m) as int + d as int * dot(u, chi, m) as int,
            (w[j] as int + d as int * u[j] as int) * chi[j] as int,
        );
        lemma_fmul_cong(w[j], chi[j], w[j] as int, chi[j] as int);
        lemma_fmul_cong(u[j], chi[j], u[j] as int, chi[j] as int);
        lemma_cong_refl(dot(w, chi, m) as int, 0);
        lemma_cong_refl(dot(u, chi, m) as int, 0);
        lemma_fadd_cong(dot(w, chi, m), fmul(w[j], chi[j]), dot(w, chi, m) as int, w[j] as int * chi[j] as int);
        lemma_fadd_cong(dot(u, chi, m), fmul(u[j], chi[j]), dot(u, chi, m) as int, u[j] as int * chi[j] as int);
        let dw = dot(w, chi, n) as int;
        let du = dot(u, chi, n) as int;
        lemma_cong_mul(d as int, d as int, du, dot(u, chi, m) as int + u[j] as int * chi[j] as int);
        lemma_cong_add(
            dw,
            dot(w, chi, m) as int + w[j] as int * chi[j] as int,
            d as int * du,
            d as int * (dot(u, chi, m) as int + u[j] as int * chi[j] as int),
        );
        let lhs_mid = dot(w, chi, m) as int + d as int * dot(u, chi, m) as int + (w[j] as int + d as int * u[j] as int)
            * chi[j] as int;
        let rhs_mid = dot(w, chi, m) as int + w[j] as int * chi[j] as int + d as int * (dot(u, chi, m) as int
            + u[j] as int * chi[j] as int);
        assert(lhs_mid == rhs_mid) by (nonlinear_arith)
            requires
                lhs_mid == dot(w, chi, m) as int + d as int * dot(u, chi, m) as int + (w[j] as int + d as int
                    * u[j] as int) * chi[j] as int,
                rhs_mid == dot(w, chi, m) as int + w[j] as int * chi[j] as int + d as int * (dot(u, chi, m) as int
                    + u[j] as int * chi[j] as int),
        ;
        lemma_cong_refl(dw + d as int * du, rhs_mid);
        lemma_cong_trans(dot(k, chi, n) as int, lhs_mid, dw + d as int * du);
    }
}

/// An honest generation passes the check. Let every share of the sender be the receiver's share plus the key
/// times the receiver's value, `k = w + delta * u`, and likewise the extra correlation, `b = c + delta * a`.
/// Then the sender's value `Y = <chi, k> + b` is `X0 + delta * X1` for the receiver's values
/// `X0 = <chi, w> + c` and `X1 = <chi, u> + a`, whatever the coefficients `chi`.
pub proof fn lemma_check_complete(
    k: Seq<nat>,
    w: Seq<nat>,
    u: Seq<nat>,
    chi: Seq<nat>,
    d: nat,
    b: nat,
    c: nat,
    a: nat,
    n: nat,
)
    requires
        forall|j: int| 0 <= j < n ==> #[trigger] k[j] == fadd(w[j], fmul(d, u[j])),
        b == fadd(c, fmul(d, a)),
    ensures
        fadd(dot(k, chi, n), b) == fadd(fadd(dot(w, chi, n), c), fmul(d, fadd(dot(u, chi, n), a))),
{
    lemma_dot_relation(k, w, u, chi, d, n);
    let dk = dot(k, chi, n);
    let dw = dot(w, chi, n);
    let du = dot(u, chi, n);
    lemma_cong_refl(c as int, 0);
    lemma_cong_refl(a as int, 0);
    lemma_cong_refl(d as int, 0);
    lemma_cong_refl(dw as int, 0);
    lemma_cong_refl(du as int, 0);
    lemma_fmul_cong(d, a, d as int, a as int);
    lemma_fadd_cong(c, fmul(d, a), c as int, d as int * a as int);
    lemma_fadd_cong(dk, b, dw as int + d as int * du as int, c as int + d as int * a as int);
    lemma_fadd_cong(dw, c, dw as int, c as int);
    lemma_fadd_cong(du, a, du as int, a as int);
    lemma_fmul_cong(d, fadd(du, a), d as int, du as int + a as int);
    lemma_fadd_cong(fadd(dw, c), fmul(d, fadd(du, a)), dw as int + c as int, d as int * (du as int + a as int));
    let lhs = fadd(dk, b);
    let rhs = fadd(fadd(dw, c), fmul(d, fadd(du, a)));
    let mid_l = dw as int + d as int * du as int + (c as int + d as int * a as int);
    let mid_r = dw as int + c as int + d as int * (du as int + a as int);
    assert(mid_l == mid_r) by (nonlinear_arith)
        requires
            mid_l == dw as int + d as int * du as int + (c as int + d as int * a as int),
            mid_r == dw as int + c as int + d as int * (du as int + a as int),
    ;
    lemma_cong_refl(rhs as int, mid_r);
    lemma_cong_trans(lhs as int, mid_l, rhs as int);
    lemma_field_ops(dk, b);
    lemma_field_ops(fadd(dw, c), fmul(d, fadd(du, a)));
    lemma_cong_eq(lhs as int, rhs as int);
}

/// The correlation over one generation of both parties. Let each generator of the sender be the one of
/// the receiver's two that the bit of the key selects, as the initialization leaves them, and let the
/// sender find in the channel what the receiver's `triple_gen_recv` wrote for its values `u` and its
/// extra value `a`. Then the sender's `triple_gen_send` reads both messages and succeeds; and the share
/// `k` that its contract gives the sender at place `j` is the share `w` that its contract gives the
/// receiver there, plus the key times the receiver's value: `k = w + delta * u`.
pub proof fn lemma_generation_pair(
    sender: BaseSvole,
    receiver: BaseSvole,
    u: Seq<Fe>,
    a: Fe,
    size: nat,
    rest: Seq<u8>,
    j: int,
)
    requires
        sender.ready(),
        receiver.ready(),
        sender.party == Role::Sender,
        receiver.party == Role::Receiver,
        sender.cope.delta_bool@ == crate::cope::encoding_bits(sender.delta.unwrap().bytes@, FIELD_BITS as nat),
        forall|i: int|
            0 <= i < FIELD_BITS ==> #[trigger] sender.cope.prg_g0[i] == (if sender.cope.delta_bool[i] {
                receiver.cope.prg_g1[i]
            } else {
                receiver.cope.prg_g0[i]
            }),
        u.len() == size,
        32 * (FIELD_BITS * size) <= u64::MAX,
        0 <= j < size,
    ensures
        ({
            let unread = receiver_corrections(
                receiver.cope.prg_g0@,
                receiver.cope.prg_g1@,
                values(u),
                a.value(),
                size as int,
            ) + rest;
            let left = unread.skip(frame_size(unread, false) as int);
            &&& parse_field(unread, (FIELD_BITS * size) as nat) matches Ok(tau) && sender_shares(
                sender.cope.prg_g0@,
                sender.cope.delta_bool@,
                tau,
                size,
            )[j] == fadd(
                receiver_shares(receiver.cope.prg_g0@, size)[j],
                fmul(sender.delta.unwrap().value(), u[j].value()),
            )
            &&& parse_field(left, FIELD_BITS as nat) is Ok
            &&& left.skip(frame_size(left, false) as int) == rest
        }),
{
    let g0 = receiver.cope.prg_g0@;
    let g1 = receiver.cope.prg_g1@;
    let tau = tau_rows(g0, g1, negated(values(u)), size as int, FIELD_BITS as nat);
    let tau1 = tau_rows(
        shift(g0, 2 * (size as int)),
        shift(g1, 2 * (size as int)),
        seq![fsub(0, a.value())],
        1,
        FIELD_BITS as nat,
    );
    let unread = receiver_corrections(g0, g1, values(u), a.value(), size as int) + rest;
    assert(unread =~= field_frame(tau) + (field_frame(tau1) + rest));
    crate::cope::lemma_tau_rows_len(g0, g1, negated(values(u)), size as int, FIELD_BITS as nat);
    crate::cope::lemma_tau_rows_len(shift(g0, 2 * (size as int)), shift(g1, 2 * (size as int)), seq![fsub(0, a.value())], 1, FIELD_BITS as nat);
    assert forall|q: int| 0 <= q < tau.len() implies #[trigger] tau[q] < crate::field::modulus() by {
        crate::cope::lemma_tau_rows_bound(g0, g1, negated(values(u)), size as int, FIELD_BITS as nat, q);
    }
    assert forall|q: int| 0 <= q < tau1.len() implies #[trigger] tau1[q] < crate::field::modulus() by {
        crate::cope::lemma_tau_rows_bound(
            shift(g0, 2 * (size as int)),
            shift(g1, 2 * (size as int)),
            seq![fsub(0, a.value())],
            1,
            FIELD_BITS as nat,
            q,
        );
    }
    crate::comm_channel::lemma_field_round_trip(tau, field_frame(tau1) + rest);
    crate::comm_channel::lemma_field_round_trip(tau1, rest);
    lemma_base_relation(sender.cope.prg_g0@, g0, g1, values(u), size, j, sender.delta.unwrap());
    assert(values(u)[j] == u[j].value());
}

/// An honest generation passes the check, over a run of both parties. Let each generator of the sender be
/// the one of the receiver's two that the bit of the key selects, and let each party read what the other
/// wrote. Then the value `Y` that the contract of `triple_gen_send` has the sender keep for the seed `seed`
/// is `X0 + delta * X1` for the two values that the contract of `receiver_check` has the receiver send for
/// that seed: the sender's `sender_check` accepts.
pub proof fn lemma_check_pair(
    sender: BaseSvole,
    receiver: BaseSvole,
    u: Seq<Fe>,
    a: Fe,
    seed: Seq<u8>,
    size: nat,
)
    requires
        sender.ready(),
        receiver.ready(),
        sender.party == Role::Sender,
        receiver.party == Role::Receiver,
        sender.cope.delta_bool@ == crate::cope::encoding_bits(sender.delta.unwrap().bytes@, FIELD_BITS as nat),
        forall|i: int|
            0 <= i < FIELD_BITS ==> #[trigger] sender.cope.prg_g0[i] == (if sender.cope.delta_bool[i] {
                receiver.cope.prg_g1[i]
            } else {
                receiver.cope.prg_g0[i]
            }),
        u.len() == size,
    ensures
        ({
            let g0 = receiver.cope.prg_g0@;
            let g1 = receiver.cope.prg_g1@;
            let sg = sender.cope.prg_g0@;
            let bits = sender.cope.delta_bool@;
            let d = sender.delta.unwrap().value();
            let tau = tau_rows(g0, g1, negated(values(u)), size as int, FIELD_BITS as nat);
            let tau1 = tau_rows(
                shift(g0, 2 * (size as int)),
                shift(g1, 2 * (size as int)),
                seq![fsub(0, a.value())],
                1,
                FIELD_BITS as nat,
            );
            let k = sender_shares(sg, bits, tau, size);
            let w = receiver_shares(g0, size);
            let b = sender_shares(shift(sg, 2 * (size as int)), bits, tau1, 1)[0];
            let c = receiver_shares(shift(g0, 2 * (size as int)), 1)[0];
            check_value(k, seed, b) == fadd(
                fadd(dot(w, hash_coeffs(seed, size), size), c),
                fmul(d, fadd(dot(values(u), hash_coeffs(seed, size), size), a.value())),
            )
        }),
{
    let g0 = receiver.cope.prg_g0@;
    let g1 = receiver.cope.prg_g1@;
    let sg = sender.cope.prg_g0@;
    let bits = sender.cope.delta_bool@;
    let delta = sender.delta.unwrap();
    let off = 2 * (size as int);
    let tau = tau_rows(g0, g1, negated(values(u)), size as int, FIELD_BITS as nat);
    let tau1 = tau_rows(shift(g0, off), shift(g1, off), seq![fsub(0, a.value())], 1, FIELD_BITS as nat);
    let k = sender_shares(sg, bits, tau, size);
    let w = receiver_shares(g0, size);
    assert forall|j: int| 0 <= j < size implies #[trigger] k[j] == fadd(w[j], fmul(delta.value(), values(u)[j])) by {
        lemma_base_relation(sg, g0, g1, values(u), size, j, delta);
    }
    assert forall|i: int| 0 <= i < FIELD_BITS implies #[trigger] shift(sg, off)[i] == (if bits[i] {
        shift(g1, off)[i]
    } else {
        shift(g0, off)[i]
    }) by {
        assert(sg[i] == sender.cope.prg_g0[i]);
    }
    assert(negated(seq![a.value()]) =~= seq![fsub(0, a.value())]);
    lemma_base_relation(shift(sg, off), shift(g0, off), shift(g1, off), seq![a.value()], 1, 0, delta);
    let b = sender_shares(shift(sg, off), bits, tau1, 1)[0];
    let c = receiver_shares(shift(g0, off), 1)[0];
    lemma_check_complete(k, w, values(u), hash_coeffs(seed, size), delta.value(), b, c, a.value(), size);
}

} // verus!
