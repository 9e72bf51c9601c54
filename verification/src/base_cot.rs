use vstd::prelude::*;
use crate::block::{
    and_block, and_seq, bit_at, block_from_bits, lemma_block_is_from_bits, lsb, select_seq, xor_block, xor_seq,
    zeros,
};
use crate::comm_channel::{blocks32_frame, frame_size, parse_blocks32, views32, CommunicationChannel};
use crate::error::VoleError;
use crate::iknp::{
    delta_of, frame_count, frame_off, send_cot_spec, shift, t_data, BLOCK_SIZE, IKNP, NUM_BITS,
};
use crate::preot::OTPre;
use crate::prg::PRG;
use crate::role::Role;

verus! {

/// The block that stands for one: the lowest bit set, all others clear.
pub open spec fn one_spec() -> Seq<u8> {
    Seq::new(32, |i: int| if i == 0 {
        1u8
    } else {
        0u8
    })
}

/// The block with every bit set but the lowest.
pub open spec fn minus_one_spec() -> Seq<u8> {
    Seq::new(32, |i: int| if i == 0 {
        0xfeu8
    } else {
        0xffu8
    })
}

/// The correlation with its lowest bit cleared: the form in which the sender keeps it.
pub open spec fn clear_lsb(x: Seq<u8>) -> Seq<u8> {
    and_seq(x, minus_one_spec())
}

/// The correlation with its lowest bit replaced by the choice bit: the form in which the receiver keeps it.
pub open spec fn with_lsb(x: Seq<u8>, b: bool) -> Seq<u8> {
    xor_seq(and_seq(x, minus_one_spec()), select_seq(b, one_spec()))
}

/// The block that stands for one.
pub fn one_block() -> (r: [u8; 32])
    ensures
        r@ == one_spec(),
{
    let mut r = [0u8; 32];
    r[0] = 1;
    assert(r@ =~= one_spec());
    r
}

/// The block with every bit set but the lowest.
pub fn minus_one_block() -> (r: [u8; 32])
    ensures
        r@ == minus_one_spec(),
{
    let mut r = [0xffu8; 32];
    r[0] = 0xfe;
    assert(r@ =~= minus_one_spec());
    r
}

/// The 256 bits of a block, lowest first.
fn block_to_bool(block: &[u8; 32]) -> (r: Vec<bool>)
    ensures
        r.len() == 256,
        forall|m: int| 0 <= m < 256 ==> #[trigger] r[m] == bit_at(block@, m),
{
    crate::block::block_to_bool(block)
}

/// Whether the lowest bit of the block is set.
fn get_lsb(block: &[u8; 32]) -> (r: bool)
    ensures
        r == lsb(block@),
{
    proof {
        crate::preot::lemma_lsb_bit(block@);
    }
    crate::block::get_lsb(block)
}

/// Byte-wise exclusive-or of two blocks.
fn bitwise_xor(a: &[u8; 32], b: &[u8; 32]) -> (r: [u8; 32])
    ensures
        r@ == xor_seq(a@, b@),
{
    xor_block(a, b)
}

/// Byte-wise and of two blocks.
fn bitwise_and(a: &[u8; 32], b: &[u8; 32]) -> (r: [u8; 32])
    ensures
        r@ == and_seq(a@, b@),
{
    and_block(a, b)
}

/// The sender's form of each correlation: the lowest bit cleared.
pub fn mask_sender(data: &Vec<[u8; 32]>) -> (r: Vec<[u8; 32]>)
    ensures
        r.len() == data.len(),
        forall|i: int| 0 <= i < data.len() ==> (#[trigger] r[i])@ == clear_lsb(data[i]@),
{
    let minus_one = minus_one_block();
    let mut r: Vec<[u8; 32]> = Vec::new();
    let mut i: usize = 0;
    while i < data.len()
        invariant
            i <= data.len(),
            minus_one@ == minus_one_spec(),
            r.len() == i,
            forall|j: int| 0 <= j < i ==> (#[trigger] r[j])@ == clear_lsb(data[j]@),
        decreases data.len() - i,
    {
        r.push(bitwise_and(&data[i], &minus_one));
        i += 1;
    }
    r
}

/// The receiver's form of each correlation: the lowest bit replaced by the choice bit.
pub fn mask_receiver(data: &Vec<[u8; 32]>, bits: &Vec<bool>) -> (r: Vec<[u8; 32]>)
    requires
        bits.len() == data.len(),
    ensures
        r.len() == data.len(),
        forall|i: int| 0 <= i < data.len() ==> (#[trigger] r[i])@ == with_lsb(data[i]@, bits[i]),
{
    let minus_one = minus_one_block();
    let one = one_block();
    let zero = [0u8; 32];
    assert(zero@ =~= zeros(32));
    let mut r: Vec<[u8; 32]> = Vec::new();
    let mut i: usize = 0;
    while i < data.len()
        invariant
            i <= data.len(),
            bits.len() == data.len(),
            minus_one@ == minus_one_spec(),
            one@ == one_spec(),
            zero@ == zeros(32),
            r.len() == i,
            forall|j: int| 0 <= j < i ==> (#[trigger] r[j])@ == with_lsb(data[j]@, bits[j]),
        decreases data.len() - i,
    {
        let masked = bitwise_and(&data[i], &minus_one);
        if bits[i] {
            r.push(bitwise_xor(&masked, &one));
        } else {
            r.push(bitwise_xor(&masked, &zero));
        }
        i += 1;
    }
    r
}

/// A random block with its lowest bit set: a fresh correlation key.
pub fn random_delta() -> (r: [u8; 32])
    ensures
        lsb(r@),
{
    let mut prg = PRG::new(None, 0);
    let tmp = prg.random_32byte_block(1);
    let masked = bitwise_and(&tmp[0], &minus_one_block());
    let delta = bitwise_xor(&masked, &one_block());
    proof {
        let x = tmp[0]@[0];
        assert(((x & 0xfeu8) ^ 1u8) & 1u8 == 1u8) by (bit_vector);
    }
    delta
}

/// The source of correlated transfers for a session: the base transfers and their extension, with the
/// conventions on the lowest bit.
#[derive(Clone)]
pub struct BaseCot {
    pub party: Role,
    /// The sender's correlation key.
    pub ot_delta: Option<[u8; 32]>,
    pub iknp: IKNP,
    pub malicious: bool,
}

/// The lowest bits of a sequence of blocks: for the receiver's correlations, its choice bits.
pub open spec fn low_bits(blocks: Seq<[u8; 32]>) -> Seq<bool> {
    Seq::new(blocks.len(), |i: int| lsb(blocks[i]@))
}

impl BaseCot {
    /// The extension has its fixed sizes and the same setting of the consistency check.
    pub open spec fn wf(&self) -> bool {
        &&& self.iknp.wf()
        &&& self.iknp.malicious == self.malicious
    }

    /// The party has been set up and can generate correlations.
    pub open spec fn ready(&self) -> bool {
        &&& self.wf()
        &&& self.party == Role::Sender ==> self.iknp.ready_sender() && self.ot_delta == self.iknp.delta
        &&& self.party == Role::Receiver ==> self.iknp.ready_receiver()
    }

    /// A party that has not been set up.
    pub fn new(party: Role, malicious: bool) -> (r: Self)
        ensures
            r.wf(),
            r.party == party,
            r.malicious == malicious,
            r.ot_delta.is_none(),
            !r.iknp.setup,
    {
        BaseCot { party, ot_delta: None, iknp: IKNP::new(malicious), malicious }
    }

    /// The first step of the setup. The receiver starts the base transfers. The sender, who must find the
    /// receiver's first message in the channel, fixes its correlation key, the given one or a random one
    /// with its lowest bit set, and answers with the key's bits as its choices.
    pub fn cot_gen_pre(&mut self, io: &mut CommunicationChannel, deltain: Option<[u8; 32]>) -> (r: Result<
        (),
        VoleError,
    >)
        requires
            old(self).wf(),
            old(io).wf(),
        ensures
            final(self).wf(),
            final(io).wf(),
            final(self).party == old(self).party,
            final(self).malicious == old(self).malicious,
            old(self).party == Role::Receiver ==> r.is_ok() && final(io).incoming == old(io).incoming && final(io).read_pos == old(io).read_pos && final(io).written() == old(io).written()
                + crate::comm_channel::point_frame(final(self).iknp.base_ot.point_a@) && final(self).iknp.base_ot.point_a@ == crate::crypto::p256_base_mul(final(self).iknp.base_ot.scalar@),
            old(self).party == Role::Sender ==> final(self).ot_delta.is_some() && (deltain matches Some(d)
                ==> final(self).ot_delta == Some(d)) && (deltain is None ==> lsb(final(self).ot_delta.unwrap()@))
                && forall|i: int|
                0 <= i < 256 ==> final(self).iknp.s[i] == bit_at(final(self).ot_delta.unwrap()@, i),
            old(self).party == Role::Sender && r.is_ok() ==> final(self).iknp.base_ot.scalars.len() == NUM_BITS
                && final(self).iknp.base_ot.choices@ == final(self).iknp.s@,
            old(self).party == Role::Sender ==> match crate::comm_channel::parse_point(old(io).unread()) {
                Err(e) => r == Err::<(), VoleError>(e),
                Ok(a) => if !crate::ot::uncompressed(a) {
                    r == Err::<(), VoleError>(VoleError::InvalidEncoding)
                } else {
                    exists|bs: Seq<Seq<u8>>|
                        bs.len() == NUM_BITS && #[trigger] crate::ot::receiver_start(
                            a,
                            bs,
                            final(self).iknp.s@,
                            crate::ot::failure(r),
                            final(self).iknp.base_ot,
                            old(io).unread(),
                            final(io).unread(),
                            old(io).written(),
                            final(io).written(),
                        )
                },
            },
    {
        match self.party {
            Role::Sender => {
                let delta = match deltain {
                    Some(d) => d,
                    None => random_delta(),
                };
                self.ot_delta = Some(delta);
                let delta_bool = block_to_bool(&delta);
                let started = self.iknp.setup_send(io, Some(&delta_bool), None);
                let r: Result<(), VoleError> = match started {
                    Ok(_) => Ok(()),
                    Err(e) => Err(e),
                };
                proof {
                    match crate::comm_channel::parse_point(old(io).unread()) {
                        Ok(a) => {
                            if crate::ot::uncompressed(a) {
                                let bs = choose|bs: Seq<Seq<u8>>|
                                    bs.len() == NUM_BITS && #[trigger] crate::ot::receiver_start(
                                        a,
                                        bs,
                                        self.iknp.s@,
                                        crate::ot::failure(started),
                                        self.iknp.base_ot,
                                        old(io).unread(),
                                        io.unread(),
                                        old(io).written(),
                                        io.written(),
                                    );
                                assert(crate::ot::failure(r) == crate::ot::failure(started));
                                assert(crate::ot::receiver_start(
                                    a,
                                    bs,
                                    self.iknp.s@,
                                    crate::ot::failure(r),
                                    self.iknp.base_ot,
                                    old(io).unread(),
                                    io.unread(),
                                    old(io).written(),
                                    io.written(),
                                ));
                            }
                        },
                        Err(e) => {},
                    }
                }
                r
            },
            Role::Receiver => {
                let _ = self.iknp.setup_recv(io, None, None);
                Ok(())
            },
        }
    }

    /// The second step of the setup, after the peer's answer has arrived: the receiver, who acts first,
    /// sends its keys under the keys of the base transfers; the sender opens the ones it chose.
    pub fn cot_gen_pre_finish(&mut self, io: &mut CommunicationChannel) -> (r: Result<(), VoleError>)
        requires
            old(self).wf(),
            old(io).wf(),
            old(self).party == Role::Sender ==> old(self).iknp.base_ot.scalars.len() == NUM_BITS && old(self).iknp.base_ot.choices@ == old(self).iknp.s@ && old(self).ot_delta.is_some() && forall|i: int|
                0 <= i < 256 ==> old(self).iknp.s[i] == bit_at(old(self).ot_delta.unwrap()@, i),
        ensures
            final(self).wf(),
            final(io).wf(),
            final(self).party == old(self).party,
            final(self).malicious == old(self).malicious,
            final(self).ot_delta == old(self).ot_delta,
            r.is_ok() ==> final(self).ready(),
            old(self).party == Role::Sender ==> final(io).outgoing == old(io).outgoing && match crate::ot::receiver_reads(
                old(self).iknp.base_ot.point_a@,
                crate::ot::scalar_views(old(self).iknp.base_ot.scalars@),
                old(self).iknp.base_ot.choices@,
                old(io).unread(),
            ) {
                Err(e) => r == Err::<(), VoleError>(e),
                Ok((keys, rest)) => {
                    &&& r == Ok::<(), VoleError>(())
                    &&& final(io).unread() == rest
                    &&& crate::comm_channel::views16(final(self).iknp.k0@) == keys
                    &&& crate::iknp::sender_gens(final(self).iknp.g0@, final(self).iknp.k0@, old(self).iknp.s@)
                    &&& final(self).iknp == (IKNP {
                        g0: final(self).iknp.g0,
                        k0: final(self).iknp.k0,
                        delta: old(self).ot_delta,
                        setup: true,
                        ..old(self).iknp
                    })
                },
            },
            old(self).party == Role::Receiver ==> match crate::ot::sender_answers(
                old(self).iknp.base_ot.scalar@,
                old(self).iknp.base_ot.point_a@,
                crate::comm_channel::views16(old(self).iknp.k0@),
                crate::comm_channel::views16(old(self).iknp.k1@),
                old(io).unread(),
            ) {
                Err(e) => r == Err::<(), VoleError>(e),
                Ok((cts, rest)) => {
                    &&& r == Ok::<(), VoleError>(())
                    &&& final(io).unread() == rest
                    &&& final(io).written() == old(io).written() + crate::comm_channel::blocks16_frame(cts)
                    &&& crate::iknp::receiver_gens(
                        final(self).iknp.g0@,
                        final(self).iknp.g1@,
                        old(self).iknp.k0@,
                        old(self).iknp.k1@,
                    )
                    &&& final(self).iknp == (IKNP {
                        g0: final(self).iknp.g0,
                        g1: final(self).iknp.g1,
                        setup: true,
                        ..old(self).iknp
                    })
                },
            },
    {
        match self.party {
            Role::Sender => {
                self.iknp.setup_send_finish(io)?;
                proof {
                    let d = self.ot_delta.unwrap()@;
                    let f = |i: int| self.iknp.s@[i];
                    assert forall|m: int| 0 <= m < 256 implies bit_at(d, m) == f(m) by {}
                    lemma_block_is_from_bits(d, f);
                    assert(self.iknp.delta.unwrap()@ == d);
                    assert(self.iknp.delta.unwrap() =~= self.ot_delta.unwrap());
                }
                Ok(())
            },
            Role::Receiver => {
                self.iknp.setup_recv_finish(io)?;
                Ok(())
            },
        }
    }

    /// The sender's correlations: those of the extension, each with its lowest bit cleared.
    pub fn cot_gen_send(&mut self, io: &mut CommunicationChannel, size: usize) -> (r: Result<
        Vec<[u8; 32]>,
        VoleError,
    >)
        requires
            old(self).ready(),
            old(self).party == Role::Sender,
            old(io).wf(),
            size <= usize::MAX - BLOCK_SIZE,
        ensures
            final(self).ready(),
            final(io).wf(),
            final(io).outgoing == old(io).outgoing,
            final(self).party == old(self).party,
            final(self).malicious == old(self).malicious,
            final(self).ot_delta == old(self).ot_delta,
            final(self).iknp.s == old(self).iknp.s,
            match send_cot_spec(
                old(self).iknp.g0@,
                old(self).iknp.s@,
                old(self).ot_delta.unwrap()@,
                old(self).malicious,
                old(io).unread(),
                size as int,
            ) {
                Err(e) => r == Err::<Vec<[u8; 32]>, VoleError>(e),
                Ok((data, rest)) => r.is_ok() && r.unwrap().len() == size && final(io).unread() == rest
                    && final(self).iknp.g0@ == shift(
                    old(self).iknp.g0@,
                    frame_off(size as int, frame_count(size as int, old(self).malicious)),
                ) && forall|i: int| 0 <= i < size ==> (#[trigger] r.unwrap()[i])@ == clear_lsb(data[i]),
            },
    {
        let data = self.iknp.send_cot(io, size)?;
        io.flush();
        let out = mask_sender(&data);
        proof {
            assert forall|i: int| 0 <= i < size implies (#[trigger] out[i])@ == clear_lsb(views32(data@)[i]) by {
                assert(views32(data@)[i] == data[i]@);
            }
        }
        Ok(out)
    }

    /// The receiver's correlations for the choice bits `bits`, with the random values of the consistency
    /// check given by the caller: those of the extension, each with its lowest bit replaced by its
    /// choice bit.
    pub fn cot_gen_recv_with(
        &mut self,
        io: &mut CommunicationChannel,
        size: usize,
        bits: &Vec<bool>,
        local_r: Vec<bool>,
        seed: [u8; 16],
    ) -> (out: Vec<[u8; 32]>)
        requires
            old(self).ready(),
            old(self).party == Role::Receiver,
            old(io).wf(),
            bits.len() == size,
            local_r.len() == 2 * NUM_BITS,
            size <= usize::MAX - 2 * BLOCK_SIZE,
        ensures
            final(self).ready(),
            final(io).wf(),
            final(io).incoming == old(io).incoming,
            final(io).read_pos == old(io).read_pos,
            final(self).party == old(self).party,
            final(self).malicious == old(self).malicious,
            final(self).ot_delta == old(self).ot_delta,
            out.len() == size,
            forall|i: int|
                0 <= i < size ==> (#[trigger] out[i])@ == with_lsb(t_data(old(self).iknp.g0@, size as int)[i], bits[i]),
            final(self).iknp.g0@ == shift(
                old(self).iknp.g0@,
                frame_off(size as int, frame_count(size as int, old(self).malicious)),
            ),
            final(self).iknp.g1@ == shift(
                old(self).iknp.g1@,
                frame_off(size as int, frame_count(size as int, old(self).malicious)),
            ),
            final(io).written() == old(io).written() + crate::iknp::receiver_writes(
                old(self).iknp.g0@,
                old(self).iknp.g1@,
                bits@,
                local_r@,
                seed@,
                old(self).malicious,
                size as int,
            ),
    {
        let data = self.iknp.recv_cot_with(io, bits, size, local_r, seed);
        let out = mask_receiver(&data, bits);
        proof {
            assert forall|i: int| 0 <= i < size implies (#[trigger] out[i])@ == with_lsb(
                t_data(old(self).iknp.g0@, size as int)[i],
                bits[i],
            ) by {
                assert(views32(data@)[i] == data[i]@);
            }
        }
        out
    }

    /// The choice bits of a generation of the receiver: the given ones, unless the consistency check is
    /// switched on or none are given; then random ones.
    pub fn choose_bits(&self, size: usize, pre_bool: Option<&Vec<bool>>) -> (r: Vec<bool>)
        requires
            pre_bool matches Some(b) ==> b.len() == size,
        ensures
            r.len() == size,
            !self.malicious ==> (pre_bool matches Some(b) ==> r@ == b@),
    {
        match pre_bool {
            Some(b) => {
                if !self.malicious {
                    let r = b.clone();
                    assert(r@ =~= b@);
                    return r;
                }
            },
            None => {},
        }
        let mut prg = PRG::new(None, 0);
        prg.random_bool_array(size)
    }

    /// The correlations of one generation, `size` of them. The sender reads the receiver's messages; the
    /// receiver, who acts first, sends them. The receiver's choice bits are those of `choose_bits`, and
    /// each is the lowest bit of its correlation.
    pub fn cot_gen(&mut self, io: &mut CommunicationChannel, size: usize, pre_bool: Option<&Vec<bool>>) -> (r:
        Result<Vec<[u8; 32]>, VoleError>)
        requires
            old(self).ready(),
            old(io).wf(),
            size <= usize::MAX - 2 * BLOCK_SIZE,
            pre_bool matches Some(b) ==> b.len() == size,
        ensures
            final(self).ready(),
            final(io).wf(),
            final(self).party == old(self).party,
            final(self).malicious == old(self).malicious,
            final(self).ot_delta == old(self).ot_delta,
            r.is_ok() ==> r.unwrap().len() == size,
            old(self).party == Role::Sender ==> match send_cot_spec(
                old(self).iknp.g0@,
                old(self).iknp.s@,
                old(self).ot_delta.unwrap()@,
                old(self).malicious,
                old(io).unread(),
                size as int,
            ) {
                Err(e) => r == Err::<Vec<[u8; 32]>, VoleError>(e),
                Ok((data, rest)) => r.is_ok() && final(io).unread() == rest && forall|i: int|
                    0 <= i < size ==> (#[trigger] r.unwrap()[i])@ == clear_lsb(data[i]),
            },
            old(self).party == Role::Receiver ==> r.is_ok() && (forall|i: int|
                0 <= i < size ==> (#[trigger] r.unwrap()[i])@ == with_lsb(
                    t_data(old(self).iknp.g0@, size as int)[i],
                    lsb(r.unwrap()[i]@),
                )) && (!old(self).malicious ==> (pre_bool matches Some(b) ==> forall|i: int|
                0 <= i < size ==> lsb(#[trigger] r.unwrap()[i]@) == b[i])),
            old(self).party == Role::Receiver ==> final(io).incoming == old(io).incoming && final(io).read_pos == old(io).read_pos && final(self).iknp.g0@ == shift(
                old(self).iknp.g0@,
                frame_off(size as int, frame_count(size as int, old(self).malicious)),
            ) && final(self).iknp.g1@ == shift(
                old(self).iknp.g1@,
                frame_off(size as int, frame_count(size as int, old(self).malicious)),
            ) && exists|local_r: Seq<bool>, seed: Seq<u8>|
                local_r.len() == 2 * NUM_BITS && final(io).written() == old(io).written()
                    + #[trigger] crate::iknp::receiver_writes(
                    old(self).iknp.g0@,
                    old(self).iknp.g1@,
                    low_bits(r.unwrap()@),
                    local_r,
                    seed,
                    old(self).malicious,
                    size as int,
                ),
    {
        match self.party {
            Role::Sender => self.cot_gen_send(io, size),
            Role::Receiver => {
                let bits = self.choose_bits(size, pre_bool);
                let mut prg = PRG::new(None, 0);
                let local_r = prg.random_bool_array(2 * NUM_BITS);
                let seeds = prg.random_block(1);
                let ghost lr = local_r@;
                let out = self.cot_gen_recv_with(io, size, &bits, local_r, seeds[0]);
                proof {
                    assert forall|i: int| 0 <= i < size implies lsb(#[trigger] out[i]@) == bits[i] by {
                        lemma_with_lsb(t_data(old(self).iknp.g0@, size as int)[i], bits[i]);
                    }
                    assert(low_bits(out@) =~= bits@);
                }
                let ghost rows = out@;
                let res: Result<Vec<[u8; 32]>, VoleError> = Ok(out);
                assert(res.unwrap()@ == rows);
                assert(io.written() == old(io).written() + crate::iknp::receiver_writes(
                    old(self).iknp.g0@,
                    old(self).iknp.g1@,
                    low_bits(res.unwrap()@),
                    lr,
                    seeds[0]@,
                    old(self).malicious,
                    size as int,
                ));
                res
            },
        }
    }

    /// One generation of `pre_ot.n` correlations, fed into a buffer of precomputed transfers: the sender's
    /// with its key, the receiver's with its choice bits.
    pub fn cot_gen_preot(
        &mut self,
        io: &mut CommunicationChannel,
        pre_ot: &mut OTPre,
        size: usize,
        pre_bool: Option<&Vec<bool>>,
    ) -> (r: Result<(), VoleError>)
        requires
            old(self).ready(),
            old(io).wf(),
            old(pre_ot).wf(),
            size == old(pre_ot).n,
            size <= usize::MAX - 2 * BLOCK_SIZE,
            pre_bool matches Some(b) ==> b.len() == size,
        ensures
            final(self).ready(),
            final(io).wf(),
            final(pre_ot).wf(),
            final(self).party == old(self).party,
            final(self).malicious == old(self).malicious,
            final(self).ot_delta == old(self).ot_delta,
            final(pre_ot).n == old(pre_ot).n,
            final(pre_ot).length == old(pre_ot).length,
            final(pre_ot).count == old(pre_ot).count,
            r.is_err() ==> *final(pre_ot) == *old(pre_ot),
            old(self).party == Role::Receiver ==> final(io).incoming == old(io).incoming && final(io).read_pos == old(io).read_pos,
            old(self).party == Role::Sender ==> final(io).outgoing == old(io).outgoing,
            old(self).party == Role::Sender ==> match send_cot_spec(
                old(self).iknp.g0@,
                old(self).iknp.s@,
                old(self).ot_delta.unwrap()@,
                old(self).malicious,
                old(io).unread(),
                size as int,
            ) {
                Err(e) => r == Err::<(), VoleError>(e),
                Ok((data, rest)) => r.is_ok() && final(io).unread() == rest && final(pre_ot).delta == old(self).ot_delta && final(pre_ot).bits == old(pre_ot).bits && forall|i: int|
                    0 <= i < size ==> (#[trigger] final(pre_ot).pre_data[i])@ == crate::hash::ccrh(
                        clear_lsb(data[i]),
                    ) && final(pre_ot).pre_data[size + i]@ == crate::hash::ccrh(
                        xor_seq(clear_lsb(data[i]), old(self).ot_delta.unwrap()@),
                    ),
            },
            old(self).party == Role::Receiver ==> r.is_ok() && (forall|i: int|
                0 <= i < size ==> (#[trigger] final(pre_ot).pre_data[i])@ == crate::hash::ccrh(
                    with_lsb(t_data(old(self).iknp.g0@, size as int)[i], final(pre_ot).bits[i]),
                )) && (!old(self).malicious ==> (pre_bool matches Some(b) ==> final(pre_ot).bits@ == b@)),
            old(self).party == Role::Receiver ==> final(self).iknp.g0@ == shift(
                old(self).iknp.g0@,
                frame_off(size as int, frame_count(size as int, old(self).malicious)),
            ) && final(self).iknp.g1@ == shift(
                old(self).iknp.g1@,
                frame_off(size as int, frame_count(size as int, old(self).malicious)),
            ) && exists|local_r: Seq<bool>, seed: Seq<u8>|
                local_r.len() == 2 * NUM_BITS && final(io).written() == old(io).written()
                    + #[trigger] crate::iknp::receiver_writes(
                    old(self).iknp.g0@,
                    old(self).iknp.g1@,
                    final(pre_ot).bits@,
                    local_r,
                    seed,
                    old(self).malicious,
                    size as int,
                ),
    {
        match self.party {
            Role::Sender => {
                let data = self.cot_gen_send(io, size)?;
                let delta = match self.ot_delta {
                    Some(d) => d,
                    None => [0u8; 32],
                };
                pre_ot.send_pre(&data, delta);
                Ok(())
            },
            Role::Receiver => {
                let bits = self.choose_bits(size, pre_bool);
                let mut prg = PRG::new(None, 0);
                let local_r = prg.random_bool_array(2 * NUM_BITS);
                let seeds = prg.random_block(1);
                let ghost lr = local_r@;
                let data = self.cot_gen_recv_with(io, size, &bits, local_r, seeds[0]);
                pre_ot.recv_pre(&data, Some(&bits));
                assert(pre_ot.bits@ =~= bits@);
                assert(io.written() == old(io).written() + crate::iknp::receiver_writes(
                    old(self).iknp.g0@,
                    old(self).iknp.g1@,
                    pre_ot.bits@,
                    lr,
                    seeds[0]@,
                    old(self).malicious,
                    size as int,
                ));
                Ok(())
            },
        }
    }

    /// A check for tests, which gives the key away. The sender sends its key and its correlations; the
    /// receiver, who must find them in the channel, tells whether each is its own correlation plus the key
    /// where the lowest bit of its own is set. The sender's result is `true`.
    pub fn check_cot(&mut self, io: &mut CommunicationChannel, data: &Vec<[u8; 32]>, len: usize) -> (r: Result<
        bool,
        VoleError,
    >)
        requires
            old(io).wf(),
            data.len() == len,
            32 * len <= u64::MAX,
        ensures
            *final(self) == *old(self),
            final(io).wf(),
            old(self).party == Role::Sender ==> r == Ok::<bool, VoleError>(true) && final(io).written() == old(io).written() + (match old(self).ot_delta {
                Some(d) => blocks32_frame(seq![d@]),
                None => Seq::<u8>::empty(),
            }) + blocks32_frame(views32(data@)) && final(io).flushed == final(io).outgoing.len(),
            old(self).party == Role::Receiver ==> match parse_blocks32(old(io).unread()) {
                Err(e) => r == Err::<bool, VoleError>(e),
                Ok(ds) => if ds.len() != 1 {
                    r == Err::<bool, VoleError>(VoleError::WireFormat)
                } else {
                    let rest = old(io).unread().skip(frame_size(old(io).unread(), false) as int);
                    match parse_blocks32(rest) {
                        Err(e) => r == Err::<bool, VoleError>(e),
                        Ok(qs) => if qs.len() != len {
                            r == Err::<bool, VoleError>(VoleError::WireFormat)
                        } else {
                            r == Ok::<bool, VoleError>(
                                forall|i: int|
                                    0 <= i < len ==> xor_seq(#[trigger] qs[i], select_seq(lsb(data[i]@), ds[0]))
                                        == data[i]@,
                            )
                        },
                    }
                },
            },
    {
        match self.party {
            Role::Sender => {
                let ghost w0 = io.written();
                match self.ot_delta {
                    Some(delta) => {
                        let mut d: Vec<[u8; 32]> = Vec::new();
                        d.push(delta);
                        assert(views32(d@) =~= seq![delta@]);
                        io.send_32byte_block(&d);
                    },
                    None => {
                        assert(w0 + Seq::<u8>::empty() =~= w0);
                    },
                }
                io.send_32byte_block(data);
                io.flush();
                Ok(true)
            },
            Role::Receiver => {
                let ds = io.receive_32byte_block()?;
                if ds.len() != 1 {
                    return Err(VoleError::WireFormat);
                }
                let qs = io.receive_32byte_block()?;
                if qs.len() != len {
                    return Err(VoleError::WireFormat);
                }
                let zero = [0u8; 32];
                assert(zero@ =~= zeros(32));
                let mut ok = true;
                let mut i: usize = 0;
                while i < len
                    invariant
                        i <= len,
                        qs.len() == len,
                        data.len() == len,
                        ds.len() == 1,
                        zero@ == zeros(32),
                        ok == forall|j: int|
                            0 <= j < i ==> xor_seq(#[trigger] views32(qs@)[j], select_seq(lsb(data[j]@), ds[0]@))
                                == data[j]@,
                    decreases len - i,
                {
                    let shifted = if get_lsb(&data[i]) {
                        bitwise_xor(&qs[i], &ds[0])
                    } else {
                        bitwise_xor(&qs[i], &zero)
                    };
                    assert(views32(qs@)[i as int] == qs[i as int]@);
                    if !crate::field::bytes32_eq(&shifted, &data[i]) {
                        ok = false;
                    }
                    i += 1;
                }
                assert(views32(ds@)[0] == ds[0]@);
                Ok(ok)
            },
        }
    }
}

/// The lowest bit of the receiver's form of a correlation is its choice bit.
pub proof fn lemma_with_lsb(x: Seq<u8>, b: bool)
    requires
        x.len() == 32,
    ensures
        lsb(with_lsb(x, b)) == b,
        !lsb(clear_lsb(x)),
{
    let x0 = x[0];
    assert(((x0 & 0xfeu8) ^ 1u8) & 1u8 == 1u8) by (bit_vector);
    assert(((x0 & 0xfeu8) ^ 0u8) & 1u8 == 0u8) by (bit_vector);
    assert((x0 & 0xfeu8) & 1u8 == 0u8) by (bit_vector);
}

/// The low-bit law of a correlated transfer. Let `q = t ^ b * delta` with the lowest bit of `delta` set. Then
/// for the sender's form `q' = clear_lsb(q)` and the receiver's form `t' = with_lsb(t, b)`: the lowest bit
/// of `t'` is `b`, the lowest bit of `q'` is clear, and `q' ^ t' = b * delta`. So the lowest bits of `q'`
/// and `t'` agree exactly where `b` is clear.
pub proof fn lemma_cot_low_bit(q: Seq<u8>, t: Seq<u8>, b: bool, delta: Seq<u8>)
    requires
        q.len() == 32,
        t.len() == 32,
        delta.len() == 32,
        lsb(delta),
        q == xor_seq(t, select_seq(b, delta)),
    ensures
        lsb(with_lsb(t, b)) == b,
        !lsb(clear_lsb(q)),
        xor_seq(clear_lsb(q), with_lsb(t, b)) == select_seq(b, delta),
        (lsb(clear_lsb(q)) == lsb(with_lsb(t, b))) <==> !b,
{
    lemma_with_lsb(t, b);
    lemma_with_lsb(q, b);
    let lhs = xor_seq(clear_lsb(q), with_lsb(t, b));
    let rhs = select_seq(b, delta);
    assert forall|i: int| 0 <= i < 32 implies lhs[i] == rhs[i] by {
        let ti = t[i];
        let di = delta[i];
        if i == 0 {
            if b {
                assert(((ti ^ di) & 0xfeu8) ^ ((ti & 0xfeu8) ^ 1u8) == di) by (bit_vector)
                    requires
                        di & 1u8 == 1u8,
                ;
            } else {
                assert(((ti ^ 0u8) & 0xfeu8) ^ ((ti & 0xfeu8) ^ 0u8) == 0u8) by (bit_vector);
            }
        } else {
            if b {
                assert(((ti ^ di) & 0xffu8) ^ ((ti & 0xffu8) ^ 0u8) == di) by (bit_vector);
            } else {
                assert(((ti ^ 0u8) & 0xffu8) ^ ((ti & 0xffu8) ^ 0u8) == 0u8) by (bit_vector);
            }
        }
    }
    assert(lhs =~= rhs);
}

/// The low-bit law over one generation of both parties, without the consistency check. Let each generator
/// of the sender be the one of the receiver's two that the sender's choice bit selects, as the setup
/// leaves them, and let the sender find in the channel what the receiver's `cot_gen` wrote for its choice
/// bits `bits`. Then the sender's `cot_gen` reads all of it and succeeds; and for the row `q` that its
/// contract gives the sender at place `n` and the row `t` that its contract gives the receiver there:
/// the lowest bit of `t` is the choice bit, the lowest bit of `q` is clear, and `q ^ t` is the key where
/// the choice bit is set and zero where it is not.
pub proof fn lemma_cot_gen_pair(
    sender: BaseCot,
    receiver: BaseCot,
    bits: Seq<bool>,
    local_r: Seq<bool>,
    seed: Seq<u8>,
    size: int,
    rest: Seq<u8>,
    n: int,
)
    requires
        sender.ready(),
        receiver.ready(),
        sender.party == Role::Sender,
        receiver.party == Role::Receiver,
        !sender.malicious,
        !receiver.malicious,
        sender.ot_delta.unwrap()@ == delta_of(sender.iknp.s@),
        lsb(sender.ot_delta.unwrap()@),
        forall|i: int|
            0 <= i < 256 ==> #[trigger] sender.iknp.g0[i] == (if sender.iknp.s[i] {
                receiver.iknp.g1[i]
            } else {
                receiver.iknp.g0[i]
            }),
        bits.len() == size,
        0 <= n < size,
    ensures
        send_cot_spec(
            sender.iknp.g0@,
            sender.iknp.s@,
            sender.ot_delta.unwrap()@,
            false,
            crate::iknp::receiver_writes(receiver.iknp.g0@, receiver.iknp.g1@, bits, local_r, seed, false, size) + rest,
            size,
        ) matches Ok((data, left)) && left == rest && ({
            let q = clear_lsb(data[n]);
            let t = with_lsb(t_data(receiver.iknp.g0@, size)[n], bits[n]);
            &&& lsb(t) == bits[n]
            &&& !lsb(q)
            &&& xor_seq(q, t) == select_seq(bits[n], sender.ot_delta.unwrap()@)
        }),
{
    let delta = sender.ot_delta.unwrap()@;
    let written = crate::iknp::receiver_writes(receiver.iknp.g0@, receiver.iknp.g1@, bits, local_r, seed, false, size);
    let frames = crate::iknp::u_frames(
        receiver.iknp.g0@,
        receiver.iknp.g1@,
        bits,
        local_r,
        size,
        frame_count(size, false) as nat,
    );
    assert(written =~= frames);
    crate::iknp::lemma_cot_over_the_wire(
        sender.iknp.g0@,
        sender.iknp.s@,
        receiver.iknp.g0@,
        receiver.iknp.g1@,
        bits,
        local_r,
        size,
        rest,
        n,
    );
    let data = send_cot_spec(sender.iknp.g0@, sender.iknp.s@, delta, false, frames + rest, size).unwrap().0;
    let t = t_data(receiver.iknp.g0@, size)[n];
    crate::block::lemma_block_from_bits(
        |i: int|
            crate::iknp::t_bit(
                shift(receiver.iknp.g0@, frame_off(size, n / 2048)),
                crate::iknp::lbs_of(crate::iknp::frame_len(size, n / 2048)),
                i,
                n % 2048,
            ),
        0,
    );
    crate::block::lemma_block_from_bits(|i: int| sender.iknp.s@[i], 0);
    lemma_cot_low_bit(data[n], t, bits[n], delta);
}

} // verus!
