use vstd::prelude::*;
use crate::block::bit_at;
use crate::comm_channel::{field_frame, frame_size, parse_field, CommunicationChannel};
use crate::error::VoleError;
use crate::field::{all_wf, fadd, fmul, fsub, modulus, values, Fe};
use crate::iknp::{copy_blocks16, lemma_shift_zero, shift};
use crate::ot::OTCO;
use crate::prg::{lemma_wrap64, mix_id, stream_field, wrap64, PRG};
use crate::role::Role;

verus! {

/// Two to the power `i`, in the field.
pub open spec fn pow2f(i: nat) -> nat
    decreases i,
{
    if i == 0 {
        1
    } else {
        fmul(pow2f((i - 1) as nat), 2)
    }
}

/// The weighted sum of the first `n` rows: row `i` at weight `2^i`.
pub open spec fn fold(v: Seq<nat>, n: nat) -> nat
    decreases n,
{
    if n == 0 {
        0
    } else {
        fadd(fold(v, (n - 1) as nat), fmul(v[n - 1], pow2f((n - 1) as nat)))
    }
}

/// Column `j` of a table of rows.
pub open spec fn table_column(rows: Seq<Vec<Fe>>, j: int) -> Seq<nat> {
    Seq::new(rows.len(), |i: int| rows[i][j].value())
}

/// The sender's row for one bit of the key: its own draw, plus the receiver's correction where the bit
/// is set.
pub open spec fn sender_row(w: nat, tau: nat, bit: bool) -> nat {
    if bit {
        fadd(w, tau)
    } else {
        w
    }
}

/// The receiver's correction for one bit of the key: `w0 - (w1 + u)`.
pub open spec fn receiver_tau(w0: nat, w1: nat, u: nat) -> nat {
    fsub(w0, fadd(w1, u))
}

/// Column `j` of the sender's rows in a batch: one row for each bit of the key.
pub open spec fn sender_column(g0: Seq<PRG>, bits: Seq<bool>, tau: Seq<nat>, size: int, j: int) -> Seq<nat> {
    Seq::new(
        g0.len(),
        |i: int| sender_row(stream_field(g0[i].key@, g0[i].counter + 2 * j), tau[i * size + j], bits[i]),
    )
}

/// Column `j` of the draws of a family of generators in a batch.
pub open spec fn draw_column(g: Seq<PRG>, j: int) -> Seq<nat> {
    Seq::new(g.len(), |i: int| stream_field(g[i].key@, g[i].counter + 2 * j))
}

/// The receiver's corrections for the first `n` bits of the key in a batch, row after row.
pub open spec fn tau_rows(g0: Seq<PRG>, g1: Seq<PRG>, u: Seq<nat>, size: int, n: nat) -> Seq<nat>
    decreases n,
{
    if n == 0 {
        Seq::empty()
    } else {
        tau_rows(g0, g1, u, size, (n - 1) as nat) + Seq::new(
            size as nat,
            |j: int|
                receiver_tau(
                    stream_field(g0[n - 1].key@, g0[n - 1].counter + 2 * j),
                    stream_field(g1[n - 1].key@, g1[n - 1].counter + 2 * j),
                    u[j],
                ),
        )
    }
}

/// One party of the protocol that turns correlated transfers on the bits of the key into products with the
/// key: after an extension on the receiver's `u`, the sender holds `k` and the receiver `w`, each a weighted
/// sum of rows. The direction is the one that the steps give: the receiver's correction of a row is
/// `w0 - (w1 + u)`, so a row of the sender is the receiver's `w0` less `u` where the bit of the key is set,
/// and the shares satisfy `w = k + delta * u` (`lemma_cope_relation`). A caller who wants
/// `k = w + delta * u` hands in the negated value, as `crate::base_svole::BaseSvole` does.
#[derive(Clone)]
pub struct Cope {
    pub party: Role,
    /// The number of bits of the key, and of rows.
    pub m: usize,
    pub delta: Option<Fe>,
    /// The bits of the sender's key, lowest first.
    pub delta_bool: Vec<bool>,
    /// The sender's generators, or the receiver's first family.
    pub prg_g0: Vec<PRG>,
    /// The receiver's second family of generators.
    pub prg_g1: Vec<PRG>,
    pub powers_of_two: Vec<Fe>,
    pub ot: OTCO,
    /// The receiver's keys of the base transfers, kept between the two steps of its initialization.
    pub k0: Vec<[u8; 16]>,
    pub k1: Vec<[u8; 16]>,
}

impl Cope {
    /// The table of powers is complete, and there is one key bit for each row.
    pub open spec fn wf(&self) -> bool {
        &&& self.delta_bool.len() == self.m
        &&& self.powers_of_two.len() == self.m
        &&& forall|i: int|
            0 <= i < self.m ==> (#[trigger] self.powers_of_two[i]).wf() && self.powers_of_two[i].value() == pow2f(
                i as nat,
            )
    }

    /// The party has been initialized as the sender.
    pub open spec fn ready_sender(&self) -> bool {
        &&& self.wf()
        &&& self.prg_g0.len() == self.m
    }

    /// The party has been initialized as the receiver.
    pub open spec fn ready_receiver(&self) -> bool {
        &&& self.wf()
        &&& self.prg_g0.len() == self.m
        &&& self.prg_g1.len() == self.m
    }

    /// A party for keys of `m` bits, with the table of powers of two made.
    pub fn new(party: Role, m: usize) -> (r: Self)
        ensures
            r.wf(),
            r.party == party,
            r.m == m,
            r.delta.is_none(),
            r.prg_g0.len() == 0,
            r.prg_g1.len() == 0,
            forall|i: int| 0 <= i < m ==> !r.delta_bool[i],
    {
        let mut delta_bool: Vec<bool> = Vec::new();
        let mut i: usize = 0;
        while i < m
            invariant
                i <= m,
                delta_bool.len() == i,
                forall|j: int| 0 <= j < i ==> !delta_bool[j],
            decreases m - i,
        {
            delta_bool.push(false);
            i += 1;
        }
        let mut r = Cope {
            party,
            m,
            delta: None,
            delta_bool,
            prg_g0: Vec::new(),
            prg_g1: Vec::new(),
            powers_of_two: Vec::new(),
            ot: OTCO::new(),
            k0: Vec::new(),
            k1: Vec::new(),
        };
        r.precompute_powers_of_two();
        r
    }

    /// The lowest `m` bits of the encoding of the key; beyond the 256 bits of the encoding they are clear.
    pub fn delta_to_bool(delta: &Fe, m: usize) -> (r: Vec<bool>)
        ensures
            r.len() == m,
            forall|i: int| 0 <= i < m ==> #[trigger] r[i] == (i < 256 && bit_at(delta.bytes@, i)),
    {
        let bytes = delta.to_bytes_le();
        let mut r: Vec<bool> = Vec::new();
        let mut i: usize = 0;
        while i < m
            invariant
                i <= m,
                r.len() == i,
                bytes@ == delta.bytes@,
                forall|j: int| 0 <= j < i ==> #[trigger] r[j] == (j < 256 && bit_at(delta.bytes@, j)),
            decreases m - i,
        {
            if i < 256 {
                r.push(crate::block::get_bit(&bytes, i));
            } else {
                r.push(false);
            }
            i += 1;
        }
        r
    }

    /// Makes the table of the powers of two.
    fn precompute_powers_of_two(&mut self)
        ensures
            final(self).powers_of_two.len() == old(self).m,
            forall|i: int|
                0 <= i < old(self).m ==> (#[trigger] final(self).powers_of_two[i]).wf() && final(self).powers_of_two[i].value() == pow2f(i as nat),
            *final(self) == (Cope { powers_of_two: final(self).powers_of_two, ..*old(self) }),
    {
        let mut powers: Vec<Fe> = Vec::new();
        let base = Fe::from_u64(2);
        let mut i: usize = 0;
        while i < self.m
            invariant
                i <= self.m,
                *self == *old(self),
                base.value() == 2,
                powers.len() == i,
                forall|j: int| 0 <= j < i ==> (#[trigger] powers[j]).wf() && powers[j].value() == pow2f(j as nat),
            decreases self.m - i,
        {
            if i == 0 {
                powers.push(Fe::one());
            } else {
                let prev = powers[i - 1];
                powers.push(prev.mul(&base));
            }
            i += 1;
        }
        self.powers_of_two = powers;
    }

    /// The generators that the keys of the base transfers give: one for each key, at counter zero.
    fn make_generators(keys: &Vec<[u8; 16]>) -> (r: Vec<PRG>)
        ensures
            r.len() == keys.len(),
            forall|i: int|
                0 <= i < keys.len() ==> (#[trigger] r[i]).counter == 0 && r[i].key@ == mix_id(keys[i]@, 0),
    {
        let mut r: Vec<PRG> = Vec::new();
        let mut i: usize = 0;
        while i < keys.len()
            invariant
                i <= keys.len(),
                r.len() == i,
                forall|j: int| 0 <= j < i ==> (#[trigger] r[j]).counter == 0 && r[j].key@ == mix_id(keys[j]@, 0),
            decreases keys.len() - i,
        {
            r.push(PRG::new(Some(&keys[i]), 0));
            i += 1;
        }
        r
    }

    /// The first step of the sender's initialization: fixes the key, and takes the first step of the base
    /// transfers as their receiver, with the bits of the key as its choices. The receiver's first message
    /// must be in the channel.
    pub fn initialize_sender(&mut self, io: &mut CommunicationChannel, delta: Fe) -> (r: Result<(), VoleError>)
        requires
            old(self).wf(),
            old(io).wf(),
        ensures
            final(self).wf(),
            final(io).wf(),
            final(self).m == old(self).m,
            final(self).party == old(self).party,
            final(self).delta == Some(delta),
            forall|i: int|
                0 <= i < old(self).m ==> #[trigger] final(self).delta_bool[i] == (i < 256 && bit_at(delta.bytes@, i)),
            r.is_ok() ==> final(self).ot.scalars.len() == old(self).m && final(self).ot.choices@ == final(self).delta_bool@,
            match crate::comm_channel::parse_point(old(io).unread()) {
                Err(e) => r == Err::<(), VoleError>(e),
                Ok(a) => if !crate::ot::uncompressed(a) {
                    r == Err::<(), VoleError>(VoleError::InvalidEncoding)
                } else {
                    exists|bs: Seq<Seq<u8>>|
                        bs.len() == old(self).m && #[trigger] crate::ot::receiver_start(
                            a,
                            bs,
                            final(self).delta_bool@,
                            crate::ot::failure(r),
                            final(self).ot,
                            old(io).unread(),
                            final(io).unread(),
                            old(io).written(),
                            final(io).written(),
                        )
                },
            },
    {
        self.delta = Some(delta);
        self.delta_bool = Self::delta_to_bool(&delta, self.m);
        let choices = self.delta_bool.clone();
        assert(choices@ =~= self.delta_bool@);
        let r = self.ot.recv_start(io, &choices);
        proof {
            match crate::comm_channel::parse_point(old(io).unread()) {
                Ok(a) => {
                    if crate::ot::uncompressed(a) {
                        let bs = choose|bs: Seq<Seq<u8>>|
                            bs.len() == choices.len() && #[trigger] crate::ot::receiver_start(
                                a,
                                bs,
                                choices@,
                                crate::ot::failure(r),
                                self.ot,
                                old(io).unread(),
                                io.unread(),
                                old(io).written(),
                                io.written(),
                            );
                        assert(crate::ot::receiver_start(
                            a,
                            bs,
                            self.delta_bool@,
                            crate::ot::failure(r),
                            self.ot,
                            old(io).unread(),
                            io.unread(),
                            old(io).written(),
                            io.written(),
                        ));
                    }
                },
                Err(e) => {},
            }
        }
        r
    }

    /// The second step of the sender's initialization: opens the keys it chose in the base transfers and
    /// makes its generators from them.
    pub fn initialize_sender_finish(&mut self, io: &mut CommunicationChannel) -> (r: Result<(), VoleError>)
        requires
            old(self).wf(),
            old(io).wf(),
            old(self).ot.scalars.len() == old(self).m,
            old(self).ot.choices.len() == old(self).m,
        ensures
            final(self).wf(),
            final(io).wf(),
            final(io).outgoing == old(io).outgoing,
            final(self).m == old(self).m,
            final(self).party == old(self).party,
            final(self).delta == old(self).delta,
            final(self).delta_bool == old(self).delta_bool,
            match crate::comm_channel::parse_blocks16(old(io).unread()) {
                Err(e) => r == Err::<(), VoleError>(e),
                Ok(cts) => if cts.len() != 2 * old(self).m {
                    r == Err::<(), VoleError>(VoleError::WireFormat)
                } else {
                    match crate::ot::receiver_outputs(
                        old(self).ot.point_a@,
                        crate::ot::scalar_views(old(self).ot.scalars@),
                        old(self).ot.choices@,
                        cts,
                    ) {
                        Err(e) => r == Err::<(), VoleError>(e),
                        Ok(keys) => r == Ok::<(), VoleError>(()) && final(self).ready_sender() && final(io).unread()
                            == old(io).unread().skip(frame_size(old(io).unread(), false) as int) && forall|
                            i: int,
                        |
                            0 <= i < old(self).m ==> (#[trigger] final(self).prg_g0[i]).counter == 0 && final(self).prg_g0[i].key@ == mix_id(keys[i], 0),
                    }
                },
            },
    {
        let keys = self.ot.recv(io)?;
        proof {
            crate::collect::lemma_collect_ok(
                |i: int|
                    crate::ot::receiver_output(
                        self.ot.point_a@,
                        crate::ot::scalar_views(self.ot.scalars@),
                        self.ot.choices@,
                        crate::comm_channel::parse_blocks16(old(io).unread()).unwrap(),
                        i,
                    ),
                self.m as nat,
            );
        }
        self.prg_g0 = Self::make_generators(&keys);
        proof {
            assert forall|i: int| 0 <= i < self.m implies (#[trigger] self.prg_g0[i]).key@ == mix_id(
                crate::comm_channel::views16(keys@)[i],
                0,
            ) by {
                assert(crate::comm_channel::views16(keys@)[i] == keys[i]@);
            }
        }
        Ok(())
    }

    /// The first step of the receiver's initialization: draws two random keys for each bit of the sender's
    /// key, and takes the first step of the base transfers as their sender.
    pub fn initialize_receiver(&mut self, io: &mut CommunicationChannel)
        requires
            old(self).wf(),
            old(io).wf(),
        ensures
            final(self).wf(),
            final(io).wf(),
            final(io).incoming == old(io).incoming,
            final(io).read_pos == old(io).read_pos,
            final(self).m == old(self).m,
            final(self).party == old(self).party,
            final(self).k0.len() == old(self).m,
            final(self).k1.len() == old(self).m,
            final(self).ot.point_a@ == crate::crypto::p256_base_mul(final(self).ot.scalar@),
            final(io).written() == old(io).written() + crate::comm_channel::point_frame(final(self).ot.point_a@),
    {
        let mut key_prg = PRG::new(None, 0);
        self.k0 = key_prg.random_block(self.m);
        self.k1 = key_prg.random_block(self.m);
        self.ot.send_start(io);
    }

    /// The second step of the receiver's initialization: reads the sender's points, sends both keys of
    /// every base transfer under the keys derived from them, and makes its two families of generators.
    pub fn initialize_receiver_finish(&mut self, io: &mut CommunicationChannel) -> (r: Result<(), VoleError>)
        requires
            old(self).wf(),
            old(io).wf(),
            old(self).k0.len() == old(self).m,
            old(self).k1.len() == old(self).m,
            32 * old(self).m <= u64::MAX,
        ensures
            final(self).wf(),
            final(io).wf(),
            final(self).m == old(self).m,
            final(self).party == old(self).party,
            final(self).delta == old(self).delta,
            final(self).delta_bool == old(self).delta_bool,
            match crate::crypto::p256_mul(old(self).ot.point_a@, old(self).ot.scalar@) {
                None => r == Err::<(), VoleError>(VoleError::InvalidEncoding),
                Some(aa) => match crate::comm_channel::parse_points(old(io).unread(), old(self).m as nat) {
                    Err(e) => r == Err::<(), VoleError>(e),
                    Ok((points, rest)) => match crate::ot::sender_ciphertexts(
                        old(self).ot.scalar@,
                        aa,
                        points,
                        crate::comm_channel::views16(old(self).k0@),
                        crate::comm_channel::views16(old(self).k1@),
                    ) {
                        Err(e) => r == Err::<(), VoleError>(e),
                        Ok(cts) => {
                            &&& r == Ok::<(), VoleError>(())
                            &&& final(self).ready_receiver()
                            &&& final(io).unread() == rest
                            &&& final(io).written() == old(io).written() + crate::comm_channel::blocks16_frame(cts)
                            &&& forall|i: int|
                                0 <= i < old(self).m ==> (#[trigger] final(self).prg_g0[i]).counter == 0 && final(self).prg_g0[i].key@ == mix_id(old(self).k0[i]@, 0)
                            &&& forall|i: int|
                                0 <= i < old(self).m ==> (#[trigger] final(self).prg_g1[i]).counter == 0 && final(self).prg_g1[i].key@ == mix_id(old(self).k1[i]@, 0)
                        },
                    },
                },
            },
    {
        self.ot.send(io, &self.k0, &self.k1)?;
        self.prg_g0 = Self::make_generators(&self.k0);
        self.prg_g1 = Self::make_generators(&self.k1);
        Ok(())
    }

    /// One extension of the sender: reads the receiver's corrections and gives the sender's share `k`.
    pub fn extend_sender(&mut self, io: &mut CommunicationChannel) -> (r: Result<Fe, VoleError>)
        requires
            old(self).ready_sender(),
            old(io).wf(),
            old(self).m <= usize::MAX / 32,
        ensures
            final(self).ready_sender(),
            final(io).wf(),
            final(io).outgoing == old(io).outgoing,
            *final(self) == (Cope { prg_g0: final(self).prg_g0, ..*old(self) }),
            match parse_field(old(io).unread(), old(self).m as nat) {
                Err(e) => r == Err::<Fe, VoleError>(e) && final(self).prg_g0 == old(self).prg_g0,
                Ok(tau) => {
                    &&& r.is_ok()
                    &&& r.unwrap().wf()
                    &&& r.unwrap().value() == fold(
                        sender_column(old(self).prg_g0@, old(self).delta_bool@, tau, 1, 0),
                        old(self).m as nat,
                    )
                    &&& final(self).prg_g0@ == shift(old(self).prg_g0@, 2)
                    &&& final(io).unread() == old(io).unread().skip(frame_size(old(io).unread(), false) as int)
                },
            },
    {
        let out = self.extend_sender_batch(io, 1)?;
        Ok(out[0])
    }

    /// A batch of `size` extensions of the sender: reads the receiver's corrections, row after row, and
    /// gives the sender's shares `k`.
    pub fn extend_sender_batch(&mut self, io: &mut CommunicationChannel, size: usize) -> (r: Result<
        Vec<Fe>,
        VoleError,
    >)
        requires
            old(self).ready_sender(),
            old(io).wf(),
            old(self).m * size <= usize::MAX / 32,
        ensures
            final(self).ready_sender(),
            final(io).wf(),
            final(io).outgoing == old(io).outgoing,
            *final(self) == (Cope { prg_g0: final(self).prg_g0, ..*old(self) }),
            match parse_field(old(io).unread(), (old(self).m * size) as nat) {
                Err(e) => r == Err::<Vec<Fe>, VoleError>(e) && final(self).prg_g0 == old(self).prg_g0,
                Ok(tau) => {
                    &&& r.is_ok()
                    &&& r.unwrap().len() == size
                    &&& all_wf(r.unwrap()@)
                    &&& forall|j: int|
                        0 <= j < size ==> (#[trigger] r.unwrap()[j]).value() == fold(
                            sender_column(old(self).prg_g0@, old(self).delta_bool@, tau, size as int, j),
                            old(self).m as nat,
                        )
                    &&& final(self).prg_g0@ == shift(old(self).prg_g0@, 2 * size)
                    &&& final(io).unread() == old(io).unread().skip(frame_size(old(io).unread(), false) as int)
                },
            },
    {
        let m = self.m;
        let tau = io.receive_stark252(m * size)?;
        let ghost tau_vals = values(tau@);
        let ghost g_old = self.prg_g0@;
        let mut acc = zero_vector(size);
        let mut i: usize = 0;
        while i < m
            invariant
                i <= m,
                m == self.m,
                self.ready_sender(),
                *self == (Cope { prg_g0: self.prg_g0, ..*old(self) }),
                g_old == old(self).prg_g0@,
                g_old.len() == m,
                tau.len() == m * size,
                tau_vals == values(tau@),
                all_wf(tau@),
                acc.len() == size,
                all_wf(acc@),
                forall|k: int| 0 <= k < i ==> #[trigger] self.prg_g0[k] == shift(g_old, 2 * size)[k],
                forall|k: int| i <= k < m ==> #[trigger] self.prg_g0[k] == g_old[k],
                forall|j: int|
                    0 <= j < size ==> (#[trigger] acc[j]).value() == fold(
                        sender_column(g_old, self.delta_bool@, tau_vals, size as int, j),
                        i as nat,
                    ),
            decreases m - i,
        {
            let mut g = self.prg_g0[i];
            let w = g.random_stark252_elements(size);
            self.prg_g0[i] = g;
            proof {
                lemma_wrap64(g_old[i as int].counter + 2 * size);
                let e = shift(g_old, 2 * size)[i as int];
                assert(e.counter == g.counter);
                assert(e.key == g.key);
            }
            let bit = self.delta_bool[i];
            let power = self.powers_of_two[i];
            assert(i * size + size <= m * size) by (nonlinear_arith)
                requires
                    i < m,
            ;
            let mut j: usize = 0;
            while j < size
                invariant
                    j <= size,
                    i < m,
                    i * size + size <= m * size,
                    tau.len() == m * size,
                    tau_vals == values(tau@),
                    all_wf(tau@),
                    w.len() == size,
                    g_old.len() == m,
                    self.delta_bool.len() == m,
                    bit == self.delta_bool[i as int],
                    power.wf(),
                    power.value() == pow2f(i as nat),
                    forall|jj: int|
                        0 <= jj < size ==> (#[trigger] w[jj]).wf() && w[jj].value() == stream_field(
                            g_old[i as int].key@,
                            g_old[i as int].counter + 2 * jj,
                        ),
                    acc.len() == size,
                    all_wf(acc@),
                    forall|jj: int|
                        0 <= jj < j ==> (#[trigger] acc[jj]).value() == fold(
                            sender_column(g_old, self.delta_bool@, tau_vals, size as int, jj),
                            (i + 1) as nat,
                        ),
                    forall|jj: int|
                        j <= jj < size ==> (#[trigger] acc[jj]).value() == fold(
                            sender_column(g_old, self.delta_bool@, tau_vals, size as int, jj),
                            i as nat,
                        ),
                decreases size - j,
            {
                let t = tau[i * size + j];
                assert(tau_vals[i * size + j] == t.value());
                let v = if bit {
                    w[j].add(&t)
                } else {
                    w[j]
                };
                let a = acc[j];
                acc[j] = a.add(&v.mul(&power));
                proof {
                    let col = sender_column(g_old, self.delta_bool@, tau_vals, size as int, j as int);
                    assert(col[i as int] == v.value());
                    assert forall|jj: int| 0 <= jj < size implies #[trigger] acc[jj].wf() by {
                        if jj != j {
                        }
                    }
                }
                j += 1;
            }
            i += 1;
        }
        proof {
            assert(self.prg_g0@ =~= shift(g_old, 2 * size));
        }
        Ok(acc)
    }

    /// One extension of the receiver on its value `u`: sends the corrections and gives the receiver's
    /// share `w`.
    pub fn extend_receiver(&mut self, io: &mut CommunicationChannel, u: Fe) -> (r: Fe)
        requires
            old(self).ready_receiver(),
            old(io).wf(),
            old(self).m <= usize::MAX / 32,
        ensures
            final(self).ready_receiver(),
            final(io).wf(),
            final(io).incoming == old(io).incoming,
            final(io).read_pos == old(io).read_pos,
            *final(self) == (Cope { prg_g0: final(self).prg_g0, prg_g1: final(self).prg_g1, ..*old(self) }),
            r.wf(),
            r.value() == fold(draw_column(old(self).prg_g0@, 0), old(self).m as nat),
            final(self).prg_g0@ == shift(old(self).prg_g0@, 2),
            final(self).prg_g1@ == shift(old(self).prg_g1@, 2),
            final(io).written() == old(io).written() + field_frame(
                tau_rows(old(self).prg_g0@, old(self).prg_g1@, seq![u.value()], 1, old(self).m as nat),
            ),
    {
        let mut us: Vec<Fe> = Vec::new();
        us.push(u);
        assert(values(us@) =~= seq![u.value()]);
        let out = self.extend_receiver_batch(io, &us, 1);
        out[0]
    }

    /// A batch of `size` extensions of the receiver on its values `u`: sends the corrections, row after
    /// row, and gives the receiver's shares `w`.
    pub fn extend_receiver_batch(&mut self, io: &mut CommunicationChannel, u: &Vec<Fe>, size: usize) -> (r: Vec<
        Fe,
    >)
        requires
            old(self).ready_receiver(),
            old(io).wf(),
            u.len() == size,
            old(self).m * size <= usize::MAX / 32,
        ensures
            final(self).ready_receiver(),
            final(io).wf(),
            final(io).incoming == old(io).incoming,
            final(io).read_pos == old(io).read_pos,
            *final(self) == (Cope { prg_g0: final(self).prg_g0, prg_g1: final(self).prg_g1, ..*old(self) }),
            r.len() == size,
            all_wf(r@),
            forall|j: int|
                0 <= j < size ==> (#[trigger] r[j]).value() == fold(draw_column(old(self).prg_g0@, j), old(self).m as nat),
            final(self).prg_g0@ == shift(old(self).prg_g0@, 2 * size),
            final(self).prg_g1@ == shift(old(self).prg_g1@, 2 * size),
            final(io).written() == old(io).written() + field_frame(
                tau_rows(old(self).prg_g0@, old(self).prg_g1@, values(u@), size as int, old(self).m as nat),
            ),
    {
        let m = self.m;
        let ghost g0_old = self.prg_g0@;
        let ghost g1_old = self.prg_g1@;
        let ghost u_vals = values(u@);
        let mut acc = zero_vector(size);
        let mut tau: Vec<Fe> = Vec::new();
        let mut i: usize = 0;
        assert(values(tau@) =~= tau_rows(g0_old, g1_old, u_vals, size as int, 0));
        while i < m
            invariant
                i <= m,
                m == self.m,
                self.ready_receiver(),
                *self == (Cope { prg_g0: self.prg_g0, prg_g1: self.prg_g1, ..*old(self) }),
                g0_old == old(self).prg_g0@,
                g1_old == old(self).prg_g1@,
                g0_old.len() == m,
                g1_old.len() == m,
                u.len() == size,
                u_vals == values(u@),
                m * size <= usize::MAX / 32,
                tau.len() == i * size,
                values(tau@) == tau_rows(g0_old, g1_old, u_vals, size as int, i as nat),
                acc.len() == size,
                all_wf(acc@),
                forall|k: int| 0 <= k < i ==> #[trigger] self.prg_g0[k] == shift(g0_old, 2 * size)[k],
                forall|k: int| i <= k < m ==> #[trigger] self.prg_g0[k] == g0_old[k],
                forall|k: int| 0 <= k < i ==> #[trigger] self.prg_g1[k] == shift(g1_old, 2 * size)[k],
                forall|k: int| i <= k < m ==> #[trigger] self.prg_g1[k] == g1_old[k],
                forall|j: int|
                    0 <= j < size ==> (#[trigger] acc[j]).value() == fold(draw_column(g0_old, j), i as nat),
            decreases m - i,
        {
            let mut g0 = self.prg_g0[i];
            let w0 = g0.random_stark252_elements(size);
            self.prg_g0[i] = g0;
            let mut g1 = self.prg_g1[i];
            let w1 = g1.random_stark252_elements(size);
            self.prg_g1[i] = g1;
            proof {
                lemma_wrap64(g0_old[i as int].counter + 2 * size);
                lemma_wrap64(g1_old[i as int].counter + 2 * size);
                let e0 = shift(g0_old, 2 * size)[i as int];
                assert(e0.counter == g0.counter && e0.key == g0.key);
                let e1 = shift(g1_old, 2 * size)[i as int];
                assert(e1.counter == g1.counter && e1.key == g1.key);
            }
            let power = self.powers_of_two[i];
            let ghost tau_before = values(tau@);
            assert(i * size + size <= m * size) by (nonlinear_arith)
                requires
                    i < m,
            ;
            assert((i + 1) * size == i * size + size) by (nonlinear_arith);
            let ghost row = Seq::new(
                size as nat,
                |j: int|
                    receiver_tau(
                        stream_field(g0_old[i as int].key@, g0_old[i as int].counter + 2 * j),
                        stream_field(g1_old[i as int].key@, g1_old[i as int].counter + 2 * j),
                        u_vals[j],
                    ),
            );
            let mut j: usize = 0;
            while j < size
                invariant
                    j <= size,
                    i < m,
                    u.len() == size,
                    u_vals == values(u@),
                    w0.len() == size,
                    w1.len() == size,
                    g0_old.len() == m,
                    g1_old.len() == m,
                    power.wf(),
                    power.value() == pow2f(i as nat),
                    tau.len() == i * size + j,
                    i * size + size <= m * size,
                    m * size <= usize::MAX / 32,
                    row.len() == size,
                    forall|jj: int|
                        0 <= jj < size ==> #[trigger] row[jj] == receiver_tau(
                            stream_field(g0_old[i as int].key@, g0_old[i as int].counter + 2 * jj),
                            stream_field(g1_old[i as int].key@, g1_old[i as int].counter + 2 * jj),
                            u_vals[jj],
                        ),
                    values(tau@) == tau_before + row.take(j as int),
                    forall|jj: int|
                        0 <= jj < size ==> (#[trigger] w0[jj]).wf() && w0[jj].value() == stream_field(
                            g0_old[i as int].key@,
                            g0_old[i as int].counter + 2 * jj,
                        ),
                    forall|jj: int|
                        0 <= jj < size ==> (#[trigger] w1[jj]).wf() && w1[jj].value() == stream_field(
                            g1_old[i as int].key@,
                            g1_old[i as int].counter + 2 * jj,
                        ),
                    acc.len() == size,
                    all_wf(acc@),
                    forall|jj: int|
                        0 <= jj < j ==> (#[trigger] acc[jj]).value() == fold(draw_column(g0_old, jj), (i + 1) as nat),
                    forall|jj: int|
                        j <= jj < size ==> (#[trigger] acc[jj]).value() == fold(draw_column(g0_old, jj), i as nat),
                decreases size - j,
            {
                let shifted = w1[j].add(&u[j]);
                let t = w0[j].sub(&shifted);
                let ghost before = values(tau@);
                tau.push(t);
                let a = acc[j];
                acc[j] = a.add(&w0[j].mul(&power));
                proof {
                    assert(u_vals[j as int] == u[j as int].value());
                    assert(t.value() == row[j as int]);
                    assert(values(tau@) =~= before.push(t.value()));
                    assert(row.take(j as int).push(row[j as int]) =~= row.take(j as int + 1));
                    assert(values(tau@) =~= tau_before + row.take(j as int + 1));
                    let col = draw_column(g0_old, j as int);
                    assert(col[i as int] == w0[j as int].value());
                    assert forall|jj: int| 0 <= jj < size implies #[trigger] acc[jj].wf() by {
                        if jj != j {
                        }
                    }
                }
                j += 1;
            }
            proof {
                assert(row.take(size as int) =~= row);
                assert(tau_rows(g0_old, g1_old, u_vals, size as int, (i + 1) as nat) == tau_before + row);
            }
            i += 1;
        }
        proof {
            assert(self.prg_g0@ =~= shift(g0_old, 2 * size));
            assert(self.prg_g1@ =~= shift(g1_old, 2 * size));
            assert(tau.len() == m * size);
        }
        io.send_stark252(&tau);
        acc
    }

    /// The weighted sums of the columns of a table of `m` rows of `size` entries: the entry of row `i` at
    /// weight `2^i`.
    pub fn prm2pr_batch(&self, elements: &Vec<Vec<Fe>>, size: usize) -> (r: Vec<Fe>)
        requires
            self.wf(),
            elements.len() == self.m,
            forall|i: int| 0 <= i < self.m ==> (#[trigger] elements[i]).len() == size,
        ensures
            r.len() == size,
            all_wf(r@),
            forall|j: int|
                0 <= j < size ==> (#[trigger] r[j]).value() == fold(table_column(elements@, j), self.m as nat),
    {
        let mut r: Vec<Fe> = Vec::new();
        let mut j: usize = 0;
        while j < size
            invariant
                j <= size,
                self.wf(),
                elements.len() == self.m,
                forall|i: int| 0 <= i < self.m ==> (#[trigger] elements[i]).len() == size,
                r.len() == j,
                all_wf(r@),
                forall|q: int|
                    0 <= q < j ==> (#[trigger] r[q]).value() == fold(table_column(elements@, q), self.m as nat),
            decreases size - j,
        {
            let mut acc = Fe::zero();
            let mut i: usize = 0;
            while i < self.m
                invariant
                    i <= self.m,
                    j < size,
                    self.wf(),
                    elements.len() == self.m,
                    forall|k: int| 0 <= k < self.m ==> (#[trigger] elements[k]).len() == size,
                    acc.wf(),
                    acc.value() == fold(table_column(elements@, j as int), i as nat),
                decreases self.m - i,
            {
                assert(elements[i as int].len() == size);
                assert(table_column(elements@, j as int)[i as int] == elements[i as int][j as int].value());
                acc = acc.add(&elements[i][j].mul(&self.powers_of_two[i]));
                i += 1;
            }
            r.push(acc);
            j += 1;
        }
        r
    }

    /// The weighted sum of rows: row `i` at weight `2^i`.
    pub fn prm2pr(&self, elements: &Vec<Fe>) -> (r: Fe)
        requires
            self.wf(),
            elements.len() == self.m,
        ensures
            r.wf(),
            r.value() == fold(values(elements@), self.m as nat),
    {
        let mut acc = Fe::zero();
        let mut i: usize = 0;
        while i < self.m
            invariant
                i <= self.m,
                self.wf(),
                elements.len() == self.m,
                acc.wf(),
                acc.value() == fold(values(elements@), i as nat),
            decreases self.m - i,
        {
            assert(values(elements@)[i as int] == elements[i as int].value());
            acc = acc.add(&elements[i].mul(&self.powers_of_two[i]));
            i += 1;
        }
        acc
    }

    /// A check for tests, which gives the key away. The sender sends its key `a[0]` and its shares `b`; the
    /// receiver, who must find them in the channel, tells whether each of its shares `b[i]` is the sender's
    /// share plus the key times its value `a[i]`. The sender's result is `true`.
    pub fn check_triple(&mut self, io: &mut CommunicationChannel, a: &Vec<Fe>, b: &Vec<Fe>, sz: usize) -> (r:
        Result<bool, VoleError>)
        requires
            old(io).wf(),
            old(self).party == Role::Receiver ==> a.len() >= sz && b.len() >= sz,
            a.len() <= u64::MAX / 32,
            b.len() <= u64::MAX / 32,
        ensures
            *final(self) == *old(self),
            final(io).wf(),
            old(self).party == Role::Sender ==> r == Ok::<bool, VoleError>(true) && final(io).written() == old(io).written() + field_frame(values(a@)) + field_frame(values(b@)),
            old(self).party == Role::Receiver ==> match parse_field(old(io).unread(), 1) {
                Err(e) => r == Err::<bool, VoleError>(e),
                Ok(d) => {
                    let rest = old(io).unread().skip(frame_size(old(io).unread(), false) as int);
                    match parse_field(rest, sz as nat) {
                        Err(e) => r == Err::<bool, VoleError>(e),
                        Ok(c) => r == Ok::<bool, VoleError>(
                            forall|i: int|
                                0 <= i < sz ==> #[trigger] b[i].bytes@ == crate::block::le_bytes(
                                    fadd(fmul(a[i].value(), d[0]), c[i]),
                                    32,
                                ),
                        ),
                    }
                },
            },
    {
        match self.party {
            Role::Sender => {
                io.send_stark252(a);
                io.send_stark252(b);
                Ok(true)
            },
            Role::Receiver => {
                let d = io.receive_stark252(1)?;
                let c = io.receive_stark252(sz)?;
                let delta = d[0];
                let mut ok = true;
                let mut i: usize = 0;
                while i < sz
                    invariant
                        i <= sz,
                        a.len() >= sz,
                        b.len() >= sz,
                        c.len() == sz,
                        delta == d[0],
                        ok == forall|j: int|
                            0 <= j < i ==> #[trigger] b[j].bytes@ == crate::block::le_bytes(
                                fadd(fmul(a[j].value(), delta.value()), c[j].value()),
                                32,
                            ),
                    decreases sz - i,
                {
                    let expected = a[i].mul(&delta).add(&c[i]);
                    proof {
                        crate::block::lemma_fe_bytes(expected);
                    }
                    if !b[i].equals(&expected) {
                        ok = false;
                    }
                    i += 1;
                }
                proof {
                    assert(values(d@)[0] == d[0].value());
                    assert forall|j: int| 0 <= j < sz implies values(c@)[j] == c[j].value() by {}
                }
                Ok(ok)
            },
        }
    }
}

/// `n` zeros of the field.
pub fn zero_vector(n: usize) -> (r: Vec<Fe>)
    ensures
        r.len() == n,
        all_wf(r@),
        forall|i: int| 0 <= i < n ==> (#[trigger] r[i]).value() == 0,
{
    let mut r: Vec<Fe> = Vec::new();
    let mut i: usize = 0;
    while i < n
        invariant
            i <= n,
            r.len() == i,
            all_wf(r@),
            forall|j: int| 0 <= j < i ==> (#[trigger] r[j]).value() == 0,
        decreases n - i,
    {
        r.push(Fe::zero());
        i += 1;
    }
    r
}


/// The value that the first `n` bits stand for, in the field: bit `i` at weight `2^i`.
pub open spec fn bits_fold(bits: Seq<bool>, n: nat) -> nat
    decreases n,
{
    if n == 0 {
        0
    } else {
        fadd(bits_fold(bits, (n - 1) as nat), if bits[n - 1] {
            pow2f((n - 1) as nat)
        } else {
            0
        })
    }
}

/// The corrections of a batch lie row after row: that of row `i` and column `j` is at `i * size + j`.
pub proof fn lemma_tau_rows_index(g0: Seq<PRG>, g1: Seq<PRG>, u: Seq<nat>, size: int, n: nat, i: int, j: int)
    requires
        0 <= i < n,
        0 <= j < size,
    ensures
        tau_rows(g0, g1, u, size, n).len() == n * size,
        tau_rows(g0, g1, u, size, n)[i * size + j] == receiver_tau(
            stream_field(g0[i].key@, g0[i].counter + 2 * j),
            stream_field(g1[i].key@, g1[i].counter + 2 * j),
            u[j],
        ),
    decreases n,
{
    lemma_tau_rows_len(g0, g1, u, size, (n - 1) as nat);
    assert((n - 1) * size + size == n * size) by (nonlinear_arith);
    if i < n - 1 {
        lemma_tau_rows_index(g0, g1, u, size, (n - 1) as nat, i, j);
        assert(i * size + j < (n - 1) * size) by (nonlinear_arith)
            requires
                0 <= i < n - 1,
                0 <= j < size,
        ;
    } else {
        assert(i * size + j - (n - 1) * size == j) by (nonlinear_arith)
            requires
                i == n - 1,
        ;
    }
}

/// The corrections of `n` rows are `n * size` in number.
pub proof fn lemma_tau_rows_len(g0: Seq<PRG>, g1: Seq<PRG>, u: Seq<nat>, size: int, n: nat)
    requires
        0 <= size,
    ensures
        tau_rows(g0, g1, u, size, n).len() == n * size,
    decreases n,
{
    if n > 0 {
        lemma_tau_rows_len(g0, g1, u, size, (n - 1) as nat);
        assert((n - 1) * size + size == n * size) by (nonlinear_arith);
    } else {
        assert(0 * size == 0) by (nonlinear_arith);
    }
}

/// One row more keeps the relation between the two weighted sums.
proof fn lemma_cope_step(fc: nat, fb: nat, fd: nat, w0: nat, w1: nat, u: nat, p: nat, bit: bool)
    requires
        crate::field_laws::cong(fc as int + fb as int * u as int, fd as int),
    ensures
        crate::field_laws::cong(
            fadd(fc, fmul(sender_row(if bit {
                w1
            } else {
                w0
            }, receiver_tau(w0, w1, u), bit), p)) as int + fadd(fb, if bit {
                p
            } else {
                0
            }) as int * u as int,
            fadd(fd, fmul(w0, p)) as int,
        ),
{
    let v = sender_row(if bit {
        w1
    } else {
        w0
    }, receiver_tau(w0, w1, u), bit);
    let e: nat = if bit {
        p
    } else {
        0
    };
    let vi: int = if bit {
        w0 as int - u as int
    } else {
        w0 as int
    };
    // v is congruent to vi
    crate::field_laws::lemma_cong_refl(w0 as int, 0);
    crate::field_laws::lemma_cong_refl(w1 as int, 0);
    crate::field_laws::lemma_cong_refl(u as int, 0);
    crate::field_laws::lemma_cong_refl(p as int, 0);
    crate::field_laws::lemma_cong_refl(fc as int, 0);
    crate::field_laws::lemma_cong_refl(fb as int, 0);
    crate::field_laws::lemma_cong_refl(e as int, 0);
    if bit {
        crate::field_laws::lemma_fadd_cong(w1, u, w1 as int, u as int);
        crate::field_laws::lemma_fsub_cong(w0, fadd(w1, u), w0 as int, w1 as int + u as int);
        crate::field_laws::lemma_fadd_cong(w1, receiver_tau(w0, w1, u), w1 as int, w0 as int - (w1 as int + u as int));
        assert(w1 as int + (w0 as int - (w1 as int + u as int)) == vi);
    }
    assert(crate::field_laws::cong(v as int, vi));
    crate::field_laws::lemma_fmul_cong(v, p, vi, p as int);
    crate::field_laws::lemma_fadd_cong(fc, fmul(v, p), fc as int, vi * p as int);
    crate::field_laws::lemma_fadd_cong(fb, e, fb as int, e as int);
    let x = fadd(fc, fmul(v, p)) as int;
    let y = fadd(fb, e) as int;
    crate::field_laws::lemma_cong_mul(y, fb as int + e as int, u as int, u as int);
    crate::field_laws::lemma_cong_add(x, fc as int + vi * p as int, y * u as int, (fb as int + e as int) * u as int);
    let mid = (fc as int + vi * p as int) + (fb as int + e as int) * u as int;
    assert(mid == (fc as int + fb as int * u as int) + w0 as int * p as int) by (nonlinear_arith)
        requires
            mid == (fc as int + vi * p as int) + (fb as int + e as int) * u as int,
            bit ==> vi == w0 as int - u as int && e == p,
            !bit ==> vi == w0 as int && e == 0,
    ;
    crate::field_laws::lemma_cong_refl(w0 as int * p as int, 0);
    crate::field_laws::lemma_cong_add(
        fc as int + fb as int * u as int,
        fd as int,
        w0 as int * p as int,
        w0 as int * p as int,
    );
    crate::field_laws::lemma_cong_trans(x + y * u as int, mid, fd as int + w0 as int * p as int);
    crate::field_laws::lemma_fmul_cong(w0, p, w0 as int, p as int);
    crate::field_laws::lemma_cong_refl(fd as int, 0);
    crate::field_laws::lemma_fadd_cong(fd, fmul(w0, p), fd as int, w0 as int * p as int);
    crate::field_laws::lemma_cong_refl(fadd(fd, fmul(w0, p)) as int, fd as int + w0 as int * p as int);
    crate::field_laws::lemma_cong_trans(
        x + y * u as int,
        fd as int + w0 as int * p as int,
        fadd(fd, fmul(w0, p)) as int,
    );
}

/// The relation of the first `n` rows of an extension, up to congruence.
proof fn lemma_cope_rows(
    sg: Seq<PRG>,
    bits: Seq<bool>,
    rg0: Seq<PRG>,
    rg1: Seq<PRG>,
    u: Seq<nat>,
    size: int,
    j: int,
    m: nat,
    n: nat,
)
    requires
        sg.len() == m,
        rg0.len() == m,
        rg1.len() == m,
        bits.len() == m,
        n <= m,
        0 <= j < size,
        forall|i: int|
            0 <= i < m ==> #[trigger] sg[i] == (if bits[i] {
                rg1[i]
            } else {
                rg0[i]
            }),
    ensures
        crate::field_laws::cong(
            fold(sender_column(sg, bits, tau_rows(rg0, rg1, u, size, m), size, j), n) as int + bits_fold(bits, n) as int
                * u[j] as int,
            fold(draw_column(rg0, j), n) as int,
        ),
    decreases n,
{
    if n == 0 {
        assert(0int + 0int * u[j] as int == 0) by (nonlinear_arith);
        crate::field_laws::lemma_cong_refl(0, 0);
    } else {
        let k = (n - 1) as nat;
        lemma_cope_rows(sg, bits, rg0, rg1, u, size, j, m, k);
        let tau = tau_rows(rg0, rg1, u, size, m);
        let col = sender_column(sg, bits, tau, size, j);
        let dc = draw_column(rg0, j);
        lemma_tau_rows_index(rg0, rg1, u, size, m, k as int, j);
        let w0 = stream_field(rg0[k as int].key@, rg0[k as int].counter + 2 * j);
        let w1 = stream_field(rg1[k as int].key@, rg1[k as int].counter + 2 * j);
        assert(sg[k as int] == (if bits[k as int] {
            rg1[k as int]
        } else {
            rg0[k as int]
        }));
        assert(col[k as int] == sender_row(if bits[k as int] {
            w1
        } else {
            w0
        }, receiver_tau(w0, w1, u[j]), bits[k as int]));
        assert(dc[k as int] == w0);
        lemma_cope_step(fold(col, k), bits_fold(bits, k), fold(dc, k), w0, w1, u[j], pow2f(k), bits[k as int]);
    }
}

/// The relation of an extension. Let the sender's generator for each bit of the key be the one of the
/// receiver's two that the bit selects, and let the sender read the corrections that the receiver made for
/// its values `u`. Then in every column `j` the receiver's share is the sender's share plus the key, as its
/// bits give it, times `u[j]`: `w = k + delta * u`.
pub proof fn lemma_cope_relation(
    sg: Seq<PRG>,
    bits: Seq<bool>,
    rg0: Seq<PRG>,
    rg1: Seq<PRG>,
    u: Seq<nat>,
    size: int,
    j: int,
    m: nat,
)
    requires
        sg.len() == m,
        rg0.len() == m,
        rg1.len() == m,
        bits.len() == m,
        0 <= j < size,
        forall|i: int|
            0 <= i < m ==> #[trigger] sg[i] == (if bits[i] {
                rg1[i]
            } else {
                rg0[i]
            }),
    ensures
        fadd(
            fold(sender_column(sg, bits, tau_rows(rg0, rg1, u, size, m), size, j), m),
            fmul(bits_fold(bits, m), u[j]),
        ) == fold(draw_column(rg0, j), m),
{
    lemma_cope_rows(sg, bits, rg0, rg1, u, size, j, m, m);
    let k = fold(sender_column(sg, bits, tau_rows(rg0, rg1, u, size, m), size, j), m);
    let d = bits_fold(bits, m);
    let w = fold(draw_column(rg0, j), m);
    crate::field_laws::lemma_cong_refl(k as int, 0);
    crate::field_laws::lemma_cong_refl(d as int, 0);
    crate::field_laws::lemma_cong_refl(u[j] as int, 0);
    crate::field_laws::lemma_fmul_cong(d, u[j], d as int, u[j] as int);
    crate::field_laws::lemma_fadd_cong(k, fmul(d, u[j]), k as int, d as int * u[j] as int);
    crate::field_laws::lemma_cong_trans(fadd(k, fmul(d, u[j])) as int, k as int + d as int * u[j] as int, w as int);
    crate::field_laws::lemma_field_ops(k, fmul(d, u[j]));
    lemma_fold_bound(draw_column(rg0, j), m);
    crate::field_laws::lemma_cong_eq(fadd(k, fmul(d, u[j])) as int, w as int);
}

/// A weighted sum is a number below the prime.
pub proof fn lemma_fold_bound(v: Seq<nat>, n: nat)
    ensures
        fold(v, n) < modulus(),
    decreases n,
{
    if n > 0 {
        crate::field_laws::lemma_field_ops(fold(v, (n - 1) as nat), fmul(v[n - 1], pow2f((n - 1) as nat)));
    }
}


/// Two to the power `i`.
pub open spec fn pow2i(i: nat) -> nat
    decreases i,
{
    if i == 0 {
        1
    } else {
        2 * pow2i((i - 1) as nat)
    }
}

/// The number that the first `n` bits stand for: bit `i` at weight `2^i`.
pub open spec fn int_bits(bits: Seq<bool>, n: nat) -> nat
    decreases n,
{
    if n == 0 {
        0
    } else {
        int_bits(bits, (n - 1) as nat) + if bits[n - 1] {
            pow2i((n - 1) as nat)
        } else {
            0
        }
    }
}

/// The bits of an encoding, as `delta_to_bool` gives them.
pub open spec fn encoding_bits(bytes: Seq<u8>, m: nat) -> Seq<bool> {
    Seq::new(m, |i: int| i < 256 && bit_at(bytes, i))
}

/// A power of two in the field is congruent to the power of two.
proof fn lemma_pow2f_cong(i: nat)
    ensures
        crate::field_laws::cong(pow2f(i) as int, pow2i(i) as int),
        pow2f(i) < modulus(),
    decreases i,
{
    if i == 0 {
        crate::field_laws::lemma_cong_refl(1, 1);
    } else {
        lemma_pow2f_cong((i - 1) as nat);
        crate::field_laws::lemma_cong_refl(2, 2);
        crate::field_laws::lemma_fmul_cong(pow2f((i - 1) as nat), 2, pow2i((i - 1) as nat) as int, 2);
        crate::field_laws::lemma_field_ops(pow2f((i - 1) as nat), 2);
        assert(pow2i((i - 1) as nat) as int * 2 == pow2i(i) as int);
    }
}

/// The number that bits stand for in the field is congruent to the number that they stand for.
proof fn lemma_bits_fold_cong(bits: Seq<bool>, n: nat)
    ensures
        crate::field_laws::cong(bits_fold(bits, n) as int, int_bits(bits, n) as int),
        bits_fold(bits, n) < modulus(),
    decreases n,
{
    if n == 0 {
        crate::field_laws::lemma_cong_refl(0, 0);
    } else {
        let k = (n - 1) as nat;
        lemma_bits_fold_cong(bits, k);
        lemma_pow2f_cong(k);
        crate::field_laws::lemma_cong_refl(0, 0);
        let e: nat = if bits[n - 1] {
            pow2f(k)
        } else {
            0
        };
        let ei: nat = if bits[n - 1] {
            pow2i(k)
        } else {
            0
        };
        crate::field_laws::lemma_fadd_cong(bits_fold(bits, k), e, int_bits(bits, k) as int, ei as int);
        crate::field_laws::lemma_field_ops(bits_fold(bits, k), e);
    }
}

/// A byte is the sum of the weights of its set bits.
proof fn lemma_byte_bits(b: u8)
    ensures
        b as nat == (if crate::block::byte_bit(b, 0) {
            1nat
        } else {
            0nat
        }) + (if crate::block::byte_bit(b, 1) {
            2nat
        } else {
            0nat
        }) + (if crate::block::byte_bit(b, 2) {
            4nat
        } else {
            0nat
        }) + (if crate::block::byte_bit(b, 3) {
            8nat
        } else {
            0nat
        }) + (if crate::block::byte_bit(b, 4) {
            16nat
        } else {
            0nat
        }) + (if crate::block::byte_bit(b, 5) {
            32nat
        } else {
            0nat
        }) + (if crate::block::byte_bit(b, 6) {
            64nat
        } else {
            0nat
        }) + (if crate::block::byte_bit(b, 7) {
            128nat
        } else {
            0nat
        }),
{
    let b0: u8 = if (b >> 0u8) & 1u8 == 1u8 { 1u8 } else { 0u8 };
    let b1: u8 = if (b >> 1u8) & 1u8 == 1u8 { 2u8 } else { 0u8 };
    let b2: u8 = if (b >> 2u8) & 1u8 == 1u8 { 4u8 } else { 0u8 };
    let b3: u8 = if (b >> 3u8) & 1u8 == 1u8 { 8u8 } else { 0u8 };
    let b4: u8 = if (b >> 4u8) & 1u8 == 1u8 { 16u8 } else { 0u8 };
    let b5: u8 = if (b >> 5u8) & 1u8 == 1u8 { 32u8 } else { 0u8 };
    let b6: u8 = if (b >> 6u8) & 1u8 == 1u8 { 64u8 } else { 0u8 };
    let b7: u8 = if (b >> 7u8) & 1u8 == 1u8 { 128u8 } else { 0u8 };
    assert(b == b0 + b1 + b2 + b3 + b4 + b5 + b6 + b7) by (bit_vector)
        requires
            b0 == (if (b >> 0u8) & 1u8 == 1u8 { 1u8 } else { 0u8 }),
            b1 == (if (b >> 1u8) & 1u8 == 1u8 { 2u8 } else { 0u8 }),
            b2 == (if (b >> 2u8) & 1u8 == 1u8 { 4u8 } else { 0u8 }),
            b3 == (if (b >> 3u8) & 1u8 == 1u8 { 8u8 } else { 0u8 }),
            b4 == (if (b >> 4u8) & 1u8 == 1u8 { 16u8 } else { 0u8 }),
            b5 == (if (b >> 5u8) & 1u8 == 1u8 { 32u8 } else { 0u8 }),
            b6 == (if (b >> 6u8) & 1u8 == 1u8 { 64u8 } else { 0u8 }),
            b7 == (if (b >> 7u8) & 1u8 == 1u8 { 128u8 } else { 0u8 }),
    ;
}

/// The powers of two from `2^(8k)` to `2^(8k + 7)`, over the power `256^k`.
proof fn lemma_pow2i_256(k: nat)
    ensures
        pow2i(8 * k) == crate::field::pow256(k),
        pow2i(8 * k + 1) == 2 * crate::field::pow256(k),
        pow2i(8 * k + 2) == 4 * crate::field::pow256(k),
        pow2i(8 * k + 3) == 8 * crate::field::pow256(k),
        pow2i(8 * k + 4) == 16 * crate::field::pow256(k),
        pow2i(8 * k + 5) == 32 * crate::field::pow256(k),
        pow2i(8 * k + 6) == 64 * crate::field::pow256(k),
        pow2i(8 * k + 7) == 128 * crate::field::pow256(k),
    decreases k,
{
    if k > 0 {
        lemma_pow2i_256((k - 1) as nat);
        let j = (8 * (k - 1)) as nat;
        assert(pow2i(j + 8) == 256 * pow2i(j)) by {
            reveal_with_fuel(pow2i, 9);
        }
    }
    let j = 8 * k;
    assert(pow2i(j + 7) == 128 * pow2i(j)) by {
        reveal_with_fuel(pow2i, 8);
    }
    assert(pow2i(j + 6) == 64 * pow2i(j)) by {
        reveal_with_fuel(pow2i, 7);
    }
    assert(pow2i(j + 5) == 32 * pow2i(j)) by {
        reveal_with_fuel(pow2i, 6);
    }
    assert(pow2i(j + 4) == 16 * pow2i(j)) by {
        reveal_with_fuel(pow2i, 5);
    }
    assert(pow2i(j + 3) == 8 * pow2i(j)) by {
        reveal_with_fuel(pow2i, 4);
    }
    assert(pow2i(j + 2) == 4 * pow2i(j)) by {
        reveal_with_fuel(pow2i, 3);
    }
    assert(pow2i(j + 1) == 2 * pow2i(j)) by {
        reveal_with_fuel(pow2i, 2);
    }
}

/// The number that eight bits from `base` on stand for, the first at weight `p`.
pub open spec fn octet(bits: Seq<bool>, base: int, p: nat) -> nat {
    (if bits[base] {
        p
    } else {
        0
    }) + (if bits[base + 1] {
        2 * p
    } else {
        0
    }) + (if bits[base + 2] {
        4 * p
    } else {
        0
    }) + (if bits[base + 3] {
        8 * p
    } else {
        0
    }) + (if bits[base + 4] {
        16 * p
    } else {
        0
    }) + (if bits[base + 5] {
        32 * p
    } else {
        0
    }) + (if bits[base + 6] {
        64 * p
    } else {
        0
    }) + (if bits[base + 7] {
        128 * p
    } else {
        0
    })
}

/// Eight more bits add their octet.
proof fn lemma_int_bits_octet(bits: Seq<bool>, base: nat, p: nat)
    requires
        pow2i(base) == p,
        pow2i(base + 1) == 2 * p,
        pow2i(base + 2) == 4 * p,
        pow2i(base + 3) == 8 * p,
        pow2i(base + 4) == 16 * p,
        pow2i(base + 5) == 32 * p,
        pow2i(base + 6) == 64 * p,
        pow2i(base + 7) == 128 * p,
    ensures
        int_bits(bits, base + 8) == int_bits(bits, base) + octet(bits, base as int, p),
{
    assert(int_bits(bits, base + 1) == int_bits(bits, base) + if bits[base as int] {
        p
    } else {
        0
    });
    assert(int_bits(bits, base + 2) == int_bits(bits, base + 1) + if bits[base as int + 1] {
        2 * p
    } else {
        0
    });
    assert(int_bits(bits, base + 3) == int_bits(bits, base + 2) + if bits[base as int + 2] {
        4 * p
    } else {
        0
    });
    assert(int_bits(bits, base + 4) == int_bits(bits, base + 3) + if bits[base as int + 3] {
        8 * p
    } else {
        0
    });
    assert(int_bits(bits, base + 5) == int_bits(bits, base + 4) + if bits[base as int + 4] {
        16 * p
    } else {
        0
    });
    assert(int_bits(bits, base + 6) == int_bits(bits, base + 5) + if bits[base as int + 5] {
        32 * p
    } else {
        0
    });
    assert(int_bits(bits, base + 7) == int_bits(bits, base + 6) + if bits[base as int + 6] {
        64 * p
    } else {
        0
    });
    assert(int_bits(bits, base + 8) == int_bits(bits, base + 7) + if bits[base as int + 7] {
        128 * p
    } else {
        0
    });
}

/// Eight weights that are `p` times a power of two or zero add up to `p` times the number of the bits.
proof fn lemma_weighted(p: nat, x0: nat, x1: nat, x2: nat, x3: nat, x4: nat, x5: nat, x6: nat, x7: nat)
    requires
        x0 <= 1,
        x1 <= 1,
        x2 <= 1,
        x3 <= 1,
        x4 <= 1,
        x5 <= 1,
        x6 <= 1,
        x7 <= 1,
    ensures
        (if x0 == 1 { p } else { 0 }) + (if x1 == 1 { 2 * p } else { 0 }) + (if x2 == 1 { 4 * p } else { 0 }) + (if x3
            == 1 { 8 * p } else { 0 }) + (if x4 == 1 { 16 * p } else { 0 }) + (if x5 == 1 { 32 * p } else { 0 }) + (
        if x6 == 1 { 64 * p } else { 0 }) + (if x7 == 1 { 128 * p } else { 0 }) == p * (x0 + 2 * x1 + 4 * x2 + 8 * x3
            + 16 * x4 + 32 * x5 + 64 * x6 + 128 * x7),
{
    let s7 = 128 * x7;
    let s6 = 64 * x6 + s7;
    let s5 = 32 * x5 + s6;
    let s4 = 16 * x4 + s5;
    let s3 = 8 * x3 + s4;
    let s2 = 4 * x2 + s3;
    let s1 = 2 * x1 + s2;
    let s0 = x0 + s1;
    assert(p * s7 == (if x7 == 1 { 128 * p } else { 0 })) by (nonlinear_arith)
        requires s7 == 128 * x7, x7 <= 1;
    assert(p * s6 == (if x6 == 1 { 64 * p } else { 0 }) + p * s7) by (nonlinear_arith)
        requires s6 == 64 * x6 + s7, x6 <= 1;
    assert(p * s5 == (if x5 == 1 { 32 * p } else { 0 }) + p * s6) by (nonlinear_arith)
        requires s5 == 32 * x5 + s6, x5 <= 1;
    assert(p * s4 == (if x4 == 1 { 16 * p } else { 0 }) + p * s5) by (nonlinear_arith)
        requires s4 == 16 * x4 + s5, x4 <= 1;
    assert(p * s3 == (if x3 == 1 { 8 * p } else { 0 }) + p * s4) by (nonlinear_arith)
        requires s3 == 8 * x3 + s4, x3 <= 1;
    assert(p * s2 == (if x2 == 1 { 4 * p } else { 0 }) + p * s3) by (nonlinear_arith)
        requires s2 == 4 * x2 + s3, x2 <= 1;
    assert(p * s1 == (if x1 == 1 { 2 * p } else { 0 }) + p * s2) by (nonlinear_arith)
        requires s1 == 2 * x1 + s2, x1 <= 1;
    assert(p * s0 == (if x0 == 1 { p } else { 0 }) + p * s1) by (nonlinear_arith)
        requires s0 == x0 + s1, x0 <= 1;
}

/// The octet of the bits of a byte is the byte at the octet's weight.
proof fn lemma_octet_byte(bits: Seq<bool>, base: int, p: nat, b: u8)
    requires
        forall|t: int| 0 <= t < 8 ==> bits[base + t] == crate::block::byte_bit(b, t),
    ensures
        octet(bits, base, p) == p * (b as nat),
{
    lemma_byte_bits(b);
    let x0: nat = if bits[base] { 1 } else { 0 };
    let x1: nat = if bits[base + 1] { 1 } else { 0 };
    let x2: nat = if bits[base + 2] { 1 } else { 0 };
    let x3: nat = if bits[base + 3] { 1 } else { 0 };
    let x4: nat = if bits[base + 4] { 1 } else { 0 };
    let x5: nat = if bits[base + 5] { 1 } else { 0 };
    let x6: nat = if bits[base + 6] { 1 } else { 0 };
    let x7: nat = if bits[base + 7] { 1 } else { 0 };
    assert(bits[base + 0] == crate::block::byte_bit(b, 0));
    assert(bits[base + 1] == crate::block::byte_bit(b, 1));
    assert(bits[base + 2] == crate::block::byte_bit(b, 2));
    assert(bits[base + 3] == crate::block::byte_bit(b, 3));
    assert(bits[base + 4] == crate::block::byte_bit(b, 4));
    assert(bits[base + 5] == crate::block::byte_bit(b, 5));
    assert(bits[base + 6] == crate::block::byte_bit(b, 6));
    assert(bits[base + 7] == crate::block::byte_bit(b, 7));
    assert(b as nat == x0 + 2 * x1 + 4 * x2 + 8 * x3 + 16 * x4 + 32 * x5 + 64 * x6 + 128 * x7);
    lemma_weighted(p, x0, x1, x2, x3, x4, x5, x6, x7);
}

/// The first `8 * k` bits of an encoding stand for the number that its first `k` bytes stand for.
proof fn lemma_int_bits_bytes(bytes: Seq<u8>, m: nat, k: nat)
    requires
        bytes.len() == 32,
        k <= 32,
        8 * k <= m,
    ensures
        int_bits(encoding_bits(bytes, m), 8 * k) == crate::field::le_nat(bytes.take(k as int)),
    decreases k,
{
    let bits = encoding_bits(bytes, m);
    if k == 0 {
        assert(bytes.take(0).len() == 0);
    } else {
        let j = (k - 1) as nat;
        lemma_int_bits_bytes(bytes, m, j);
        let b = bytes[j as int];
        lemma_pow2i_256(j);
        crate::field::lemma_le_nat_push(bytes.take(j as int), b);
        assert(bytes.take(j as int).push(b) =~= bytes.take(k as int));
        let base: nat = 8 * j;
        assert forall|t: int| 0 <= t < 8 implies bits[base + t] == crate::block::byte_bit(b, t) by {
            assert((base + t) / 8 == j as int && (base + t) % 8 == t);
        }
        let p = crate::field::pow256(j);
        lemma_int_bits_octet(bits, base, p);
        lemma_octet_byte(bits, base as int, p, b);
        assert(base + 8 == 8 * k);
    }
}

/// The number that the bits stand for does not shrink with more bits, and a set bit counts its weight.
proof fn lemma_int_bits_mono(bits: Seq<bool>, i: nat, n: nat)
    requires
        i < n,
    ensures
        int_bits(bits, n) >= int_bits(bits, i),
        bits[i as int] ==> int_bits(bits, n) >= pow2i(i),
    decreases n,
{
    if n - 1 > i {
        lemma_int_bits_mono(bits, i, (n - 1) as nat);
    }
}

/// Bits that are clear add nothing.
proof fn lemma_int_bits_clear(bits: Seq<bool>, a: nat, n: nat)
    requires
        a <= n,
        forall|i: int| a <= i < n ==> !bits[i],
    ensures
        int_bits(bits, n) == int_bits(bits, a),
    decreases n,
{
    if n > a {
        lemma_int_bits_clear(bits, a, (n - 1) as nat);
    }
}

/// The bits of the encoding of a field element stand for the element: for `m` of at least 252, the lowest
/// `m` bits of the canonical encoding of `delta`, weighted by the powers of two in the field, add up to
/// `delta`.
pub proof fn lemma_bits_fold_value(delta: Fe, m: nat)
    requires
        delta.wf(),
        m >= 252,
    ensures
        bits_fold(encoding_bits(delta.bytes@, m), m) == delta.value(),
{
    let bytes = delta.bytes@;
    let bits = encoding_bits(bytes, m);
    let wide = encoding_bits(bytes, 256);
    lemma_int_bits_bytes(bytes, 256, 32);
    assert(bytes.take(32) =~= bytes);
    assert(int_bits(wide, 256) == delta.value());
    // the bits from 252 on are clear, for the value is below 2^252
    assert(pow2i(252) == 0x1000000000000000000000000000000000000000000000000000000000000000nat) by {
        lemma_pow2i_256(31);
        assert(crate::field::pow256(31) == 0x100000000000000000000000000000000000000000000000000000000000000nat) by {
            reveal_with_fuel(crate::field::pow256, 32);
        }
    }
    assert forall|i: int| 252 <= i < 256 implies !wide[i] by {
        if wide[i] {
            lemma_int_bits_mono(wide, i as nat, 256);
            lemma_pow2i_mono(252, i as nat);
        }
    }
    lemma_int_bits_clear(wide, 252, 256);
    lemma_int_bits_ext(wide, bits, 252);
    assert forall|i: int| 252 <= i < m implies !bits[i] by {
        if i < 256 {
            assert(bits[i] == wide[i]);
        }
    }
    lemma_int_bits_clear(bits, 252, m);
    lemma_bits_fold_cong(bits, m);
    crate::field_laws::lemma_cong_eq(bits_fold(bits, m) as int, delta.value() as int);
}

/// Powers of two grow with the exponent.
proof fn lemma_pow2i_mono(a: nat, b: nat)
    requires
        a <= b,
    ensures
        pow2i(a) <= pow2i(b),
    decreases b,
{
    if a < b {
        lemma_pow2i_mono(a, (b - 1) as nat);
    }
}

/// Two sequences of bits that agree below `n` stand for the same number there.
proof fn lemma_int_bits_ext(a: Seq<bool>, b: Seq<bool>, n: nat)
    requires
        forall|i: int| 0 <= i < n ==> a[i] == b[i],
    ensures
        int_bits(a, n) == int_bits(b, n),
    decreases n,
{
    if n > 0 {
        lemma_int_bits_ext(a, b, (n - 1) as nat);
    }
}


/// Every correction is a number below the prime.
pub proof fn lemma_tau_rows_bound(g0: Seq<PRG>, g1: Seq<PRG>, u: Seq<nat>, size: int, n: nat, q: int)
    requires
        0 <= size,
        0 <= q < tau_rows(g0, g1, u, size, n).len(),
    ensures
        tau_rows(g0, g1, u, size, n)[q] < modulus(),
    decreases n,
{
    if n > 0 {
        lemma_tau_rows_len(g0, g1, u, size, (n - 1) as nat);
        let before = tau_rows(g0, g1, u, size, (n - 1) as nat);
        if q < before.len() {
            lemma_tau_rows_bound(g0, g1, u, size, (n - 1) as nat, q);
        } else {
            let j = q - before.len();
            let w0 = stream_field(g0[n - 1].key@, g0[n - 1].counter + 2 * j);
            let w1 = stream_field(g1[n - 1].key@, g1[n - 1].counter + 2 * j);
            crate::field_laws::lemma_field_ops(w0, fadd(w1, u[j]));
        }
    }
}

/// The relation of an extension over the wire. Let the sender's generator for each bit of the key be the
/// one of the receiver's two that the bit selects, and let the sender's unread bytes begin with what the
/// receiver wrote for its values `u`. Then the sender reads the receiver's corrections, and in every
/// column `j` the receiver's share is the sender's share plus the key, as its bits give it, times `u[j]`.
pub proof fn lemma_cope_over_the_wire(
    sg: Seq<PRG>,
    bits: Seq<bool>,
    rg0: Seq<PRG>,
    rg1: Seq<PRG>,
    u: Seq<nat>,
    size: nat,
    j: int,
    m: nat,
    rest: Seq<u8>,
)
    requires
        sg.len() == m,
        rg0.len() == m,
        rg1.len() == m,
        bits.len() == m,
        0 <= j < size,
        32 * (m * size) <= u64::MAX,
        forall|i: int|
            0 <= i < m ==> #[trigger] sg[i] == (if bits[i] {
                rg1[i]
            } else {
                rg0[i]
            }),
    ensures
        parse_field(field_frame(tau_rows(rg0, rg1, u, size as int, m)) + rest, m * size) == Ok::<
            Seq<nat>,
            VoleError,
        >(tau_rows(rg0, rg1, u, size as int, m)),
        fadd(
            fold(sender_column(sg, bits, tau_rows(rg0, rg1, u, size as int, m), size as int, j), m),
            fmul(bits_fold(bits, m), u[j]),
        ) == fold(draw_column(rg0, j), m),
{
    let tau = tau_rows(rg0, rg1, u, size as int, m);
    lemma_tau_rows_len(rg0, rg1, u, size as int, m);
    assert forall|q: int| 0 <= q < tau.len() implies #[trigger] tau[q] < modulus() by {
        lemma_tau_rows_bound(rg0, rg1, u, size as int, m, q);
    }
    crate::comm_channel::lemma_field_round_trip(tau, rest);
    lemma_cope_relation(sg, bits, rg0, rg1, u, size as int, j, m);
}

} // verus!
