use vstd::prelude::*;
use crate::comm_channel::{
    bits_frame, blocks16_frame, field_frame, frame_size, parse_bits, parse_blocks16, parse_field, prepend,
    CommunicationChannel,
};
use crate::cope::pow2i;
use crate::error::VoleError;
use crate::field::{all_wf, dot, fadd, fmul, fsub, values, vector_inner_product, Fe};
use crate::ggm::{ggm_level, lemma_path_bound, path_index};
use crate::preot::{adjusted_bits, OTPre};
use crate::prg::{mix_id, stream_field, PRG};
use crate::role::Role;
use crate::spfss_receiver::{receiver_leaves, recv_spec, SpfssRecverFp};
use crate::spfss_sender::{hash_seed, pow2_usize, secret_sum_of, sender_frames, uni_hash_coeffs, SpfssSenderFp};

verus! {

/// The field element that a 16-byte seed expands to: the first element of the key stream under it.
pub open spec fn expand_seed(sd: Seq<u8>) -> nat {
    stream_field(mix_id(sd, 0), 0)
}

/// What reading the adjustment bits of `t` trees finds in `s`: for each tree `len` bits, and the bytes left
/// over; or the first error.
pub open spec fn parse_choices(s: Seq<u8>, t: nat, len: nat) -> Result<(Seq<Seq<bool>>, Seq<u8>), VoleError>
    decreases t,
{
    if t == 0 {
        Ok((Seq::empty(), s))
    } else {
        match parse_bits(s) {
            Err(e) => Err(e),
            Ok(bits) => if bits.len() != len {
                Err(VoleError::WireFormat)
            } else {
                prepend(seq![bits], parse_choices(s.skip(frame_size(s, true) as int), (t - 1) as nat, len))
            },
        }
    }
}

/// What reading the seeds of the check of `t` trees finds in `s`: for each tree one 16-byte seed, and the
/// bytes left over; or the first error.
pub open spec fn parse_seeds(s: Seq<u8>, t: nat) -> Result<(Seq<Seq<u8>>, Seq<u8>), VoleError>
    decreases t,
{
    if t == 0 {
        Ok((Seq::empty(), s))
    } else {
        match parse_blocks16(s) {
            Err(e) => Err(e),
            Ok(sd) => if sd.len() != 1 {
                Err(VoleError::WireFormat)
            } else {
                prepend(seq![sd[0]], parse_seeds(s.skip(frame_size(s, false) as int), (t - 1) as nat))
            },
        }
    }
}

/// The adjustment bits of the buffer after those of the first `i` trees were loaded, `len` for each.
pub open spec fn bits_after(bits: Seq<bool>, choices: Seq<Seq<bool>>, len: int, i: nat) -> Seq<bool>
    decreases i,
{
    if i == 0 {
        bits
    } else {
        Seq::new(
            bits.len(),
            |k: int|
                if (i - 1) * len <= k < (i - 1) * len + len {
                    choices[i - 1][k - (i - 1) * len]
                } else {
                    bits_after(bits, choices, len, (i - 1) as nat)[k]
                },
        )
    }
}

/// What the sender writes for the first `i` trees: for each its pads and its secret sum.
pub open spec fn sender_all_frames(
    pre_data: Seq<[u8; 32]>,
    bits: Seq<bool>,
    n: int,
    seeds: Seq<nat>,
    gammas: Seq<nat>,
    depth: nat,
    i: nat,
) -> Seq<u8>
    decreases i,
{
    if i == 0 {
        Seq::empty()
    } else {
        sender_all_frames(pre_data, bits, n, seeds, gammas, depth, (i - 1) as nat) + sender_frames(
            pre_data,
            bits,
            n,
            seeds[i - 1],
            gammas[i - 1],
            depth,
            i - 1,
        )
    }
}

/// The leaves of the first `i` trees of the sender, one tree after the other.
pub open spec fn sender_sparse(seeds: Seq<nat>, depth: nat, i: nat) -> Seq<nat>
    decreases i,
{
    if i == 0 {
        Seq::empty()
    } else {
        sender_sparse(seeds, depth, (i - 1) as nat) + ggm_level(seeds[i - 1], (depth - 1) as nat)
    }
}

/// The value that a party hashes in the batched check: the values of the trees added one by one to the
/// negation of `last`.
pub open spec fn batch_value(vs: Seq<nat>, last: nat, n: nat) -> nat
    decreases n,
{
    if n == 0 {
        fsub(0, last)
    } else {
        fadd(batch_value(vs, last, (n - 1) as nat), vs[n - 1])
    }
}

/// The sender's values of the batched check: for each tree `<chi, leaves>`, the coefficients being those of
/// the hash of the expanded seed.
pub open spec fn sender_check_values(tree_seeds: Seq<nat>, check_seeds: Seq<Seq<u8>>, depth: nat) -> Seq<nat> {
    Seq::new(
        tree_seeds.len(),
        |i: int|
            dot(
                uni_hash_coeffs(hash_seed(expand_seed(check_seeds[i])), pow2i((depth - 1) as nat)),
                ggm_level(tree_seeds[i], (depth - 1) as nat),
                pow2i((depth - 1) as nat),
            ),
    )
}

/// What the sender writes in its part, with the seeds `tree_seeds` of its trees: the frames of all trees
/// and, with the check switched on, the hash of its batch value, which it forms with its key, the
/// receiver's `x_star` and the last entry of `triple`.
pub open spec fn sender_writes(
    pre_data: Seq<[u8; 32]>,
    bits: Seq<bool>,
    n: int,
    tree_seeds: Seq<nat>,
    triple: Seq<nat>,
    depth: nat,
    t: nat,
    malicious: bool,
    key: nat,
    sds: Seq<Seq<u8>>,
    x_star: nat,
) -> Seq<u8> {
    sender_all_frames(pre_data, bits, n, tree_seeds, triple, depth, t) + (if malicious {
        field_frame(
            seq![
                hash_seed(
                    batch_value(sender_check_values(tree_seeds, sds, depth), fadd(fmul(key, x_star), triple[t as int]), t),
                ),
            ],
        )
    } else {
        Seq::<u8>::empty()
    })
}

/// What the receiver reads for the trees from `i` on: for each its sums and the sender's secret sum; and
/// the bytes left over; or the first error.
pub open spec fn recv_all(
    pre_data: Seq<[u8; 32]>,
    choices: Seq<Seq<bool>>,
    depth: nat,
    s: Seq<u8>,
    i: nat,
    t: nat,
) -> Result<(Seq<(Seq<nat>, nat)>, Seq<u8>), VoleError>
    decreases t - i,
{
    if i >= t {
        Ok((Seq::empty(), s))
    } else {
        match recv_spec(pre_data, choices[i as int], depth, i as int, s) {
            Err(e) => Err(e),
            Ok((sums, sh, rest)) => prepend(seq![(sums, sh)], recv_all(pre_data, choices, depth, rest, i + 1, t)),
        }
    }
}

/// The leaves of the first `i` trees of the receiver, one tree after the other.
pub open spec fn receiver_sparse(
    trees: Seq<(Seq<nat>, nat)>,
    choices: Seq<Seq<bool>>,
    depth: nat,
    mac: Seq<nat>,
    i: nat,
) -> Seq<nat>
    decreases i,
{
    if i == 0 {
        Seq::empty()
    } else {
        receiver_sparse(trees, choices, depth, mac, (i - 1) as nat) + receiver_leaves(
            trees[i - 1].0,
            choices[i - 1],
            depth,
            trees[i - 1].1,
            mac[i - 1],
        )
    }
}

/// The coefficients at the receiver's places, one for each tree.
pub open spec fn place_coeffs(choices: Seq<Seq<bool>>, check_seeds: Seq<Seq<u8>>, depth: nat) -> Seq<nat> {
    Seq::new(
        choices.len(),
        |i: int|
            uni_hash_coeffs(hash_seed(expand_seed(check_seeds[i])), pow2i((depth - 1) as nat))[path_index(
                choices[i],
                (depth - 1) as nat,
            )],
    )
}

/// The receiver's `x*` of the batched check: its last value less the sum of its values at the trees, each
/// times the coefficient at its place.
pub open spec fn receiver_x_star(
    choices: Seq<Seq<bool>>,
    check_seeds: Seq<Seq<u8>>,
    depth: nat,
    u: Seq<nat>,
    t: nat,
) -> nat {
    fsub(u[t as int], dot(place_coeffs(choices, check_seeds, depth), u, t))
}

/// A multi-point function sharing with regular noise: `tree_n` trees with `leave_n` leaves each share a
/// vector of `idx_max` entries in which the two parties differ at one place of every block of `leave_n`.
#[derive(Clone)]
pub struct MpfssReg {
    pub party: Role,
    pub item_n: usize,
    pub idx_max: usize,
    pub tree_height: usize,
    pub leave_n: usize,
    pub tree_n: usize,
    pub is_malicious: bool,
    pub prg: PRG,
    /// The sender's key.
    pub secret_share_x: Fe,
    /// The receiver's coefficients at its places, one for each tree.
    pub check_chialpha_buf: Vec<Fe>,
    /// The values of the trees in the batched check.
    pub check_vw_buf: Vec<Fe>,
    /// The receiver's places, one for each tree.
    pub item_pos_receiver: Vec<usize>,
    /// The receiver's choice bits, one sequence for each tree.
    pub choices: Vec<Vec<bool>>,
    /// The receiver's seeds of the check, one for each tree.
    pub check_seeds: Vec<[u8; 16]>,
}

/// The byte strings of a sequence of seeds.
pub open spec fn seed_views(s: Seq<[u8; 16]>) -> Seq<Seq<u8>> {
    Seq::new(s.len(), |i: int| s[i]@)
}

/// The choice bits of the trees as sequences.
pub open spec fn choice_views(c: Seq<Vec<bool>>) -> Seq<Seq<bool>> {
    Seq::new(c.len(), |i: int| c[i]@)
}

impl MpfssReg {
    /// The sizes fit together: `idx_max = tree_n * leave_n`, `leave_n = 2^(tree_height - 1)`.
    pub open spec fn wf(&self) -> bool {
        &&& 2 <= self.tree_height <= 31
        &&& self.leave_n == pow2i((self.tree_height - 1) as nat)
        &&& self.item_n == self.tree_n
        &&& self.idx_max == self.tree_n * self.leave_n
        &&& self.secret_share_x.wf()
        &&& all_wf(self.check_chialpha_buf@)
        &&& all_wf(self.check_vw_buf@)
    }

    /// The receiver has fixed its choices: one sequence of choice bits, one place, and with the check
    /// switched on one seed and one coefficient for each tree.
    pub open spec fn started(&self) -> bool {
        &&& self.wf()
        &&& self.choices.len() == self.tree_n
        &&& self.item_pos_receiver.len() == self.tree_n
        &&& forall|i: int| 0 <= i < self.tree_n ==> (#[trigger] self.choices[i]).len() == self.tree_height - 1
        &&& forall|i: int|
            0 <= i < self.tree_n ==> #[trigger] self.item_pos_receiver[i] == path_index(
                self.choices[i]@,
                (self.tree_height - 1) as nat,
            )
        &&& self.is_malicious ==> self.check_seeds.len() == self.tree_n
    }

    /// A party for `t` trees of `2^log_bin_sz` leaves; the sizes must fit, `n = t * 2^log_bin_sz` with
    /// `log_bin_sz` from 1 to 30, or the parameters are mismatched.
    pub fn new(n: usize, t: usize, log_bin_sz: usize, party: Role) -> (r: Result<Self, VoleError>)
        ensures
            (1 <= log_bin_sz <= 30 && n == t * pow2i(log_bin_sz as nat)) ==> r.is_ok(),
            !(1 <= log_bin_sz <= 30 && n == t * pow2i(log_bin_sz as nat)) ==> (r matches Err(e) && e
                == VoleError::ParameterMismatch),
            r matches Ok(m) ==> m.wf() && m.party == party && m.tree_n == t && m.idx_max == n && m.tree_height
                == log_bin_sz + 1 && !m.is_malicious && m.choices.len() == 0,
    {
        if log_bin_sz < 1 || log_bin_sz > 30 {
            return Err(VoleError::ParameterMismatch);
        }
        let leave_n = pow2_usize(log_bin_sz);
        if leave_n == 0 || n / leave_n != t || n % leave_n != 0 {
            proof {
                if n == t * leave_n {
                    vstd::arithmetic::div_mod::lemma_fundamental_div_mod_converse(n as int, leave_n as int, t as int, 0);
                }
            }
            return Err(VoleError::ParameterMismatch);
        }
        proof {
            vstd::arithmetic::div_mod::lemma_fundamental_div_mod(n as int, leave_n as int);
            assert(leave_n * (n / leave_n) == t * leave_n) by (nonlinear_arith)
                requires
                    n / leave_n == t,
            ;
        }
        Ok(
            MpfssReg {
                party,
                item_n: t,
                idx_max: n,
                tree_height: log_bin_sz + 1,
                leave_n,
                tree_n: t,
                is_malicious: false,
                prg: PRG::new(None, 0),
                secret_share_x: Fe::zero(),
                check_chialpha_buf: Vec::new(),
                check_vw_buf: Vec::new(),
                item_pos_receiver: Vec::new(),
                choices: Vec::new(),
                check_seeds: Vec::new(),
            },
        )
    }

    /// Switches the batched consistency check on.
    pub fn set_malicious(&mut self)
        ensures
            *final(self) == (MpfssReg { is_malicious: true, ..*old(self) }),
    {
        self.is_malicious = true;
    }

    /// Gives the sender its key.
    pub fn sender_init(&mut self, delta: Fe)
        ensures
            *final(self) == (MpfssReg { secret_share_x: delta, ..*old(self) }),
    {
        self.secret_share_x = delta;
    }

    /// The receiver needs nothing before it starts.
    pub fn receiver_init(&mut self)
        ensures
            *final(self) == *old(self),
    {
    }

    /// Adds the receiver's values at its places: `in_vec[i]` at the place of tree `i` in block `i`.
    pub fn set_vec_x(&self, out_vec: &mut Vec<Fe>, in_vec: &Vec<Fe>)
        requires
            self.started(),
            old(out_vec).len() == self.idx_max,
            in_vec.len() >= self.tree_n,
            all_wf(old(out_vec)@),
        ensures
            final(out_vec).len() == old(out_vec).len(),
            all_wf(final(out_vec)@),
            forall|i: int, j: int|
                0 <= i < self.tree_n && 0 <= j < self.leave_n ==> (#[trigger] final(out_vec)[i * self.leave_n + j]).value()
                    == (if j == self.item_pos_receiver[i] {
                    fadd(old(out_vec)[i * self.leave_n + j].value(), in_vec[i].value())
                } else {
                    old(out_vec)[i * self.leave_n + j].value()
                }),
    {
        let mut i: usize = 0;
        while i < self.tree_n
            invariant
                i <= self.tree_n,
                self.started(),
                out_vec.len() == self.idx_max,
                out_vec.len() == old(out_vec).len(),
                in_vec.len() >= self.tree_n,
                all_wf(out_vec@),
                forall|k: int| i * self.leave_n <= k < out_vec.len() ==> out_vec[k] == old(out_vec)[k],
                forall|ii: int, j: int|
                    0 <= ii < i && 0 <= j < self.leave_n ==> (#[trigger] out_vec[ii * self.leave_n + j]).value() == (
                    if j == self.item_pos_receiver[ii] {
                        fadd(old(out_vec)[ii * self.leave_n + j].value(), in_vec[ii].value())
                    } else {
                        old(out_vec)[ii * self.leave_n + j].value()
                    }),
            decreases self.tree_n - i,
        {
            proof {
                lemma_path_bound(self.choices[i as int]@, (self.tree_height - 1) as nat);
                assert(i * self.leave_n + self.leave_n <= self.tree_n * self.leave_n) by (nonlinear_arith)
                    requires
                        i < self.tree_n,
                ;
                assert((i + 1) * self.leave_n == i * self.leave_n + self.leave_n) by (nonlinear_arith);
            }
            proof {
                vstd::arithmetic::div_mod::lemma_small_mod(self.item_pos_receiver[i as int] as nat, self.leave_n as nat);
            }
            let pt = i * self.leave_n + self.item_pos_receiver[i] % self.leave_n;
            let ghost before = out_vec@;
            assert forall|ii: int, j: int| 0 <= ii < i && 0 <= j < self.leave_n implies (#[trigger] before[ii
                * self.leave_n + j]).value() == (if j == self.item_pos_receiver[ii] {
                fadd(old(out_vec)[ii * self.leave_n + j].value(), in_vec[ii].value())
            } else {
                old(out_vec)[ii * self.leave_n + j].value()
            }) by {
                assert(before[ii * self.leave_n + j] == out_vec[ii * self.leave_n + j]);
            }
            let cur = out_vec[pt];
            crate::spfss_receiver::put(out_vec, pt, cur.add(&in_vec[i]));
            proof {
                assert forall|ii: int, j: int| 0 <= ii < i + 1 && 0 <= j < self.leave_n implies (#[trigger] out_vec[ii
                    * self.leave_n + j]).value() == (if j == self.item_pos_receiver[ii] {
                    fadd(old(out_vec)[ii * self.leave_n + j].value(), in_vec[ii].value())
                } else {
                    old(out_vec)[ii * self.leave_n + j].value()
                }) by {
                    let k = ii * self.leave_n + j;
                    if ii < i {
                        assert(k < i * self.leave_n) by (nonlinear_arith)
                            requires
                                k == ii * self.leave_n + j,
                                0 <= ii < i,
                                0 <= j < self.leave_n,
                        ;
                        assert(out_vec[k] == before[k]);
                    } else {
                        assert(k == i * self.leave_n + j);
                        assert(before[k] == old(out_vec)[k]);
                        if j != self.item_pos_receiver[i as int] {
                            assert(k != pt);
                            assert(out_vec[k] == before[k]);
                        }
                    }
                }
            }
            i += 1;
        }
    }
}


/// What the sender reads before it grows its trees: the adjustment bits of every tree and, with the check
/// switched on, the seed of the check of every tree and the receiver's `x*`; and the bytes left over.
pub open spec fn sender_reads(malicious: bool, s: Seq<u8>, t: nat, len: nat) -> Result<
    (Seq<Seq<bool>>, Seq<Seq<u8>>, nat, Seq<u8>),
    VoleError,
> {
    match parse_choices(s, t, len) {
        Err(e) => Err(e),
        Ok((choices, r1)) => if !malicious {
            Ok((choices, Seq::empty(), 0, r1))
        } else {
            match parse_seeds(r1, t) {
                Err(e) => Err(e),
                Ok((sds, r2)) => match parse_field(r2, 1) {
                    Err(e) => Err(e),
                    Ok(xs) => Ok((choices, sds, xs[0], r2.skip(frame_size(r2, false) as int))),
                },
            }
        }
    }
}

/// The frames of the adjustment bits of the first `i` trees, as the receiver writes them.
pub open spec fn choice_frames(choices: Seq<Seq<bool>>, bits: Seq<bool>, len: int, i: nat) -> Seq<u8>
    decreases i,
{
    if i == 0 {
        Seq::empty()
    } else {
        choice_frames(choices, bits, len, (i - 1) as nat) + bits_frame(
            adjusted_bits(choices[i - 1], bits, (i - 1) * len, len),
        )
    }
}

/// The frames of the seeds of the check of the first `i` trees, as the receiver writes them.
pub open spec fn seed_frames(seeds: Seq<Seq<u8>>, i: nat) -> Seq<u8>
    decreases i,
{
    if i == 0 {
        Seq::empty()
    } else {
        seed_frames(seeds, (i - 1) as nat) + blocks16_frame(seq![seeds[i - 1]])
    }
}

/// The receiver's values of the batched check: for each tree `<chi, tree>` over the tree that it rebuilt,
/// which holds zero at the receiver's place.
pub open spec fn receiver_check_values(
    trees: Seq<(Seq<nat>, nat)>,
    choices: Seq<Seq<bool>>,
    check_seeds: Seq<Seq<u8>>,
    depth: nat,
) -> Seq<nat> {
    Seq::new(
        trees.len(),
        |i: int|
            dot(
                uni_hash_coeffs(hash_seed(expand_seed(check_seeds[i])), pow2i((depth - 1) as nat)),
                crate::ggm::recover_level(trees[i].0, choices[i], (depth - 1) as nat),
                pow2i((depth - 1) as nat),
            ),
    )
}

/// What the receiver's second step reads: for every tree its sums and the sender's secret sum and, with
/// the check switched on, the sender's hash, which must be the hash of the receiver's own value of the
/// check; and the bytes left over. A hash that differs is a `MaliciousAbort`.
pub open spec fn receiver_round_spec(
    pre_data: Seq<[u8; 32]>,
    choices: Seq<Seq<bool>>,
    check_seeds: Seq<Seq<u8>>,
    malicious: bool,
    depth: nat,
    s: Seq<u8>,
    t: nat,
    last_share: nat,
) -> Result<(Seq<(Seq<nat>, nat)>, Seq<u8>), VoleError> {
    match recv_all(pre_data, choices, depth, s, 0, t) {
        Err(e) => Err(e),
        Ok((trees, rest)) => if !malicious {
            Ok((trees, rest))
        } else {
            match parse_field(rest, 1) {
                Err(e) => Err(e),
                Ok(h) => if h[0] == hash_seed(
                    batch_value(receiver_check_values(trees, choices, check_seeds, depth), last_share, t),
                ) {
                    Ok((trees, rest.skip(frame_size(rest, false) as int)))
                } else {
                    Err(VoleError::MaliciousAbort)
                },
            }
        },
    }
}

/// The field element that a 16-byte seed expands to.
pub fn expand_check_seed(sd: &[u8; 16]) -> (r: Fe)
    ensures
        r.wf(),
        r.value() == expand_seed(sd@),
{
    let mut prg = PRG::new(Some(sd), 0);
    let v = prg.random_stark252_elements(1);
    v[0]
}

/// The hash of a field element, as a field element.
pub fn hash_element(v: &Fe) -> (r: Fe)
    ensures
        r.wf(),
        r.value() == hash_seed(v.value()),
{
    proof {
        crate::block::lemma_fe_bytes(*v);
    }
    let hash = crate::hash::Hash::new();
    let digest = hash.hash_32byte_block(&v.to_bytes_le());
    Fe::from_bytes_reduced(&digest)
}

/// The value that a party hashes in the batched check.
pub fn batch_sum(vs: &Vec<Fe>, last: &Fe) -> (r: Fe)
    ensures
        r.wf(),
        r.value() == batch_value(values(vs@), last.value(), vs.len() as nat),
{
    let mut acc = Fe::zero().sub(last);
    let mut i: usize = 0;
    while i < vs.len()
        invariant
            i <= vs.len(),
            acc.wf(),
            acc.value() == batch_value(values(vs@), last.value(), i as nat),
        decreases vs.len() - i,
    {
        assert(values(vs@)[i as int] == vs[i as int].value());
        acc = acc.add(&vs[i]);
        i += 1;
    }
    acc
}

/// Reads the adjustment bits of `t` trees into the buffer, and moves its cursor back to the start.
#[verifier::loop_isolation(false)]
pub fn read_choices(io: &mut CommunicationChannel, ot: &mut OTPre, t: usize) -> (r: Result<(), VoleError>)
    requires
        old(io).wf(),
        old(ot).wf(),
        old(ot).count == 0,
        old(ot).n == t * old(ot).length,
    ensures
        final(io).wf(),
        final(ot).wf(),
        final(io).outgoing == old(io).outgoing,
        final(io).flushed == old(io).flushed,
        final(ot).n == old(ot).n,
        final(ot).length == old(ot).length,
        final(ot).pre_data == old(ot).pre_data,
        final(ot).delta == old(ot).delta,
        match parse_choices(old(io).unread(), t as nat, old(ot).length as nat) {
            Err(e) => r == Err::<(), VoleError>(e),
            Ok((choices, rest)) => r == Ok::<(), VoleError>(()) && final(io).unread() == rest && final(ot).count == 0
                && final(ot).bits@ == bits_after(old(ot).bits@, choices, old(ot).length as int, t as nat),
        },
{
    let ghost u0 = io.unread();
    let ghost bits0 = ot.bits@;
    let ghost len = ot.length;
    let ghost mut got: Seq<Seq<bool>> = Seq::empty();
    let mut i: usize = 0;
    proof {
        match parse_choices(u0, t as nat, len as nat) {
            Ok((cs, rest)) => {
                assert(got + cs =~= cs);
            },
            Err(e) => {},
        }
        assert(0 * len == 0) by (nonlinear_arith);
    }
    while i < t
        invariant
            i <= t,
            io.wf(),
            ot.wf(),
            io.outgoing == old(io).outgoing,
            io.flushed == old(io).flushed,
            ot.n == old(ot).n,
            ot.length == len,
            len == old(ot).length,
            ot.n == t * len,
            ot.pre_data == old(ot).pre_data,
            ot.delta == old(ot).delta,
            ot.count == i * len,
            got.len() == i,
            parse_choices(u0, t as nat, len as nat) == prepend(got, parse_choices(io.unread(), (t - i) as nat, len as nat)),
            ot.bits@ == bits_after(bits0, got, len as int, i as nat),
        decreases t - i,
    {
        proof {
            assert(i * len + len <= t * len) by (nonlinear_arith)
                requires
                    i < t,
            ;
            assert((i + 1) * len == i * len + len) by (nonlinear_arith);
        }
        let ghost cur = io.unread();
        let ghost bits_before = ot.bits@;
        let ghost got_before = got;
        ot.choices_sender(io)?;
        proof {
            let received = parse_bits(cur).unwrap();
            got = got.push(received);
            let tail = parse_choices(io.unread(), (t - i - 1) as nat, len as nat);
            match tail {
                Ok((cs, rest)) => {
                    assert(got_before + (seq![received] + cs) =~= got + cs);
                },
                Err(e) => {},
            }
            lemma_bits_after_ext(bits0, got_before, got, len as int, i as nat);
            assert(ot.bits@ =~= bits_after(bits0, got, len as int, (i + 1) as nat));
        }
        i += 1;
    }
    proof {
        assert(got + Seq::<Seq<bool>>::empty() =~= got);
    }
    ot.reset();
    Ok(())
}

/// The bits loaded for the first `i` trees depend on the adjustment bits of those trees alone.
pub proof fn lemma_bits_after_ext(bits: Seq<bool>, a: Seq<Seq<bool>>, b: Seq<Seq<bool>>, len: int, i: nat)
    requires
        i <= a.len(),
        i <= b.len(),
        forall|k: int| 0 <= k < i ==> a[k] == b[k],
    ensures
        bits_after(bits, a, len, i) == bits_after(bits, b, len, i),
    decreases i,
{
    if i > 0 {
        lemma_bits_after_ext(bits, a, b, len, (i - 1) as nat);
        assert(bits_after(bits, a, len, i) =~= bits_after(bits, b, len, i));
    }
}

/// Reads the seeds of the check of `t` trees.
#[verifier::loop_isolation(false)]
pub fn read_seeds(io: &mut CommunicationChannel, t: usize) -> (r: Result<Vec<[u8; 16]>, VoleError>)
    requires
        old(io).wf(),
    ensures
        final(io).wf(),
        final(io).outgoing == old(io).outgoing,
        final(io).flushed == old(io).flushed,
        match parse_seeds(old(io).unread(), t as nat) {
            Err(e) => r == Err::<Vec<[u8; 16]>, VoleError>(e),
            Ok((seeds, rest)) => r.is_ok() && r.unwrap().len() == t && seed_views(r.unwrap()@) == seeds && final(io).unread() == rest,
        },
{
    let ghost u0 = io.unread();
    let mut seeds: Vec<[u8; 16]> = Vec::new();
    let mut i: usize = 0;
    proof {
        assert(seed_views(seeds@) =~= Seq::<Seq<u8>>::empty());
        match parse_seeds(u0, t as nat) {
            Ok((cs, rest)) => {
                assert(Seq::<Seq<u8>>::empty() + cs =~= cs);
            },
            Err(e) => {},
        }
    }
    while i < t
        invariant
            i <= t,
            io.wf(),
            io.outgoing == old(io).outgoing,
            io.flushed == old(io).flushed,
            seeds.len() == i,
            parse_seeds(u0, t as nat) == prepend(seed_views(seeds@), parse_seeds(io.unread(), (t - i) as nat)),
        decreases t - i,
    {
        let ghost before = seed_views(seeds@);
        let sd = io.receive_data()?;
        if sd.len() != 1 {
            return Err(VoleError::WireFormat);
        }
        seeds.push(sd[0]);
        proof {
            assert(crate::comm_channel::views16(sd@)[0] == sd[0]@);
            assert(seed_views(seeds@) =~= before.push(sd[0]@));
            let tail = parse_seeds(io.unread(), (t - i - 1) as nat);
            match tail {
                Ok((cs, rest)) => {
                    assert(before + (seq![sd[0]@] + cs) =~= seed_views(seeds@) + cs);
                },
                Err(e) => {},
            }
        }
        i += 1;
    }
    proof {
        assert(seed_views(seeds@) + Seq::<Seq<u8>>::empty() =~= seed_views(seeds@));
    }
    Ok(seeds)
}


impl MpfssReg {
    /// The sender's part, with the seeds of its trees given by the caller. It reads the receiver's
    /// adjustment bits and, with the check switched on, the seeds of the check and `x*`; grows one tree for
    /// each of its first `tree_n` correlations `triple`, sends the pads and the secret sum of each, and gives
    /// the leaves of all trees, one tree after the other. With the check switched on it sends the hash of
    /// `sum of <chi, leaves> - (delta * x* + triple[tree_n])`.
    #[verifier::loop_isolation(false)]
    pub fn mpfss_sender_with(
        &mut self,
        io: &mut CommunicationChannel,
        ot: &mut OTPre,
        triple: &Vec<Fe>,
        tree_seeds: &Vec<Fe>,
    ) -> (r: Result<Vec<Fe>, VoleError>)
        requires
            old(self).wf(),
            old(io).wf(),
            old(ot).wf(),
            old(ot).count == 0,
            old(ot).length == old(self).tree_height - 1,
            old(ot).n == old(self).tree_n * old(ot).length,
            triple.len() == old(self).tree_n + 1,
            tree_seeds.len() == old(self).tree_n,
            all_wf(triple@),
            all_wf(tree_seeds@),
        ensures
            final(self).wf(),
            final(io).wf(),
            final(ot).wf(),
            *final(self) == (MpfssReg { check_vw_buf: final(self).check_vw_buf, ..*old(self) }),
            final(ot).n == old(ot).n,
            final(ot).length == old(ot).length,
            final(ot).pre_data == old(ot).pre_data,
            match sender_reads(
                old(self).is_malicious,
                old(io).unread(),
                old(self).tree_n as nat,
                (old(self).tree_height - 1) as nat,
            ) {
                Err(e) => r == Err::<Vec<Fe>, VoleError>(e),
                Ok((choices, sds, x_star, rest)) => {
                    let bits = bits_after(old(ot).bits@, choices, old(ot).length as int, old(self).tree_n as nat);
                    &&& r.is_ok()
                    &&& r.unwrap().len() == old(self).idx_max
                    &&& all_wf(r.unwrap()@)
                    &&& values(r.unwrap()@) == sender_sparse(
                        values(tree_seeds@),
                        old(self).tree_height as nat,
                        old(self).tree_n as nat,
                    )
                    &&& final(io).unread() == rest
                    &&& final(ot).bits@ == bits
                    &&& final(ot).count == 0
                    &&& final(io).written() == old(io).written() + sender_all_frames(
                        old(ot).pre_data@,
                        bits,
                        old(ot).n as int,
                        values(tree_seeds@),
                        values(triple@),
                        old(self).tree_height as nat,
                        old(self).tree_n as nat,
                    ) + (if old(self).is_malicious {
                        field_frame(
                            seq![
                                hash_seed(
                                    batch_value(
                                        sender_check_values(values(tree_seeds@), sds, old(self).tree_height as nat),
                                        fadd(
                                            fmul(old(self).secret_share_x.value(), x_star),
                                            triple[old(self).tree_n as int].value(),
                                        ),
                                        old(self).tree_n as nat,
                                    ),
                                ),
                            ],
                        )
                    } else {
                        Seq::<u8>::empty()
                    })
                },
            },
    {
        let t = self.tree_n;
        let depth = self.tree_height;
        read_choices(io, ot, t)?;
        let mut sds: Vec<[u8; 16]> = Vec::new();
        let mut x_star = Fe::zero();
        if self.is_malicious {
            sds = read_seeds(io, t)?;
            let xs = io.receive_stark252(1)?;
            assert(values(xs@)[0] == xs[0].value());
            x_star = xs[0];
        }
        let ghost w0 = io.written();
        let ghost ot0 = *ot;
        let ghost unread0 = io.unread();
        let ghost seeds = values(tree_seeds@);
        let ghost gammas = values(triple@);
        let mut sparse: Vec<Fe> = Vec::new();
        let mut vw: Vec<Fe> = Vec::new();
        let mut i: usize = 0;
        proof {
            assert(values(sparse@) =~= sender_sparse(seeds, depth as nat, 0));
            assert(w0 + Seq::<u8>::empty() =~= w0);
            assert(0 * self.leave_n == 0) by (nonlinear_arith);
        }
        while i < t
            invariant
                i <= t,
                io.wf(),
                ot.wf(),
                self.wf(),
                *self == *old(self),
                t == self.tree_n,
                depth == self.tree_height,
                *ot == ot0,
                io.unread() == unread0,
                ot.count == 0,
                ot.length == depth - 1,
                ot.n == t * ot.length,
                sparse.len() == i * self.leave_n,
                all_wf(sparse@),
                values(sparse@) == sender_sparse(seeds, depth as nat, i as nat),
                io.written() == w0 + sender_all_frames(
                    ot.pre_data@,
                    ot.bits@,
                    ot.n as int,
                    seeds,
                    gammas,
                    depth as nat,
                    i as nat,
                ),
                self.is_malicious ==> vw.len() == i && all_wf(vw@) && forall|k: int|
                    0 <= k < i ==> (#[trigger] vw[k]).value() == sender_check_values(
                        seeds,
                        seed_views(sds@),
                        depth as nat,
                    )[k],
            decreases t - i,
        {
            proof {
                assert(i * ot.length + ot.length <= t * ot.length) by (nonlinear_arith)
                    requires
                        i < t,
                ;
                assert(i * self.leave_n + self.leave_n <= t * self.leave_n) by (nonlinear_arith)
                    requires
                        i < t,
                ;
                assert((i + 1) * self.leave_n == i * self.leave_n + self.leave_n) by (nonlinear_arith);
                assert(seeds[i as int] == tree_seeds[i as int].value());
                assert(gammas[i as int] == triple[i as int].value());
            }
            let ghost unread_before = io.unread();
            let ghost written_before = io.written();
            let ghost sparse_before = values(sparse@);
            let mut sender = SpfssSenderFp::new_with(depth, tree_seeds[i]);
            let leaves = sender.compute(self.secret_share_x, triple[i]);
            sender.send(io, ot, i);
            proof {
                sender.lemma_send_frames(ot.pre_data@, ot.bits@, ot.n as int, gammas[i as int], i as int);
                assert(io.written() =~= w0 + sender_all_frames(
                    ot.pre_data@,
                    ot.bits@,
                    ot.n as int,
                    seeds,
                    gammas,
                    depth as nat,
                    (i + 1) as nat,
                ));
            }
            append_elements(&mut sparse, &leaves);
            if self.is_malicious {
                let seed = expand_check_seed(&sds[i]);
                let v = sender.consistency_check_msg_gen(seed);
                proof {
                    assert(seed_views(sds@)[i as int] == sds[i as int]@);
                }
                vw.push(v);
            }
            i += 1;
        }
        let ghost written_trees = io.written();
        if self.is_malicious {
            let tmp = self.secret_share_x.mul(&x_star).add(&triple[t]);
            let vb = batch_sum(&vw, &tmp);
            let h = hash_element(&vb);
            let mut hs: Vec<Fe> = Vec::new();
            hs.push(h);
            assert(values(hs@) =~= seq![h.value()]);
            assert(values(vw@) =~= sender_check_values(seeds, seed_views(sds@), depth as nat));
            io.send_stark252(&hs);
            self.check_vw_buf = vw;
        } else {
            assert(written_trees + Seq::<u8>::empty() =~= written_trees);
        }
        Ok(sparse)
    }

    /// The sender's part, with random seeds for its trees: what it reads, returns and writes is what
    /// `mpfss_sender_with` reads, returns and writes with some `tree_n` seeds.
    pub fn mpfss_sender(&mut self, io: &mut CommunicationChannel, ot: &mut OTPre, triple: &Vec<Fe>) -> (r: Result<
        Vec<Fe>,
        VoleError,
    >)
        requires
            old(self).wf(),
            old(io).wf(),
            old(ot).wf(),
            old(ot).count == 0,
            old(ot).length == old(self).tree_height - 1,
            old(ot).n == old(self).tree_n * old(ot).length,
            triple.len() == old(self).tree_n + 1,
            all_wf(triple@),
        ensures
            final(self).wf(),
            final(io).wf(),
            final(ot).wf(),
            *final(self) == (MpfssReg {
                check_vw_buf: final(self).check_vw_buf,
                prg: final(self).prg,
                ..*old(self)
            }),
            final(ot).n == old(ot).n,
            final(ot).length == old(ot).length,
            final(ot).pre_data == old(ot).pre_data,
            match sender_reads(
                old(self).is_malicious,
                old(io).unread(),
                old(self).tree_n as nat,
                (old(self).tree_height - 1) as nat,
            ) {
                Err(e) => r == Err::<Vec<Fe>, VoleError>(e),
                Ok((choices, sds, x_star, rest)) => {
                    let bits = bits_after(old(ot).bits@, choices, old(ot).length as int, old(self).tree_n as nat);
                    &&& r.is_ok()
                    &&& r.unwrap().len() == old(self).idx_max
                    &&& all_wf(r.unwrap()@)
                    &&& final(io).unread() == rest
                    &&& final(ot).bits@ == bits
                    &&& final(ot).count == 0
                    &&& exists|tree_seeds: Seq<nat>|
                        tree_seeds.len() == old(self).tree_n && values(r.unwrap()@) == sender_sparse(
                            tree_seeds,
                            old(self).tree_height as nat,
                            old(self).tree_n as nat,
                        ) && final(io).written() == old(io).written() + #[trigger] sender_writes(
                            old(ot).pre_data@,
                            bits,
                            old(ot).n as int,
                            tree_seeds,
                            values(triple@),
                            old(self).tree_height as nat,
                            old(self).tree_n as nat,
                            old(self).is_malicious,
                            old(self).secret_share_x.value(),
                            sds,
                            x_star,
                        )
                },
            },
    {
        let seeds = self.prg.random_stark252_elements(self.tree_n);
        let r = self.mpfss_sender_with(io, ot, triple, &seeds);
        proof {
            assert(values(triple@)[old(self).tree_n as int] == triple[old(self).tree_n as int].value());
            match sender_reads(
                old(self).is_malicious,
                old(io).unread(),
                old(self).tree_n as nat,
                (old(self).tree_height - 1) as nat,
            ) {
                Ok((choices, sds, x_star, rest)) => {
                    let bits = bits_after(old(ot).bits@, choices, old(ot).length as int, old(self).tree_n as nat);
                    assert(io.written() == old(io).written() + sender_writes(
                        old(ot).pre_data@,
                        bits,
                        old(ot).n as int,
                        values(seeds@),
                        values(triple@),
                        old(self).tree_height as nat,
                        old(self).tree_n as nat,
                        old(self).is_malicious,
                        old(self).secret_share_x.value(),
                        sds,
                        x_star,
                    ));
                },
                Err(e) => {},
            }
        }
        r
    }
}

/// Appends the elements of `more` to `v`.
pub fn append_elements(v: &mut Vec<Fe>, more: &Vec<Fe>)
    requires
        all_wf(old(v)@),
        all_wf(more@),
    ensures
        final(v).len() == old(v).len() + more.len(),
        all_wf(final(v)@),
        values(final(v)@) == values(old(v)@) + values(more@),
        final(v)@ == old(v)@ + more@,
{
    let mut i: usize = 0;
    assert(v@ =~= old(v)@ + more@.take(0));
    while i < more.len()
        invariant
            i <= more.len(),
            all_wf(v@),
            all_wf(more@),
            v@ == old(v)@ + more@.take(i as int),
        decreases more.len() - i,
    {
        v.push(more[i]);
        assert(more@.take(i as int).push(more@[i as int]) =~= more@.take(i as int + 1));
        assert(v@ =~= old(v)@ + more@.take(i as int + 1));
        i += 1;
    }
    assert(more@.take(more.len() as int) =~= more@);
    assert(values(v@) =~= values(old(v)@) + values(more@));
}


/// A copy of a sequence of choice bits.
pub fn copy_bits(v: &Vec<bool>) -> (r: Vec<bool>)
    ensures
        r@ == v@,
{
    let r = v.clone();
    assert(r@ =~= v@);
    r
}

impl MpfssReg {
    /// The receiver's first step, with its choice bits and the seeds of the check given by the caller. It
    /// sends, for every tree, the bits that adjust its precomputed choices to `choices`; with the check
    /// switched on it sends the seed of the check of every tree, and `x*`, for which it needs its values
    /// `u`.
    #[verifier::loop_isolation(false)]
    pub fn mpfss_receiver_start_with(
        &mut self,
        io: &mut CommunicationChannel,
        ot: &mut OTPre,
        u: &Vec<Fe>,
        choices: Vec<Vec<bool>>,
        seeds: Vec<[u8; 16]>,
    )
        requires
            old(self).wf(),
            old(io).wf(),
            old(ot).wf(),
            old(ot).count == 0,
            old(ot).length == old(self).tree_height - 1,
            old(ot).n == old(self).tree_n * old(ot).length,
            u.len() == old(self).tree_n + 1,
            all_wf(u@),
            choices.len() == old(self).tree_n,
            forall|i: int| 0 <= i < choices.len() ==> (#[trigger] choices[i]).len() == old(self).tree_height - 1,
            old(self).is_malicious ==> seeds.len() == old(self).tree_n,
        ensures
            final(self).started(),
            final(io).wf(),
            *final(ot) == *old(ot),
            final(io).incoming == old(io).incoming,
            final(io).read_pos == old(io).read_pos,
            final(self).choices == choices,
            final(self).check_seeds == seeds,
            *final(self) == (MpfssReg {
                choices: choices,
                check_seeds: seeds,
                item_pos_receiver: final(self).item_pos_receiver,
                check_chialpha_buf: final(self).check_chialpha_buf,
                ..*old(self)
            }),
            final(io).written() == old(io).written() + choice_frames(
                choice_views(choices@),
                old(ot).bits@,
                old(ot).length as int,
                old(self).tree_n as nat,
            ) + (if old(self).is_malicious {
                seed_frames(seed_views(seeds@), old(self).tree_n as nat) + field_frame(
                    seq![
                        receiver_x_star(
                            choice_views(choices@),
                            seed_views(seeds@),
                            old(self).tree_height as nat,
                            values(u@),
                            old(self).tree_n as nat,
                        ),
                    ],
                )
            } else {
                Seq::<u8>::empty()
            }),
    {
        let t = self.tree_n;
        let depth = self.tree_height;
        let ghost w0 = io.written();
        let ghost ot0 = *ot;
        let ghost len = ot.length as int;
        let ghost cv = choice_views(choices@);
        let mut places: Vec<usize> = Vec::new();
        let mut i: usize = 0;
        proof {
            assert(w0 + Seq::<u8>::empty() =~= w0);
            assert(0 * len == 0) by (nonlinear_arith);
        }
        while i < t
            invariant
                i <= t,
                io.wf(),
                ot.wf(),
                *self == *old(self),
                *ot == (OTPre { count: (i * len) as usize, ..ot0 }),
                ot.count == i * len,
                io.incoming == old(io).incoming,
                io.read_pos == old(io).read_pos,
                places.len() == i,
                forall|k: int| 0 <= k < i ==> #[trigger] places[k] == path_index(choices[k]@, (depth - 1) as nat),
                io.written() == w0 + choice_frames(cv, ot0.bits@, len, i as nat),
            decreases t - i,
        {
            proof {
                assert(i * len + len <= t * len) by (nonlinear_arith)
                    requires
                        i < t,
                        len >= 0,
                ;
                assert((i + 1) * len == i * len + len) by (nonlinear_arith);
                assert(cv[i as int] == choices[i as int]@);
            }
            ot.choices_recver(io, &choices[i]);
            let mut tree = SpfssRecverFp::new(depth);
            tree.set_choices(copy_bits(&choices[i]));
            places.push(tree.get_index());
            proof {
                assert(io.written() =~= w0 + choice_frames(cv, ot0.bits@, len, (i + 1) as nat));
            }
            i += 1;
        }
        ot.reset();
        let ghost w1 = io.written();
        let mut chialpha: Vec<Fe> = Vec::new();
        if self.is_malicious {
            let ghost sv = seed_views(seeds@);
            let mut k: usize = 0;
            proof {
                assert(w1 + Seq::<u8>::empty() =~= w1);
            }
            while k < t
                invariant
                    k <= t,
                    io.wf(),
                    *self == *old(self),
                    *ot == ot0,
                    io.incoming == old(io).incoming,
                    io.read_pos == old(io).read_pos,
                    chialpha.len() == k,
                    all_wf(chialpha@),
                    forall|j: int|
                        0 <= j < k ==> (#[trigger] chialpha[j]).value() == place_coeffs(cv, sv, depth as nat)[j],
                    io.written() == w1 + seed_frames(sv, k as nat),
                decreases t - k,
            {
                let mut sd: Vec<[u8; 16]> = Vec::new();
                sd.push(seeds[k]);
                proof {
                    assert(crate::comm_channel::views16(sd@) =~= seq![seeds[k as int]@]);
                    assert(sv[k as int] == seeds[k as int]@);
                    assert(cv[k as int] == choices[k as int]@);
                    lemma_path_bound(choices[k as int]@, (depth - 1) as nat);
                }
                io.send_data(&sd);
                let seed = expand_check_seed(&seeds[k]);
                let chi = crate::spfss_sender::hash_coeffs_for(&seed, self.leave_n);
                assert(values(chi@)[places[k as int] as int] == chi[places[k as int] as int].value());
                chialpha.push(chi[places[k]]);
                proof {
                    assert(io.written() =~= w1 + seed_frames(sv, (k + 1) as nat));
                }
                k += 1;
            }
            proof {
                assert(values(chialpha@) =~= place_coeffs(cv, sv, depth as nat));
            }
            let x_star = u[t].sub(&vector_inner_product(&chialpha, u));
            let mut xs: Vec<Fe> = Vec::new();
            xs.push(x_star);
            proof {
                assert(values(u@)[t as int] == u[t as int].value());
                assert(values(xs@) =~= seq![x_star.value()]);
            }
            io.send_stark252(&xs);
        } else {
            assert(w1 + Seq::<u8>::empty() =~= w1);
        }
        self.item_pos_receiver = places;
        self.check_chialpha_buf = chialpha;
        self.choices = choices;
        self.check_seeds = seeds;
    }

    /// The seed of the check that the receiver draws for a tree: the next block of the key stream of its
    /// generator, which moves on by one block.
    pub fn seed_expand(&mut self) -> (r: [u8; 16])
        ensures
            *final(self) == (MpfssReg { prg: final(self).prg, ..*old(self) }),
            r@ == crate::prg::keystream(old(self).prg.key@, old(self).prg.counter as int),
            final(self).prg.key == old(self).prg.key,
            final(self).prg.counter == crate::prg::wrap64(old(self).prg.counter + 1),
    {
        let sd_buf = self.prg.random_block(1);
        sd_buf[0]
    }

    /// The receiver's first step, with random choice bits and random seeds of the check.
    pub fn mpfss_receiver_start(&mut self, io: &mut CommunicationChannel, ot: &mut OTPre, u: &Vec<Fe>)
        requires
            old(self).wf(),
            old(io).wf(),
            old(ot).wf(),
            old(ot).count == 0,
            old(ot).length == old(self).tree_height - 1,
            old(ot).n == old(self).tree_n * old(ot).length,
            u.len() == old(self).tree_n + 1,
            all_wf(u@),
        ensures
            final(self).started(),
            final(io).wf(),
            *final(ot) == *old(ot),
            final(io).incoming == old(io).incoming,
            final(io).read_pos == old(io).read_pos,
            final(self).party == old(self).party,
            final(self).is_malicious == old(self).is_malicious,
            final(self).tree_n == old(self).tree_n,
            final(self).idx_max == old(self).idx_max,
            final(self).tree_height == old(self).tree_height,
            final(self).secret_share_x == old(self).secret_share_x,
            final(io).written() == old(io).written() + choice_frames(
                choice_views(final(self).choices@),
                old(ot).bits@,
                old(ot).length as int,
                old(self).tree_n as nat,
            ) + (if old(self).is_malicious {
                seed_frames(seed_views(final(self).check_seeds@), old(self).tree_n as nat) + field_frame(
                    seq![
                        receiver_x_star(
                            choice_views(final(self).choices@),
                            seed_views(final(self).check_seeds@),
                            old(self).tree_height as nat,
                            values(u@),
                            old(self).tree_n as nat,
                        ),
                    ],
                )
            } else {
                Seq::<u8>::empty()
            }),
    {
        let t = self.tree_n;
        let len = self.tree_height - 1;
        let mut choices: Vec<Vec<bool>> = Vec::new();
        let mut seeds: Vec<[u8; 16]> = Vec::new();
        let mut i: usize = 0;
        while i < t
            invariant
                i <= t,
                self.wf(),
                *self == (MpfssReg { prg: self.prg, ..*old(self) }),
                len == self.tree_height - 1,
                choices.len() == i,
                seeds.len() == i,
                forall|k: int| 0 <= k < i ==> (#[trigger] choices[k]).len() == len,
            decreases t - i,
        {
            choices.push(self.prg.random_bool_array(len));
            seeds.push(self.seed_expand());
            i += 1;
        }
        self.mpfss_receiver_start_with(io, ot, u, choices, seeds);
    }

    /// The receiver's second step. It reads, for every tree, the pads and the sender's secret sum, rebuilds
    /// the tree, and puts its share `mac[i]` of the correlation, less the sum of the rebuilt leaves and
    /// the secret sum, at its own place; it gives the leaves of all trees, one tree after the other. With the
    /// check switched on it reads the sender's hash and accepts if it is the hash of
    /// `sum of <chi, rebuilt tree> - mac[tree_n]`; if not, the run is a `MaliciousAbort`.
    #[verifier::loop_isolation(false)]
    pub fn mpfss_receiver(&mut self, io: &mut CommunicationChannel, ot: &mut OTPre, mac: &Vec<Fe>, u: &Vec<Fe>) -> (r:
        Result<Vec<Fe>, VoleError>)
        requires
            old(self).started(),
            old(io).wf(),
            old(ot).wf(),
            old(ot).length == old(self).tree_height - 1,
            old(ot).n == old(self).tree_n * old(ot).length,
            mac.len() == old(self).tree_n + 1,
            u.len() == old(self).tree_n + 1,
            all_wf(mac@),
            all_wf(u@),
        ensures
            final(self).started(),
            final(io).wf(),
            *final(ot) == *old(ot),
            final(io).outgoing == old(io).outgoing,
            *final(self) == (MpfssReg { check_vw_buf: final(self).check_vw_buf, ..*old(self) }),
            match receiver_round_spec(
                old(ot).pre_data@,
                choice_views(old(self).choices@),
                seed_views(old(self).check_seeds@),
                old(self).is_malicious,
                old(self).tree_height as nat,
                old(io).unread(),
                old(self).tree_n as nat,
                mac[old(self).tree_n as int].value(),
            ) {
                Err(e) => r == Err::<Vec<Fe>, VoleError>(e),
                Ok((trees, rest)) => r.is_ok() && r.unwrap().len() == old(self).idx_max && all_wf(r.unwrap()@) && values(
                    r.unwrap()@,
                ) == receiver_sparse(
                    trees,
                    choice_views(old(self).choices@),
                    old(self).tree_height as nat,
                    values(mac@),
                    old(self).tree_n as nat,
                ) && final(io).unread() == rest,
            },
    {
        let t = self.tree_n;
        let depth = self.tree_height;
        let ghost u0 = io.unread();
        let ghost cv = choice_views(self.choices@);
        let ghost sv = seed_views(self.check_seeds@);
        let ghost macs = values(mac@);
        let ghost pre = ot.pre_data@;
        let ghost mut trees: Seq<(Seq<nat>, nat)> = Seq::empty();
        let mut sparse: Vec<Fe> = Vec::new();
        let mut vw: Vec<Fe> = Vec::new();
        let mut i: usize = 0;
        proof {
            assert(values(sparse@) =~= receiver_sparse(trees, cv, depth as nat, macs, 0));
            match recv_all(pre, cv, depth as nat, u0, 0, t as nat) {
                Ok((ts, rest)) => {
                    assert(trees + ts =~= ts);
                },
                Err(e) => {},
            }
            assert(0 * self.leave_n == 0) by (nonlinear_arith);
        }
        while i < t
            invariant
                i <= t,
                io.wf(),
                self.started(),
                *self == *old(self),
                *ot == *old(ot),
                io.outgoing == old(io).outgoing,
                trees.len() == i,
                recv_all(pre, cv, depth as nat, u0, 0, t as nat) == prepend(
                    trees,
                    recv_all(pre, cv, depth as nat, io.unread(), i as nat, t as nat),
                ),
                sparse.len() == i * self.leave_n,
                all_wf(sparse@),
                values(sparse@) == receiver_sparse(trees, cv, depth as nat, macs, i as nat),
                self.is_malicious ==> vw.len() == i && all_wf(vw@) && forall|k: int|
                    0 <= k < i ==> (#[trigger] vw[k]).value() == receiver_check_values(trees, cv, sv, depth as nat)[k],
            decreases t - i,
        {
            proof {
                assert(i * ot.length + ot.length <= t * ot.length) by (nonlinear_arith)
                    requires
                        i < t,
                ;
                assert((i + 1) * self.leave_n == i * self.leave_n + self.leave_n) by (nonlinear_arith);
                assert(cv[i as int] == self.choices[i as int]@);
                assert(macs[i as int] == mac[i as int].value());
            }
            let ghost cur = io.unread();
            let ghost trees_before = trees;
            let ghost sparse_before = values(sparse@);
            let mut receiver = SpfssRecverFp::new(depth);
            receiver.set_choices(copy_bits(&self.choices[i]));
            receiver.recv(io, ot, i)?;
            let leaves = receiver.compute(mac[i]);
            proof {
                let res = recv_spec(pre, cv[i as int], depth as nat, i as int, cur).unwrap();
                trees = trees.push((res.0, res.1));
                let tail = recv_all(pre, cv, depth as nat, io.unread(), (i + 1) as nat, t as nat);
                match tail {
                    Ok((ts, rest)) => {
                        assert(trees_before + (seq![(res.0, res.1)] + ts) =~= trees + ts);
                    },
                    Err(e) => {},
                }
                lemma_receiver_sparse_ext(trees_before, trees, cv, depth as nat, macs, i as nat);
            }
            append_elements(&mut sparse, &leaves);
            if self.is_malicious {
                let seed = expand_check_seed(&self.check_seeds[i]);
                let ghost kept = values(receiver.ggm_tree@);
                let (_, w) = receiver.consistency_check_msg_gen(u[i], seed);
                proof {
                    assert(sv[i as int] == self.check_seeds[i as int]@);
                    assert forall|k: int| 0 <= k < i implies (#[trigger] vw[k]).value() == receiver_check_values(
                        trees,
                        cv,
                        sv,
                        depth as nat,
                    )[k] by {
                        assert(trees[k] == trees_before[k]);
                        assert(vw[k].value() == receiver_check_values(trees_before, cv, sv, depth as nat)[k]);
                    }
                }
                vw.push(w);
            }
            i += 1;
        }
        proof {
            assert(trees + Seq::<(Seq<nat>, nat)>::empty() =~= trees);
        }
        if self.is_malicious {
            let va = batch_sum(&vw, &mac[t]);
            let h = hash_element(&va);
            assert(values(vw@) =~= receiver_check_values(trees, cv, sv, depth as nat));
            let r = io.receive_stark252(1)?;
            assert(values(r@)[0] == r[0].value());
            self.check_vw_buf = vw;
            if !r[0].equals(&h) {
                return Err(VoleError::MaliciousAbort);
            }
        }
        Ok(sparse)
    }

    /// One run of a party's main step: for the sender `mpfss_sender` with its seed shares `triple_yz`, for
    /// the receiver `mpfss_receiver`, its second step, with its seed shares `triple_yz` and its values `u`.
    pub fn mpfss(
        &mut self,
        io: &mut CommunicationChannel,
        ot: &mut OTPre,
        triple_yz: &Vec<Fe>,
        u: &Vec<Fe>,
    ) -> (r: Result<Vec<Fe>, VoleError>)
        requires
            old(self).wf(),
            old(self).party == Role::Receiver ==> old(self).started(),
            old(self).party == Role::Sender ==> old(ot).count == 0,
            old(io).wf(),
            old(ot).wf(),
            old(ot).length == old(self).tree_height - 1,
            old(ot).n == old(self).tree_n * old(ot).length,
            triple_yz.len() == old(self).tree_n + 1,
            u.len() == old(self).tree_n + 1,
            all_wf(triple_yz@),
            all_wf(u@),
        ensures
            final(self).wf(),
            final(io).wf(),
            final(ot).wf(),
            *final(self) == (MpfssReg {
                check_vw_buf: final(self).check_vw_buf,
                prg: final(self).prg,
                ..*old(self)
            }),
            final(ot).n == old(ot).n,
            final(ot).length == old(ot).length,
            final(ot).pre_data == old(ot).pre_data,
            old(self).party == Role::Sender ==> match sender_reads(
                old(self).is_malicious,
                old(io).unread(),
                old(self).tree_n as nat,
                (old(self).tree_height - 1) as nat,
            ) {
                Err(e) => r == Err::<Vec<Fe>, VoleError>(e),
                Ok((choices, sds, x_star, rest)) => {
                    let bits = bits_after(old(ot).bits@, choices, old(ot).length as int, old(self).tree_n as nat);
                    &&& r.is_ok()
                    &&& r.unwrap().len() == old(self).idx_max
                    &&& all_wf(r.unwrap()@)
                    &&& final(io).unread() == rest
                    &&& final(ot).bits@ == bits
                    &&& final(ot).count == 0
                    &&& exists|tree_seeds: Seq<nat>|
                        tree_seeds.len() == old(self).tree_n && values(r.unwrap()@) == sender_sparse(
                            tree_seeds,
                            old(self).tree_height as nat,
                            old(self).tree_n as nat,
                        ) && final(io).written() == old(io).written() + #[trigger] sender_writes(
                            old(ot).pre_data@,
                            bits,
                            old(ot).n as int,
                            tree_seeds,
                            values(triple_yz@),
                            old(self).tree_height as nat,
                            old(self).tree_n as nat,
                            old(self).is_malicious,
                            old(self).secret_share_x.value(),
                            sds,
                            x_star,
                        )
                },
            },
            old(self).party == Role::Receiver ==> *final(ot) == *old(ot) && final(io).outgoing == old(io).outgoing
                && final(self).prg == old(self).prg && match receiver_round_spec(
                old(ot).pre_data@,
                choice_views(old(self).choices@),
                seed_views(old(self).check_seeds@),
                old(self).is_malicious,
                old(self).tree_height as nat,
                old(io).unread(),
                old(self).tree_n as nat,
                triple_yz[old(self).tree_n as int].value(),
            ) {
                Err(e) => r == Err::<Vec<Fe>, VoleError>(e),
                Ok((trees, rest)) => r.is_ok() && r.unwrap().len() == old(self).idx_max && all_wf(r.unwrap()@) && values(
                    r.unwrap()@,
                ) == receiver_sparse(
                    trees,
                    choice_views(old(self).choices@),
                    old(self).tree_height as nat,
                    values(triple_yz@),
                    old(self).tree_n as nat,
                ) && final(io).unread() == rest,
            },
    {
        match self.party {
            Role::Sender => self.mpfss_sender(io, ot, triple_yz),
            Role::Receiver => self.mpfss_receiver(io, ot, triple_yz, u),
        }
    }
}

/// The leaves of the first `i` trees depend on what was read for those trees alone.
pub proof fn lemma_receiver_sparse_ext(
    a: Seq<(Seq<nat>, nat)>,
    b: Seq<(Seq<nat>, nat)>,
    choices: Seq<Seq<bool>>,
    depth: nat,
    mac: Seq<nat>,
    i: nat,
)
    requires
        i <= a.len(),
        i <= b.len(),
        forall|k: int| 0 <= k < i ==> a[k] == b[k],
    ensures
        receiver_sparse(a, choices, depth, mac, i) == receiver_sparse(b, choices, depth, mac, i),
    decreases i,
{
    if i > 0 {
        lemma_receiver_sparse_ext(a, b, choices, depth, mac, (i - 1) as nat);
    }
}


/// The leaves of the sender's trees lie one tree after the other: leaf `j` of tree `i` is at
/// `i * leave_n + j`.
pub proof fn lemma_sender_sparse_index(seeds: Seq<nat>, depth: nat, t: nat, i: int, j: int)
    requires
        0 <= i < t,
        0 <= j < pow2i((depth - 1) as nat),
    ensures
        sender_sparse(seeds, depth, t).len() == t * pow2i((depth - 1) as nat),
        sender_sparse(seeds, depth, t)[i * pow2i((depth - 1) as nat) + j] == crate::ggm::ggm_node(
            seeds[i],
            (depth - 1) as nat,
            j,
        ),
    decreases t,
{
    let ln = pow2i((depth - 1) as nat) as int;
    lemma_sender_sparse_len(seeds, depth, (t - 1) as nat);
    assert((t - 1) * ln + ln == t * ln) by (nonlinear_arith);
    if i < t - 1 {
        lemma_sender_sparse_index(seeds, depth, (t - 1) as nat, i, j);
        assert(i * ln + j < (t - 1) * ln) by (nonlinear_arith)
            requires
                0 <= i < t - 1,
                0 <= j < ln,
        ;
    } else {
        assert(i * ln + j - (t - 1) * ln == j) by (nonlinear_arith)
            requires
                i == t - 1,
        ;
    }
}

/// The leaves of `t` trees of the sender are `t * leave_n` in number.
pub proof fn lemma_sender_sparse_len(seeds: Seq<nat>, depth: nat, t: nat)
    ensures
        sender_sparse(seeds, depth, t).len() == t * pow2i((depth - 1) as nat),
    decreases t,
{
    let ln = pow2i((depth - 1) as nat) as int;
    if t > 0 {
        lemma_sender_sparse_len(seeds, depth, (t - 1) as nat);
        assert((t - 1) * ln + ln == t * ln) by (nonlinear_arith);
    } else {
        assert(0 * ln == 0) by (nonlinear_arith);
    }
}

/// The leaves of `t` trees of the receiver are `t * leave_n` in number.
pub proof fn lemma_receiver_sparse_len(
    trees: Seq<(Seq<nat>, nat)>,
    choices: Seq<Seq<bool>>,
    depth: nat,
    mac: Seq<nat>,
    t: nat,
)
    requires
        depth >= 1,
    ensures
        receiver_sparse(trees, choices, depth, mac, t).len() == t * pow2i((depth - 1) as nat),
    decreases t,
{
    let ln = pow2i((depth - 1) as nat) as int;
    if t > 0 {
        lemma_receiver_sparse_len(trees, choices, depth, mac, (t - 1) as nat);
        crate::ggm::lemma_recover_len(trees[t - 1].0, choices[t - 1], (depth - 1) as nat);
        crate::ggm::lemma_path_bound(choices[t - 1], (depth - 1) as nat);
        assert((t - 1) * ln + ln == t * ln) by (nonlinear_arith);
    } else {
        assert(0 * ln == 0) by (nonlinear_arith);
    }
}

/// The leaves of the receiver's trees lie one tree after the other: leaf `j` of tree `i` is at
/// `i * leave_n + j`.
pub proof fn lemma_receiver_sparse_index(
    trees: Seq<(Seq<nat>, nat)>,
    choices: Seq<Seq<bool>>,
    depth: nat,
    mac: Seq<nat>,
    t: nat,
    i: int,
    j: int,
)
    requires
        depth >= 1,
        0 <= i < t,
        0 <= j < pow2i((depth - 1) as nat),
    ensures
        receiver_sparse(trees, choices, depth, mac, t)[i * pow2i((depth - 1) as nat) + j] == receiver_leaves(
            trees[i].0,
            choices[i],
            depth,
            trees[i].1,
            mac[i],
        )[j],
    decreases t,
{
    let ln = pow2i((depth - 1) as nat) as int;
    lemma_receiver_sparse_len(trees, choices, depth, mac, (t - 1) as nat);
    crate::ggm::lemma_recover_len(trees[t - 1].0, choices[t - 1], (depth - 1) as nat);
    crate::ggm::lemma_path_bound(choices[t - 1], (depth - 1) as nat);
    if i < t - 1 {
        lemma_receiver_sparse_index(trees, choices, depth, mac, (t - 1) as nat, i, j);
        assert(i * ln + j < (t - 1) * ln) by (nonlinear_arith)
            requires
                0 <= i < t - 1,
                0 <= j < ln,
        ;
    } else {
        assert(i * ln + j - (t - 1) * ln == j) by (nonlinear_arith)
            requires
                i == t - 1,
        ;
    }
}

/// The regularity of the shared vector. Let, for every tree, each sum that the receiver got for a level be
/// the sender's sum of that level over the parity of the receiver's choice bit. Then the two parties'
/// vectors of leaves agree everywhere but at the receiver's place in every block of `leave_n` entries: the
/// difference has at most one non-zero entry in every block, at most `t` in all.
pub proof fn lemma_mpfss_regular(
    seeds: Seq<nat>,
    trees: Seq<(Seq<nat>, nat)>,
    choices: Seq<Seq<bool>>,
    depth: nat,
    mac: Seq<nat>,
    t: nat,
    i: int,
    j: int,
)
    requires
        depth >= 2,
        0 <= i < t,
        0 <= j < pow2i((depth - 1) as nat),
        j != path_index(choices[i], (depth - 1) as nat),
        forall|h: int|
            0 <= h < depth - 1 ==> #[trigger] trees[i].0[h] == crate::ggm::parity_sum(
                ggm_level(seeds[i], (h + 1) as nat),
                if choices[i][h] {
                    1int
                } else {
                    0int
                },
                pow2i((h + 1) as nat),
            ),
    ensures
        receiver_sparse(trees, choices, depth, mac, t)[i * pow2i((depth - 1) as nat) + j] == sender_sparse(
            seeds,
            depth,
            t,
        )[i * pow2i((depth - 1) as nat) + j],
{
    lemma_sender_sparse_index(seeds, depth, t, i, j);
    lemma_receiver_sparse_index(trees, choices, depth, mac, t, i, j);
    crate::ggm::lemma_recover_correct(seeds[i], trees[i].0, choices[i], (depth - 1) as nat);
    crate::ggm::lemma_path_bound(choices[i], (depth - 1) as nat);
}

/// The weight of the shared vector. Under the conditions of `lemma_mpfss_regular`, with the secret sum of
/// tree `i` the sender's, the two parties' vectors differ at the receiver's place of block `i` exactly
/// where `mac[i] - gamma - 2 * (sum of the sender's leaves of tree i)` is not a multiple of the prime: where
/// that holds of every tree, the difference has exactly one non-zero entry in every block, `t` in all.
pub proof fn lemma_mpfss_weight(
    seeds: Seq<nat>,
    gammas: Seq<nat>,
    trees: Seq<(Seq<nat>, nat)>,
    choices: Seq<Seq<bool>>,
    depth: nat,
    mac: Seq<nat>,
    t: nat,
    i: int,
)
    requires
        depth >= 2,
        0 <= i < t,
        forall|h: int|
            0 <= h < depth - 1 ==> #[trigger] trees[i].0[h] == crate::ggm::parity_sum(
                ggm_level(seeds[i], (h + 1) as nat),
                if choices[i][h] {
                    1int
                } else {
                    0int
                },
                pow2i((h + 1) as nat),
            ),
        trees[i].1 == secret_sum_of(seeds[i], depth, gammas[i]),
    ensures
        ({
            let at = i * pow2i((depth - 1) as nat) + path_index(choices[i], (depth - 1) as nat);
            (receiver_sparse(trees, choices, depth, mac, t)[at] != sender_sparse(seeds, depth, t)[at]) <==> !crate::field_laws::cong(
                mac[i] as int - gammas[i] as int - 2 * crate::field::sum(
                    ggm_level(seeds[i], (depth - 1) as nat),
                    pow2i((depth - 1) as nat),
                ) as int,
                0,
            )
        }),
{
    let h = (depth - 1) as nat;
    let alpha = path_index(choices[i], h);
    crate::ggm::lemma_path_bound(choices[i], h);
    lemma_sender_sparse_index(seeds, depth, t, i, alpha);
    lemma_receiver_sparse_index(trees, choices, depth, mac, t, i, alpha);
    let leaves_r = receiver_leaves(trees[i].0, choices[i], depth, trees[i].1, mac[i]);
    crate::ggm::lemma_recover_len(trees[i].0, choices[i], h);
    crate::ggm::lemma_point_sharing(seeds[i], trees[i].0, choices[i], depth, gammas[i], mac[i], leaves_r);
    let v = leaves_r[alpha];
    let s = crate::ggm::ggm_node(seeds[i], h, alpha);
    let target = mac[i] as int - gammas[i] as int - 2 * crate::field::sum(ggm_level(seeds[i], h), pow2i(h)) as int;
    crate::ggm::lemma_node_bound(seeds[i], h, alpha);
    crate::field_laws::lemma_field_ops(mac[i], fadd(crate::field::sum(crate::ggm::recover_level(trees[i].0, choices[i], h), pow2i(h)), trees[i].1));
    if v == s {
        crate::field_laws::lemma_cong_refl(0, v as int - s as int);
        crate::field_laws::lemma_cong_trans(0, v as int - s as int, target);
        crate::field_laws::lemma_cong_refl(0, target);
    } else {
        if crate::field_laws::cong(target, 0) {
            crate::field_laws::lemma_cong_trans(v as int - s as int, target, 0);
            assert(crate::field_laws::cong(v as int, s as int));
            crate::field_laws::lemma_cong_eq(v as int, s as int);
        }
    }
}

/// What the sender writes for the trees from `i` up to `t`, the first of them first.
pub open spec fn frames_from(
    pre_data: Seq<[u8; 32]>,
    bits: Seq<bool>,
    n: int,
    seeds: Seq<nat>,
    gammas: Seq<nat>,
    depth: nat,
    i: nat,
    t: nat,
) -> Seq<u8>
    decreases t - i,
{
    if i >= t {
        Seq::empty()
    } else {
        crate::spfss_sender::sender_frames(pre_data, bits, n, seeds[i as int], gammas[i as int], depth, i as int)
            + frames_from(pre_data, bits, n, seeds, gammas, depth, i + 1, t)
    }
}

/// The frames of the trees from `i` up to `t + 1` are those up to `t`, and then those of tree `t`.
pub proof fn lemma_frames_from_end(
    pre_data: Seq<[u8; 32]>,
    bits: Seq<bool>,
    n: int,
    seeds: Seq<nat>,
    gammas: Seq<nat>,
    depth: nat,
    i: nat,
    t: nat,
)
    requires
        i <= t,
    ensures
        frames_from(pre_data, bits, n, seeds, gammas, depth, i, t + 1) == frames_from(
            pre_data,
            bits,
            n,
            seeds,
            gammas,
            depth,
            i,
            t,
        ) + crate::spfss_sender::sender_frames(pre_data, bits, n, seeds[t as int], gammas[t as int], depth, t as int),
    decreases t - i,
{
    let last = crate::spfss_sender::sender_frames(pre_data, bits, n, seeds[t as int], gammas[t as int], depth, t as int);
    if i < t {
        lemma_frames_from_end(pre_data, bits, n, seeds, gammas, depth, i + 1, t);
        let first = crate::spfss_sender::sender_frames(
            pre_data,
            bits,
            n,
            seeds[i as int],
            gammas[i as int],
            depth,
            i as int,
        );
        let mid = frames_from(pre_data, bits, n, seeds, gammas, depth, i + 1, t);
        assert(first + (mid + last) =~= (first + mid) + last);
    } else {
        assert(frames_from(pre_data, bits, n, seeds, gammas, depth, t + 1, t + 1) =~= Seq::<u8>::empty());
        assert(last + Seq::<u8>::empty() =~= Seq::<u8>::empty() + last);
    }
}

/// What the sender writes for all its trees is what it writes for the trees from the first on.
pub proof fn lemma_all_frames(
    pre_data: Seq<[u8; 32]>,
    bits: Seq<bool>,
    n: int,
    seeds: Seq<nat>,
    gammas: Seq<nat>,
    depth: nat,
    t: nat,
)
    ensures
        sender_all_frames(pre_data, bits, n, seeds, gammas, depth, t) == frames_from(
            pre_data,
            bits,
            n,
            seeds,
            gammas,
            depth,
            0,
            t,
        ),
    decreases t,
{
    if t > 0 {
        lemma_all_frames(pre_data, bits, n, seeds, gammas, depth, (t - 1) as nat);
        lemma_frames_from_end(pre_data, bits, n, seeds, gammas, depth, 0, (t - 1) as nat);
    }
}

/// Whether what was read for the trees from `i` up to `t` is what the sender offers for them: for every
/// tree its sums over the parities that the receiver's choice bits select, and its secret sum.
pub open spec fn reads_match(
    trees: Seq<(Seq<nat>, nat)>,
    choices: Seq<Seq<bool>>,
    seeds: Seq<nat>,
    gammas: Seq<nat>,
    depth: nat,
    i: nat,
    t: nat,
) -> bool {
    &&& trees.len() == t - i
    &&& forall|j: int|
        i <= j < t ==> (#[trigger] trees[j - i]).1 == crate::spfss_sender::secret_sum_of(seeds[j], depth, gammas[j])
            && trees[j - i].0.len() == depth - 1 && forall|h: int|
            0 <= h < depth - 1 ==> #[trigger] trees[j - i].0[h] == crate::ggm::parity_sum(
                ggm_level(seeds[j], (h + 1) as nat),
                if choices[j][h] {
                    1int
                } else {
                    0int
                },
                pow2i((h + 1) as nat),
            )
}

/// What the receiver reads for the trees from `i` up to `t` of what the sender wrote for them, over
/// buffers of correlated transfers: what the sender offers, and all of it.
pub proof fn lemma_trees_read_from(
    s_pre: Seq<[u8; 32]>,
    s_bits: Seq<bool>,
    r_pre: Seq<[u8; 32]>,
    r_bits: Seq<bool>,
    n: int,
    qs: Seq<Seq<Seq<u8>>>,
    ts: Seq<Seq<Seq<u8>>>,
    delta: Seq<u8>,
    choices: Seq<Seq<bool>>,
    seeds: Seq<nat>,
    gammas: Seq<nat>,
    depth: nat,
    i: nat,
    t: nat,
    rest: Seq<u8>,
)
    requires
        depth >= 2,
        i <= t,
        t * (depth - 1) <= n,
        64 * (depth - 1) <= u64::MAX,
        s_pre.len() == 2 * n,
        r_pre.len() >= n,
        delta.len() == 32,
        forall|j: int|
            i <= j < t ==> crate::spfss_receiver::slot_correlated(
                s_pre,
                s_bits,
                r_pre,
                r_bits,
                n,
                #[trigger] qs[j],
                ts[j],
                delta,
                choices[j],
                depth - 1,
                j * (depth - 1),
            ),
    ensures
        recv_all(
            r_pre,
            choices,
            depth,
            frames_from(s_pre, s_bits, n, seeds, gammas, depth, i, t) + rest,
            i,
            t,
        ) matches Ok((trees, left)) && left == rest && reads_match(trees, choices, seeds, gammas, depth, i, t),
    decreases t - i,
{
    if i < t {
        let later = frames_from(s_pre, s_bits, n, seeds, gammas, depth, i + 1, t);
        let first = crate::spfss_sender::sender_frames(s_pre, s_bits, n, seeds[i as int], gammas[i as int], depth, i as int);
        let unread = frames_from(s_pre, s_bits, n, seeds, gammas, depth, i, t) + rest;
        assert(unread =~= first + (later + rest));
        assert(i * (depth - 1) + (depth - 1) <= n) by (nonlinear_arith)
            requires
                i < t,
                t * (depth - 1) <= n,
                depth >= 2,
        ;
        assert(crate::spfss_receiver::slot_correlated(
            s_pre,
            s_bits,
            r_pre,
            r_bits,
            n,
            qs[i as int],
            ts[i as int],
            delta,
            choices[i as int],
            depth - 1,
            i * (depth - 1),
        ));
        crate::spfss_receiver::lemma_tree_read(
            s_pre,
            s_bits,
            r_pre,
            r_bits,
            n,
            qs[i as int],
            ts[i as int],
            delta,
            choices[i as int],
            seeds[i as int],
            gammas[i as int],
            depth,
            i as int,
            later + rest,
        );
        lemma_trees_read_from(
            s_pre,
            s_bits,
            r_pre,
            r_bits,
            n,
            qs,
            ts,
            delta,
            choices,
            seeds,
            gammas,
            depth,
            i + 1,
            t,
            rest,
        );
        let one = crate::spfss_receiver::recv_spec(r_pre, choices[i as int], depth, i as int, unread).unwrap();
        let more = recv_all(r_pre, choices, depth, later + rest, i + 1, t).unwrap();
        let trees = seq![(one.0, one.1)] + more.0;
        assert(recv_all(r_pre, choices, depth, unread, i, t) == Ok::<(Seq<(Seq<nat>, nat)>, Seq<u8>), VoleError>(
            (trees, rest),
        ));
        assert forall|j: int| i <= j < t implies (#[trigger] trees[j - i]).1 == crate::spfss_sender::secret_sum_of(
            seeds[j],
            depth,
            gammas[j],
        ) && trees[j - i].0.len() == depth - 1 && forall|h: int|
            0 <= h < depth - 1 ==> #[trigger] trees[j - i].0[h] == crate::ggm::parity_sum(
                ggm_level(seeds[j], (h + 1) as nat),
                if choices[j][h] {
                    1int
                } else {
                    0int
                },
                pow2i((h + 1) as nat),
            ) by {
            if j > i {
                assert(trees[j - i] == more.0[j - (i + 1)]);
            }
        }
    } else {
        assert(frames_from(s_pre, s_bits, n, seeds, gammas, depth, i, t) + rest =~= rest);
    }
}

/// The regularity of the shared vector over a run of both parties, without the batched check. Let the two
/// parties' buffers of precomputed transfers hold correlated transfers in the slot of every tree, and let
/// the receiver find in the channel what the sender's part wrote for the trees that grow from `seeds`.
/// Then the receiver's second step reads all of it, and the vector of leaves that its contract gives
/// the receiver is the vector that the sender's contract gives the sender at every place but the
/// receiver's own place of a tree.
pub proof fn lemma_mpfss_pair(
    s_pre: Seq<[u8; 32]>,
    s_bits: Seq<bool>,
    r_pre: Seq<[u8; 32]>,
    r_bits: Seq<bool>,
    n: int,
    qs: Seq<Seq<Seq<u8>>>,
    ts: Seq<Seq<Seq<u8>>>,
    delta: Seq<u8>,
    choices: Seq<Seq<bool>>,
    seeds: Seq<nat>,
    gammas: Seq<nat>,
    mac: Seq<nat>,
    depth: nat,
    t: nat,
    rest: Seq<u8>,
    i: int,
    j: int,
)
    requires
        depth >= 2,
        t * (depth - 1) <= n,
        64 * (depth - 1) <= u64::MAX,
        s_pre.len() == 2 * n,
        r_pre.len() >= n,
        delta.len() == 32,
        forall|k: int|
            0 <= k < t ==> crate::spfss_receiver::slot_correlated(
                s_pre,
                s_bits,
                r_pre,
                r_bits,
                n,
                #[trigger] qs[k],
                ts[k],
                delta,
                choices[k],
                depth - 1,
                k * (depth - 1),
            ),
        0 <= i < t,
        0 <= j < pow2i((depth - 1) as nat),
        j != path_index(choices[i], (depth - 1) as nat),
    ensures
        receiver_round_spec(
            r_pre,
            choices,
            Seq::empty(),
            false,
            depth,
            sender_all_frames(s_pre, s_bits, n, seeds, gammas, depth, t) + rest,
            t,
            mac[t as int],
        ) matches Ok((trees, left)) && left == rest && receiver_sparse(trees, choices, depth, mac, t)[i * pow2i(
            (depth - 1) as nat,
        ) + j] == sender_sparse(seeds, depth, t)[i * pow2i((depth - 1) as nat) + j],
{
    lemma_all_frames(s_pre, s_bits, n, seeds, gammas, depth, t);
    lemma_trees_read_from(s_pre, s_bits, r_pre, r_bits, n, qs, ts, delta, choices, seeds, gammas, depth, 0, t, rest);
    let trees = recv_all(
        r_pre,
        choices,
        depth,
        sender_all_frames(s_pre, s_bits, n, seeds, gammas, depth, t) + rest,
        0,
        t,
    ).unwrap().0;
    assert(trees[i - 0] == trees[i]);
    lemma_mpfss_regular(seeds, trees, choices, depth, mac, t, i, j);
}

} // verus!
