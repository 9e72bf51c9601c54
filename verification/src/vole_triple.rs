use vstd::prelude::*;
use crate::base_cot::BaseCot;
use crate::base_svole::{copy_elements, BaseSvole, FIELD_BITS};
use crate::comm_channel::CommunicationChannel;
use crate::cope::{pow2i, zero_vector};
use crate::error::VoleError;
use crate::field::{all_wf, fadd, fmul, values, Fe};
use crate::iknp::BLOCK_SIZE;
use crate::lpn::{lpn_expand, Lpn};
use crate::mpfss_reg::{append_elements, MpfssReg};
use crate::preot::OTPre;
use crate::prg::PRG;
use crate::role::Role;
use crate::spfss_sender::pow2_usize;

verus! {

/// The sizes of the three layers of a session: the main layer, the layer that bootstraps it, and the layer
/// that bootstraps that one. Each layer has `n` outputs from `t` trees of `2^log_bin_sz` leaves and a seed
/// vector of `k` entries.
#[derive(Clone, Copy, Debug, PartialEq, Eq)]
pub struct PrimalLPNParameterFp61 {
    pub n: usize,
    pub t: usize,
    pub k: usize,
    pub log_bin_sz: usize,
    pub n_pre: usize,
    pub t_pre: usize,
    pub k_pre: usize,
    pub log_bin_sz_pre: usize,
    pub n_pre0: usize,
    pub t_pre0: usize,
    pub k_pre0: usize,
    pub log_bin_sz_pre0: usize,
}

/// Whether a layer's sizes fit: `n = t * 2^log_bin_sz`.
pub open spec fn layer_fits(n: usize, t: usize, log_bin_sz: usize) -> bool {
    n == t * pow2i(log_bin_sz as nat)
}

/// Whether `n = t * 2^log_bin_sz`, for any exponent: `t` is doubled until it passes `n` or the exponent
/// is reached.
pub fn check_layer(n: usize, t: usize, log_bin_sz: usize) -> (r: bool)
    ensures
        r == layer_fits(n, t, log_bin_sz),
{
    proof {
        crate::ggm::lemma_pow2i_pos(log_bin_sz as nat);
    }
    if t == 0 {
        assert(0 * pow2i(log_bin_sz as nat) == 0) by (nonlinear_arith);
        return n == 0;
    }
    if t > n {
        assert(t * pow2i(log_bin_sz as nat) >= t) by (nonlinear_arith)
            requires
                pow2i(log_bin_sz as nat) >= 1,
                t >= 1,
        ;
        return false;
    }
    let mut acc: usize = t;
    let mut i: usize = 0;
    assert(t * pow2i(0) == t) by (nonlinear_arith)
        requires
            pow2i(0) == 1,
    ;
    while i < log_bin_sz
        invariant
            i <= log_bin_sz,
            t >= 1,
            acc <= n,
            acc == t * pow2i(i as nat),
        decreases log_bin_sz - i,
    {
        proof {
            crate::ggm::lemma_pow2i_pos(i as nat);
            assert(t * pow2i((i + 1) as nat) == 2 * (t * pow2i(i as nat))) by (nonlinear_arith)
                requires
                    pow2i((i + 1) as nat) == 2 * pow2i(i as nat),
            ;
        }
        if acc > n / 2 {
            proof {
                crate::spfss_sender::lemma_pow2i_le((i + 1) as nat, log_bin_sz as nat);
                assert(t * pow2i(log_bin_sz as nat) >= t * pow2i((i + 1) as nat)) by (nonlinear_arith)
                    requires
                        pow2i(log_bin_sz as nat) >= pow2i((i + 1) as nat),
                        t >= 1,
                ;
            }
            return false;
        }
        acc = acc * 2;
        i += 1;
    }
    acc == n
}

impl PrimalLPNParameterFp61 {
    /// The relations between the sizes: every layer fits, and the first bootstrap layer gives enough
    /// outputs to seed the main layer.
    pub open spec fn valid(&self) -> bool {
        &&& layer_fits(self.n, self.t, self.log_bin_sz)
        &&& layer_fits(self.n_pre, self.t_pre, self.log_bin_sz_pre)
        &&& layer_fits(self.n_pre0, self.t_pre0, self.log_bin_sz_pre0)
        &&& self.n_pre >= self.k + self.t + 1
    }

    /// The sizes with which a session can run on this machine: valid, every tree with at least two
    /// leaves, every seed vector non-empty, every layer seeded by the one before and larger than its own
    /// seed. The upper bounds are limits of the machine, not of the protocol: they keep every count of
    /// elements, and the byte count of every message, inside a `usize` of 32 bits.
    pub open spec fn usable(&self) -> bool {
        &&& self.valid()
        &&& 1 <= self.log_bin_sz <= 30 && 1 <= self.log_bin_sz_pre <= 30 && 1 <= self.log_bin_sz_pre0 <= 30
        &&& self.k >= 1 && self.k_pre >= 1 && self.k_pre0 >= 1
        &&& self.t <= 0x100_0000 && self.t_pre <= 0x100_0000 && self.t_pre0 <= 0x2_0000
        &&& self.k <= 0x4000_0000 && self.k_pre <= 0x4000_0000 && self.k_pre0 <= 0x4_0000
        &&& self.n <= 0x4000_0000 && self.n_pre <= 0x4000_0000 && self.n_pre0 <= 0x4000_0000
        &&& self.n_pre0 >= self.k_pre + self.t_pre + 1
        &&& self.n > self.k + self.t + 1
    }

    /// All sizes zero.
    pub fn new() -> (r: Self)
        ensures
            r.n == 0 && r.t == 0 && r.k == 0 && r.log_bin_sz == 0,
            r.n_pre == 0 && r.t_pre == 0 && r.k_pre == 0 && r.log_bin_sz_pre == 0,
            r.n_pre0 == 0 && r.t_pre0 == 0 && r.k_pre0 == 0 && r.log_bin_sz_pre0 == 0,
    {
        PrimalLPNParameterFp61 {
            n: 0,
            t: 0,
            k: 0,
            log_bin_sz: 0,
            n_pre: 0,
            t_pre: 0,
            k_pre: 0,
            log_bin_sz_pre: 0,
            n_pre0: 0,
            t_pre0: 0,
            k_pre0: 0,
            log_bin_sz_pre0: 0,
        }
    }

    /// The given sizes, if they are valid: `n = t * 2^log_bin_sz` in every layer, and `n_pre >= k + t + 1`.
    /// If not, the parameters are mismatched. Whether a session can run with them on this machine is
    /// another question, which `is_usable` answers.
    pub fn with_params(
        n: usize,
        t: usize,
        k: usize,
        log_bin_sz: usize,
        n_pre: usize,
        t_pre: usize,
        k_pre: usize,
        log_bin_sz_pre: usize,
        n_pre0: usize,
        t_pre0: usize,
        k_pre0: usize,
        log_bin_sz_pre0: usize,
    ) -> (r: Result<Self, VoleError>)
        ensures
            ({
                let p = PrimalLPNParameterFp61 {
                    n,
                    t,
                    k,
                    log_bin_sz,
                    n_pre,
                    t_pre,
                    k_pre,
                    log_bin_sz_pre,
                    n_pre0,
                    t_pre0,
                    k_pre0,
                    log_bin_sz_pre0,
                };
                if p.valid() {
                    r == Ok::<Self, VoleError>(p)
                } else {
                    r == Err::<Self, VoleError>(VoleError::ParameterMismatch)
                }
            }),
    {
        let enough = match k.checked_add(t) {
            Some(s) => match s.checked_add(1) {
                Some(m) => n_pre >= m,
                None => false,
            },
            None => false,
        };
        if !check_layer(n, t, log_bin_sz) || !check_layer(n_pre, t_pre, log_bin_sz_pre) || !check_layer(
            n_pre0,
            t_pre0,
            log_bin_sz_pre0,
        ) || !enough {
            return Err(VoleError::ParameterMismatch);
        }
        Ok(
            PrimalLPNParameterFp61 {
                n,
                t,
                k,
                log_bin_sz,
                n_pre,
                t_pre,
                k_pre,
                log_bin_sz_pre,
                n_pre0,
                t_pre0,
                k_pre0,
                log_bin_sz_pre0,
            },
        )
    }

    /// The number of outputs that a round of the main layer gives to the caller: what is left of its `n`
    /// outputs when the seed of the next round is kept.
    pub fn buf_sz(&self) -> (r: usize)
        requires
            self.n >= self.t + self.k + 1,
        ensures
            r == self.n - self.t - self.k - 1,
    {
        self.n - self.t - self.k - 1
    }

    /// Whether a session can run with these sizes on this machine.
    pub fn is_usable(&self) -> (r: bool)
        ensures
            r == self.usable(),
    {
        let small = self.t <= 0x100_0000 && self.t_pre <= 0x100_0000 && self.t_pre0 <= 0x2_0000 && self.k
            <= 0x4000_0000 && self.k_pre <= 0x4000_0000 && self.k_pre0 <= 0x4_0000 && self.n <= 0x4000_0000
            && self.n_pre <= 0x4000_0000 && self.n_pre0 <= 0x4000_0000;
        if !small {
            return false;
        }
        check_layer(self.n, self.t, self.log_bin_sz) && check_layer(self.n_pre, self.t_pre, self.log_bin_sz_pre)
            && check_layer(self.n_pre0, self.t_pre0, self.log_bin_sz_pre0) && self.n_pre >= self.k + self.t + 1
            && 1 <= self.log_bin_sz && self.log_bin_sz <= 30 && 1 <= self.log_bin_sz_pre && self.log_bin_sz_pre
            <= 30 && 1 <= self.log_bin_sz_pre0 && self.log_bin_sz_pre0 <= 30 && self.k >= 1
            && self.k_pre >= 1 && self.k_pre0 >= 1 && self.n_pre0 >= self.k_pre + self.t_pre + 1 && self.n > self.k
            + self.t + 1
    }
}

/// The default sizes: about ten million outputs a round.
pub fn fp_default() -> (r: PrimalLPNParameterFp61)
    ensures
        r.n == 10168320 && r.t == 4965 && r.k == 158000 && r.log_bin_sz == 11,
        r.n_pre == 166400 && r.t_pre == 2600 && r.k_pre == 5060 && r.log_bin_sz_pre == 6,
        r.n_pre0 == 9600 && r.t_pre0 == 600 && r.k_pre0 == 1220 && r.log_bin_sz_pre0 == 4,
{
    PrimalLPNParameterFp61 {
        n: 10168320,
        t: 4965,
        k: 158000,
        log_bin_sz: 11,
        n_pre: 166400,
        t_pre: 2600,
        k_pre: 5060,
        log_bin_sz_pre: 6,
        n_pre0: 9600,
        t_pre0: 600,
        k_pre0: 1220,
        log_bin_sz_pre0: 4,
    }
}

/// The sizes of Wolverine: about 10.8 million outputs a round.
pub fn wolverine_lpn() -> (r: PrimalLPNParameterFp61)
    ensures
        r.n == 10805248 && r.t == 1319 && r.k == 589760 && r.log_bin_sz == 13,
        r.n_pre == 642048 && r.t_pre == 2508 && r.k_pre == 19870 && r.log_bin_sz_pre == 8,
        r.n_pre0 == 22400 && r.t_pre0 == 700 && r.k_pre0 == 2000 && r.log_bin_sz_pre0 == 5,
{
    PrimalLPNParameterFp61 {
        n: 10805248,
        t: 1319,
        k: 589760,
        log_bin_sz: 13,
        n_pre: 642048,
        t_pre: 2508,
        k_pre: 19870,
        log_bin_sz_pre: 8,
        n_pre0: 22400,
        t_pre0: 700,
        k_pre0: 2000,
        log_bin_sz_pre0: 5,
    }
}

/// Small sizes for trials: about 675 thousand outputs a round.
pub fn phuoc_lpn() -> (r: PrimalLPNParameterFp61)
    ensures
        r.n == 675328 && r.t == 1319 && r.k == 589760 && r.log_bin_sz == 9,
        r.n_pre == 642048 && r.t_pre == 2508 && r.k_pre == 19870 && r.log_bin_sz_pre == 8,
        r.n_pre0 == 22400 && r.t_pre0 == 700 && r.k_pre0 == 2000 && r.log_bin_sz_pre0 == 5,
{
    PrimalLPNParameterFp61 {
        n: 675328,
        t: 1319,
        k: 589760,
        log_bin_sz: 9,
        n_pre: 642048,
        t_pre: 2508,
        k_pre: 19870,
        log_bin_sz_pre: 8,
        n_pre0: 22400,
        t_pre0: 700,
        k_pre0: 2000,
        log_bin_sz_pre0: 5,
    }
}


/// What one layer of the session works with: its multi-point sharing, its buffer of precomputed transfers,
/// and its expander.
#[derive(Clone)]
pub struct Layer {
    pub mpfss: MpfssReg,
    pub pre_ot: OTPre,
    pub lpn: Lpn,
    pub n: usize,
    pub t: usize,
    pub k: usize,
    pub log_bin_sz: usize,
}

impl Layer {
    /// The parts have the sizes of the layer.
    pub open spec fn wf(&self) -> bool {
        &&& 1 <= self.log_bin_sz <= 30
        &&& self.t <= 0x100_0000
        &&& self.k >= 1
        &&& self.mpfss.wf()
        &&& self.pre_ot.wf()
        &&& self.lpn.wf()
        &&& self.mpfss.tree_n == self.t
        &&& self.mpfss.idx_max == self.n
        &&& self.mpfss.tree_height == self.log_bin_sz + 1
        &&& self.pre_ot.length == self.log_bin_sz
        &&& self.pre_ot.n == self.t * self.log_bin_sz
        &&& self.lpn.n == self.n
        &&& self.lpn.k == self.k
    }

    /// A fresh layer of the given sizes for a party; the sender's gets its key.
    pub fn new(
        party: Role,
        malicious: bool,
        delta: Fe,
        n: usize,
        t: usize,
        k: usize,
        log_bin_sz: usize,
    ) -> (r: Result<Self, VoleError>)
        requires
            delta.wf(),
        ensures
            (1 <= log_bin_sz <= 30 && n == t * pow2i(log_bin_sz as nat) && k >= 1 && t <= 0x100_0000) ==> r.is_ok(),
            r matches Ok(l) ==> l.wf() && l.n == n && l.t == t && l.k == k && l.log_bin_sz == log_bin_sz
                && l.mpfss.party == party && l.mpfss.is_malicious == malicious && l.pre_ot.count == 0
                && l.mpfss.secret_share_x == delta && l.lpn.seed@ == lpn_seed() && l.lpn.seed_field@
                == lpn_seed_field(),
            r matches Err(e) ==> e == VoleError::ParameterMismatch,
    {
        if t > 0x100_0000 {
            return Err(VoleError::ParameterMismatch);
        }
        let mut mpfss = MpfssReg::new(n, t, log_bin_sz, party)?;
        if malicious {
            mpfss.set_malicious();
        }
        mpfss.sender_init(delta);
        assert(2 * log_bin_sz * t <= usize::MAX) by (nonlinear_arith)
            requires
                log_bin_sz <= 30,
                t <= 0x100_0000,
        ;
        assert(t * log_bin_sz == log_bin_sz * t) by (nonlinear_arith);
        let pre_ot = OTPre::new(log_bin_sz, t);
        let seed = [0u8; 16];
        let mut seed_field = [0u8; 32];
        seed_field[0] = 1;
        assert(seed@ =~= lpn_seed());
        assert(seed_field@ =~= lpn_seed_field());
        let lpn = Lpn::new(k, n, &seed, &seed_field)?;
        Ok(Layer { mpfss, pre_ot, lpn, n, t, k, log_bin_sz })
    }
}

/// The first `len` elements of a vector.
pub fn head(v: &Vec<Fe>, len: usize) -> (r: Vec<Fe>)
    requires
        len <= v.len(),
    ensures
        r@ == v@.take(len as int),
        r.len() == len,
{
    let mut r: Vec<Fe> = Vec::new();
    let mut i: usize = 0;
    while i < len
        invariant
            i <= len,
            len <= v.len(),
            r@ == v@.take(i as int),
        decreases len - i,
    {
        r.push(v[i]);
        assert(v@.take(i as int).push(v@[i as int]) =~= v@.take(i as int + 1));
        i += 1;
    }
    r
}

/// The elements of a vector from `from` on.
pub fn tail(v: &Vec<Fe>, from: usize) -> (r: Vec<Fe>)
    requires
        from <= v.len(),
    ensures
        r@ == v@.skip(from as int),
        r.len() == v.len() - from,
{
    let mut r: Vec<Fe> = Vec::new();
    let mut i: usize = from;
    assert(v@.subrange(from as int, from as int) =~= Seq::<Fe>::empty());
    while i < v.len()
        invariant
            from <= i <= v.len(),
            r@ == v@.subrange(from as int, i as int),
        decreases v.len() - i,
    {
        r.push(v[i]);
        assert(v@.subrange(from as int, i as int).push(v@[i as int]) =~= v@.subrange(from as int, i as int + 1));
        i += 1;
    }
    assert(v@.subrange(from as int, v.len() as int) =~= v@.skip(from as int));
    r
}

/// Parts of a vector of canonical elements are canonical.
pub proof fn lemma_parts_wf(v: Seq<Fe>, at: int)
    requires
        all_wf(v),
        0 <= at <= v.len(),
    ensures
        all_wf(v.take(at)),
        all_wf(v.skip(at)),
{
    assert forall|i: int| 0 <= i < v.take(at).len() implies (#[trigger] v.take(at)[i]).wf() by {
        assert(v.take(at)[i] == v[i]);
    }
    assert forall|i: int| 0 <= i < v.skip(at).len() implies (#[trigger] v.skip(at)[i]).wf() by {
        assert(v.skip(at)[i] == v[i + at]);
    }
}

/// The noise of the receiver's values: zero everywhere but at the receiver's place in every block of
/// `leave_n` entries, where it is the receiver's value for that block's tree.
pub open spec fn place_noise(places: Seq<usize>, vals: Seq<nat>, leave_n: int, n: nat) -> Seq<nat> {
    Seq::new(n, |k: int| if k % leave_n == places[k / leave_n] {
        vals[k / leave_n]
    } else {
        0
    })
}

/// The sender's shares of one round of a layer of `t` trees of `2^log_bin_sz` leaves, with the seeds
/// `tree_seeds` of its trees: the leaves of the trees, expanded with the seed correlations after the
/// first `t + 1`.
pub open spec fn layer_sender_shares(tree_seeds: Seq<nat>, key: Seq<Fe>, t: int, log_bin_sz: int) -> Seq<nat> {
    lpn_expand(
        lpn_seed(),
        lpn_seed_field(),
        crate::mpfss_reg::sender_sparse(tree_seeds, (log_bin_sz + 1) as nat, t as nat),
        values(key.skip(t + 1)),
    )
}

/// The receiver's shares of one round of the layer `l`, for what it read for its trees and for its seed
/// shares `mac`.
pub open spec fn layer_receiver_shares(l: Layer, trees: Seq<(Seq<nat>, nat)>, mac: Seq<Fe>) -> Seq<nat> {
    lpn_expand(
        l.lpn.seed@,
        l.lpn.seed_field@,
        crate::mpfss_reg::receiver_sparse(
            trees,
            crate::mpfss_reg::choice_views(l.mpfss.choices@),
            (l.log_bin_sz + 1) as nat,
            values(mac.take(l.t + 1)),
            l.t as nat,
        ),
        values(mac.skip(l.t + 1)),
    )
}

/// The receiver's values of one round of the layer `l`, for its seed values `u`: the first `t` of them at
/// its places, expanded with those after the first `t + 1`.
pub open spec fn layer_receiver_values(l: Layer, u: Seq<Fe>) -> Seq<nat> {
    lpn_expand(
        l.lpn.seed@,
        l.lpn.seed_field@,
        place_noise(
            l.mpfss.item_pos_receiver@,
            values(u.take(l.t + 1)),
            pow2i(l.log_bin_sz as nat) as int,
            l.n as nat,
        ),
        values(u.skip(l.t + 1)),
    )
}

/// What the receiver writes in the first step of the multi-point sharing of the layer `l`, for its seed
/// values `u`: for every tree its adjusted choice bits and, with the check switched on, the seeds of the
/// check and its `x_star`. The layer is taken as the step leaves it.
pub open spec fn sharing_start_writes(l: Layer, u: Seq<Fe>) -> Seq<u8> {
    crate::mpfss_reg::choice_frames(
        crate::mpfss_reg::choice_views(l.mpfss.choices@),
        l.pre_ot.bits@,
        l.log_bin_sz as int,
        l.t as nat,
    ) + (if l.mpfss.is_malicious {
        crate::mpfss_reg::seed_frames(crate::mpfss_reg::seed_views(l.mpfss.check_seeds@), l.t as nat)
            + crate::comm_channel::field_frame(
            seq![
                crate::mpfss_reg::receiver_x_star(
                    crate::mpfss_reg::choice_views(l.mpfss.choices@),
                    crate::mpfss_reg::seed_views(l.mpfss.check_seeds@),
                    (l.log_bin_sz + 1) as nat,
                    values(u.take(l.t + 1)),
                    l.t as nat,
                ),
            ],
        )
    } else {
        Seq::<u8>::empty()
    })
}

/// What the receiver writes to start a round of the layer `l`, which is taken as the step leaves it: the
/// messages of the correlated transfers that fill the layer's buffer, made with the generators `g0` and
/// `g1`, and the first step of the multi-point sharing.
pub open spec fn round_start_writes(
    g0: Seq<PRG>,
    g1: Seq<PRG>,
    local_r: Seq<bool>,
    seed: Seq<u8>,
    l: Layer,
    u: Seq<Fe>,
) -> Seq<u8> {
    crate::iknp::receiver_writes(g0, g1, l.pre_ot.bits@, local_r, seed, l.mpfss.is_malicious, l.t * l.log_bin_sz)
        + sharing_start_writes(l, u)
}

/// What the sender writes in one round of the layer `l`, which is taken as the step finds it, after it
/// has read the receiver's adjusted choice bits `choices`, its seeds `sds` of the check and its `x_star`:
/// for every tree, grown from its seed, the pads for the sums of the levels and the secret sum; and with
/// the check switched on the hash of the batch value.
pub open spec fn layer_sender_writes(
    l: Layer,
    choices: Seq<Seq<bool>>,
    tree_seeds: Seq<nat>,
    key: Seq<Fe>,
    sds: Seq<Seq<u8>>,
    x_star: nat,
) -> Seq<u8> {
    crate::mpfss_reg::sender_writes(
        l.pre_ot.pre_data@,
        crate::mpfss_reg::bits_after(l.pre_ot.bits@, choices, l.pre_ot.length as int, l.t as nat),
        l.pre_ot.n as int,
        tree_seeds,
        values(key.take(l.t + 1)),
        (l.log_bin_sz + 1) as nat,
        l.t as nat,
        l.mpfss.is_malicious,
        l.mpfss.secret_share_x.value(),
        sds,
        x_star,
    )
}

/// The public seed of the columns of the expander's matrix.
pub open spec fn lpn_seed() -> Seq<u8> {
    Seq::new(16, |i: int| 0u8)
}

/// The public seed of the coefficients of the expander's matrix.
pub open spec fn lpn_seed_field() -> Seq<u8> {
    Seq::new(32, |i: int| if i == 0 {
        1u8
    } else {
        0u8
    })
}

/// One party's session: the base correlated transfers, the two bootstrap layers of the setup, and the
/// stream of correlations that it extends round by round. Every operation is one step of the party: it
/// reads what the peer's last step sent and sends what the peer's next step reads. The receiver steps
/// first.
///
/// What a round gives is correlated, `y_S = y_R + delta * z_R`, at every place whose seed entries are
/// correlated, with one exception in every tree: the receiver's own place. There the point sharing puts
/// `mac - gamma - 2 * (sum of the sender's leaves)` between the two parties' leaves, which is not what the
/// correlation asks for; `lemma_round_relation` and `crate::ggm::lemma_point_sharing` state what holds.
/// Entries that are off pass into the seeds of later rounds. For the same reason the batched check of the
/// multi-point sharing compares values that differ between honest parties: with the checks switched on,
/// the receiver's setup ends in a `MaliciousAbort`. The secret sum that the sender forms, the sum of its
/// leaves plus its share, is the cause.
#[derive(Clone)]
pub struct VoleTriple {
    pub party: Role,
    pub param: PrimalLPNParameterFp61,
    /// The length of a round's seed: `k + t + 1`.
    pub m: usize,
    /// How many correlations of the buffer have been handed out.
    pub ot_used: usize,
    /// How many correlations of a round are for the caller: `n - m`.
    pub ot_limit: usize,
    pub is_malicious: bool,
    pub extend_initialized: bool,
    pub pre_ot_inplace: bool,
    /// The seed of the next round: the sender's shares, or the receiver's.
    pub pre_y: Vec<Fe>,
    /// The seed of the next round: the receiver's values.
    pub pre_z: Vec<Fe>,
    /// The correlations of the last round.
    pub vole_y: Vec<Fe>,
    pub vole_z: Vec<Fe>,
    pub cot: BaseCot,
    /// The sender's key.
    pub delta: Fe,
    /// How many steps of the setup are done.
    pub stage: usize,
    pub svole: Option<BaseSvole>,
    pub layer: Option<Layer>,
    /// The seed of the layer at work.
    pub seed_y: Vec<Fe>,
    pub seed_z: Vec<Fe>,
    /// The receiver has started a round and not finished it.
    pub round_pending: bool,
}

impl VoleTriple {
    /// The sender's part of one round of a layer, from its seed correlations `key` and with the seeds of its
    /// trees given by the caller: the first `t + 1` seed correlations go into the multi-point sharing, whose
    /// leaves are the noise; the other `k` are the seed vector of the expansion. The result is the `n` shares
    /// of the sender.
    pub fn extend_send_with(
        io: &mut CommunicationChannel,
        layer: &mut Layer,
        key: &Vec<Fe>,
        tree_seeds: &Vec<Fe>,
    ) -> (r: Result<Vec<Fe>, VoleError>)
        requires
            old(layer).wf(),
            old(io).wf(),
            old(layer).pre_ot.count == 0,
            key.len() == old(layer).t + 1 + old(layer).k,
            all_wf(key@),
            tree_seeds.len() == old(layer).t,
            all_wf(tree_seeds@),
        ensures
            final(layer).wf(),
            final(io).wf(),
            final(layer).n == old(layer).n,
            final(layer).t == old(layer).t,
            final(layer).k == old(layer).k,
            final(layer).log_bin_sz == old(layer).log_bin_sz,
            final(layer).mpfss.party == old(layer).mpfss.party,
            final(layer).mpfss.is_malicious == old(layer).mpfss.is_malicious,
            final(layer).mpfss.secret_share_x == old(layer).mpfss.secret_share_x,
            final(layer).lpn.seed == old(layer).lpn.seed,
            final(layer).lpn.seed_field == old(layer).lpn.seed_field,
            match crate::mpfss_reg::sender_reads(
                old(layer).mpfss.is_malicious,
                old(io).unread(),
                old(layer).t as nat,
                old(layer).log_bin_sz as nat,
            ) {
                Err(e) => r == Err::<Vec<Fe>, VoleError>(e),
                Ok((choices, sds, x_star, rest)) => {
                    &&& r.is_ok()
                    &&& r.unwrap().len() == old(layer).n
                    &&& all_wf(r.unwrap()@)
                    &&& final(io).unread() == rest
                    &&& final(layer).pre_ot.count == 0
                    &&& values(r.unwrap()@) == lpn_expand(
                        old(layer).lpn.seed@,
                        old(layer).lpn.seed_field@,
                        crate::mpfss_reg::sender_sparse(
                            values(tree_seeds@),
                            (old(layer).log_bin_sz + 1) as nat,
                            old(layer).t as nat,
                        ),
                        values(key@.skip(old(layer).t + 1)),
                    )
                    &&& final(io).written() == old(io).written() + layer_sender_writes(
                        *old(layer),
                        choices,
                        values(tree_seeds@),
                        key@,
                        sds,
                        x_star,
                    )
                },
            },
    {
        let t = layer.t;
        let key_head = head(key, t + 1);
        let key_tail = tail(key, t + 1);
        proof {
            lemma_parts_wf(key@, t as int + 1);
        }
        let mut y = layer.mpfss.mpfss_sender_with(io, &mut layer.pre_ot, &key_head, tree_seeds)?;
        proof {
            assert(key_head[t as int] == key[t as int]);
            assert(values(key_head@)[t as int] == key_head[t as int].value());
        }
        layer.pre_ot.reset();
        layer.lpn.compute_send(&mut y, &key_tail);
        Ok(y)
    }

    /// The sender's part of one round of a layer, with random seeds for its trees.
    pub fn extend_send(io: &mut CommunicationChannel, layer: &mut Layer, key: &Vec<Fe>) -> (r: Result<
        Vec<Fe>,
        VoleError,
    >)
        requires
            old(layer).wf(),
            old(io).wf(),
            old(layer).pre_ot.count == 0,
            key.len() == old(layer).t + 1 + old(layer).k,
            all_wf(key@),
        ensures
            final(layer).wf(),
            final(io).wf(),
            final(layer).n == old(layer).n,
            final(layer).t == old(layer).t,
            final(layer).k == old(layer).k,
            final(layer).log_bin_sz == old(layer).log_bin_sz,
            final(layer).mpfss.party == old(layer).mpfss.party,
            final(layer).mpfss.is_malicious == old(layer).mpfss.is_malicious,
            final(layer).mpfss.secret_share_x == old(layer).mpfss.secret_share_x,
            match crate::mpfss_reg::sender_reads(
                old(layer).mpfss.is_malicious,
                old(io).unread(),
                old(layer).t as nat,
                old(layer).log_bin_sz as nat,
            ) {
                Err(e) => r == Err::<Vec<Fe>, VoleError>(e),
                Ok((choices, sds, x_star, rest)) => r.is_ok() && r.unwrap().len() == old(layer).n && all_wf(r.unwrap()@)
                    && final(io).unread() == rest && final(layer).pre_ot.count == 0 && exists|tree_seeds: Seq<nat>|
                    tree_seeds.len() == old(layer).t && #[trigger] lpn_expand(
                        old(layer).lpn.seed@,
                        old(layer).lpn.seed_field@,
                        crate::mpfss_reg::sender_sparse(tree_seeds, (old(layer).log_bin_sz + 1) as nat, old(layer).t as nat),
                        values(key@.skip(old(layer).t + 1)),
                    ) == values(r.unwrap()@) && final(io).written() == old(io).written() + layer_sender_writes(
                        *old(layer),
                        choices,
                        tree_seeds,
                        key@,
                        sds,
                        x_star,
                    ),
            },
    {
        let seeds = layer.mpfss.prg.random_stark252_elements(layer.t);
        let r = Self::extend_send_with(io, layer, key, &seeds);
        proof {
            if r.is_ok() {
                let ts = values(seeds@);
                assert(ts.len() == old(layer).t);
                assert(lpn_expand(
                    old(layer).lpn.seed@,
                    old(layer).lpn.seed_field@,
                    crate::mpfss_reg::sender_sparse(ts, (old(layer).log_bin_sz + 1) as nat, old(layer).t as nat),
                    values(key@.skip(old(layer).t + 1)),
                ) == values(r.unwrap()@));
            }
        }
        r
    }

    /// The receiver's first step of one round of a layer: the first step of the multi-point sharing, for which
    /// the first `t + 1` of its seed values `u` are needed.
    pub fn extend_recv_start(io: &mut CommunicationChannel, layer: &mut Layer, u: &Vec<Fe>)
        requires
            old(layer).wf(),
            old(io).wf(),
            old(layer).pre_ot.count == 0,
            u.len() == old(layer).t + 1 + old(layer).k,
            all_wf(u@),
        ensures
            final(layer).wf(),
            final(layer).mpfss.started(),
            final(io).wf(),
            final(io).incoming == old(io).incoming,
            final(io).read_pos == old(io).read_pos,
            final(layer).n == old(layer).n,
            final(layer).t == old(layer).t,
            final(layer).k == old(layer).k,
            final(layer).log_bin_sz == old(layer).log_bin_sz,
            final(layer).pre_ot == old(layer).pre_ot,
            final(layer).lpn == old(layer).lpn,
            final(layer).mpfss.party == old(layer).mpfss.party,
            final(layer).mpfss.is_malicious == old(layer).mpfss.is_malicious,
            final(layer).mpfss.secret_share_x == old(layer).mpfss.secret_share_x,
            final(io).written() == old(io).written() + sharing_start_writes(*final(layer), u@),
    {
        let t = layer.t;
        let u_head = head(u, t + 1);
        proof {
            lemma_parts_wf(u@, t as int + 1);
        }
        layer.mpfss.mpfss_receiver_start(io, &mut layer.pre_ot, &u_head);
    }

    /// The receiver's second step of one round of a layer, from its seed shares `mac` and seed values `u`: the
    /// leaves of the multi-point sharing are the noise of its shares, its values at its places the noise of
    /// its values, and both are expanded with the other `k` seed entries. The result is the `n` shares and
    /// the `n` values of the receiver.
    pub fn extend_recv(io: &mut CommunicationChannel, layer: &mut Layer, mac: &Vec<Fe>, u: &Vec<Fe>) -> (r: Result<
        (Vec<Fe>, Vec<Fe>),
        VoleError,
    >)
        requires
            old(layer).wf(),
            old(layer).mpfss.started(),
            old(io).wf(),
            mac.len() == old(layer).t + 1 + old(layer).k,
            u.len() == old(layer).t + 1 + old(layer).k,
            all_wf(mac@),
            all_wf(u@),
        ensures
            final(layer).wf(),
            final(io).wf(),
            final(io).outgoing == old(io).outgoing,
            final(layer).n == old(layer).n,
            final(layer).t == old(layer).t,
            final(layer).k == old(layer).k,
            final(layer).log_bin_sz == old(layer).log_bin_sz,
            final(layer).mpfss.party == old(layer).mpfss.party,
            final(layer).mpfss.is_malicious == old(layer).mpfss.is_malicious,
            r matches Ok(yz) ==> yz.0.len() == old(layer).n && yz.1.len() == old(layer).n && all_wf(yz.0@) && all_wf(
                yz.1@,
            ),
            match crate::mpfss_reg::receiver_round_spec(
                old(layer).pre_ot.pre_data@,
                crate::mpfss_reg::choice_views(old(layer).mpfss.choices@),
                crate::mpfss_reg::seed_views(old(layer).mpfss.check_seeds@),
                old(layer).mpfss.is_malicious,
                (old(layer).log_bin_sz + 1) as nat,
                old(io).unread(),
                old(layer).t as nat,
                mac[old(layer).t as int].value(),
            ) {
                Err(e) => r matches Err(x) && x == e,
                Ok((trees, rest)) => r matches Ok(yz) && final(io).unread() == rest && values(yz.0@) == lpn_expand(
                    old(layer).lpn.seed@,
                    old(layer).lpn.seed_field@,
                    crate::mpfss_reg::receiver_sparse(
                        trees,
                        crate::mpfss_reg::choice_views(old(layer).mpfss.choices@),
                        (old(layer).log_bin_sz + 1) as nat,
                        values(mac@.take(old(layer).t + 1)),
                        old(layer).t as nat,
                    ),
                    values(mac@.skip(old(layer).t + 1)),
                ) && values(yz.1@) == lpn_expand(
                    old(layer).lpn.seed@,
                    old(layer).lpn.seed_field@,
                    place_noise(
                        old(layer).mpfss.item_pos_receiver@,
                        values(u@.take(old(layer).t + 1)),
                        pow2i(old(layer).log_bin_sz as nat) as int,
                        old(layer).n as nat,
                    ),
                    values(u@.skip(old(layer).t + 1)),
                ),
            },
    {
        let t = layer.t;
        let mac_head = head(mac, t + 1);
        let mac_tail = tail(mac, t + 1);
        let u_head = head(u, t + 1);
        let u_tail = tail(u, t + 1);
        proof {
            lemma_parts_wf(mac@, t as int + 1);
            lemma_parts_wf(u@, t as int + 1);
        }
        assert(mac_head[t as int] == mac[t as int]);
        let mut y = layer.mpfss.mpfss_receiver(io, &mut layer.pre_ot, &mac_head, &u_head)?;
        let mut z = zero_vector(layer.n);
        layer.mpfss.set_vec_x(&mut z, &u_head);
        proof {
            let ln = layer.mpfss.leave_n as int;
            let noise = place_noise(layer.mpfss.item_pos_receiver@, values(u_head@), ln, layer.n as nat);
            crate::ggm::lemma_pow2i_pos(layer.log_bin_sz as nat);
            assert forall|q: int| 0 <= q < layer.n implies values(z@)[q] == noise[q] by {
                let i = q / ln;
                let j = q % ln;
                vstd::arithmetic::div_mod::lemma_fundamental_div_mod(q, ln);
                vstd::arithmetic::div_mod::lemma_mod_bound(q, ln);
                assert(q == i * ln + j) by (nonlinear_arith)
                    requires
                        q == ln * i + j,
                ;
                assert(0 <= i < layer.t) by (nonlinear_arith)
                    requires
                        q == i * ln + j,
                        0 <= j < ln,
                        0 <= q < layer.t * ln,
                        ln > 0,
                ;
                assert(z[i * ln + j].value() == (if j == layer.mpfss.item_pos_receiver[i] {
                    fadd(0, u_head[i].value())
                } else {
                    0
                }));
                assert(values(u_head@)[i] == u_head[i].value());
                vstd::arithmetic::div_mod::lemma_small_mod(u_head[i].value(), crate::field::modulus());
            }
            assert(values(z@) =~= noise);
        }
        layer.pre_ot.reset();
        layer.lpn.compute_recv(&mut y, &mut z, &mac_tail, &u_tail);
        Ok((y, z))
    }
}

impl VoleTriple {
    /// The length of the seed of the first bootstrap layer.
    pub open spec fn triple_n0(&self) -> int {
        1 + self.param.t_pre0 + self.param.k_pre0
    }

    /// Whether the receiver, whose state after the step this is, has started a round by writing `written`
    /// after `before`: the messages of the correlated transfers, made with the generators `g0` and `g1`
    /// and with some choice bits for the extra correlations and some seed of their check, and the first
    /// step of the multi-point sharing for its seed values.
    pub open spec fn round_started(&self, g0: Seq<PRG>, g1: Seq<PRG>, before: Seq<u8>, written: Seq<u8>) -> bool {
        exists|local_r: Seq<bool>, seed: Seq<u8>|
            local_r.len() == 2 * crate::iknp::NUM_BITS && written == before + #[trigger] round_start_writes(
                g0,
                g1,
                local_r,
                seed,
                self.layer.unwrap(),
                self.seed_z@,
            )
    }

    /// Whether the receiver, whose state after its first step of the setup this is, wrote `written` after
    /// `before` in that step: the ciphertexts `cts` of the base transfers; the messages of the correlated
    /// transfers that fill the buffer of the first layer, made with the generators that its keys `k0` and
    /// `k1` give and with some choice bits for the extra correlations and some seed of their check; and
    /// the point that opens the base transfers of the next protocol.
    pub open spec fn first_step_written(
        &self,
        k0: Seq<[u8; 16]>,
        k1: Seq<[u8; 16]>,
        cts: Seq<Seq<u8>>,
        before: Seq<u8>,
        written: Seq<u8>,
    ) -> bool {
        exists|g0: Seq<PRG>, g1: Seq<PRG>, local_r: Seq<bool>, seed: Seq<u8>|
            crate::iknp::receiver_gens(g0, g1, k0, k1) && local_r.len() == 2 * crate::iknp::NUM_BITS && written
                == before + crate::comm_channel::blocks16_frame(cts) + #[trigger] crate::iknp::receiver_writes(
                g0,
                g1,
                self.layer.unwrap().pre_ot.bits@,
                local_r,
                seed,
                self.is_malicious,
                self.param.t_pre0 * self.param.log_bin_sz_pre0,
            ) + crate::comm_channel::point_frame(self.svole.unwrap().cope.ot.point_a@)
    }

    /// Whether the receiver, whose state after its second step of the setup this is, wrote `written`
    /// after `before` in that step: the ciphertexts `cts` of the base transfers, and its corrections for
    /// the values that it drew, made with the generators that its keys `k0` and `k1` give.
    pub open spec fn second_step_written(
        &self,
        k0: Seq<[u8; 16]>,
        k1: Seq<[u8; 16]>,
        cts: Seq<Seq<u8>>,
        before: Seq<u8>,
        written: Seq<u8>,
    ) -> bool {
        exists|g0: Seq<PRG>, g1: Seq<PRG>|
            crate::base_svole::fresh_generators(g0, k0) && crate::base_svole::fresh_generators(g1, k1) && written
                == before + crate::comm_channel::blocks16_frame(cts)
                + #[trigger] crate::base_svole::receiver_corrections(
                g0,
                g1,
                values(self.seed_z@),
                self.svole.unwrap().pending_a.value(),
                self.triple_n0(),
            )
    }

    /// The length of the seed of the second bootstrap layer.
    pub open spec fn triple_n(&self) -> int {
        1 + self.param.t_pre + self.param.k_pre
    }

    /// The layer at work has the given sizes and belongs to this party.
    pub open spec fn layer_is(&self, n: usize, t: usize, k: usize, log_bin_sz: usize) -> bool {
        self.layer matches Some(l) && l.wf() && l.n == n && l.t == t && l.k == k && l.log_bin_sz == log_bin_sz
            && l.mpfss.party == self.party && l.mpfss.is_malicious == self.is_malicious && l.lpn.seed@ == lpn_seed()
            && l.lpn.seed_field@ == lpn_seed_field() && l.mpfss.secret_share_x == self.delta
    }

    /// What the setup has reached, by its stage.
    pub open spec fn setup_ok(&self) -> bool {
        let p = self.param;
        &&& self.stage == 0 ==> (self.party == Role::Sender ==> self.cot.iknp.base_ot.scalars.len()
            == crate::iknp::NUM_BITS && self.cot.iknp.base_ot.choices@ == self.cot.iknp.s@ && self.cot.ot_delta.is_some()
            && forall|i: int|
            0 <= i < 256 ==> self.cot.iknp.s[i] == crate::block::bit_at(self.cot.ot_delta.unwrap()@, i))
        &&& self.stage >= 1 ==> self.cot.ready()
        &&& self.stage == 1 ==> {
            &&& self.layer_is(p.n_pre0, p.t_pre0, p.k_pre0, p.log_bin_sz_pre0)
            &&& self.layer.unwrap().pre_ot.count == 0
            &&& self.svole matches Some(sv) && sv.wf() && sv.party == self.party && (self.party == Role::Sender
                ==> sv.cope.ot.scalars.len() == FIELD_BITS && sv.cope.ot.choices.len() == FIELD_BITS && sv.delta
                == Some(self.delta)) && (self.party == Role::Receiver ==> sv.cope.k0.len() == FIELD_BITS
                && sv.cope.k1.len() == FIELD_BITS)
        }
        &&& self.stage == 2 ==> {
            &&& self.layer_is(p.n_pre0, p.t_pre0, p.k_pre0, p.log_bin_sz_pre0)
            &&& self.layer.unwrap().pre_ot.count == 0
            &&& self.svole matches Some(sv) && sv.ready() && sv.party == self.party && (self.party == Role::Sender
                ==> sv.delta == Some(self.delta))
            &&& self.seed_y.len() == self.triple_n0()
            &&& self.party == Role::Receiver ==> self.seed_z.len() == self.triple_n0()
        }
        &&& self.stage == 3 ==> {
            &&& self.party == Role::Receiver ==> self.layer_is(p.n_pre0, p.t_pre0, p.k_pre0, p.log_bin_sz_pre0)
                && self.layer.unwrap().mpfss.started() && self.seed_y.len() == self.triple_n0() && self.seed_z.len()
                == self.triple_n0()
            &&& self.party == Role::Sender ==> self.seed_y.len() == self.triple_n()
        }
        &&& self.stage == 4 ==> {
            &&& self.party == Role::Receiver ==> self.layer_is(p.n_pre, p.t_pre, p.k_pre, p.log_bin_sz_pre)
                && self.layer.unwrap().mpfss.started() && self.seed_y.len() == self.triple_n() && self.seed_z.len()
                == self.triple_n()
        }
        &&& self.setup_done() ==> self.pre_y.len() == p.n_pre && (self.party == Role::Receiver ==> self.pre_z.len()
            == p.n_pre)
        &&& self.stage <= 5
        &&& self.party == Role::Sender ==> self.stage <= 4
    }

    /// The setup is complete.
    pub open spec fn setup_done(&self) -> bool {
        (self.party == Role::Sender && self.stage == 4) || (self.party == Role::Receiver && self.stage == 5)
    }

    /// What holds of the stream of correlations once it has been initialized.
    pub open spec fn extend_ok(&self) -> bool {
        let p = self.param;
        &&& self.extend_initialized ==> {
            &&& self.m == p.k + p.t + 1
            &&& self.ot_limit == p.n - self.m
            &&& self.ot_used <= self.ot_limit
            &&& self.vole_y.len() == p.n
            &&& self.vole_z.len() == p.n
        }
        &&& self.round_pending ==> {
            &&& self.extend_initialized
            &&& self.setup_done()
            &&& self.party == Role::Receiver
            &&& self.layer_is(p.n, p.t, p.k, p.log_bin_sz)
            &&& self.layer.unwrap().mpfss.started()
            &&& self.seed_y.len() == self.m
            &&& self.seed_z.len() == self.m
        }
    }

    /// What a round of the sender reads from the unread bytes `unread`: the receiver's messages of the
    /// extension of the correlated transfers, then what the multi-point sharing reads; the bytes left
    /// over, or the first error.
    pub open spec fn sender_round_reads(&self, unread: Seq<u8>) -> Result<Seq<u8>, VoleError> {
        match crate::iknp::send_cot_spec(
            self.cot.iknp.g0@,
            self.cot.iknp.s@,
            self.cot.ot_delta.unwrap()@,
            self.is_malicious,
            unread,
            self.param.t * self.param.log_bin_sz,
        ) {
            Err(e) => Err(e),
            Ok((data, rest)) => match crate::mpfss_reg::sender_reads(
                self.is_malicious,
                rest,
                self.param.t as nat,
                self.param.log_bin_sz as nat,
            ) {
                Err(e) => Err(e),
                Ok((choices, sds, x_star, rest2)) => Ok(rest2),
            },
        }
    }

    /// What the second step of a round of the receiver reads from the unread bytes `unread`: for every
    /// tree its sums and the sender's secret sum, and with the checks switched on the sender's hash; the
    /// bytes left over, or the first error.
    pub open spec fn receiver_round_reads(&self, unread: Seq<u8>) -> Result<
        (Seq<(Seq<nat>, nat)>, Seq<u8>),
        VoleError,
    > {
        let l = self.layer.unwrap();
        crate::mpfss_reg::receiver_round_spec(
            l.pre_ot.pre_data@,
            crate::mpfss_reg::choice_views(l.mpfss.choices@),
            crate::mpfss_reg::seed_views(l.mpfss.check_seeds@),
            self.is_malicious,
            (self.param.log_bin_sz + 1) as nat,
            unread,
            self.param.t as nat,
            self.seed_y[self.param.t as int].value(),
        )
    }

    /// The sender's shares of a round whose trees grow from the seeds `tree_seeds`.
    pub open spec fn sender_round_shares(&self, tree_seeds: Seq<nat>) -> Seq<nat> {
        lpn_expand(
            lpn_seed(),
            lpn_seed_field(),
            crate::mpfss_reg::sender_sparse(tree_seeds, (self.param.log_bin_sz + 1) as nat, self.param.t as nat),
            values(self.pre_y@.subrange(self.param.t + 1, self.m as int)),
        )
    }

    /// The receiver's shares of a round in which it read `trees`.
    pub open spec fn receiver_round_shares(&self, trees: Seq<(Seq<nat>, nat)>) -> Seq<nat> {
        let l = self.layer.unwrap();
        lpn_expand(
            lpn_seed(),
            lpn_seed_field(),
            crate::mpfss_reg::receiver_sparse(
                trees,
                crate::mpfss_reg::choice_views(l.mpfss.choices@),
                (self.param.log_bin_sz + 1) as nat,
                values(self.seed_y@.take(self.param.t + 1)),
                self.param.t as nat,
            ),
            values(self.seed_y@.skip(self.param.t + 1)),
        )
    }

    /// The receiver's values of a round.
    pub open spec fn receiver_round_values(&self) -> Seq<nat> {
        let l = self.layer.unwrap();
        lpn_expand(
            lpn_seed(),
            lpn_seed_field(),
            place_noise(
                l.mpfss.item_pos_receiver@,
                values(self.seed_z@.take(self.param.t + 1)),
                pow2i(self.param.log_bin_sz as nat) as int,
                self.param.n as nat,
            ),
            values(self.seed_z@.skip(self.param.t + 1)),
        )
    }

    /// The session is in order.
    pub open spec fn wf(&self) -> bool {
        &&& self.param.usable()
        &&& self.delta.wf()
        &&& self.cot.wf()
        &&& self.cot.party == self.party
        &&& self.cot.malicious == self.is_malicious
        &&& all_wf(self.pre_y@)
        &&& all_wf(self.pre_z@)
        &&& all_wf(self.vole_y@)
        &&& all_wf(self.vole_z@)
        &&& all_wf(self.seed_y@)
        &&& all_wf(self.seed_z@)
        &&& self.setup_ok()
        &&& self.extend_ok()
    }

    /// A session of a party with the given sizes, which must be usable on this machine; if not, the
    /// parameters are mismatched. The base transfers are started: the receiver sends its first message, the
    /// sender, who must find it in the channel, answers it.
    pub fn new(party: Role, malicious: bool, io: &mut CommunicationChannel, param: PrimalLPNParameterFp61) -> (r:
        Result<Self, VoleError>)
        requires
            old(io).wf(),
        ensures
            final(io).wf(),
            !param.usable() ==> (r matches Err(e) && e == VoleError::ParameterMismatch),
            param.usable() && party == Role::Receiver ==> r.is_ok() && final(io).incoming == old(io).incoming && final(io).read_pos == old(io).read_pos && final(io).written() == old(io).written()
                + crate::comm_channel::point_frame(r.unwrap().cot.iknp.base_ot.point_a@) && r.unwrap().cot.iknp.base_ot.point_a@
                == crate::crypto::p256_base_mul(r.unwrap().cot.iknp.base_ot.scalar@),
            param.usable() && party == Role::Sender ==> match crate::comm_channel::parse_point(old(io).unread()) {
                Err(e) => r matches Err(x) && x == e,
                Ok(a) => if !crate::ot::uncompressed(a) {
                    r matches Err(x) && x == VoleError::InvalidEncoding
                } else {
                    exists|s: Seq<bool>, bs: Seq<Seq<u8>>|
                        s.len() == crate::iknp::NUM_BITS && bs.len() == crate::iknp::NUM_BITS && (r matches Ok(v)
                            ==> v.cot.iknp.s@ == s) && #[trigger] crate::ot::receiver_start(
                            a,
                            bs,
                            s,
                            crate::ot::failure(r),
                            r.unwrap().cot.iknp.base_ot,
                            old(io).unread(),
                            final(io).unread(),
                            old(io).written(),
                            final(io).written(),
                        )
                },
            },
            r matches Ok(v) ==> v.wf() && v.party == party && v.is_malicious == malicious && v.param == param
                && v.stage == 0 && !v.extend_initialized && !v.round_pending,
    {
        if !param.is_usable() {
            return Err(VoleError::ParameterMismatch);
        }
        let mut cot = BaseCot::new(party, malicious);
        let started = cot.cot_gen_pre(io, None);
        let ghost bits = cot.iknp.s@;
        let ghost ot = cot.iknp.base_ot;
        if let Err(e) = started {
            proof {
                match crate::comm_channel::parse_point(old(io).unread()) {
                    Ok(a) => {
                        if party == Role::Sender && crate::ot::uncompressed(a) {
                            let bs = choose|bs: Seq<Seq<u8>>|
                                bs.len() == crate::iknp::NUM_BITS && #[trigger] crate::ot::receiver_start(
                                    a,
                                    bs,
                                    bits,
                                    crate::ot::failure(started),
                                    ot,
                                    old(io).unread(),
                                    io.unread(),
                                    old(io).written(),
                                    io.written(),
                                );
                            let r = Err::<Self, VoleError>(e);
                            assert(crate::ot::receiver_start(
                                a,
                                bs,
                                bits,
                                crate::ot::failure(r),
                                r.unwrap().cot.iknp.base_ot,
                                old(io).unread(),
                                io.unread(),
                                old(io).written(),
                                io.written(),
                            ));
                        }
                    },
                    Err(e) => {},
                }
            }
            return Err(e);
        }
        proof {
            match crate::comm_channel::parse_point(old(io).unread()) {
                Ok(a) => {
                    if party == Role::Sender && crate::ot::uncompressed(a) {
                        let bs = choose|bs: Seq<Seq<u8>>|
                            bs.len() == crate::iknp::NUM_BITS && #[trigger] crate::ot::receiver_start(
                                a,
                                bs,
                                bits,
                                crate::ot::failure(started),
                                ot,
                                old(io).unread(),
                                io.unread(),
                                old(io).written(),
                                io.written(),
                            );
                        assert(crate::ot::receiver_start(
                            a,
                            bs,
                            bits,
                            None,
                            ot,
                            old(io).unread(),
                            io.unread(),
                            old(io).written(),
                            io.written(),
                        ));
                    }
                },
                Err(e) => {},
            }
        }
        Ok(
            VoleTriple {
                party,
                param,
                m: 0,
                ot_used: 0,
                ot_limit: 0,
                is_malicious: malicious,
                extend_initialized: false,
                pre_ot_inplace: false,
                pre_y: Vec::new(),
                pre_z: Vec::new(),
                vole_y: Vec::new(),
                vole_z: Vec::new(),
                cot,
                delta: Fe::zero(),
                stage: 0,
                svole: None,
                layer: None,
                seed_y: Vec::new(),
                seed_z: Vec::new(),
                round_pending: false,
            },
        )
    }

    /// Makes a fresh layer of the given sizes and fills its buffer of precomputed transfers with fresh
    /// correlated transfers.
    fn open_layer(&mut self, io: &mut CommunicationChannel, n: usize, t: usize, k: usize, log_bin_sz: usize) -> (r:
        Result<(), VoleError>)
        requires
            old(io).wf(),
            old(self).cot.ready(),
            old(self).cot.wf(),
            old(self).cot.party == old(self).party,
            old(self).cot.malicious == old(self).is_malicious,
            old(self).delta.wf(),
            1 <= log_bin_sz <= 30,
            n == t * pow2i(log_bin_sz as nat),
            k >= 1,
            t <= 0x100_0000,
        ensures
            final(io).wf(),
            final(self).cot.wf(),
            final(self).cot.ready(),
            *final(self) == (VoleTriple { cot: final(self).cot, layer: final(self).layer, ..*old(self) }),
            final(self).cot.party == old(self).cot.party,
            final(self).cot.malicious == old(self).cot.malicious,
            r.is_ok() ==> final(self).layer_is(n, t, k, log_bin_sz) && final(self).layer.unwrap().pre_ot.count == 0,
            old(self).party == Role::Receiver ==> r.is_ok() && final(io).incoming == old(io).incoming && final(io).read_pos == old(io).read_pos,
            old(self).party == Role::Receiver ==> exists|local_r: Seq<bool>, seed: Seq<u8>|
                local_r.len() == 2 * crate::iknp::NUM_BITS && final(io).written() == old(io).written()
                    + #[trigger] crate::iknp::receiver_writes(
                    old(self).cot.iknp.g0@,
                    old(self).cot.iknp.g1@,
                    final(self).layer.unwrap().pre_ot.bits@,
                    local_r,
                    seed,
                    old(self).is_malicious,
                    t * log_bin_sz,
                ),
            old(self).party == Role::Sender ==> final(io).outgoing == old(io).outgoing && match crate::iknp::send_cot_spec(
                old(self).cot.iknp.g0@,
                old(self).cot.iknp.s@,
                old(self).cot.ot_delta.unwrap()@,
                old(self).is_malicious,
                old(io).unread(),
                t * log_bin_sz,
            ) {
                Err(e) => r == Err::<(), VoleError>(e),
                Ok((data, rest)) => r.is_ok() && final(io).unread() == rest,
            },
    {
        let mut layer = Layer::new(self.party, self.is_malicious, self.delta, n, t, k, log_bin_sz)?;
        assert(t * log_bin_sz <= 0x100_0000 * 30) by (nonlinear_arith)
            requires
                t <= 0x100_0000,
                log_bin_sz <= 30,
        ;
        let size = t * log_bin_sz;
        let res = self.cot.cot_gen_preot(io, &mut layer.pre_ot, size, None);
        self.layer = Some(layer);
        res
    }

    /// The first step of the sender's setup: completes the base correlated transfers, fills the buffer of
    /// the first layer, and starts the protocol that gives the first seed correlations.
    #[verifier::rlimit(80)]
    fn sender_first_step(&mut self, io: &mut CommunicationChannel, delta: Fe) -> (r: Result<bool, VoleError>)
        requires
            old(self).wf(),
            old(self).party == Role::Sender,
            old(self).stage == 0,
            old(io).wf(),
            delta.wf(),
        ensures
            final(io).wf(),
            final(self).party == old(self).party,
            final(self).param == old(self).param,
            final(self).is_malicious == old(self).is_malicious,
            final(self).delta == (if old(self).stage == 0 {
                delta
            } else {
                old(self).delta
            }),
            r matches Ok(done) ==> final(self).wf() && final(self).stage == old(self).stage + 1 && done
                == final(self).setup_done() && final(self).extend_initialized == old(self).extend_initialized,
            old(self).stage == 0 ==> match crate::ot::receiver_reads(
                old(self).cot.iknp.base_ot.point_a@,
                crate::ot::scalar_views(old(self).cot.iknp.base_ot.scalars@),
                old(self).cot.iknp.base_ot.choices@,
                old(io).unread(),
            ) {
                Err(e) => r == Err::<bool, VoleError>(e),
                Ok((keys, rest1)) => match crate::iknp::send_cot_spec(
                    crate::iknp::sender_generators(keys, old(self).cot.iknp.s@),
                    old(self).cot.iknp.s@,
                    old(self).cot.ot_delta.unwrap()@,
                    old(self).is_malicious,
                    rest1,
                    old(self).param.t_pre0 * old(self).param.log_bin_sz_pre0,
                ) {
                    Err(e) => r == Err::<bool, VoleError>(e),
                    Ok((data, rest2)) => match crate::comm_channel::parse_point(rest2) {
                        Err(e) => r == Err::<bool, VoleError>(e),
                        Ok(a) => if !crate::ot::uncompressed(a) {
                            r == Err::<bool, VoleError>(VoleError::InvalidEncoding)
                        } else {
                            (r.is_ok() ==> r == Ok::<bool, VoleError>(false)) && exists|bs: Seq<Seq<u8>>|
                                bs.len() == FIELD_BITS && #[trigger] crate::ot::receiver_start(
                                    a,
                                    bs,
                                    crate::cope::encoding_bits(delta.bytes@, FIELD_BITS as nat),
                                    crate::ot::failure(r),
                                    final(self).svole.unwrap().cope.ot,
                                    rest2,
                                    final(io).unread(),
                                    old(io).written(),
                                    final(io).written(),
                                )
                        },
                    },
                },
            },
    {
        self.delta = delta;
        self.cot.cot_gen_pre_finish(io)?;
        proof {
            crate::iknp::lemma_sender_generators(self.cot.iknp.g0@, self.cot.iknp.k0@, old(self).cot.iknp.s@);
        }
        self.open_layer(
            io,
            self.param.n_pre0,
            self.param.t_pre0,
            self.param.k_pre0,
            self.param.log_bin_sz_pre0,
        )?;
        let ghost rest2 = io.unread();
        let ghost w2 = io.written();
        let made = BaseSvole::new_sender(io, delta);
        proof {
            assert(w2 == old(io).written());
        }
        let svole = match made {
            Ok(sv) => sv,
            Err(e) => {
                proof {
                    match crate::comm_channel::parse_point(rest2) {
                        Ok(a) => {
                            if crate::ot::uncompressed(a) {
                                let bs = choose|bs: Seq<Seq<u8>>|
                                    bs.len() == FIELD_BITS && #[trigger] crate::ot::receiver_start(
                                        a,
                                        bs,
                                        crate::cope::encoding_bits(delta.bytes@, FIELD_BITS as nat),
                                        crate::ot::failure(made),
                                        made.unwrap().cope.ot,
                                        rest2,
                                        io.unread(),
                                        w2,
                                        io.written(),
                                    );
                                assert(crate::ot::receiver_start(
                                    a,
                                    bs,
                                    crate::cope::encoding_bits(delta.bytes@, FIELD_BITS as nat),
                                    Some(e),
                                    self.svole.unwrap().cope.ot,
                                    rest2,
                                    io.unread(),
                                    w2,
                                    io.written(),
                                ));
                            }
                        },
                        Err(e) => {},
                    }
                }
                return Err(e);
            },
        };
        let ghost ot = svole.cope.ot;
        self.svole = Some(svole);
        self.stage = 1;
        proof {
            match crate::comm_channel::parse_point(rest2) {
                Ok(a) => {
                    if crate::ot::uncompressed(a) {
                        let bs = choose|bs: Seq<Seq<u8>>|
                            bs.len() == FIELD_BITS && #[trigger] crate::ot::receiver_start(
                                a,
                                bs,
                                crate::cope::encoding_bits(delta.bytes@, FIELD_BITS as nat),
                                crate::ot::failure(made),
                                made.unwrap().cope.ot,
                                rest2,
                                io.unread(),
                                w2,
                                io.written(),
                            );
                        assert(self.svole.unwrap().cope.ot == ot);
                        assert(crate::ot::receiver_start(
                            a,
                            bs,
                            crate::cope::encoding_bits(delta.bytes@, FIELD_BITS as nat),
                            None,
                            self.svole.unwrap().cope.ot,
                            rest2,
                            io.unread(),
                            w2,
                            io.written(),
                        ));
                    }
                },
                Err(e) => {},
            }
        }
        Ok(false)
    }

    /// One step of the sender's setup with the key `delta`. The result tells whether the setup is complete;
    /// it takes four steps, each after a step of the receiver. A failed check of the base correlations is a
    /// `MaliciousAbort`.
    #[verifier::rlimit(80)]
    pub fn setup_sender(&mut self, io: &mut CommunicationChannel, delta: Fe) -> (r: Result<bool, VoleError>)
        requires
            old(self).wf(),
            old(self).party == Role::Sender,
            old(self).stage < 4,
            old(io).wf(),
            delta.wf(),
        ensures
            final(io).wf(),
            final(self).party == old(self).party,
            final(self).param == old(self).param,
            final(self).is_malicious == old(self).is_malicious,
            final(self).delta == (if old(self).stage == 0 {
                delta
            } else {
                old(self).delta
            }),
            r matches Ok(done) ==> final(self).wf() && final(self).stage == old(self).stage + 1 && done
                == final(self).setup_done() && final(self).extend_initialized == old(self).extend_initialized,
            old(self).stage == 0 ==> match crate::ot::receiver_reads(
                old(self).cot.iknp.base_ot.point_a@,
                crate::ot::scalar_views(old(self).cot.iknp.base_ot.scalars@),
                old(self).cot.iknp.base_ot.choices@,
                old(io).unread(),
            ) {
                Err(e) => r == Err::<bool, VoleError>(e),
                Ok((keys, rest1)) => match crate::iknp::send_cot_spec(
                    crate::iknp::sender_generators(keys, old(self).cot.iknp.s@),
                    old(self).cot.iknp.s@,
                    old(self).cot.ot_delta.unwrap()@,
                    old(self).is_malicious,
                    rest1,
                    old(self).param.t_pre0 * old(self).param.log_bin_sz_pre0,
                ) {
                    Err(e) => r == Err::<bool, VoleError>(e),
                    Ok((data, rest2)) => match crate::comm_channel::parse_point(rest2) {
                        Err(e) => r == Err::<bool, VoleError>(e),
                        Ok(a) => if !crate::ot::uncompressed(a) {
                            r == Err::<bool, VoleError>(VoleError::InvalidEncoding)
                        } else {
                            (r.is_ok() ==> r == Ok::<bool, VoleError>(false)) && exists|bs: Seq<Seq<u8>>|
                                bs.len() == FIELD_BITS && #[trigger] crate::ot::receiver_start(
                                    a,
                                    bs,
                                    crate::cope::encoding_bits(delta.bytes@, FIELD_BITS as nat),
                                    crate::ot::failure(r),
                                    final(self).svole.unwrap().cope.ot,
                                    rest2,
                                    final(io).unread(),
                                    old(io).written(),
                                    final(io).written(),
                                )
                        },
                    },
                },
            },
            old(self).stage == 1 ==> match crate::ot::receiver_reads(
                old(self).svole.unwrap().cope.ot.point_a@,
                crate::ot::scalar_views(old(self).svole.unwrap().cope.ot.scalars@),
                old(self).svole.unwrap().cope.ot.choices@,
                old(io).unread(),
            ) {
                Err(e) => r == Err::<bool, VoleError>(e),
                Ok((keys, rest1)) => match crate::comm_channel::parse_field(
                    rest1,
                    (FIELD_BITS * old(self).triple_n0()) as nat,
                ) {
                    Err(e) => r == Err::<bool, VoleError>(e),
                    Ok(tau) => {
                        let rest2 = rest1.skip(crate::comm_channel::frame_size(rest1, false) as int);
                        match crate::comm_channel::parse_field(rest2, FIELD_BITS as nat) {
                            Err(e) => r == Err::<bool, VoleError>(e),
                            Ok(tau1) => r == Ok::<bool, VoleError>(false) && final(io).unread() == rest2.skip(
                                crate::comm_channel::frame_size(rest2, false) as int,
                            ) && final(self).seed_y.len() == old(self).triple_n0() && exists|seed: Seq<u8>|
                                final(io).written() == old(io).written() + #[trigger] crate::comm_channel::blocks16_frame(
                                    seq![seed],
                                ),
                        }
                    },
                },
            },
            old(self).stage == 2 ==> match crate::comm_channel::parse_field(old(io).unread(), 2) {
                Err(e) => r == Err::<bool, VoleError>(e),
                Ok(xz) => if old(self).svole.unwrap().pending_y.value() != fadd(
                    xz[0],
                    fmul(old(self).svole.unwrap().delta.unwrap().value(), xz[1]),
                ) {
                    r == Err::<bool, VoleError>(VoleError::MaliciousAbort)
                } else {
                    match crate::mpfss_reg::sender_reads(
                        old(self).is_malicious,
                        old(io).unread().skip(crate::comm_channel::frame_size(old(io).unread(), false) as int),
                        old(self).param.t_pre0 as nat,
                        old(self).param.log_bin_sz_pre0 as nat,
                    ) {
                        Err(e) => r == Err::<bool, VoleError>(e),
                        Ok((choices, sds, x_star, rest)) => r == Ok::<bool, VoleError>(false) && final(io).unread()
                            == rest && exists|tree_seeds: Seq<nat>|
                            tree_seeds.len() == old(self).param.t_pre0 && values(final(self).seed_y@) == (
                            #[trigger] layer_sender_shares(
                                tree_seeds,
                                old(self).seed_y@,
                                old(self).param.t_pre0 as int,
                                old(self).param.log_bin_sz_pre0 as int,
                            )).take(old(self).triple_n()),
                    }
                },
            },
            old(self).stage == 3 ==> match crate::iknp::send_cot_spec(
                old(self).cot.iknp.g0@,
                old(self).cot.iknp.s@,
                old(self).cot.ot_delta.unwrap()@,
                old(self).is_malicious,
                old(io).unread(),
                old(self).param.t_pre * old(self).param.log_bin_sz_pre,
            ) {
                Err(e) => r == Err::<bool, VoleError>(e),
                Ok((data, rest)) => match crate::mpfss_reg::sender_reads(
                    old(self).is_malicious,
                    rest,
                    old(self).param.t_pre as nat,
                    old(self).param.log_bin_sz_pre as nat,
                ) {
                    Err(e) => r == Err::<bool, VoleError>(e),
                    Ok((choices, sds, x_star, rest2)) => r == Ok::<bool, VoleError>(true) && final(io).unread()
                        == rest2 && exists|tree_seeds: Seq<nat>|
                        tree_seeds.len() == old(self).param.t_pre && values(final(self).pre_y@)
                            == #[trigger] layer_sender_shares(
                            tree_seeds,
                            old(self).seed_y@,
                            old(self).param.t_pre as int,
                            old(self).param.log_bin_sz_pre as int,
                        ),
                },
            },
    {
        if self.stage == 0 {
            self.sender_first_step(io, delta)
        } else if self.stage == 1 {
            let mut svole = match self.svole.take() {
                Some(s) => s,
                None => {
                    return Err(VoleError::ParameterMismatch);
                },
            };
            svole.finish(io)?;
            let triple_n0 = 1 + self.param.t_pre0 + self.param.k_pre0;
            let key = svole.triple_gen_send(io, triple_n0)?;
            self.seed_y = key;
            self.svole = Some(svole);
            self.stage = 2;
            Ok(false)
        } else if self.stage == 2 {
            let mut svole = match self.svole.take() {
                Some(s) => s,
                None => {
                    return Err(VoleError::ParameterMismatch);
                },
            };
            svole.sender_check(io)?;
            let mut layer = match self.layer.take() {
                Some(l) => l,
                None => {
                    return Err(VoleError::ParameterMismatch);
                },
            };
            let ghost key = self.seed_y@;
            let pre_y0 = Self::extend_send(io, &mut layer, &self.seed_y)?;
            let triple_n = 1 + self.param.t_pre + self.param.k_pre;
            self.seed_y = head(&pre_y0, triple_n);
            proof {
                lemma_parts_wf(pre_y0@, triple_n as int);
                let p = self.param;
                let ts = choose|tree_seeds: Seq<nat>|
                    tree_seeds.len() == p.t_pre0 && #[trigger] lpn_expand(
                        lpn_seed(),
                        lpn_seed_field(),
                        crate::mpfss_reg::sender_sparse(tree_seeds, (p.log_bin_sz_pre0 + 1) as nat, p.t_pre0 as nat),
                        values(key.skip(p.t_pre0 + 1)),
                    ) == values(pre_y0@);
                assert(values(self.seed_y@) =~= layer_sender_shares(
                    ts,
                    key,
                    p.t_pre0 as int,
                    p.log_bin_sz_pre0 as int,
                ).take(triple_n as int));
            }
            self.stage = 3;
            Ok(false)
        } else {
            self.open_layer(io, self.param.n_pre, self.param.t_pre, self.param.k_pre, self.param.log_bin_sz_pre)?;
            let mut layer = match self.layer.take() {
                Some(l) => l,
                None => {
                    return Err(VoleError::ParameterMismatch);
                },
            };
            let pre_y = Self::extend_send(io, &mut layer, &self.seed_y)?;
            proof {
                let p = self.param;
                let ts = choose|tree_seeds: Seq<nat>|
                    tree_seeds.len() == p.t_pre && #[trigger] lpn_expand(
                        lpn_seed(),
                        lpn_seed_field(),
                        crate::mpfss_reg::sender_sparse(tree_seeds, (p.log_bin_sz_pre + 1) as nat, p.t_pre as nat),
                        values(self.seed_y@.skip(p.t_pre + 1)),
                    ) == values(pre_y@);
                assert(values(pre_y@) == layer_sender_shares(
                    ts,
                    old(self).seed_y@,
                    p.t_pre as int,
                    p.log_bin_sz_pre as int,
                ));
            }
            self.pre_y = pre_y;
            self.pre_ot_inplace = true;
            self.stage = 4;
            Ok(true)
        }
    }

    /// One step of the receiver's setup. The result tells whether the setup is complete; it takes five
    /// steps, the first before the sender's first, each of the others after a step of the sender. A failed
    /// check of a multi-point sharing is a `MaliciousAbort`.
    #[verifier::rlimit(80)]
    pub fn setup_receiver(&mut self, io: &mut CommunicationChannel) -> (r: Result<bool, VoleError>)
        requires
            old(self).wf(),
            old(self).party == Role::Receiver,
            old(self).stage < 5,
            old(io).wf(),
        ensures
            final(io).wf(),
            final(self).party == old(self).party,
            final(self).param == old(self).param,
            final(self).is_malicious == old(self).is_malicious,
            final(self).delta == old(self).delta,
            r matches Ok(done) ==> final(self).wf() && final(self).stage == old(self).stage + 1 && done
                == final(self).setup_done() && final(self).extend_initialized == old(self).extend_initialized,
            old(self).stage == 0 ==> match crate::ot::sender_answers(
                old(self).cot.iknp.base_ot.scalar@,
                old(self).cot.iknp.base_ot.point_a@,
                crate::comm_channel::views16(old(self).cot.iknp.k0@),
                crate::comm_channel::views16(old(self).cot.iknp.k1@),
                old(io).unread(),
            ) {
                Err(e) => r == Err::<bool, VoleError>(e),
                Ok((cts, rest)) => r == Ok::<bool, VoleError>(false) && final(io).unread() == rest && final(self).first_step_written(
                    old(self).cot.iknp.k0@,
                    old(self).cot.iknp.k1@,
                    cts,
                    old(io).written(),
                    final(io).written(),
                ),
            },
            old(self).stage == 1 ==> match crate::ot::sender_answers(
                old(self).svole.unwrap().cope.ot.scalar@,
                old(self).svole.unwrap().cope.ot.point_a@,
                crate::comm_channel::views16(old(self).svole.unwrap().cope.k0@),
                crate::comm_channel::views16(old(self).svole.unwrap().cope.k1@),
                old(io).unread(),
            ) {
                Err(e) => r == Err::<bool, VoleError>(e),
                Ok((cts, rest)) => r == Ok::<bool, VoleError>(false) && final(io).unread() == rest && final(self).seed_y.len() == old(self).triple_n0() && final(self).seed_z.len() == old(self).triple_n0() && final(self).second_step_written(
                    old(self).svole.unwrap().cope.k0@,
                    old(self).svole.unwrap().cope.k1@,
                    cts,
                    old(io).written(),
                    final(io).written(),
                ),
            },
            old(self).stage == 2 ==> match crate::comm_channel::parse_blocks16(old(io).unread()) {
                Err(e) => r == Err::<bool, VoleError>(e),
                Ok(seeds) => if seeds.len() != 1 {
                    r == Err::<bool, VoleError>(VoleError::WireFormat)
                } else {
                    let sv = old(self).svole.unwrap();
                    let n = sv.pending_share.len() as nat;
                    &&& r == Ok::<bool, VoleError>(false)
                    &&& final(io).unread() == old(io).unread().skip(
                        crate::comm_channel::frame_size(old(io).unread(), false) as int,
                    )
                    &&& final(self).seed_y == old(self).seed_y
                    &&& final(self).seed_z == old(self).seed_z
                    &&& final(io).written() == old(io).written() + crate::comm_channel::field_frame(
                        seq![
                            fadd(
                                crate::field::dot(
                                    values(sv.pending_share@),
                                    crate::base_svole::hash_coeffs(seeds[0], n),
                                    n,
                                ),
                                sv.pending_c.value(),
                            ),
                            fadd(
                                crate::field::dot(values(sv.pending_u@), crate::base_svole::hash_coeffs(seeds[0], n), n),
                                sv.pending_a.value(),
                            ),
                        ],
                    ) + sharing_start_writes(final(self).layer.unwrap(), old(self).seed_z@)
                },
            },
            old(self).stage == 3 || old(self).stage == 4 ==> match crate::mpfss_reg::receiver_round_spec(
                old(self).layer.unwrap().pre_ot.pre_data@,
                crate::mpfss_reg::choice_views(old(self).layer.unwrap().mpfss.choices@),
                crate::mpfss_reg::seed_views(old(self).layer.unwrap().mpfss.check_seeds@),
                old(self).is_malicious,
                (old(self).layer.unwrap().log_bin_sz + 1) as nat,
                old(io).unread(),
                old(self).layer.unwrap().t as nat,
                old(self).seed_y[old(self).layer.unwrap().t as int].value(),
            ) {
                Err(e) => r == Err::<bool, VoleError>(e),
                Ok((trees, rest)) => {
                    let shares = layer_receiver_shares(old(self).layer.unwrap(), trees, old(self).seed_y@);
                    let vals = layer_receiver_values(old(self).layer.unwrap(), old(self).seed_z@);
                    &&& r == Ok::<bool, VoleError>(old(self).stage == 4)
                    &&& final(io).unread() == rest
                    &&& old(self).stage == 3 ==> values(final(self).seed_y@) == shares.take(old(self).triple_n())
                        && values(final(self).seed_z@) == vals.take(old(self).triple_n()) && final(self).round_started(
                        old(self).cot.iknp.g0@,
                        old(self).cot.iknp.g1@,
                        old(io).written(),
                        final(io).written(),
                    )
                    &&& old(self).stage == 4 ==> values(final(self).pre_y@) == shares && values(final(self).pre_z@)
                        == vals && final(self).seed_y == old(self).seed_y && final(self).seed_z == old(self).seed_z
                        && final(io).outgoing == old(io).outgoing
                },
            },
    {
        if self.stage == 0 {
            self.cot.cot_gen_pre_finish(io)?;
            let ghost g0 = self.cot.iknp.g0@;
            let ghost g1 = self.cot.iknp.g1@;
            let ghost w1 = io.written();
            self.open_layer(
                io,
                self.param.n_pre0,
                self.param.t_pre0,
                self.param.k_pre0,
                self.param.log_bin_sz_pre0,
            )?;
            let ghost drawn = choose|local_r: Seq<bool>, seed: Seq<u8>|
                local_r.len() == 2 * crate::iknp::NUM_BITS && io.written() == w1
                    + #[trigger] crate::iknp::receiver_writes(
                    g0,
                    g1,
                    self.layer.unwrap().pre_ot.bits@,
                    local_r,
                    seed,
                    self.is_malicious,
                    self.param.t_pre0 * self.param.log_bin_sz_pre0,
                );
            let svole = BaseSvole::new_receiver(io);
            self.svole = Some(svole);
            self.stage = 1;
            proof {
                let cts = crate::ot::sender_answers(
                    old(self).cot.iknp.base_ot.scalar@,
                    old(self).cot.iknp.base_ot.point_a@,
                    crate::comm_channel::views16(old(self).cot.iknp.k0@),
                    crate::comm_channel::views16(old(self).cot.iknp.k1@),
                    old(io).unread(),
                ).unwrap().0;
                assert(io.written() =~= old(io).written() + crate::comm_channel::blocks16_frame(cts)
                    + crate::iknp::receiver_writes(
                    g0,
                    g1,
                    self.layer.unwrap().pre_ot.bits@,
                    drawn.0,
                    drawn.1,
                    self.is_malicious,
                    self.param.t_pre0 * self.param.log_bin_sz_pre0,
                ) + crate::comm_channel::point_frame(self.svole.unwrap().cope.ot.point_a@));
            }
            Ok(false)
        } else if self.stage == 1 {
            let mut svole = match self.svole.take() {
                Some(s) => s,
                None => {
                    return Err(VoleError::ParameterMismatch);
                },
            };
            svole.finish(io)?;
            let ghost g0 = svole.cope.prg_g0@;
            let ghost g1 = svole.cope.prg_g1@;
            let triple_n0 = 1 + self.param.t_pre0 + self.param.k_pre0;
            let mut prg = PRG::new(None, 0);
            let u = prg.random_stark252_elements(triple_n0);
            let mac = svole.triple_gen_recv(io, &u, triple_n0);
            self.seed_y = mac;
            self.seed_z = u;
            self.svole = Some(svole);
            self.stage = 2;
            proof {
                let cts = crate::ot::sender_answers(
                    old(self).svole.unwrap().cope.ot.scalar@,
                    old(self).svole.unwrap().cope.ot.point_a@,
                    crate::comm_channel::views16(old(self).svole.unwrap().cope.k0@),
                    crate::comm_channel::views16(old(self).svole.unwrap().cope.k1@),
                    old(io).unread(),
                ).unwrap().0;
                assert(io.written() =~= old(io).written() + crate::comm_channel::blocks16_frame(cts)
                    + crate::base_svole::receiver_corrections(
                    g0,
                    g1,
                    values(self.seed_z@),
                    self.svole.unwrap().pending_a.value(),
                    self.triple_n0(),
                ));
            }
            Ok(false)
        } else if self.stage == 2 {
            let mut svole = match self.svole.take() {
                Some(s) => s,
                None => {
                    return Err(VoleError::ParameterMismatch);
                },
            };
            svole.receiver_check(io)?;
            let ghost w1 = io.written();
            let mut layer = match self.layer.take() {
                Some(l) => l,
                None => {
                    return Err(VoleError::ParameterMismatch);
                },
            };
            Self::extend_recv_start(io, &mut layer, &self.seed_z);
            assert(io.written() =~= w1 + sharing_start_writes(layer, self.seed_z@));
            self.layer = Some(layer);
            self.stage = 3;
            Ok(false)
        } else if self.stage == 3 {
            let mut layer = match self.layer.take() {
                Some(l) => l,
                None => {
                    return Err(VoleError::ParameterMismatch);
                },
            };
            let (pre_y0, pre_z0) = Self::extend_recv(io, &mut layer, &self.seed_y, &self.seed_z)?;
            let triple_n = 1 + self.param.t_pre + self.param.k_pre;
            self.seed_y = head(&pre_y0, triple_n);
            self.seed_z = head(&pre_z0, triple_n);
            proof {
                lemma_parts_wf(pre_y0@, triple_n as int);
                lemma_parts_wf(pre_z0@, triple_n as int);
                assert(values(self.seed_y@) =~= values(pre_y0@).take(triple_n as int));
                assert(values(self.seed_z@) =~= values(pre_z0@).take(triple_n as int));
            }
            let ghost w1 = io.written();
            assert(w1 == old(io).written());
            self.open_layer(io, self.param.n_pre, self.param.t_pre, self.param.k_pre, self.param.log_bin_sz_pre)?;
            let ghost drawn = choose|local_r: Seq<bool>, seed: Seq<u8>|
                local_r.len() == 2 * crate::iknp::NUM_BITS && io.written() == w1
                    + #[trigger] crate::iknp::receiver_writes(
                    old(self).cot.iknp.g0@,
                    old(self).cot.iknp.g1@,
                    self.layer.unwrap().pre_ot.bits@,
                    local_r,
                    seed,
                    self.is_malicious,
                    self.param.t_pre * self.param.log_bin_sz_pre,
                );
            let mut next = match self.layer.take() {
                Some(l) => l,
                None => {
                    return Err(VoleError::ParameterMismatch);
                },
            };
            Self::extend_recv_start(io, &mut next, &self.seed_z);
            let ghost opened = next;
            proof {
                assert(io.written() =~= old(io).written() + round_start_writes(
                    old(self).cot.iknp.g0@,
                    old(self).cot.iknp.g1@,
                    drawn.0,
                    drawn.1,
                    opened,
                    self.seed_z@,
                ));
            }
            self.layer = Some(next);
            self.stage = 4;
            assert(self.layer.unwrap() == opened);
            assert(io.written() == old(io).written() + round_start_writes(
                old(self).cot.iknp.g0@,
                old(self).cot.iknp.g1@,
                drawn.0,
                drawn.1,
                self.layer.unwrap(),
                self.seed_z@,
            ));
            assert(self.round_started(
                old(self).cot.iknp.g0@,
                old(self).cot.iknp.g1@,
                old(io).written(),
                io.written(),
            ));
            Ok(false)
        } else {
            let mut layer = match self.layer.take() {
                Some(l) => l,
                None => {
                    return Err(VoleError::ParameterMismatch);
                },
            };
            let (pre_y, pre_z) = Self::extend_recv(io, &mut layer, &self.seed_y, &self.seed_z)?;
            self.pre_y = pre_y;
            self.pre_z = pre_z;
            self.pre_ot_inplace = true;
            self.stage = 5;
            Ok(true)
        }
    }

    /// Makes the session ready to extend, with an empty buffer of `n` zeros: `m = k + t + 1` seed
    /// correlations are kept from every round, `ot_limit = n - m` are given out, and none is left of a
    /// round before. Nothing else changes: the seed correlations of the setup stay where they are. It may
    /// be called before the setup is complete; the steps that extend ask for a complete setup, since a
    /// round expands the seed correlations that the setup leaves.
    pub fn extend_initialization(&mut self)
        requires
            old(self).wf(),
        ensures
            final(self).wf(),
            *final(self) == (VoleTriple {
                m: final(self).m,
                ot_limit: final(self).ot_limit,
                ot_used: final(self).ot_used,
                extend_initialized: true,
                vole_y: final(self).vole_y,
                vole_z: final(self).vole_z,
                ..*old(self)
            }),
            final(self).pre_y == old(self).pre_y,
            final(self).pre_z == old(self).pre_z,
            final(self).vole_y.len() == old(self).param.n,
            final(self).vole_z.len() == old(self).param.n,
            forall|i: int| 0 <= i < old(self).param.n ==> (#[trigger] final(self).vole_y[i]).value() == 0,
            forall|i: int| 0 <= i < old(self).param.n ==> (#[trigger] final(self).vole_z[i]).value() == 0,
            final(self).extend_initialized,
            final(self).m == old(self).param.k + old(self).param.t + 1,
            final(self).ot_limit == old(self).param.n - final(self).m,
            final(self).ot_used == final(self).ot_limit,
            final(self).delta == old(self).delta,
            final(self).party == old(self).party,
            final(self).param == old(self).param,
            final(self).stage == old(self).stage,
    {
        self.m = self.param.k + self.param.t + 1;
        self.ot_limit = self.param.n - self.m;
        self.ot_used = self.ot_limit;
        self.extend_initialized = true;
        self.vole_y = zero_vector(self.param.n);
        self.vole_z = zero_vector(self.param.n);
    }

    /// How many correlations of the last round are left in the buffer.
    pub fn silent_ot_left(&self) -> (r: usize)
        requires
            self.ot_used <= self.ot_limit,
        ensures
            r == self.ot_limit - self.ot_used,
    {
        self.ot_limit - self.ot_used
    }

    /// The smallest size of a buffer into which `tp_need` correlations can be extended in place: whole
    /// rounds, and the seed that the last round leaves behind. The size must be countable on this machine,
    /// for which it is enough that `tp_need - 1 + n` is.
    pub fn byte_memory_need_inplace(&self, tp_need: usize) -> (r: usize)
        requires
            self.wf(),
            self.extend_initialized,
            tp_need >= 1,
            tp_need - 1 + self.param.n <= usize::MAX,
        ensures
            r == ((tp_need - 1) / (self.ot_limit as int)) * self.ot_limit + self.param.n,
    {
        let round = (tp_need - 1) / self.ot_limit;
        assert(round * self.ot_limit <= tp_need - 1) by {
            vstd::arithmetic::div_mod::lemma_fundamental_div_mod((tp_need - 1) as int, self.ot_limit as int);
            vstd::arithmetic::div_mod::lemma_mod_bound((tp_need - 1) as int, self.ot_limit as int);
            assert(round * self.ot_limit == self.ot_limit * round) by (nonlinear_arith);
        }
        round * self.ot_limit + self.param.n
    }
}


impl VoleTriple {
    /// The receiver's first step of a round of the main layer: fills the buffer of a fresh layer with
    /// correlated transfers, takes the first `m` seed correlations as the seed of the round, and takes the
    /// first step of the multi-point sharing.
    #[verifier::rlimit(60)]
    fn start_round(&mut self, io: &mut CommunicationChannel) -> (r: Result<(), VoleError>)
        requires
            old(self).wf(),
            old(self).extend_initialized,
            old(self).setup_done(),
            old(self).party == Role::Receiver,
            !old(self).round_pending,
            old(io).wf(),
        ensures
            final(io).wf(),
            r.is_ok(),
            final(self).wf(),
            final(self).round_pending,
            *final(self) == (VoleTriple {
                cot: final(self).cot,
                layer: final(self).layer,
                seed_y: final(self).seed_y,
                seed_z: final(self).seed_z,
                round_pending: true,
                ..*old(self)
            }),
            final(io).incoming == old(io).incoming,
            final(io).read_pos == old(io).read_pos,
            final(self).round_started(
                old(self).cot.iknp.g0@,
                old(self).cot.iknp.g1@,
                old(io).written(),
                final(io).written(),
            ),
            final(self).seed_z@ == old(self).pre_z@.take(old(self).m as int),
            final(self).seed_y@ == old(self).pre_y@.take(old(self).m as int),
    {
        let p = self.param;
        self.open_layer(io, p.n, p.t, p.k, p.log_bin_sz)?;
        let ghost drawn = choose|local_r: Seq<bool>, seed: Seq<u8>|
            local_r.len() == 2 * crate::iknp::NUM_BITS && io.written() == old(io).written()
                + #[trigger] crate::iknp::receiver_writes(
                old(self).cot.iknp.g0@,
                old(self).cot.iknp.g1@,
                self.layer.unwrap().pre_ot.bits@,
                local_r,
                seed,
                self.is_malicious,
                p.t * p.log_bin_sz,
            );
        let mut layer = match self.layer.take() {
            Some(l) => l,
            None => {
                return Err(VoleError::ParameterMismatch);
            },
        };
        self.seed_y = head(&self.pre_y, self.m);
        self.seed_z = head(&self.pre_z, self.m);
        proof {
            lemma_parts_wf(self.pre_y@, self.m as int);
            lemma_parts_wf(self.pre_z@, self.m as int);
        }
        Self::extend_recv_start(io, &mut layer, &self.seed_z);
        let ghost opened = layer;
        proof {
            assert(io.written() =~= old(io).written() + round_start_writes(
                old(self).cot.iknp.g0@,
                old(self).cot.iknp.g1@,
                drawn.0,
                drawn.1,
                opened,
                self.seed_z@,
            ));
        }
        self.layer = Some(layer);
        self.round_pending = true;
        assert(self.layer.unwrap() == opened);
        assert(io.written() == old(io).written() + round_start_writes(
            old(self).cot.iknp.g0@,
            old(self).cot.iknp.g1@,
            drawn.0,
            drawn.1,
            self.layer.unwrap(),
            self.seed_z@,
        ));
        Ok(())
    }

    /// One step of a round of the main layer. The sender's step is a whole round and gives its `n` shares.
    /// The receiver's first step starts a round and gives nothing; its second step, after the sender's,
    /// finishes the round and gives its `n` shares and its `n` values. The last `m` correlations of a
    /// round become the seed of the next.
    #[verifier::rlimit(60)]
    fn round_step(&mut self, io: &mut CommunicationChannel) -> (r: Result<Option<(Vec<Fe>, Vec<Fe>)>, VoleError>)
        requires
            old(self).wf(),
            old(self).extend_initialized,
            old(self).setup_done(),
            old(io).wf(),
        ensures
            final(io).wf(),
            final(self).party == old(self).party,
            final(self).param == old(self).param,
            final(self).is_malicious == old(self).is_malicious,
            final(self).delta == old(self).delta,
            final(self).stage == old(self).stage,
            final(self).vole_y == old(self).vole_y,
            final(self).vole_z == old(self).vole_z,
            final(self).ot_used == old(self).ot_used,
            final(self).ot_limit == old(self).ot_limit,
            final(self).m == old(self).m,
            final(self).extend_initialized,
            r.is_ok() ==> final(self).wf(),
            r matches Ok(Some(yz)) ==> yz.0.len() == old(self).param.n && all_wf(yz.0@) && all_wf(yz.1@)
                && !final(self).round_pending && (old(self).party == Role::Receiver ==> yz.1.len() == old(self).param.n && old(self).round_pending),
            r matches Ok(None) ==> old(self).party == Role::Receiver && !old(self).round_pending && final(self).round_pending,
            r.is_ok() && old(self).party == Role::Sender ==> r.unwrap().is_some(),
            r.is_ok() && old(self).round_pending ==> r.unwrap().is_some(),
            r matches Ok(Some(yz)) ==> forall|i: int|
                0 <= i < old(self).m ==> final(self).pre_y[i] == yz.0[old(self).ot_limit + i],
            old(self).party == Role::Sender ==> match old(self).sender_round_reads(old(io).unread()) {
                Err(e) => r matches Err(x) && x == e,
                Ok(rest) => r matches Ok(Some(yz)) && final(io).unread() == rest && exists|tree_seeds: Seq<nat>|
                    tree_seeds.len() == old(self).param.t && #[trigger] old(self).sender_round_shares(tree_seeds)
                        == values(yz.0@),
            },
            old(self).party == Role::Receiver && !old(self).round_pending ==> (r matches Ok(None)) && final(io).incoming == old(io).incoming && final(io).read_pos == old(io).read_pos,
            old(self).party == Role::Receiver && !old(self).round_pending ==> final(self).round_started(
                old(self).cot.iknp.g0@,
                old(self).cot.iknp.g1@,
                old(io).written(),
                final(io).written(),
            ) && final(self).seed_z@ == old(self).pre_z@.take(old(self).m as int),
            old(self).party == Role::Receiver && old(self).round_pending ==> final(self).cot == old(self).cot && final(io).outgoing == old(io).outgoing,
            old(self).party == Role::Receiver && old(self).round_pending ==> match old(self).receiver_round_reads(
                old(io).unread(),
            ) {
                Err(e) => r matches Err(x) && x == e,
                Ok((trees, rest)) => r matches Ok(Some(yz)) && final(io).unread() == rest && values(yz.0@) == old(self).receiver_round_shares(trees) && values(yz.1@) == old(self).receiver_round_values(),
            },
    {
        let p = self.param;
        match self.party {
            Role::Sender => {
                self.open_layer(io, p.n, p.t, p.k, p.log_bin_sz)?;
                let mut layer = match self.layer.take() {
                    Some(l) => l,
                    None => {
                        return Err(VoleError::ParameterMismatch);
                    },
                };
                let key = head(&self.pre_y, self.m);
                proof {
                    lemma_parts_wf(self.pre_y@, self.m as int);
                    assert(key@.skip(p.t + 1) =~= self.pre_y@.subrange(p.t + 1, self.m as int));
                }
                let y = Self::extend_send(io, &mut layer, &key)?;
                proof {
                    let ts = choose|tree_seeds: Seq<nat>|
                        tree_seeds.len() == p.t && #[trigger] lpn_expand(
                            lpn_seed(),
                            lpn_seed_field(),
                            crate::mpfss_reg::sender_sparse(tree_seeds, (p.log_bin_sz + 1) as nat, p.t as nat),
                            values(key@.skip(p.t + 1)),
                        ) == values(y@);
                    assert(old(self).sender_round_shares(ts) == values(y@));
                }
                self.keep_seed(&y, &y);
                Ok(Some((y, Vec::new())))
            },
            Role::Receiver => {
                if !self.round_pending {
                    self.start_round(io)?;
                    Ok(None)
                } else {
                    let mut layer = match self.layer.take() {
                        Some(l) => l,
                        None => {
                            return Err(VoleError::ParameterMismatch);
                        },
                    };
                    let (y, z) = Self::extend_recv(io, &mut layer, &self.seed_y, &self.seed_z)?;
                    self.round_pending = false;
                    self.keep_seed(&y, &z);
                    Ok(Some((y, z)))
                }
            },
        }
    }

    /// Keeps the last `m` correlations of a round as the seed of the next.
    fn keep_seed(&mut self, y: &Vec<Fe>, z: &Vec<Fe>)
        requires
            old(self).m <= old(self).pre_y.len(),
            old(self).party == Role::Receiver ==> old(self).m <= old(self).pre_z.len(),
            y.len() == old(self).ot_limit + old(self).m,
            old(self).party == Role::Receiver ==> z.len() == y.len(),
            all_wf(y@),
            all_wf(z@),
            all_wf(old(self).pre_y@),
            all_wf(old(self).pre_z@),
        ensures
            *final(self) == (VoleTriple { pre_y: final(self).pre_y, pre_z: final(self).pre_z, ..*old(self) }),
            final(self).pre_y.len() == old(self).pre_y.len(),
            final(self).pre_z.len() == old(self).pre_z.len(),
            all_wf(final(self).pre_y@),
            all_wf(final(self).pre_z@),
            forall|i: int| 0 <= i < old(self).m ==> final(self).pre_y[i] == y[old(self).ot_limit + i],
            old(self).party == Role::Receiver ==> forall|i: int|
                0 <= i < old(self).m ==> final(self).pre_z[i] == z[old(self).ot_limit + i],
    {
        let mut i: usize = 0;
        while i < self.m
            invariant
                i <= self.m,
                *self == (VoleTriple { pre_y: self.pre_y, pre_z: self.pre_z, ..*old(self) }),
                self.pre_y.len() == old(self).pre_y.len(),
                self.pre_z.len() == old(self).pre_z.len(),
                self.m <= self.pre_y.len(),
                self.party == Role::Receiver ==> self.m <= self.pre_z.len(),
                y.len() == self.ot_limit + self.m,
                self.party == Role::Receiver ==> z.len() == y.len(),
                all_wf(y@),
                all_wf(z@),
                all_wf(self.pre_y@),
                all_wf(self.pre_z@),
                forall|j: int| 0 <= j < i ==> self.pre_y[j] == y[self.ot_limit + j],
                self.party == Role::Receiver ==> forall|j: int| 0 <= j < i ==> self.pre_z[j] == z[self.ot_limit + j],
            decreases self.m - i,
        {
            let src = self.ot_limit + i;
            crate::spfss_receiver::put(&mut self.pre_y, i, y[src]);
            match self.party {
                Role::Receiver => {
                    crate::spfss_receiver::put(&mut self.pre_z, i, z[src]);
                },
                Role::Sender => {},
            }
            i += 1;
        }
    }

    /// One step of a round of the main layer, whose correlations refill the buffer: the sender's whole
    /// round, or the receiver's start or finish of a round.
    pub fn extend_once(&mut self, io: &mut CommunicationChannel) -> (r: Result<(), VoleError>)
        requires
            old(self).wf(),
            old(self).extend_initialized,
            old(self).setup_done(),
            old(io).wf(),
        ensures
            final(io).wf(),
            final(self).party == old(self).party,
            final(self).param == old(self).param,
            final(self).delta == old(self).delta,
            final(self).stage == old(self).stage,
            final(self).ot_limit == old(self).ot_limit,
            final(self).m == old(self).m,
            r.is_ok() ==> final(self).wf() && final(self).extend_initialized,
            r.is_ok() && old(self).party == Role::Sender ==> final(self).ot_used == 0 && !final(self).round_pending,
            r.is_ok() && old(self).party == Role::Receiver ==> final(self).round_pending == !old(self).round_pending,
            r.is_ok() && old(self).party == Role::Receiver && old(self).round_pending ==> final(self).ot_used == 0,
            r.is_ok() && old(self).party == Role::Receiver && !old(self).round_pending ==> final(self).ot_used == old(self).ot_used && final(self).vole_y == old(self).vole_y && final(self).vole_z == old(self).vole_z,
            r.is_ok() && (old(self).party == Role::Sender || old(self).round_pending) ==> forall|i: int|
                0 <= i < old(self).m ==> final(self).pre_y[i] == final(self).vole_y[old(self).ot_limit + i],
            old(self).party == Role::Sender ==> match old(self).sender_round_reads(old(io).unread()) {
                Err(e) => r == Err::<(), VoleError>(e),
                Ok(rest) => r.is_ok() && final(io).unread() == rest && exists|tree_seeds: Seq<nat>|
                    tree_seeds.len() == old(self).param.t && #[trigger] old(self).sender_round_shares(tree_seeds)
                        == values(final(self).vole_y@),
            },
            old(self).party == Role::Receiver && !old(self).round_pending ==> r.is_ok() && final(io).incoming == old(io).incoming && final(io).read_pos == old(io).read_pos,
            old(self).party == Role::Receiver && !old(self).round_pending ==> final(self).round_started(
                old(self).cot.iknp.g0@,
                old(self).cot.iknp.g1@,
                old(io).written(),
                final(io).written(),
            ) && final(self).seed_z@ == old(self).pre_z@.take(old(self).m as int),
            old(self).party == Role::Receiver && old(self).round_pending ==> final(self).cot == old(self).cot && final(io).outgoing == old(io).outgoing,
            old(self).party == Role::Receiver && old(self).round_pending ==> match old(self).receiver_round_reads(
                old(io).unread(),
            ) {
                Err(e) => r == Err::<(), VoleError>(e),
                Ok((trees, rest)) => r.is_ok() && final(io).unread() == rest && values(final(self).vole_y@) == old(self).receiver_round_shares(trees) && values(final(self).vole_z@) == old(self).receiver_round_values(),
            },
    {
        match self.round_step(io)? {
            Some((y, z)) => {
                self.vole_y = y;
                match self.party {
                    Role::Receiver => {
                        self.vole_z = z;
                    },
                    Role::Sender => {},
                }
                self.ot_used = 0;
            },
            None => {},
        }
        Ok(())
    }

    /// Hands out correlations of the buffer until `num` are in `data_y`, or the buffer is empty.
    fn drain(&mut self, data_y: &mut Vec<Fe>, data_z: &mut Vec<Fe>, num: usize)
        requires
            old(self).wf(),
            old(self).extend_initialized,
            old(data_y).len() <= num,
            all_wf(old(data_y)@),
            all_wf(old(data_z)@),
            old(self).party == Role::Receiver ==> old(data_z).len() == old(data_y).len(),
        ensures
            final(self).wf(),
            *final(self) == (VoleTriple { ot_used: final(self).ot_used, ..*old(self) }),
            old(self).ot_used <= final(self).ot_used <= old(self).ot_limit,
            final(data_y).len() <= num,
            final(data_y).len() == old(data_y).len() + (final(self).ot_used - old(self).ot_used),
            final(data_y).len() == num || final(self).ot_used == old(self).ot_limit,
            all_wf(final(data_y)@),
            all_wf(final(data_z)@),
            final(data_y)@ == old(data_y)@ + old(self).vole_y@.subrange(
                old(self).ot_used as int,
                final(self).ot_used as int,
            ),
            old(self).party == Role::Receiver ==> final(data_z)@ == old(data_z)@ + old(self).vole_z@.subrange(
                old(self).ot_used as int,
                final(self).ot_used as int,
            ),
            old(self).party == Role::Sender ==> final(data_z)@ == old(data_z)@,
    {
        let ghost start = self.ot_used as int;
        assert(data_y@ =~= old(data_y)@ + self.vole_y@.subrange(start, start));
        assert(data_z@ =~= old(data_z)@ + self.vole_z@.subrange(start, start));
        while data_y.len() < num && self.ot_used < self.ot_limit
            invariant
                self.wf(),
                self.extend_initialized,
                *self == (VoleTriple { ot_used: self.ot_used, ..*old(self) }),
                start == old(self).ot_used,
                start <= self.ot_used <= self.ot_limit,
                data_y.len() <= num,
                data_y.len() == old(data_y).len() + (self.ot_used - start),
                all_wf(data_y@),
                all_wf(data_z@),
                data_y@ == old(data_y)@ + self.vole_y@.subrange(start, self.ot_used as int),
                self.party == Role::Receiver ==> data_z@ == old(data_z)@ + self.vole_z@.subrange(
                    start,
                    self.ot_used as int,
                ),
                self.party == Role::Sender ==> data_z@ == old(data_z)@,
            decreases self.ot_limit - self.ot_used,
        {
            let i = self.ot_used;
            data_y.push(self.vole_y[i]);
            match self.party {
                Role::Receiver => {
                    data_z.push(self.vole_z[i]);
                    assert(self.vole_z@.subrange(start, i as int).push(self.vole_z@[i as int]) =~= self.vole_z@.subrange(
                        start,
                        i as int + 1,
                    ));
                },
                Role::Sender => {},
            }
            assert(self.vole_y@.subrange(start, i as int).push(self.vole_y@[i as int]) =~= self.vole_y@.subrange(
                start,
                i as int + 1,
            ));
            self.ot_used = i + 1;
        }
    }

    /// One step of an extension that brings `data_y`, and for the receiver `data_z`, to `num` correlations.
    /// What the buffer holds is handed out first; then rounds are run, each of which gives `ot_limit`
    /// correlations, and what the last round gives beyond `num` stays in the buffer. The result tells
    /// whether the `num` correlations are there; while they are not, the step is to be taken again, with
    /// the same vectors and the same `num`, after the peer's step. The receiver steps first. Both parties
    /// must extend by the same numbers.
    #[verifier::rlimit(80)]
    pub fn extend(
        &mut self,
        io: &mut CommunicationChannel,
        data_y: &mut Vec<Fe>,
        data_z: &mut Vec<Fe>,
        num: usize,
    ) -> (r: Result<bool, VoleError>)
        requires
            old(self).wf(),
            old(self).extend_initialized,
            old(self).setup_done(),
            old(io).wf(),
            old(data_y).len() <= num,
            all_wf(old(data_y)@),
            all_wf(old(data_z)@),
            old(self).party == Role::Receiver ==> old(data_z).len() == old(data_y).len(),
        ensures
            final(io).wf(),
            final(self).party == old(self).party,
            final(self).param == old(self).param,
            final(self).delta == old(self).delta,
            final(self).stage == old(self).stage,
            final(self).ot_limit == old(self).ot_limit,
            final(self).m == old(self).m,
            r.is_ok() ==> {
                &&& final(self).wf()
                &&& final(self).extend_initialized
                &&& old(data_y).len() <= final(data_y).len() <= num
                &&& r.unwrap() == (final(data_y).len() == num)
                &&& final(data_y)@.take(old(data_y).len() as int) == old(data_y)@
                &&& all_wf(final(data_y)@)
                &&& all_wf(final(data_z)@)
                &&& old(self).party == Role::Receiver ==> final(data_z).len() == final(data_y).len() && final(data_z)@.take(old(data_z).len() as int) == old(data_z)@
                &&& old(self).party == Role::Sender ==> final(data_z)@ == old(data_z)@ && !final(self).round_pending
                &&& old(self).party == Role::Receiver ==> final(self).round_pending == !r.unwrap()
            },
            !old(self).round_pending && num - old(data_y).len() <= old(self).ot_limit - old(self).ot_used ==> r
                == Ok::<bool, VoleError>(true) && *final(io) == *old(io) && final(data_y)@ == old(data_y)@ + old(self).vole_y@.subrange(old(self).ot_used as int, old(self).ot_used + (num - old(data_y).len()))
                && final(self).ot_used == old(self).ot_used + (num - old(data_y).len()),
            old(self).party == Role::Sender && num - old(data_y).len() > old(self).ot_limit - old(self).ot_used
                ==> match old(self).sender_round_reads(old(io).unread()) {
                Err(e) => r == Err::<bool, VoleError>(e),
                Ok(rest) => {
                    let need = num - old(data_y).len() - (old(self).ot_limit - old(self).ot_used);
                    &&& r.is_ok()
                    &&& final(io).unread() == rest
                    &&& final(self).ot_used == (if need <= old(self).ot_limit {
                        need
                    } else {
                        old(self).ot_limit as int
                    })
                    &&& final(data_y)@ == old(data_y)@ + old(self).vole_y@.subrange(
                        old(self).ot_used as int,
                        old(self).ot_limit as int,
                    ) + final(self).vole_y@.take(final(self).ot_used as int)
                    &&& exists|tree_seeds: Seq<nat>|
                        tree_seeds.len() == old(self).param.t && #[trigger] old(self).sender_round_shares(tree_seeds)
                            == values(final(self).vole_y@)
                },
            },
            old(self).party == Role::Receiver && !old(self).round_pending && num - old(data_y).len() > old(self).ot_limit - old(self).ot_used ==> r == Ok::<bool, VoleError>(false) && final(io).incoming == old(io).incoming && final(io).read_pos == old(io).read_pos && final(data_y)@ == old(data_y)@ + old(self).vole_y@.subrange(old(self).ot_used as int, old(self).ot_limit as int) && final(data_z)@ == old(data_z)@ + old(self).vole_z@.subrange(old(self).ot_used as int, old(self).ot_limit as int),
            old(self).party == Role::Receiver && r == Ok::<bool, VoleError>(false) ==> final(self).round_started(
                old(self).cot.iknp.g0@,
                old(self).cot.iknp.g1@,
                old(io).written(),
                final(io).written(),
            ),
            old(self).party == Role::Receiver && r == Ok::<bool, VoleError>(true) ==> final(io).outgoing == old(io).outgoing,
            old(self).party == Role::Receiver && old(self).round_pending ==> match old(self).receiver_round_reads(
                old(io).unread(),
            ) {
                Err(e) => r == Err::<bool, VoleError>(e),
                Ok((trees, rest)) => {
                    let need = num - old(data_y).len();
                    &&& r.is_ok()
                    &&& final(io).unread() == rest
                    &&& values(final(self).vole_y@) == old(self).receiver_round_shares(trees)
                    &&& values(final(self).vole_z@) == old(self).receiver_round_values()
                    &&& final(self).ot_used == (if need <= old(self).ot_limit {
                        need
                    } else {
                        old(self).ot_limit as int
                    })
                    &&& final(data_y)@ == old(data_y)@ + final(self).vole_y@.take(final(self).ot_used as int)
                    &&& final(data_z)@ == old(data_z)@ + final(self).vole_z@.take(final(self).ot_used as int)
                },
            },
    {
        match self.party {
            Role::Sender => {
                self.drain(data_y, data_z, num);
                assert(data_y@.take(old(data_y).len() as int) =~= old(data_y)@);
                if data_y.len() == num {
                    return Ok(true);
                }
                let ghost mid_y = data_y@;
                let ghost mid = *self;
                assert(mid.sender_round_reads(old(io).unread()) == old(self).sender_round_reads(old(io).unread()));
                assert(forall|ts: Seq<nat>| mid.sender_round_shares(ts) == old(self).sender_round_shares(ts));
                self.extend_once(io)?;
                let ghost fresh = self.vole_y@;
                self.drain(data_y, data_z, num);
                proof {
                    assert(fresh.subrange(0, self.ot_used as int) =~= fresh.take(self.ot_used as int));
                    assert(data_y@.take(old(data_y).len() as int) =~= old(data_y)@);
                    let ts = choose|tree_seeds: Seq<nat>|
                        tree_seeds.len() == mid.param.t && #[trigger] mid.sender_round_shares(tree_seeds) == values(fresh);
                    assert(old(self).sender_round_shares(ts) == values(self.vole_y@));
                }
                Ok(data_y.len() == num)
            },
            Role::Receiver => {
                if self.round_pending {
                    self.extend_once(io)?;
                }
                let ghost fresh_y = self.vole_y@;
                let ghost fresh_z = self.vole_z@;
                let ghost unread_after = io.unread();
                self.drain(data_y, data_z, num);
                proof {
                    assert(data_y@.take(old(data_y).len() as int) =~= old(data_y)@);
                    assert(data_z@.take(old(data_z).len() as int) =~= old(data_z)@);
                    if old(self).round_pending {
                        assert(fresh_y.subrange(0, self.ot_used as int) =~= fresh_y.take(self.ot_used as int));
                        assert(fresh_z.subrange(0, self.ot_used as int) =~= fresh_z.take(self.ot_used as int));
                    }
                }
                if data_y.len() == num {
                    return Ok(true);
                }
                self.extend_once(io)?;
                Ok(false)
            },
        }
    }

    /// One step of an extension in place, which fills vectors of `byte_space` entries with whole rounds:
    /// every round gives `ot_limit` correlations, and the last leaves its `m` seed correlations behind them.
    /// `byte_space` must be at least `n`, and `byte_space - m` a multiple of `ot_limit`;
    /// `byte_memory_need_inplace` gives such a size. The buffer is left empty. The result tells whether the
    /// vectors are full; while they are not, the step is to be taken again after the peer's step.
    #[verifier::rlimit(80)]
    pub fn extend_inplace(
        &mut self,
        io: &mut CommunicationChannel,
        data_y: &mut Vec<Fe>,
        data_z: &mut Vec<Fe>,
        byte_space: usize,
    ) -> (r: Result<bool, VoleError>)
        requires
            old(self).wf(),
            old(self).extend_initialized,
            old(self).setup_done(),
            old(io).wf(),
            byte_space >= old(self).param.n,
            (byte_space - old(self).m) % (old(self).ot_limit as int) == 0,
            old(data_y).len() + old(self).param.n <= byte_space,
            old(data_y).len() as int % (old(self).ot_limit as int) == 0,
            all_wf(old(data_y)@),
            all_wf(old(data_z)@),
            old(self).party == Role::Receiver ==> old(data_z).len() == old(data_y).len(),
        ensures
            final(io).wf(),
            final(self).party == old(self).party,
            final(self).param == old(self).param,
            final(self).delta == old(self).delta,
            final(self).stage == old(self).stage,
            final(self).ot_limit == old(self).ot_limit,
            final(self).m == old(self).m,
            r.is_ok() ==> {
                &&& final(self).wf()
                &&& final(self).extend_initialized
                &&& final(data_y).len() <= byte_space
                &&& r.unwrap() == (final(data_y).len() == byte_space)
                &&& final(data_y)@.take(old(data_y).len() as int) == old(data_y)@
                &&& all_wf(final(data_y)@)
                &&& all_wf(final(data_z)@)
                &&& !r.unwrap() ==> final(data_y).len() + old(self).param.n <= byte_space && final(data_y).len() as int % (old(self).ot_limit as int) == 0
                &&& old(self).party == Role::Receiver ==> final(data_z).len() == final(data_y).len()
                &&& old(self).party == Role::Sender ==> final(data_y).len() > old(data_y).len()
                &&& old(self).party == Role::Receiver && old(self).round_pending ==> final(data_y).len() > old(data_y).len()
                &&& final(self).ot_used == (if old(self).party == Role::Sender || old(self).round_pending {
                    old(self).ot_limit
                } else {
                    old(self).ot_used
                })
            },
            old(self).party == Role::Sender ==> match old(self).sender_round_reads(old(io).unread()) {
                Err(e) => r == Err::<bool, VoleError>(e),
                Ok(rest) => r.is_ok() && final(io).unread() == rest && exists|tree_seeds: Seq<nat>|
                    tree_seeds.len() == old(self).param.t && values(final(data_y)@) == values(old(data_y)@)
                        + (#[trigger] old(self).sender_round_shares(tree_seeds)).take(
                        if old(data_y).len() + old(self).param.n == byte_space {
                            old(self).param.n as int
                        } else {
                            old(self).ot_limit as int
                        },
                    ),
            },
            old(self).party == Role::Receiver && !old(self).round_pending ==> r == Ok::<bool, VoleError>(false)
                && final(data_y)@ == old(data_y)@ && final(data_z)@ == old(data_z)@ && final(io).incoming == old(io).incoming && final(io).read_pos == old(io).read_pos,
            old(self).party == Role::Receiver && r == Ok::<bool, VoleError>(false) ==> final(self).round_started(
                old(self).cot.iknp.g0@,
                old(self).cot.iknp.g1@,
                old(io).written(),
                final(io).written(),
            ),
            old(self).party == Role::Receiver && r == Ok::<bool, VoleError>(true) ==> final(io).outgoing == old(io).outgoing,
            old(self).party == Role::Receiver && old(self).round_pending ==> match old(self).receiver_round_reads(
                old(io).unread(),
            ) {
                Err(e) => r == Err::<bool, VoleError>(e),
                Ok((trees, rest)) => r.is_ok() && final(io).unread() == rest && values(final(data_y)@) == values(
                    old(data_y)@,
                ) + old(self).receiver_round_shares(trees).take(
                    if old(data_y).len() + old(self).param.n == byte_space {
                        old(self).param.n as int
                    } else {
                        old(self).ot_limit as int
                    },
                ) && values(final(data_z)@) == values(old(data_z)@) + old(self).receiver_round_values().take(
                    if old(data_y).len() + old(self).param.n == byte_space {
                        old(self).param.n as int
                    } else {
                        old(self).ot_limit as int
                    },
                ),
            },
    {
        let n = self.param.n;
        let limit = self.ot_limit;
        let started = match self.party {
            Role::Sender => true,
            Role::Receiver => self.round_pending,
        };
        if started {
            match self.round_step(io)? {
                Some((y, z)) => {
                    let last = data_y.len() + n == byte_space;
                    let take = if last {
                        n
                    } else {
                        limit
                    };
                    let part_y = head(&y, take);
                    proof {
                        lemma_parts_wf(y@, take as int);
                        if !last {
                            lemma_inplace_progress(byte_space as int, self.m as int, limit as int, data_y.len() as int);
                        }
                    }
                    let ghost before_y = data_y@;
                    append_elements(data_y, &part_y);
                    assert(data_y@.take(old(data_y).len() as int) =~= old(data_y)@);
                    assert(values(part_y@) =~= values(y@).take(take as int));
                    match self.party {
                        Role::Receiver => {
                            let part_z = head(&z, take);
                            proof {
                                lemma_parts_wf(z@, take as int);
                            }
                            append_elements(data_z, &part_z);
                            assert(values(part_z@) =~= values(z@).take(take as int));
                        },
                        Role::Sender => {
                            proof {
                                let ts = choose|tree_seeds: Seq<nat>|
                                    tree_seeds.len() == old(self).param.t && #[trigger] old(self).sender_round_shares(
                                        tree_seeds,
                                    ) == values(y@);
                                assert(values(data_y@) == values(old(data_y)@) + old(self).sender_round_shares(ts).take(
                                    take as int,
                                ));
                            }
                        },
                    }
                    self.ot_used = self.ot_limit;
                    if last {
                        return Ok(true);
                    }
                },
                None => {},
            }
        }
        assert(data_y@.take(old(data_y).len() as int) =~= old(data_y)@);
        match self.party {
            Role::Receiver => {
                match self.round_step(io)? {
                    Some(_) => {},
                    None => {},
                }
                Ok(false)
            },
            Role::Sender => Ok(false),
        }
    }

    /// Whether the sender's next step of `extend` towards `num` correlations, of which it has `have`, runs a
    /// round, and so reads what the receiver has sent and sends an answer: it does exactly if the buffer
    /// does not hold what is still needed.
    pub fn round_due(&self, have: usize, num: usize) -> (r: bool)
        requires
            self.ot_used <= self.ot_limit,
            have <= num,
        ensures
            r == (num - have > self.ot_limit - self.ot_used),
    {
        num - have > self.ot_limit - self.ot_used
    }

    /// A check for tests, which gives the key away. The byte count of the message must be countable on
    /// this machine. The sender sends its key `x` and its first `size`
    /// shares `y`; the receiver, who must find them in the channel, tells whether each of them is its own
    /// share `y[i]` plus the key times its value `z[i]`. The sender's result is `true`.
    pub fn check_triple(&self, io: &mut CommunicationChannel, x: Fe, y: &Vec<Fe>, z: &Vec<Fe>, size: usize) -> (r:
        Result<bool, VoleError>)
        requires
            old(io).wf(),
            y.len() >= size,
            self.party == Role::Receiver ==> z.len() >= size,
            32 * size <= usize::MAX,
            all_wf(y@),
        ensures
            final(io).wf(),
            self.party == Role::Sender ==> r == Ok::<bool, VoleError>(true) && final(io).written() == old(io).written() + crate::comm_channel::field_frame(seq![x.value()]) + crate::comm_channel::field_frame(
                values(y@.take(size as int)),
            ),
            self.party == Role::Receiver ==> match crate::comm_channel::parse_field(old(io).unread(), 1) {
                Err(e) => r == Err::<bool, VoleError>(e),
                Ok(d) => {
                    let rest = old(io).unread().skip(crate::comm_channel::frame_size(old(io).unread(), false) as int);
                    match crate::comm_channel::parse_field(rest, size as nat) {
                        Err(e) => r == Err::<bool, VoleError>(e),
                        Ok(k) => r == Ok::<bool, VoleError>(
                            forall|i: int| 0 <= i < size ==> #[trigger] k[i] == fadd(y[i].value(), fmul(d[0], z[i].value())),
                        ),
                    }
                },
            },
    {
        match self.party {
            Role::Sender => {
                let mut xs: Vec<Fe> = Vec::new();
                xs.push(x);
                assert(values(xs@) =~= seq![x.value()]);
                io.send_stark252(&xs);
                let part = head(y, size);
                io.send_stark252(&part);
                Ok(true)
            },
            Role::Receiver => {
                let d = io.receive_stark252(1)?;
                let k = io.receive_stark252(size)?;
                let delta = d[0];
                let ghost kv = values(k@);
                assert(values(d@)[0] == d[0].value());
                let mut ok = true;
                let mut i: usize = 0;
                while i < size
                    invariant
                        i <= size,
                        y.len() >= size,
                        z.len() >= size,
                        k.len() == size,
                        kv == values(k@),
                        all_wf(k@),
                        all_wf(y@),
                        ok == forall|j: int|
                            0 <= j < i ==> #[trigger] kv[j] == fadd(y[j].value(), fmul(delta.value(), z[j].value())),
                    decreases size - i,
                {
                    let expected = y[i].add(&delta.mul(&z[i]));
                    assert(kv[i as int] == k[i as int].value());
                    if !k[i].equals(&expected) {
                        ok = false;
                    }
                    i += 1;
                }
                Ok(ok)
            },
        }
    }
}

/// A buffer that is not yet full after a round has room for another whole round.
pub proof fn lemma_inplace_progress(space: int, m: int, limit: int, len: int)
    requires
        limit > 0,
        m >= 0,
        len >= 0,
        (space - m) % limit == 0,
        len % limit == 0,
        len + limit + m <= space,
        len + limit + m != space,
    ensures
        len + limit + limit + m <= space,
        (len + limit) % limit == 0,
{
    vstd::arithmetic::div_mod::lemma_fundamental_div_mod(space - m, limit);
    vstd::arithmetic::div_mod::lemma_fundamental_div_mod(len, limit);
    let a = (space - m) / limit;
    let b = len / limit;
    assert(space - m == limit * a);
    assert(len == limit * b);
    assert(limit * (b + 1) == limit * b + limit) by (nonlinear_arith);
    assert(a > b + 1) by (nonlinear_arith)
        requires
            limit * a > limit * b + limit,
            limit > 0,
    ;
    assert(limit * a >= limit * (b + 2)) by (nonlinear_arith)
        requires
            a >= b + 2,
            limit > 0,
    ;
    assert(limit * (b + 2) == limit * b + limit + limit) by (nonlinear_arith);
    vstd::arithmetic::div_mod::lemma_mod_multiples_basic(b + 1, limit);
    assert((b + 1) * limit == limit * (b + 1)) by (nonlinear_arith);
}


/// A round keeps the correlation. Let the seed vectors of the expansion be correlated, the sender's entry
/// being the receiver's plus the key `d` times the receiver's value, and let the noise be correlated at
/// place `i` in the same way. Then the correlations that the round gives are correlated at place `i`:
/// `y_S[i] = y_R[i] + d * z_R[i]`. The noise is correlated wherever the two parties' leaves agree and the
/// receiver's value noise is zero, which is everywhere but at the receiver's places.
pub proof fn lemma_round_relation(
    seed: Seq<u8>,
    seed_field: Seq<u8>,
    noise_s: Seq<nat>,
    noise_r: Seq<nat>,
    noise_z: Seq<nat>,
    key: Seq<nat>,
    mac: Seq<nat>,
    u: Seq<nat>,
    d: nat,
    i: int,
)
    requires
        noise_s.len() == noise_r.len(),
        noise_r.len() == noise_z.len(),
        0 <= i < noise_s.len(),
        key.len() == mac.len(),
        mac.len() == u.len(),
        key.len() > 0,
        forall|j: int| 0 <= j < key.len() ==> #[trigger] key[j] == fadd(mac[j], fmul(d, u[j])),
        noise_s[i] == fadd(noise_r[i], fmul(d, noise_z[i])),
    ensures
        lpn_expand(seed, seed_field, noise_s, key)[i] == fadd(
            lpn_expand(seed, seed_field, noise_r, mac)[i],
            fmul(d, lpn_expand(seed, seed_field, noise_z, u)[i]),
        ),
{
    crate::lpn::lemma_lpn_preserves_relation(seed, seed_field, noise_s, noise_r, noise_z, key, mac, u, d, i);
}

/// Noise that agrees between the parties where the receiver's value noise is zero is correlated there.
pub proof fn lemma_noise_off_places(s: nat, d: nat)
    requires
        s < crate::field::modulus(),
    ensures
        s == fadd(s, fmul(d, 0)),
{
    assert(d * 0 == 0) by (nonlinear_arith);
    vstd::arithmetic::div_mod::lemma_small_mod(0, crate::field::modulus());
    vstd::arithmetic::div_mod::lemma_small_mod(s, crate::field::modulus());
}

/// The correlation over one round of both parties, without the batched check. Let the two parties'
/// buffers of precomputed transfers hold correlated transfers in the slot of every tree; let the seed
/// correlations after the first `t + 1` be correlated, the sender's `key` being the receiver's `mac` plus
/// `d` times the receiver's `u`; and let the receiver find in the channel what the sender's step wrote for
/// the trees that grow from `tree_seeds`. Then the receiver's second step reads all of it, and the
/// correlations that the two contracts give the parties are correlated at every place that is not the
/// receiver's own place of a tree: `y_S = y_R + d * z_R`.
pub proof fn lemma_round_pair(
    s_pre: Seq<[u8; 32]>,
    s_bits: Seq<bool>,
    r_pre: Seq<[u8; 32]>,
    r_bits: Seq<bool>,
    n_ot: int,
    qs: Seq<Seq<Seq<u8>>>,
    ts: Seq<Seq<Seq<u8>>>,
    delta_block: Seq<u8>,
    choices: Seq<Seq<bool>>,
    places: Seq<usize>,
    tree_seeds: Seq<nat>,
    key: Seq<Fe>,
    mac: Seq<Fe>,
    u: Seq<Fe>,
    d: nat,
    log_bin_sz: nat,
    t: nat,
    rest: Seq<u8>,
    i: int,
    j: int,
)
    requires
        log_bin_sz >= 1,
        t * log_bin_sz <= n_ot,
        64 * log_bin_sz <= u64::MAX,
        s_pre.len() == 2 * n_ot,
        r_pre.len() >= n_ot,
        delta_block.len() == 32,
        forall|k: int|
            0 <= k < t ==> crate::spfss_receiver::slot_correlated(
                s_pre,
                s_bits,
                r_pre,
                r_bits,
                n_ot,
                #[trigger] qs[k],
                ts[k],
                delta_block,
                choices[k],
                log_bin_sz as int,
                k * log_bin_sz,
            ),
        key.len() == mac.len(),
        mac.len() == u.len(),
        key.len() > t + 1,
        forall|q: int|
            t + 1 <= q < key.len() ==> (#[trigger] key[q]).value() == fadd(mac[q].value(), fmul(d, u[q].value())),
        places.len() == t,
        forall|k: int| 0 <= k < t ==> #[trigger] places[k] == crate::ggm::path_index(choices[k], log_bin_sz),
        0 <= i < t,
        0 <= j < pow2i(log_bin_sz),
        j != places[i],
    ensures
        crate::mpfss_reg::receiver_round_spec(
            r_pre,
            choices,
            Seq::empty(),
            false,
            log_bin_sz + 1,
            crate::mpfss_reg::sender_all_frames(
                s_pre,
                s_bits,
                n_ot,
                tree_seeds,
                values(key.take(t as int + 1)),
                log_bin_sz + 1,
                t,
            ) + rest,
            t,
            mac[t as int].value(),
        ) matches Ok((trees, left)) && left == rest && ({
            let row = i * pow2i(log_bin_sz) + j;
            let y_s = layer_sender_shares(tree_seeds, key, t as int, log_bin_sz as int);
            let y_r = lpn_expand(
                lpn_seed(),
                lpn_seed_field(),
                crate::mpfss_reg::receiver_sparse(trees, choices, log_bin_sz + 1, values(mac.take(t as int + 1)), t),
                values(mac.skip(t as int + 1)),
            );
            let z_r = lpn_expand(
                lpn_seed(),
                lpn_seed_field(),
                place_noise(places, values(u.take(t as int + 1)), pow2i(log_bin_sz) as int, t * pow2i(log_bin_sz)),
                values(u.skip(t as int + 1)),
            );
            y_s[row] == fadd(y_r[row], fmul(d, z_r[row]))
        }),
{
    let depth = log_bin_sz + 1;
    let leaves = pow2i(log_bin_sz);
    let row = i * leaves + j;
    let gammas = values(key.take(t as int + 1));
    let shares = values(mac.take(t as int + 1));
    assert((depth - 1) as nat == log_bin_sz);
    crate::mpfss_reg::lemma_mpfss_pair(
        s_pre,
        s_bits,
        r_pre,
        r_bits,
        n_ot,
        qs,
        ts,
        delta_block,
        choices,
        tree_seeds,
        gammas,
        shares,
        depth,
        t,
        rest,
        i,
        j,
    );
    assert(shares[t as int] == mac[t as int].value());
    let trees = crate::mpfss_reg::receiver_round_spec(
        r_pre,
        choices,
        Seq::empty(),
        false,
        depth,
        crate::mpfss_reg::sender_all_frames(s_pre, s_bits, n_ot, tree_seeds, gammas, depth, t) + rest,
        t,
        mac[t as int].value(),
    ).unwrap().0;
    let noise_s = crate::mpfss_reg::sender_sparse(tree_seeds, depth, t);
    let noise_r = crate::mpfss_reg::receiver_sparse(trees, choices, depth, shares, t);
    let noise_z = place_noise(places, values(u.take(t as int + 1)), leaves as int, t * leaves);
    crate::mpfss_reg::lemma_sender_sparse_index(tree_seeds, depth, t, i, j);
    crate::mpfss_reg::lemma_receiver_sparse_len(trees, choices, depth, shares, t);
    crate::ggm::lemma_node_bound(tree_seeds[i], log_bin_sz, j);
    assert(0 <= row < t * leaves) by (nonlinear_arith)
        requires
            row == i * leaves + j,
            0 <= i < t,
            0 <= j < leaves,
    ;
    assert(row / (leaves as int) == i && row % (leaves as int) == j) by {
        vstd::arithmetic::div_mod::lemma_fundamental_div_mod_converse(row, leaves as int, i, j);
    }
    assert(noise_z[row] == 0);
    lemma_noise_off_places(noise_s[row], d);
    let key_tail = values(key.skip(t as int + 1));
    let mac_tail = values(mac.skip(t as int + 1));
    let u_tail = values(u.skip(t as int + 1));
    assert forall|q: int| 0 <= q < key_tail.len() implies #[trigger] key_tail[q] == fadd(
        mac_tail[q],
        fmul(d, u_tail[q]),
    ) by {
        assert(key.skip(t as int + 1)[q] == key[t + 1 + q]);
        assert(mac.skip(t as int + 1)[q] == mac[t + 1 + q]);
        assert(u.skip(t as int + 1)[q] == u[t + 1 + q]);
    }
    lemma_round_relation(lpn_seed(), lpn_seed_field(), noise_s, noise_r, noise_z, key_tail, mac_tail, u_tail, d, row);
}

} // verus!
