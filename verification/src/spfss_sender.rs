use vstd::prelude::*;
use crate::comm_channel::{blocks32_frame, field_frame, frame_size, parse_field, views32, CommunicationChannel};
use crate::cope::pow2i;
use crate::crypto::sha256_digest;
use crate::error::VoleError;
use crate::field::{all_wf, dot, fadd, fmul, fsub, le_nat, modulus, sum, values, vector_inner_product, vector_sum, Fe};
use crate::field_laws::{
    lemma_cong_eq, lemma_cong_mul, lemma_cong_refl, lemma_cong_trans, lemma_field_ops, lemma_fmul_cong,
};
use crate::ggm::{ggm_level, ggm_node, lemma_pow2i_pos, parity_sum};
use crate::preot::{send_pads, OTPre};
use crate::prg::PRG;
use crate::two_key_prp::TwoKeyPRP;

verus! {

/// `s` to the power `n`, in the field.
pub open spec fn fpow(s: nat, n: nat) -> nat
    decreases n,
{
    if n == 0 {
        1
    } else {
        fmul(fpow(s, (n - 1) as nat), s)
    }
}

/// The coefficients of the universal hash for a seed: coefficient `i` is the seed to the power `i + 1`.
pub open spec fn uni_hash_coeffs(seed: nat, sz: nat) -> Seq<nat> {
    Seq::new(sz, |i: int| fpow(seed, (i + 1) as nat))
}

/// The seed of the universal hash that a field element gives: the SHA-256 digest of its encoding, read as a
/// little-endian integer and reduced.
pub open spec fn hash_seed(v: nat) -> nat {
    le_nat(sha256_digest(crate::block::le_bytes(v, 32))) % modulus()
}

/// The canonical encodings of a sequence of field elements.
pub open spec fn encodings(v: Seq<Fe>) -> Seq<Seq<u8>> {
    Seq::new(v.len(), |i: int| v[i].bytes@)
}

/// The sums that the sender offers for the levels of the tree that grows from `seed`: for each level below
/// the root, the sum of its nodes at the places of the given parity.
pub open spec fn level_sums(seed: nat, depth: nat, parity: int) -> Seq<nat> {
    Seq::new((depth - 1) as nat, |h: int| parity_sum(ggm_level(seed, (h + 1) as nat), parity, pow2i((h + 1) as nat)))
}

/// The secret sum of the tree that grows from `seed`: the sum of its leaves plus the sender's
/// correlation `gamma`.
pub open spec fn secret_sum_of(seed: nat, depth: nat, gamma: nat) -> nat {
    fadd(sum(ggm_level(seed, (depth - 1) as nat), pow2i((depth - 1) as nat)), gamma)
}

/// What the sender of one tree writes: the pads of slot `s` for the sums of the levels, then the secret sum.
pub open spec fn sender_frames(
    pre_data: Seq<[u8; 32]>,
    bits: Seq<bool>,
    n: int,
    seed: nat,
    gamma: nat,
    depth: nat,
    s: int,
) -> Seq<u8> {
    blocks32_frame(
        send_pads(
            pre_data,
            bits,
            n,
            crate::comm_channel::field_encodings(level_sums(seed, depth, 0)),
            crate::comm_channel::field_encodings(level_sums(seed, depth, 1)),
            depth - 1,
            s * (depth - 1),
        ),
    ) + field_frame(seq![secret_sum_of(seed, depth, gamma)])
}

/// Multiplication in the field is associative.
pub proof fn lemma_fmul_assoc(x: nat, y: nat, z: nat)
    ensures
        fmul(x, fmul(y, z)) == fmul(fmul(x, y), z),
{
    lemma_cong_refl(x as int, 0);
    lemma_cong_refl(y as int, 0);
    lemma_cong_refl(z as int, 0);
    lemma_fmul_cong(y, z, y as int, z as int);
    lemma_fmul_cong(x, fmul(y, z), x as int, y as int * z as int);
    lemma_fmul_cong(x, y, x as int, y as int);
    lemma_fmul_cong(fmul(x, y), z, x as int * y as int, z as int);
    assert(x as int * (y as int * z as int) == (x as int * y as int) * z as int) by (nonlinear_arith);
    lemma_cong_refl(fmul(fmul(x, y), z) as int, (x as int * y as int) * z as int);
    lemma_cong_trans(
        fmul(x, fmul(y, z)) as int,
        x as int * (y as int * z as int),
        fmul(fmul(x, y), z) as int,
    );
    lemma_field_ops(x, fmul(y, z));
    lemma_field_ops(fmul(x, y), z);
    lemma_cong_eq(fmul(x, fmul(y, z)) as int, fmul(fmul(x, y), z) as int);
}

/// Powers multiply by adding their exponents.
pub proof fn lemma_fpow_add(s: nat, a: nat, b: nat)
    requires
        b >= 1,
    ensures
        fmul(fpow(s, a), fpow(s, b)) == fpow(s, a + b),
    decreases b,
{
    if b == 1 {
        assert(fpow(s, 1) == fmul(1, s));
        lemma_fmul_assoc(fpow(s, a), 1, s);
        lemma_field_ops(fpow(s, a), 1);
        assert(fmul(fpow(s, a), 1) == (fpow(s, a) * 1) % modulus());
        lemma_fpow_bound(s, a);
        assert(fpow(s, a) * 1 == fpow(s, a)) by (nonlinear_arith);
        vstd::arithmetic::div_mod::lemma_small_mod(fpow(s, a), modulus());
    } else {
        lemma_fpow_add(s, a, (b - 1) as nat);
        lemma_fmul_assoc(fpow(s, a), fpow(s, (b - 1) as nat), s);
    }
}

/// A power is a number below the prime.
pub proof fn lemma_fpow_bound(s: nat, n: nat)
    ensures
        fpow(s, n) < modulus(),
    decreases n,
{
    if n > 0 {
        lemma_field_ops(fpow(s, (n - 1) as nat), s);
    }
}

/// The coefficients of the universal hash for a seed: the powers of the seed from the first on. The first
/// four are made one from the other; from there on, four at a time, each is the one four places before
/// times the fourth power.
pub fn uni_hash_coeff_gen(seed: Fe, sz: usize) -> (coeff: Vec<Fe>)
    requires
        seed.wf(),
    ensures
        coeff.len() == sz,
        all_wf(coeff@),
        values(coeff@) == uni_hash_coeffs(seed.value(), sz as nat),
{
    let mut coeff: Vec<Fe> = Vec::new();
    let ghost s = seed.value();
    if sz == 0 {
        assert(values(coeff@) =~= uni_hash_coeffs(s, 0));
        return coeff;
    }
    proof {
        lemma_field_ops(1, s);
        assert(1 * s == s) by (nonlinear_arith);
        vstd::arithmetic::div_mod::lemma_small_mod(s, modulus());
        assert(fpow(s, 0) == 1);
        assert(fpow(s, 1) == fmul(fpow(s, 0), s));
        assert(fpow(s, 1) == s);
    }
    coeff.push(seed);
    let mut i: usize = 1;
    while i < sz && i < 4
        invariant
            1 <= i <= 4,
            i <= sz,
            seed.wf(),
            s == seed.value(),
            coeff.len() == i,
            all_wf(coeff@),
            forall|j: int| 0 <= j < i ==> (#[trigger] coeff[j]).value() == fpow(s, (j + 1) as nat),
        decreases 4 - i,
    {
        let prev = coeff[i - 1];
        coeff.push(prev.mul(&seed));
        i += 1;
    }
    if sz > 4 {
        let multiplier = coeff[3];
        while sz - i > 3
            invariant
                4 <= i <= sz,
                seed.wf(),
                s == seed.value(),
                multiplier.wf(),
                multiplier.value() == fpow(s, 4),
                coeff.len() == i,
                all_wf(coeff@),
                forall|j: int| 0 <= j < i ==> (#[trigger] coeff[j]).value() == fpow(s, (j + 1) as nat),
            decreases sz - i,
        {
            let c0 = coeff[i - 4].mul(&multiplier);
            let c1 = coeff[i - 3].mul(&multiplier);
            let c2 = coeff[i - 2].mul(&multiplier);
            let c3 = coeff[i - 1].mul(&multiplier);
            proof {
                lemma_fpow_add(s, (i - 3) as nat, 4);
                lemma_fpow_add(s, (i - 2) as nat, 4);
                lemma_fpow_add(s, (i - 1) as nat, 4);
                lemma_fpow_add(s, i as nat, 4);
            }
            coeff.push(c0);
            coeff.push(c1);
            coeff.push(c2);
            coeff.push(c3);
            i += 4;
        }
        while i < sz
            invariant
                4 <= i <= sz,
                seed.wf(),
                s == seed.value(),
                coeff.len() == i,
                all_wf(coeff@),
                forall|j: int| 0 <= j < i ==> (#[trigger] coeff[j]).value() == fpow(s, (j + 1) as nat),
            decreases sz - i,
        {
            let prev = coeff[i - 1];
            coeff.push(prev.mul(&seed));
            i += 1;
        }
    }
    assert(values(coeff@) =~= uni_hash_coeffs(s, sz as nat));
    coeff
}

/// The power of two with exponent `e`.
pub fn pow2_usize(e: usize) -> (r: usize)
    requires
        e <= 30,
    ensures
        r == pow2i(e as nat),
        1 <= r <= 0x4000_0000,
{
    let mut r: usize = 1;
    let mut i: usize = 0;
    proof {
        assert(pow2i(30) == 0x4000_0000) by {
            reveal_with_fuel(pow2i, 31);
        }
    }
    while i < e
        invariant
            i <= e,
            e <= 30,
            r == pow2i(i as nat),
            r <= pow2i(30),
        decreases e - i,
    {
        proof {
            lemma_pow2i_le(i as nat + 1, 30);
            assert(pow2i(30) == 0x4000_0000) by {
                reveal_with_fuel(pow2i, 31);
            }
        }
        r = r * 2;
        i += 1;
    }
    proof {
        assert(pow2i(30) == 0x4000_0000) by {
            reveal_with_fuel(pow2i, 31);
        }
        lemma_pow2i_pos(e as nat);
    }
    r
}

/// Powers of two grow with the exponent.
pub proof fn lemma_pow2i_le(a: nat, b: nat)
    requires
        a <= b,
    ensures
        pow2i(a) <= pow2i(b),
    decreases b,
{
    if a < b {
        lemma_pow2i_le(a, (b - 1) as nat);
    }
}

/// The next level of the tree, with the sums of its nodes at even and at odd places.
fn grow_level(prp: &TwoKeyPRP, level: &Vec<Fe>, Ghost(seed): Ghost<nat>, Ghost(h): Ghost<nat>) -> (r: (
    Vec<Fe>,
    Fe,
    Fe,
))
    requires
        level.len() == pow2i(h),
        2 * level.len() == pow2i(h + 1),
        2 * level.len() <= 0x4000_0000,
        all_wf(level@),
        values(level@) == ggm_level(seed, h),
    ensures
        r.0.len() == pow2i(h + 1),
        all_wf(r.0@),
        values(r.0@) == ggm_level(seed, h + 1),
        r.1.wf(),
        r.2.wf(),
        r.1.value() == parity_sum(ggm_level(seed, h + 1), 0, pow2i(h + 1)),
        r.2.value() == parity_sum(ggm_level(seed, h + 1), 1, pow2i(h + 1)),
{
    let ghost target = ggm_level(seed, h + 1);
    let mut next: Vec<Fe> = Vec::new();
    let mut s0 = Fe::zero();
    let mut s1 = Fe::zero();
    let mut i: usize = 0;
    while i < level.len()
        invariant
            i <= level.len(),
            level.len() == pow2i(h),
            2 * level.len() == pow2i(h + 1),
            2 * level.len() <= 0x4000_0000,
            all_wf(level@),
            values(level@) == ggm_level(seed, h),
            target == ggm_level(seed, h + 1),
            next.len() == 2 * i,
            all_wf(next@),
            forall|j: int| 0 <= j < 2 * i ==> (#[trigger] next[j]).value() == target[j],
            s0.wf(),
            s1.wf(),
            s0.value() == parity_sum(target, 0, (2 * i) as nat),
            s1.value() == parity_sum(target, 1, (2 * i) as nat),
        decreases level.len() - i,
    {
        let children = prp.node_expand_1to2(&level[i]);
        proof {
            assert(values(level@)[i as int] == level[i as int].value());
            assert((2 * i) / 2 == i as int && (2 * i) % 2 == 0);
            assert((2 * i + 1) / 2 == i as int && (2 * i + 1) % 2 == 1);
            assert(target[2 * i as int] == children[0].value());
            assert(target[2 * i as int + 1] == children[1].value());
            assert(parity_sum(target, 0, (2 * i + 1) as nat) == fadd(
                parity_sum(target, 0, (2 * i) as nat),
                target[2 * i as int],
            ));
            assert(parity_sum(target, 0, (2 * i + 2) as nat) == parity_sum(target, 0, (2 * i + 1) as nat));
            assert(parity_sum(target, 1, (2 * i + 1) as nat) == parity_sum(target, 1, (2 * i) as nat));
            assert(parity_sum(target, 1, (2 * i + 2) as nat) == fadd(
                parity_sum(target, 1, (2 * i + 1) as nat),
                target[2 * i as int + 1],
            ));
        }
        next.push(children[0]);
        next.push(children[1]);
        s0 = s0.add(&children[0]);
        s1 = s1.add(&children[1]);
        i += 1;
    }
    assert(values(next@) =~= target);
    (next, s0, s1)
}

/// The sender of a single-point function sharing over a tree of depth `depth`: it grows the tree from a
/// random seed, offers the two sums of every level through precomputed transfers, and sends the sum of the
/// leaves plus its correlation.
pub struct SpfssSenderFp {
    pub seed: Fe,
    pub delta: Fe,
    /// The sum of the leaves plus the sender's correlation.
    pub secret_sum: Fe,
    /// The leaves of the tree.
    pub ggm_tree: Vec<Fe>,
    /// For each level below the root, the sum of its nodes at even places.
    pub m0: Vec<Fe>,
    /// For each level below the root, the sum of its nodes at odd places.
    pub m1: Vec<Fe>,
    pub depth: usize,
    pub leave_n: usize,
}

impl SpfssSenderFp {
    /// The sizes fit the depth, and every element is canonical.
    pub open spec fn wf(&self) -> bool {
        &&& 2 <= self.depth <= 31
        &&& self.leave_n == pow2i((self.depth - 1) as nat)
        &&& self.seed.wf()
        &&& self.delta.wf()
        &&& self.secret_sum.wf()
        &&& all_wf(self.ggm_tree@)
        &&& all_wf(self.m0@)
        &&& all_wf(self.m1@)
    }

    /// The tree has been grown.
    pub open spec fn computed(&self) -> bool {
        &&& self.wf()
        &&& self.ggm_tree.len() == self.leave_n
        &&& self.m0.len() == self.depth - 1
        &&& self.m1.len() == self.depth - 1
        &&& values(self.ggm_tree@) == ggm_level(self.seed.value(), (self.depth - 1) as nat)
        &&& forall|h: int|
            0 <= h < self.depth - 1 ==> (#[trigger] self.m0[h]).value() == parity_sum(
                ggm_level(self.seed.value(), (h + 1) as nat),
                0,
                pow2i((h + 1) as nat),
            )
        &&& forall|h: int|
            0 <= h < self.depth - 1 ==> (#[trigger] self.m1[h]).value() == parity_sum(
                ggm_level(self.seed.value(), (h + 1) as nat),
                1,
                pow2i((h + 1) as nat),
            )
    }

    /// A sender with a seed of the caller's.
    pub fn new_with(depth: usize, seed: Fe) -> (r: Self)
        requires
            2 <= depth <= 31,
            seed.wf(),
        ensures
            r.wf(),
            r.depth == depth,
            r.seed == seed,
            r.ggm_tree.len() == 0,
    {
        let leave_n = pow2_usize(depth - 1);
        SpfssSenderFp {
            seed,
            delta: Fe::zero(),
            secret_sum: Fe::zero(),
            ggm_tree: Vec::new(),
            m0: Vec::new(),
            m1: Vec::new(),
            depth,
            leave_n,
        }
    }

    /// A sender with a random seed.
    pub fn new(depth: usize) -> (r: Self)
        requires
            2 <= depth <= 31,
        ensures
            r.wf(),
            r.depth == depth,
            r.ggm_tree.len() == 0,
    {
        let mut prg = PRG::new(None, 0);
        let seed = prg.random_stark252_elements(1);
        Self::new_with(depth, seed[0])
    }

    /// Grows the tree for the key `secret` and the correlation `gamma`, and gives its leaves.
    pub fn compute(&mut self, secret: Fe, gamma: Fe) -> (leaves: Vec<Fe>)
        requires
            old(self).wf(),
            secret.wf(),
            gamma.wf(),
        ensures
            final(self).computed(),
            final(self).depth == old(self).depth,
            final(self).seed == old(self).seed,
            final(self).delta == secret,
            leaves@ == final(self).ggm_tree@,
            final(self).secret_sum.value() == fadd(
                sum(values(leaves@), leaves.len() as nat),
                gamma.value(),
            ),
            final(self).secret_sum.value() == secret_sum_of(
                old(self).seed.value(),
                old(self).depth as nat,
                gamma.value(),
            ),
            leaves.len() == old(self).leave_n,
            all_wf(leaves@),
            values(leaves@) == ggm_level(old(self).seed.value(), (old(self).depth - 1) as nat),
    {
        self.delta = secret;
        self.ggm_tree_gen(gamma)
    }

    /// What `send` writes, in terms of the seed: the sums kept are those of the tree.
    pub proof fn lemma_send_frames(&self, pre_data: Seq<[u8; 32]>, bits: Seq<bool>, n: int, gamma: nat, s: int)
        requires
            self.computed(),
            self.secret_sum.value() == secret_sum_of(self.seed.value(), self.depth as nat, gamma),
        ensures
            blocks32_frame(
                send_pads(pre_data, bits, n, encodings(self.m0@), encodings(self.m1@), self.depth - 1, s * (self.depth - 1)),
            ) + field_frame(seq![self.secret_sum.value()]) == sender_frames(
                pre_data,
                bits,
                n,
                self.seed.value(),
                gamma,
                self.depth as nat,
                s,
            ),
    {
        let e0 = crate::comm_channel::field_encodings(level_sums(self.seed.value(), self.depth as nat, 0));
        let e1 = crate::comm_channel::field_encodings(level_sums(self.seed.value(), self.depth as nat, 1));
        assert forall|h: int| 0 <= h < self.depth - 1 implies encodings(self.m0@)[h] == e0[h] && encodings(
            self.m1@,
        )[h] == e1[h] by {
            crate::block::lemma_fe_bytes(self.m0[h]);
            crate::block::lemma_fe_bytes(self.m1[h]);
        }
        assert(encodings(self.m0@) =~= e0);
        assert(encodings(self.m1@) =~= e1);
    }

    /// Grows the tree from the top, level by level: every node gives its two children, and the sums of the
    /// children at even and at odd places are kept for every level. The secret sum is the sum of the leaves
    /// plus `gamma`.
    fn ggm_tree_gen(&mut self, gamma: Fe) -> (leaves: Vec<Fe>)
        requires
            old(self).wf(),
            gamma.wf(),
        ensures
            final(self).computed(),
            final(self).depth == old(self).depth,
            final(self).seed == old(self).seed,
            final(self).delta == old(self).delta,
            leaves@ == final(self).ggm_tree@,
            final(self).secret_sum.value() == fadd(
                sum(values(leaves@), leaves.len() as nat),
                gamma.value(),
            ),
    {
        let prp = TwoKeyPRP::new();
        let ghost seed = self.seed.value();
        let mut level: Vec<Fe> = Vec::new();
        level.push(self.seed);
        let mut m0: Vec<Fe> = Vec::new();
        let mut m1: Vec<Fe> = Vec::new();
        let mut h: usize = 0;
        assert(values(level@) =~= ggm_level(seed, 0));
        while h < self.depth - 1
            invariant
                h <= self.depth - 1,
                self.wf(),
                *self == *old(self),
                seed == self.seed.value(),
                level.len() == pow2i(h as nat),
                all_wf(level@),
                values(level@) == ggm_level(seed, h as nat),
                m0.len() == h,
                m1.len() == h,
                all_wf(m0@),
                all_wf(m1@),
                forall|k: int|
                    0 <= k < h ==> (#[trigger] m0[k]).value() == parity_sum(
                        ggm_level(seed, (k + 1) as nat),
                        0,
                        pow2i((k + 1) as nat),
                    ),
                forall|k: int|
                    0 <= k < h ==> (#[trigger] m1[k]).value() == parity_sum(
                        ggm_level(seed, (k + 1) as nat),
                        1,
                        pow2i((k + 1) as nat),
                    ),
            decreases self.depth - 1 - h,
        {
            proof {
                lemma_pow2i_pos(h as nat);
                lemma_pow2i_le((h + 1) as nat, 30);
                crate::spfss_receiver::lemma_pow2_30();
            }
            let (next, s0, s1) = grow_level(&prp, &level, Ghost(seed), Ghost(h as nat));
            m0.push(s0);
            m1.push(s1);
            level = next;
            h += 1;
        }
        let total = vector_sum(&level);
        self.secret_sum = total.add(&gamma);
        self.m0 = m0;
        self.m1 = m1;
        let leaves = crate::base_svole::copy_elements(&level);
        self.ggm_tree = level;
        leaves
    }

    /// Sends the two sums of every level through slot `s` of the precomputed transfers, then the secret
    /// sum.
    pub fn send(&mut self, io: &mut CommunicationChannel, ot: &mut OTPre, s: usize)
        requires
            old(self).computed(),
            old(io).wf(),
            old(ot).wf(),
            s * (old(self).depth - 1) + (old(self).depth - 1) <= old(ot).n,
        ensures
            *final(self) == *old(self),
            *final(ot) == *old(ot),
            final(io).wf(),
            final(io).incoming == old(io).incoming,
            final(io).read_pos == old(io).read_pos,
            final(io).written() == old(io).written() + blocks32_frame(
                send_pads(
                    old(ot).pre_data@,
                    old(ot).bits@,
                    old(ot).n as int,
                    encodings(old(self).m0@),
                    encodings(old(self).m1@),
                    old(self).depth - 1,
                    s * (old(self).depth - 1),
                ),
            ) + field_frame(seq![old(self).secret_sum.value()]),
    {
        let msg0 = to_blocks(&self.m0);
        let msg1 = to_blocks(&self.m1);
        ot.send(io, &msg0, &msg1, self.depth - 1, s);
        let mut sums: Vec<Fe> = Vec::new();
        sums.push(self.secret_sum);
        assert(values(sums@) =~= seq![self.secret_sum.value()]);
        io.send_stark252(&sums);
    }

    /// The sender's side of the consistency check of one tree, for its correlation `y`: reads the
    /// receiver's `x*`, and sends `V = <chi, tree> - (y + x* * delta)`, the coefficients `chi` being those
    /// of the hash of the secret sum.
    pub fn consistency_check(&mut self, io: &mut CommunicationChannel, y: Fe) -> (r: Result<(), VoleError>)
        requires
            old(self).computed(),
            old(io).wf(),
            y.wf(),
        ensures
            *final(self) == *old(self),
            final(io).wf(),
            match parse_field(old(io).unread(), 1) {
                Err(e) => r == Err::<(), VoleError>(e),
                Ok(xs) => r == Ok::<(), VoleError>(()) && final(io).unread() == old(io).unread().skip(
                    frame_size(old(io).unread(), false) as int,
                ) && final(io).written() == old(io).written() + field_frame(
                    seq![
                        fsub(
                            dot(
                                uni_hash_coeffs(hash_seed(old(self).secret_sum.value()), old(self).leave_n as nat),
                                values(old(self).ggm_tree@),
                                old(self).leave_n as nat,
                            ),
                            fadd(y.value(), fmul(xs[0], old(self).delta.value())),
                        ),
                    ],
                ),
            },
    {
        let chi = self.check_coeffs(&self.secret_sum);
        let x_star = io.receive_stark252(1)?;
        assert(values(x_star@)[0] == x_star[0].value());
        let y_star = y.add(&x_star[0].mul(&self.delta));
        let v = vector_inner_product(&chi, &self.ggm_tree).sub(&y_star);
        let mut vs: Vec<Fe> = Vec::new();
        vs.push(v);
        assert(values(vs@) =~= seq![v.value()]);
        io.send_stark252(&vs);
        Ok(())
    }

    /// The sender's value for the batched consistency check: `<chi, tree>`, the coefficients `chi` being
    /// those of the hash of `seed`.
    pub fn consistency_check_msg_gen(&mut self, seed: Fe) -> (v: Fe)
        requires
            old(self).computed(),
            seed.wf(),
        ensures
            *final(self) == *old(self),
            v.wf(),
            v.value() == dot(
                uni_hash_coeffs(hash_seed(seed.value()), old(self).leave_n as nat),
                values(old(self).ggm_tree@),
                old(self).leave_n as nat,
            ),
    {
        let chi = self.check_coeffs(&seed);
        vector_inner_product(&chi, &self.ggm_tree)
    }

    /// The coefficients of the universal hash whose seed is the hash of `seed`, one for each leaf.
    pub fn check_coeffs(&self, seed: &Fe) -> (chi: Vec<Fe>)
        requires
            self.wf(),
        ensures
            chi.len() == self.leave_n,
            all_wf(chi@),
            values(chi@) == uni_hash_coeffs(hash_seed(seed.value()), self.leave_n as nat),
    {
        hash_coeffs_for(seed, self.leave_n)
    }
}

/// The coefficients of the universal hash whose seed is the hash of `seed`.
pub fn hash_coeffs_for(seed: &Fe, n: usize) -> (chi: Vec<Fe>)
    ensures
        chi.len() == n,
        all_wf(chi@),
        values(chi@) == uni_hash_coeffs(hash_seed(seed.value()), n as nat),
{
    proof {
        crate::block::lemma_fe_bytes(*seed);
    }
    let hash = crate::hash::Hash::new();
    let digest = hash.hash_32byte_block(&seed.to_bytes_le());
    let uni_hash_seed = Fe::from_bytes_reduced(&digest);
    uni_hash_coeff_gen(uni_hash_seed, n)
}

/// The canonical encodings of field elements, as blocks.
pub fn to_blocks(v: &Vec<Fe>) -> (r: Vec<[u8; 32]>)
    ensures
        r.len() == v.len(),
        views32(r@) == encodings(v@),
{
    let mut r: Vec<[u8; 32]> = Vec::new();
    let mut i: usize = 0;
    while i < v.len()
        invariant
            i <= v.len(),
            r.len() == i,
            forall|j: int| 0 <= j < i ==> (#[trigger] r[j])@ == v[j].bytes@,
        decreases v.len() - i,
    {
        r.push(v[i].to_bytes_le());
        i += 1;
    }
    assert(views32(r@) =~= encodings(v@));
    r
}

} // verus!
