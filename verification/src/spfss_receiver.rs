use vstd::prelude::*;
use crate::collect::{collect, lemma_collect_err, lemma_collect_ok};
use crate::comm_channel::{field_frame, frame_size, parse_blocks32, parse_field, views32, CommunicationChannel};
use crate::cope::pow2i;
use crate::error::VoleError;
use crate::field::{all_wf, dot, fadd, fmul, fsub, le_nat, modulus, sum, values, vector_inner_product, vector_sum, Fe};
use crate::ggm::{
    expand_level, ggm_level, ggm_node, lemma_path_bound, lemma_point_sharing, lemma_pow2i_pos, parity_sum,
    path_index, recover_level, recover_step,
};
use crate::preot::{recv_outputs, OTPre};
use crate::spfss_sender::{hash_coeffs_for, hash_seed, lemma_pow2i_le, pow2_usize, uni_hash_coeffs};
use crate::two_key_prp::TwoKeyPRP;

verus! {

/// The field element that a transferred block stands for, or `InvalidField` where the block is no canonical
/// encoding.
pub open spec fn decode_block(block: Seq<u8>) -> Result<nat, VoleError> {
    if le_nat(block) < modulus() {
        Ok(le_nat(block))
    } else {
        Err(VoleError::InvalidField)
    }
}

/// The field elements that transferred blocks stand for, or the first error.
pub open spec fn decode_blocks(blocks: Seq<Seq<u8>>) -> Result<Seq<nat>, VoleError> {
    collect(|i: int| decode_block(blocks[i]), blocks.len())
}

/// What the receiver of one tree reads from the unread bytes `s`: the sums of the levels that its choice
/// bits select, the sender's secret sum, and the bytes left over; or the first error.
pub open spec fn recv_spec(pre_data: Seq<[u8; 32]>, b: Seq<bool>, depth: nat, slot: int, s: Seq<u8>) -> Result<
    (Seq<nat>, nat, Seq<u8>),
    VoleError,
> {
    match parse_blocks32(s) {
        Err(e) => Err(e),
        Ok(pads) => if pads.len() != 2 * (depth - 1) {
            Err(VoleError::WireFormat)
        } else {
            match decode_blocks(recv_outputs(pre_data, pads, b, depth - 1, slot * (depth - 1))) {
                Err(e) => Err(e),
                Ok(sums) => {
                    let rest = s.skip(frame_size(s, false) as int);
                    match parse_field(rest, 1) {
                        Err(e) => Err(e),
                        Ok(sh) => Ok((sums, sh[0], rest.skip(frame_size(rest, false) as int))),
                    }
                },
            }
        },
    }
}

/// The leaves that the receiver ends with: the leaves that it rebuilt, and at its own place `delta2` less
/// the sum of the rebuilt leaves and the sender's secret sum.
pub open spec fn receiver_leaves(m: Seq<nat>, b: Seq<bool>, depth: nat, share: nat, delta2: nat) -> Seq<nat> {
    let rebuilt = recover_level(m, b, (depth - 1) as nat);
    rebuilt.update(
        path_index(b, (depth - 1) as nat),
        fsub(delta2, fadd(sum(rebuilt, rebuilt.len()), share)),
    )
}

/// Puts an element at a place of a vector.
pub fn put(v: &mut Vec<Fe>, i: usize, x: Fe)
    requires
        i < old(v).len(),
        all_wf(old(v)@),
        x.wf(),
    ensures
        final(v).len() == old(v).len(),
        all_wf(final(v)@),
        values(final(v)@) == values(old(v)@).update(i as int, x.value()),
        forall|j: int| 0 <= j < old(v).len() && j != i ==> final(v)[j] == old(v)[j],
        final(v)[i as int] == x,
{
    v[i] = x;
    assert(values(v@) =~= values(old(v)@).update(i as int, x.value()));
}

/// Two to the power 30.
pub proof fn lemma_pow2_30()
    ensures
        pow2i(30) == 0x4000_0000,
{
    reveal_with_fuel(pow2i, 31);
}

/// The coefficients of the universal hash, as in the sender's module.
pub fn uni_hash_coeff_gen(seed: Fe, sz: usize) -> (coeff: Vec<Fe>)
    requires
        seed.wf(),
    ensures
        coeff.len() == sz,
        all_wf(coeff@),
        values(coeff@) == uni_hash_coeffs(seed.value(), sz as nat),
{
    crate::spfss_sender::uni_hash_coeff_gen(seed, sz)
}

/// The receiver of a single-point function sharing over a tree of depth `depth`: from the sums that its
/// choice bits select it rebuilds every leaf of the sender's tree but the one on its path.
pub struct SpfssRecverFp {
    /// The rebuilt leaves, with zero at the receiver's own place.
    pub ggm_tree: Vec<Fe>,
    /// The sums received, one for each level below the root.
    pub m: Vec<Fe>,
    /// The choice bits: the path to the receiver's place turns right where a bit is clear.
    pub b: Vec<bool>,
    pub choice_pos: usize,
    pub depth: usize,
    pub leave_n: usize,
    /// The sender's secret sum.
    pub share: Fe,
}

impl SpfssRecverFp {
    /// The sizes fit the depth, and every element is canonical.
    pub open spec fn wf(&self) -> bool {
        &&& 2 <= self.depth <= 31
        &&& self.leave_n == pow2i((self.depth - 1) as nat)
        &&& self.b.len() == self.depth - 1
        &&& self.share.wf()
        &&& all_wf(self.m@)
        &&& all_wf(self.ggm_tree@)
    }

    /// The sums have been received.
    pub open spec fn received(&self) -> bool {
        &&& self.wf()
        &&& self.m.len() == self.depth - 1
    }

    /// The leaves have been rebuilt.
    pub open spec fn computed(&self) -> bool {
        &&& self.received()
        &&& self.ggm_tree.len() == self.leave_n
        &&& self.choice_pos == path_index(self.b@, (self.depth - 1) as nat)
        &&& values(self.ggm_tree@) == recover_level(values(self.m@), self.b@, (self.depth - 1) as nat)
    }

    /// A receiver whose choice bits are all clear; `set_choices` gives it others.
    pub fn new(depth: usize) -> (r: Self)
        requires
            2 <= depth <= 31,
        ensures
            r.wf(),
            r.depth == depth,
            r.m.len() == 0,
            forall|i: int| 0 <= i < depth - 1 ==> !r.b[i],
    {
        let leave_n = pow2_usize(depth - 1);
        let mut b: Vec<bool> = Vec::new();
        let mut i: usize = 0;
        while i < depth - 1
            invariant
                i <= depth - 1,
                b.len() == i,
                forall|j: int| 0 <= j < i ==> !b[j],
            decreases depth - 1 - i,
        {
            b.push(false);
            i += 1;
        }
        SpfssRecverFp {
            ggm_tree: Vec::new(),
            m: Vec::new(),
            b,
            choice_pos: leave_n - 1,
            depth,
            leave_n,
            share: Fe::zero(),
        }
    }

    /// Fixes the choice bits, and with them the receiver's place.
    pub fn set_choices(&mut self, b: Vec<bool>)
        requires
            old(self).wf(),
            b.len() == old(self).depth - 1,
        ensures
            final(self).wf(),
            final(self).b == b,
            *final(self) == (SpfssRecverFp { b: b, ..*old(self) }),
    {
        self.b = b;
    }

    /// The receiver's place among the leaves: the number whose bits, from the highest, are the choice bits
    /// turned over.
    pub fn get_index(&self) -> (r: usize)
        requires
            self.wf(),
        ensures
            r == path_index(self.b@, (self.depth - 1) as nat),
            r < self.leave_n,
    {
        let mut choice_pos: usize = 0;
        let mut i: usize = 0;
        while i < self.depth - 1
            invariant
                i <= self.depth - 1,
                self.wf(),
                choice_pos == path_index(self.b@, i as nat),
                choice_pos < pow2i(i as nat),
            decreases self.depth - 1 - i,
        {
            proof {
                lemma_pow2i_pos(i as nat);
                lemma_pow2i_le((i + 1) as nat, 30);
                assert(pow2i(30) == 0x4000_0000) by {
                    reveal_with_fuel(pow2i, 31);
                }
            }
            choice_pos = choice_pos * 2;
            if !self.b[i] {
                choice_pos += 1;
            }
            i += 1;
        }
        choice_pos
    }

    /// Reads the pads of slot `s` of the precomputed transfers and opens the sum of every level that the
    /// choice bit selects, then reads the sender's secret sum.
    #[verifier::loop_isolation(false)]
    pub fn recv(&mut self, io: &mut CommunicationChannel, ot: &mut OTPre, s: usize) -> (r: Result<(), VoleError>)
        requires
            old(self).wf(),
            old(io).wf(),
            old(ot).wf(),
            s * (old(self).depth - 1) + (old(self).depth - 1) <= old(ot).n,
        ensures
            final(self).wf(),
            *final(ot) == *old(ot),
            final(io).wf(),
            final(io).outgoing == old(io).outgoing,
            final(self).depth == old(self).depth,
            final(self).b == old(self).b,
            final(self).leave_n == old(self).leave_n,
            final(self).ggm_tree == old(self).ggm_tree,
            final(self).choice_pos == old(self).choice_pos,
            match recv_spec(old(ot).pre_data@, old(self).b@, old(self).depth as nat, s as int, old(io).unread()) {
                Err(e) => r == Err::<(), VoleError>(e),
                Ok((sums, sh, rest)) => {
                    &&& r == Ok::<(), VoleError>(())
                    &&& final(self).received()
                    &&& values(final(self).m@) == sums
                    &&& final(self).share.value() == sh
                    &&& final(io).unread() == rest
                },
            },
    {
        let data = ot.recv(io, &self.b, self.depth - 1, s)?;
        let ghost blocks = views32(data@);
        let ghost f = |i: int| decode_block(blocks[i]);
        let mut m: Vec<Fe> = Vec::new();
        let mut i: usize = 0;
        assert(values(m@) =~= Seq::<nat>::empty());
        while i < data.len()
            invariant
                i <= data.len(),
                blocks == views32(data@),
                f == |i: int| decode_block(blocks[i]),
                m.len() == i,
                all_wf(m@),
                collect(f, i as nat) == Ok::<Seq<nat>, VoleError>(values(m@)),
            decreases data.len() - i,
        {
            let ghost before = values(m@);
            assert(blocks[i as int] == data[i as int]@);
            match Fe::from_bytes_le(&data[i]) {
                Err(e) => {
                    proof {
                        assert(f(i as int) == Err::<nat, VoleError>(VoleError::InvalidField));
                        assert(collect(f, (i + 1) as nat).is_err());
                        lemma_collect_err(f, (i + 1) as nat, data.len() as nat);
                    }
                    return Err(VoleError::InvalidField);
                },
                Ok(e) => {
                    m.push(e);
                    proof {
                        assert(f(i as int) == Ok::<nat, VoleError>(e.value()));
                        assert(values(m@) =~= before.push(e.value()));
                    }
                },
            }
            i += 1;
        }
        let sh = io.receive_stark252(1)?;
        assert(values(sh@)[0] == sh[0].value());
        self.m = m;
        self.share = sh[0];
        Ok(())
    }

    /// Rebuilds the leaves and gives the receiver's leaves for its share `delta2` of the correlation: the
    /// rebuilt ones, and at the receiver's own place `delta2` less the sum of the rebuilt leaves and the
    /// sender's secret sum.
    pub fn compute(&mut self, delta2: Fe) -> (leaves: Vec<Fe>)
        requires
            old(self).received(),
            delta2.wf(),
        ensures
            final(self).computed(),
            final(self).m == old(self).m,
            final(self).b == old(self).b,
            final(self).depth == old(self).depth,
            final(self).share == old(self).share,
            leaves.len() == old(self).leave_n,
            all_wf(leaves@),
            values(leaves@) == receiver_leaves(
                values(old(self).m@),
                old(self).b@,
                old(self).depth as nat,
                old(self).share.value(),
                delta2.value(),
            ),
    {
        self.reconstruct_tree();
        let mut leaves = crate::base_svole::copy_elements(&self.ggm_tree);
        let pos = self.get_index();
        self.choice_pos = pos;
        let nodes_sum = vector_sum(&leaves).add(&self.share);
        let ghost rebuilt = values(leaves@);
        leaves[pos] = delta2.sub(&nodes_sum);
        proof {
            assert(values(leaves@) =~= rebuilt.update(pos as int, fsub(delta2.value(), nodes_sum.value())));
            assert forall|j: int| 0 <= j < leaves.len() implies (#[trigger] leaves[j]).wf() by {
                if j != pos {
                    assert(leaves[j] == self.ggm_tree[j]);
                }
            }
        }
        leaves
    }

    /// Rebuilds the tree level by level: the children of the level before, zero at the two children of the
    /// node on the path, and the sibling of the path recovered from the sum of its parity.
    fn reconstruct_tree(&mut self)
        requires
            old(self).received(),
        ensures
            final(self).received(),
            final(self).ggm_tree.len() == old(self).leave_n,
            values(final(self).ggm_tree@) == recover_level(
                values(old(self).m@),
                old(self).b@,
                (old(self).depth - 1) as nat,
            ),
            *final(self) == (SpfssRecverFp { ggm_tree: final(self).ggm_tree, ..*old(self) }),
    {
        let prp = TwoKeyPRP::new();
        let ghost m = values(self.m@);
        let ghost b = self.b@;
        let mut level: Vec<Fe> = Vec::new();
        level.push(Fe::zero());
        let mut path: usize = 0;
        let mut h: usize = 1;
        assert(values(level@) =~= recover_level(m, b, 0));
        while h < self.depth
            invariant
                1 <= h <= self.depth,
                self.received(),
                *self == *old(self),
                m == values(self.m@),
                b == self.b@,
                level.len() == pow2i((h - 1) as nat),
                all_wf(level@),
                values(level@) == recover_level(m, b, (h - 1) as nat),
                path == path_index(b, (h - 1) as nat),
                path < pow2i((h - 1) as nat),
            decreases self.depth - h,
        {
            proof {
                lemma_pow2i_pos((h - 1) as nat);
                lemma_pow2i_le(h as nat, 30);
                lemma_pow2_30();
                assert(m[h - 1] == self.m[h - 1].value());
            }
            let bit = self.b[h - 1];
            let next = self.recover_one(&prp, &level, path, bit, &self.m[h - 1]);
            path = if bit {
                2 * path
            } else {
                2 * path + 1
            };
            level = next;
            h += 1;
        }
        self.ggm_tree = level;
    }

    /// One level of the rebuilding.
    fn recover_one(&self, prp: &TwoKeyPRP, level: &Vec<Fe>, path: usize, bit: bool, mval: &Fe) -> (next: Vec<Fe>)
        requires
            level.len() <= 0x2000_0000,
            path < level.len(),
            all_wf(level@),
            mval.wf(),
        ensures
            next.len() == 2 * level.len(),
            all_wf(next@),
            values(next@) == recover_step(values(level@), path as int, bit, mval.value()),
    {
        let mut next = self.expand(prp, level);
        let left = 2 * path;
        put(&mut next, left, Fe::zero());
        put(&mut next, left + 1, Fe::zero());
        let sibling = if bit {
            left + 1
        } else {
            left
        };
        let part = self.layer_recover(&next, sibling % 2);
        let value = mval.sub(&part);
        put(&mut next, sibling, value);
        next
    }

    /// The children of a level.
    fn expand(&self, prp: &TwoKeyPRP, level: &Vec<Fe>) -> (next: Vec<Fe>)
        requires
            level.len() <= 0x2000_0000,
        ensures
            next.len() == 2 * level.len(),
            all_wf(next@),
            values(next@) == expand_level(values(level@)),
    {
        let mut next: Vec<Fe> = Vec::new();
        let mut i: usize = 0;
        while i < level.len()
            invariant
                i <= level.len(),
                level.len() <= 0x2000_0000,
                next.len() == 2 * i,
                all_wf(next@),
                forall|j: int| 0 <= j < 2 * i ==> (#[trigger] next[j]).value() == expand_level(values(level@))[j],
            decreases level.len() - i,
        {
            let children = prp.node_expand_1to2(&level[i]);
            proof {
                assert(values(level@)[i as int] == level[i as int].value());
                assert((2 * i) / 2 == i as int && (2 * i) % 2 == 0);
                assert((2 * i + 1) / 2 == i as int && (2 * i + 1) % 2 == 1);
            }
            next.push(children[0]);
            next.push(children[1]);
            i += 1;
        }
        assert(values(next@) =~= expand_level(values(level@)));
        next
    }

    /// The sum of the nodes of a level at the places of one parity.
    fn layer_recover(&self, level: &Vec<Fe>, lr: usize) -> (r: Fe)
        requires
            lr == 0 || lr == 1,
        ensures
            r.wf(),
            r.value() == parity_sum(values(level@), lr as int, level.len() as nat),
    {
        let mut nodes_sum = Fe::zero();
        let mut i: usize = 0;
        while i < level.len()
            invariant
                i <= level.len(),
                lr == 0 || lr == 1,
                nodes_sum.wf(),
                nodes_sum.value() == parity_sum(values(level@), lr as int, i as nat),
            decreases level.len() - i,
        {
            assert(values(level@)[i as int] == level[i as int].value());
            if i % 2 == lr {
                nodes_sum = nodes_sum.add(&level[i]);
            }
            i += 1;
        }
        nodes_sum
    }

    /// The receiver's side of the consistency check of one tree, first step: sends
    /// `x* = chi[alpha] * beta - z`, the coefficients `chi` being those of the hash of the sender's secret
    /// sum, and gives `W = <chi, tree> - z`, which the sender's `V` must equal.
    pub fn consistency_check(&mut self, io: &mut CommunicationChannel, z: Fe, beta: Fe) -> (w: Fe)
        requires
            old(self).computed(),
            old(io).wf(),
            z.wf(),
            beta.wf(),
        ensures
            *final(self) == *old(self),
            final(io).wf(),
            final(io).incoming == old(io).incoming,
            final(io).read_pos == old(io).read_pos,
            w.wf(),
            w.value() == fsub(
                dot(
                    uni_hash_coeffs(hash_seed(old(self).share.value()), old(self).leave_n as nat),
                    values(old(self).ggm_tree@),
                    old(self).leave_n as nat,
                ),
                z.value(),
            ),
            final(io).written() == old(io).written() + field_frame(
                seq![
                    fsub(
                        fmul(
                            uni_hash_coeffs(hash_seed(old(self).share.value()), old(self).leave_n as nat)[old(self).choice_pos as int],
                            beta.value(),
                        ),
                        z.value(),
                    ),
                ],
            ),
    {
        proof {
            lemma_path_bound(self.b@, (self.depth - 1) as nat);
        }
        let chi = hash_coeffs_for(&self.share, self.leave_n);
        assert(values(chi@)[self.choice_pos as int] == chi[self.choice_pos as int].value());
        let x_star = chi[self.choice_pos].mul(&beta).sub(&z);
        let mut xs: Vec<Fe> = Vec::new();
        xs.push(x_star);
        assert(values(xs@) =~= seq![x_star.value()]);
        io.send_stark252(&xs);
        vector_inner_product(&chi, &self.ggm_tree).sub(&z)
    }

    /// The receiver's side of the consistency check of one tree, second step: reads the sender's `V` and
    /// accepts if it is `w`; if not, the check is a `MaliciousAbort`.
    pub fn consistency_check_verify(&self, io: &mut CommunicationChannel, w: &Fe) -> (r: Result<(), VoleError>)
        requires
            old(io).wf(),
            w.wf(),
        ensures
            final(io).wf(),
            final(io).outgoing == old(io).outgoing,
            match parse_field(old(io).unread(), 1) {
                Err(e) => r == Err::<(), VoleError>(e),
                Ok(v) => if v[0] == w.value() {
                    r == Ok::<(), VoleError>(()) && final(io).unread() == old(io).unread().skip(
                        frame_size(old(io).unread(), false) as int,
                    )
                } else {
                    r == Err::<(), VoleError>(VoleError::MaliciousAbort)
                },
            },
    {
        let v = io.receive_stark252(1)?;
        assert(values(v@)[0] == v[0].value());
        if v[0].equals(w) {
            Ok(())
        } else {
            Err(VoleError::MaliciousAbort)
        }
    }

    /// The receiver's values for the batched consistency check: the coefficient at its own place and
    /// `W = <chi, tree>`, the coefficients `chi` being those of the hash of `seed`; `beta` is then added to
    /// the kept tree at the receiver's place.
    pub fn consistency_check_msg_gen(&mut self, beta: Fe, seed: Fe) -> (r: (Fe, Fe))
        requires
            old(self).computed(),
            beta.wf(),
            seed.wf(),
        ensures
            final(self).wf(),
            r.0.wf(),
            r.1.wf(),
            r.0.value() == uni_hash_coeffs(hash_seed(seed.value()), old(self).leave_n as nat)[old(self).choice_pos as int],
            r.1.value() == dot(
                uni_hash_coeffs(hash_seed(seed.value()), old(self).leave_n as nat),
                values(old(self).ggm_tree@),
                old(self).leave_n as nat,
            ),
            values(final(self).ggm_tree@) == values(old(self).ggm_tree@).update(
                old(self).choice_pos as int,
                fadd(old(self).ggm_tree[old(self).choice_pos as int].value(), beta.value()),
            ),
            *final(self) == (SpfssRecverFp { ggm_tree: final(self).ggm_tree, ..*old(self) }),
    {
        proof {
            lemma_path_bound(self.b@, (self.depth - 1) as nat);
        }
        let chi = hash_coeffs_for(&seed, self.leave_n);
        assert(values(chi@)[self.choice_pos as int] == chi[self.choice_pos as int].value());
        let chi_alpha = chi[self.choice_pos];
        let w = vector_inner_product(&chi, &self.ggm_tree);
        let ghost before = values(self.ggm_tree@);
        let old_leaf = self.ggm_tree[self.choice_pos];
        let pos = self.choice_pos;
        self.ggm_tree[pos] = old_leaf.add(&beta);
        proof {
            assert(values(self.ggm_tree@) =~= before.update(pos as int, fadd(old_leaf.value(), beta.value())));
            assert forall|j: int| 0 <= j < self.ggm_tree.len() implies (#[trigger] self.ggm_tree[j]).wf() by {
                if j != pos {
                    assert(self.ggm_tree[j] == old(self).ggm_tree[j]);
                }
            }
        }
        (chi_alpha, w)
    }
}

/// A sum over a parity is a number below the prime.
pub proof fn lemma_parity_sum_bound(v: Seq<nat>, parity: int, n: nat)
    ensures
        parity_sum(v, parity, n) < modulus(),
    decreases n,
{
    if n > 0 {
        lemma_parity_sum_bound(v, parity, (n - 1) as nat);
        crate::field_laws::lemma_field_ops(parity_sum(v, parity, (n - 1) as nat), v[n - 1]);
    }
}

/// Whether the two parties' buffers of precomputed transfers hold, in the slot of a tree, the hashes of
/// correlated transfers: the sender's those of `q` and of `q ^ delta`, the receiver's that of
/// `t = q ^ r * delta`; and whether the sender's adjustment bits are the receiver's choice bits `b` for the
/// tree, exclusive-or its precomputed bits `r`.
pub open spec fn slot_correlated(
    s_pre: Seq<[u8; 32]>,
    s_bits: Seq<bool>,
    r_pre: Seq<[u8; 32]>,
    r_bits: Seq<bool>,
    n: int,
    q: Seq<Seq<u8>>,
    t: Seq<Seq<u8>>,
    delta: Seq<u8>,
    b: Seq<bool>,
    len: int,
    k: int,
) -> bool {
    forall|i: int|
        0 <= i < len ==> {
            &&& (#[trigger] q[i]).len() == 32
            &&& s_pre[k + i]@ == crate::hash::ccrh(q[i])
            &&& s_pre[n + k + i]@ == crate::hash::ccrh(crate::block::xor_seq(q[i], delta))
            &&& r_pre[k + i]@ == crate::hash::ccrh(t[i])
            &&& t[i] == crate::block::xor_seq(q[i], crate::block::select_seq(r_bits[k + i], delta))
            &&& s_bits[k + i] == (b[i] != r_bits[k + i])
        }
}

/// What the receiver opens in a slot of correlated transfers are the messages of its choice, and where
/// those are the canonical encodings of `v0` and `v1` it decodes the values of its choice.
pub proof fn lemma_slot_values(
    s_pre: Seq<[u8; 32]>,
    s_bits: Seq<bool>,
    r_pre: Seq<[u8; 32]>,
    r_bits: Seq<bool>,
    n: int,
    q: Seq<Seq<u8>>,
    t: Seq<Seq<u8>>,
    delta: Seq<u8>,
    b: Seq<bool>,
    v0: Seq<nat>,
    v1: Seq<nat>,
    len: int,
    k: int,
)
    requires
        0 <= k,
        0 <= len,
        k + len <= n,
        s_pre.len() == 2 * n,
        r_pre.len() >= n,
        delta.len() == 32,
        v0.len() == len,
        v1.len() == len,
        forall|i: int| 0 <= i < len ==> #[trigger] v0[i] < modulus(),
        forall|i: int| 0 <= i < len ==> #[trigger] v1[i] < modulus(),
        slot_correlated(s_pre, s_bits, r_pre, r_bits, n, q, t, delta, b, len, k),
    ensures
        decode_blocks(
            recv_outputs(
                r_pre,
                crate::preot::send_pads(
                    s_pre,
                    s_bits,
                    n,
                    crate::comm_channel::field_encodings(v0),
                    crate::comm_channel::field_encodings(v1),
                    len,
                    k,
                ),
                b,
                len,
                k,
            ),
        ) matches Ok(vals) && vals.len() == len && forall|i: int|
            0 <= i < len ==> #[trigger] vals[i] == (if b[i] {
                v1[i]
            } else {
                v0[i]
            }),
{
    let m0 = crate::comm_channel::field_encodings(v0);
    let m1 = crate::comm_channel::field_encodings(v1);
    let pads = crate::preot::send_pads(s_pre, s_bits, n, m0, m1, len, k);
    let outs = recv_outputs(r_pre, pads, b, len, k);
    let f = |i: int| decode_block(outs[i]);
    assert forall|i: int| 0 <= i < len implies (#[trigger] f(i)) == Ok::<nat, VoleError>(
        if b[i] {
            v1[i]
        } else {
            v0[i]
        },
    ) by {
        assert(q[i].len() == 32);
        crate::comm_channel::lemma_field_encoding(v0[i]);
        crate::comm_channel::lemma_field_encoding(v1[i]);
        crate::preot::lemma_preot_transfer(s_pre, s_bits, r_pre, r_bits, n, q[i], t[i], delta, m0, m1, b, len, k, i);
    }
    crate::collect::lemma_collect_all_ok(f, len as nat);
    lemma_collect_ok(f, len as nat);
    assert(outs.len() == len);
    assert(decode_blocks(outs) == collect(f, len as nat));
    let vals = decode_blocks(outs).unwrap();
    assert forall|i: int| 0 <= i < len implies #[trigger] vals[i] == (if b[i] {
        v1[i]
    } else {
        v0[i]
    }) by {
        assert(f(i).is_ok() && vals[i] == f(i).unwrap());
    }
}

/// What the receiver of one tree reads of what the sender of the tree wrote, over a slot of correlated
/// transfers: the sender's sums over the parities that its choice bits select, and the sender's secret
/// sum; and it reads all of it.
#[verifier::rlimit(40)]
pub proof fn lemma_tree_read(
    s_pre: Seq<[u8; 32]>,
    s_bits: Seq<bool>,
    r_pre: Seq<[u8; 32]>,
    r_bits: Seq<bool>,
    n: int,
    q: Seq<Seq<u8>>,
    t: Seq<Seq<u8>>,
    delta: Seq<u8>,
    b: Seq<bool>,
    seed: nat,
    gamma: nat,
    depth: nat,
    slot: int,
    rest: Seq<u8>,
)
    requires
        depth >= 2,
        0 <= slot,
        slot * (depth - 1) + (depth - 1) <= n,
        64 * (depth - 1) <= u64::MAX,
        s_pre.len() == 2 * n,
        r_pre.len() >= n,
        delta.len() == 32,
        slot_correlated(s_pre, s_bits, r_pre, r_bits, n, q, t, delta, b, depth - 1, slot * (depth - 1)),
    ensures
        recv_spec(
            r_pre,
            b,
            depth,
            slot,
            crate::spfss_sender::sender_frames(s_pre, s_bits, n, seed, gamma, depth, slot) + rest,
        ) matches Ok((sums, share, left)) && left == rest && share == crate::spfss_sender::secret_sum_of(
            seed,
            depth,
            gamma,
        ) && sums.len() == depth - 1 && (forall|h: int|
            0 <= h < depth - 1 ==> #[trigger] sums[h] == parity_sum(
                ggm_level(seed, (h + 1) as nat),
                if b[h] {
                    1int
                } else {
                    0int
                },
                pow2i((h + 1) as nat),
            )),
{
    let len = depth - 1;
    let k = slot * len;
    let s0 = crate::spfss_sender::level_sums(seed, depth, 0);
    let s1 = crate::spfss_sender::level_sums(seed, depth, 1);
    let m0 = crate::comm_channel::field_encodings(s0);
    let m1 = crate::comm_channel::field_encodings(s1);
    let pads = crate::preot::send_pads(s_pre, s_bits, n, m0, m1, len, k);
    let secret = crate::spfss_sender::secret_sum_of(seed, depth, gamma);
    let unread = crate::spfss_sender::sender_frames(s_pre, s_bits, n, seed, gamma, depth, slot) + rest;
    assert(0 <= k) by (nonlinear_arith)
        requires
            k == slot * len,
            0 <= slot,
            0 <= len,
    ;
    assert forall|h: int| 0 <= h < len implies #[trigger] s0[h] < modulus() by {
        lemma_parity_sum_bound(ggm_level(seed, (h + 1) as nat), 0, pow2i((h + 1) as nat));
    }
    assert forall|h: int| 0 <= h < len implies #[trigger] s1[h] < modulus() by {
        lemma_parity_sum_bound(ggm_level(seed, (h + 1) as nat), 1, pow2i((h + 1) as nat));
    }
    assert forall|j: int| 0 <= j < pads.len() implies (#[trigger] pads[j]).len() == 32 by {
        crate::comm_channel::lemma_field_encoding(s0[j / 2]);
        crate::comm_channel::lemma_field_encoding(s1[j / 2]);
    }
    assert(unread =~= crate::comm_channel::blocks32_frame(pads) + (field_frame(seq![secret]) + rest));
    crate::comm_channel::lemma_blocks32_round_trip(pads, field_frame(seq![secret]) + rest);
    crate::field_laws::lemma_field_ops(sum(ggm_level(seed, len as nat), pow2i(len as nat)), gamma);
    crate::comm_channel::lemma_field_round_trip(seq![secret], rest);
    lemma_slot_values(s_pre, s_bits, r_pre, r_bits, n, q, t, delta, b, s0, s1, len, k);
    let sums = decode_blocks(recv_outputs(r_pre, pads, b, len, k)).unwrap();
    assert forall|h: int| 0 <= h < len implies #[trigger] sums[h] == parity_sum(
        ggm_level(seed, (h + 1) as nat),
        if b[h] {
            1int
        } else {
            0int
        },
        pow2i((h + 1) as nat),
    ) by {
        assert(s0[h] == parity_sum(ggm_level(seed, (h + 1) as nat), 0, pow2i((h + 1) as nat)));
        assert(s1[h] == parity_sum(ggm_level(seed, (h + 1) as nat), 1, pow2i((h + 1) as nat)));
    }
    let after = unread.skip(frame_size(unread, false) as int);
    assert(parse_field(after, 1) == Ok::<Seq<nat>, VoleError>(seq![secret]));
}

/// The point sharing of one tree over a run of both parties. Let the two parties' buffers of precomputed
/// transfers hold correlated transfers in the slot of the tree, and let the receiver find in the channel
/// what the sender's `send` wrote for the tree that grows from `seed`, with the sender's correlation
/// `gamma`. Then the receiver's `recv` reads all of it, and the leaves that `compute` gives the receiver
/// from what `recv` read, with its own share `delta2`, are the sender's leaves at every place but the
/// receiver's own.
pub proof fn lemma_tree_over_the_wire(
    s_pre: Seq<[u8; 32]>,
    s_bits: Seq<bool>,
    r_pre: Seq<[u8; 32]>,
    r_bits: Seq<bool>,
    n: int,
    q: Seq<Seq<u8>>,
    t: Seq<Seq<u8>>,
    delta: Seq<u8>,
    b: Seq<bool>,
    seed: nat,
    gamma: nat,
    depth: nat,
    slot: int,
    delta2: nat,
    rest: Seq<u8>,
)
    requires
        depth >= 2,
        0 <= slot,
        slot * (depth - 1) + (depth - 1) <= n,
        64 * (depth - 1) <= u64::MAX,
        s_pre.len() == 2 * n,
        r_pre.len() >= n,
        delta.len() == 32,
        slot_correlated(s_pre, s_bits, r_pre, r_bits, n, q, t, delta, b, depth - 1, slot * (depth - 1)),
    ensures
        recv_spec(
            r_pre,
            b,
            depth,
            slot,
            crate::spfss_sender::sender_frames(s_pre, s_bits, n, seed, gamma, depth, slot) + rest,
        ) matches Ok((sums, share, left)) && left == rest && (forall|j: int|
            0 <= j < pow2i((depth - 1) as nat) && j != path_index(b, (depth - 1) as nat) ==> #[trigger] receiver_leaves(
                sums,
                b,
                depth,
                share,
                delta2,
            )[j] == ggm_node(seed, (depth - 1) as nat, j)),
{
    lemma_tree_read(s_pre, s_bits, r_pre, r_bits, n, q, t, delta, b, seed, gamma, depth, slot, rest);
    let read = recv_spec(
        r_pre,
        b,
        depth,
        slot,
        crate::spfss_sender::sender_frames(s_pre, s_bits, n, seed, gamma, depth, slot) + rest,
    ).unwrap();
    lemma_point_sharing(seed, read.0, b, depth, gamma, delta2, receiver_leaves(read.0, b, depth, read.1, delta2));
}

} // verus!
