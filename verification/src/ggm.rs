use vstd::prelude::*;
use crate::cope::pow2i;
use crate::field::{fadd, fsub, modulus};
use crate::field_laws::{
    cong, lemma_cong_add, lemma_cong_eq, lemma_cong_refl, lemma_cong_trans, lemma_fadd_cong, lemma_field_ops,
    lemma_fsub_cong,
};
use crate::two_key_prp::{ggm_left, ggm_right};

verus! {

/// Node `j` of level `h` of the tree that grows from `seed`: the root is level 0, and node `j` has the
/// children `2 * j` and `2 * j + 1`.
pub open spec fn ggm_node(seed: nat, h: nat, j: int) -> nat
    decreases h,
{
    if h == 0 {
        seed
    } else if j % 2 == 0 {
        ggm_left(ggm_node(seed, (h - 1) as nat, j / 2))
    } else {
        ggm_right(ggm_node(seed, (h - 1) as nat, j / 2))
    }
}

/// The level of a tree as a sequence.
pub open spec fn ggm_level(seed: nat, h: nat) -> Seq<nat> {
    Seq::new(pow2i(h), |j: int| ggm_node(seed, h, j))
}

/// The sum in the field of the entries of `v` below `n` whose index has the given parity.
pub open spec fn parity_sum(v: Seq<nat>, parity: int, n: nat) -> nat
    decreases n,
{
    if n == 0 {
        0
    } else if (n - 1) % 2 == parity {
        fadd(parity_sum(v, parity, (n - 1) as nat), v[n - 1])
    } else {
        parity_sum(v, parity, (n - 1) as nat)
    }
}

/// The children of a level: entry `j` is the left child of entry `j / 2` for even `j` and the right child
/// for odd `j`.
pub open spec fn expand_level(prev: Seq<nat>) -> Seq<nat> {
    Seq::new(2 * prev.len(), |j: int| if j % 2 == 0 {
        ggm_left(prev[j / 2])
    } else {
        ggm_right(prev[j / 2])
    })
}

/// The node of level `h` on the path to the receiver's leaf: the path turns right where the choice bit is
/// clear.
pub open spec fn path_index(b: Seq<bool>, h: nat) -> int
    decreases h,
{
    if h == 0 {
        0
    } else {
        2 * path_index(b, (h - 1) as nat) + if b[h - 1] {
            0int
        } else {
            1int
        }
    }
}

/// One level of the receiver's rebuilding, from the level before `prev`, on which the path is at `path`:
/// the children of `prev`, zero at the two children of the node on the path, and at the sibling of the
/// path, which is the left child where `bit` is clear, the sum `mval` of its parity less the other nodes
/// of that parity.
pub open spec fn recover_step(prev: Seq<nat>, path: int, bit: bool, mval: nat) -> Seq<nat> {
    let left = 2 * path;
    let cleared = expand_level(prev).update(left, 0).update(left + 1, 0);
    let sibling = left + if bit {
        1int
    } else {
        0int
    };
    cleared.update(sibling, fsub(mval, parity_sum(cleared, sibling % 2, cleared.len())))
}

/// Level `h` of the tree as the receiver rebuilds it from the sums `m` that it received: every node but the
/// one on the path, where it holds zero.
pub open spec fn recover_level(m: Seq<nat>, b: Seq<bool>, h: nat) -> Seq<nat>
    decreases h,
{
    if h == 0 {
        seq![0nat]
    } else {
        recover_step(recover_level(m, b, (h - 1) as nat), path_index(b, (h - 1) as nat), b[h - 1], m[h - 1])
    }
}

/// Powers of two are positive, and each is twice the one before.
pub proof fn lemma_pow2i_pos(h: nat)
    ensures
        pow2i(h) >= 1,
        pow2i(h + 1) == 2 * pow2i(h),
    decreases h,
{
    if h > 0 {
        lemma_pow2i_pos((h - 1) as nat);
    }
}

/// The node on the path lies inside its level.
pub proof fn lemma_path_bound(b: Seq<bool>, h: nat)
    ensures
        0 <= path_index(b, h) < pow2i(h),
    decreases h,
{
    if h > 0 {
        lemma_path_bound(b, (h - 1) as nat);
    }
}

/// A rebuilt level has as many entries as the level of the tree, each below the prime but for what was
/// expanded from entries that are not.
pub proof fn lemma_recover_len(m: Seq<nat>, b: Seq<bool>, h: nat)
    ensures
        recover_level(m, b, h).len() == pow2i(h),
    decreases h,
{
    if h > 0 {
        lemma_recover_len(m, b, (h - 1) as nat);
        lemma_path_bound(b, (h - 1) as nat);
    }
}

/// A sum over a parity changes by the difference when one entry of that parity changes, up to congruence.
pub proof fn lemma_parity_sum_update(v: Seq<nat>, parity: int, n: nat, s: int, x: nat)
    requires
        0 <= s < v.len(),
        n <= v.len(),
        s % 2 == parity,
        parity == 0 || parity == 1,
    ensures
        cong(
            parity_sum(v.update(s, x), parity, n) as int,
            parity_sum(v, parity, n) as int + (if s < n {
                x as int - v[s] as int
            } else {
                0int
            }),
        ),
        parity_sum(v, parity, n) < modulus(),
    decreases n,
{
    if n == 0 {
        lemma_cong_refl(0, 0);
    } else {
        let k = (n - 1) as nat;
        lemma_parity_sum_update(v, parity, k, s, x);
        let w = v.update(s, x);
        if (n - 1) % 2 == parity {
            lemma_cong_refl(w[n - 1] as int, 0);
            lemma_fadd_cong(
                parity_sum(w, parity, k),
                w[n - 1],
                parity_sum(v, parity, k) as int + (if s < k {
                    x as int - v[s] as int
                } else {
                    0int
                }),
                w[n - 1] as int,
            );
            lemma_cong_refl(parity_sum(v, parity, k) as int, 0);
            lemma_cong_refl(v[n - 1] as int, 0);
            lemma_fadd_cong(parity_sum(v, parity, k), v[n - 1], parity_sum(v, parity, k) as int, v[n - 1] as int);
            lemma_field_ops(parity_sum(v, parity, k), v[n - 1]);
            let target = parity_sum(v, parity, n) as int + (if s < n {
                x as int - v[s] as int
            } else {
                0int
            });
            let mid = parity_sum(v, parity, k) as int + (if s < k {
                x as int - v[s] as int
            } else {
                0int
            }) + w[n - 1] as int;
            let d: int = if s < n {
                x as int - v[s] as int
            } else {
                0int
            };
            lemma_cong_refl(d, 0);
            lemma_cong_refl(parity_sum(v, parity, n) as int, parity_sum(v, parity, k) as int + v[n - 1] as int);
            lemma_cong_add(
                parity_sum(v, parity, k) as int + v[n - 1] as int,
                parity_sum(v, parity, n) as int,
                d,
                d,
            );
            assert(mid == parity_sum(v, parity, k) as int + v[n - 1] as int + d);
            lemma_cong_trans(parity_sum(w, parity, n) as int, mid, target);
        }
    }
}

/// The entries of a sequence that an update does not touch, and the one it does.
pub proof fn lemma_parity_sum_other(v: Seq<nat>, parity: int, n: nat, s: int, x: nat)
    requires
        0 <= s < v.len(),
        n <= v.len(),
        s % 2 != parity,
    ensures
        parity_sum(v.update(s, x), parity, n) == parity_sum(v, parity, n),
    decreases n,
{
    if n > 0 {
        lemma_parity_sum_other(v, parity, (n - 1) as nat, s, x);
    }
}


/// The nodes of the tree are numbers below the prime, from the first level on.
pub proof fn lemma_node_bound(seed: nat, h: nat, j: int)
    requires
        h >= 1,
    ensures
        ggm_node(seed, h, j) < modulus(),
{
    let p = ggm_node(seed, (h - 1) as nat, j / 2);
    vstd::arithmetic::div_mod::lemma_mod_bound(
        crate::field::le_nat(
            crate::crypto::aes256(crate::block::le_bytes(p, 32), crate::block::const_block(0)) + crate::crypto::aes256(
                crate::block::le_bytes(p, 32),
                crate::block::const_block(1),
            ),
        ) as int,
        modulus() as int,
    );
    vstd::arithmetic::div_mod::lemma_mod_bound(
        crate::field::le_nat(
            crate::crypto::aes256(crate::block::le_bytes(p, 32), crate::block::const_block(2)) + crate::crypto::aes256(
                crate::block::le_bytes(p, 32),
                crate::block::const_block(3),
            ),
        ) as int,
        modulus() as int,
    );
}

/// What the receiver rebuilds is the sender's tree. Let each sum that the receiver got for a level be the
/// sender's sum of that level over the parity of the receiver's choice bit. Then on every level the
/// receiver holds the sender's node everywhere but on its path, where it holds zero.
pub proof fn lemma_recover_correct(seed: nat, m: Seq<nat>, b: Seq<bool>, h: nat)
    requires
        forall|i: int|
            0 <= i < h ==> #[trigger] m[i] == parity_sum(
                ggm_level(seed, (i + 1) as nat),
                if b[i] {
                    1int
                } else {
                    0int
                },
                pow2i((i + 1) as nat),
            ),
    ensures
        recover_level(m, b, h).len() == pow2i(h),
        recover_level(m, b, h)[path_index(b, h)] == 0,
        forall|j: int|
            0 <= j < pow2i(h) && j != path_index(b, h) ==> #[trigger] recover_level(m, b, h)[j] == ggm_node(seed, h, j),
    decreases h,
{
    lemma_recover_len(m, b, h);
    lemma_path_bound(b, h);
    if h > 0 {
        let k = (h - 1) as nat;
        lemma_recover_correct(seed, m, b, k);
        lemma_path_bound(b, k);
        lemma_pow2i_pos(k);
        let p = path_index(b, k);
        let prev = recover_level(m, b, k);
        let left = 2 * p;
        let expanded = expand_level(prev);
        let cleared = expanded.update(left, 0).update(left + 1, 0);
        let s = left + if b[h - 1] {
            1int
        } else {
            0int
        };
        let path = path_index(b, h);
        let lr = s % 2;
        let level = ggm_level(seed, h);
        let n = pow2i(h);
        assert(path != s && (path == left || path == left + 1) && (s == left || s == left + 1));
        assert(path % 2 != lr);
        // away from the pair on the path, the expansion is the sender's level
        assert forall|j: int| 0 <= j < n && j != left && j != left + 1 implies cleared[j] == level[j] by {
            assert(j / 2 != p);
            assert(prev[j / 2] == ggm_node(seed, k, j / 2));
        }
        let a = level.update(path, 0);
        assert(cleared =~= a.update(s, 0));
        lemma_parity_sum_other(level, lr, n, path, 0);
        lemma_parity_sum_update(a, lr, n, s, 0);
        let total = parity_sum(level, lr, n);
        assert(m[h - 1] == total);
        let part = parity_sum(cleared, lr, n);
        // part is congruent to total - level[s]
        assert(a[s] == level[s]);
        lemma_cong_refl(total as int, 0);
        lemma_fsub_cong(total, part, total as int, total as int + (0 - level[s] as int));
        lemma_field_ops(total, part);
        lemma_node_bound(seed, h, s);
        assert(total as int - (total as int + (0 - level[s] as int)) == level[s] as int);
        lemma_cong_eq(fsub(total, part) as int, level[s] as int);
        let rec = recover_level(m, b, h);
        assert(rec == cleared.update(s, fsub(m[h - 1], part)));
        assert forall|j: int| 0 <= j < n && j != path implies #[trigger] rec[j] == ggm_node(seed, h, j) by {
            if j != s {
                assert(rec[j] == cleared[j]);
            }
        }
    }
}


/// The sum in the field of the entries of `v` below `n`, as `crate::field::sum` gives it, changes by the
/// difference when one entry changes, up to congruence.
pub proof fn lemma_sum_update(v: Seq<nat>, n: nat, s: int, x: nat)
    requires
        0 <= s < v.len(),
        n <= v.len(),
    ensures
        cong(
            crate::field::sum(v.update(s, x), n) as int,
            crate::field::sum(v, n) as int + (if s < n {
                x as int - v[s] as int
            } else {
                0int
            }),
        ),
    decreases n,
{
    if n == 0 {
        lemma_cong_refl(0, 0);
    } else {
        let k = (n - 1) as nat;
        lemma_sum_update(v, k, s, x);
        let w = v.update(s, x);
        lemma_cong_refl(w[n - 1] as int, 0);
        let dk: int = if s < k {
            x as int - v[s] as int
        } else {
            0int
        };
        lemma_fadd_cong(crate::field::sum(w, k), w[n - 1], crate::field::sum(v, k) as int + dk, w[n - 1] as int);
        lemma_cong_refl(crate::field::sum(v, k) as int, 0);
        lemma_cong_refl(v[n - 1] as int, 0);
        lemma_fadd_cong(crate::field::sum(v, k), v[n - 1], crate::field::sum(v, k) as int, v[n - 1] as int);
        let d: int = if s < n {
            x as int - v[s] as int
        } else {
            0int
        };
        lemma_cong_refl(d, 0);
        lemma_cong_refl(crate::field::sum(v, n) as int, crate::field::sum(v, k) as int + v[n - 1] as int);
        lemma_cong_add(crate::field::sum(v, k) as int + v[n - 1] as int, crate::field::sum(v, n) as int, d, d);
        let mid = crate::field::sum(v, k) as int + dk + w[n - 1] as int;
        assert(mid == crate::field::sum(v, k) as int + v[n - 1] as int + d);
        lemma_cong_trans(crate::field::sum(w, n) as int, mid, crate::field::sum(v, n) as int + d);
    }
}

/// The point sharing of one tree. Let each sum that the receiver got for a level be the sender's sum of
/// that level over the parity of the receiver's choice bit, and let `share` be the sender's secret sum,
/// the sum of its leaves plus `gamma`. Then the receiver's leaves are the sender's at every place but the
/// receiver's own, `alpha`; and there the receiver's leaf less the sender's is congruent to
/// `delta2 - gamma - 2 * (sum of the sender's leaves)`.
pub proof fn lemma_point_sharing(
    seed: nat,
    m: Seq<nat>,
    b: Seq<bool>,
    depth: nat,
    gamma: nat,
    delta2: nat,
    leaves_r: Seq<nat>,
)
    requires
        depth >= 2,
        forall|i: int|
            0 <= i < depth - 1 ==> #[trigger] m[i] == parity_sum(
                ggm_level(seed, (i + 1) as nat),
                if b[i] {
                    1int
                } else {
                    0int
                },
                pow2i((i + 1) as nat),
            ),
        leaves_r == ({
            let rebuilt = recover_level(m, b, (depth - 1) as nat);
            rebuilt.update(
                path_index(b, (depth - 1) as nat),
                fsub(
                    delta2,
                    fadd(
                        crate::field::sum(rebuilt, rebuilt.len()),
                        fadd(crate::field::sum(ggm_level(seed, (depth - 1) as nat), pow2i((depth - 1) as nat)), gamma),
                    ),
                ),
            )
        }),
    ensures
        leaves_r.len() == pow2i((depth - 1) as nat),
        forall|j: int|
            0 <= j < pow2i((depth - 1) as nat) && j != path_index(b, (depth - 1) as nat) ==> #[trigger] leaves_r[j]
                == ggm_node(seed, (depth - 1) as nat, j),
        cong(
            leaves_r[path_index(b, (depth - 1) as nat)] as int - ggm_node(
                seed,
                (depth - 1) as nat,
                path_index(b, (depth - 1) as nat),
            ) as int,
            delta2 as int - gamma as int - 2 * crate::field::sum(
                ggm_level(seed, (depth - 1) as nat),
                pow2i((depth - 1) as nat),
            ) as int,
        ),
{
    let h = (depth - 1) as nat;
    let n = pow2i(h);
    let alpha = path_index(b, h);
    lemma_recover_correct(seed, m, b, h);
    lemma_path_bound(b, h);
    let rebuilt = recover_level(m, b, h);
    let level = ggm_level(seed, h);
    assert(rebuilt =~= level.update(alpha, 0));
    lemma_sum_update(level, n, alpha, 0);
    let total = crate::field::sum(level, n);
    let known = crate::field::sum(rebuilt, n);
    let share = fadd(total, gamma);
    let v = leaves_r[alpha];
    // known is congruent to total - level[alpha]
    lemma_cong_refl(total as int, 0);
    lemma_cong_refl(gamma as int, 0);
    lemma_cong_refl(delta2 as int, 0);
    lemma_fadd_cong(total, gamma, total as int, gamma as int);
    lemma_fadd_cong(known, share, total as int + (0 - level[alpha] as int), total as int + gamma as int);
    lemma_fsub_cong(
        delta2,
        fadd(known, share),
        delta2 as int,
        total as int + (0 - level[alpha] as int) + (total as int + gamma as int),
    );
    lemma_cong_refl(level[alpha] as int, 0);
    lemma_cong_add(
        v as int,
        delta2 as int - (total as int + (0 - level[alpha] as int) + (total as int + gamma as int)),
        level[alpha] as int,
        level[alpha] as int,
    );
    assert(delta2 as int - (total as int + (0 - level[alpha] as int) + (total as int + gamma as int))
        - level[alpha] as int == delta2 as int - gamma as int - 2 * total as int);
}


/// The point sharing of one tree with a given difference. Under the conditions of `lemma_point_sharing`,
/// the receiver's leaf at its own place less the sender's is `beta` exactly where `beta`, a number below the
/// prime, is congruent to `delta2 - gamma - 2 * (sum of the sender's leaves)`.
pub proof fn lemma_point_sharing_beta(
    seed: nat,
    m: Seq<nat>,
    b: Seq<bool>,
    depth: nat,
    gamma: nat,
    delta2: nat,
    leaves_r: Seq<nat>,
    beta: nat,
)
    requires
        depth >= 2,
        beta < modulus(),
        forall|i: int|
            0 <= i < depth - 1 ==> #[trigger] m[i] == parity_sum(
                ggm_level(seed, (i + 1) as nat),
                if b[i] {
                    1int
                } else {
                    0int
                },
                pow2i((i + 1) as nat),
            ),
        leaves_r == ({
            let rebuilt = recover_level(m, b, (depth - 1) as nat);
            rebuilt.update(
                path_index(b, (depth - 1) as nat),
                fsub(
                    delta2,
                    fadd(
                        crate::field::sum(rebuilt, rebuilt.len()),
                        fadd(crate::field::sum(ggm_level(seed, (depth - 1) as nat), pow2i((depth - 1) as nat)), gamma),
                    ),
                ),
            )
        }),
        cong(
            delta2 as int - gamma as int - 2 * crate::field::sum(
                ggm_level(seed, (depth - 1) as nat),
                pow2i((depth - 1) as nat),
            ) as int,
            beta as int,
        ),
    ensures
        fsub(
            leaves_r[path_index(b, (depth - 1) as nat)],
            ggm_node(seed, (depth - 1) as nat, path_index(b, (depth - 1) as nat)),
        ) == beta,
{
    lemma_point_sharing(seed, m, b, depth, gamma, delta2, leaves_r);
    let alpha = path_index(b, (depth - 1) as nat);
    let v = leaves_r[alpha];
    let s = ggm_node(seed, (depth - 1) as nat, alpha);
    lemma_field_ops(v, s);
    let target = delta2 as int - gamma as int - 2 * crate::field::sum(
        ggm_level(seed, (depth - 1) as nat),
        pow2i((depth - 1) as nat),
    ) as int;
    lemma_cong_trans(fsub(v, s) as int, v as int - s as int, target);
    lemma_cong_trans(fsub(v, s) as int, target, beta as int);
    lemma_cong_eq(fsub(v, s) as int, beta as int);
}

} // verus!
