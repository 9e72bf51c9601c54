use vstd::prelude::*;
use crate::block::{le_bytes, u64_from_le, u64_to_le};
use crate::crypto::aes128;
use crate::error::VoleError;
use crate::field::{all_wf, fadd, fmul, le_nat, values, Fe};
use crate::field_laws::{
    cong, lemma_cong_add, lemma_cong_eq, lemma_cong_mul, lemma_cong_refl, lemma_cong_trans, lemma_fadd_cong,
    lemma_field_ops, lemma_fmul_cong,
};
use crate::prp::{field_prp, FieldPRP, PRP};
use crate::role::Role;

verus! {

/// The number of non-zero entries in every row of the matrix.
pub const ROW_WEIGHT: usize = 10;

/// The block that is permuted for entry `m` of row `i`: the row, then the entry, each as eight
/// little-endian bytes.
pub open spec fn index_block(i: nat, m: nat) -> Seq<u8> {
    le_bytes(i, 8) + le_bytes(m, 8)
}

/// The column of entry `m` of row `i`: the upper eight bytes of the permuted block, as a little-endian
/// integer, modulo the number of columns `k`.
pub open spec fn lpn_index(seed: Seq<u8>, i: nat, m: nat, k: nat) -> int {
    (le_nat(aes128(seed, index_block(i, m)).skip(8)) % k) as int
}

/// The coefficient of entry `m` of row `i`: the image under the field permutation of the field element
/// whose encoding is the row, then the entry, each as eight little-endian bytes, then zeros.
pub open spec fn lpn_coeff(seed_field: Seq<u8>, i: nat, m: nat) -> nat {
    field_prp(seed_field, i + 0x1_0000_0000_0000_0000 * m)
}

/// Entry `i` of the product of the matrix with `pre`, taken over the first `m` non-zero entries of the row
/// and added to `start`.
pub open spec fn lpn_acc(seed: Seq<u8>, seed_field: Seq<u8>, pre: Seq<nat>, i: nat, start: nat, m: nat) -> nat
    decreases m,
{
    if m == 0 {
        start
    } else {
        fadd(
            lpn_acc(seed, seed_field, pre, i, start, (m - 1) as nat),
            fmul(
                lpn_coeff(seed_field, i, (m - 1) as nat),
                pre[lpn_index(seed, i, (m - 1) as nat, pre.len())],
            ),
        )
    }
}

/// What the expansion makes of a noise vector `noise` and a seed vector `pre`: entry `i` is `noise[i]` plus
/// entry `i` of the product of the matrix with `pre`.
pub open spec fn lpn_expand(seed: Seq<u8>, seed_field: Seq<u8>, noise: Seq<nat>, pre: Seq<nat>) -> Seq<nat> {
    Seq::new(noise.len(), |i: int| lpn_acc(seed, seed_field, pre, i as nat, noise[i], ROW_WEIGHT as nat))
}

/// The expansion of a short seed vector into a long pseudorandom vector by a sparse matrix that is never
/// stored: every row has ten non-zero entries, whose columns come from a permutation of blocks under a
/// public seed and whose coefficients come from a field permutation under another.
#[derive(Clone)]
pub struct Lpn {
    pub party: Role,
    /// The number of columns: the length of the seed vector.
    pub k: usize,
    /// The number of rows: the length of the expanded vector.
    pub n: usize,
    pub seed: [u8; 16],
    pub seed_field: [u8; 32],
    pub M: Vec<Fe>,
    pub preM: Vec<Fe>,
    pub K: Vec<Fe>,
    pub preK: Vec<Fe>,
}

impl Lpn {
    /// The buffers have the sizes of the matrix, and every element is canonical.
    pub open spec fn wf(&self) -> bool {
        &&& self.k > 0
        &&& self.M.len() == self.n
        &&& self.K.len() == self.n
        &&& self.preM.len() == self.k
        &&& self.preK.len() == self.k
        &&& all_wf(self.M@)
        &&& all_wf(self.K@)
        &&& all_wf(self.preM@)
        &&& all_wf(self.preK@)
    }

    /// An expander with `n` rows and `k` columns; without columns the parameters are mismatched.
    pub fn new(k: usize, n: usize, seed: &[u8; 16], seed_field: &[u8; 32]) -> (r: Result<Self, VoleError>)
        ensures
            k == 0 ==> (r matches Err(e) && e == VoleError::ParameterMismatch),
            k > 0 ==> (r matches Ok(l) && l.wf() && l.k == k && l.n == n && l.seed == *seed && l.seed_field
                == *seed_field),
    {
        if k == 0 {
            return Err(VoleError::ParameterMismatch);
        }
        Ok(
            Lpn {
                party: Role::Sender,
                k,
                n,
                seed: *seed,
                seed_field: *seed_field,
                M: crate::cope::zero_vector(n),
                preM: crate::cope::zero_vector(k),
                K: crate::cope::zero_vector(n),
                preK: crate::cope::zero_vector(k),
            },
        )
    }

    /// The columns and the coefficients of the ten non-zero entries of row `i`.
    pub fn row(&self, i: usize) -> (r: (Vec<usize>, Vec<Fe>))
        requires
            self.k > 0,
        ensures
            r.0.len() == ROW_WEIGHT,
            r.1.len() == ROW_WEIGHT,
            all_wf(r.1@),
            forall|m: int|
                0 <= m < ROW_WEIGHT ==> #[trigger] r.0[m] == lpn_index(self.seed@, i as nat, m as nat, self.k as nat)
                    && r.0[m] < self.k,
            forall|m: int|
                0 <= m < ROW_WEIGHT ==> (#[trigger] r.1[m]).value() == lpn_coeff(self.seed_field@, i as nat, m as nat),
    {
        let prp = PRP::new(Some(&self.seed));
        let field_prp = FieldPRP::new(Some(&self.seed_field));
        let ib = u64_to_le(i as u64);
        let mut tmp: Vec<[u8; 16]> = Vec::new();
        let mut tmp_field: Vec<Fe> = Vec::new();
        let mut m: usize = 0;
        while m < ROW_WEIGHT
            invariant
                m <= ROW_WEIGHT,
                ib@ == le_bytes(i as nat, 8),
                le_nat(ib@) == i,
                tmp.len() == m,
                tmp_field.len() == m,
                all_wf(tmp_field@),
                forall|j: int| 0 <= j < m ==> (#[trigger] tmp[j])@ == index_block(i as nat, j as nat),
                forall|j: int|
                    0 <= j < m ==> (#[trigger] tmp_field[j]).value() == i + 0x1_0000_0000_0000_0000 * j,
            decreases ROW_WEIGHT - m,
        {
            let mb = u64_to_le(m as u64);
            let mut block = [0u8; 16];
            let mut wide = [0u8; 32];
            let mut b: usize = 0;
            while b < 8
                invariant
                    b <= 8,
                    le_nat(ib@) == i,
                    le_nat(mb@) == m,
                    mb@ == le_bytes(m as nat, 8),
                    ib@ == le_bytes(i as nat, 8),
                    forall|j: int| 0 <= j < b ==> block[j] == ib[j] && block[8 + j] == mb[j],
                    forall|j: int| 0 <= j < b ==> wide[j] == ib[j] && wide[8 + j] == mb[j],
                    forall|j: int| 16 <= j < 32 ==> wide[j] == 0,
                decreases 8 - b,
            {
                block[b] = ib[b];
                block[8 + b] = mb[b];
                wide[b] = ib[b];
                wide[8 + b] = mb[b];
                b += 1;
            }
            proof {
                assert(block@ =~= index_block(i as nat, m as nat));
                lemma_wide_value(wide@, ib@, mb@, i as nat, m as nat);
            }
            tmp.push(block);
            let e = Fe::from_bytes_reduced(&wide);
            proof {
                vstd::arithmetic::div_mod::lemma_small_mod(
                    (i + 0x1_0000_0000_0000_0000 * m) as nat,
                    crate::field::modulus(),
                );
            }
            tmp_field.push(e);
            m += 1;
        }
        let ghost blocks = tmp@;
        let ghost plain = tmp_field@;
        prp.permute_block(&mut tmp);
        field_prp.permute_block(&mut tmp_field);
        let mut r: Vec<usize> = Vec::new();
        let mut j: usize = 0;
        while j < ROW_WEIGHT
            invariant
                j <= ROW_WEIGHT,
                self.k > 0,
                tmp.len() == ROW_WEIGHT,
                blocks.len() == ROW_WEIGHT,
                r.len() == j,
                prp.key == self.seed,
                forall|q: int| 0 <= q < ROW_WEIGHT ==> (#[trigger] tmp[q])@ == aes128(self.seed@, blocks[q]@),
                forall|q: int| 0 <= q < ROW_WEIGHT ==> (#[trigger] blocks[q])@ == index_block(i as nat, q as nat),
                forall|q: int|
                    0 <= q < j ==> #[trigger] r[q] == lpn_index(self.seed@, i as nat, q as nat, self.k as nat) && r[q]
                        < self.k,
            decreases ROW_WEIGHT - j,
        {
            let mut hi = [0u8; 8];
            let mut b: usize = 0;
            while b < 8
                invariant
                    b <= 8,
                    j < ROW_WEIGHT,
                    tmp.len() == ROW_WEIGHT,
                    forall|q: int| 0 <= q < b ==> hi[q] == tmp[j as int][8 + q],
                decreases 8 - b,
            {
                hi[b] = tmp[j][8 + b];
                b += 1;
            }
            assert(hi@ =~= tmp[j as int]@.skip(8));
            assert(blocks[j as int]@ == index_block(i as nat, j as nat));
            let v = u64_from_le(&hi);
            let idx = (v % (self.k as u64)) as usize;
            r.push(idx);
            j += 1;
        }
        proof {
            assert forall|m: int| 0 <= m < ROW_WEIGHT implies (#[trigger] tmp_field[m]).value() == lpn_coeff(
                self.seed_field@,
                i as nat,
                m as nat,
            ) by {
                assert(plain[m].value() == i + 0x1_0000_0000_0000_0000 * m);
            }
        }
        (r, tmp_field)
    }

    /// Adds the product of the matrix with `preK` to `K`.
    pub fn compute_K(&mut self)
        requires
            old(self).wf(),
        ensures
            final(self).wf(),
            values(final(self).K@) == lpn_expand(
                old(self).seed@,
                old(self).seed_field@,
                values(old(self).K@),
                values(old(self).preK@),
            ),
            *final(self) == (Lpn { K: final(self).K, ..*old(self) }),
    {
        let mut i: usize = 0;
        let ghost pre = values(self.preK@);
        while i < self.n
            invariant
                i <= self.n,
                self.wf(),
                *self == (Lpn { K: self.K, ..*old(self) }),
                pre == values(self.preK@),
                forall|q: int|
                    0 <= q < i ==> (#[trigger] self.K[q]).value() == lpn_acc(
                        self.seed@,
                        self.seed_field@,
                        pre,
                        q as nat,
                        old(self).K[q].value(),
                        ROW_WEIGHT as nat,
                    ),
                forall|q: int| i <= q < self.n ==> self.K[q] == old(self).K[q],
            decreases self.n - i,
        {
            let (cols, coeffs) = self.row(i);
            let acc = row_product(&self.K[i], &cols, &coeffs, &self.preK, Ghost(self.seed@), Ghost(self.seed_field@), Ghost(i as nat));
            crate::spfss_receiver::put(&mut self.K, i, acc);
            i += 1;
        }
        assert(values(self.K@) =~= lpn_expand(self.seed@, self.seed_field@, values(old(self).K@), pre));
    }

    /// Adds the product of the matrix with `preK` to `K`, and the product with `preM` to `M`.
    pub fn compute_K_and_M(&mut self)
        requires
            old(self).wf(),
        ensures
            final(self).wf(),
            values(final(self).K@) == lpn_expand(
                old(self).seed@,
                old(self).seed_field@,
                values(old(self).K@),
                values(old(self).preK@),
            ),
            values(final(self).M@) == lpn_expand(
                old(self).seed@,
                old(self).seed_field@,
                values(old(self).M@),
                values(old(self).preM@),
            ),
            *final(self) == (Lpn { K: final(self).K, M: final(self).M, ..*old(self) }),
    {
        let mut i: usize = 0;
        let ghost pre_k = values(self.preK@);
        let ghost pre_m = values(self.preM@);
        while i < self.n
            invariant
                i <= self.n,
                self.wf(),
                *self == (Lpn { K: self.K, M: self.M, ..*old(self) }),
                pre_k == values(self.preK@),
                pre_m == values(self.preM@),
                forall|q: int|
                    0 <= q < i ==> (#[trigger] self.K[q]).value() == lpn_acc(
                        self.seed@,
                        self.seed_field@,
                        pre_k,
                        q as nat,
                        old(self).K[q].value(),
                        ROW_WEIGHT as nat,
                    ),
                forall|q: int| i <= q < self.n ==> self.K[q] == old(self).K[q],
                forall|q: int|
                    0 <= q < i ==> (#[trigger] self.M[q]).value() == lpn_acc(
                        self.seed@,
                        self.seed_field@,
                        pre_m,
                        q as nat,
                        old(self).M[q].value(),
                        ROW_WEIGHT as nat,
                    ),
                forall|q: int| i <= q < self.n ==> self.M[q] == old(self).M[q],
            decreases self.n - i,
        {
            let (cols, coeffs) = self.row(i);
            let acc_k = row_product(&self.K[i], &cols, &coeffs, &self.preK, Ghost(self.seed@), Ghost(self.seed_field@), Ghost(i as nat));
            let acc_m = row_product(&self.M[i], &cols, &coeffs, &self.preM, Ghost(self.seed@), Ghost(self.seed_field@), Ghost(i as nat));
            crate::spfss_receiver::put(&mut self.K, i, acc_k);
            crate::spfss_receiver::put(&mut self.M, i, acc_m);
            i += 1;
        }
        assert(values(self.K@) =~= lpn_expand(self.seed@, self.seed_field@, values(old(self).K@), pre_k));
        assert(values(self.M@) =~= lpn_expand(self.seed@, self.seed_field@, values(old(self).M@), pre_m));
    }

    /// The sender's expansion: the noise vector `K` becomes `K` plus the product of the matrix with the
    /// seed vector `kkK`.
    pub fn compute_send(&mut self, K: &mut Vec<Fe>, kkK: &Vec<Fe>)
        requires
            old(self).wf(),
            old(K).len() == old(self).n,
            kkK.len() == old(self).k,
            all_wf(old(K)@),
            all_wf(kkK@),
        ensures
            final(self).wf(),
            final(self).k == old(self).k,
            final(self).n == old(self).n,
            final(self).seed == old(self).seed,
            final(self).seed_field == old(self).seed_field,
            final(K).len() == old(K).len(),
            all_wf(final(K)@),
            values(final(K)@) == lpn_expand(old(self).seed@, old(self).seed_field@, values(old(K)@), values(kkK@)),
    {
        self.party = Role::Sender;
        self.K = crate::base_svole::copy_elements(K);
        self.preK = crate::base_svole::copy_elements(kkK);
        self.compute_K();
        *K = crate::base_svole::copy_elements(&self.K);
    }

    /// The receiver's expansion: the same for both of its vectors, `K` with the seed vector `kkK` and `M`
    /// with the seed vector `kkM`.
    pub fn compute_recv(&mut self, K: &mut Vec<Fe>, M: &mut Vec<Fe>, kkK: &Vec<Fe>, kkM: &Vec<Fe>)
        requires
            old(self).wf(),
            old(K).len() == old(self).n,
            old(M).len() == old(self).n,
            kkK.len() == old(self).k,
            kkM.len() == old(self).k,
            all_wf(old(K)@),
            all_wf(old(M)@),
            all_wf(kkK@),
            all_wf(kkM@),
        ensures
            final(self).wf(),
            final(self).k == old(self).k,
            final(self).n == old(self).n,
            final(self).seed == old(self).seed,
            final(self).seed_field == old(self).seed_field,
            final(K).len() == old(K).len(),
            final(M).len() == old(M).len(),
            all_wf(final(K)@),
            all_wf(final(M)@),
            values(final(K)@) == lpn_expand(old(self).seed@, old(self).seed_field@, values(old(K)@), values(kkK@)),
            values(final(M)@) == lpn_expand(old(self).seed@, old(self).seed_field@, values(old(M)@), values(kkM@)),
    {
        self.party = Role::Receiver;
        self.K = crate::base_svole::copy_elements(K);
        self.preK = crate::base_svole::copy_elements(kkK);
        self.M = crate::base_svole::copy_elements(M);
        self.preM = crate::base_svole::copy_elements(kkM);
        self.compute_K_and_M();
        *K = crate::base_svole::copy_elements(&self.K);
        *M = crate::base_svole::copy_elements(&self.M);
    }
}

/// The value of the encoding of an entry of the matrix: the row plus the entry times `2^64`.
proof fn lemma_wide_value(wide: Seq<u8>, ib: Seq<u8>, mb: Seq<u8>, i: nat, m: nat)
    requires
        wide.len() == 32,
        ib.len() == 8,
        mb.len() == 8,
        le_nat(ib) == i,
        le_nat(mb) == m,
        forall|j: int| 0 <= j < 8 ==> wide[j] == ib[j] && wide[8 + j] == mb[j],
        forall|j: int| 16 <= j < 32 ==> wide[j] == 0,
    ensures
        le_nat(wide) == i + 0x1_0000_0000_0000_0000 * m,
        i + 0x1_0000_0000_0000_0000 * m < crate::field::modulus(),
{
    crate::field::lemma_le_nat_zero_tail(wide, 16);
    let low = wide.take(16);
    assert(low =~= ib + mb);
    lemma_le_nat_concat(ib, mb);
    assert(crate::field::pow256(8) == 0x1_0000_0000_0000_0000nat) by {
        reveal_with_fuel(crate::field::pow256, 9);
    }
    crate::block::lemma_le_nat_bound(ib);
    crate::block::lemma_le_nat_bound(mb);
    assert(0x1_0000_0000_0000_0000 * m == m * 0x1_0000_0000_0000_0000) by (nonlinear_arith);
    assert(m * 0x1_0000_0000_0000_0000 <= 0xffff_ffff_ffff_ffff * 0x1_0000_0000_0000_0000) by (nonlinear_arith)
        requires
            m <= 0xffff_ffff_ffff_ffff,
    ;
}

/// A byte string followed by another stands for the first number plus the second at the weight of the
/// first string's length.
pub proof fn lemma_le_nat_concat(a: Seq<u8>, b: Seq<u8>)
    ensures
        le_nat(a + b) == le_nat(a) + crate::field::pow256(a.len()) * le_nat(b),
    decreases b.len(),
{
    if b.len() == 0 {
        assert(a + b =~= a);
        assert(crate::field::pow256(a.len()) * 0 == 0) by (nonlinear_arith);
    } else {
        let last = b.last();
        let init = b.drop_last();
        lemma_le_nat_concat(a, init);
        assert(a + b =~= (a + init).push(last));
        assert(b =~= init.push(last));
        crate::field::lemma_le_nat_push(a + init, last);
        crate::field::lemma_le_nat_push(init, last);
        lemma_pow256_add(a.len(), init.len());
        let pa = crate::field::pow256(a.len());
        let pi = crate::field::pow256(init.len());
        assert(pa * (le_nat(init) + pi * last) == pa * le_nat(init) + (pa * pi) * last) by (nonlinear_arith);
    }
}

/// Powers of 256 multiply by adding their exponents.
pub proof fn lemma_pow256_add(a: nat, b: nat)
    ensures
        crate::field::pow256(a + b) == crate::field::pow256(a) * crate::field::pow256(b),
    decreases b,
{
    if b == 0 {
        assert(crate::field::pow256(a) * 1 == crate::field::pow256(a)) by (nonlinear_arith);
    } else {
        lemma_pow256_add(a, (b - 1) as nat);
        let pa = crate::field::pow256(a);
        let pb = crate::field::pow256((b - 1) as nat);
        assert(256 * (pa * pb) == pa * (256 * pb)) by (nonlinear_arith);
    }
}

/// One row's contribution added to `start`: the ten entries of the row, each times the seed vector's
/// entry at its column.
fn row_product(
    start: &Fe,
    cols: &Vec<usize>,
    coeffs: &Vec<Fe>,
    pre: &Vec<Fe>,
    Ghost(seed): Ghost<Seq<u8>>,
    Ghost(seed_field): Ghost<Seq<u8>>,
    Ghost(i): Ghost<nat>,
) -> (r: Fe)
    requires
        cols.len() == ROW_WEIGHT,
        coeffs.len() == ROW_WEIGHT,
        start.wf(),
        all_wf(coeffs@),
        all_wf(pre@),
        forall|m: int|
            0 <= m < ROW_WEIGHT ==> #[trigger] cols[m] == lpn_index(seed, i, m as nat, pre.len() as nat) && cols[m]
                < pre.len(),
        forall|m: int| 0 <= m < ROW_WEIGHT ==> (#[trigger] coeffs[m]).value() == lpn_coeff(seed_field, i, m as nat),
    ensures
        r.wf(),
        r.value() == lpn_acc(seed, seed_field, values(pre@), i, start.value(), ROW_WEIGHT as nat),
{
    let mut acc = *start;
    let mut m: usize = 0;
    while m < ROW_WEIGHT
        invariant
            m <= ROW_WEIGHT,
            cols.len() == ROW_WEIGHT,
            coeffs.len() == ROW_WEIGHT,
            all_wf(coeffs@),
            all_wf(pre@),
            acc.wf(),
            forall|q: int|
                0 <= q < ROW_WEIGHT ==> #[trigger] cols[q] == lpn_index(seed, i, q as nat, pre.len() as nat) && cols[q]
                    < pre.len(),
            forall|q: int| 0 <= q < ROW_WEIGHT ==> (#[trigger] coeffs[q]).value() == lpn_coeff(seed_field, i, q as nat),
            acc.value() == lpn_acc(seed, seed_field, values(pre@), i, start.value(), m as nat),
        decreases ROW_WEIGHT - m,
    {
        assert(values(pre@)[cols[m as int] as int] == pre[cols[m as int] as int].value());
        acc = acc.add(&coeffs[m].mul(&pre[cols[m]]));
        m += 1;
    }
    acc
}


/// The relation of the first `m` entries of a row, up to congruence.
proof fn lemma_lpn_acc_relation(
    seed: Seq<u8>,
    seed_field: Seq<u8>,
    ps: Seq<nat>,
    pr: Seq<nat>,
    pm: Seq<nat>,
    i: nat,
    ss: nat,
    sr: nat,
    sm: nat,
    d: nat,
    m: nat,
)
    requires
        ps.len() == pr.len(),
        pr.len() == pm.len(),
        ps.len() > 0,
        ss == fadd(sr, fmul(d, sm)),
        forall|j: int| 0 <= j < ps.len() ==> #[trigger] ps[j] == fadd(pr[j], fmul(d, pm[j])),
    ensures
        cong(
            lpn_acc(seed, seed_field, ps, i, ss, m) as int,
            lpn_acc(seed, seed_field, pr, i, sr, m) as int + d as int * lpn_acc(seed, seed_field, pm, i, sm, m) as int,
        ),
    decreases m,
{
    lemma_cong_refl(d as int, 0);
    if m == 0 {
        lemma_cong_refl(sr as int, 0);
        lemma_cong_refl(sm as int, 0);
        lemma_fmul_cong(d, sm, d as int, sm as int);
        lemma_fadd_cong(sr, fmul(d, sm), sr as int, d as int * sm as int);
    } else {
        let k = (m - 1) as nat;
        lemma_lpn_acc_relation(seed, seed_field, ps, pr, pm, i, ss, sr, sm, d, k);
        let a = lpn_coeff(seed_field, i, k);
        let j = lpn_index(seed, i, k, ps.len());
        vstd::arithmetic::div_mod::lemma_mod_bound(
            le_nat(aes128(seed, index_block(i, k)).skip(8)) as int,
            ps.len() as int,
        );
        assert(0 <= j < ps.len());
        assert(ps[j] == fadd(pr[j], fmul(d, pm[j])));
        let xs = lpn_acc(seed, seed_field, ps, i, ss, k);
        let xr = lpn_acc(seed, seed_field, pr, i, sr, k);
        let xm = lpn_acc(seed, seed_field, pm, i, sm, k);
        lemma_cong_refl(a as int, 0);
        lemma_cong_refl(pr[j] as int, 0);
        lemma_cong_refl(pm[j] as int, 0);
        lemma_cong_refl(xr as int, 0);
        lemma_cong_refl(xm as int, 0);
        lemma_fmul_cong(d, pm[j], d as int, pm[j] as int);
        lemma_fadd_cong(pr[j], fmul(d, pm[j]), pr[j] as int, d as int * pm[j] as int);
        lemma_fmul_cong(a, ps[j], a as int, pr[j] as int + d as int * pm[j] as int);
        lemma_fadd_cong(
            xs,
            fmul(a, ps[j]),
            xr as int + d as int * xm as int,
            a as int * (pr[j] as int + d as int * pm[j] as int),
        );
        lemma_fmul_cong(a, pr[j], a as int, pr[j] as int);
        lemma_fmul_cong(a, pm[j], a as int, pm[j] as int);
        lemma_fadd_cong(xr, fmul(a, pr[j]), xr as int, a as int * pr[j] as int);
        lemma_fadd_cong(xm, fmul(a, pm[j]), xm as int, a as int * pm[j] as int);
        let ys = lpn_acc(seed, seed_field, ps, i, ss, m);
        let yr = lpn_acc(seed, seed_field, pr, i, sr, m);
        let ym = lpn_acc(seed, seed_field, pm, i, sm, m);
        lemma_cong_mul(d as int, d as int, ym as int, xm as int + a as int * pm[j] as int);
        lemma_cong_add(
            yr as int,
            xr as int + a as int * pr[j] as int,
            d as int * ym as int,
            d as int * (xm as int + a as int * pm[j] as int),
        );
        let lhs_mid = xr as int + d as int * xm as int + a as int * (pr[j] as int + d as int * pm[j] as int);
        let rhs_mid = xr as int + a as int * pr[j] as int + d as int * (xm as int + a as int * pm[j] as int);
        assert(lhs_mid == rhs_mid) by (nonlinear_arith)
            requires
                lhs_mid == xr as int + d as int * xm as int + a as int * (pr[j] as int + d as int * pm[j] as int),
                rhs_mid == xr as int + a as int * pr[j] as int + d as int * (xm as int + a as int * pm[j] as int),
        ;
        lemma_cong_refl(yr as int + d as int * ym as int, rhs_mid);
        lemma_cong_trans(ys as int, lhs_mid, yr as int + d as int * ym as int);
    }
}

/// The expansion keeps the correlation. Let the noise vectors and the seed vectors of the two parties be
/// correlated, the sender's entry being the receiver's plus the key `d` times the receiver's value:
/// `ks = kr + d * mr` and `ps = pr + d * pm`. Then so are the expanded vectors.
pub proof fn lemma_lpn_preserves_relation(
    seed: Seq<u8>,
    seed_field: Seq<u8>,
    ks: Seq<nat>,
    kr: Seq<nat>,
    mr: Seq<nat>,
    ps: Seq<nat>,
    pr: Seq<nat>,
    pm: Seq<nat>,
    d: nat,
    i: int,
)
    requires
        ks.len() == kr.len(),
        kr.len() == mr.len(),
        0 <= i < ks.len(),
        ps.len() == pr.len(),
        pr.len() == pm.len(),
        ps.len() > 0,
        ks[i] == fadd(kr[i], fmul(d, mr[i])),
        forall|j: int| 0 <= j < ps.len() ==> #[trigger] ps[j] == fadd(pr[j], fmul(d, pm[j])),
    ensures
        lpn_expand(seed, seed_field, ks, ps)[i] == fadd(
            lpn_expand(seed, seed_field, kr, pr)[i],
            fmul(d, lpn_expand(seed, seed_field, mr, pm)[i]),
        ),
{
    lemma_lpn_acc_relation(seed, seed_field, ps, pr, pm, i as nat, ks[i], kr[i], mr[i], d, ROW_WEIGHT as nat);
    let ys = lpn_expand(seed, seed_field, ks, ps)[i];
    let yr = lpn_expand(seed, seed_field, kr, pr)[i];
    let ym = lpn_expand(seed, seed_field, mr, pm)[i];
    lemma_cong_refl(d as int, 0);
    lemma_cong_refl(yr as int, 0);
    lemma_cong_refl(ym as int, 0);
    lemma_fmul_cong(d, ym, d as int, ym as int);
    lemma_fadd_cong(yr, fmul(d, ym), yr as int, d as int * ym as int);
    lemma_cong_refl(fadd(yr, fmul(d, ym)) as int, yr as int + d as int * ym as int);
    lemma_cong_trans(ys as int, yr as int + d as int * ym as int, fadd(yr, fmul(d, ym)) as int);
    lemma_field_ops(yr, fmul(d, ym));
    lemma_acc_bound(seed, seed_field, ps, i as nat, ks[i], ROW_WEIGHT as nat);
    lemma_cong_eq(ys as int, fadd(yr, fmul(d, ym)) as int);
}

/// An entry of the expansion over at least one entry of the row is a number below the prime.
pub proof fn lemma_acc_bound(seed: Seq<u8>, seed_field: Seq<u8>, pre: Seq<nat>, i: nat, start: nat, m: nat)
    requires
        m >= 1,
    ensures
        lpn_acc(seed, seed_field, pre, i, start, m) < crate::field::modulus(),
{
    lemma_field_ops(
        lpn_acc(seed, seed_field, pre, i, start, (m - 1) as nat),
        fmul(lpn_coeff(seed_field, i, (m - 1) as nat), pre[lpn_index(seed, i, (m - 1) as nat, pre.len())]),
    );
}

} // verus!
