use vstd::prelude::*;
use crate::block::{
    bit_at, block_from_bits, get_bit, lemma_block_is_from_bits, lemma_xor_bits, set_bit, xor_block, xor_seq,
    zeros,
};
use crate::clmul::{clmul256, mul256};
use crate::clmul_laws::{lemma_clmul256_additive, lemma_product_len};
use crate::comm_channel::{
    blocks16_frame, blocks32_frame, frame_size, parse_blocks16, parse_blocks32, parse_point, prepend,
    views16, views32, CommunicationChannel,
};
use crate::error::VoleError;
use crate::ot::OTCO;
use crate::prg::{keystream32, lemma_wrap64, mix_id, wrap64, PRG};

verus! {

/// The number of correlations that one inner block of the extension produces.
pub const BLOCK_SIZE: usize = 2048;

/// The number of base transfers, and of bits in a correlation.
pub const NUM_BITS: usize = 256;

/// The number of columns that an inner block of `length` correlations fills: `length` rounded up to whole
/// 256-bit blocks.
pub open spec fn lbs_of(length: int) -> int {
    ((length + 255) / 256) * 256
}

/// Bit `j` of the row that a generator in state `g` produces next.
pub open spec fn prg_row_bit(g: PRG, j: int) -> bool {
    bit_at(keystream32(g.key@, g.counter + 2 * (j / 256)), j % 256)
}

/// The generators after each has produced `off` more blocks of its key stream.
pub open spec fn shift(g: Seq<PRG>, off: int) -> Seq<PRG> {
    Seq::new(g.len(), |i: int| PRG { counter: wrap64(g[i].counter + off) as u64, key: g[i].key })
}

/// Bit `i` of the sender's correlation `j` of an inner block: the sender's row `i`, with the receiver's
/// row of `u` added where the sender's choice bit `s[i]` is set.
pub open spec fn q_bit(g0: Seq<PRG>, s: Seq<bool>, u: Seq<Seq<u8>>, lbs: int, i: int, j: int) -> bool {
    j < lbs && (prg_row_bit(g0[i], j) != (s[i] && bit_at(u[8 * i + j / 256], j % 256)))
}

/// The sender's correlation `j` of an inner block.
pub open spec fn q_block(g0: Seq<PRG>, s: Seq<bool>, u: Seq<Seq<u8>>, lbs: int, j: int) -> Seq<u8> {
    block_from_bits(|i: int| q_bit(g0, s, u, lbs, i, j))
}

/// Bit `i` of the receiver's correlation `j` of an inner block: bit `j` of its first row `i`.
pub open spec fn t_bit(g0: Seq<PRG>, lbs: int, i: int, j: int) -> bool {
    j < lbs && prg_row_bit(g0[i], j)
}

/// The receiver's correlation `j` of an inner block.
pub open spec fn t_block(g0: Seq<PRG>, lbs: int, j: int) -> Seq<u8> {
    block_from_bits(|i: int| t_bit(g0, lbs, i, j))
}

/// Bit `b` of block `m` of the receiver's message for an inner block: rows `i = m / 8` of both generator
/// families added, plus the choice bit of the column.
pub open spec fn u_bit(g0: Seq<PRG>, g1: Seq<PRG>, r: Seq<Seq<u8>>, lbs: int, m: int, b: int) -> bool {
    let j = 256 * (m % 8) + b;
    j < lbs && ((prg_row_bit(g0[m / 8], j) != prg_row_bit(g1[m / 8], j)) != bit_at(r[m % 8], b))
}

/// Block `m` of the receiver's message for an inner block.
pub open spec fn u_block(g0: Seq<PRG>, g1: Seq<PRG>, r: Seq<Seq<u8>>, lbs: int, m: int) -> Seq<u8> {
    block_from_bits(|b: int| u_bit(g0, g1, r, lbs, m, b))
}

/// The receiver's message for an inner block.
pub open spec fn u_blocks(g0: Seq<PRG>, g1: Seq<PRG>, r: Seq<Seq<u8>>, lbs: int) -> Seq<Seq<u8>> {
    Seq::new(BLOCK_SIZE as nat, |m: int| u_block(g0, g1, r, lbs, m))
}

/// One party of the IKNP extension, which stretches 256 base transfers into any number of correlated
/// transfers `q = t ^ r * delta`.
#[derive(Clone)]
pub struct IKNP {
    pub base_ot: OTCO,
    /// The sender's correlation key: the block whose bits are `s`.
    pub delta: Option<[u8; 32]>,
    pub setup: bool,
    /// The sender's choice bits in the base transfers.
    pub s: Vec<bool>,
    /// The receiver's choice bits for the 512 extra correlations of the consistency check.
    pub local_r: Vec<bool>,
    /// The extra correlations of the consistency check.
    pub local_out: Vec<[u8; 32]>,
    /// The sender's generators, or the receiver's first family.
    pub g0: Vec<PRG>,
    /// The receiver's second family of generators.
    pub g1: Vec<PRG>,
    pub malicious: bool,
    pub k0: Vec<[u8; 16]>,
    pub k1: Vec<[u8; 16]>,
}

/// The 256 x 2048 bit matrix whose rows lie in `rows`, eight blocks to a row, turned over: bit `i` of column
/// block `j` is bit `j` of row `i`.
pub fn transpose(rows: &Vec<[u8; 32]>) -> (out: Vec<[u8; 32]>)
    requires
        rows.len() == BLOCK_SIZE,
    ensures
        out.len() == BLOCK_SIZE,
        forall|j: int, i: int|
            0 <= j < BLOCK_SIZE && 0 <= i < 256 ==> #[trigger] bit_at(out[j]@, i) == bit_at(
                rows[8 * i + j / 256]@,
                j % 256,
            ),
{
    let mut out: Vec<[u8; 32]> = Vec::new();
    let mut j: usize = 0;
    while j < BLOCK_SIZE
        invariant
            j <= BLOCK_SIZE,
            rows.len() == BLOCK_SIZE,
            out.len() == j,
            forall|jj: int, i: int|
                0 <= jj < j && 0 <= i < 256 ==> #[trigger] bit_at(out[jj]@, i) == bit_at(
                    rows[8 * i + jj / 256]@,
                    jj % 256,
                ),
        decreases BLOCK_SIZE - j,
    {
        let mut b = [0u8; 32];
        let mut i: usize = 0;
        while i < 256
            invariant
                i <= 256,
                j < BLOCK_SIZE,
                rows.len() == BLOCK_SIZE,
                forall|ii: int|
                    0 <= ii < i ==> #[trigger] bit_at(b@, ii) == bit_at(rows[8 * ii + j as int / 256]@, j as int % 256),
            decreases 256 - i,
        {
            let bit = get_bit(&rows[8 * i + j / 256], j % 256);
            set_bit(&mut b, i, bit);
            i += 1;
        }
        let ghost before = out@;
        out.push(b);
        assert forall|jj: int, i: int| 0 <= jj < j + 1 && 0 <= i < 256 implies #[trigger] bit_at(out[jj]@, i)
            == bit_at(rows[8 * i + jj / 256]@, jj % 256) by {
            if jj < j {
                assert(out[jj] == before[jj]);
            }
        }
        j += 1;
    }
    out
}

/// The next rows of 256 generators, laid out eight blocks to a row: generator `i` fills the first `k` blocks
/// of row `i`; the other blocks are zero.
pub fn make_rows(gens: &mut Vec<PRG>, k: usize) -> (rows: Vec<[u8; 32]>)
    requires
        old(gens).len() == 256,
        k <= 8,
    ensures
        rows.len() == BLOCK_SIZE,
        forall|i: int, c: int|
            0 <= i < 256 && 0 <= c < 8 ==> (#[trigger] rows[8 * i + c])@ == (if c < k {
                keystream32(old(gens)[i].key@, old(gens)[i].counter + 2 * c)
            } else {
                zeros(32)
            }),
        final(gens)@ == shift(old(gens)@, 2 * k),
{
    let mut rows: Vec<[u8; 32]> = Vec::new();
    let mut i: usize = 0;
    while i < 256
        invariant
            i <= 256,
            k <= 8,
            gens.len() == 256,
            old(gens).len() == 256,
            rows.len() == 8 * i,
            forall|ii: int, c: int|
                0 <= ii < i && 0 <= c < 8 ==> (#[trigger] rows[8 * ii + c])@ == (if c < k {
                    keystream32(old(gens)[ii].key@, old(gens)[ii].counter + 2 * c)
                } else {
                    zeros(32)
                }),
            forall|ii: int| 0 <= ii < i ==> #[trigger] gens[ii] == shift(old(gens)@, 2 * k)[ii],
            forall|ii: int| i <= ii < 256 ==> #[trigger] gens[ii] == old(gens)[ii],
        decreases 256 - i,
    {
        let mut g = gens[i];
        let t = g.random_32byte_block(k);
        gens[i] = g;
        let ghost before = rows@;
        let mut c: usize = 0;
        while c < 8
            invariant
                c <= 8,
                k <= 8,
                i < 256,
                t.len() == k,
                rows.len() == 8 * i + c,
                forall|m: int| 0 <= m < 8 * i ==> rows[m] == before[m],
                before.len() == 8 * i,
                forall|cc: int|
                    0 <= cc < c ==> (#[trigger] rows[8 * i + cc])@ == (if cc < k {
                        t[cc]@
                    } else {
                        zeros(32)
                    }),
            decreases 8 - c,
        {
            if c < k {
                rows.push(t[c]);
            } else {
                let z = [0u8; 32];
                assert(z@ =~= zeros(32));
                rows.push(z);
            }
            c += 1;
        }
        proof {
            assert forall|ii: int, c: int| 0 <= ii < i + 1 && 0 <= c < 8 implies (#[trigger] rows[8 * ii + c])@
                == (if c < k {
                keystream32(old(gens)[ii].key@, old(gens)[ii].counter + 2 * c)
            } else {
                zeros(32)
            }) by {
                if ii < i {
                    assert(rows[8 * ii + c] == before[8 * ii + c]);
                }
            }
            lemma_wrap64(old(gens)[i as int].counter + 2 * k);
            assert(gens[i as int].key == old(gens)[i as int].key);
            assert(gens[i as int].counter == wrap64(old(gens)[i as int].counter + 2 * k));
            let e = shift(old(gens)@, 2 * k)[i as int];
            assert(e.counter == gens[i as int].counter);
            assert(e.key == gens[i as int].key);
            assert(gens[i as int] == e);
        }
        i += 1;
    }
    assert(gens@ =~= shift(old(gens)@, 2 * k));
    rows
}


/// The exclusive-or of two sequences of blocks, block by block, as far as both reach.
pub fn xor_blocks_arr(x: &Vec<[u8; 32]>, y: &Vec<[u8; 32]>) -> (res: Vec<[u8; 32]>)
    ensures
        res.len() == (if x.len() <= y.len() {
            x.len()
        } else {
            y.len()
        }),
        forall|i: int| 0 <= i < res.len() ==> (#[trigger] res[i])@ == xor_seq(x[i]@, y[i]@),
{
    let n = if x.len() <= y.len() {
        x.len()
    } else {
        y.len()
    };
    let mut res: Vec<[u8; 32]> = Vec::new();
    let mut i: usize = 0;
    while i < n
        invariant
            i <= n,
            n <= x.len(),
            n <= y.len(),
            res.len() == i,
            forall|j: int| 0 <= j < i ==> (#[trigger] res[j])@ == xor_seq(x[j]@, y[j]@),
        decreases n - i,
    {
        res.push(xor_block(&x[i], &y[i]));
        i += 1;
    }
    res
}

/// Adds `b` into `a` by exclusive-or, block by block.
pub fn xor_blocks(a: &mut Vec<[u8; 32]>, b: &Vec<[u8; 32]>)
    requires
        old(a).len() <= b.len(),
    ensures
        final(a).len() == old(a).len(),
        forall|i: int| 0 <= i < old(a).len() ==> (#[trigger] final(a)[i])@ == xor_seq(old(a)[i]@, b[i]@),
{
    let mut i: usize = 0;
    while i < a.len()
        invariant
            i <= a.len(),
            a.len() == old(a).len(),
            a.len() <= b.len(),
            forall|j: int| 0 <= j < i ==> (#[trigger] a[j])@ == xor_seq(old(a)[j]@, b[j]@),
            forall|j: int| i <= j < a.len() ==> a[j] == old(a)[j],
        decreases a.len() - i,
    {
        let x = a[i];
        a[i] = xor_block(&x, &b[i]);
        i += 1;
    }
}

/// Masks `a` with `b`, block by block.
pub fn and_blocks(a: &mut Vec<[u8; 32]>, b: &Vec<[u8; 32]>)
    requires
        old(a).len() <= b.len(),
    ensures
        final(a).len() == old(a).len(),
        forall|i: int| 0 <= i < old(a).len() ==> (#[trigger] final(a)[i])@ == crate::block::and_seq(old(a)[i]@, b[i]@),
{
    let mut i: usize = 0;
    while i < a.len()
        invariant
            i <= a.len(),
            a.len() == old(a).len(),
            a.len() <= b.len(),
            forall|j: int| 0 <= j < i ==> (#[trigger] a[j])@ == crate::block::and_seq(old(a)[j]@, b[j]@),
            forall|j: int| i <= j < a.len() ==> a[j] == old(a)[j],
        decreases a.len() - i,
    {
        let x = a[i];
        a[i] = crate::block::and_block(&x, &b[i]);
        i += 1;
    }
}

impl IKNP {
    /// The buffers have their fixed sizes.
    pub open spec fn wf(&self) -> bool {
        &&& self.s.len() == NUM_BITS
        &&& self.local_r.len() == 2 * NUM_BITS
        &&& self.local_out.len() == BLOCK_SIZE
        &&& self.k0.len() == NUM_BITS
        &&& self.k1.len() == NUM_BITS
    }

    /// The party has been set up as the sender of the extension.
    pub open spec fn ready_sender(&self) -> bool {
        &&& self.wf()
        &&& self.setup
        &&& self.g0.len() == NUM_BITS
        &&& self.delta.is_some()
    }

    /// The party has been set up as the receiver of the extension.
    pub open spec fn ready_receiver(&self) -> bool {
        &&& self.wf()
        &&& self.setup
        &&& self.g0.len() == NUM_BITS
        &&& self.g1.len() == NUM_BITS
    }

    /// The sender's part of one inner block: from the receiver's message `tmp`, the 2048 correlations of the
    /// block, of which the first `length` are in use.
    pub fn send_pre_block(&mut self, tmp: &Vec<[u8; 32]>, length: usize) -> (out: Vec<[u8; 32]>)
        requires
            old(self).ready_sender(),
            tmp.len() == BLOCK_SIZE,
            length <= BLOCK_SIZE,
        ensures
            final(self).ready_sender(),
            out.len() == BLOCK_SIZE,
            forall|j: int|
                0 <= j < BLOCK_SIZE ==> (#[trigger] out[j])@ == q_block(
                    old(self).g0@,
                    old(self).s@,
                    views32(tmp@),
                    lbs_of(length as int),
                    j,
                ),
            final(self).g0@ == shift(old(self).g0@, 2 * (lbs_of(length as int) / 256)),
            *final(self) == (IKNP { g0: final(self).g0, ..*old(self) }),
    {
        let k: usize = (length + NUM_BITS - 1) / NUM_BITS;
        assert(256 * k == lbs_of(length as int));
        let ghost g_old = self.g0@;
        let t = make_rows(&mut self.g0, k);
        let mut res: Vec<[u8; 32]> = Vec::new();
        let mut m: usize = 0;
        while m < BLOCK_SIZE
            invariant
                m <= BLOCK_SIZE,
                t.len() == BLOCK_SIZE,
                tmp.len() == BLOCK_SIZE,
                self.s.len() == NUM_BITS,
                res.len() == m,
                forall|mm: int|
                    0 <= mm < m ==> (#[trigger] res[mm])@ == (if self.s[mm / 8] && mm % 8 < k {
                        xor_seq(t[mm]@, tmp[mm]@)
                    } else {
                        t[mm]@
                    }),
            decreases BLOCK_SIZE - m,
        {
            if self.s[m / 8] && m % 8 < k {
                res.push(xor_block(&t[m], &tmp[m]));
            } else {
                res.push(t[m]);
            }
            m += 1;
        }
        let out = transpose(&res);
        proof {
            let lbs = lbs_of(length as int);
            assert forall|j: int| 0 <= j < BLOCK_SIZE implies (#[trigger] out[j])@ == q_block(
                g_old,
                self.s@,
                views32(tmp@),
                lbs,
                j,
            ) by {
                let f = |i: int| q_bit(g_old, self.s@, views32(tmp@), lbs, i, j);
                assert forall|i: int| 0 <= i < 256 implies bit_at(out[j]@, i) == f(i) by {
                    let c = j / 256;
                    let mm = 8 * i + c;
                    assert(mm / 8 == i && mm % 8 == c);
                    assert(bit_at(out[j]@, i) == bit_at(res[mm]@, j % 256));
                    assert(t[8 * i + c]@ == (if c < k {
                        keystream32(g_old[i].key@, g_old[i].counter + 2 * c)
                    } else {
                        zeros(32)
                    }));
                    lemma_xor_bits(t[mm]@, tmp[mm]@, j % 256);
                    assert(views32(tmp@)[mm] == tmp[mm]@);
                    if c < k {
                        assert(j < lbs);
                    } else {
                        assert(j >= lbs);
                    }
                }
                lemma_block_is_from_bits(out[j]@, f);
            }
        }
        out
    }
}


impl IKNP {
    /// The receiver's part of one inner block: from the eight blocks `r` of choice bits, the 2048
    /// correlations of the block, of which the first `length` are in use, and the message for the sender.
    pub fn recv_pre_block(&mut self, r: &Vec<[u8; 32]>, length: usize) -> (res: (Vec<[u8; 32]>, Vec<[u8; 32]>))
        requires
            old(self).ready_receiver(),
            r.len() == 8,
            length <= BLOCK_SIZE,
        ensures
            final(self).ready_receiver(),
            res.0.len() == BLOCK_SIZE,
            forall|j: int|
                0 <= j < BLOCK_SIZE ==> (#[trigger] res.0[j])@ == t_block(old(self).g0@, lbs_of(length as int), j),
            res.1.len() == BLOCK_SIZE,
            views32(res.1@) == u_blocks(old(self).g0@, old(self).g1@, views32(r@), lbs_of(length as int)),
            final(self).g0@ == shift(old(self).g0@, 2 * (lbs_of(length as int) / 256)),
            final(self).g1@ == shift(old(self).g1@, 2 * (lbs_of(length as int) / 256)),
            *final(self) == (IKNP { g0: final(self).g0, g1: final(self).g1, ..*old(self) }),
    {
        let k: usize = (length + NUM_BITS - 1) / NUM_BITS;
        assert(256 * k == lbs_of(length as int));
        let ghost g0_old = self.g0@;
        let ghost g1_old = self.g1@;
        let t = make_rows(&mut self.g0, k);
        let t1 = make_rows(&mut self.g1, k);
        let both = xor_blocks_arr(&t, &t1);
        let mut u: Vec<[u8; 32]> = Vec::new();
        let mut m: usize = 0;
        while m < BLOCK_SIZE
            invariant
                m <= BLOCK_SIZE,
                t.len() == BLOCK_SIZE,
                t1.len() == BLOCK_SIZE,
                both.len() == BLOCK_SIZE,
                forall|q: int| 0 <= q < BLOCK_SIZE ==> (#[trigger] both[q])@ == xor_seq(t[q]@, t1[q]@),
                r.len() == 8,
                u.len() == m,
                forall|mm: int|
                    0 <= mm < m ==> (#[trigger] u[mm])@ == (if mm % 8 < k {
                        xor_seq(xor_seq(t[mm]@, t1[mm]@), r[mm % 8]@)
                    } else {
                        zeros(32)
                    }),
            decreases BLOCK_SIZE - m,
        {
            if m % 8 < k {
                u.push(xor_block(&both[m], &r[m % 8]));
            } else {
                let z = [0u8; 32];
                assert(z@ =~= zeros(32));
                u.push(z);
            }
            m += 1;
        }
        let out = transpose(&t);
        proof {
            let lbs = lbs_of(length as int);
            assert forall|j: int| 0 <= j < BLOCK_SIZE implies (#[trigger] out[j])@ == t_block(g0_old, lbs, j) by {
                let f = |i: int| t_bit(g0_old, lbs, i, j);
                assert forall|i: int| 0 <= i < 256 implies bit_at(out[j]@, i) == f(i) by {
                    let c = j / 256;
                    let mm = 8 * i + c;
                    assert(bit_at(out[j]@, i) == bit_at(t[mm]@, j % 256));
                    assert(t[8 * i + c]@ == (if c < k {
                        keystream32(g0_old[i].key@, g0_old[i].counter + 2 * c)
                    } else {
                        zeros(32)
                    }));
                    lemma_xor_bits(t[mm]@, t[mm]@, j % 256);
                }
                lemma_block_is_from_bits(out[j]@, f);
            }
            assert forall|m: int| 0 <= m < BLOCK_SIZE implies views32(u@)[m] == u_block(
                g0_old,
                g1_old,
                views32(r@),
                lbs,
                m,
            ) by {
                let f = |b: int| u_bit(g0_old, g1_old, views32(r@), lbs, m, b);
                let i = m / 8;
                let c = m % 8;
                assert(m == 8 * i + c);
                assert forall|b: int| 0 <= b < 256 implies bit_at(u[m]@, b) == f(b) by {
                    let j = 256 * c + b;
                    assert(j / 256 == c && j % 256 == b);
                    assert(t[8 * i + c]@ == (if c < k {
                        keystream32(g0_old[i].key@, g0_old[i].counter + 2 * c)
                    } else {
                        zeros(32)
                    }));
                    assert(t1[8 * i + c]@ == (if c < k {
                        keystream32(g1_old[i].key@, g1_old[i].counter + 2 * c)
                    } else {
                        zeros(32)
                    }));
                    lemma_xor_bits(t[m]@, t1[m]@, b);
                    lemma_xor_bits(xor_seq(t[m]@, t1[m]@), r[c]@, b);
                    assert(views32(r@)[c] == r[c]@);
                }
                lemma_block_is_from_bits(u[m]@, f);
            }
            assert(views32(u@) =~= u_blocks(g0_old, g1_old, views32(r@), lbs));
        }
        (out, u)
    }
}


/// Shifting generators twice is shifting them by the sum.
pub proof fn lemma_shift_shift(g: Seq<PRG>, a: int, b: int)
    requires
        0 <= a,
        0 <= b,
    ensures
        shift(shift(g, a), b) == shift(g, a + b),
        shift(g, a).len() == g.len(),
{
    assert forall|i: int| 0 <= i < g.len() implies shift(shift(g, a), b)[i] == shift(g, a + b)[i] by {
        let c = g[i].counter as int;
        let m = 0x1_0000_0000_0000_0000int;
        lemma_wrap64(c + a);
        vstd::arithmetic::div_mod::lemma_add_mod_noop(c + a, b, m);
        vstd::arithmetic::div_mod::lemma_add_mod_noop((c + a) % m, b, m);
        vstd::arithmetic::div_mod::lemma_mod_twice(c + a, m);
        lemma_wrap64(c + a + b);
        lemma_wrap64(wrap64(c + a) + b);
    }
    assert(shift(shift(g, a), b) =~= shift(g, a + b));
}

/// Shifting by nothing changes nothing.
pub proof fn lemma_shift_zero(g: Seq<PRG>)
    ensures
        shift(g, 0) == g,
{
    assert forall|i: int| 0 <= i < g.len() implies shift(g, 0)[i] == g[i] by {
        lemma_wrap64(g[i].counter as int);
    }
    assert(shift(g, 0) =~= g);
}

/// The correlation key that the sender's choice bits stand for.
pub open spec fn delta_of(s: Seq<bool>) -> Seq<u8> {
    block_from_bits(|i: int| s[i])
}

/// Choice bit `j` of an inner block whose choice bits lie in the eight blocks `r`.
pub open spec fn choice_bit(r: Seq<Seq<u8>>, lbs: int, j: int) -> bool {
    j < lbs && bit_at(r[j / 256], j % 256)
}

/// The correlation of one inner block: where the sender's generator `i` is the one of the receiver's two that
/// the sender's choice bit `s[i]` selects, and the sender reads the receiver's message, the sender's
/// column `j` is the receiver's column `j`, plus the key where the receiver's choice bit `j` is set.
pub proof fn lemma_cot_block(
    sg0: Seq<PRG>,
    s: Seq<bool>,
    rg0: Seq<PRG>,
    rg1: Seq<PRG>,
    r: Seq<Seq<u8>>,
    lbs: int,
    j: int,
)
    requires
        sg0.len() == 256,
        s.len() == 256,
        rg0.len() == 256,
        rg1.len() == 256,
        r.len() == 8,
        0 <= j < BLOCK_SIZE,
        forall|i: int|
            0 <= i < 256 ==> #[trigger] sg0[i] == (if s[i] {
                rg1[i]
            } else {
                rg0[i]
            }),
    ensures
        q_block(sg0, s, u_blocks(rg0, rg1, r, lbs), lbs, j) == xor_seq(
            t_block(rg0, lbs, j),
            crate::block::select_seq(choice_bit(r, lbs, j), delta_of(s)),
        ),
{
    let u = u_blocks(rg0, rg1, r, lbs);
    let q = q_block(sg0, s, u, lbs, j);
    let t = t_block(rg0, lbs, j);
    let d = crate::block::select_seq(choice_bit(r, lbs, j), delta_of(s));
    let fq = |i: int| q_bit(sg0, s, u, lbs, i, j);
    let ft = |i: int| t_bit(rg0, lbs, i, j);
    let fs = |i: int| s[i];
    crate::block::lemma_block_from_bits(fq, 0);
    crate::block::lemma_block_from_bits(ft, 0);
    crate::block::lemma_block_from_bits(fs, 0);
    assert(d.len() == 32);
    assert forall|i: int| 0 <= i < 256 implies bit_at(q, i) == bit_at(xor_seq(t, d), i) by {
        crate::block::lemma_block_from_bits(fq, i);
        crate::block::lemma_block_from_bits(ft, i);
        crate::block::lemma_block_from_bits(fs, i);
        lemma_xor_bits(t, d, i);
        let m = 8 * i + j / 256;
        assert(m / 8 == i && m % 8 == j / 256);
        let fu = |b: int| u_bit(rg0, rg1, r, lbs, m, b);
        crate::block::lemma_block_from_bits(fu, j % 256);
        assert(u[m] == block_from_bits(fu));
        assert(256 * (m % 8) + j % 256 == j);
        assert(sg0[i] == (if s[i] {
            rg1[i]
        } else {
            rg0[i]
        }));
        if !choice_bit(r, lbs, j) {
            lemma_xor_bits(t, zeros(32), i);
        }
    }
    crate::block::lemma_bits_ext(q, xor_seq(t, d));
}


/// What reading one message of an inner block finds in `s`: exactly 2048 blocks, or an error.
pub open spec fn parse_u_frame(s: Seq<u8>) -> Result<Seq<Seq<u8>>, VoleError> {
    match parse_blocks32(s) {
        Err(e) => Err(e),
        Ok(b) => if b.len() != BLOCK_SIZE {
            Err(VoleError::WireFormat)
        } else {
            Ok(b)
        },
    }
}

/// What reading the messages of `n` inner blocks in a row finds in `s`: the messages and the bytes left
/// over, or the first error.
pub open spec fn parse_u_frames(s: Seq<u8>, n: nat) -> Result<(Seq<Seq<Seq<u8>>>, Seq<u8>), VoleError>
    decreases n,
{
    if n == 0 {
        Ok((Seq::empty(), s))
    } else {
        match parse_u_frame(s) {
            Err(e) => Err(e),
            Ok(b) => prepend(seq![b], parse_u_frames(s.skip(frame_size(s, false) as int), (n - 1) as nat)),
        }
    }
}

/// The number of inner blocks that hold the `length` correlations of an extension.
pub open spec fn data_frames(length: int) -> int {
    length / 2048 + if length % 2048 > 0 {
        1int
    } else {
        0int
    }
}

/// The number of inner blocks of an extension: those of the data, and one more for the consistency check.
pub open spec fn frame_count(length: int, malicious: bool) -> int {
    data_frames(length) + if malicious {
        1int
    } else {
        0int
    }
}

/// The number of correlations in use in inner block `b`: 2048 in a full block, the rest in the last block
/// of the data, 512 in the block of the consistency check.
pub open spec fn frame_len(length: int, b: int) -> int {
    if b < length / 2048 {
        2048
    } else if b < data_frames(length) {
        length % 2048
    } else {
        512
    }
}

/// The number of key stream blocks that each generator has produced before inner block `b`.
pub open spec fn frame_off(length: int, b: int) -> int {
    if b <= length / 2048 {
        16 * b
    } else if b <= data_frames(length) {
        16 * (length / 2048) + 2 * (lbs_of(length % 2048) / 256)
    } else {
        16 * (length / 2048) + 2 * (lbs_of(length % 2048) / 256) + 4
    }
}

/// Reads the receiver's message for one inner block.
pub fn recv_u_frame(io: &mut CommunicationChannel) -> (r: Result<Vec<[u8; 32]>, VoleError>)
    requires
        old(io).wf(),
    ensures
        final(io).wf(),
        final(io).outgoing == old(io).outgoing,
        final(io).flushed == old(io).flushed,
        match parse_u_frame(old(io).unread()) {
            Err(e) => r == Err::<Vec<[u8; 32]>, VoleError>(e),
            Ok(b) => r.is_ok() && views32(r.unwrap()@) == b && r.unwrap().len() == BLOCK_SIZE && final(io).unread()
                == old(io).unread().skip(frame_size(old(io).unread(), false) as int),
        },
{
    let tmp = io.receive_32byte_block()?;
    if tmp.len() != BLOCK_SIZE {
        return Err(VoleError::WireFormat);
    }
    Ok(tmp)
}

impl IKNP {
    /// The sender's part of the extension without the consistency check: reads the receiver's messages, one
    /// for each inner block, and gives the `length` correlations `q`. With the check switched on, one more
    /// inner block gives the 512 extra correlations that the check uses up.
    #[verifier::loop_isolation(false)]
    #[verifier::rlimit(60)]
    pub fn send_pre(&mut self, io: &mut CommunicationChannel, length: usize) -> (r: Result<
        Vec<[u8; 32]>,
        VoleError,
    >)
        requires
            old(self).ready_sender(),
            old(io).wf(),
            length <= usize::MAX - BLOCK_SIZE,
        ensures
            final(self).ready_sender(),
            final(io).wf(),
            final(io).outgoing == old(io).outgoing,
            final(io).flushed == old(io).flushed,
            *final(self) == (IKNP { g0: final(self).g0, local_out: final(self).local_out, ..*old(self) }),
            match parse_u_frames(old(io).unread(), frame_count(length as int, old(self).malicious) as nat) {
                Err(e) => r == Err::<Vec<[u8; 32]>, VoleError>(e),
                Ok((frames, rest)) => {
                    &&& r.is_ok()
                    &&& r.unwrap().len() == length
                    &&& final(io).unread() == rest
                    &&& final(self).g0@ == shift(
                        old(self).g0@,
                        frame_off(length as int, frame_count(length as int, old(self).malicious)),
                    )
                    &&& forall|n: int|
                        0 <= n < length ==> (#[trigger] r.unwrap()[n])@ == q_block(
                            shift(old(self).g0@, frame_off(length as int, n / 2048)),
                            old(self).s@,
                            frames[n / 2048],
                            lbs_of(frame_len(length as int, n / 2048)),
                            n % 2048,
                        )
                    &&& old(self).malicious ==> forall|j: int|
                        0 <= j < BLOCK_SIZE ==> (#[trigger] final(self).local_out[j])@ == q_block(
                            shift(old(self).g0@, frame_off(length as int, data_frames(length as int))),
                            old(self).s@,
                            frames[data_frames(length as int)],
                            512,
                            j,
                        )
                    &&& !old(self).malicious ==> final(self).local_out == old(self).local_out
                },
            },
    {
        let nfull = length / BLOCK_SIZE;
        let rem = length % BLOCK_SIZE;
        let ndata = if rem > 0 {
            nfull + 1
        } else {
            nfull
        };
        let total = if self.malicious {
            ndata + 1
        } else {
            ndata
        };
        let ghost len = length as int;
        let ghost g_init = self.g0@;
        let ghost u0 = io.unread();
        let ghost mut frames: Seq<Seq<Seq<u8>>> = Seq::empty();
        let mut out: Vec<[u8; 32]> = Vec::new();
        let mut b: usize = 0;
        proof {
            lemma_shift_zero(g_init);
            match parse_u_frames(u0, total as nat) {
                Ok((fs, rest)) => {
                    assert(frames + fs =~= fs);
                },
                Err(e) => {},
            }
        }
        while b < total
            invariant
                b <= total,
                self.ready_sender(),
                io.wf(),
                io.outgoing == old(io).outgoing,
                io.flushed == old(io).flushed,
                *self == (IKNP { g0: self.g0, local_out: self.local_out, ..*old(self) }),
                frames.len() == b,
                parse_u_frames(u0, total as nat) == prepend(
                    frames,
                    parse_u_frames(io.unread(), (total - b) as nat),
                ),
                self.g0@ == shift(g_init, frame_off(len, b as int)),
                out.len() == (if b <= nfull {
                    2048 * b
                } else {
                    len
                }),
                forall|n: int|
                    0 <= n < out.len() ==> (#[trigger] out[n])@ == q_block(
                        shift(g_init, frame_off(len, n / 2048)),
                        self.s@,
                        frames[n / 2048],
                        lbs_of(frame_len(len, n / 2048)),
                        n % 2048,
                    ),
                b <= ndata ==> self.local_out == old(self).local_out,
                b > ndata ==> forall|j: int|
                    0 <= j < BLOCK_SIZE ==> (#[trigger] self.local_out[j])@ == q_block(
                        shift(g_init, frame_off(len, ndata as int)),
                        self.s@,
                        frames[ndata as int],
                        512,
                        j,
                    ),
            decreases total - b,
        {
            let ghost cur = io.unread();
            let tmp = match recv_u_frame(io) {
                Err(e) => {
                    return Err(e);
                },
                Ok(t) => t,
            };
            let len_b: usize = if b < nfull {
                BLOCK_SIZE
            } else if b < ndata {
                rem
            } else {
                512
            };
            assert(len_b == frame_len(len, b as int));
            let ghost g_before = self.g0@;
            let ghost out_before = out@;
            let ghost frames_before = frames;
            let blk = self.send_pre_block(&tmp, len_b);
            proof {
                frames = frames.push(views32(tmp@));
                let tail = parse_u_frames(io.unread(), (total - b - 1) as nat);
                match tail {
                    Ok((fs, rest)) => {
                        assert(frames_before + (seq![views32(tmp@)] + fs) =~= frames + fs);
                    },
                    Err(e) => {},
                }
                lemma_shift_shift(g_init, frame_off(len, b as int), 2 * (lbs_of(len_b as int) / 256));
                assert(frame_off(len, b as int) + 2 * (lbs_of(len_b as int) / 256) == frame_off(len, b + 1));
            }
            if b < ndata {
                let mut j: usize = 0;
                while j < len_b
                    invariant
                        j <= len_b,
                        blk.len() == BLOCK_SIZE,
                        out@ == out_before + blk@.take(j as int),
                    decreases len_b - j,
                {
                    out.push(blk[j]);
                    assert(blk@.take(j as int).push(blk[j as int]) =~= blk@.take(j as int + 1));
                    j += 1;
                }
                proof {
                    assert forall|n: int| 0 <= n < out.len() implies (#[trigger] out[n])@ == q_block(
                        shift(g_init, frame_off(len, n / 2048)),
                        self.s@,
                        frames[n / 2048],
                        lbs_of(frame_len(len, n / 2048)),
                        n % 2048,
                    ) by {
                        if n < out_before.len() {
                            assert(out[n] == out_before[n]);
                            assert(n / 2048 < b);
                            assert(frames[n / 2048] == frames_before[n / 2048]);
                        } else {
                            let j = n - 2048 * b;
                            assert(out[n] == blk[j]);
                            assert(n / 2048 == b as int && n % 2048 == j);
                        }
                    }
                }
            } else {
                self.local_out = blk;
            }
            b += 1;
        }
        proof {
            assert(frames + Seq::<Seq<Seq<u8>>>::empty() =~= frames);
        }
        Ok(out)
    }
}


/// The eight blocks of choice bits of an inner block: bit `k` of block `c` is `bits[start + 256 * c + k]`,
/// and clear beyond the end of `bits`.
pub open spec fn choice_blocks(bits: Seq<bool>, start: int) -> Seq<Seq<u8>> {
    Seq::new(8, |c: int| block_from_bits(|k: int| start + 256 * c + k < bits.len() && bits[start + 256 * c + k]))
}

/// The choice bits of inner block `b`: those of the data, or those of the consistency check.
pub open spec fn frame_choices(r: Seq<bool>, local_r: Seq<bool>, length: int, b: int) -> Seq<Seq<u8>> {
    if b < data_frames(length) {
        choice_blocks(r, 2048 * b)
    } else {
        choice_blocks(local_r, 0)
    }
}

/// The receiver's message for inner block `b` of an extension, as it is framed on the wire.
pub open spec fn u_frame(
    g0: Seq<PRG>,
    g1: Seq<PRG>,
    r: Seq<bool>,
    local_r: Seq<bool>,
    length: int,
    b: int,
) -> Seq<u8> {
    blocks32_frame(
        u_blocks(
            shift(g0, frame_off(length, b)),
            shift(g1, frame_off(length, b)),
            frame_choices(r, local_r, length, b),
            lbs_of(frame_len(length, b)),
        ),
    )
}

/// The receiver's messages for the first `n` inner blocks of an extension, one after the other.
pub open spec fn u_frames(
    g0: Seq<PRG>,
    g1: Seq<PRG>,
    r: Seq<bool>,
    local_r: Seq<bool>,
    length: int,
    n: nat,
) -> Seq<u8>
    decreases n,
{
    if n == 0 {
        Seq::empty()
    } else {
        u_frames(g0, g1, r, local_r, length, (n - 1) as nat) + u_frame(g0, g1, r, local_r, length, n - 1)
    }
}

/// The eight blocks that hold the 2048 bits of `bits` from `start` on.
pub fn make_choice_blocks(bits: &Vec<bool>, start: usize) -> (r: Vec<[u8; 32]>)
    requires
        start <= usize::MAX - BLOCK_SIZE,
    ensures
        r.len() == 8,
        views32(r@) == choice_blocks(bits@, start as int),
{
    let mut r: Vec<[u8; 32]> = Vec::new();
    let mut c: usize = 0;
    while c < 8
        invariant
            c <= 8,
            start <= usize::MAX - BLOCK_SIZE,
            r.len() == c,
            forall|cc: int| 0 <= cc < c ==> (#[trigger] r[cc])@ == choice_blocks(bits@, start as int)[cc],
        decreases 8 - c,
    {
        let mut blk = [0u8; 32];
        let mut k: usize = 0;
        while k < 256
            invariant
                k <= 256,
                c < 8,
                start <= usize::MAX - BLOCK_SIZE,
                forall|m: int|
                    0 <= m < k ==> #[trigger] bit_at(blk@, m) == (start + 256 * c + m < bits.len() && bits[start
                        + 256 * c + m]),
            decreases 256 - k,
        {
            let n = start + 256 * c + k;
            let v = n < bits.len() && bits[n];
            set_bit(&mut blk, k, v);
            k += 1;
        }
        proof {
            let f = |k: int| start + 256 * c + k < bits.len() && bits@[start + 256 * c + k];
            assert forall|m: int| 0 <= m < 256 implies bit_at(blk@, m) == f(m) by {}
            lemma_block_is_from_bits(blk@, f);
        }
        r.push(blk);
        c += 1;
    }
    assert(views32(r@) =~= choice_blocks(bits@, start as int));
    r
}

impl IKNP {
    /// The receiver's part of the extension without the consistency check, with the choice bits `local_r`
    /// of the extra correlations given by the caller: sends one message for each inner block, and gives the
    /// `length` correlations `t`.
    #[verifier::loop_isolation(false)]
    #[verifier::rlimit(60)]
    pub fn recv_pre_with(
        &mut self,
        io: &mut CommunicationChannel,
        r: &Vec<bool>,
        length: usize,
        local_r: Vec<bool>,
    ) -> (out: Vec<[u8; 32]>)
        requires
            old(self).ready_receiver(),
            old(io).wf(),
            r.len() == length,
            local_r.len() == 2 * NUM_BITS,
            length <= usize::MAX - 2 * BLOCK_SIZE,
        ensures
            final(self).ready_receiver(),
            final(io).wf(),
            final(io).incoming == old(io).incoming,
            final(io).read_pos == old(io).read_pos,
            final(io).flushed == old(io).flushed,
            *final(self) == (IKNP {
                g0: final(self).g0,
                g1: final(self).g1,
                local_out: final(self).local_out,
                local_r: final(self).local_r,
                ..*old(self)
            }),
            out.len() == length,
            final(io).written() == old(io).written() + u_frames(
                old(self).g0@,
                old(self).g1@,
                r@,
                local_r@,
                length as int,
                frame_count(length as int, old(self).malicious) as nat,
            ),
            final(self).g0@ == shift(
                old(self).g0@,
                frame_off(length as int, frame_count(length as int, old(self).malicious)),
            ),
            final(self).g1@ == shift(
                old(self).g1@,
                frame_off(length as int, frame_count(length as int, old(self).malicious)),
            ),
            forall|n: int|
                0 <= n < length ==> (#[trigger] out[n])@ == t_block(
                    shift(old(self).g0@, frame_off(length as int, n / 2048)),
                    lbs_of(frame_len(length as int, n / 2048)),
                    n % 2048,
                ),
            old(self).malicious ==> final(self).local_r == local_r && forall|j: int|
                0 <= j < BLOCK_SIZE ==> (#[trigger] final(self).local_out[j])@ == t_block(
                    shift(old(self).g0@, frame_off(length as int, data_frames(length as int))),
                    512,
                    j,
                ),
            !old(self).malicious ==> final(self).local_out == old(self).local_out && final(self).local_r == old(self).local_r,
    {
        let nfull = length / BLOCK_SIZE;
        let rem = length % BLOCK_SIZE;
        let ndata = if rem > 0 {
            nfull + 1
        } else {
            nfull
        };
        let total = if self.malicious {
            ndata + 1
        } else {
            ndata
        };
        let ghost len = length as int;
        let ghost g0_init = self.g0@;
        let ghost g1_init = self.g1@;
        let ghost w0 = io.written();
        let mut out: Vec<[u8; 32]> = Vec::new();
        let mut b: usize = 0;
        proof {
            lemma_shift_zero(g0_init);
            lemma_shift_zero(g1_init);
            assert(w0 + Seq::<u8>::empty() =~= w0);
        }
        while b < total
            invariant
                b <= total,
                self.ready_receiver(),
                io.wf(),
                io.incoming == old(io).incoming,
                io.read_pos == old(io).read_pos,
                io.flushed == old(io).flushed,
                *self == (IKNP { g0: self.g0, g1: self.g1, local_out: self.local_out, ..*old(self) }),
                io.written() == w0 + u_frames(g0_init, g1_init, r@, local_r@, len, b as nat),
                self.g0@ == shift(g0_init, frame_off(len, b as int)),
                self.g1@ == shift(g1_init, frame_off(len, b as int)),
                out.len() == (if b <= nfull {
                    2048 * b
                } else {
                    len
                }),
                forall|n: int|
                    0 <= n < out.len() ==> (#[trigger] out[n])@ == t_block(
                        shift(g0_init, frame_off(len, n / 2048)),
                        lbs_of(frame_len(len, n / 2048)),
                        n % 2048,
                    ),
                b <= ndata ==> self.local_out == old(self).local_out,
                b > ndata ==> forall|j: int|
                    0 <= j < BLOCK_SIZE ==> (#[trigger] self.local_out[j])@ == t_block(
                        shift(g0_init, frame_off(len, ndata as int)),
                        512,
                        j,
                    ),
            decreases total - b,
        {
            let len_b: usize = if b < nfull {
                BLOCK_SIZE
            } else if b < ndata {
                rem
            } else {
                512
            };
            assert(len_b == frame_len(len, b as int));
            let choices = if b < ndata {
                make_choice_blocks(r, BLOCK_SIZE * b)
            } else {
                make_choice_blocks(&local_r, 0)
            };
            assert(views32(choices@) == frame_choices(r@, local_r@, len, b as int));
            let ghost out_before = out@;
            let ghost written_before = io.written();
            let (blk, u) = self.recv_pre_block(&choices, len_b);
            io.send_32byte_block(&u);
            proof {
                lemma_shift_shift(g0_init, frame_off(len, b as int), 2 * (lbs_of(len_b as int) / 256));
                lemma_shift_shift(g1_init, frame_off(len, b as int), 2 * (lbs_of(len_b as int) / 256));
                assert(frame_off(len, b as int) + 2 * (lbs_of(len_b as int) / 256) == frame_off(len, b + 1));
                assert(io.written() =~= w0 + u_frames(g0_init, g1_init, r@, local_r@, len, (b + 1) as nat));
            }
            if b < ndata {
                let mut j: usize = 0;
                while j < len_b
                    invariant
                        j <= len_b,
                        blk.len() == BLOCK_SIZE,
                        out@ == out_before + blk@.take(j as int),
                    decreases len_b - j,
                {
                    out.push(blk[j]);
                    assert(blk@.take(j as int).push(blk[j as int]) =~= blk@.take(j as int + 1));
                    j += 1;
                }
                proof {
                    assert forall|n: int| 0 <= n < out.len() implies (#[trigger] out[n])@ == t_block(
                        shift(g0_init, frame_off(len, n / 2048)),
                        lbs_of(frame_len(len, n / 2048)),
                        n % 2048,
                    ) by {
                        if n < out_before.len() {
                            assert(out[n] == out_before[n]);
                        } else {
                            let j = n - 2048 * b;
                            assert(out[n] == blk[j]);
                            assert(n / 2048 == b as int && n % 2048 == j);
                        }
                    }
                }
            } else {
                self.local_out = blk;
            }
            b += 1;
        }
        if self.malicious {
            self.local_r = local_r;
        }
        out
    }

    /// The receiver's part of the extension without the consistency check. With the check switched on, the
    /// choice bits of the 512 extra correlations are drawn at random.
    pub fn recv_pre(&mut self, io: &mut CommunicationChannel, r: &Vec<bool>, length: usize) -> (out: Vec<
        [u8; 32],
    >)
        requires
            old(self).ready_receiver(),
            old(io).wf(),
            r.len() == length,
            length <= usize::MAX - 2 * BLOCK_SIZE,
        ensures
            final(self).ready_receiver(),
            final(io).wf(),
            final(io).incoming == old(io).incoming,
            final(io).read_pos == old(io).read_pos,
            out.len() == length,
            final(self).malicious == old(self).malicious,
            final(io).written() == old(io).written() + u_frames(
                old(self).g0@,
                old(self).g1@,
                r@,
                if old(self).malicious {
                    final(self).local_r@
                } else {
                    Seq::empty()
                },
                length as int,
                frame_count(length as int, old(self).malicious) as nat,
            ),
            forall|n: int|
                0 <= n < length ==> (#[trigger] out[n])@ == t_block(
                    shift(old(self).g0@, frame_off(length as int, n / 2048)),
                    lbs_of(frame_len(length as int, n / 2048)),
                    n % 2048,
                ),
    {
        if self.malicious {
            let mut prg = PRG::new(None, 0);
            let local_r = prg.random_bool_array(2 * NUM_BITS);
            self.recv_pre_with(io, r, length, local_r)
        } else {
            let mut local_r: Vec<bool> = Vec::new();
            let mut i: usize = 0;
            while i < 2 * NUM_BITS
                invariant
                    i <= 2 * NUM_BITS,
                    local_r.len() == i,
                decreases 2 * NUM_BITS - i,
            {
                local_r.push(false);
                i += 1;
            }
            let ghost lr = local_r@;
            let out = self.recv_pre_with(io, r, length, local_r);
            proof {
                lemma_u_frames_data(
                    old(self).g0@,
                    old(self).g1@,
                    r@,
                    lr,
                    Seq::empty(),
                    length as int,
                    data_frames(length as int) as nat,
                );
            }
            out
        }
    }
}

/// The messages of the data blocks do not depend on the choice bits of the consistency check.
pub proof fn lemma_u_frames_data(
    g0: Seq<PRG>,
    g1: Seq<PRG>,
    r: Seq<bool>,
    a: Seq<bool>,
    b: Seq<bool>,
    length: int,
    n: nat,
)
    requires
        n <= data_frames(length),
    ensures
        u_frames(g0, g1, r, a, length, n) == u_frames(g0, g1, r, b, length, n),
    decreases n,
{
    if n > 0 {
        lemma_u_frames_data(g0, g1, r, a, b, length, (n - 1) as nat);
    }
}


/// One half of the check sum of `n` correlations: the exclusive-or of the carry-less products of correlation
/// `i` with coefficient `i`, where the coefficients are the 32-byte blocks of the key stream under `key`
/// from counter `c0` on.
pub open spec fn check_sum(key: Seq<u8>, c0: int, data: Seq<Seq<u8>>, n: nat, h: int) -> Seq<u8>
    decreases n,
{
    if n == 0 {
        zeros(32)
    } else {
        xor_seq(
            check_sum(key, c0, data, (n - 1) as nat, h),
            clmul256(keystream32(key, c0 + 2 * (n - 1)), data[n - 1], h),
        )
    }
}

/// The exclusive-or of the coefficients whose choice bit is set, among the first `n`; beyond the end of
/// `bits` no bit is set.
pub open spec fn select_sum(key: Seq<u8>, c0: int, bits: Seq<bool>, n: nat) -> Seq<u8>
    decreases n,
{
    if n == 0 {
        zeros(32)
    } else if n - 1 < bits.len() && bits[n - 1] {
        xor_seq(select_sum(key, c0, bits, (n - 1) as nat), keystream32(key, c0 + 2 * (n - 1)))
    } else {
        select_sum(key, c0, bits, (n - 1) as nat)
    }
}

/// The number of coefficients that are drawn for `n` correlations: whole inner blocks.
pub open spec fn chi_count(n: int) -> int {
    2048 * ((n + 2047) / 2048)
}

/// Draws the coefficients for `data` from `prg`, an inner block at a time, and gives both halves of the
/// check sum of `data` and the exclusive-or of the coefficients that `bits` selects.
pub fn chi_sums(prg: &mut PRG, data: &Vec<[u8; 32]>, bits: &Vec<bool>) -> (res: ([[u8; 32]; 2], [u8; 32]))
    requires
        data.len() <= usize::MAX - BLOCK_SIZE,
    ensures
        res.0[0]@ == check_sum(old(prg).key@, old(prg).counter as int, views32(data@), data.len() as nat, 0),
        res.0[1]@ == check_sum(old(prg).key@, old(prg).counter as int, views32(data@), data.len() as nat, 1),
        res.1@ == select_sum(old(prg).key@, old(prg).counter as int, bits@, data.len() as nat),
        final(prg).key == old(prg).key,
        final(prg).counter == wrap64(old(prg).counter + 2 * chi_count(data.len() as int)),
{
    let mut lo = [0u8; 32];
    let mut hi = [0u8; 32];
    let mut x = [0u8; 32];
    assert(lo@ =~= zeros(32));
    let ghost key = prg.key@;
    let ghost c0 = prg.counter as int;
    let ghost mut c: int = 0;
    let mut chi: Vec<[u8; 32]> = Vec::new();
    let mut p: usize = BLOCK_SIZE;
    let mut n: usize = 0;
    proof {
        lemma_wrap64(c0);
    }
    while n < data.len()
        invariant
            n <= data.len(),
            data.len() <= usize::MAX - BLOCK_SIZE,
            n == 2048 * (c - 1) + p,
            p <= BLOCK_SIZE,
            c >= 0,
            c == 0 ==> p == BLOCK_SIZE,
            c > 0 ==> p > 0,
            prg.key@ == key,
            key == old(prg).key@,
            prg.key == old(prg).key,
            c0 == old(prg).counter,
            prg.counter == wrap64(c0 + 4096 * c),
            c > 0 ==> chi.len() == BLOCK_SIZE,
            c > 0 ==> forall|q: int|
                0 <= q < BLOCK_SIZE ==> (#[trigger] chi[q])@ == keystream32(key, c0 + 2 * (2048 * (c - 1) + q)),
            lo@ == check_sum(key, c0, views32(data@), n as nat, 0),
            hi@ == check_sum(key, c0, views32(data@), n as nat, 1),
            x@ == select_sum(key, c0, bits@, n as nat),
        decreases data.len() - n,
    {
        if p == BLOCK_SIZE {
            chi = prg.random_32byte_block(BLOCK_SIZE);
            proof {
                assert forall|q: int| 0 <= q < BLOCK_SIZE implies (#[trigger] chi[q])@ == keystream32(
                    key,
                    c0 + 2 * (2048 * c + q),
                ) by {
                    crate::prg::lemma_keystream_wrap(key, c0 + 4096 * c, 2 * q);
                }
                lemma_wrap_add(c0 + 4096 * c, 4096);
                c = c + 1;
            }
            p = 0;
        }
        let ghost lo_before = lo@;
        let ghost hi_before = hi@;
        let ghost x_before = x@;
        let coeff = chi[p];
        assert(coeff@ == keystream32(key, c0 + 2 * n));
        let prod = mul256(&coeff, &data[n]);
        assert(views32(data@)[n as int] == data[n as int]@);
        lo = xor_block(&lo, &prod[0]);
        hi = xor_block(&hi, &prod[1]);
        if n < bits.len() && bits[n] {
            x = xor_block(&x, &coeff);
        }
        proof {
            assert(lo@ == check_sum(key, c0, views32(data@), (n + 1) as nat, 0));
            assert(hi@ == check_sum(key, c0, views32(data@), (n + 1) as nat, 1));
            assert(x@ == select_sum(key, c0, bits@, (n + 1) as nat));
        }
        p += 1;
        n += 1;
    }
    proof {
        lemma_chi_count(n as int, c);
    }
    ([lo, hi], x)
}

/// Adding to a counter that was brought back into 64 bits.
pub proof fn lemma_wrap_add(c: int, d: int)
    ensures
        wrap64(wrap64(c) + d) == wrap64(c + d),
{
    let m = 0x1_0000_0000_0000_0000int;
    vstd::arithmetic::div_mod::lemma_add_mod_noop(c, d, m);
    vstd::arithmetic::div_mod::lemma_add_mod_noop(c % m, d, m);
    vstd::arithmetic::div_mod::lemma_mod_twice(c, m);
}

/// The number of coefficients drawn for `n` correlations is the end of the inner block that holds the last of
/// them.
pub proof fn lemma_chi_count(n: int, c: int)
    requires
        0 <= n,
        2048 * (c - 1) < n <= 2048 * c,
    ensures
        chi_count(n) == 2048 * c,
{
}

/// A copy of a sequence of 16-byte blocks.
pub fn copy_blocks16(v: &Vec<[u8; 16]>) -> (r: Vec<[u8; 16]>)
    ensures
        r@ == v@,
{
    let mut r: Vec<[u8; 16]> = Vec::new();
    let mut i: usize = 0;
    while i < v.len()
        invariant
            i <= v.len(),
            r@ == v@.take(i as int),
        decreases v.len() - i,
    {
        r.push(v[i]);
        assert(v@.take(i as int).push(v@[i as int]) =~= v@.take(i as int + 1));
        i += 1;
    }
    assert(v@.take(v.len() as int) =~= v@);
    r
}

/// The two blocks of a pair, as a sequence.
pub fn pair_to_vec(p: &[[u8; 32]; 2]) -> (r: Vec<[u8; 32]>)
    ensures
        r.len() == 2,
        r[0] == p[0],
        r[1] == p[1],
{
    let mut r: Vec<[u8; 32]> = Vec::new();
    r.push(p[0]);
    r.push(p[1]);
    r
}

/// Whether two pairs of blocks hold the same bytes.
pub fn blocks_eq(a: &[[u8; 32]; 2], b: &[[u8; 32]; 2]) -> (r: bool)
    ensures
        r == (a[0]@ == b[0]@ && a[1]@ == b[1]@),
{
    crate::field::bytes32_eq(&a[0], &b[0]) && crate::field::bytes32_eq(&a[1], &b[1])
}

/// The messages of the consistency check as the sender reads them: the seed of the coefficients, the
/// receiver's `x`, and the two halves of its sum; and the bytes left over.
pub open spec fn parse_check(s: Seq<u8>) -> Result<(Seq<u8>, Seq<u8>, Seq<u8>, Seq<u8>, Seq<u8>), VoleError> {
    match parse_blocks16(s) {
        Err(e) => Err(e),
        Ok(sd) => if sd.len() != 1 {
            Err(VoleError::WireFormat)
        } else {
            let s1 = s.skip(frame_size(s, false) as int);
            match parse_blocks32(s1) {
                Err(e) => Err(e),
                Ok(xs) => if xs.len() != 1 {
                    Err(VoleError::WireFormat)
                } else {
                    let s2 = s1.skip(frame_size(s1, false) as int);
                    match parse_blocks32(s2) {
                        Err(e) => Err(e),
                        Ok(ts) => if ts.len() != 2 {
                            Err(VoleError::WireFormat)
                        } else {
                            Ok((sd[0], xs[0], ts[0], ts[1], s2.skip(frame_size(s2, false) as int)))
                        },
                    }
                },
            }
        },
    }
}

/// One half of the sum that a party forms over its correlations and its extra correlations, with the
/// coefficients that the seed gives.
pub open spec fn party_sum(seed: Seq<u8>, out: Seq<Seq<u8>>, local_out: Seq<Seq<u8>>, h: int) -> Seq<u8> {
    xor_seq(
        check_sum(mix_id(seed, 0), 0, out, out.len(), h),
        check_sum(mix_id(seed, 0), wrap64(2 * chi_count(out.len() as int)), local_out, local_out.len(), h),
    )
}

/// The receiver's `x`: the exclusive-or of the coefficients of the correlations whose choice bit is set.
pub open spec fn receiver_x(seed: Seq<u8>, r: Seq<bool>, local_r: Seq<bool>) -> Seq<u8> {
    xor_seq(
        select_sum(mix_id(seed, 0), 0, r, r.len()),
        select_sum(mix_id(seed, 0), wrap64(2 * chi_count(r.len() as int)), local_r, BLOCK_SIZE as nat),
    )
}

impl IKNP {
    /// The sender's side of the consistency check: with the coefficients of the receiver's seed, the sum
    /// over the sender's correlations, plus `delta * x`, must be the receiver's sum, in both halves.
    pub fn send_check(&mut self, io: &mut CommunicationChannel, out: &Vec<[u8; 32]>, length: usize) -> (r:
        Result<bool, VoleError>)
        requires
            old(self).ready_sender(),
            old(io).wf(),
            out.len() == length,
            length <= usize::MAX - BLOCK_SIZE,
        ensures
            final(io).wf(),
            *final(self) == *old(self),
            final(io).outgoing == old(io).outgoing,
            final(io).flushed == old(io).flushed,
            match parse_check(old(io).unread()) {
                Err(e) => r == Err::<bool, VoleError>(e),
                Ok((seed, x, t0, t1, rest)) => {
                    &&& final(io).unread() == rest
                    &&& r == Ok::<bool, VoleError>(
                        xor_seq(
                            party_sum(seed, views32(out@), views32(old(self).local_out@), 0),
                            clmul256(x, old(self).delta.unwrap()@, 0),
                        ) == t0 && xor_seq(
                            party_sum(seed, views32(out@), views32(old(self).local_out@), 1),
                            clmul256(x, old(self).delta.unwrap()@, 1),
                        ) == t1,
                    )
                },
            },
    {
        let sd = io.receive_data()?;
        if sd.len() != 1 {
            return Err(VoleError::WireFormat);
        }
        let xs = io.receive_32byte_block()?;
        if xs.len() != 1 {
            return Err(VoleError::WireFormat);
        }
        let ts = io.receive_32byte_block()?;
        if ts.len() != 2 {
            return Err(VoleError::WireFormat);
        }
        let seed = sd[0];
        let mut chi_prg = PRG::new(Some(&seed), 0);
        let none: Vec<bool> = Vec::new();
        let (q, _) = chi_sums(&mut chi_prg, out, &none);
        let (q2, _) = chi_sums(&mut chi_prg, &self.local_out, &none);
        let delta = match self.delta {
            Some(d) => d,
            None => [0u8; 32],
        };
        let d = mul256(&xs[0], &delta);
        let mut acc = pair_to_vec(&q);
        xor_blocks(&mut acc, &pair_to_vec(&q2));
        xor_blocks(&mut acc, &pair_to_vec(&d));
        let t = [ts[0], ts[1]];
        let mine = [acc[0], acc[1]];
        proof {
            assert(crate::comm_channel::views16(sd@)[0] == sd[0]@);
            assert(views32(xs@)[0] == xs[0]@);
            assert(views32(ts@)[0] == ts[0]@);
            assert(views32(ts@)[1] == ts[1]@);
        }
        Ok(blocks_eq(&mine, &t))
    }

    /// The receiver's side of the consistency check with a seed of the caller's: sends the seed, then `x`,
    /// then both halves of the sum over the receiver's correlations.
    pub fn recv_check_with(
        &mut self,
        io: &mut CommunicationChannel,
        out: &Vec<[u8; 32]>,
        r: &Vec<bool>,
        length: usize,
        seed: [u8; 16],
    )
        requires
            old(self).ready_receiver(),
            old(io).wf(),
            out.len() == length,
            r.len() == length,
            length <= usize::MAX - BLOCK_SIZE,
        ensures
            final(io).wf(),
            *final(self) == *old(self),
            final(io).incoming == old(io).incoming,
            final(io).read_pos == old(io).read_pos,
            final(io).written() == old(io).written() + blocks16_frame(seq![seed@]) + blocks32_frame(
                seq![receiver_x(seed@, r@, old(self).local_r@)],
            ) + blocks32_frame(
                seq![
                    party_sum(seed@, views32(out@), views32(old(self).local_out@), 0),
                    party_sum(seed@, views32(out@), views32(old(self).local_out@), 1),
                ],
            ),
    {
        let mut sd: Vec<[u8; 16]> = Vec::new();
        sd.push(seed);
        io.send_data(&sd);
        io.flush();
        let mut chi_prg = PRG::new(Some(&seed), 0);
        let (t, x) = chi_sums(&mut chi_prg, out, r);
        let (t2, x2) = chi_sums(&mut chi_prg, &self.local_out, &self.local_r);
        let mut xs: Vec<[u8; 32]> = Vec::new();
        xs.push(xor_block(&x, &x2));
        let mut ts = pair_to_vec(&t);
        xor_blocks(&mut ts, &pair_to_vec(&t2));
        io.send_32byte_block(&xs);
        io.send_32byte_block(&ts);
        proof {
            assert(crate::comm_channel::views16(sd@) =~= seq![seed@]);
            assert(views32(xs@) =~= seq![receiver_x(seed@, r@, self.local_r@)]);
            assert(views32(ts@) =~= seq![
                party_sum(seed@, views32(out@), views32(self.local_out@), 0),
                party_sum(seed@, views32(out@), views32(self.local_out@), 1),
            ]);
        }
    }

    /// The receiver's side of the consistency check, with a random seed.
    pub fn recv_check(&mut self, io: &mut CommunicationChannel, out: &Vec<[u8; 32]>, r: &Vec<bool>, length: usize)
        requires
            old(self).ready_receiver(),
            old(io).wf(),
            out.len() == length,
            r.len() == length,
            length <= usize::MAX - BLOCK_SIZE,
        ensures
            final(io).wf(),
            *final(self) == *old(self),
            final(io).incoming == old(io).incoming,
            final(io).read_pos == old(io).read_pos,
            exists|seed: Seq<u8>|
                final(io).written() == old(io).written() + blocks16_frame(seq![seed]) + blocks32_frame(
                    seq![receiver_x(seed, r@, old(self).local_r@)],
                ) + blocks32_frame(
                    seq![
                        party_sum(seed, views32(out@), views32(old(self).local_out@), 0),
                        party_sum(seed, views32(out@), views32(old(self).local_out@), 1),
                    ],
                ),
    {
        let mut prg = PRG::new(None, 0);
        let seeds = prg.random_block(1);
        let seed = seeds[0];
        self.recv_check_with(io, out, r, length, seed);
    }
}


/// The sender's correlations of an extension, as the receiver's messages `frames` determine them.
pub open spec fn q_data(g0: Seq<PRG>, s: Seq<bool>, frames: Seq<Seq<Seq<u8>>>, length: int) -> Seq<Seq<u8>> {
    Seq::new(
        length as nat,
        |n: int|
            q_block(
                shift(g0, frame_off(length, n / 2048)),
                s,
                frames[n / 2048],
                lbs_of(frame_len(length, n / 2048)),
                n % 2048,
            ),
    )
}

/// The sender's extra correlations for the consistency check.
pub open spec fn q_extra(g0: Seq<PRG>, s: Seq<bool>, frames: Seq<Seq<Seq<u8>>>, length: int) -> Seq<Seq<u8>> {
    Seq::new(
        BLOCK_SIZE as nat,
        |j: int|
            q_block(shift(g0, frame_off(length, data_frames(length))), s, frames[data_frames(length)], 512, j),
    )
}

/// The receiver's correlations of an extension.
pub open spec fn t_data(g0: Seq<PRG>, length: int) -> Seq<Seq<u8>> {
    Seq::new(
        length as nat,
        |n: int|
            t_block(shift(g0, frame_off(length, n / 2048)), lbs_of(frame_len(length, n / 2048)), n % 2048),
    )
}

/// The receiver's extra correlations for the consistency check.
pub open spec fn t_extra(g0: Seq<PRG>, length: int) -> Seq<Seq<u8>> {
    Seq::new(BLOCK_SIZE as nat, |j: int| t_block(shift(g0, frame_off(length, data_frames(length))), 512, j))
}

/// Correlations that are the sender's one by one are the sender's as a whole.
pub proof fn lemma_q_data(data: Seq<[u8; 32]>, g0: Seq<PRG>, s: Seq<bool>, frames: Seq<Seq<Seq<u8>>>, length: int)
    requires
        data.len() == length,
        forall|n: int|
            0 <= n < length ==> (#[trigger] data[n])@ == q_block(
                shift(g0, frame_off(length, n / 2048)),
                s,
                frames[n / 2048],
                lbs_of(frame_len(length, n / 2048)),
                n % 2048,
            ),
    ensures
        views32(data) == q_data(g0, s, frames, length),
{
    assert(views32(data) =~= q_data(g0, s, frames, length));
}

/// Extra correlations that are the sender's one by one are the sender's as a whole.
pub proof fn lemma_q_extra(
    extra: Seq<[u8; 32]>,
    g0: Seq<PRG>,
    s: Seq<bool>,
    frames: Seq<Seq<Seq<u8>>>,
    length: int,
)
    requires
        extra.len() == BLOCK_SIZE,
        forall|j: int|
            0 <= j < BLOCK_SIZE ==> (#[trigger] extra[j])@ == q_block(
                shift(g0, frame_off(length, data_frames(length))),
                s,
                frames[data_frames(length)],
                512,
                j,
            ),
    ensures
        views32(extra) == q_extra(g0, s, frames, length),
{
    assert(views32(extra) =~= q_extra(g0, s, frames, length));
}

/// Whether the sender accepts the receiver's check values.
pub open spec fn check_ok(
    seed: Seq<u8>,
    x: Seq<u8>,
    t0: Seq<u8>,
    t1: Seq<u8>,
    data: Seq<Seq<u8>>,
    extra: Seq<Seq<u8>>,
    delta: Seq<u8>,
) -> bool {
    xor_seq(party_sum(seed, data, extra, 0), clmul256(x, delta, 0)) == t0 && xor_seq(
        party_sum(seed, data, extra, 1),
        clmul256(x, delta, 1),
    ) == t1
}

/// What the sender of an extension gets out of the unread bytes: its correlations and the bytes left over,
/// or the error. With the consistency check switched on, a check that fails is a `MaliciousAbort`.
pub open spec fn send_cot_spec(
    g0: Seq<PRG>,
    s: Seq<bool>,
    delta: Seq<u8>,
    malicious: bool,
    unread: Seq<u8>,
    length: int,
) -> Result<(Seq<Seq<u8>>, Seq<u8>), VoleError> {
    match parse_u_frames(unread, frame_count(length, malicious) as nat) {
        Err(e) => Err(e),
        Ok((frames, rest)) => if !malicious {
            Ok((q_data(g0, s, frames, length), rest))
        } else {
            match parse_check(rest) {
                Err(e) => Err(e),
                Ok((seed, x, t0, t1, rest2)) => if check_ok(
                    seed,
                    x,
                    t0,
                    t1,
                    q_data(g0, s, frames, length),
                    q_extra(g0, s, frames, length),
                    delta,
                ) {
                    Ok((q_data(g0, s, frames, length), rest2))
                } else {
                    Err(VoleError::MaliciousAbort)
                },
            }
        },
    }
}

/// What the receiver of an extension writes for its choice bits `r`: its messages for the inner blocks
/// and, with the consistency check switched on, for the extra correlations with the choice bits
/// `local_r`, and then the check values for `seed`.
pub open spec fn receiver_writes(
    g0: Seq<PRG>,
    g1: Seq<PRG>,
    r: Seq<bool>,
    local_r: Seq<bool>,
    seed: Seq<u8>,
    malicious: bool,
    length: int,
) -> Seq<u8> {
    u_frames(g0, g1, r, local_r, length, frame_count(length, malicious) as nat) + (if malicious {
        blocks16_frame(seq![seed]) + blocks32_frame(seq![receiver_x(seed, r, local_r)]) + blocks32_frame(
            seq![
                party_sum(seed, t_data(g0, length), t_extra(g0, length), 0),
                party_sum(seed, t_data(g0, length), t_extra(g0, length), 1),
            ],
        )
    } else {
        Seq::<u8>::empty()
    })
}

/// Whether the generators are those that the keys and the sender's choice bits give.
pub open spec fn sender_gens(g0: Seq<PRG>, k0: Seq<[u8; 16]>, s: Seq<bool>) -> bool {
    &&& g0.len() == NUM_BITS
    &&& forall|i: int|
        0 <= i < NUM_BITS ==> (#[trigger] g0[i]).counter == 0 && g0[i].key@ == mix_id(
            k0[i]@,
            (i + if s[i] {
                256int
            } else {
                0int
            }) as u64,
        )
}

/// The generators that the keys opened in the base transfers and the sender's choice bits give: generator
/// `i` is keyed by key `i` with the id `i`, or `i + 256` where the choice bit is set, and stands at the
/// start of its key stream.
pub open spec fn sender_generators(keys: Seq<Seq<u8>>, s: Seq<bool>) -> Seq<PRG> {
    choose|g: Seq<PRG>| keyed_by(g, keys, s)
}

/// Whether generator `i` is keyed by key `i` with the id that the choice bit gives, and stands at the
/// start of its key stream.
pub open spec fn keyed_by(g: Seq<PRG>, keys: Seq<Seq<u8>>, s: Seq<bool>) -> bool {
    &&& g.len() == NUM_BITS
    &&& forall|i: int|
        0 <= i < NUM_BITS ==> (#[trigger] g[i]).counter == 0 && g[i].key@ == mix_id(
            keys[i],
            (i + if s[i] {
                256int
            } else {
                0int
            }) as u64,
        )
}

/// The generators that a sender installs are those that its keys and its choice bits give: there is one
/// such family only.
pub proof fn lemma_sender_generators(g0: Seq<PRG>, k0: Seq<[u8; 16]>, s: Seq<bool>)
    requires
        k0.len() == NUM_BITS,
        sender_gens(g0, k0, s),
    ensures
        g0 == sender_generators(views16(k0), s),
{
    let keys = views16(k0);
    assert(keyed_by(g0, keys, s)) by {
        assert forall|i: int| 0 <= i < NUM_BITS implies keys[i] == k0[i]@ by {}
    }
    let h = sender_generators(keys, s);
    assert(keyed_by(h, keys, s));
    assert forall|i: int| 0 <= i < NUM_BITS implies h[i] == g0[i] by {
        assert(h[i].counter == g0[i].counter);
        assert(h[i].key@ == g0[i].key@);
        assert(h[i].key =~= g0[i].key);
    }
    assert(h =~= g0);
}

/// Whether the generators are those that the receiver's two families of keys give.
pub open spec fn receiver_gens(g0: Seq<PRG>, g1: Seq<PRG>, k0: Seq<[u8; 16]>, k1: Seq<[u8; 16]>) -> bool {
    &&& g0.len() == NUM_BITS
    &&& g1.len() == NUM_BITS
    &&& forall|i: int|
        0 <= i < NUM_BITS ==> (#[trigger] g0[i]).counter == 0 && g0[i].key@ == mix_id(k0[i]@, i as u64)
    &&& forall|i: int|
        0 <= i < NUM_BITS ==> (#[trigger] g1[i]).counter == 0 && g1[i].key@ == mix_id(k1[i]@, (i + 256) as u64)
}

impl IKNP {
    /// A party that has not been set up.
    pub fn new(malicious: bool) -> (r: Self)
        ensures
            r.wf(),
            !r.setup,
            r.malicious == malicious,
            r.delta.is_none(),
            r.base_ot.scalars.len() == 0,
            r.base_ot.choices.len() == 0,
    {
        let mut s: Vec<bool> = Vec::new();
        let mut k0: Vec<[u8; 16]> = Vec::new();
        let mut k1: Vec<[u8; 16]> = Vec::new();
        let mut i: usize = 0;
        while i < NUM_BITS
            invariant
                i <= NUM_BITS,
                s.len() == i,
                k0.len() == i,
                k1.len() == i,
            decreases NUM_BITS - i,
        {
            s.push(false);
            k0.push([0u8; 16]);
            k1.push([0u8; 16]);
            i += 1;
        }
        let mut local_r: Vec<bool> = Vec::new();
        let mut j: usize = 0;
        while j < 2 * NUM_BITS
            invariant
                j <= 2 * NUM_BITS,
                local_r.len() == j,
            decreases 2 * NUM_BITS - j,
        {
            local_r.push(false);
            j += 1;
        }
        let mut local_out: Vec<[u8; 32]> = Vec::new();
        let mut m: usize = 0;
        while m < BLOCK_SIZE
            invariant
                m <= BLOCK_SIZE,
                local_out.len() == m,
            decreases BLOCK_SIZE - m,
        {
            local_out.push([0u8; 32]);
            m += 1;
        }
        IKNP {
            base_ot: OTCO::new(),
            delta: None,
            setup: false,
            s,
            local_r,
            local_out,
            g0: Vec::new(),
            g1: Vec::new(),
            malicious,
            k0,
            k1,
        }
    }

    /// Makes the sender's generators from its keys and choice bits, and its correlation key from the choice
    /// bits.
    fn install_sender(&mut self)
        requires
            old(self).wf(),
        ensures
            final(self).ready_sender(),
            sender_gens(final(self).g0@, old(self).k0@, old(self).s@),
            final(self).delta.unwrap()@ == delta_of(old(self).s@),
            *final(self) == (IKNP { g0: final(self).g0, delta: final(self).delta, setup: true, ..*old(self) }),
    {
        let mut g0: Vec<PRG> = Vec::new();
        let mut i: usize = 0;
        while i < NUM_BITS
            invariant
                i <= NUM_BITS,
                self.wf(),
                *self == *old(self),
                g0.len() == i,
                forall|j: int|
                    0 <= j < i ==> (#[trigger] g0[j]).counter == 0 && g0[j].key@ == mix_id(
                        self.k0[j]@,
                        (j + if self.s[j] {
                            256int
                        } else {
                            0int
                        }) as u64,
                    ),
            decreases NUM_BITS - i,
        {
            let id: u64 = if self.s[i] {
                (i + NUM_BITS) as u64
            } else {
                i as u64
            };
            g0.push(PRG::new(Some(&self.k0[i]), id));
            i += 1;
        }
        let delta = crate::block::bool_to_block(self.s.as_slice());
        proof {
            let f = |i: int| self.s@[i];
            assert forall|m: int| 0 <= m < 256 implies bit_at(delta@, m) == f(m) by {}
            lemma_block_is_from_bits(delta@, f);
        }
        self.g0 = g0;
        self.delta = Some(delta);
        self.setup = true;
    }

    /// Makes the receiver's two families of generators from its keys.
    fn install_receiver(&mut self)
        requires
            old(self).wf(),
        ensures
            final(self).ready_receiver(),
            receiver_gens(final(self).g0@, final(self).g1@, old(self).k0@, old(self).k1@),
            *final(self) == (IKNP { g0: final(self).g0, g1: final(self).g1, setup: true, ..*old(self) }),
    {
        let mut g0: Vec<PRG> = Vec::new();
        let mut g1: Vec<PRG> = Vec::new();
        let mut i: usize = 0;
        while i < NUM_BITS
            invariant
                i <= NUM_BITS,
                self.wf(),
                *self == *old(self),
                g0.len() == i,
                g1.len() == i,
                forall|j: int|
                    0 <= j < i ==> (#[trigger] g0[j]).counter == 0 && g0[j].key@ == mix_id(self.k0[j]@, j as u64),
                forall|j: int|
                    0 <= j < i ==> (#[trigger] g1[j]).counter == 0 && g1[j].key@ == mix_id(
                        self.k1[j]@,
                        (j + 256) as u64,
                    ),
            decreases NUM_BITS - i,
        {
            g0.push(PRG::new(Some(&self.k0[i]), i as u64));
            g1.push(PRG::new(Some(&self.k1[i]), (i + NUM_BITS) as u64));
            i += 1;
        }
        self.g0 = g0;
        self.g1 = g1;
        self.setup = true;
    }

    /// The sender's setup. With keys given, the party is set up at once and the result is `true`. Without,
    /// the party takes the first step of the base transfers as their receiver, its choice bits being `s`,
    /// and the result is `false`: `setup_send_finish` completes the setup once the peer has answered.
    /// Without choice bits, random ones are drawn.
    pub fn setup_send(
        &mut self,
        io: &mut CommunicationChannel,
        in_s: Option<&Vec<bool>>,
        in_k0: Option<&Vec<[u8; 16]>>,
    ) -> (r: Result<bool, VoleError>)
        requires
            old(self).wf(),
            old(io).wf(),
            in_s matches Some(s) ==> s.len() == NUM_BITS,
            in_k0 matches Some(k) ==> k.len() == NUM_BITS,
        ensures
            final(self).wf(),
            final(io).wf(),
            final(self).malicious == old(self).malicious,
            final(self).local_out == old(self).local_out,
            in_s matches Some(s) ==> final(self).s@ == s@,
            in_k0 matches Some(k) ==> r == Ok::<bool, VoleError>(true) && final(self).ready_sender() && final(self).k0@ == k@ && sender_gens(final(self).g0@, k@, final(self).s@) && final(self).delta.unwrap()@
                == delta_of(final(self).s@) && *final(io) == *old(io),
            in_k0 is None ==> !final(self).setup && match parse_point(old(io).unread()) {
                Err(e) => r == Err::<bool, VoleError>(e),
                Ok(a) => if !crate::ot::uncompressed(a) {
                    r == Err::<bool, VoleError>(VoleError::InvalidEncoding)
                } else {
                    (r.is_ok() ==> r == Ok::<bool, VoleError>(false)) && exists|bs: Seq<Seq<u8>>|
                        bs.len() == NUM_BITS && #[trigger] crate::ot::receiver_start(
                            a,
                            bs,
                            final(self).s@,
                            crate::ot::failure(r),
                            final(self).base_ot,
                            old(io).unread(),
                            final(io).unread(),
                            old(io).written(),
                            final(io).written(),
                        )
                },
            },
    {
        match in_s {
            Some(s) => {
                self.s = s.clone();
                assert(self.s@ =~= s@);
            },
            None => {
                let mut prg = PRG::new(None, 0);
                self.s = prg.random_bool_array(NUM_BITS);
            },
        }
        match in_k0 {
            Some(k) => {
                self.k0 = copy_blocks16(k);
                self.install_sender();
                Ok(true)
            },
            None => {
                self.setup = false;
                let s = self.s.clone();
                assert(s@ =~= self.s@);
                let started = self.base_ot.recv_start(io, &s);
                let r: Result<bool, VoleError> = match started {
                    Ok(()) => Ok(false),
                    Err(e) => Err(e),
                };
                proof {
                    match parse_point(old(io).unread()) {
                        Ok(a) => {
                            if crate::ot::uncompressed(a) {
                                let bs = choose|bs: Seq<Seq<u8>>|
                                    bs.len() == s.len() && #[trigger] crate::ot::receiver_start(
                                        a,
                                        bs,
                                        s@,
                                        crate::ot::failure(started),
                                        self.base_ot,
                                        old(io).unread(),
                                        io.unread(),
                                        old(io).written(),
                                        io.written(),
                                    );
                                assert(crate::ot::failure(r) == crate::ot::failure(started));
                                assert(crate::ot::receiver_start(
                                    a,
                                    bs,
                                    self.s@,
                                    crate::ot::failure(r),
                                    self.base_ot,
                                    old(io).unread(),
                                    io.unread(),
                                    old(io).written(),
                                    io.written(),
                                ));
                            }
                        },
                        Err(e) => {},
                    }
                }
                r
            },
        }
    }

    /// The end of the sender's setup: reads the ciphertexts of the base transfers, opens the chosen ones,
    /// and makes the generators from them.
    pub fn setup_send_finish(&mut self, io: &mut CommunicationChannel) -> (r: Result<(), VoleError>)
        requires
            old(self).wf(),
            old(io).wf(),
            old(self).base_ot.scalars.len() == NUM_BITS,
            old(self).base_ot.choices@ == old(self).s@,
        ensures
            final(self).wf(),
            final(io).wf(),
            final(io).outgoing == old(io).outgoing,
            final(self).malicious == old(self).malicious,
            match parse_blocks16(old(io).unread()) {
                Err(e) => r == Err::<(), VoleError>(e),
                Ok(cts) => if cts.len() != 2 * NUM_BITS {
                    r == Err::<(), VoleError>(VoleError::WireFormat)
                } else {
                    match crate::ot::receiver_outputs(
                        old(self).base_ot.point_a@,
                        crate::ot::scalar_views(old(self).base_ot.scalars@),
                        old(self).base_ot.choices@,
                        cts,
                    ) {
                        Err(e) => r == Err::<(), VoleError>(e),
                        Ok(keys) => {
                            &&& r == Ok::<(), VoleError>(())
                            &&& final(self).ready_sender()
                            &&& crate::comm_channel::views16(final(self).k0@) == keys
                            &&& sender_gens(final(self).g0@, final(self).k0@, old(self).s@)
                            &&& final(self).delta.unwrap()@ == delta_of(old(self).s@)
                            &&& *final(self) == (IKNP {
                                g0: final(self).g0,
                                k0: final(self).k0,
                                delta: final(self).delta,
                                setup: true,
                                ..*old(self)
                            })
                            &&& final(io).unread() == old(io).unread().skip(
                                frame_size(old(io).unread(), false) as int,
                            )
                        },
                    }
                },
            },
    {
        let keys = self.base_ot.recv(io)?;
        proof {
            crate::collect::lemma_collect_ok(
                |i: int|
                    crate::ot::receiver_output(
                        self.base_ot.point_a@,
                        crate::ot::scalar_views(self.base_ot.scalars@),
                        self.base_ot.choices@,
                        parse_blocks16(old(io).unread()).unwrap(),
                        i,
                    ),
                NUM_BITS as nat,
            );
        }
        self.k0 = keys;
        self.install_sender();
        Ok(())
    }

    /// The receiver's setup. With both families of keys given, the party is set up at once and the result is
    /// `true`. Without, the party draws random keys and takes the first step of the base transfers as their
    /// sender, and the result is `false`: `setup_recv_finish` completes the setup once the peer has
    /// answered.
    pub fn setup_recv(
        &mut self,
        io: &mut CommunicationChannel,
        in_k0: Option<&Vec<[u8; 16]>>,
        in_k1: Option<&Vec<[u8; 16]>>,
    ) -> (r: bool)
        requires
            old(self).wf(),
            old(io).wf(),
            in_k0 matches Some(k) ==> k.len() == NUM_BITS,
            in_k1 matches Some(k) ==> k.len() == NUM_BITS,
        ensures
            final(self).wf(),
            final(io).wf(),
            final(io).incoming == old(io).incoming,
            final(io).read_pos == old(io).read_pos,
            final(self).malicious == old(self).malicious,
            final(self).local_out == old(self).local_out,
            final(self).local_r == old(self).local_r,
            r == (in_k0.is_some() && in_k1.is_some()),
            r ==> final(self).ready_receiver() && final(self).k0@ == in_k0.unwrap()@ && final(self).k1@
                == in_k1.unwrap()@ && receiver_gens(
                final(self).g0@,
                final(self).g1@,
                final(self).k0@,
                final(self).k1@,
            ) && *final(io) == *old(io),
            !r ==> !final(self).setup && final(self).base_ot.point_a@ == crate::crypto::p256_base_mul(
                final(self).base_ot.scalar@,
            ) && final(io).written() == old(io).written() + crate::comm_channel::point_frame(
                final(self).base_ot.point_a@,
            ),
    {
        match (in_k0, in_k1) {
            (Some(k0), Some(k1)) => {
                self.k0 = copy_blocks16(k0);
                self.k1 = copy_blocks16(k1);
                self.install_receiver();
                true
            },
            _ => {
                let mut prg = PRG::new(None, 0);
                self.k0 = prg.random_block(NUM_BITS);
                self.k1 = prg.random_block(NUM_BITS);
                self.setup = false;
                self.base_ot.send_start(io);
                false
            },
        }
    }

    /// The end of the receiver's setup: reads the peer's points, sends both keys of every base transfer
    /// under the keys derived from them, and makes the generators.
    pub fn setup_recv_finish(&mut self, io: &mut CommunicationChannel) -> (r: Result<(), VoleError>)
        requires
            old(self).wf(),
            old(io).wf(),
        ensures
            final(self).wf(),
            final(io).wf(),
            final(self).malicious == old(self).malicious,
            match crate::crypto::p256_mul(old(self).base_ot.point_a@, old(self).base_ot.scalar@) {
                None => r == Err::<(), VoleError>(VoleError::InvalidEncoding),
                Some(aa) => match crate::comm_channel::parse_points(old(io).unread(), NUM_BITS as nat) {
                    Err(e) => r == Err::<(), VoleError>(e),
                    Ok((points, rest)) => match crate::ot::sender_ciphertexts(
                        old(self).base_ot.scalar@,
                        aa,
                        points,
                        crate::comm_channel::views16(old(self).k0@),
                        crate::comm_channel::views16(old(self).k1@),
                    ) {
                        Err(e) => r == Err::<(), VoleError>(e),
                        Ok(cts) => {
                            &&& r == Ok::<(), VoleError>(())
                            &&& final(self).ready_receiver()
                            &&& receiver_gens(final(self).g0@, final(self).g1@, old(self).k0@, old(self).k1@)
                            &&& *final(self) == (IKNP {
                                g0: final(self).g0,
                                g1: final(self).g1,
                                setup: true,
                                ..*old(self)
                            })
                            &&& final(io).unread() == rest
                            &&& final(io).written() == old(io).written() + blocks16_frame(cts)
                        },
                    },
                },
            },
    {
        self.base_ot.send(io, &self.k0, &self.k1)?;
        self.install_receiver();
        Ok(())
    }

    /// The sender's part of an extension: the `length` correlations `q`. With the consistency check
    /// switched on, the check is run, and a failure is a `MaliciousAbort`.
    pub fn send_cot(&mut self, io: &mut CommunicationChannel, length: usize) -> (r: Result<
        Vec<[u8; 32]>,
        VoleError,
    >)
        requires
            old(self).ready_sender(),
            old(io).wf(),
            length <= usize::MAX - BLOCK_SIZE,
        ensures
            final(self).ready_sender(),
            final(io).wf(),
            final(io).outgoing == old(io).outgoing,
            final(io).flushed == old(io).flushed,
            *final(self) == (IKNP { g0: final(self).g0, local_out: final(self).local_out, ..*old(self) }),
            match send_cot_spec(
                old(self).g0@,
                old(self).s@,
                old(self).delta.unwrap()@,
                old(self).malicious,
                old(io).unread(),
                length as int,
            ) {
                Err(e) => r == Err::<Vec<[u8; 32]>, VoleError>(e),
                Ok((data, rest)) => r.is_ok() && views32(r.unwrap()@) == data && r.unwrap().len() == length
                    && final(io).unread() == rest && final(self).g0@ == shift(
                    old(self).g0@,
                    frame_off(length as int, frame_count(length as int, old(self).malicious)),
                ),
            },
    {
        let ghost u0 = io.unread();
        let data = self.send_pre(io, length)?;
        proof {
            let frames = parse_u_frames(u0, frame_count(length as int, self.malicious) as nat).unwrap().0;
            lemma_q_data(data@, old(self).g0@, self.s@, frames, length as int);
            if self.malicious {
                lemma_q_extra(self.local_out@, old(self).g0@, self.s@, frames, length as int);
            }
        }
        if self.malicious {
            let ok = self.send_check(io, &data, length)?;
            if !ok {
                return Err(VoleError::MaliciousAbort);
            }
        }
        Ok(data)
    }

    /// The receiver's part of an extension with the random values given by the caller: the `length`
    /// correlations `t` for the choice bits `r`. With the consistency check switched on, the extra
    /// correlations for `local_r` are made and the check values for `seed` are sent.
    pub fn recv_cot_with(
        &mut self,
        io: &mut CommunicationChannel,
        r: &Vec<bool>,
        length: usize,
        local_r: Vec<bool>,
        seed: [u8; 16],
    ) -> (out: Vec<[u8; 32]>)
        requires
            old(self).ready_receiver(),
            old(io).wf(),
            r.len() == length,
            local_r.len() == 2 * NUM_BITS,
            length <= usize::MAX - 2 * BLOCK_SIZE,
        ensures
            final(self).ready_receiver(),
            final(io).wf(),
            final(io).incoming == old(io).incoming,
            final(io).read_pos == old(io).read_pos,
            *final(self) == (IKNP {
                g0: final(self).g0,
                g1: final(self).g1,
                local_out: final(self).local_out,
                local_r: final(self).local_r,
                ..*old(self)
            }),
            views32(out@) == t_data(old(self).g0@, length as int),
            out.len() == length,
            final(self).g0@ == shift(
                old(self).g0@,
                frame_off(length as int, frame_count(length as int, old(self).malicious)),
            ),
            final(self).g1@ == shift(
                old(self).g1@,
                frame_off(length as int, frame_count(length as int, old(self).malicious)),
            ),
            final(io).written() == old(io).written() + receiver_writes(
                old(self).g0@,
                old(self).g1@,
                r@,
                local_r@,
                seed@,
                old(self).malicious,
                length as int,
            ),
            !old(self).malicious ==> final(io).written() == old(io).written() + u_frames(
                old(self).g0@,
                old(self).g1@,
                r@,
                local_r@,
                length as int,
                frame_count(length as int, false) as nat,
            ),
            old(self).malicious ==> final(self).local_r == local_r && views32(final(self).local_out@) == t_extra(
                old(self).g0@,
                length as int,
            ) && final(io).written() == old(io).written() + u_frames(
                old(self).g0@,
                old(self).g1@,
                r@,
                local_r@,
                length as int,
                frame_count(length as int, true) as nat,
            ) + blocks16_frame(seq![seed@]) + blocks32_frame(seq![receiver_x(seed@, r@, local_r@)])
                + blocks32_frame(
                seq![
                    party_sum(seed@, t_data(old(self).g0@, length as int), t_extra(old(self).g0@, length as int), 0),
                    party_sum(seed@, t_data(old(self).g0@, length as int), t_extra(old(self).g0@, length as int), 1),
                ],
            ),
    {
        let ghost lr = local_r@;
        let out = self.recv_pre_with(io, r, length, local_r);
        proof {
            assert(views32(out@) =~= t_data(old(self).g0@, length as int));
            if self.malicious {
                assert(views32(self.local_out@) =~= t_extra(old(self).g0@, length as int));
            }
        }
        if self.malicious {
            self.recv_check_with(io, &out, r, length, seed);
        }
        assert(io.written() =~= old(io).written() + receiver_writes(
            old(self).g0@,
            old(self).g1@,
            r@,
            lr,
            seed@,
            old(self).malicious,
            length as int,
        ));
        out
    }

    /// The receiver's part of an extension: the `length` correlations `t` for the choice bits `r`. The
    /// random values of the consistency check are drawn here: it writes what `recv_cot_with` writes with
    /// some choice bits of the extra correlations and some seed.
    pub fn recv_cot(&mut self, io: &mut CommunicationChannel, r: &Vec<bool>, length: usize) -> (out: Vec<
        [u8; 32],
    >)
        requires
            old(self).ready_receiver(),
            old(io).wf(),
            r.len() == length,
            length <= usize::MAX - 2 * BLOCK_SIZE,
        ensures
            final(self).ready_receiver(),
            final(io).wf(),
            final(io).incoming == old(io).incoming,
            final(io).read_pos == old(io).read_pos,
            final(self).malicious == old(self).malicious,
            *final(self) == (IKNP {
                g0: final(self).g0,
                g1: final(self).g1,
                local_out: final(self).local_out,
                local_r: final(self).local_r,
                ..*old(self)
            }),
            exists|local_r: Seq<bool>, seed: Seq<u8>|
                local_r.len() == 2 * NUM_BITS && final(io).written() == old(io).written() + #[trigger] receiver_writes(
                    old(self).g0@,
                    old(self).g1@,
                    r@,
                    local_r,
                    seed,
                    old(self).malicious,
                    length as int,
                ),
            views32(out@) == t_data(old(self).g0@, length as int),
            out.len() == length,
            final(self).g0@ == shift(
                old(self).g0@,
                frame_off(length as int, frame_count(length as int, old(self).malicious)),
            ),
            final(self).g1@ == shift(
                old(self).g1@,
                frame_off(length as int, frame_count(length as int, old(self).malicious)),
            ),
    {
        let mut prg = PRG::new(None, 0);
        let local_r = prg.random_bool_array(2 * NUM_BITS);
        let seeds = prg.random_block(1);
        let ghost lr = local_r@;
        let out = self.recv_cot_with(io, r, length, local_r, seeds[0]);
        assert(io.written() == old(io).written() + receiver_writes(
            old(self).g0@,
            old(self).g1@,
            r@,
            lr,
            seeds[0]@,
            old(self).malicious,
            length as int,
        ));
        out
    }
}


/// The correlation of an extension. Let the sender's generator `i` be the one of the receiver's two that the
/// sender's choice bit `s[i]` selects, and let the message that the sender read for the inner block of
/// correlation `n` be the one that the receiver made. Then the sender's correlation `n` is the receiver's,
/// plus the key where the receiver's choice bit `n` is set: `q = t ^ r * delta`.
pub proof fn lemma_cot_extension(
    sg0: Seq<PRG>,
    s: Seq<bool>,
    rg0: Seq<PRG>,
    rg1: Seq<PRG>,
    r: Seq<bool>,
    local_r: Seq<bool>,
    frames: Seq<Seq<Seq<u8>>>,
    length: int,
    n: int,
)
    requires
        sg0.len() == 256,
        s.len() == 256,
        rg0.len() == 256,
        rg1.len() == 256,
        r.len() == length,
        0 <= n < length,
        forall|i: int|
            0 <= i < 256 ==> #[trigger] sg0[i] == (if s[i] {
                rg1[i]
            } else {
                rg0[i]
            }),
        frames[n / 2048] == u_blocks(
            shift(rg0, frame_off(length, n / 2048)),
            shift(rg1, frame_off(length, n / 2048)),
            frame_choices(r, local_r, length, n / 2048),
            lbs_of(frame_len(length, n / 2048)),
        ),
    ensures
        q_data(sg0, s, frames, length)[n] == xor_seq(
            t_data(rg0, length)[n],
            crate::block::select_seq(r[n], delta_of(s)),
        ),
{
    let b = n / 2048;
    let j = n % 2048;
    let off = frame_off(length, b);
    let lbs = lbs_of(frame_len(length, b));
    let ch = frame_choices(r, local_r, length, b);
    assert(b < data_frames(length));
    assert(ch == choice_blocks(r, 2048 * b));
    assert forall|i: int| 0 <= i < 256 implies #[trigger] shift(sg0, off)[i] == (if s[i] {
        shift(rg1, off)[i]
    } else {
        shift(rg0, off)[i]
    }) by {
        assert(sg0[i] == (if s[i] {
            rg1[i]
        } else {
            rg0[i]
        }));
    }
    lemma_cot_block(shift(sg0, off), s, shift(rg0, off), shift(rg1, off), ch, lbs, j);
    assert(j < frame_len(length, b));
    assert(j < lbs);
    let c = j / 256;
    let f = |k: int| 2048 * b + 256 * c + k < r.len() && r[2048 * b + 256 * c + k];
    crate::block::lemma_block_from_bits(f, j % 256);
    assert(ch[c] == block_from_bits(f));
    assert(2048 * b + 256 * c + j % 256 == n);
    assert(choice_bit(ch, lbs, j) == r[n]);
}


/// The messages of the first `n` inner blocks of an extension, as sequences of blocks.
pub open spec fn u_messages(
    g0: Seq<PRG>,
    g1: Seq<PRG>,
    r: Seq<bool>,
    local_r: Seq<bool>,
    length: int,
    n: nat,
) -> Seq<Seq<Seq<u8>>> {
    Seq::new(
        n,
        |b: int|
            u_blocks(
                shift(g0, frame_off(length, b)),
                shift(g1, frame_off(length, b)),
                frame_choices(r, local_r, length, b),
                lbs_of(frame_len(length, b)),
            ),
    )
}

/// What the receiver writes for the first `i` inner blocks, followed by anything, reads as those `i`
/// messages, followed by whatever the rest reads as.
proof fn lemma_u_frames_parse(
    g0: Seq<PRG>,
    g1: Seq<PRG>,
    r: Seq<bool>,
    local_r: Seq<bool>,
    length: int,
    i: nat,
    j: nat,
    tail: Seq<u8>,
)
    ensures
        parse_u_frames(u_frames(g0, g1, r, local_r, length, i) + tail, i + j) == prepend(
            u_messages(g0, g1, r, local_r, length, i),
            parse_u_frames(tail, j),
        ),
    decreases i,
{
    if i == 0 {
        assert(u_frames(g0, g1, r, local_r, length, 0) + tail =~= tail);
        match parse_u_frames(tail, j) {
            Ok((qs, rest)) => {
                assert(u_messages(g0, g1, r, local_r, length, 0) + qs =~= qs);
            },
            Err(e) => {},
        }
    } else {
        let k = (i - 1) as nat;
        let blocks = u_messages(g0, g1, r, local_r, length, i)[k as int];
        let frame = u_frame(g0, g1, r, local_r, length, k as int);
        let tail2 = frame + tail;
        assert(u_frames(g0, g1, r, local_r, length, i) + tail =~= u_frames(g0, g1, r, local_r, length, k) + tail2);
        lemma_u_frames_parse(g0, g1, r, local_r, length, k, j + 1, tail2);
        // the last message reads as itself
        assert forall|m: int| 0 <= m < blocks.len() implies (#[trigger] blocks[m]).len() == 32 by {
            crate::block::lemma_block_from_bits(
                |b: int|
                    u_bit(
                        shift(g0, frame_off(length, k as int)),
                        shift(g1, frame_off(length, k as int)),
                        frame_choices(r, local_r, length, k as int),
                        lbs_of(frame_len(length, k as int)),
                        m,
                        b,
                    ),
                0,
            );
        }
        crate::comm_channel::lemma_blocks32_round_trip(blocks, tail);
        assert(parse_u_frame(tail2) == Ok::<Seq<Seq<u8>>, VoleError>(blocks));
        let inner = parse_u_frames(tail, j);
        assert(parse_u_frames(tail2, j + 1) == prepend(seq![blocks], inner));
        let head = u_messages(g0, g1, r, local_r, length, k);
        match inner {
            Ok((qs, rest)) => {
                assert(head + (seq![blocks] + qs) =~= u_messages(g0, g1, r, local_r, length, i) + qs);
            },
            Err(e) => {},
        }
    }
}

/// The low-bit law of an extension over the wire, without the consistency check. Let the sender's generator
/// `i` be the one of the receiver's two that the sender's choice bit `s[i]` selects, and let the sender's
/// unread bytes begin with what the receiver wrote for its choice bits `r`. Then the sender reads the
/// receiver's messages, and every correlation `q` of the sender is the receiver's correlation `t` of the
/// same place, plus the key where the receiver's choice bit is set: `q = t ^ r * delta`.
pub proof fn lemma_cot_over_the_wire(
    sg0: Seq<PRG>,
    s: Seq<bool>,
    rg0: Seq<PRG>,
    rg1: Seq<PRG>,
    r: Seq<bool>,
    local_r: Seq<bool>,
    length: int,
    rest: Seq<u8>,
    n: int,
)
    requires
        sg0.len() == 256,
        s.len() == 256,
        rg0.len() == 256,
        rg1.len() == 256,
        r.len() == length,
        0 <= n < length,
        forall|i: int|
            0 <= i < 256 ==> #[trigger] sg0[i] == (if s[i] {
                rg1[i]
            } else {
                rg0[i]
            }),
    ensures
        send_cot_spec(
            sg0,
            s,
            delta_of(s),
            false,
            u_frames(rg0, rg1, r, local_r, length, frame_count(length, false) as nat) + rest,
            length,
        ) matches Ok((data, left)) && left == rest && data[n] == xor_seq(
            t_data(rg0, length)[n],
            crate::block::select_seq(r[n], delta_of(s)),
        ),
{
    let count = frame_count(length, false) as nat;
    lemma_u_frames_parse(rg0, rg1, r, local_r, length, count, 0, rest);
    let frames = u_messages(rg0, rg1, r, local_r, length, count);
    assert(frames + Seq::<Seq<Seq<u8>>>::empty() =~= frames);
    assert(n / 2048 < count);
    lemma_cot_extension(sg0, s, rg0, rg1, r, local_r, frames, length, n);
}

/// The length of a check sum and of a sum of selected coefficients.
pub proof fn lemma_check_sum_len(key: Seq<u8>, c0: int, data: Seq<Seq<u8>>, bits: Seq<bool>, n: nat, h: int)
    ensures
        check_sum(key, c0, data, n, h).len() == 32,
        select_sum(key, c0, bits, n).len() == 32,
    decreases n,
{
    if n > 0 {
        lemma_check_sum_len(key, c0, data, bits, (n - 1) as nat, h);
    }
}

/// The check sums of correlated data. Let each of the first `n` blocks of `q` be the block of `t` at the
/// same place, plus `delta` where the bit of `r` at that place is set. Then the check sum of `q` is the
/// check sum of `t` plus `delta` times the exclusive-or of the coefficients that `r` selects.
pub proof fn lemma_check_sum_correlated(
    key: Seq<u8>,
    c0: int,
    q: Seq<Seq<u8>>,
    t: Seq<Seq<u8>>,
    r: Seq<bool>,
    delta: Seq<u8>,
    n: nat,
    h: int,
)
    requires
        n <= q.len(),
        n <= t.len(),
        n <= r.len(),
        delta.len() == 32,
        forall|i: int| 0 <= i < n ==> (#[trigger] t[i]).len() == 32,
        forall|i: int| 0 <= i < n ==> #[trigger] q[i] == xor_seq(t[i], crate::block::select_seq(r[i], delta)),
    ensures
        check_sum(key, c0, q, n, h) == xor_seq(
            check_sum(key, c0, t, n, h),
            clmul256(select_sum(key, c0, r, n), delta, h),
        ),
    decreases n,
{
    let zero = zeros(32);
    if n == 0 {
        lemma_clmul256_additive(zero, delta, zero, h);
        crate::block::lemma_xor_seq_cancel(zero, zero);
        lemma_product_len(zero, delta, h);
        crate::block::lemma_xor_seq_cancel(clmul256(zero, delta, h), clmul256(zero, delta, h));
    } else {
        let m = (n - 1) as nat;
        lemma_check_sum_correlated(key, c0, q, t, r, delta, m, h);
        lemma_check_sum_len(key, c0, t, r, m, h);
        let chi = keystream32(key, c0 + 2 * m);
        let st = check_sum(key, c0, t, m, h);
        let sel = select_sum(key, c0, r, m);
        let pt = clmul256(chi, t[m as int], h);
        let pd = clmul256(chi, delta, h);
        let ps = clmul256(sel, delta, h);
        lemma_product_len(chi, t[m as int], h);
        lemma_product_len(chi, delta, h);
        lemma_product_len(sel, delta, h);
        assert(q[m as int] == xor_seq(t[m as int], crate::block::select_seq(r[m as int], delta)));
        if r[m as int] {
            lemma_clmul256_additive(chi, t[m as int], delta, h);
            lemma_clmul256_additive(sel, delta, chi, h);
            assert forall|i: int| 0 <= i < 32 implies (st[i] ^ ps[i]) ^ (pt[i] ^ pd[i]) == (st[i] ^ pt[i]) ^ (
            ps[i] ^ pd[i]) by {
                lemma_byte_regroup(st[i], ps[i], pt[i], pd[i]);
            }
            assert(xor_seq(xor_seq(st, ps), xor_seq(pt, pd)) =~= xor_seq(xor_seq(st, pt), xor_seq(ps, pd)));
        } else {
            crate::block::lemma_xor_seq_cancel(t[m as int], t[m as int]);
            assert(q[m as int] == t[m as int]);
            assert forall|i: int| 0 <= i < 32 implies (st[i] ^ ps[i]) ^ pt[i] == (st[i] ^ pt[i]) ^ ps[i] by {
                lemma_byte_regroup(st[i], ps[i], pt[i], 0);
            }
            assert(xor_seq(xor_seq(st, ps), pt) =~= xor_seq(xor_seq(st, pt), ps));
        }
    }
}

/// Terms of an exclusive-or of bytes may change places.
pub proof fn lemma_byte_regroup(a: u8, b: u8, c: u8, d: u8)
    ensures
        (a ^ b) ^ (c ^ d) == (a ^ c) ^ (b ^ d),
        (a ^ b) ^ c == (a ^ c) ^ b,
        ((a ^ b) ^ (c ^ d)) ^ (b ^ d) == a ^ c,
{
    assert((a ^ b) ^ (c ^ d) == (a ^ c) ^ (b ^ d)) by (bit_vector);
    assert((a ^ b) ^ c == (a ^ c) ^ b) by (bit_vector);
    assert(((a ^ b) ^ (c ^ d)) ^ (b ^ d) == a ^ c) by (bit_vector);
}

/// An honest extension passes the consistency check. Let every correlation of the sender, among its data
/// and its extra correlations alike, be the receiver's of the same place, plus the key where the
/// receiver's choice bit of that place is set: `q = t ^ r * delta`. Then the sender accepts the seed, the
/// `x` and the two halves of the sum that the receiver forms.
pub proof fn lemma_check_accepts(
    seed: Seq<u8>,
    q: Seq<Seq<u8>>,
    q_more: Seq<Seq<u8>>,
    t: Seq<Seq<u8>>,
    t_more: Seq<Seq<u8>>,
    r: Seq<bool>,
    local_r: Seq<bool>,
    delta: Seq<u8>,
)
    requires
        q.len() == t.len(),
        r.len() == t.len(),
        q_more.len() == BLOCK_SIZE,
        t_more.len() == BLOCK_SIZE,
        local_r.len() == BLOCK_SIZE,
        delta.len() == 32,
        forall|i: int| 0 <= i < t.len() ==> (#[trigger] t[i]).len() == 32,
        forall|i: int| 0 <= i < t_more.len() ==> (#[trigger] t_more[i]).len() == 32,
        forall|i: int|
            0 <= i < q.len() ==> #[trigger] q[i] == xor_seq(t[i], crate::block::select_seq(r[i], delta)),
        forall|i: int|
            0 <= i < q_more.len() ==> #[trigger] q_more[i] == xor_seq(
                t_more[i],
                crate::block::select_seq(local_r[i], delta),
            ),
    ensures
        check_ok(
            seed,
            receiver_x(seed, r, local_r),
            party_sum(seed, t, t_more, 0),
            party_sum(seed, t, t_more, 1),
            q,
            q_more,
            delta,
        ),
{
    let key = mix_id(seed, 0);
    let c1 = wrap64(2 * chi_count(q.len() as int));
    let sd = select_sum(key, 0, r, r.len());
    let se = select_sum(key, c1, local_r, BLOCK_SIZE as nat);
    assert forall|h: int| 0 <= h < 2 implies xor_seq(
        party_sum(seed, q, q_more, h),
        clmul256(receiver_x(seed, r, local_r), delta, h),
    ) == party_sum(seed, t, t_more, h) by {
        lemma_check_sum_correlated(key, 0, q, t, r, delta, q.len(), h);
        lemma_check_sum_correlated(key, c1, q_more, t_more, local_r, delta, BLOCK_SIZE as nat, h);
        lemma_check_sum_len(key, 0, t, r, t.len(), h);
        lemma_check_sum_len(key, c1, t_more, local_r, BLOCK_SIZE as nat, h);
        lemma_clmul256_additive(sd, delta, se, h);
        lemma_product_len(sd, delta, h);
        lemma_product_len(se, delta, h);
        let a = check_sum(key, 0, t, t.len(), h);
        let c = check_sum(key, c1, t_more, BLOCK_SIZE as nat, h);
        let b = clmul256(sd, delta, h);
        let d = clmul256(se, delta, h);
        assert forall|i: int| 0 <= i < 32 implies ((a[i] ^ b[i]) ^ (c[i] ^ d[i])) ^ (b[i] ^ d[i]) == a[i]
            ^ c[i] by {
            lemma_byte_regroup(a[i], b[i], c[i], d[i]);
        }
        assert(xor_seq(xor_seq(xor_seq(a, b), xor_seq(c, d)), xor_seq(b, d)) =~= xor_seq(a, c));
    }
}

} // verus!
