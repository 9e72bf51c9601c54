use vstd::prelude::*;
use crate::block::{le_bytes, lemma_le_bytes, lemma_le_nat_bound, lemma_pow256_mono, xor_seq};
use crate::clmul::{clmul256, clmul64_spec, column_spec, hi64, limb_spec, lo64, word_spec};
use crate::field::{le_nat, pow256};

verus! {

/// Exclusive-or on 128-bit words: a word cancels itself, and terms may change places.
pub proof fn lemma_xor128(p: u128, q: u128, x: u128)
    ensures
        0u128 ^ 0u128 == 0u128,
        (p ^ x) ^ (q ^ x) == p ^ q,
        (p ^ x) ^ q == (p ^ q) ^ x,
        p ^ (q ^ x) == (p ^ q) ^ x,
{
    assert(0u128 ^ 0u128 == 0u128) by (bit_vector);
    assert((p ^ x) ^ (q ^ x) == p ^ q) by (bit_vector);
    assert((p ^ x) ^ q == (p ^ q) ^ x) by (bit_vector);
    assert(p ^ (q ^ x) == (p ^ q) ^ x) by (bit_vector);
}

/// The exclusive-or of up to four pairs is the exclusive-or of the first members with that of the second.
pub proof fn lemma_regroup128(p1: u128, q1: u128, p2: u128, q2: u128, p3: u128, q3: u128, p4: u128, q4: u128)
    ensures
        (p1 ^ q1) ^ (p2 ^ q2) == (p1 ^ p2) ^ (q1 ^ q2),
        (p1 ^ q1) ^ (p2 ^ q2) ^ (p3 ^ q3) == (p1 ^ p2 ^ p3) ^ (q1 ^ q2 ^ q3),
        (p1 ^ q1) ^ (p2 ^ q2) ^ (p3 ^ q3) ^ (p4 ^ q4) == (p1 ^ p2 ^ p3 ^ p4) ^ (q1 ^ q2 ^ q3 ^ q4),
{
    assert((p1 ^ q1) ^ (p2 ^ q2) == (p1 ^ p2) ^ (q1 ^ q2)) by (bit_vector);
    assert((p1 ^ q1) ^ (p2 ^ q2) ^ (p3 ^ q3) == (p1 ^ p2 ^ p3) ^ (q1 ^ q2 ^ q3)) by (bit_vector);
    assert((p1 ^ q1) ^ (p2 ^ q2) ^ (p3 ^ q3) ^ (p4 ^ q4) == (p1 ^ p2 ^ p3 ^ p4) ^ (q1 ^ q2 ^ q3 ^ q4))
        by (bit_vector);
}

/// The carry-less product of words is additive in its second factor.
pub proof fn lemma_clmul64_right(a: u64, b: u64, c: u64, n: nat)
    requires
        n <= 64,
    ensures
        clmul64_spec(a, b ^ c, n) == clmul64_spec(a, b, n) ^ clmul64_spec(a, c, n),
    decreases n,
{
    if n == 0 {
        lemma_xor128(0, 0, 0);
    } else {
        let m = (n - 1) as nat;
        lemma_clmul64_right(a, b, c, m);
        let s = (n - 1) as u64;
        let x = (a as u128) << ((n - 1) as u128);
        let pb = clmul64_spec(a, b, m);
        let pc = clmul64_spec(a, c, m);
        assert((((b ^ c) >> s) & 1u64 == 1u64) == (((b >> s) & 1u64 == 1u64) != ((c >> s) & 1u64 == 1u64)))
            by (bit_vector)
            requires
                s < 64,
        ;
        lemma_xor128(pb, pc, x);
    }
}

/// The carry-less product of words is additive in its first factor.
pub proof fn lemma_clmul64_left(a: u64, a2: u64, b: u64, n: nat)
    requires
        n <= 64,
    ensures
        clmul64_spec(a ^ a2, b, n) == clmul64_spec(a, b, n) ^ clmul64_spec(a2, b, n),
    decreases n,
{
    if n == 0 {
        lemma_xor128(0, 0, 0);
    } else {
        let m = (n - 1) as nat;
        lemma_clmul64_left(a, a2, b, m);
        let s = (n - 1) as u128;
        let x = (a as u128) << s;
        let x2 = (a2 as u128) << s;
        let p = clmul64_spec(a, b, m);
        let p2 = clmul64_spec(a2, b, m);
        assert(((a ^ a2) as u128) << s == ((a as u128) << s) ^ ((a2 as u128) << s)) by (bit_vector)
            requires
                s < 64,
        ;
        lemma_regroup128(p, x, p2, x2, 0, 0, 0, 0);
    }
}

/// The number that the exclusive-or of two byte strings of at most eight bytes stands for is the exclusive-or
/// of the two numbers.
pub proof fn lemma_le_nat_xor(a: Seq<u8>, b: Seq<u8>)
    requires
        a.len() == b.len(),
        a.len() <= 8,
    ensures
        le_nat(a) < pow256(a.len()),
        le_nat(b) < pow256(a.len()),
        pow256(a.len()) <= 0x1_0000_0000_0000_0000,
        le_nat(xor_seq(a, b)) == ((le_nat(a) as u64) ^ (le_nat(b) as u64)) as nat,
    decreases a.len(),
{
    lemma_le_nat_bound(a);
    lemma_le_nat_bound(b);
    lemma_pow256_mono(a.len(), 8);
    assert(pow256(8) == 0x1_0000_0000_0000_0000) by {
        reveal_with_fuel(pow256, 9);
    }
    if a.len() == 0 {
        assert(0u64 ^ 0u64 == 0u64) by (bit_vector);
    } else {
        let ar = a.skip(1);
        let br = b.skip(1);
        lemma_le_nat_xor(ar, br);
        lemma_pow256_mono(ar.len(), 7);
        assert(pow256(7) == 0x1_00_0000_0000_0000) by {
            reveal_with_fuel(pow256, 8);
        }
        assert(xor_seq(a, b).skip(1) =~= xor_seq(ar, br));
        let x = le_nat(ar) as u64;
        let y = le_nat(br) as u64;
        let a0 = a[0];
        let b0 = b[0];
        assert(xor_seq(a, b)[0] == a0 ^ b0);
        assert((((a0 as u64) + 256 * x) as u64) ^ (((b0 as u64) + 256 * y) as u64) == (((a0 ^ b0) as u64) + 256 * (x ^ y)) as u64)
            by (bit_vector)
            requires
                x < 0x1_00_0000_0000_0000,
                y < 0x1_00_0000_0000_0000,
        ;
        assert((x ^ y) < 0x1_00_0000_0000_0000) by (bit_vector)
            requires
                x < 0x1_00_0000_0000_0000,
                y < 0x1_00_0000_0000_0000,
        ;
    }
}

/// A word of the exclusive-or of two blocks is the exclusive-or of their words.
pub proof fn lemma_limb_xor(a: Seq<u8>, b: Seq<u8>, k: int)
    requires
        a.len() == 32,
        b.len() == 32,
        0 <= k < 4,
    ensures
        limb_spec(xor_seq(a, b), k) == limb_spec(a, k) ^ limb_spec(b, k),
{
    let x = a.subrange(8 * k, 8 * k + 8);
    let y = b.subrange(8 * k, 8 * k + 8);
    assert(xor_seq(a, b).subrange(8 * k, 8 * k + 8) =~= xor_seq(x, y));
    lemma_le_nat_xor(x, y);
}

/// The bytes of the exclusive-or of two words are the exclusive-ors of their bytes.
pub proof fn lemma_le_bytes_xor(x: u64, y: u64, n: nat)
    ensures
        le_bytes((x ^ y) as nat, n) == xor_seq(le_bytes(x as nat, n), le_bytes(y as nat, n)),
    decreases n,
{
    lemma_le_bytes(x as nat, n);
    lemma_le_bytes(y as nat, n);
    lemma_le_bytes((x ^ y) as nat, n);
    if n == 0 {
        assert(le_bytes((x ^ y) as nat, n) =~= xor_seq(le_bytes(x as nat, n), le_bytes(y as nat, n)));
    } else {
        let m = (n - 1) as nat;
        let x1 = x / 256;
        let y1 = y / 256;
        lemma_le_bytes_xor(x1, y1, m);
        lemma_le_bytes(x1 as nat, m);
        lemma_le_bytes(y1 as nat, m);
        assert((x ^ y) / 256 == (x / 256) ^ (y / 256)) by (bit_vector);
        assert(((x ^ y) % 256) as u8 == ((x % 256) as u8) ^ ((y % 256) as u8)) by (bit_vector);
        let l = le_bytes((x ^ y) as nat, n);
        let r = xor_seq(le_bytes(x as nat, n), le_bytes(y as nat, n));
        assert forall|i: int| 0 <= i < n implies l[i] == r[i] by {
            if i > 0 {
                assert(l[i] == le_bytes((x1 ^ y1) as nat, m)[i - 1]);
                assert(le_bytes(x as nat, n)[i] == le_bytes(x1 as nat, m)[i - 1]);
                assert(le_bytes(y as nat, n)[i] == le_bytes(y1 as nat, m)[i - 1]);
            }
        }
        assert(l =~= r);
    }
}

/// The halves of the exclusive-or of two 128-bit words are the exclusive-ors of their halves.
pub proof fn lemma_halves_xor(x: u128, y: u128)
    ensures
        lo64(x ^ y) == lo64(x) ^ lo64(y),
        hi64(x ^ y) == hi64(x) ^ hi64(y),
{
    assert(((x ^ y) % 0x1_0000_0000_0000_0000) as u64 == ((x % 0x1_0000_0000_0000_0000) as u64) ^ ((y
        % 0x1_0000_0000_0000_0000) as u64)) by (bit_vector);
    assert(((x ^ y) / 0x1_0000_0000_0000_0000) as u64 == ((x / 0x1_0000_0000_0000_0000) as u64) ^ ((y
        / 0x1_0000_0000_0000_0000) as u64)) by (bit_vector);
}

/// A column of the product of blocks is additive in the second block.
pub proof fn lemma_column_right(a: Seq<u8>, b: Seq<u8>, c: Seq<u8>, k: int)
    requires
        b.len() == 32,
        c.len() == 32,
    ensures
        column_spec(a, xor_seq(b, c), k) == column_spec(a, b, k) ^ column_spec(a, c, k),
{
    let a0 = limb_spec(a, 0);
    let a1 = limb_spec(a, 1);
    let a2 = limb_spec(a, 2);
    let a3 = limb_spec(a, 3);
    let b0 = limb_spec(b, 0);
    let b1 = limb_spec(b, 1);
    let b2 = limb_spec(b, 2);
    let b3 = limb_spec(b, 3);
    let c0 = limb_spec(c, 0);
    let c1 = limb_spec(c, 1);
    let c2 = limb_spec(c, 2);
    let c3 = limb_spec(c, 3);
    lemma_limb_xor(b, c, 0);
    lemma_limb_xor(b, c, 1);
    lemma_limb_xor(b, c, 2);
    lemma_limb_xor(b, c, 3);
    if k == 0 {
        lemma_clmul64_right(a0, b0, c0, 64);
    } else if k == 1 {
        lemma_clmul64_right(a0, b1, c1, 64);
        lemma_clmul64_right(a1, b0, c0, 64);
        lemma_regroup128(
            clmul64_spec(a0, b1, 64),
            clmul64_spec(a0, c1, 64),
            clmul64_spec(a1, b0, 64),
            clmul64_spec(a1, c0, 64),
            0,
            0,
            0,
            0,
        );
    } else if k == 2 {
        lemma_clmul64_right(a0, b2, c2, 64);
        lemma_clmul64_right(a1, b1, c1, 64);
        lemma_clmul64_right(a2, b0, c0, 64);
        lemma_regroup128(
            clmul64_spec(a0, b2, 64),
            clmul64_spec(a0, c2, 64),
            clmul64_spec(a1, b1, 64),
            clmul64_spec(a1, c1, 64),
            clmul64_spec(a2, b0, 64),
            clmul64_spec(a2, c0, 64),
            0,
            0,
        );
    } else if k == 3 {
        lemma_clmul64_right(a0, b3, c3, 64);
        lemma_clmul64_right(a1, b2, c2, 64);
        lemma_clmul64_right(a2, b1, c1, 64);
        lemma_clmul64_right(a3, b0, c0, 64);
        lemma_regroup128(
            clmul64_spec(a0, b3, 64),
            clmul64_spec(a0, c3, 64),
            clmul64_spec(a1, b2, 64),
            clmul64_spec(a1, c2, 64),
            clmul64_spec(a2, b1, 64),
            clmul64_spec(a2, c1, 64),
            clmul64_spec(a3, b0, 64),
            clmul64_spec(a3, c0, 64),
        );
    } else if k == 4 {
        lemma_clmul64_right(a1, b3, c3, 64);
        lemma_clmul64_right(a2, b2, c2, 64);
        lemma_clmul64_right(a3, b1, c1, 64);
        lemma_regroup128(
            clmul64_spec(a1, b3, 64),
            clmul64_spec(a1, c3, 64),
            clmul64_spec(a2, b2, 64),
            clmul64_spec(a2, c2, 64),
            clmul64_spec(a3, b1, 64),
            clmul64_spec(a3, c1, 64),
            0,
            0,
        );
    } else if k == 5 {
        lemma_clmul64_right(a2, b3, c3, 64);
        lemma_clmul64_right(a3, b2, c2, 64);
        lemma_regroup128(
            clmul64_spec(a2, b3, 64),
            clmul64_spec(a2, c3, 64),
            clmul64_spec(a3, b2, 64),
            clmul64_spec(a3, c2, 64),
            0,
            0,
            0,
            0,
        );
    } else if k == 6 {
        lemma_clmul64_right(a3, b3, c3, 64);
    } else {
        lemma_xor128(0, 0, 0);
    }
}

/// A column of the product of blocks is additive in the first block.
pub proof fn lemma_column_left(a: Seq<u8>, c: Seq<u8>, b: Seq<u8>, k: int)
    requires
        a.len() == 32,
        c.len() == 32,
    ensures
        column_spec(xor_seq(a, c), b, k) == column_spec(a, b, k) ^ column_spec(c, b, k),
{
    let a0 = limb_spec(a, 0);
    let a1 = limb_spec(a, 1);
    let a2 = limb_spec(a, 2);
    let a3 = limb_spec(a, 3);
    let b0 = limb_spec(b, 0);
    let b1 = limb_spec(b, 1);
    let b2 = limb_spec(b, 2);
    let b3 = limb_spec(b, 3);
    let c0 = limb_spec(c, 0);
    let c1 = limb_spec(c, 1);
    let c2 = limb_spec(c, 2);
    let c3 = limb_spec(c, 3);
    lemma_limb_xor(a, c, 0);
    lemma_limb_xor(a, c, 1);
    lemma_limb_xor(a, c, 2);
    lemma_limb_xor(a, c, 3);
    if k == 0 {
        lemma_clmul64_left(a0, c0, b0, 64);
    } else if k == 1 {
        lemma_clmul64_left(a0, c0, b1, 64);
        lemma_clmul64_left(a1, c1, b0, 64);
        lemma_regroup128(
            clmul64_spec(a0, b1, 64),
            clmul64_spec(c0, b1, 64),
            clmul64_spec(a1, b0, 64),
            clmul64_spec(c1, b0, 64),
            0,
            0,
            0,
            0,
        );
    } else if k == 2 {
        lemma_clmul64_left(a0, c0, b2, 64);
        lemma_clmul64_left(a1, c1, b1, 64);
        lemma_clmul64_left(a2, c2, b0, 64);
        lemma_regroup128(
            clmul64_spec(a0, b2, 64),
            clmul64_spec(c0, b2, 64),
            clmul64_spec(a1, b1, 64),
            clmul64_spec(c1, b1, 64),
            clmul64_spec(a2, b0, 64),
            clmul64_spec(c2, b0, 64),
            0,
            0,
        );
    } else if k == 3 {
        lemma_clmul64_left(a0, c0, b3, 64);
        lemma_clmul64_left(a1, c1, b2, 64);
        lemma_clmul64_left(a2, c2, b1, 64);
        lemma_clmul64_left(a3, c3, b0, 64);
        lemma_regroup128(
            clmul64_spec(a0, b3, 64),
            clmul64_spec(c0, b3, 64),
            clmul64_spec(a1, b2, 64),
            clmul64_spec(c1, b2, 64),
            clmul64_spec(a2, b1, 64),
            clmul64_spec(c2, b1, 64),
            clmul64_spec(a3, b0, 64),
            clmul64_spec(c3, b0, 64),
        );
    } else if k == 4 {
        lemma_clmul64_left(a1, c1, b3, 64);
        lemma_clmul64_left(a2, c2, b2, 64);
        lemma_clmul64_left(a3, c3, b1, 64);
        lemma_regroup128(
            clmul64_spec(a1, b3, 64),
            clmul64_spec(c1, b3, 64),
            clmul64_spec(a2, b2, 64),
            clmul64_spec(c2, b2, 64),
            clmul64_spec(a3, b1, 64),
            clmul64_spec(c3, b1, 64),
            0,
            0,
        );
    } else if k == 5 {
        lemma_clmul64_left(a2, c2, b3, 64);
        lemma_clmul64_left(a3, c3, b2, 64);
        lemma_regroup128(
            clmul64_spec(a2, b3, 64),
            clmul64_spec(c2, b3, 64),
            clmul64_spec(a3, b2, 64),
            clmul64_spec(c3, b2, 64),
            0,
            0,
            0,
            0,
        );
    } else if k == 6 {
        lemma_clmul64_left(a3, c3, b3, 64);
    } else {
        lemma_xor128(0, 0, 0);
    }
}

/// Where every column of one product is the exclusive-or of the columns of two others, so is every half.
pub proof fn lemma_product_from_columns(
    x: Seq<u8>,
    y: Seq<u8>,
    a: Seq<u8>,
    b: Seq<u8>,
    c: Seq<u8>,
    d: Seq<u8>,
    h: int,
)
    requires
        forall|k: int| #[trigger] column_spec(x, y, k) == column_spec(a, b, k) ^ column_spec(c, d, k),
    ensures
        clmul256(x, y, h) == xor_seq(clmul256(a, b, h), clmul256(c, d, h)),
        clmul256(x, y, h).len() == 32,
{
    reveal(clmul256);
    assert forall|k: int| #[trigger] word_spec(x, y, k) == word_spec(a, b, k) ^ word_spec(c, d, k) by {
        let p = column_spec(a, b, k);
        let q = column_spec(c, d, k);
        lemma_halves_xor(p, q);
        if k != 0 {
            let p1 = column_spec(a, b, k - 1);
            let q1 = column_spec(c, d, k - 1);
            lemma_halves_xor(p1, q1);
            let hp = hi64(p1);
            let hq = hi64(q1);
            let lp = lo64(p);
            let lq = lo64(q);
            assert((hp ^ hq) ^ (lp ^ lq) == (hp ^ lp) ^ (hq ^ lq)) by (bit_vector);
        }
    }
    lemma_le_bytes_xor(word_spec(a, b, 4 * h), word_spec(c, d, 4 * h), 8);
    lemma_le_bytes_xor(word_spec(a, b, 4 * h + 1), word_spec(c, d, 4 * h + 1), 8);
    lemma_le_bytes_xor(word_spec(a, b, 4 * h + 2), word_spec(c, d, 4 * h + 2), 8);
    lemma_le_bytes_xor(word_spec(a, b, 4 * h + 3), word_spec(c, d, 4 * h + 3), 8);
    lemma_product_len(x, y, h);
    lemma_product_len(a, b, h);
    lemma_product_len(c, d, h);
    let a0 = le_bytes(word_spec(a, b, 4 * h) as nat, 8);
    let a1 = le_bytes(word_spec(a, b, 4 * h + 1) as nat, 8);
    let a2 = le_bytes(word_spec(a, b, 4 * h + 2) as nat, 8);
    let a3 = le_bytes(word_spec(a, b, 4 * h + 3) as nat, 8);
    let c0 = le_bytes(word_spec(c, d, 4 * h) as nat, 8);
    let c1 = le_bytes(word_spec(c, d, 4 * h + 1) as nat, 8);
    let c2 = le_bytes(word_spec(c, d, 4 * h + 2) as nat, 8);
    let c3 = le_bytes(word_spec(c, d, 4 * h + 3) as nat, 8);
    lemma_le_bytes(word_spec(a, b, 4 * h) as nat, 8);
    lemma_le_bytes(word_spec(a, b, 4 * h + 1) as nat, 8);
    lemma_le_bytes(word_spec(a, b, 4 * h + 2) as nat, 8);
    lemma_le_bytes(word_spec(a, b, 4 * h + 3) as nat, 8);
    lemma_le_bytes(word_spec(c, d, 4 * h) as nat, 8);
    lemma_le_bytes(word_spec(c, d, 4 * h + 1) as nat, 8);
    lemma_le_bytes(word_spec(c, d, 4 * h + 2) as nat, 8);
    lemma_le_bytes(word_spec(c, d, 4 * h + 3) as nat, 8);
    assert(word_spec(x, y, 4 * h) == word_spec(a, b, 4 * h) ^ word_spec(c, d, 4 * h));
    assert(word_spec(x, y, 4 * h + 1) == word_spec(a, b, 4 * h + 1) ^ word_spec(c, d, 4 * h + 1));
    assert(word_spec(x, y, 4 * h + 2) == word_spec(a, b, 4 * h + 2) ^ word_spec(c, d, 4 * h + 2));
    assert(word_spec(x, y, 4 * h + 3) == word_spec(a, b, 4 * h + 3) ^ word_spec(c, d, 4 * h + 3));
    assert(clmul256(x, y, h) == xor_seq(a0, c0) + xor_seq(a1, c1) + xor_seq(a2, c2) + xor_seq(a3, c3));
    let l = xor_seq(a0, c0) + xor_seq(a1, c1) + xor_seq(a2, c2) + xor_seq(a3, c3);
    let r = xor_seq(a0 + a1 + a2 + a3, c0 + c1 + c2 + c3);
    assert forall|i: int| 0 <= i < 32 implies l[i] == r[i] by {
        if i < 8 {
            assert(l[i] == a0[i] ^ c0[i]);
        } else if i < 16 {
            assert(l[i] == a1[i - 8] ^ c1[i - 8]);
        } else if i < 24 {
            assert(l[i] == a2[i - 16] ^ c2[i - 16]);
        } else {
            assert(l[i] == a3[i - 24] ^ c3[i - 24]);
        }
    }
    assert(l =~= r);
}

/// A half of a product is 32 bytes long.
pub proof fn lemma_product_len(a: Seq<u8>, b: Seq<u8>, h: int)
    ensures
        clmul256(a, b, h).len() == 32,
{
    reveal(clmul256);
    lemma_le_bytes(word_spec(a, b, 4 * h) as nat, 8);
    lemma_le_bytes(word_spec(a, b, 4 * h + 1) as nat, 8);
    lemma_le_bytes(word_spec(a, b, 4 * h + 2) as nat, 8);
    lemma_le_bytes(word_spec(a, b, 4 * h + 3) as nat, 8);
}

/// The carry-less product of blocks is additive in each factor:
/// `a * (b ^ c) = a * b ^ a * c` and `(a ^ c) * b = a * b ^ c * b`, in both halves.
pub proof fn lemma_clmul256_additive(a: Seq<u8>, b: Seq<u8>, c: Seq<u8>, h: int)
    requires
        a.len() == 32,
        b.len() == 32,
        c.len() == 32,
    ensures
        clmul256(a, xor_seq(b, c), h) == xor_seq(clmul256(a, b, h), clmul256(a, c, h)),
        clmul256(xor_seq(a, c), b, h) == xor_seq(clmul256(a, b, h), clmul256(c, b, h)),
{
    assert forall|k: int| #[trigger]
        column_spec(a, xor_seq(b, c), k) == column_spec(a, b, k) ^ column_spec(a, c, k) by {
        lemma_column_right(a, b, c, k);
    }
    lemma_product_from_columns(a, xor_seq(b, c), a, b, a, c, h);
    assert forall|k: int| #[trigger]
        column_spec(xor_seq(a, c), b, k) == column_spec(a, b, k) ^ column_spec(c, b, k) by {
        lemma_column_left(a, c, b, k);
    }
    lemma_product_from_columns(xor_seq(a, c), b, a, b, c, b, h);
}

} // verus!
