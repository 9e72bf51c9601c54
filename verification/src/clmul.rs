use vstd::prelude::*;
use crate::block::{le_bytes, u64_from_le, u64_to_le, xor_block, xor_seq, zeros};
use crate::field::le_nat;

verus! {

/// The carry-less product of `a` and the lowest `n` bits of `b`: the exclusive-or of `a << i` over the set
/// bits `i` of `b`.
pub open spec fn clmul64_spec(a: u64, b: u64, n: nat) -> u128
    decreases n,
{
    if n == 0 {
        0u128
    } else {
        let prev = clmul64_spec(a, b, (n - 1) as nat);
        if (b >> ((n - 1) as u64)) & 1u64 == 1u64 {
            prev ^ ((a as u128) << ((n - 1) as u128))
        } else {
            prev
        }
    }
}

/// The carry-less product of two 64-bit words.
pub fn clmul64(a: u64, b: u64) -> (r: u128)
    ensures
        r == clmul64_spec(a, b, 64),
{
    let mut result: u128 = 0;
    let mut i: u32 = 0;
    while i < 64
        invariant
            i <= 64,
            result == clmul64_spec(a, b, i as nat),
        decreases 64 - i,
    {
        if (b >> (i as u64)) & 1u64 == 1u64 {
            result = result ^ ((a as u128) << (i as u128));
        }
        i += 1;
    }
    result
}

/// The 64-bit word that bytes `8 * k` to `8 * k + 7` of a block stand for, lowest byte first.
pub open spec fn limb_spec(block: Seq<u8>, k: int) -> u64 {
    le_nat(block.subrange(8 * k, 8 * k + 8)) as u64
}

/// Word `k` of a 32-byte block.
pub fn limb(block: &[u8; 32], k: usize) -> (r: u64)
    requires
        k < 4,
    ensures
        r == limb_spec(block@, k as int),
{
    let mut b = [0u8; 8];
    let mut i: usize = 0;
    while i < 8
        invariant
            i <= 8,
            k < 4,
            forall|j: int| 0 <= j < i ==> b[j] == block[8 * k + j],
        decreases 8 - i,
    {
        b[i] = block[8 * k + i];
        i += 1;
    }
    assert(b@ =~= block@.subrange(8 * k, 8 * k + 8));
    u64_from_le(&b)
}

/// The part of the product of two blocks at weight `x^(64 * k)`: the exclusive-or of the products of the
/// words whose positions add up to `k`.
pub open spec fn column_spec(a: Seq<u8>, b: Seq<u8>, k: int) -> u128 {
    let a0 = limb_spec(a, 0);
    let a1 = limb_spec(a, 1);
    let a2 = limb_spec(a, 2);
    let a3 = limb_spec(a, 3);
    let b0 = limb_spec(b, 0);
    let b1 = limb_spec(b, 1);
    let b2 = limb_spec(b, 2);
    let b3 = limb_spec(b, 3);
    if k == 0 {
        clmul64_spec(a0, b0, 64)
    } else if k == 1 {
        clmul64_spec(a0, b1, 64) ^ clmul64_spec(a1, b0, 64)
    } else if k == 2 {
        clmul64_spec(a0, b2, 64) ^ clmul64_spec(a1, b1, 64) ^ clmul64_spec(a2, b0, 64)
    } else if k == 3 {
        clmul64_spec(a0, b3, 64) ^ clmul64_spec(a1, b2, 64) ^ clmul64_spec(a2, b1, 64) ^ clmul64_spec(a3, b0, 64)
    } else if k == 4 {
        clmul64_spec(a1, b3, 64) ^ clmul64_spec(a2, b2, 64) ^ clmul64_spec(a3, b1, 64)
    } else if k == 5 {
        clmul64_spec(a2, b3, 64) ^ clmul64_spec(a3, b2, 64)
    } else if k == 6 {
        clmul64_spec(a3, b3, 64)
    } else {
        0u128
    }
}

/// The lower 64 bits of a 128-bit word.
pub open spec fn lo64(z: u128) -> u64 {
    (z % 0x1_0000_0000_0000_0000) as u64
}

/// The upper 64 bits of a 128-bit word.
pub open spec fn hi64(z: u128) -> u64 {
    (z / 0x1_0000_0000_0000_0000) as u64
}

/// Word `k` of the 512-bit carry-less product of two blocks: the lower half of column `k` and the upper half
/// of column `k - 1`.
pub open spec fn word_spec(a: Seq<u8>, b: Seq<u8>, k: int) -> u64 {
    if k == 0 {
        lo64(column_spec(a, b, 0))
    } else {
        hi64(column_spec(a, b, k - 1)) ^ lo64(column_spec(a, b, k))
    }
}

/// One half of the 512-bit carry-less product of two blocks, which is not reduced: words `4 * h` to
/// `4 * h + 3`, lowest byte first.
#[verifier::opaque]
pub open spec fn clmul256(a: Seq<u8>, b: Seq<u8>, h: int) -> Seq<u8> {
    le_bytes(word_spec(a, b, 4 * h) as nat, 8) + le_bytes(word_spec(a, b, 4 * h + 1) as nat, 8) + le_bytes(
        word_spec(a, b, 4 * h + 2) as nat,
        8,
    ) + le_bytes(word_spec(a, b, 4 * h + 3) as nat, 8)
}

/// The lower half of a 128-bit word.
fn low_word(z: u128) -> (r: u64)
    ensures
        r == lo64(z),
{
    (z % 0x1_0000_0000_0000_0000) as u64
}

/// The upper half of a 128-bit word.
fn high_word(z: u128) -> (r: u64)
    ensures
        r == hi64(z),
{
    (z / 0x1_0000_0000_0000_0000) as u64
}

/// Writes four words into a block, lowest byte first.
fn words_to_block(w0: u64, w1: u64, w2: u64, w3: u64) -> (r: [u8; 32])
    ensures
        r@ == le_bytes(w0 as nat, 8) + le_bytes(w1 as nat, 8) + le_bytes(w2 as nat, 8) + le_bytes(w3 as nat, 8),
{
    let b0 = u64_to_le(w0);
    let b1 = u64_to_le(w1);
    let b2 = u64_to_le(w2);
    let b3 = u64_to_le(w3);
    let mut r = [0u8; 32];
    let mut i: usize = 0;
    while i < 8
        invariant
            i <= 8,
            forall|j: int|
                0 <= j < i ==> r[j] == b0[j] && r[8 + j] == b1[j] && r[16 + j] == b2[j] && r[24 + j] == b3[j],
        decreases 8 - i,
    {
        r[i] = b0[i];
        r[8 + i] = b1[i];
        r[16 + i] = b2[i];
        r[24 + i] = b3[i];
        i += 1;
    }
    assert(r@ =~= b0@ + b1@ + b2@ + b3@);
    r
}

/// The 512-bit carry-less product of two 256-bit blocks, as its lower and its upper half.
pub fn mul256(a: &[u8; 32], b: &[u8; 32]) -> (res: [[u8; 32]; 2])
    ensures
        res[0]@ == clmul256(a@, b@, 0),
        res[1]@ == clmul256(a@, b@, 1),
{
    let a0 = limb(a, 0);
    let a1 = limb(a, 1);
    let a2 = limb(a, 2);
    let a3 = limb(a, 3);
    let b0 = limb(b, 0);
    let b1 = limb(b, 1);
    let b2 = limb(b, 2);
    let b3 = limb(b, 3);
    let z00 = clmul64(a0, b0);
    let z01 = clmul64(a0, b1) ^ clmul64(a1, b0);
    let z02 = clmul64(a0, b2) ^ clmul64(a1, b1) ^ clmul64(a2, b0);
    let z03 = clmul64(a0, b3) ^ clmul64(a1, b2) ^ clmul64(a2, b1) ^ clmul64(a3, b0);
    let z04 = clmul64(a1, b3) ^ clmul64(a2, b2) ^ clmul64(a3, b1);
    let z05 = clmul64(a2, b3) ^ clmul64(a3, b2);
    let z06 = clmul64(a3, b3);
    assert(z00 == column_spec(a@, b@, 0));
    assert(z01 == column_spec(a@, b@, 1));
    assert(z02 == column_spec(a@, b@, 2));
    assert(z03 == column_spec(a@, b@, 3));
    assert(z04 == column_spec(a@, b@, 4));
    assert(z05 == column_spec(a@, b@, 5));
    assert(z06 == column_spec(a@, b@, 6));
    let w0 = low_word(z00);
    let w1 = high_word(z00) ^ low_word(z01);
    let w2 = high_word(z01) ^ low_word(z02);
    let w3 = high_word(z02) ^ low_word(z03);
    let w4 = high_word(z03) ^ low_word(z04);
    let w5 = high_word(z04) ^ low_word(z05);
    let w6 = high_word(z05) ^ low_word(z06);
    let w7 = high_word(z06) ^ low_word(0);
    proof {
        reveal(clmul256);
        assert(column_spec(a@, b@, 7) == 0u128);
        assert(w7 == word_spec(a@, b@, 7));
    }
    [words_to_block(w0, w1, w2, w3), words_to_block(w4, w5, w6, w7)]
}

/// Word `k` of a 16-byte block.
pub fn limb16(block: &[u8; 16], k: usize) -> (r: u64)
    requires
        k < 2,
    ensures
        r == limb_spec(block@, k as int),
{
    let mut b = [0u8; 8];
    let mut i: usize = 0;
    while i < 8
        invariant
            i <= 8,
            k < 2,
            forall|j: int| 0 <= j < i ==> b[j] == block[8 * k + j],
        decreases 8 - i,
    {
        b[i] = block[8 * k + i];
        i += 1;
    }
    assert(b@ =~= block@.subrange(8 * k, 8 * k + 8));
    u64_from_le(&b)
}

/// Word `k` of the 256-bit carry-less product of two 16-byte blocks.
pub open spec fn word128_spec(a: Seq<u8>, b: Seq<u8>, k: int) -> u64 {
    let low = clmul64_spec(limb_spec(a, 0), limb_spec(b, 0), 64);
    let mid = clmul64_spec(limb_spec(a, 1), limb_spec(b, 0), 64) ^ clmul64_spec(limb_spec(a, 0), limb_spec(b, 1), 64);
    let high = clmul64_spec(limb_spec(a, 1), limb_spec(b, 1), 64);
    if k == 0 {
        lo64(low)
    } else if k == 1 {
        hi64(low) ^ lo64(mid)
    } else if k == 2 {
        hi64(mid) ^ lo64(high)
    } else {
        hi64(high)
    }
}

/// One half of the 256-bit carry-less product of two 16-byte blocks, which is not reduced: words `2 * h`
/// and `2 * h + 1`, lowest byte first.
pub open spec fn clmul128(a: Seq<u8>, b: Seq<u8>, h: int) -> Seq<u8> {
    le_bytes(word128_spec(a, b, 2 * h) as nat, 8) + le_bytes(word128_spec(a, b, 2 * h + 1) as nat, 8)
}

/// Writes two words into a block, lowest byte first.
fn words_to_block16(w0: u64, w1: u64) -> (r: [u8; 16])
    ensures
        r@ == le_bytes(w0 as nat, 8) + le_bytes(w1 as nat, 8),
{
    let b0 = u64_to_le(w0);
    let b1 = u64_to_le(w1);
    let mut r = [0u8; 16];
    let mut i: usize = 0;
    while i < 8
        invariant
            i <= 8,
            forall|j: int| 0 <= j < i ==> r[j] == b0[j] && r[8 + j] == b1[j],
        decreases 8 - i,
    {
        r[i] = b0[i];
        r[8 + i] = b1[i];
        i += 1;
    }
    assert(r@ =~= b0@ + b1@);
    r
}

/// The 256-bit carry-less product of two 128-bit blocks, as its lower and its upper half.
pub fn mul128(a: &[u8; 16], b: &[u8; 16]) -> (res: [[u8; 16]; 2])
    ensures
        res[0]@ == clmul128(a@, b@, 0),
        res[1]@ == clmul128(a@, b@, 1),
{
    let a_low = limb16(a, 0);
    let a_high = limb16(a, 1);
    let b_low = limb16(b, 0);
    let b_high = limb16(b, 1);
    let low = clmul64(a_low, b_low);
    let mid = clmul64(a_high, b_low) ^ clmul64(a_low, b_high);
    let high = clmul64(a_high, b_high);
    let w0 = low_word(low);
    let w1 = high_word(low) ^ low_word(mid);
    let w2 = high_word(mid) ^ low_word(high);
    let w3 = high_word(high);
    [words_to_block16(w0, w1), words_to_block16(w2, w3)]
}

/// One half of the exclusive-or of the products `a[i] * b[i]` for `i` below `n`, where `a[i]` is read at
/// position `start + i`.
pub open spec fn inner_product(a: Seq<Seq<u8>>, start: int, b: Seq<Seq<u8>>, n: nat, h: int) -> Seq<u8>
    decreases n,
{
    if n == 0 {
        zeros(32)
    } else {
        xor_seq(inner_product(a, start, b, (n - 1) as nat, h), clmul256(a[start + n - 1], b[n - 1], h))
    }
}

/// The exclusive-or of the products `a[start + i] * b[i]` over all blocks of `b`, not reduced: the lower and
/// the upper half.
pub fn vector_inn_prdt_sum_no_red(a: &Vec<[u8; 32]>, start: usize, b: &Vec<[u8; 32]>) -> (res: [[u8; 32]; 2])
    requires
        start + b.len() <= a.len(),
    ensures
        res[0]@ == inner_product(crate::comm_channel::views32(a@), start as int, crate::comm_channel::views32(b@),
            b.len() as nat, 0),
        res[1]@ == inner_product(crate::comm_channel::views32(a@), start as int, crate::comm_channel::views32(b@),
            b.len() as nat, 1),
{
    let mut r1 = [0u8; 32];
    let mut r2 = [0u8; 32];
    assert(r1@ =~= zeros(32));
    assert(r2@ =~= zeros(32));
    let mut i: usize = 0;
    while i < b.len()
        invariant
            i <= b.len(),
            start + b.len() <= a.len(),
            r1@ == inner_product(crate::comm_channel::views32(a@), start as int, crate::comm_channel::views32(b@),
                i as nat, 0),
            r2@ == inner_product(crate::comm_channel::views32(a@), start as int, crate::comm_channel::views32(b@),
                i as nat, 1),
        decreases b.len() - i,
    {
        let p = mul256(&a[start + i], &b[i]);
        r1 = xor_block(&r1, &p[0]);
        r2 = xor_block(&r2, &p[1]);
        i += 1;
    }
    [r1, r2]
}

} // verus!
