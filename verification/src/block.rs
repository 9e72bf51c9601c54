use vstd::prelude::*;
use crate::field::{le_nat, lemma_le_nat_push, pow256};

verus! {

/// Byte-wise exclusive-or of two byte strings; as long as the first.
pub open spec fn xor_seq(a: Seq<u8>, b: Seq<u8>) -> Seq<u8> {
    Seq::new(a.len(), |i: int| a[i] ^ b[i])
}

/// Byte-wise and of two byte strings; as long as the first.
pub open spec fn and_seq(a: Seq<u8>, b: Seq<u8>) -> Seq<u8> {
    Seq::new(a.len(), |i: int| a[i] & b[i])
}

/// Bit `k` (0 is the lowest) of a byte.
pub open spec fn byte_bit(b: u8, k: int) -> bool {
    (b >> (k as u8)) & 1u8 == 1u8
}

/// Bit `i` of a byte string, the bits of each byte counted from its lowest.
pub open spec fn bit_at(s: Seq<u8>, i: int) -> bool {
    byte_bit(s[i / 8], i % 8)
}

/// The lowest bit of the first byte.
pub open spec fn lsb(s: Seq<u8>) -> bool {
    s[0] & 1u8 == 1u8
}

/// `len` zero bytes.
pub open spec fn zeros(len: nat) -> Seq<u8> {
    Seq::new(len, |i: int| 0u8)
}

/// The byte string `d` if `b` holds, and as many zero bytes if not.
pub open spec fn select_seq(b: bool, d: Seq<u8>) -> Seq<u8> {
    if b {
        d
    } else {
        zeros(d.len())
    }
}

/// Exclusive-or on bytes: a byte cancels itself, zero changes nothing, and the order does not matter.
pub proof fn lemma_xor_byte_cancel(a: u8, b: u8)
    ensures
        (a ^ b) ^ b == a,
        a ^ a == 0,
        a ^ 0 == a,
        0 ^ a == a,
        a ^ b == b ^ a,
{
    assert((a ^ b) ^ b == a) by (bit_vector);
    assert(a ^ a == 0) by (bit_vector);
    assert(a ^ 0 == a) by (bit_vector);
    assert(0 ^ a == a) by (bit_vector);
    assert(a ^ b == b ^ a) by (bit_vector);
}

/// Exclusive-or with the same string twice gives the first string back.
pub proof fn lemma_xor_seq_cancel(a: Seq<u8>, b: Seq<u8>)
    requires
        a.len() == b.len(),
    ensures
        xor_seq(xor_seq(a, b), b) == a,
        xor_seq(a, b) == xor_seq(b, a),
        xor_seq(a, zeros(a.len())) == a,
        xor_seq(a, a) == zeros(a.len()),
{
    assert forall|i: int| 0 <= i < a.len() implies (a[i] ^ b[i]) ^ b[i] == a[i] && a[i] ^ b[i] == b[i]
        ^ a[i] && a[i] ^ 0 == a[i] && a[i] ^ a[i] == 0 by {
        lemma_xor_byte_cancel(a[i], b[i]);
    }
    assert(xor_seq(xor_seq(a, b), b) =~= a);
    assert(xor_seq(a, b) =~= xor_seq(b, a));
    assert(xor_seq(a, zeros(a.len())) =~= a);
    assert(xor_seq(a, a) =~= zeros(a.len()));
}

/// Byte-wise exclusive-or of two 32-byte blocks.
pub fn xor_block(a: &[u8; 32], b: &[u8; 32]) -> (r: [u8; 32])
    ensures
        r@ == xor_seq(a@, b@),
{
    let mut r = [0u8; 32];
    let mut i: usize = 0;
    while i < 32
        invariant
            i <= 32,
            forall|j: int| 0 <= j < i ==> r[j] == a[j] ^ b[j],
        decreases 32 - i,
    {
        r[i] = a[i] ^ b[i];
        i += 1;
    }
    assert(r@ =~= xor_seq(a@, b@));
    r
}

/// Byte-wise and of two 32-byte blocks.
pub fn and_block(a: &[u8; 32], b: &[u8; 32]) -> (r: [u8; 32])
    ensures
        r@ == and_seq(a@, b@),
{
    let mut r = [0u8; 32];
    let mut i: usize = 0;
    while i < 32
        invariant
            i <= 32,
            forall|j: int| 0 <= j < i ==> r[j] == a[j] & b[j],
        decreases 32 - i,
    {
        r[i] = a[i] & b[i];
        i += 1;
    }
    assert(r@ =~= and_seq(a@, b@));
    r
}

/// Byte-wise exclusive-or of two 16-byte blocks.
pub fn xor_block16(a: &[u8; 16], b: &[u8; 16]) -> (r: [u8; 16])
    ensures
        r@ == xor_seq(a@, b@),
{
    let mut r = [0u8; 16];
    let mut i: usize = 0;
    while i < 16
        invariant
            i <= 16,
            forall|j: int| 0 <= j < i ==> r[j] == a[j] ^ b[j],
        decreases 16 - i,
    {
        r[i] = a[i] ^ b[i];
        i += 1;
    }
    assert(r@ =~= xor_seq(a@, b@));
    r
}

/// Bit `i` of a 32-byte block.
pub fn get_bit(block: &[u8; 32], i: usize) -> (r: bool)
    requires
        i < 256,
    ensures
        r == bit_at(block@, i as int),
{
    let k: u8 = (i % 8) as u8;
    (block[i / 8] >> k) & 1 == 1
}

/// The `n` lowest bytes of `x`, lowest first.
pub open spec fn le_bytes(x: nat, n: nat) -> Seq<u8>
    decreases n,
{
    if n == 0 {
        Seq::empty()
    } else {
        seq![(x % 256) as u8] + le_bytes(x / 256, (n - 1) as nat)
    }
}

/// `le_bytes` gives `n` bytes, and they stand for `x` modulo `256^n`.
pub proof fn lemma_le_bytes(x: nat, n: nat)
    ensures
        le_bytes(x, n).len() == n,
        le_nat(le_bytes(x, n)) == x % pow256(n),
    decreases n,
{
    if n == 0 {
        assert(pow256(0) == 1);
    } else {
        let m = (n - 1) as nat;
        lemma_le_bytes(x / 256, m);
        let s = le_bytes(x, n);
        assert(s.skip(1) =~= le_bytes(x / 256, m));
        assert(s[0] == (x % 256) as u8);
        lemma_pow256_mono(m, m);
        assert(pow256(n) == 256 * pow256(m));
        vstd::arithmetic::div_mod::lemma_mod_breakdown(x as int, 256, pow256(m) as int);
    }
}

/// The eight bytes of `x`, lowest first.
pub fn u64_to_le(x: u64) -> (r: [u8; 8])
    ensures
        r@ == le_bytes(x as nat, 8),
        le_nat(r@) == x,
{
    let r = u64_to_le_inner(x);
    proof {
        lemma_le_bytes(x as nat, 8);
        assert(pow256(8) == 0x1_0000_0000_0000_0000nat) by {
            reveal_with_fuel(pow256, 9);
        }
        lemma_le_bytes_of_le_nat(r@, x as nat);
    }
    r
}

/// A byte string that stands for a number below `256^len` is the `le_bytes` of that number.
pub proof fn lemma_le_bytes_of_le_nat(s: Seq<u8>, x: nat)
    requires
        le_nat(s) == x,
    ensures
        s == le_bytes(x, s.len()),
    decreases s.len(),
{
    if s.len() == 0 {
        assert(s =~= le_bytes(x, 0));
    } else {
        let t = s.skip(1);
        lemma_le_bytes_of_le_nat(t, le_nat(t));
        assert(x == s[0] as nat + 256 * le_nat(t));
        assert(x % 256 == s[0] as nat);
        assert(x / 256 == le_nat(t));
        assert(s =~= seq![s[0]] + t);
    }
}

/// The eight bytes that stand for `x`, lowest first.
fn u64_to_le_inner(x: u64) -> (r: [u8; 8])
    ensures
        le_nat(r@) == x,
{
    let mut bytes = [0u8; 8];
    let mut rest: u64 = x;
    let mut i: usize = 0;
    proof {
        assert(bytes@.take(0).len() == 0);
        assert(pow256(0) * rest == rest) by (nonlinear_arith)
            requires
                pow256(0) == 1,
        ;
    }
    while i < 8
        invariant
            i <= 8,
            le_nat(bytes@.take(i as int)) + pow256(i as nat) * rest == x,
        decreases 8 - i,
    {
        let ghost before = bytes@;
        bytes[i] = (rest % 256) as u8;
        proof {
            assert(bytes@.take(i as int) =~= before.take(i as int));
            lemma_le_nat_push(bytes@.take(i as int), bytes[i as int]);
            assert(bytes@.take(i as int).push(bytes[i as int]) =~= bytes@.take(i as int + 1));
            assert(pow256(i as nat + 1) == 256 * pow256(i as nat));
            assert(pow256(i as nat) * rest == pow256(i as nat) * (rest % 256) + pow256(i as nat + 1) * (rest
                / 256)) by (nonlinear_arith)
                requires
                    pow256(i as nat + 1) == 256 * pow256(i as nat),
            ;
        }
        rest = rest / 256;
        i += 1;
    }
    proof {
        assert(pow256(8) == 0x1_0000_0000_0000_0000nat) by {
            reveal_with_fuel(pow256, 9);
        }
        assert(rest == 0) by (nonlinear_arith)
            requires
                pow256(8) * rest <= x,
                pow256(8) == 0x1_0000_0000_0000_0000nat,
                x <= u64::MAX,
        ;
        assert(bytes@.take(8) =~= bytes@);
    }
    bytes
}

/// A byte string of at most eight bytes stands for a number that fits in 64 bits.
pub proof fn lemma_le_nat_bound(s: Seq<u8>)
    ensures
        le_nat(s) < pow256(s.len()),
    decreases s.len(),
{
    if s.len() > 0 {
        lemma_le_nat_bound(s.skip(1));
        assert(pow256(s.len()) == 256 * pow256((s.len() - 1) as nat));
    }
}

/// The number that bytes `start` to `start + 15` of a block stand for, lowest byte first.
pub fn u128_from_le(b: &[u8; 32], start: usize) -> (r: u128)
    requires
        start <= 16,
    ensures
        r == le_nat(b@.subrange(start as int, start + 16)),
{
    let ghost part = b@.subrange(start as int, start + 16);
    let mut acc: u128 = 0;
    let mut i: usize = 16;
    proof {
        assert(part.skip(16).len() == 0);
        assert(pow256(0) == 1);
    }
    while i > 0
        invariant
            i <= 16,
            start <= 16,
            part == b@.subrange(start as int, start + 16),
            acc == le_nat(part.skip(i as int)),
        decreases i,
    {
        i -= 1;
        proof {
            let s = part.skip(i as int);
            assert(s.skip(1) =~= part.skip(i as int + 1));
            assert(s[0] == b[start + i]);
            lemma_le_nat_bound(s);
            lemma_le_nat_bound(s.skip(1));
            lemma_pow256_mono(s.skip(1).len(), 15);
            assert(pow256(15) == 0x1_0000_0000_0000_0000_0000_0000_0000_00nat) by {
                reveal_with_fuel(pow256, 16);
            }
        }
        acc = acc * 256 + b[start + i] as u128;
    }
    proof {
        assert(part.skip(0) =~= part);
    }
    acc
}

/// The two 128-bit numbers that the halves of a 32-byte block stand for, lowest byte first.
pub fn u8_to_i128_array(input: [u8; 32]) -> (r: [u128; 2])
    ensures
        r[0] == le_nat(input@.subrange(0, 16)),
        r[1] == le_nat(input@.subrange(16, 32)),
{
    [u128_from_le(&input, 0), u128_from_le(&input, 16)]
}

/// The exclusive-or of two pairs of 128-bit words, word by word.
pub fn xor_u128(a: &[u128; 2], b: &[u128; 2]) -> (r: [u128; 2])
    ensures
        r[0] == a[0] ^ b[0],
        r[1] == a[1] ^ b[1],
{
    [a[0] ^ b[0], a[1] ^ b[1]]
}

/// The number that eight little-endian bytes stand for.
pub fn u64_from_le(b: &[u8; 8]) -> (r: u64)
    ensures
        r == le_nat(b@),
{
    let mut acc: u64 = 0;
    let mut i: usize = 8;
    proof {
        assert(b@.skip(8).len() == 0);
        assert(pow256(0) == 1);
    }
    while i > 0
        invariant
            i <= 8,
            acc == le_nat(b@.skip(i as int)),
        decreases i,
    {
        i -= 1;
        proof {
            let s = b@.skip(i as int);
            assert(s.skip(1) =~= b@.skip(i as int + 1));
            lemma_le_nat_bound(s);
            assert(s.len() <= 8);
            lemma_pow256_mono(s.len(), 8);
            assert(pow256(8) == 0x1_0000_0000_0000_0000nat) by {
                reveal_with_fuel(pow256, 9);
            }
        }
        acc = acc * 256 + b[i] as u64;
    }
    proof {
        assert(b@.skip(0) =~= b@);
    }
    acc
}

/// Powers of 256 grow with the exponent.
pub proof fn lemma_pow256_mono(a: nat, b: nat)
    requires
        a <= b,
    ensures
        pow256(a) <= pow256(b),
        pow256(a) >= 1,
    decreases b,
{
    if a < b {
        lemma_pow256_mono(a, (b - 1) as nat);
    } else if a > 0 {
        lemma_pow256_mono((a - 1) as nat, (a - 1) as nat);
    }
}


/// Two 16-byte blocks, one after the other.
pub fn concat16(a: &[u8; 16], b: &[u8; 16]) -> (r: [u8; 32])
    ensures
        r@ == a@ + b@,
{
    let mut r = [0u8; 32];
    let mut i: usize = 0;
    while i < 16
        invariant
            i <= 16,
            forall|j: int| 0 <= j < i ==> r[j] == a[j] && r[j + 16] == b[j],
        decreases 16 - i,
    {
        r[i] = a[i];
        r[i + 16] = b[i];
        i += 1;
    }
    assert(r@ =~= a@ + b@);
    r
}

/// The lower (bytes 0 to 15) or upper (bytes 16 to 31) half of a 32-byte block.
pub fn half_block(block: &[u8; 32], upper: bool) -> (r: [u8; 16])
    ensures
        !upper ==> r@ == block@.take(16),
        upper ==> r@ == block@.skip(16),
{
    let off: usize = if upper {
        16
    } else {
        0
    };
    let mut r = [0u8; 16];
    let mut i: usize = 0;
    while i < 16
        invariant
            i <= 16,
            off == 0 || off == 16,
            forall|j: int| 0 <= j < i ==> r[j] == block[off + j],
        decreases 16 - i,
    {
        r[i] = block[off + i];
        i += 1;
    }
    assert(!upper ==> r@ =~= block@.take(16));
    assert(upper ==> r@ =~= block@.skip(16));
    r
}

/// Sixteen bytes, each `v`.
pub open spec fn const_block(v: u8) -> Seq<u8> {
    Seq::new(16, |i: int| v)
}

/// A 16-byte block with every byte `v`.
pub fn fill_block16(v: u8) -> (r: [u8; 16])
    ensures
        r@ == const_block(v),
{
    let r = [v;16];
    assert(r@ =~= const_block(v));
    r
}

/// The canonical encoding of a field value is the 32 lowest bytes of the value.
pub proof fn lemma_fe_bytes(f: crate::field::Fe)
    ensures
        f.bytes@ == le_bytes(f.value(), 32),
{
    lemma_le_bytes_of_le_nat(f.bytes@, f.value());
}


/// Setting or clearing one bit of a byte changes that bit and no other.
pub proof fn lemma_byte_set_bit(b: u8, k: u8, m: u8)
    requires
        k < 8,
        m < 8,
    ensures
        ((b | (1u8 << k)) >> m) & 1u8 == 1u8 <==> (m == k || (b >> m) & 1u8 == 1u8),
        ((b & !(1u8 << k)) >> m) & 1u8 == 1u8 <==> (m != k && (b >> m) & 1u8 == 1u8),
{
    assert(((b | (1u8 << k)) >> m) & 1u8 == 1u8 <==> (m == k || (b >> m) & 1u8 == 1u8)) by (bit_vector)
        requires
            k < 8,
            m < 8,
    ;
    assert(((b & !(1u8 << k)) >> m) & 1u8 == 1u8 <==> (m != k && (b >> m) & 1u8 == 1u8)) by (bit_vector)
        requires
            k < 8,
            m < 8,
    ;
}

/// A bit of an exclusive-or is set where exactly one of the two bits is; a bit of an and where both are.
pub proof fn lemma_byte_xor_bit(a: u8, b: u8, m: u8)
    requires
        m < 8,
    ensures
        ((a ^ b) >> m) & 1u8 == 1u8 <==> (((a >> m) & 1u8 == 1u8) != ((b >> m) & 1u8 == 1u8)),
        ((a & b) >> m) & 1u8 == 1u8 <==> (((a >> m) & 1u8 == 1u8) && ((b >> m) & 1u8 == 1u8)),
        (0u8 >> m) & 1u8 == 0u8,
{
    assert(((a ^ b) >> m) & 1u8 == 1u8 <==> (((a >> m) & 1u8 == 1u8) != ((b >> m) & 1u8 == 1u8)))
        by (bit_vector)
        requires
            m < 8,
    ;
    assert(((a & b) >> m) & 1u8 == 1u8 <==> (((a >> m) & 1u8 == 1u8) && ((b >> m) & 1u8 == 1u8)))
        by (bit_vector)
        requires
            m < 8,
    ;
    assert((0u8 >> m) & 1u8 == 0u8) by (bit_vector)
        requires
            m < 8,
    ;
}

/// Two bytes with the same eight bits are equal.
pub proof fn lemma_byte_ext(a: u8, b: u8)
    requires
        forall|m: int| 0 <= m < 8 ==> byte_bit(a, m) == byte_bit(b, m),
    ensures
        a == b,
{
    assert(byte_bit(a, 0) == byte_bit(b, 0));
    assert(byte_bit(a, 1) == byte_bit(b, 1));
    assert(byte_bit(a, 2) == byte_bit(b, 2));
    assert(byte_bit(a, 3) == byte_bit(b, 3));
    assert(byte_bit(a, 4) == byte_bit(b, 4));
    assert(byte_bit(a, 5) == byte_bit(b, 5));
    assert(byte_bit(a, 6) == byte_bit(b, 6));
    assert(byte_bit(a, 7) == byte_bit(b, 7));
    assert(a == b) by (bit_vector)
        requires
            ((a >> 0u8) & 1u8 == 1u8) == ((b >> 0u8) & 1u8 == 1u8),
            ((a >> 1u8) & 1u8 == 1u8) == ((b >> 1u8) & 1u8 == 1u8),
            ((a >> 2u8) & 1u8 == 1u8) == ((b >> 2u8) & 1u8 == 1u8),
            ((a >> 3u8) & 1u8 == 1u8) == ((b >> 3u8) & 1u8 == 1u8),
            ((a >> 4u8) & 1u8 == 1u8) == ((b >> 4u8) & 1u8 == 1u8),
            ((a >> 5u8) & 1u8 == 1u8) == ((b >> 5u8) & 1u8 == 1u8),
            ((a >> 6u8) & 1u8 == 1u8) == ((b >> 6u8) & 1u8 == 1u8),
            ((a >> 7u8) & 1u8 == 1u8) == ((b >> 7u8) & 1u8 == 1u8),
    ;
}

/// Two byte strings of one length with the same bits are equal.
pub proof fn lemma_bits_ext(a: Seq<u8>, b: Seq<u8>)
    requires
        a.len() == b.len(),
        forall|m: int| 0 <= m < 8 * a.len() ==> bit_at(a, m) == bit_at(b, m),
    ensures
        a == b,
{
    assert forall|i: int| 0 <= i < a.len() implies a[i] == b[i] by {
        assert forall|k: int| 0 <= k < 8 implies byte_bit(a[i], k) == byte_bit(b[i], k) by {
            let m = 8 * i + k;
            assert(m / 8 == i && m % 8 == k);
            assert(bit_at(a, m) == bit_at(b, m));
        }
        lemma_byte_ext(a[i], b[i]);
    }
    assert(a =~= b);
}

/// The bits of an exclusive-or and of an and of two byte strings.
pub proof fn lemma_xor_bits(a: Seq<u8>, b: Seq<u8>, m: int)
    requires
        a.len() == b.len(),
        0 <= m < 8 * a.len(),
    ensures
        bit_at(xor_seq(a, b), m) == (bit_at(a, m) != bit_at(b, m)),
        bit_at(and_seq(a, b), m) == (bit_at(a, m) && bit_at(b, m)),
        !bit_at(zeros(a.len()), m),
{
    lemma_byte_xor_bit(a[m / 8], b[m / 8], (m % 8) as u8);
}

/// Sets bit `i` of a 32-byte block to `v`.
pub fn set_bit(block: &mut [u8; 32], i: usize, v: bool)
    requires
        i < 256,
    ensures
        forall|m: int| 0 <= m < 256 ==> #[trigger] bit_at(final(block)@, m) == (if m == i {
            v
        } else {
            bit_at(old(block)@, m)
        }),
{
    let k: u8 = (i % 8) as u8;
    let b = block[i / 8];
    let nb: u8 = if v {
        b | (1u8 << k)
    } else {
        b & !(1u8 << k)
    };
    block[i / 8] = nb;
    proof {
        assert forall|m: int| 0 <= m < 256 implies #[trigger] bit_at(block@, m) == (if m == i {
            v
        } else {
            bit_at(old(block)@, m)
        }) by {
            if m / 8 == i / 8 {
                lemma_byte_set_bit(b, k, (m % 8) as u8);
            }
        }
    }
}

/// The block whose bit `i` is `bits[i]`; the sequence of bits may be shorter than the block.
pub fn bool_to_block(bits: &[bool]) -> (r: [u8; 32])
    requires
        bits.len() <= 256,
    ensures
        forall|m: int| 0 <= m < 256 ==> #[trigger] bit_at(r@, m) == (m < bits.len() && bits[m]),
{
    let mut r = [0u8; 32];
    proof {
        assert forall|m: int| 0 <= m < 256 implies !#[trigger] bit_at(r@, m) by {
            lemma_byte_xor_bit(0, 0, (m % 8) as u8);
        }
    }
    let mut i: usize = 0;
    while i < bits.len()
        invariant
            i <= bits.len(),
            bits.len() <= 256,
            forall|m: int| 0 <= m < 256 ==> #[trigger] bit_at(r@, m) == (m < i && bits[m]),
        decreases bits.len() - i,
    {
        set_bit(&mut r, i, bits[i]);
        i += 1;
    }
    r
}

/// The 256 bits of a block, lowest first.
pub fn block_to_bool(block: &[u8; 32]) -> (r: Vec<bool>)
    ensures
        r.len() == 256,
        forall|m: int| 0 <= m < 256 ==> #[trigger] r[m] == bit_at(block@, m),
{
    let mut r: Vec<bool> = Vec::new();
    let mut i: usize = 0;
    while i < 256
        invariant
            i <= 256,
            r.len() == i,
            forall|m: int| 0 <= m < i ==> #[trigger] r[m] == bit_at(block@, m),
        decreases 256 - i,
    {
        r.push(get_bit(block, i));
        i += 1;
    }
    r
}

/// Whether the lowest bit of the block is set.
pub fn get_lsb(block: &[u8; 32]) -> (r: bool)
    ensures
        r == bit_at(block@, 0),
{
    get_bit(block, 0)
}


/// The byte whose bit `k` is `f(base + k)`.
#[verifier::opaque]
pub open spec fn byte_from_bits(f: spec_fn(int) -> bool, base: int) -> u8 {
    (if f(base) { 1u8 } else { 0u8 }) | (if f(base + 1) { 2u8 } else { 0u8 }) | (if f(base + 2) { 4u8 } else { 0u8 })
        | (if f(base + 3) { 8u8 } else { 0u8 }) | (if f(base + 4) { 16u8 } else { 0u8 }) | (if f(base + 5) {
        32u8
    } else {
        0u8
    }) | (if f(base + 6) { 64u8 } else { 0u8 }) | (if f(base + 7) { 128u8 } else { 0u8 })
}

/// The 32-byte block whose bit `m` is `f(m)`.
pub open spec fn block_from_bits(f: spec_fn(int) -> bool) -> Seq<u8> {
    Seq::new(32, |i: int| byte_from_bits(f, 8 * i))
}

/// The bits of `byte_from_bits` are the bits it was made from.
pub proof fn lemma_byte_from_bits(f: spec_fn(int) -> bool, base: int, k: int)
    requires
        0 <= k < 8,
    ensures
        byte_bit(byte_from_bits(f, base), k) == f(base + k),
{
    reveal(byte_from_bits);
    let b0: u8 = if f(base) { 1u8 } else { 0u8 };
    let b1: u8 = if f(base + 1) { 2u8 } else { 0u8 };
    let b2: u8 = if f(base + 2) { 4u8 } else { 0u8 };
    let b3: u8 = if f(base + 3) { 8u8 } else { 0u8 };
    let b4: u8 = if f(base + 4) { 16u8 } else { 0u8 };
    let b5: u8 = if f(base + 5) { 32u8 } else { 0u8 };
    let b6: u8 = if f(base + 6) { 64u8 } else { 0u8 };
    let b7: u8 = if f(base + 7) { 128u8 } else { 0u8 };
    let kk: u8 = k as u8;
    assert((((b0 | b1 | b2 | b3 | b4 | b5 | b6 | b7) >> kk) & 1u8 == 1u8) <==> ((kk == 0 && b0 != 0) || (kk == 1
        && b1 != 0) || (kk == 2 && b2 != 0) || (kk == 3 && b3 != 0) || (kk == 4 && b4 != 0) || (kk == 5 && b5
        != 0) || (kk == 6 && b6 != 0) || (kk == 7 && b7 != 0))) by (bit_vector)
        requires
            kk < 8,
            b0 == 0 || b0 == 1,
            b1 == 0 || b1 == 2,
            b2 == 0 || b2 == 4,
            b3 == 0 || b3 == 8,
            b4 == 0 || b4 == 16,
            b5 == 0 || b5 == 32,
            b6 == 0 || b6 == 64,
            b7 == 0 || b7 == 128,
    ;
}

/// The bits of `block_from_bits` are the bits it was made from.
pub proof fn lemma_block_from_bits(f: spec_fn(int) -> bool, m: int)
    requires
        0 <= m < 256,
    ensures
        bit_at(block_from_bits(f), m) == f(m),
        block_from_bits(f).len() == 32,
{
    lemma_byte_from_bits(f, 8 * (m / 8), m % 8);
}

/// A 32-byte string whose bits are given by `f` is `block_from_bits(f)`.
pub proof fn lemma_block_is_from_bits(b: Seq<u8>, f: spec_fn(int) -> bool)
    requires
        b.len() == 32,
        forall|m: int| 0 <= m < 256 ==> bit_at(b, m) == f(m),
    ensures
        b == block_from_bits(f),
{
    assert forall|m: int| 0 <= m < 256 implies bit_at(b, m) == bit_at(block_from_bits(f), m) by {
        lemma_block_from_bits(f, m);
    }
    lemma_bits_ext(b, block_from_bits(f));
}

} // verus!
