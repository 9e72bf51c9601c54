use vstd::prelude::*;
use vstd::arithmetic::div_mod::*;
use vstd::arithmetic::mul::*;
use lambdaworks_math::field::element::FieldElement;
use lambdaworks_math::field::fields::fft_friendly::stark_252_prime_field::Stark252PrimeField;
use lambdaworks_math::traits::ByteConversion;
use crate::error::VoleError;

verus! {

/// The STARK-252 prime, 2^251 + 17 * 2^192 + 1.
pub open spec fn modulus() -> nat {
    0x0800000000000011000000000000000000000000000000000000000000000001nat
}

/// Sum in the field.
pub open spec fn fadd(a: nat, b: nat) -> nat {
    (a + b) % modulus()
}

/// Difference in the field.
pub open spec fn fsub(a: nat, b: nat) -> nat {
    ((a as int - b as int) % (modulus() as int)) as nat
}

/// Product in the field.
pub open spec fn fmul(a: nat, b: nat) -> nat {
    (a * b) % modulus()
}

/// The number that a little-endian byte string stands for.
pub open spec fn le_nat(s: Seq<u8>) -> nat
    decreases s.len(),
{
    if s.len() == 0 {
        0
    } else {
        s[0] as nat + 256 * le_nat(s.skip(1))
    }
}

/// Two byte strings of one length that stand for the same number are equal.
pub proof fn lemma_le_nat_injective(s: Seq<u8>, t: Seq<u8>)
    requires
        s.len() == t.len(),
        le_nat(s) == le_nat(t),
    ensures
        s == t,
    decreases s.len(),
{
    if s.len() == 0 {
        assert(s =~= t);
    } else {
        let a = le_nat(s.skip(1));
        let b = le_nat(t.skip(1));
        assert(s[0] as nat + 256 * a == t[0] as nat + 256 * b);
        assert(a == b && s[0] == t[0]) by {
            if a < b {
                assert(256 * a + 256 <= 256 * b);
            } else if b < a {
                assert(256 * b + 256 <= 256 * a);
            }
        }
        lemma_le_nat_injective(s.skip(1), t.skip(1));
        assert(s =~= seq![s[0]] + s.skip(1));
        assert(t =~= seq![t[0]] + t.skip(1));
    }
}

/// An element of the STARK-252 prime field, held as its canonical 32-byte little-endian encoding.
#[derive(Clone, Copy, Debug, PartialEq, Eq)]
pub struct Fe {
    pub bytes: [u8; 32],
}

/// The field values of a sequence of elements.
pub open spec fn values(s: Seq<Fe>) -> Seq<nat> {
    Seq::new(s.len(), |i: int| s[i].value())
}

/// Every element of the sequence is canonical.
pub open spec fn all_wf(s: Seq<Fe>) -> bool {
    forall|i: int| 0 <= i < s.len() ==> (#[trigger] s[i]).wf()
}

/// `FieldElement::from_bytes_le` followed by `to_bytes_le` on the STARK-252 field: the 32 bytes are read as
/// a little-endian integer, brought into Montgomery form (which reduces it modulo the prime), and the
/// canonical representative is written back.
#[verifier::external_body]
fn lw_reduce(bytes: &[u8; 32]) -> (r: Fe)
    ensures
        r.wf(),
        r.value() == le_nat(bytes@) % modulus(),
{
    Fe { bytes: FieldElement::<Stark252PrimeField>::from_bytes_le(bytes).unwrap().to_bytes_le() }
}

/// `FieldElement` addition (`+`) on the STARK-252 field: the canonical encoding of the sum modulo the prime.
#[verifier::external_body]
fn lw_add(a: &Fe, b: &Fe) -> (r: Fe)
    ensures
        r.wf(),
        r.value() == fadd(a.value(), b.value()),
{
    let x = FieldElement::<Stark252PrimeField>::from_bytes_le(&a.bytes).unwrap();
    let y = FieldElement::<Stark252PrimeField>::from_bytes_le(&b.bytes).unwrap();
    Fe { bytes: (x + y).to_bytes_le() }
}

/// `FieldElement` subtraction (`-`) on the STARK-252 field: the canonical encoding of the difference modulo
/// the prime.
#[verifier::external_body]
fn lw_sub(a: &Fe, b: &Fe) -> (r: Fe)
    ensures
        r.wf(),
        r.value() == fsub(a.value(), b.value()),
{
    let x = FieldElement::<Stark252PrimeField>::from_bytes_le(&a.bytes).unwrap();
    let y = FieldElement::<Stark252PrimeField>::from_bytes_le(&b.bytes).unwrap();
    Fe { bytes: (x - y).to_bytes_le() }
}

/// `FieldElement` multiplication (`*`) on the STARK-252 field: the canonical encoding of the product modulo
/// the prime.
#[verifier::external_body]
fn lw_mul(a: &Fe, b: &Fe) -> (r: Fe)
    ensures
        r.wf(),
        r.value() == fmul(a.value(), b.value()),
{
    let x = FieldElement::<Stark252PrimeField>::from_bytes_le(&a.bytes).unwrap();
    let y = FieldElement::<Stark252PrimeField>::from_bytes_le(&b.bytes).unwrap();
    Fe { bytes: (x * y).to_bytes_le() }
}

/// Whether two 32-byte arrays hold the same bytes.
pub fn bytes32_eq(a: &[u8; 32], b: &[u8; 32]) -> (r: bool)
    ensures
        r == (a@ == b@),
{
    let mut i: usize = 0;
    while i < 32
        invariant
            i <= 32,
            forall|j: int| 0 <= j < i ==> a[j] == b[j],
        decreases 32 - i,
    {
        if a[i] != b[i] {
            return false;
        }
        i += 1;
    }
    assert(a@ =~= b@);
    true
}

impl Fe {
    /// The number in `[0, p)` that the element stands for.
    pub open spec fn value(self) -> nat {
        le_nat(self.bytes@)
    }

    /// The encoding is canonical: it stands for a number below the modulus.
    pub open spec fn wf(self) -> bool {
        self.value() < modulus()
    }

    /// The additive identity.
    pub fn zero() -> (r: Fe)
        ensures
            r.wf(),
            r.value() == 0,
    {
        let r = Fe { bytes: [0u8; 32] };
        proof {
            lemma_le_nat_zeros(r.bytes@);
        }
        r
    }

    /// The element that stands for `x`.
    pub fn from_u64(x: u64) -> (r: Fe)
        ensures
            r.wf(),
            r.value() == x,
    {
        let mut bytes = [0u8; 32];
        let mut rest: u64 = x;
        let mut i: usize = 0;
        proof {
            assert(bytes@.take(0).len() == 0);
            assert(pow256(0) * rest == rest) by (nonlinear_arith)
                requires
                    pow256(0) == 1,
            ;
        }
        while i < 8
            invariant
                i <= 8,
                forall|j: int| i <= j < 32 ==> bytes[j] == 0,
                le_nat(bytes@.take(i as int)) + pow256(i as nat) * rest == x,
            decreases 8 - i,
        {
            let ghost before = bytes@;
            bytes[i] = (rest % 256) as u8;
            proof {
                assert(bytes@.take(i as int) =~= before.take(i as int));
                lemma_le_nat_push(bytes@.take(i as int), bytes[i as int]);
                assert(bytes@.take(i as int).push(bytes[i as int]) =~= bytes@.take(i as int + 1));
                assert(pow256(i as nat + 1) == 256 * pow256(i as nat));
                assert(pow256(i as nat) * rest == pow256(i as nat) * (rest % 256) + pow256(i as nat + 1) * (
                rest / 256)) by (nonlinear_arith)
                    requires
                        pow256(i as nat + 1) == 256 * pow256(i as nat),
                ;
            }
            rest = rest / 256;
            i += 1;
        }
        let r = Fe { bytes };
        proof {
            assert(pow256(8) == 0x1_0000_0000_0000_0000nat) by {
                reveal_with_fuel(pow256, 9);
            }
            assert(rest == 0) by (nonlinear_arith)
                requires
                    pow256(8) * rest <= x,
                    pow256(8) == 0x1_0000_0000_0000_0000nat,
                    x <= u64::MAX,
            ;
            lemma_le_nat_zero_tail(bytes@, 8);
        }
        r
    }

    /// The multiplicative identity.
    pub fn one() -> (r: Fe)
        ensures
            r.wf(),
            r.value() == 1,
    {
        Fe::from_u64(1)
    }

    /// The canonical 32-byte little-endian encoding.
    pub fn to_bytes_le(&self) -> (r: [u8; 32])
        ensures
            r@ == self.bytes@,
            r == self.bytes,
    {
        self.bytes
    }

    /// Reads 32 little-endian bytes as an integer and reduces it modulo the prime.
    pub fn from_bytes_reduced(bytes: &[u8; 32]) -> (r: Fe)
        ensures
            r.wf(),
            r.value() == le_nat(bytes@) % modulus(),
    {
        lw_reduce(bytes)
    }

    /// Decodes a canonical encoding; an encoding of a number that is not below the modulus is rejected.
    pub fn from_bytes_le(bytes: &[u8; 32]) -> (r: Result<Fe, VoleError>)
        ensures
            r == decode_spec(*bytes),
            le_nat(bytes@) < modulus() ==> r == Ok::<Fe, VoleError>(Fe { bytes: *bytes }),
            le_nat(bytes@) >= modulus() ==> r == Err::<Fe, VoleError>(VoleError::InvalidField),
    {
        let reduced = lw_reduce(bytes);
        let same = bytes32_eq(&reduced.bytes, bytes);
        proof {
            if le_nat(bytes@) < modulus() {
                lemma_small_mod(le_nat(bytes@), modulus());
                lemma_le_nat_injective(reduced.bytes@, bytes@);
            }
        }
        if same {
            proof {
                assert(reduced.bytes =~= *bytes);
            }
            Ok(reduced)
        } else {
            Err(VoleError::InvalidField)
        }
    }

    /// Whether two elements are the same element of the field.
    pub fn equals(&self, other: &Fe) -> (r: bool)
        ensures
            r == (self.bytes@ == other.bytes@),
            self.wf() && other.wf() ==> r == (self.value() == other.value()),
            r ==> *self == *other,
    {
        let r = bytes32_eq(&self.bytes, &other.bytes);
        proof {
            if self.value() == other.value() {
                lemma_le_nat_injective(self.bytes@, other.bytes@);
            }
            if r {
                assert(self.bytes =~= other.bytes);
            }
        }
        r
    }

    /// Sum in the field.
    pub fn add(&self, rhs: &Fe) -> (r: Fe)
        ensures
            r.wf(),
            r.value() == fadd(self.value(), rhs.value()),
    {
        lw_add(self, rhs)
    }

    /// Difference in the field.
    pub fn sub(&self, rhs: &Fe) -> (r: Fe)
        ensures
            r.wf(),
            r.value() == fsub(self.value(), rhs.value()),
    {
        lw_sub(self, rhs)
    }

    /// Product in the field.
    pub fn mul(&self, rhs: &Fe) -> (r: Fe)
        ensures
            r.wf(),
            r.value() == fmul(self.value(), rhs.value()),
    {
        lw_mul(self, rhs)
    }

    /// The additive inverse.
    pub fn neg(&self) -> (r: Fe)
        ensures
            r.wf(),
            r.value() == fsub(0, self.value()),
    {
        let z = Fe::zero();
        lw_sub(&z, self)
    }
}

/// What decoding 32 bytes gives: the element that they encode, or `InvalidField` where they stand for a
/// number that is not below the modulus.
pub open spec fn decode_spec(bytes: [u8; 32]) -> Result<Fe, VoleError> {
    if le_nat(bytes@) < modulus() {
        Ok(Fe { bytes })
    } else {
        Err(VoleError::InvalidField)
    }
}

/// Encoding and decoding a field element gives the element back: `from_bytes_le(x.to_bytes_le()) == x`.
pub proof fn lemma_encoding_round_trip(x: Fe)
    requires
        x.wf(),
    ensures
        decode_spec(x.bytes) == Ok::<Fe, VoleError>(x),
{
}

/// 256 to the power `n`.
pub open spec fn pow256(n: nat) -> nat
    decreases n,
{
    if n == 0 {
        1
    } else {
        256 * pow256((n - 1) as nat)
    }
}

/// Appending a byte adds it at the weight of its position.
pub proof fn lemma_le_nat_push(s: Seq<u8>, b: u8)
    ensures
        le_nat(s.push(b)) == le_nat(s) + pow256(s.len()) * b,
    decreases s.len(),
{
    if s.len() == 0 {
        assert(s.push(b).skip(1) =~= Seq::<u8>::empty());
        assert(le_nat(s.push(b).skip(1)) == 0);
        assert(le_nat(s.push(b)) == s.push(b)[0] as nat + 256 * le_nat(s.push(b).skip(1)));
        assert(pow256(0) * b == b) by (nonlinear_arith)
            requires
                pow256(0) == 1,
        ;
    } else {
        assert(s.push(b).skip(1) =~= s.skip(1).push(b));
        lemma_le_nat_push(s.skip(1), b);
        assert(s.skip(1).len() == s.len() - 1);
        assert(pow256(s.len()) == 256 * pow256((s.len() - 1) as nat));
        assert(256 * (pow256(s.skip(1).len()) * b) == pow256(s.len()) * b) by (nonlinear_arith)
            requires
                pow256(s.len()) == 256 * pow256(s.skip(1).len()),
        ;
        assert(le_nat(s.push(b)) == s.push(b)[0] as nat + 256 * le_nat(s.push(b).skip(1)));
        assert(le_nat(s) == s[0] as nat + 256 * le_nat(s.skip(1)));
    }
}

/// A string of zero bytes stands for zero.
pub proof fn lemma_le_nat_zeros(s: Seq<u8>)
    requires
        forall|i: int| 0 <= i < s.len() ==> s[i] == 0,
    ensures
        le_nat(s) == 0,
    decreases s.len(),
{
    if s.len() > 0 {
        lemma_le_nat_zeros(s.skip(1));
    }
}

/// Zero bytes at the end of a string do not change the number it stands for.
pub proof fn lemma_le_nat_zero_tail(s: Seq<u8>, k: int)
    requires
        0 <= k <= s.len(),
        forall|i: int| k <= i < s.len() ==> s[i] == 0,
    ensures
        le_nat(s) == le_nat(s.take(k)),
    decreases s.len() - k,
{
    if k < s.len() {
        let t = s.drop_last();
        lemma_le_nat_zero_tail(t, k);
        assert(t.take(k) =~= s.take(k));
        assert(t.push(0u8) =~= s);
        lemma_le_nat_push(t, 0u8);
        assert(pow256(t.len()) * 0u8 == 0) by (nonlinear_arith);
    } else {
        assert(s.take(k) =~= s);
    }
}


/// The inner product of the first `n` entries of two vectors, in the field.
pub open spec fn dot(a: Seq<nat>, b: Seq<nat>, n: nat) -> nat
    decreases n,
{
    if n == 0 {
        0
    } else {
        fadd(dot(a, b, (n - 1) as nat), fmul(a[n - 1], b[n - 1]))
    }
}

/// The sum of the first `n` entries of a vector, in the field.
pub open spec fn sum(a: Seq<nat>, n: nat) -> nat
    decreases n,
{
    if n == 0 {
        0
    } else {
        fadd(sum(a, (n - 1) as nat), a[n - 1])
    }
}

/// The inner product of two vectors, as far as both reach.
pub fn vector_inner_product(vec1: &Vec<Fe>, vec2: &Vec<Fe>) -> (r: Fe)
    ensures
        r.wf(),
        r.value() == dot(values(vec1@), values(vec2@), (if vec1.len() <= vec2.len() {
            vec1.len()
        } else {
            vec2.len()
        }) as nat),
{
    let n = if vec1.len() <= vec2.len() {
        vec1.len()
    } else {
        vec2.len()
    };
    let mut acc = Fe::zero();
    let mut i: usize = 0;
    while i < n
        invariant
            i <= n,
            n <= vec1.len(),
            n <= vec2.len(),
            acc.wf(),
            acc.value() == dot(values(vec1@), values(vec2@), i as nat),
        decreases n - i,
    {
        assert(values(vec1@)[i as int] == vec1[i as int].value());
        assert(values(vec2@)[i as int] == vec2[i as int].value());
        acc = acc.add(&vec1[i].mul(&vec2[i]));
        i += 1;
    }
    acc
}

/// The sum of the entries of a vector.
pub fn vector_sum(v: &Vec<Fe>) -> (r: Fe)
    ensures
        r.wf(),
        r.value() == sum(values(v@), v.len() as nat),
{
    let mut acc = Fe::zero();
    let mut i: usize = 0;
    while i < v.len()
        invariant
            i <= v.len(),
            acc.wf(),
            acc.value() == sum(values(v@), i as nat),
        decreases v.len() - i,
    {
        assert(values(v@)[i as int] == v[i as int].value());
        acc = acc.add(&v[i]);
        i += 1;
    }
    acc
}

} // verus!
