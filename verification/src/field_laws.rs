use vstd::prelude::*;
use vstd::arithmetic::div_mod::*;
use vstd::arithmetic::mul::*;
use crate::field::{fadd, fmul, fsub, modulus};

verus! {

/// `a` and `b` are congruent modulo the prime.
pub open spec fn cong(a: int, b: int) -> bool {
    (a - b) % (modulus() as int) == 0
}

/// A number is a multiple of the prime exactly if it is the prime times some integer.
pub proof fn lemma_multiple(x: int)
    ensures
        x % (modulus() as int) == 0 <==> x == (modulus() as int) * (x / (modulus() as int)),
{
    lemma_fundamental_div_mod(x, modulus() as int);
}

/// Every multiple of the prime is congruent to zero.
pub proof fn lemma_multiple_is_zero(k: int)
    ensures
        ((modulus() as int) * k) % (modulus() as int) == 0,
{
    lemma_mod_multiples_basic(k, modulus() as int);
    assert((modulus() as int) * k == k * (modulus() as int)) by (nonlinear_arith);
}

/// Congruence is reflexive and symmetric.
pub proof fn lemma_cong_refl(a: int, b: int)
    ensures
        cong(a, a),
        cong(a, b) ==> cong(b, a),
{
    let p = modulus() as int;
    assert((a - a) % p == 0);
    if cong(a, b) {
        lemma_multiple(a - b);
        let k = (a - b) / p;
        assert(b - a == p * (-k)) by (nonlinear_arith)
            requires
                a - b == p * k,
        ;
        lemma_multiple_is_zero(-k);
    }
}

/// Congruence is transitive.
pub proof fn lemma_cong_trans(a: int, b: int, c: int)
    requires
        cong(a, b),
        cong(b, c),
    ensures
        cong(a, c),
{
    let p = modulus() as int;
    lemma_multiple(a - b);
    lemma_multiple(b - c);
    let k1 = (a - b) / p;
    let k2 = (b - c) / p;
    assert(a - c == p * (k1 + k2)) by (nonlinear_arith)
        requires
            a - b == p * k1,
            b - c == p * k2,
    ;
    lemma_multiple_is_zero(k1 + k2);
}

/// Congruence is kept by sums and differences.
pub proof fn lemma_cong_add(a: int, b: int, c: int, d: int)
    requires
        cong(a, b),
        cong(c, d),
    ensures
        cong(a + c, b + d),
        cong(a - c, b - d),
{
    let p = modulus() as int;
    lemma_multiple(a - b);
    lemma_multiple(c - d);
    let k1 = (a - b) / p;
    let k2 = (c - d) / p;
    assert((a + c) - (b + d) == p * (k1 + k2)) by (nonlinear_arith)
        requires
            a - b == p * k1,
            c - d == p * k2,
    ;
    lemma_multiple_is_zero(k1 + k2);
    assert((a - c) - (b - d) == p * (k1 - k2)) by (nonlinear_arith)
        requires
            a - b == p * k1,
            c - d == p * k2,
    ;
    lemma_multiple_is_zero(k1 - k2);
}

/// Congruence is kept by products.
pub proof fn lemma_cong_mul(a: int, b: int, c: int, d: int)
    requires
        cong(a, b),
        cong(c, d),
    ensures
        cong(a * c, b * d),
{
    let p = modulus() as int;
    lemma_multiple(a - b);
    lemma_multiple(c - d);
    let k1 = (a - b) / p;
    let k2 = (c - d) / p;
    assert(a * c - b * d == p * (k1 * c + b * k2)) by (nonlinear_arith)
        requires
            a - b == p * k1,
            c - d == p * k2,
    ;
    lemma_multiple_is_zero(k1 * c + b * k2);
}

/// The field operations are the integer operations up to congruence, and give numbers below the prime.
pub proof fn lemma_field_ops(a: nat, b: nat)
    ensures
        cong(fadd(a, b) as int, a as int + b as int),
        cong(fsub(a, b) as int, a as int - b as int),
        cong(fmul(a, b) as int, a as int * b as int),
        fadd(a, b) < modulus(),
        fsub(a, b) < modulus(),
        fmul(a, b) < modulus(),
{
    let p = modulus() as int;
    let x = a as int;
    let y = b as int;
    lemma_fundamental_div_mod(x + y, p);
    lemma_multiple_is_zero(-((x + y) / p));
    assert((x + y) % p - (x + y) == p * (-((x + y) / p))) by (nonlinear_arith)
        requires
            x + y == p * ((x + y) / p) + (x + y) % p,
    ;
    lemma_fundamental_div_mod(x - y, p);
    lemma_multiple_is_zero(-((x - y) / p));
    assert((x - y) % p - (x - y) == p * (-((x - y) / p))) by (nonlinear_arith)
        requires
            x - y == p * ((x - y) / p) + (x - y) % p,
    ;
    lemma_fundamental_div_mod(x * y, p);
    lemma_multiple_is_zero(-((x * y) / p));
    assert((x * y) % p - (x * y) == p * (-((x * y) / p))) by (nonlinear_arith)
        requires
            x * y == p * ((x * y) / p) + (x * y) % p,
    ;
    lemma_mod_bound(x + y, p);
    lemma_mod_bound(x - y, p);
    lemma_mod_bound(x * y, p);
    assert(fadd(a, b) as int == (x + y) % p);
    assert(fmul(a, b) as int == (x * y) % p);
    assert(fsub(a, b) as int == (x - y) % p);
}

/// Two numbers below the prime that are congruent are equal.
pub proof fn lemma_cong_eq(a: int, b: int)
    requires
        0 <= a < modulus(),
        0 <= b < modulus(),
        cong(a, b),
    ensures
        a == b,
{
    let p = modulus() as int;
    lemma_multiple(a - b);
    let k = (a - b) / p;
    assert(k == 0) by (nonlinear_arith)
        requires
            a - b == p * k,
            -p < a - b < p,
            p > 0,
    ;
}

/// A sum in the field is congruent to whatever its terms are congruent to, added.
pub proof fn lemma_fadd_cong(a: nat, b: nat, x: int, y: int)
    requires
        cong(a as int, x),
        cong(b as int, y),
    ensures
        cong(fadd(a, b) as int, x + y),
{
    lemma_field_ops(a, b);
    lemma_cong_add(a as int, x, b as int, y);
    lemma_cong_trans(fadd(a, b) as int, a as int + b as int, x + y);
}

/// A difference in the field is congruent to whatever its terms are congruent to, subtracted.
pub proof fn lemma_fsub_cong(a: nat, b: nat, x: int, y: int)
    requires
        cong(a as int, x),
        cong(b as int, y),
    ensures
        cong(fsub(a, b) as int, x - y),
{
    lemma_field_ops(a, b);
    lemma_cong_add(a as int, x, b as int, y);
    lemma_cong_trans(fsub(a, b) as int, a as int - b as int, x - y);
}

/// A product in the field is congruent to whatever its factors are congruent to, multiplied.
pub proof fn lemma_fmul_cong(a: nat, b: nat, x: int, y: int)
    requires
        cong(a as int, x),
        cong(b as int, y),
    ensures
        cong(fmul(a, b) as int, x * y),
{
    lemma_field_ops(a, b);
    lemma_cong_mul(a as int, x, b as int, y);
    lemma_cong_trans(fmul(a, b) as int, a as int * b as int, x * y);
}

} // verus!
