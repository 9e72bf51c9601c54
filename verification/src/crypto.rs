use vstd::prelude::*;
use aes::cipher::generic_array::GenericArray;
use aes::cipher::{BlockEncrypt, KeyInit};
use aes::{Aes128, Aes256};
use p256::elliptic_curve::ops::Reduce;
use p256::elliptic_curve::sec1::{FromEncodedPoint, ToEncodedPoint};
use p256::elliptic_curve::Field;
use p256::{AffinePoint, EncodedPoint, FieldBytes, ProjectivePoint, Scalar, U256};
use rand::Rng;
use sha2::{Digest, Sha256};

verus! {

/// What AES-128 under `key` makes of one 16-byte block.
pub uninterp spec fn aes128(key: Seq<u8>, block: Seq<u8>) -> Seq<u8>;

/// What AES-256 under `key` makes of one 16-byte block.
pub uninterp spec fn aes256(key: Seq<u8>, block: Seq<u8>) -> Seq<u8>;

/// The SHA-256 digest of a byte string.
pub uninterp spec fn sha256_digest(data: Seq<u8>) -> Seq<u8>;

/// The SEC1 encoding of the P-256 generator times the scalar that 32 big-endian bytes stand for modulo the
/// group order.
pub uninterp spec fn p256_base_mul(scalar: Seq<u8>) -> Seq<u8>;

/// The SEC1 encoding of an encoded P-256 point times a scalar, where the encoding is one of a point of the
/// curve.
pub uninterp spec fn p256_mul(point: Seq<u8>, scalar: Seq<u8>) -> Option<Seq<u8>>;

/// The SEC1 encoding of the sum of two encoded P-256 points, where both encodings are of points of the
/// curve.
pub uninterp spec fn p256_add(p: Seq<u8>, q: Seq<u8>) -> Option<Seq<u8>>;

/// The SEC1 encoding of the difference of two encoded P-256 points, where both encodings are of points of
/// the curve.
pub uninterp spec fn p256_sub(p: Seq<u8>, q: Seq<u8>) -> Option<Seq<u8>>;

/// `Aes128::new` with the key, then `encrypt_block` on a copy of the block: the result is a function of key
/// and block alone.
#[verifier::external_body]
pub(crate) fn aes128_encrypt(key: &[u8; 16], block: &[u8; 16]) -> (r: [u8; 16])
    ensures
        r@ == aes128(key@, block@),
{
    let cipher = Aes128::new(&GenericArray::from(*key));
    let mut b = GenericArray::from(*block);
    cipher.encrypt_block(&mut b);
    b.into()
}

/// `Aes256::new` with the key, then `encrypt_block` on a copy of the block: the result is a function of key
/// and block alone.
#[verifier::external_body]
pub(crate) fn aes256_encrypt(key: &[u8; 32], block: &[u8; 16]) -> (r: [u8; 16])
    ensures
        r@ == aes256(key@, block@),
{
    let cipher = Aes256::new(&GenericArray::from(*key));
    let mut b = GenericArray::from(*block);
    cipher.encrypt_block(&mut b);
    b.into()
}

/// `Sha256::digest`: the 32-byte digest, a function of the data alone.
#[verifier::external_body]
pub(crate) fn sha256(data: &[u8]) -> (r: [u8; 32])
    ensures
        r@ == sha256_digest(data@),
{
    Sha256::digest(data).into()
}

/// `rand::thread_rng().fill` on 16 bytes. Nothing is known of the bytes that come back.
#[verifier::external_body]
pub(crate) fn random_block16() -> (r: [u8; 16]) {
    let mut key = [0u8; 16];
    rand::thread_rng().fill(&mut key);
    key
}

/// `Scalar::random` of P-256 with the thread's generator, as 32 big-endian bytes. Nothing is known of the
/// bytes that come back.
#[verifier::external_body]
pub(crate) fn random_scalar() -> (r: [u8; 32]) {
    Scalar::random(&mut rand::thread_rng()).to_bytes().into()
}

/// `ProjectivePoint::GENERATOR * scalar`, the scalar read by `Scalar::reduce_bytes`, the product written by
/// `to_encoded_point(false)`: a function of the scalar's bytes alone.
#[verifier::external_body]
pub(crate) fn curve_base_mul(scalar: &[u8; 32]) -> (r: Vec<u8>)
    ensures
        r@ == p256_base_mul(scalar@),
{
    let s = <Scalar as Reduce<U256>>::reduce_bytes(&FieldBytes::from(*scalar));
    (ProjectivePoint::GENERATOR * s).to_affine().to_encoded_point(false).as_bytes().to_vec()
}

/// `point * scalar` on P-256: the point is read by `EncodedPoint::from_bytes` and
/// `AffinePoint::from_encoded_point`, which refuse bytes that encode no point of the curve; the scalar is
/// read by `Scalar::reduce_bytes`; the product is written by `to_encoded_point(false)`.
#[verifier::external_body]
pub(crate) fn curve_mul(point: &Vec<u8>, scalar: &[u8; 32]) -> (r: Option<Vec<u8>>)
    ensures
        r.is_some() == p256_mul(point@, scalar@).is_some(),
        r.is_some() ==> r.unwrap()@ == p256_mul(point@, scalar@).unwrap(),
{
    let e = match EncodedPoint::from_bytes(point) { Ok(e) => e, Err(_) => return None };
    let a = match Option::<AffinePoint>::from(AffinePoint::from_encoded_point(&e)) { Some(a) => a, None => return None };
    let s = <Scalar as Reduce<U256>>::reduce_bytes(&FieldBytes::from(*scalar));
    Some((ProjectivePoint::from(a) * s).to_affine().to_encoded_point(false).as_bytes().to_vec())
}

/// `p + q` on P-256: both points are read by `EncodedPoint::from_bytes` and
/// `AffinePoint::from_encoded_point`, which refuse bytes that encode no point of the curve; the sum is written
/// by `to_encoded_point(false)`.
#[verifier::external_body]
pub(crate) fn curve_add(p: &Vec<u8>, q: &Vec<u8>) -> (r: Option<Vec<u8>>)
    ensures
        r.is_some() == p256_add(p@, q@).is_some(),
        r.is_some() ==> r.unwrap()@ == p256_add(p@, q@).unwrap(),
{
    let e = match EncodedPoint::from_bytes(p) { Ok(e) => e, Err(_) => return None };
    let a = match Option::<AffinePoint>::from(AffinePoint::from_encoded_point(&e)) { Some(a) => a, None => return None };
    let f = match EncodedPoint::from_bytes(q) { Ok(f) => f, Err(_) => return None };
    let b = match Option::<AffinePoint>::from(AffinePoint::from_encoded_point(&f)) { Some(b) => b, None => return None };
    Some((ProjectivePoint::from(a) + ProjectivePoint::from(b)).to_affine().to_encoded_point(false).as_bytes().to_vec())
}

/// `p - q` on P-256: both points are read by `EncodedPoint::from_bytes` and
/// `AffinePoint::from_encoded_point`, which refuse bytes that encode no point of the curve; the difference is
/// written by `to_encoded_point(false)`.
#[verifier::external_body]
pub(crate) fn curve_sub(p: &Vec<u8>, q: &Vec<u8>) -> (r: Option<Vec<u8>>)
    ensures
        r.is_some() == p256_sub(p@, q@).is_some(),
        r.is_some() ==> r.unwrap()@ == p256_sub(p@, q@).unwrap(),
{
    let e = match EncodedPoint::from_bytes(p) { Ok(e) => e, Err(_) => return None };
    let a = match Option::<AffinePoint>::from(AffinePoint::from_encoded_point(&e)) { Some(a) => a, None => return None };
    let f = match EncodedPoint::from_bytes(q) { Ok(f) => f, Err(_) => return None };
    let b = match Option::<AffinePoint>::from(AffinePoint::from_encoded_point(&f)) { Some(b) => b, None => return None };
    Some((ProjectivePoint::from(a) - ProjectivePoint::from(b)).to_affine().to_encoded_point(false).as_bytes().to_vec())
}

} // verus!
