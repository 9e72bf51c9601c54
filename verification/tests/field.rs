use vole_rust::error::VoleError;
use vole_rust::field::Fe;

#[test]
fn field_add_wraps_at_the_modulus() {
    // p - 1 = 0x0800000000000011000000000000000000000000000000000000000000000000
    let mut bytes = [0u8; 32];
    bytes[31] = 0x08;
    bytes[24] = 0x11;
    let p_minus_1 = Fe::from_bytes_le(&bytes).unwrap();
    let one = Fe::one();
    assert_eq!(p_minus_1.add(&one), Fe::zero());
    assert_eq!(Fe::zero().sub(&one), p_minus_1);
    assert_eq!(p_minus_1.mul(&p_minus_1), one);
}

#[test]
fn field_decoding_rejects_the_modulus() {
    let mut bytes = [0u8; 32];
    bytes[31] = 0x08;
    bytes[24] = 0x11;
    bytes[0] = 0x01;
    assert_eq!(Fe::from_bytes_le(&bytes), Err(VoleError::InvalidField));
    assert_eq!(Fe::from_bytes_reduced(&bytes), Fe::zero());
}

#[test]
fn encoding_a_field_element_and_decoding_it_gives_it_back() {
    for x in [Fe::zero(), Fe::one(), Fe::from_u64(u64::MAX), Fe::from_bytes_reduced(&[0xabu8; 32]), Fe::zero().sub(&Fe::one())] {
        assert_eq!(Fe::from_bytes_le(&x.to_bytes_le()), Ok(x));
        assert_eq!(Fe::from_bytes_reduced(&x.to_bytes_le()), x);
        assert!(x.equals(&x));
    }
    assert_eq!(Fe::from_u64(0x0102).to_bytes_le()[..3], [2u8, 1, 0]);
    assert_eq!(Fe::from_u64(7).neg().add(&Fe::from_u64(7)), Fe::zero());
    assert!(!Fe::one().equals(&Fe::zero()));
}

#[test]
fn field_arithmetic_on_small_values() {
    let a = Fe::from_u64(12345);
    let b = Fe::from_u64(54321);
    assert_eq!(a.mul(&b), Fe::from_u64(670592745));
    assert_eq!(a.add(&b), Fe::from_u64(66666));
    assert_eq!(b.sub(&a), Fe::from_u64(41976));
    // 2^64 * 2^64 = 2^128
    let big = Fe::from_u64(u64::MAX).add(&Fe::one());
    let mut bytes = [0u8; 32];
    bytes[16] = 1;
    assert_eq!(big.mul(&big), Fe::from_bytes_le(&bytes).unwrap());
}

#[test]
fn random_field_elements_are_canonical_and_differ() {
    let a = vole_rust::utils::rand_field_element();
    let b = vole_rust::utils::rand_field_element();
    assert_ne!(a, b);
    assert_eq!(Fe::from_bytes_le(&a.to_bytes_le()), Ok(a));
    let mut bytes = [0xffu8; 32];
    // 2^256 - 1 modulo the prime
    let reduced = Fe::from_bytes_reduced(&bytes);
    assert_eq!(Fe::from_bytes_le(&reduced.to_bytes_le()), Ok(reduced));
    assert_eq!(Fe::from_bytes_le(&bytes), Err(VoleError::InvalidField));
    bytes = [0u8; 32];
    bytes[0] = 9;
    assert_eq!(Fe::from_bytes_reduced(&bytes), Fe::from_u64(9));
    // the prime itself is not canonical, and reduces to zero
    let mut p = [0u8; 32];
    p[0] = 1;
    p[24] = 0x11;
    p[31] = 0x08;
    assert_eq!(Fe::from_bytes_le(&p), Err(VoleError::InvalidField));
    assert_eq!(Fe::from_bytes_reduced(&p), Fe::zero());
    p[0] = 0;
    assert_eq!(Fe::from_bytes_le(&p).unwrap().add(&Fe::one()), Fe::zero());
}
