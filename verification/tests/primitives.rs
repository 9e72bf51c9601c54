use aes::cipher::generic_array::GenericArray;
use aes::cipher::{BlockEncrypt, KeyInit};
use aes::{Aes128, Aes256};
use sha2::{Digest, Sha256};
use vole_rust::block::{u8_to_i128_array, xor_u128};
use vole_rust::clmul::{clmul64, mul128, mul256, vector_inn_prdt_sum_no_red};
use vole_rust::field::{vector_inner_product, Fe};
use vole_rust::hash::{sigma, CCRH};
use vole_rust::iknp::{transpose, BLOCK_SIZE};
use vole_rust::prg::PRG;
use vole_rust::prp::{xor_block_array, FieldPRP, LubyRackoffPRP, PRP};
use vole_rust::spfss_sender::uni_hash_coeff_gen;
use vole_rust::two_key_prp::TwoKeyPRP;

fn aes128(key: &[u8; 16], block: &[u8; 16]) -> [u8; 16] {
    let cipher = Aes128::new(&GenericArray::from(*key));
    let mut b = GenericArray::from(*block);
    cipher.encrypt_block(&mut b);
    b.into()
}

fn aes256(key: &[u8; 32], block: &[u8; 16]) -> [u8; 16] {
    let cipher = Aes256::new(&GenericArray::from(*key));
    let mut b = GenericArray::from(*block);
    cipher.encrypt_block(&mut b);
    b.into()
}

#[test]
fn prg_is_aes_in_counter_mode_with_the_id_mixed_into_the_key() {
    let seed = [0x11u8; 16];
    let mut prg = PRG::new(Some(&seed), 0x0102);
    let mut key = seed;
    key[0] ^= 0x02;
    key[1] ^= 0x01;
    assert_eq!(prg.key, key);
    let blocks = prg.random_block(3);
    for c in 0..3u8 {
        let mut plain = [0u8; 16];
        plain[8] = c;
        assert_eq!(blocks[c as usize], aes128(&key, &plain));
    }
    assert_eq!(prg.counter, 3);
    let wide = prg.random_32byte_block(1);
    let mut p3 = [0u8; 16];
    p3[8] = 3;
    let mut p4 = [0u8; 16];
    p4[8] = 4;
    assert_eq!(&wide[0][..16], &aes128(&key, &p3));
    assert_eq!(&wide[0][16..], &aes128(&key, &p4));
    prg.reseed(&seed, 0x0102);
    assert_eq!(prg.counter, 0);
    assert_eq!(prg.random_block(1)[0], blocks[0]);
}

#[test]
fn prg_field_elements_bits_and_bytes_come_from_the_same_stream() {
    let seed = [3u8; 16];
    let mut a = PRG::new(Some(&seed), 0);
    let mut b = PRG::new(Some(&seed), 0);
    let mut c = PRG::new(Some(&seed), 0);
    let mut d = PRG::new(Some(&seed), 0);
    let wide = a.random_32byte_block(2);
    let elements = b.random_stark252_elements(2);
    assert_eq!(elements[0], Fe::from_bytes_reduced(&wide[0]));
    assert_eq!(elements[1], Fe::from_bytes_reduced(&wide[1]));
    let bits = c.random_bool_array(130);
    let bytes = d.fill_bytes(17);
    assert_eq!(&bytes[..16], &wide[0][..16]);
    assert_eq!(bytes[16], wide[0][16]);
    for i in 0..128 {
        assert_eq!(bits[i], (wide[0][i / 8] >> (i % 8)) & 1 == 1);
    }
    assert_eq!(bits[128], wide[0][16] & 1 == 1);
    assert_eq!(c.counter, 2);
    assert_eq!(d.counter, 2);
}

#[test]
fn prg_without_a_seed_differs_from_run_to_run() {
    let mut a = PRG::new(None, 0);
    let mut b = PRG::new(None, 0);
    assert_ne!(a.random_block(1), b.random_block(1));
}

#[test]
fn hash_is_sha256_of_what_was_put_in() {
    let mut h = vole_rust::hash::Hash::new();
    h.put(b"ab");
    h.put(b"c");
    let d = h.digest();
    let expected: [u8; 32] = Sha256::digest(b"abc").into();
    assert_eq!(d, expected);
    assert_eq!(d[0], 0xba);
    assert_eq!(d[31], 0xad);
    // the hash starts over after a digest
    h.put_block(&[[1u8; 16], [2u8; 16]]);
    let mut both = vec![1u8; 16];
    both.extend(vec![2u8; 16]);
    let e2: [u8; 32] = Sha256::digest(&both).into();
    assert_eq!(h.digest(), e2);
    h.put(b"x");
    h.reset();
    let empty: [u8; 32] = Sha256::digest(b"").into();
    assert_eq!(h.digest(), empty);
    assert_eq!(vole_rust::hash::Hash::hash_once(b"abc"), expected);
    assert_eq!(vole_rust::hash::Hash::hash_for_block(b"abc"), expected[..16]);
    let mut with_id = b"pt".to_vec();
    with_id.extend(7u64.to_le_bytes());
    let e3: [u8; 32] = Sha256::digest(&with_id).into();
    assert_eq!(vole_rust::hash::Hash::kdf(b"pt", 7), e3[..16]);
    assert_eq!(h.hash_32byte_block(&[0u8; 32]), <[u8; 32]>::from(Sha256::digest([0u8; 32])));
}

#[test]
fn ccrh_is_the_permutation_of_sigma_plus_sigma() {
    let mut x = [0u8; 32];
    for i in 0..32 {
        x[i] = i as u8;
    }
    let s = sigma(&x);
    for half in 0..2 {
        for i in 0..8 {
            assert_eq!(s[16 * half + i], x[16 * half + 8 + i] ^ x[16 * half + i]);
            assert_eq!(s[16 * half + 8 + i], x[16 * half + i]);
        }
    }
    let ccrh = CCRH::new();
    let h = ccrh.h(&x);
    let p0 = aes256(&s, &[0u8; 16]);
    let p1 = aes256(&s, &[1u8; 16]);
    for i in 0..16 {
        assert_eq!(h[i], s[i] ^ p0[i]);
        assert_eq!(h[16 + i], s[16 + i] ^ p1[i]);
    }
    let many = ccrh.hn(&vec![x, [0u8; 32]]);
    assert_eq!(many[0], h);
    assert_eq!(many[1], ccrh.h(&[0u8; 32]));
    let mut blocks = vec![s];
    ccrh.permute_block(&mut blocks);
    assert_eq!(&blocks[0][..16], &p0);
    assert_eq!(&blocks[0][16..], &p1);
}

#[test]
fn sigma_is_invertible() {
    let mut x = [0u8; 32];
    for i in 0..32 {
        x[i] = (37 * i + 11) as u8;
    }
    let y = sigma(&x);
    let mut back = [0u8; 32];
    for i in 0..32 {
        back[i] = if i % 16 < 8 { y[i + 8] } else { y[i - 8] ^ y[i] };
    }
    assert_eq!(back, x);
}

#[test]
fn two_key_prp_expands_a_node_with_aes256_keyed_by_the_node() {
    let parent = Fe::from_u64(0xdead_beef);
    let key = parent.to_bytes_le();
    let prp = TwoKeyPRP::new();
    let children = prp.node_expand_1to2(&parent);
    let mut left = [0u8; 32];
    left[..16].copy_from_slice(&aes256(&key, &[0u8; 16]));
    left[16..].copy_from_slice(&aes256(&key, &[1u8; 16]));
    let mut right = [0u8; 32];
    right[..16].copy_from_slice(&aes256(&key, &[2u8; 16]));
    right[16..].copy_from_slice(&aes256(&key, &[3u8; 16]));
    assert_eq!(children[0], Fe::from_bytes_reduced(&left));
    assert_eq!(children[1], Fe::from_bytes_reduced(&right));
    assert_ne!(children[0], children[1]);
    let other = Fe::from_u64(1);
    let four = prp.node_expand_2to4(&[parent, other]);
    assert_eq!(four[0], children[0]);
    assert_eq!(four[1], children[1]);
    assert_eq!(four[2], prp.node_expand_1to2(&other)[0]);
    let eight = prp.node_expand_4to8(&[parent, other, parent, other]);
    assert_eq!(eight[5], children[1]);
    assert_eq!(eight[7], prp.node_expand_1to2(&other)[1]);
}

#[test]
fn block_and_field_permutations() {
    let key = [5u8; 16];
    let prp = PRP::new(Some(&key));
    let mut data = vec![[1u8; 16], [2u8; 16]];
    prp.permute_block(&mut data);
    assert_eq!(data[0], aes128(&key, &[1u8; 16]));
    assert_eq!(data[1], aes128(&key, &[2u8; 16]));

    let fkey = [9u8; 32];
    let fprp = FieldPRP::new(Some(&fkey));
    let x = Fe::from_u64(77);
    let mut v = vec![x];
    fprp.permute_block(&mut v);
    let mut bytes = [0u8; 32];
    bytes[..16].copy_from_slice(&aes256(&x.to_bytes_le(), &[9u8; 16]));
    bytes[16..].copy_from_slice(&aes256(&x.to_bytes_le(), &[9u8; 16]));
    assert_eq!(v[0], Fe::from_bytes_reduced(&bytes));
    assert_eq!(fprp.permute(&x), v[0]);

    let keys = [[1u8; 16], [2u8; 16], [3u8; 16], [4u8; 16]];
    let lr = LubyRackoffPRP::new(Some(&keys));
    let xb = x.to_bytes_le();
    let mut l: [u8; 16] = xb[..16].try_into().unwrap();
    let mut r: [u8; 16] = xb[16..].try_into().unwrap();
    for k in keys.iter() {
        let e = aes128(k, &r);
        let mut nr = [0u8; 16];
        for i in 0..16 {
            nr[i] = e[i] ^ l[i];
        }
        l = r;
        r = nr;
    }
    let mut out = [0u8; 32];
    out[..16].copy_from_slice(&l);
    out[16..].copy_from_slice(&r);
    let mut w = vec![x];
    lr.permute_block(&mut w);
    assert_eq!(w[0], Fe::from_bytes_reduced(&out));

    let mut a = vec![[0xf0u8; 16], [1u8; 16], [2u8; 16]];
    xor_block_array(&mut a, &vec![[0x0fu8; 16], [1u8; 16]]);
    assert_eq!(a, vec![[0xffu8; 16], [0u8; 16], [2u8; 16]]);
}

#[test]
fn carry_less_products() {
    assert_eq!(clmul64(3, 3), 5);
    assert_eq!(clmul64(0, 12345), 0);
    assert_eq!(clmul64(1 << 63, 1 << 63), 1u128 << 126);
    assert_eq!(clmul64(u64::MAX, 1), u64::MAX as u128);
    let mut a = [0u8; 32];
    let mut b = [0u8; 32];
    a[0] = 3;
    b[0] = 3;
    let p = mul256(&a, &b);
    let mut e = [0u8; 32];
    e[0] = 5;
    assert_eq!(p[0], e);
    assert_eq!(p[1], [0u8; 32]);
    // x^255 times x^255 is x^510
    let mut top = [0u8; 32];
    top[31] = 0x80;
    let q = mul256(&top, &top);
    assert_eq!(q[0], [0u8; 32]);
    let mut hi = [0u8; 32];
    hi[31] = 0x40;
    assert_eq!(q[1], hi);
    // the inner product adds the products without carries
    let s = vector_inn_prdt_sum_no_red(&vec![a, a, top], 1, &vec![b, top]);
    let p2 = mul256(&a, &b);
    let q2 = mul256(&top, &top);
    for i in 0..32 {
        assert_eq!(s[0][i], p2[0][i] ^ q2[0][i]);
        assert_eq!(s[1][i], p2[1][i] ^ q2[1][i]);
    }
}

#[test]
fn transpose_turns_rows_into_columns() {
    let mut rows = vec![[0u8; 32]; BLOCK_SIZE];
    // bit 5 of row 3, bit 300 of row 255, bit 2047 of row 0
    rows[8 * 3][0] |= 1 << 5;
    rows[8 * 255 + 1][(300 - 256) / 8] |= 1 << ((300 - 256) % 8);
    rows[7][31] |= 0x80;
    let cols = transpose(&rows);
    let bit = |b: &[u8; 32], i: usize| (b[i / 8] >> (i % 8)) & 1 == 1;
    let mut set = 0;
    for (j, c) in cols.iter().enumerate() {
        for i in 0..256 {
            if bit(c, i) {
                set += 1;
                assert!((j, i) == (5, 3) || (j, i) == (300, 255) || (j, i) == (2047, 0));
            }
        }
    }
    assert_eq!(set, 3);
}

#[test]
fn universal_hash_coefficients_are_the_powers_of_the_seed() {
    let seed = Fe::from_u64(3);
    for sz in [0usize, 1, 2, 3, 4, 5, 8, 11] {
        let c = uni_hash_coeff_gen(seed, sz);
        assert_eq!(c.len(), sz);
        let mut p = Fe::one();
        for i in 0..sz {
            p = p.mul(&seed);
            assert_eq!(c[i], p);
        }
    }
    assert_eq!(uni_hash_coeff_gen(seed, 5)[4], Fe::from_u64(243));
    let a = vec![Fe::from_u64(1), Fe::from_u64(2), Fe::from_u64(3)];
    let b = vec![Fe::from_u64(4), Fe::from_u64(5), Fe::from_u64(6)];
    assert_eq!(vector_inner_product(&a, &b), Fe::from_u64(32));
}

#[test]
fn carry_less_products_are_additive_in_both_factors() {
    let mut prg = PRG::new(Some(&[9u8; 16]), 3);
    let v = prg.random_32byte_block(3);
    let (a, b, c) = (v[0], v[1], v[2]);
    let mut bc = [0u8; 32];
    let mut ac = [0u8; 32];
    for i in 0..32 {
        bc[i] = b[i] ^ c[i];
        ac[i] = a[i] ^ c[i];
    }
    let ab = mul256(&a, &b);
    let a_c = mul256(&a, &c);
    let c_b = mul256(&c, &b);
    let right = mul256(&a, &bc);
    let left = mul256(&ac, &b);
    for h in 0..2 {
        for i in 0..32 {
            assert_eq!(right[h][i], ab[h][i] ^ a_c[h][i]);
            assert_eq!(left[h][i], ab[h][i] ^ c_b[h][i]);
        }
    }
    assert_ne!(ab, a_c);
}

#[test]
fn carry_less_product_of_128_bit_blocks() {
    let mut a = [0u8; 16];
    let mut b = [0u8; 16];
    a[0] = 3;
    b[0] = 3;
    let p = mul128(&a, &b);
    let mut five = [0u8; 16];
    five[0] = 5;
    assert_eq!(p, [five, [0u8; 16]]);
    // x^127 times x^127 is x^254
    let mut top = [0u8; 16];
    top[15] = 0x80;
    let mut hi = [0u8; 16];
    hi[15] = 0x40;
    assert_eq!(mul128(&top, &top), [[0u8; 16], hi]);
    // x^64 times (x^64 + 1) is x^128 + x^64
    let mut x64 = [0u8; 16];
    x64[8] = 1;
    let mut c = x64;
    c[0] = 1;
    let mut one = [0u8; 16];
    one[0] = 1;
    assert_eq!(mul128(&x64, &c), [x64, one]);
    // the product agrees with that of the blocks widened to 256 bits
    let mut prg = PRG::new(Some(&[4u8; 16]), 0);
    let v = prg.random_block(2);
    let mut wa = [0u8; 32];
    let mut wb = [0u8; 32];
    wa[..16].copy_from_slice(&v[0]);
    wb[..16].copy_from_slice(&v[1]);
    let narrow = mul128(&v[0], &v[1]);
    let wide = mul256(&wa, &wb);
    assert_eq!(&wide[0][..16], &narrow[0]);
    assert_eq!(&wide[0][16..], &narrow[1]);
    assert_eq!(wide[1], [0u8; 32]);
}

#[test]
fn a_block_as_two_wide_words() {
    let mut block = [0u8; 32];
    block[0] = 1;
    block[15] = 0x80;
    block[16] = 0xff;
    block[17] = 2;
    let words = u8_to_i128_array(block);
    assert_eq!(words, [1u128 + (1u128 << 127), 0x2ff]);
    assert_eq!(xor_u128(&words, &[1, 0xff]), [1u128 << 127, 0x200]);
}
