use vstd::prelude::*;
use vstd::arithmetic::div_mod::*;
use crate::block::{bit_at, concat16, le_bytes, u64_to_le, zeros};
use crate::crypto::{aes128, aes128_encrypt, random_block16};
use crate::field::{le_nat, modulus, Fe};

verus! {

/// A counter value brought back into 64 bits.
pub open spec fn wrap64(c: int) -> int {
    c % 0x1_0000_0000_0000_0000
}

/// The block that is encrypted for counter value `c`: eight zero bytes, then the counter, lowest byte first.
pub open spec fn counter_block(c: int) -> Seq<u8> {
    zeros(8) + le_bytes(wrap64(c) as nat, 8)
}

/// Block `c` of the key stream under `key`: the sixteen bytes that AES-128 makes of counter block `c`.
pub open spec fn keystream(key: Seq<u8>, c: int) -> Seq<u8> {
    Seq::new(16, |i: int| aes128(key, counter_block(c))[i])
}

/// Blocks `c` and `c + 1` of the key stream, one after the other.
pub open spec fn keystream32(key: Seq<u8>, c: int) -> Seq<u8> {
    keystream(key, c) + keystream(key, c + 1)
}

/// The field element drawn from blocks `c` and `c + 1` of the key stream.
pub open spec fn stream_field(key: Seq<u8>, c: int) -> nat {
    le_nat(keystream32(key, c)) % modulus()
}

/// Bit `i` of the key stream that starts at block `c`.
pub open spec fn stream_bit(key: Seq<u8>, c: int, i: int) -> bool {
    bit_at(keystream(key, c + i / 128), i % 128)
}

/// Byte `i` of the key stream that starts at block `c`.
pub open spec fn stream_byte(key: Seq<u8>, c: int, i: int) -> u8 {
    keystream(key, c + i / 16)[i % 16]
}

/// The key that a seed and an id give: the id, lowest byte first, is mixed into the seed's first eight bytes.
pub open spec fn mix_id(seed: Seq<u8>, id: u64) -> Seq<u8> {
    Seq::new(16, |i: int| if i < 8 {
        seed[i] ^ le_bytes(id as nat, 8)[i]
    } else {
        seed[i]
    })
}

/// Bringing a counter back into 64 bits: doing it twice changes nothing, and it may be done before or
/// after a step of one or two.
pub proof fn lemma_wrap64(c: int)
    ensures
        wrap64(wrap64(c)) == wrap64(c),
        wrap64(wrap64(c) + 1) == wrap64(c + 1),
        wrap64(wrap64(c) + 2) == wrap64(c + 2),
        0 <= c < 0x1_0000_0000_0000_0000 ==> wrap64(c) == c,
        0 <= wrap64(c) < 0x1_0000_0000_0000_0000,
{
    let m = 0x1_0000_0000_0000_0000int;
    lemma_mod_twice(c, m);
    lemma_add_mod_noop(c, 1, m);
    lemma_add_mod_noop(c % m, 1, m);
    lemma_add_mod_noop(c, 2, m);
    lemma_add_mod_noop(c % m, 2, m);
    if 0 <= c < m {
        lemma_small_mod(c as nat, m as nat);
    }
}

/// The key stream does not change when the counter it starts from is brought back into 64 bits.
pub proof fn lemma_keystream_wrap(key: Seq<u8>, c: int, i: int)
    ensures
        keystream32(key, wrap64(c) + i) == keystream32(key, c + i),
{
    let m = 0x1_0000_0000_0000_0000int;
    lemma_add_mod_noop(c, i, m);
    lemma_add_mod_noop(c % m, i, m);
    lemma_mod_twice(c, m);
    lemma_add_mod_noop(c, i + 1, m);
    lemma_add_mod_noop(c % m, i + 1, m);
    assert(wrap64(wrap64(c) + i) == wrap64(c + i));
    assert(wrap64(wrap64(c) + i + 1) == wrap64(c + i + 1));
    assert(counter_block(wrap64(c) + i) == counter_block(c + i));
    assert(counter_block(wrap64(c) + i + 1) == counter_block(c + i + 1));
}

/// A pseudorandom generator: AES-128 in counter mode under a key made of a seed and an id.
#[derive(Clone, Copy)]
pub struct PRG {
    pub counter: u64,
    pub key: [u8; 16],
}

impl PRG {
    /// A generator for a seed and an id, at counter zero. Without a seed, sixteen random bytes take its
    /// place.
    pub fn new(seed: Option<&[u8; 16]>, id: u64) -> (r: PRG)
        ensures
            r.counter == 0,
            seed matches Some(s) ==> r.key@ == mix_id(s@, id),
    {
        let mut key = match seed {
            Some(s) => *s,
            None => PRG::generate_random_key(),
        };
        PRG::apply_id_to_key(&mut key, id);
        PRG { counter: 0, key }
    }

    /// Sixteen bytes from the system's generator.
    fn generate_random_key() -> (r: [u8; 16]) {
        random_block16()
    }

    /// Mixes the id, lowest byte first, into the first eight bytes of the key.
    fn apply_id_to_key(key: &mut [u8; 16], id: u64)
        ensures
            final(key)@ == mix_id(old(key)@, id),
    {
        let id_bytes = u64_to_le(id);
        let mut i: usize = 0;
        while i < 8
            invariant
                i <= 8,
                id_bytes@ == le_bytes(id as nat, 8),
                forall|j: int| 0 <= j < i ==> key[j] == old(key)[j] ^ id_bytes[j],
                forall|j: int| i <= j < 16 ==> key[j] == old(key)[j],
            decreases 8 - i,
        {
            key[i] = key[i] ^ id_bytes[i];
            i += 1;
        }
        assert(key@ =~= mix_id(old(key)@, id));
    }

    /// Starts over with a new seed and id, at counter zero.
    pub fn reseed(&mut self, seed: &[u8; 16], id: u64)
        ensures
            final(self).counter == 0,
            final(self).key@ == mix_id(seed@, id),
    {
        let mut key = *seed;
        PRG::apply_id_to_key(&mut key, id);
        self.key = key;
        self.counter = 0;
    }

    /// The next block of the key stream.
    fn next_block(&mut self) -> (r: [u8; 16])
        ensures
            r@ == keystream(old(self).key@, old(self).counter as int),
            final(self).counter == wrap64(old(self).counter + 1),
            final(self).key == old(self).key,
    {
        let c = u64_to_le(self.counter);
        let mut block = [0u8; 16];
        let mut i: usize = 0;
        while i < 8
            invariant
                i <= 8,
                forall|j: int| 0 <= j < 8 ==> block[j] == 0,
                forall|j: int| 0 <= j < i ==> block[8 + j] == c[j],
            decreases 8 - i,
        {
            block[8 + i] = c[i];
            i += 1;
        }
        proof {
            lemma_wrap64(self.counter as int);
            assert(block@ =~= counter_block(self.counter as int));
        }
        let r = aes128_encrypt(&self.key, &block);
        assert(r@ =~= keystream(self.key@, self.counter as int));
        self.counter = if self.counter == u64::MAX {
            0
        } else {
            self.counter + 1
        };
        proof {
            if old(self).counter == u64::MAX {
                assert(wrap64(old(self).counter + 1) == 0);
            } else {
                lemma_wrap64(old(self).counter + 1);
            }
        }
        r
    }

    /// The next `n` blocks of the key stream.
    pub fn random_block(&mut self, n: usize) -> (r: Vec<[u8; 16]>)
        ensures
            r.len() == n,
            forall|i: int| 0 <= i < n ==> (#[trigger] r[i])@ == keystream(old(self).key@, old(self).counter + i),
            final(self).counter == wrap64(old(self).counter + n),
            final(self).key == old(self).key,
    {
        let mut r: Vec<[u8; 16]> = Vec::new();
        let mut i: usize = 0;
        proof {
            lemma_wrap64(self.counter as int);
        }
        while i < n
            invariant
                i <= n,
                r.len() == i,
                self.key == old(self).key,
                self.counter == wrap64(old(self).counter + i),
                forall|j: int| 0 <= j < i ==> (#[trigger] r[j])@ == keystream(old(self).key@, old(self).counter + j),
            decreases n - i,
        {
            let b = self.next_block();
            proof {
                lemma_wrap64(old(self).counter + i);
                assert(counter_block(wrap64(old(self).counter + i)) == counter_block(
                    old(self).counter + i,
                ));
            }
            r.push(b);
            i += 1;
        }
        r
    }

    /// The next `n` 32-byte blocks: each takes two blocks of the key stream.
    pub fn random_32byte_block(&mut self, n: usize) -> (r: Vec<[u8; 32]>)
        ensures
            r.len() == n,
            forall|i: int| 0 <= i < n ==> (#[trigger] r[i])@ == keystream32(old(self).key@, old(self).counter + 2 * i),
            final(self).counter == wrap64(old(self).counter + 2 * n),
            final(self).key == old(self).key,
    {
        let mut r: Vec<[u8; 32]> = Vec::new();
        let mut i: usize = 0;
        proof {
            lemma_wrap64(self.counter as int);
        }
        while i < n
            invariant
                i <= n,
                r.len() == i,
                self.key == old(self).key,
                self.counter == wrap64(old(self).counter + 2 * i),
                forall|j: int| 0 <= j < i ==> (#[trigger] r[j])@ == keystream32(
                    old(self).key@,
                    old(self).counter + 2 * j,
                ),
            decreases n - i,
        {
            let ghost c = old(self).counter + 2 * i;
            let a = self.next_block();
            let b = self.next_block();
            proof {
                lemma_wrap64(c);
                assert(counter_block(wrap64(c)) == counter_block(c));
                assert(counter_block(wrap64(c + 1)) == counter_block(c + 1)) by {
                    lemma_wrap64(c + 1);
                }
            }
            r.push(concat16(&a, &b));
            i += 1;
        }
        r
    }

    /// The next `n` field elements: each takes 32 bytes of the key stream, read as a little-endian integer
    /// and reduced modulo the prime.
    pub fn random_stark252_elements(&mut self, n: usize) -> (r: Vec<Fe>)
        ensures
            r.len() == n,
            forall|i: int| 0 <= i < n ==> (#[trigger] r[i]).wf() && r[i].value() == stream_field(
                old(self).key@,
                old(self).counter + 2 * i,
            ),
            final(self).counter == wrap64(old(self).counter + 2 * n),
            final(self).key == old(self).key,
    {
        let blocks = self.random_32byte_block(n);
        let mut r: Vec<Fe> = Vec::new();
        let mut i: usize = 0;
        while i < n
            invariant
                i <= n,
                r.len() == i,
                blocks.len() == n,
                forall|j: int| 0 <= j < n ==> (#[trigger] blocks[j])@ == keystream32(
                    old(self).key@,
                    old(self).counter + 2 * j,
                ),
                forall|j: int| 0 <= j < i ==> (#[trigger] r[j]).wf() && r[j].value() == stream_field(
                    old(self).key@,
                    old(self).counter + 2 * j,
                ),
            decreases n - i,
        {
            r.push(Fe::from_bytes_reduced(&blocks[i]));
            i += 1;
        }
        r
    }

    /// The next `n` bits: the key stream read as a bit stream, the bits of each byte from the lowest. Whole
    /// blocks are consumed.
    pub fn random_bool_array(&mut self, n: usize) -> (r: Vec<bool>)
        ensures
            r.len() == n,
            forall|i: int| 0 <= i < n ==> #[trigger] r[i] == stream_bit(old(self).key@, old(self).counter as int, i),
            final(self).counter == wrap64(old(self).counter + (n + 127) / 128),
            final(self).key == old(self).key,
    {
        let nblocks: usize = n / 128 + (if n % 128 == 0 {
            0
        } else {
            1
        });
        assert(nblocks == (n + 127) / 128);
        let blocks = self.random_block(nblocks);
        let mut r: Vec<bool> = Vec::new();
        let mut i: usize = 0;
        while i < n
            invariant
                i <= n,
                r.len() == i,
                blocks.len() == nblocks,
                nblocks == (n + 127) / 128,
                forall|j: int| 0 <= j < nblocks ==> (#[trigger] blocks[j])@ == keystream(
                    old(self).key@,
                    old(self).counter + j,
                ),
                forall|j: int| 0 <= j < i ==> #[trigger] r[j] == stream_bit(
                    old(self).key@,
                    old(self).counter as int,
                    j,
                ),
            decreases n - i,
        {
            let off = i % 128;
            let k: u8 = (off % 8) as u8;
            let bit = (blocks[i / 128][off / 8] >> k) & 1 == 1;
            assert(bit == bit_at(blocks[i as int / 128]@, off as int));
            r.push(bit);
            i += 1;
        }
        r
    }

    /// The next `n` bytes of the key stream. Whole blocks are consumed.
    pub fn fill_bytes(&mut self, n: usize) -> (r: Vec<u8>)
        ensures
            r.len() == n,
            forall|i: int| 0 <= i < n ==> #[trigger] r[i] == stream_byte(old(self).key@, old(self).counter as int, i),
            final(self).counter == wrap64(old(self).counter + (n + 15) / 16),
            final(self).key == old(self).key,
    {
        let nblocks: usize = n / 16 + (if n % 16 == 0 {
            0
        } else {
            1
        });
        assert(nblocks == (n + 15) / 16);
        let blocks = self.random_block(nblocks);
        let mut r: Vec<u8> = Vec::new();
        let mut i: usize = 0;
        while i < n
            invariant
                i <= n,
                r.len() == i,
                blocks.len() == nblocks,
                nblocks == (n + 15) / 16,
                forall|j: int| 0 <= j < nblocks ==> (#[trigger] blocks[j])@ == keystream(
                    old(self).key@,
                    old(self).counter + j,
                ),
                forall|j: int| 0 <= j < i ==> #[trigger] r[j] == stream_byte(
                    old(self).key@,
                    old(self).counter as int,
                    j,
                ),
            decreases n - i,
        {
            r.push(blocks[i / 16][i % 16]);
            i += 1;
        }
        r
    }
}

} // verus!
