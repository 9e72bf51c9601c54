use vstd::prelude::*;
use crate::block::{concat16, const_block, fill_block16, le_bytes, u64_to_le, xor_block, xor_seq};
use crate::comm_channel::{flat16, views16};
use crate::crypto::{aes256, aes256_encrypt, sha256, sha256_digest};

verus! {

/// An incremental SHA-256: what is put in is kept until the digest is asked for.
pub struct Hash {
    /// Everything put in since the hash was made or last reset.
    pub pending: Vec<u8>,
}

/// The key of one base transfer: the first sixteen bytes of the SHA-256 digest of the point's bytes followed
/// by the transfer's index as eight little-endian bytes.
pub open spec fn kdf_spec(point: Seq<u8>, id: u64) -> Seq<u8> {
    sha256_digest(point + le_bytes(id as nat, 8)).take(16)
}

impl Hash {
    /// A hash with nothing put in.
    pub fn new() -> (r: Self)
        ensures
            r.pending@ == Seq::<u8>::empty(),
    {
        Hash { pending: Vec::new() }
    }

    /// Adds data to the hash input.
    pub fn put(&mut self, data: &[u8])
        ensures
            final(self).pending@ == old(self).pending@ + data@,
    {
        let mut i: usize = 0;
        while i < data.len()
            invariant
                i <= data.len(),
                self.pending@ == old(self).pending@ + data@.take(i as int),
            decreases data.len() - i,
        {
            self.pending.push(data[i]);
            assert(data@.take(i as int).push(data@[i as int]) =~= data@.take(i as int + 1));
            i += 1;
        }
        assert(data@.take(data.len() as int) =~= data@);
    }

    /// Adds 16-byte blocks to the hash input, one after the other.
    pub fn put_block(&mut self, blocks: &[[u8; 16]])
        ensures
            final(self).pending@ == old(self).pending@ + flat16(views16(blocks@)),
    {
        let mut i: usize = 0;
        assert(flat16(views16(blocks@)).take(0) =~= Seq::<u8>::empty());
        while i < blocks.len()
            invariant
                i <= blocks.len(),
                self.pending@ == old(self).pending@ + flat16(views16(blocks@)).take(16 * i as int),
            decreases blocks.len() - i,
        {
            let ghost before = self.pending@;
            let b = blocks[i];
            self.put(b.as_slice());
            proof {
                let f = flat16(views16(blocks@));
                assert(f.take(16 * i as int) + b@ =~= f.take(16 * (i as int + 1))) by {
                    assert forall|k: int| 0 <= k < 16 implies f[16 * i as int + k] == b@[k] by {
                        let p = 16 * i as int + k;
                        assert(p / 16 == i as int && p % 16 == k);
                    }
                }
                assert(self.pending@ =~= old(self).pending@ + f.take(16 * (i as int + 1)));
            }
            i += 1;
        }
        assert(flat16(views16(blocks@)).take(16 * blocks.len() as int) =~= flat16(views16(blocks@)));
    }

    /// The SHA-256 digest of everything put in; the hash starts over.
    pub fn digest(&mut self) -> (r: [u8; 32])
        ensures
            r@ == sha256_digest(old(self).pending@),
            final(self).pending@ == Seq::<u8>::empty(),
    {
        let r = sha256(self.pending.as_slice());
        self.pending.clear();
        r
    }

    /// Forgets everything put in.
    pub fn reset(&mut self)
        ensures
            final(self).pending@ == Seq::<u8>::empty(),
    {
        self.pending.clear();
    }

    /// The SHA-256 digest of one 32-byte block.
    pub fn hash_32byte_block(&self, data: &[u8; 32]) -> (r: [u8; 32])
        ensures
            r@ == sha256_digest(data@),
    {
        Self::hash_once(data.as_slice())
    }

    /// The SHA-256 digest of a byte string.
    pub fn hash_once(data: &[u8]) -> (r: [u8; 32])
        ensures
            r@ == sha256_digest(data@),
    {
        let mut hash = Self::new();
        hash.put(data);
        assert(hash.pending@ =~= data@);
        hash.digest()
    }

    /// The first sixteen bytes of the SHA-256 digest of a byte string.
    pub fn hash_for_block(data: &[u8]) -> (r: [u8; 16])
        ensures
            r@ == sha256_digest(data@).take(16),
    {
        let digest = Self::hash_once(data);
        let mut block = [0u8; 16];
        let mut i: usize = 0;
        while i < 16
            invariant
                i <= 16,
                forall|j: int| 0 <= j < i ==> block[j] == digest[j],
            decreases 16 - i,
        {
            block[i] = digest[i];
            i += 1;
        }
        assert(block@ =~= digest@.take(16));
        block
    }

    /// The key derived from a point's bytes and a transfer's index.
    pub fn kdf(point: &[u8], id: u64) -> (r: [u8; 16])
        ensures
            r@ == kdf_spec(point@, id),
    {
        let mut combined: Vec<u8> = Vec::new();
        let mut i: usize = 0;
        while i < point.len()
            invariant
                i <= point.len(),
                combined@ == point@.take(i as int),
            decreases point.len() - i,
        {
            combined.push(point[i]);
            assert(point@.take(i as int).push(point@[i as int]) =~= point@.take(i as int + 1));
            i += 1;
        }
        assert(point@.take(point.len() as int) =~= point@);
        let id_bytes = u64_to_le(id);
        let mut k: usize = 0;
        while k < 8
            invariant
                k <= 8,
                id_bytes@ == le_bytes(id as nat, 8),
                combined@ == point@ + id_bytes@.take(k as int),
            decreases 8 - k,
        {
            combined.push(id_bytes[k]);
            assert(id_bytes@.take(k as int).push(id_bytes@[k as int]) =~= id_bytes@.take(k as int + 1));
            assert(point@ + id_bytes@.take(k as int + 1) =~= (point@ + id_bytes@.take(k as int)).push(
                id_bytes@[k as int],
            ));
            k += 1;
        }
        assert(id_bytes@.take(8) =~= id_bytes@);
        Self::hash_for_block(combined.as_slice())
    }
}

/// The linear map applied before the permutation: in each 16-byte half, the lower eight bytes become the
/// exclusive-or of both eight-byte parts, and the upper eight bytes become the old lower part.
pub open spec fn sigma_spec(x: Seq<u8>) -> Seq<u8> {
    Seq::new(32, |i: int| if i % 16 < 8 {
        x[i + 8] ^ x[i]
    } else {
        x[i - 8]
    })
}

/// The inverse of `sigma_spec`.
pub open spec fn sigma_inverse(y: Seq<u8>) -> Seq<u8> {
    Seq::new(32, |i: int| if i % 16 < 8 {
        y[i + 8]
    } else {
        y[i - 8] ^ y[i]
    })
}

/// The permutation of a 32-byte block: AES-256 keyed by the block itself, applied to the constant blocks of
/// all-zero and all-one bytes.
pub open spec fn permute_spec(x: Seq<u8>) -> Seq<u8> {
    aes256(x, const_block(0)) + aes256(x, const_block(1))
}

/// The circular-correlation-robust hash of a 32-byte block: `pi(sigma(x)) ^ sigma(x)`.
pub open spec fn ccrh(x: Seq<u8>) -> Seq<u8> {
    xor_seq(sigma_spec(x), permute_spec(sigma_spec(x)))
}

/// `sigma_spec` is invertible.
pub proof fn lemma_sigma_invertible(x: Seq<u8>)
    requires
        x.len() == 32,
    ensures
        sigma_inverse(sigma_spec(x)) == x,
{
    let y = sigma_spec(x);
    assert forall|i: int| 0 <= i < 32 implies sigma_inverse(y)[i] == x[i] by {
        if i % 16 < 8 {
            assert((i + 8) % 16 >= 8);
        } else {
            assert((i - 8) % 16 < 8);
            crate::block::lemma_xor_byte_cancel(x[i], x[i - 8]);
        }
    }
    assert(sigma_inverse(y) =~= x);
}

/// The linear map `sigma` on a 32-byte block.
pub fn sigma(input: &[u8; 32]) -> (r: [u8; 32])
    ensures
        r@ == sigma_spec(input@),
{
    let mut r = [0u8; 32];
    let mut i: usize = 0;
    while i < 32
        invariant
            i <= 32,
            forall|j: int| 0 <= j < i ==> r[j] == sigma_spec(input@)[j],
        decreases 32 - i,
    {
        if i % 16 < 8 {
            r[i] = input[i + 8] ^ input[i];
        } else {
            r[i] = input[i - 8];
        }
        i += 1;
    }
    assert(r@ =~= sigma_spec(input@));
    r
}

/// The circular-correlation-robust hash that turns correlated transfers into random ones.
pub struct CCRH {}

impl CCRH {
    /// The hash; it holds no state.
    pub fn new() -> (r: Self) {
        CCRH {  }
    }

    /// Replaces each block by its permutation.
    pub fn permute_block(&self, blocks: &mut Vec<[u8; 32]>)
        ensures
            final(blocks).len() == old(blocks).len(),
            forall|i: int| 0 <= i < old(blocks).len() ==> (#[trigger] final(blocks)[i])@ == permute_spec(old(blocks)[i]@),
    {
        let zero = fill_block16(0);
        let one = fill_block16(1);
        let mut i: usize = 0;
        while i < blocks.len()
            invariant
                i <= blocks.len(),
                blocks.len() == old(blocks).len(),
                zero@ == const_block(0),
                one@ == const_block(1),
                forall|j: int| 0 <= j < i ==> (#[trigger] blocks[j])@ == permute_spec(old(blocks)[j]@),
                forall|j: int| i <= j < blocks.len() ==> blocks[j] == old(blocks)[j],
            decreases blocks.len() - i,
        {
            let key = blocks[i];
            let a = aes256_encrypt(&key, &zero);
            let b = aes256_encrypt(&key, &one);
            blocks[i] = concat16(&a, &b);
            i += 1;
        }
    }

    /// The hash of one block.
    pub fn h(&self, input: &[u8; 32]) -> (r: [u8; 32])
        ensures
            r@ == ccrh(input@),
    {
        let t = sigma(input);
        let mut blocks: Vec<[u8; 32]> = Vec::new();
        blocks.push(t);
        self.permute_block(&mut blocks);
        xor_block(&t, &blocks[0])
    }

    /// The hashes of a sequence of blocks.
    pub fn hn(&self, input: &Vec<[u8; 32]>) -> (r: Vec<[u8; 32]>)
        ensures
            r.len() == input.len(),
            forall|i: int| 0 <= i < input.len() ==> (#[trigger] r[i])@ == ccrh(input[i]@),
    {
        let mut r: Vec<[u8; 32]> = Vec::new();
        let mut i: usize = 0;
        while i < input.len()
            invariant
                i <= input.len(),
                r.len() == i,
                forall|j: int| 0 <= j < i ==> (#[trigger] r[j])@ == ccrh(input[j]@),
            decreases input.len() - i,
        {
            r.push(self.h(&input[i]));
            i += 1;
        }
        r
    }
}

} // verus!
