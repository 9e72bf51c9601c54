use vstd::prelude::*;
use crate::block::{concat16, half_block, le_bytes, lemma_fe_bytes, xor_block16, xor_seq};
use crate::crypto::{aes128, aes128_encrypt, aes256, aes256_encrypt, random_block16};
use crate::field::{le_nat, modulus, Fe};

verus! {

/// A pseudorandom permutation of 16-byte blocks: AES-128 under a fixed key.
pub struct PRP {
    pub key: [u8; 16],
}

impl PRP {
    /// A permutation under the given key; without one, under sixteen random bytes.
    pub fn new(key: Option<&[u8; 16]>) -> (r: Self)
        ensures
            key matches Some(k) ==> r.key == *k,
    {
        match key {
            Some(k) => PRP { key: *k },
            None => PRP { key: random_block16() },
        }
    }

    /// Replaces each block by its image under the permutation.
    pub fn permute_block(&self, data: &mut Vec<[u8; 16]>)
        ensures
            final(data).len() == old(data).len(),
            forall|i: int| 0 <= i < old(data).len() ==> (#[trigger] final(data)[i])@ == aes128(self.key@, old(data)[i]@),
    {
        let mut i: usize = 0;
        while i < data.len()
            invariant
                i <= data.len(),
                data.len() == old(data).len(),
                forall|j: int| 0 <= j < i ==> (#[trigger] data[j])@ == aes128(self.key@, old(data)[j]@),
                forall|j: int| i <= j < data.len() ==> data[j] == old(data)[j],
            decreases data.len() - i,
        {
            let b = data[i];
            data[i] = aes128_encrypt(&self.key, &b);
            i += 1;
        }
    }
}

/// The image of the field value `v` under the field permutation with key `key`: AES-256 keyed by the
/// encoding of `v`, applied to the two halves of `key`, read as a little-endian integer and reduced.
pub open spec fn field_prp(key: Seq<u8>, v: nat) -> nat {
    le_nat(aes256(le_bytes(v, 32), key.take(16)) + aes256(le_bytes(v, 32), key.skip(16))) % modulus()
}

/// A pseudorandom map on field elements with a public 32-byte key.
pub struct FieldPRP {
    pub key: [u8; 32],
}

impl FieldPRP {
    /// A map under the given key; without one, under 32 random bytes.
    pub fn new(seeds: Option<&[u8; 32]>) -> (r: Self)
        ensures
            seeds matches Some(s) ==> r.key == *s,
    {
        match seeds {
            Some(s) => FieldPRP { key: *s },
            None => FieldPRP { key: concat16(&random_block16(), &random_block16()) },
        }
    }

    /// The image of one element.
    pub fn permute(&self, element: &Fe) -> (r: Fe)
        ensures
            r.wf(),
            r.value() == field_prp(self.key@, element.value()),
    {
        proof {
            lemma_fe_bytes(*element);
        }
        let k = element.to_bytes_le();
        let a = aes256_encrypt(&k, &half_block(&self.key, false));
        let b = aes256_encrypt(&k, &half_block(&self.key, true));
        Fe::from_bytes_reduced(&concat16(&a, &b))
    }

    /// Replaces each element by its image.
    pub fn permute_block(&self, data: &mut Vec<Fe>)
        ensures
            final(data).len() == old(data).len(),
            forall|i: int| 0 <= i < old(data).len() ==> (#[trigger] final(data)[i]).wf() && final(data)[i].value()
                == field_prp(self.key@, old(data)[i].value()),
    {
        let mut i: usize = 0;
        while i < data.len()
            invariant
                i <= data.len(),
                data.len() == old(data).len(),
                forall|j: int| 0 <= j < i ==> (#[trigger] data[j]).wf() && data[j].value() == field_prp(
                    self.key@,
                    old(data)[j].value(),
                ),
                forall|j: int| i <= j < data.len() ==> data[j] == old(data)[j],
            decreases data.len() - i,
        {
            let e = data[i];
            data[i] = self.permute(&e);
            i += 1;
        }
    }
}

/// The two halves after `n` rounds of the Feistel network: each round moves the right half to the left and
/// makes the new right half the encryption of the old right half exclusive-or the old left half.
pub open spec fn feistel(keys: Seq<[u8; 16]>, l: Seq<u8>, r: Seq<u8>, n: nat) -> (Seq<u8>, Seq<u8>)
    decreases n,
{
    if n == 0 {
        (l, r)
    } else {
        let (pl, pr) = feistel(keys, l, r, (n - 1) as nat);
        (pr, xor_seq(aes128(keys[n - 1]@, pr), pl))
    }
}

/// The image of the field value `v` under the four-round Luby-Rackoff network with the given round keys.
pub open spec fn luby_rackoff(keys: Seq<[u8; 16]>, v: nat) -> nat {
    let b = le_bytes(v, 32);
    let (l, r) = feistel(keys, b.take(16), b.skip(16), 4);
    le_nat(l + r) % modulus()
}

/// A pseudorandom map on field elements: a four-round Luby-Rackoff network over AES-128.
pub struct LubyRackoffPRP {
    pub keys: [[u8; 16]; 4],
}

impl LubyRackoffPRP {
    /// A network with the given round keys; without them, with random ones.
    pub fn new(seeds: Option<&[[u8; 16]; 4]>) -> (r: Self)
        ensures
            seeds matches Some(s) ==> r.keys == *s,
    {
        match seeds {
            Some(s) => LubyRackoffPRP { keys: *s },
            None => LubyRackoffPRP {
                keys: [random_block16(), random_block16(), random_block16(), random_block16()],
            },
        }
    }

    /// The image of one element.
    pub fn permute(&self, element: &Fe) -> (r: Fe)
        ensures
            r.wf(),
            r.value() == luby_rackoff(self.keys@, element.value()),
    {
        proof {
            lemma_fe_bytes(*element);
        }
        let bytes = element.to_bytes_le();
        let mut left = half_block(&bytes, false);
        let mut right = half_block(&bytes, true);
        let ghost l0 = left@;
        let ghost r0 = right@;
        let mut i: usize = 0;
        while i < 4
            invariant
                i <= 4,
                (left@, right@) == feistel(self.keys@, l0, r0, i as nat),
            decreases 4 - i,
        {
            let tmp = left;
            left = right;
            let enc = aes128_encrypt(&self.keys[i], &right);
            right = xor_block16(&enc, &tmp);
            i += 1;
        }
        Fe::from_bytes_reduced(&concat16(&left, &right))
    }

    /// Replaces each element by its image.
    pub fn permute_block(&self, data: &mut Vec<Fe>)
        ensures
            final(data).len() == old(data).len(),
            forall|i: int| 0 <= i < old(data).len() ==> (#[trigger] final(data)[i]).wf() && final(data)[i].value()
                == luby_rackoff(self.keys@, old(data)[i].value()),
    {
        let mut i: usize = 0;
        while i < data.len()
            invariant
                i <= data.len(),
                data.len() == old(data).len(),
                forall|j: int| 0 <= j < i ==> (#[trigger] data[j]).wf() && data[j].value() == luby_rackoff(
                    self.keys@,
                    old(data)[j].value(),
                ),
                forall|j: int| i <= j < data.len() ==> data[j] == old(data)[j],
            decreases data.len() - i,
        {
            let e = data[i];
            data[i] = self.permute(&e);
            i += 1;
        }
    }
}

/// Replaces each block of `a` that has a partner in `b` by the exclusive-or of the two.
pub fn xor_block_array(a: &mut Vec<[u8; 16]>, b: &Vec<[u8; 16]>)
    ensures
        final(a).len() == old(a).len(),
        forall|i: int| 0 <= i < old(a).len() && i < b.len() ==> (#[trigger] final(a)[i])@ == xor_seq(old(a)[i]@, b[i]@),
        forall|i: int| b.len() <= i < old(a).len() ==> final(a)[i] == old(a)[i],
{
    let n = if a.len() < b.len() {
        a.len()
    } else {
        b.len()
    };
    let mut i: usize = 0;
    while i < n
        invariant
            i <= n,
            n <= a.len(),
            n <= b.len(),
            n == a.len() || n == b.len(),
            a.len() == old(a).len(),
            forall|j: int| 0 <= j < i ==> (#[trigger] a[j])@ == xor_seq(old(a)[j]@, b[j]@),
            forall|j: int| i <= j < a.len() ==> a[j] == old(a)[j],
        decreases n - i,
    {
        let x = a[i];
        a[i] = xor_generic_arrays(&x, &b[i]);
        i += 1;
    }
}

/// The exclusive-or of two 16-byte blocks.
fn xor_generic_arrays(arr1: &[u8; 16], arr2: &[u8; 16]) -> (r: [u8; 16])
    ensures
        r@ == xor_seq(arr1@, arr2@),
{
    xor_block16(arr1, arr2)
}

} // verus!
