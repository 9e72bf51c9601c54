use vstd::prelude::*;
use crate::block::{concat16, const_block, fill_block16, le_bytes, lemma_fe_bytes};
use crate::crypto::{aes256, aes256_encrypt};
use crate::field::{le_nat, modulus, Fe};

verus! {

/// The left child of a tree node with field value `v`: AES-256 keyed by the node's encoding, applied to the
/// constant blocks 0 and 1, read as a little-endian integer and reduced.
pub open spec fn ggm_left(v: nat) -> nat {
    le_nat(aes256(le_bytes(v, 32), const_block(0)) + aes256(le_bytes(v, 32), const_block(1))) % modulus()
}

/// The right child of a tree node with field value `v`: as the left child, with the constant blocks 2 and 3.
pub open spec fn ggm_right(v: nat) -> nat {
    le_nat(aes256(le_bytes(v, 32), const_block(2)) + aes256(le_bytes(v, 32), const_block(3))) % modulus()
}

/// The length-doubling expander of the tree: one node gives its two children.
pub struct TwoKeyPRP {}

impl TwoKeyPRP {
    /// The expander; it holds no state.
    pub fn new() -> (r: Self) {
        TwoKeyPRP {  }
    }

    /// The two children of one parent.
    pub fn node_expand_1to2(&self, parent: &Fe) -> (children: [Fe; 2])
        ensures
            children[0].wf(),
            children[1].wf(),
            children[0].value() == ggm_left(parent.value()),
            children[1].value() == ggm_right(parent.value()),
    {
        proof {
            lemma_fe_bytes(*parent);
        }
        let key = parent.to_bytes_le();
        assert(key@ == le_bytes(parent.value(), 32));
        let e0 = aes256_encrypt(&key, &fill_block16(0));
        let e1 = aes256_encrypt(&key, &fill_block16(1));
        let e2 = aes256_encrypt(&key, &fill_block16(2));
        let e3 = aes256_encrypt(&key, &fill_block16(3));
        let left = Fe::from_bytes_reduced(&concat16(&e0, &e1));
        let right = Fe::from_bytes_reduced(&concat16(&e2, &e3));
        [left, right]
    }

    /// The four children of two parents, in order.
    pub fn node_expand_2to4(&self, parents: &[Fe; 2]) -> (children: [Fe; 4])
        ensures
            forall|i: int| 0 <= i < 4 ==> (#[trigger] children[i]).wf(),
            forall|i: int| 0 <= i < 2 ==> children[2 * i].value() == ggm_left(#[trigger] parents[i].value()),
            forall|i: int| 0 <= i < 2 ==> children[2 * i + 1].value() == ggm_right(#[trigger] parents[i].value()),
    {
        let a = self.node_expand_1to2(&parents[0]);
        let b = self.node_expand_1to2(&parents[1]);
        [a[0], a[1], b[0], b[1]]
    }

    /// The eight children of four parents, in order.
    pub fn node_expand_4to8(&self, parents: &[Fe; 4]) -> (children: [Fe; 8])
        ensures
            forall|i: int| 0 <= i < 8 ==> (#[trigger] children[i]).wf(),
            forall|i: int| 0 <= i < 4 ==> children[2 * i].value() == ggm_left(#[trigger] parents[i].value()),
            forall|i: int| 0 <= i < 4 ==> children[2 * i + 1].value() == ggm_right(#[trigger] parents[i].value()),
    {
        let a = self.node_expand_1to2(&parents[0]);
        let b = self.node_expand_1to2(&parents[1]);
        let c = self.node_expand_1to2(&parents[2]);
        let d = self.node_expand_1to2(&parents[3]);
        [a[0], a[1], b[0], b[1], c[0], c[1], d[0], d[1]]
    }
}

} // verus!
