use vstd::prelude::*;
use crate::block::concat16;
use crate::crypto::random_block16;
use crate::field::Fe;

verus! {

/// A random field element: 32 bytes from the system's generator, read as `Fe::from_bytes_reduced` reads
/// them. Which element comes out is left open; it is canonical.
pub fn rand_field_element() -> (r: Fe)
    ensures
        r.wf(),
{
    let low = random_block16();
    let high = random_block16();
    Fe::from_bytes_reduced(&concat16(&low, &high))
}

} // verus!
