use vstd::prelude::*;

verus! {

/// The ways a session can fail. Every error is fatal for the session it occurs in.
#[derive(Clone, Copy, Debug, PartialEq, Eq, Structural)]
pub enum VoleError {
    /// The transport underneath the channel failed.
    Io,
    /// The incoming stream ended before a whole frame was there.
    ShortRead,
    /// A frame's length does not agree with the typed call that reads it.
    WireFormat,
    /// Bytes that should encode a curve point do not.
    InvalidEncoding,
    /// Bytes that should encode a field element are not below the modulus.
    InvalidField,
    /// A sampler of field elements gave up.
    PrgReject,
    /// A consistency check of the malicious-secure protocol failed.
    MaliciousAbort,
    /// A parameter set violates the relations between its sizes.
    ParameterMismatch,
}

} // verus!
