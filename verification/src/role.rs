use vstd::prelude::*;

verus! {

/// The two parties of a session. The sender holds the correlation key; the receiver holds the choices.
#[derive(Clone, Copy, Debug, PartialEq, Eq, Structural)]
pub enum Role {
    Sender,
    Receiver,
}

} // verus!
