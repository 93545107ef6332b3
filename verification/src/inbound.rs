//! What one read from a transport brought.

use vstd::prelude::*;

verus! {

/// The outcome of one read attempt.
pub enum Inbound {
    /// Some bytes arrived.
    Bytes(Vec<u8>),
    /// Nothing yet: the read timed out, would have blocked or was interrupted.
    Idle,
    /// The peer closed.
    Closed,
    /// The read failed.
    Failed,
}

/// The bytes that a read brought.
pub open spec fn arrived(got: Inbound) -> Seq<u8> {
    match got {
        Inbound::Bytes(b) => b@,
        _ => Seq::empty(),
    }
}

/// Only a read that brought bytes brings any, and it brings them all.
pub proof fn lemma_arrived(got: Inbound)
    ensures
        got matches Inbound::Bytes(b) ==> arrived(got) == b@,
        !(got is Bytes) ==> arrived(got).len() == 0,
{
}

} // verus!
