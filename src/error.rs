use vstd::prelude::*;

verus! {

/// The ways a bridge operation can fail. None of them is recovered from
/// inside the bridge: each aborts the current exchange.
#[derive(Clone, Copy, Debug, PartialEq, Eq, Structural)]
pub enum BridgeError {
    /// A memory range lies outside the addressed instance's memory.
    BoundsViolation,
    /// A buffer was requested from a ticket whose queue holds none.
    EmptyQueue,
    /// A ticket was used that was never issued.
    UnknownTicket,
    /// Guest memory could not be grown as far as a payload needs.
    GrowthFailed,
}

} // verus!
