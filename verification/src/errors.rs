use vstd::prelude::*;

verus! {

/// The error type for writing to the buffer.
#[derive(Copy, Clone, Debug, PartialEq, Eq, Structural)]
pub enum Error {
    /// The write was longer than the reserved gap it targeted.
    NotEnoughSpace,
    /// The write targeted bytes that were already received.
    WouldOverwrite,
}

} // verus!
