use vstd::prelude::*;

verus! {

/// Why an encoding request was turned down. Nothing is encoded in that case.
#[derive(Clone, Copy, Debug, PartialEq, Eq, Structural)]
pub enum EncodeError {
    /// The value has a set bit at or above the requested width.
    ValueTooWide,
    /// The 16-bit window would reach past bit 63 of the address.
    OffsetOutOfRange,
}

} // verus!
