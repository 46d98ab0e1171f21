use vstd::prelude::*;

pub mod error;

verus! {

/// Why a code lookup or a conversion failed.
#[derive(Clone, Copy, Debug, PartialEq, Eq, Structural)]
pub enum Error {
    /// The code is not in the code table.
    UnknownCode,
    /// The raw payload does not have the length that the code fixes.
    RawSize,
    /// The input ends before the full size of the primitive: more data
    /// is needed.
    Shortage,
    /// The first character is not one from which a header length is known.
    UnknownHard,
    /// The header is not filled up with zero digits after the code, a
    /// character of the body is outside the base-64 alphabet, or the pad
    /// bits before the payload are not zero.
    InvalidPayload,
}

} // verus!
