//! The ways in which decoding or streaming can fail.

use vstd::prelude::*;

verus! {

/// Why an operation was refused.
#[derive(Clone, Copy, Debug, PartialEq, Eq, Structural)]
pub enum CodecError {
    /// A visible input byte is neither a symbol of the alphabet nor padding.
    InvalidSymbol,
    /// Padding starts before the third symbol of a group, or is followed by
    /// a symbol that is not padding inside the same group.
    InvalidPadding,
    /// The visible symbols end in the middle of a group.
    TruncatedInput,
    /// The streaming writer was used after it had been closed.
    WriterClosed,
}

} // verus!
