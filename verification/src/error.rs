//! The error type shared by every codec.
use vstd::prelude::*;

verus! {

/// Why a codec call failed.
#[derive(Debug, Clone, Copy, PartialEq, Eq, Structural)]
pub enum Error {
    /// The stream violates the format.
    Corrupt,
    /// The stream ended in the middle of a symbol.
    UnexpectedEnd,
    /// A header field holds a value the format does not allow.
    BadHeader,
    /// The format feature is recognised but not implemented.
    Unsupported,
    /// A back-reference points outside the produced output.
    InvalidDistance,
    /// A set of code lengths does not describe a usable prefix code.
    InvalidHuffmanTree,
    /// The produced length does not match the declared one.
    TrailerMismatch,
    /// The declared output is larger than the decoder will produce.
    OutputLimitExceeded,
}

} // verus!
