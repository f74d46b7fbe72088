//! LZHAM streams in their `LZH0` container.
//!
//! The container starts with thirteen bytes: the magic, the logarithm of the
//! dictionary size (15 to 29), and the unpacked length, low byte first. The header
//! is checked; content is not decoded.
pub mod decoder;

pub use decoder::Decoder;

use vstd::prelude::*;

verus! {

/// Length of the header.
pub const HEADER_LEN: usize = 13;

/// The first bytes, `LZH0`.
pub const MAGIC: [u8; 4] = [0x4C, 0x5A, 0x48, 0x30];

/// The least logarithm of the dictionary size.
pub const MIN_DICT_LOG2: u8 = 15;

/// The greatest logarithm of the dictionary size.
pub const MAX_DICT_LOG2: u8 = 29;

} // verus!
