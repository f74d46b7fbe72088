//! RAR 3: the LZ77 and Huffman decoder with its standard filters.
pub mod bits;
pub mod decoder;
pub mod filter_wire;
pub mod filters;
pub mod huffman;
pub mod tables;
pub mod wire;

pub use decoder::Decoder;
