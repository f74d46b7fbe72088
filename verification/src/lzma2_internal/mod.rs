//! The coding of LZMA packets, shared by the codecs that hold LZMA chunks.
pub mod chain;
pub mod coding;
pub mod enc_core;
pub mod format;
pub mod lzma2_decoder;
pub mod lzma2_encoder;
pub mod parser;
pub mod prices;
pub mod window;
