//! StuffIt method 13: LZ77 with prefix codes, over a window of 64 KiB.
//!
//! This decodes the bytes that a container stores for a member; neither those nor
//! the method say how long the member is, so the container tells. Only members
//! without content are decoded: for others every call returns
//! [`Error::Unsupported`]. The parts of a decoder for such members are here: the
//! bit readers, the prefix codes and the window.
pub mod bits;
pub mod decoder;
pub mod huffman;
pub mod stream;
pub mod tables;
pub mod window;

pub use decoder::Decoder;

use vstd::prelude::*;

use crate::error::Error;
use crate::traits::{Algorithm, RawDecoder, RawEncoder, RawProgress};
use decoder::Stage;

verus! {

/// What a decoder is told.
#[derive(Debug, Clone, Copy)]
pub struct DecoderConfig {
    /// The length of the content, where the container says it.
    pub expected_len: Option<usize>,
}

impl DecoderConfig {
    /// The length of the content is known.
    pub fn with_len(expected_len: usize) -> (c: Self)
        ensures
            c.expected_len == Some(expected_len),
    {
        DecoderConfig { expected_len: Some(expected_len) }
    }
}

impl Default for DecoderConfig {
    fn default() -> (c: Self)
        ensures
            c.expected_len is None,
    {
        DecoderConfig { expected_len: None }
    }
}

/// The method 13 codec.
#[derive(Debug, Clone, Copy, Default)]
pub struct Sit13;

impl Algorithm for Sit13 {
    const NAME: &'static str = "sit13";

    type Encoder = Encoder;

    type Decoder = Decoder;

    type EncoderConfig = ();

    type DecoderConfig = DecoderConfig;

    open spec fn is_encoder_with(config: (), e: Encoder) -> bool {
        e.inv()
    }

    open spec fn is_decoder_with(config: DecoderConfig, d: Decoder) -> bool {
        &&& d.inv()
        &&& d.stage() == d.first_stage()
        &&& d.first_stage() == if config.expected_len == Some(0usize) {
            Stage::Empty
        } else {
            Stage::Payload
        }
    }

    fn encoder_with(config: ()) -> (e: Encoder) {
        Encoder::new()
    }

    fn decoder_with(config: DecoderConfig) -> (d: Decoder) {
        match config.expected_len {
            Some(n) => Decoder::with_len(n),
            None => Decoder::new(),
        }
    }
}

/// Stands for an encoder: every call returns [`Error::Unsupported`].
#[derive(Debug)]
pub struct Encoder;

impl Encoder {
    /// An encoder.
    pub fn new() -> (e: Self)
        ensures
            e.inv(),
    {
        Encoder
    }
}

impl Default for Encoder {
    fn default() -> (e: Self)
        ensures
            e.inv(),
    {
        Encoder::new()
    }
}

impl RawEncoder for Encoder {
    open spec fn inv(&self) -> bool {
        true
    }

    open spec fn encode_post(
        before: Self,
        input: Seq<u8>,
        old_output: Seq<u8>,
        after: Self,
        new_output: Seq<u8>,
        r: Result<RawProgress, Error>,
    ) -> bool {
        r == Err::<RawProgress, Error>(Error::Unsupported) && new_output == old_output
    }

    open spec fn finish_post(
        before: Self,
        old_output: Seq<u8>,
        after: Self,
        new_output: Seq<u8>,
        r: Result<RawProgress, Error>,
    ) -> bool {
        r == Err::<RawProgress, Error>(Error::Unsupported) && new_output == old_output
    }

    open spec fn reset_post(before: Self, after: Self) -> bool {
        after == before
    }

    fn raw_encode(&mut self, input: &[u8], output: &mut [u8]) -> (r: Result<RawProgress, Error>) {
        Err(Error::Unsupported)
    }

    fn raw_finish(&mut self, output: &mut [u8]) -> (r: Result<RawProgress, Error>) {
        Err(Error::Unsupported)
    }

    fn raw_reset(&mut self) {
    }
}

} // verus!
