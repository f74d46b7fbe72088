//! Raw LZMA2 streams.
//!
//! A stream is a series of chunks and a zero byte:
//!
//! * `01` or `02`, a size less one (two bytes, big end first) and as many bytes.
//!   `01` resets the dictionary.
//! * A byte of `80` or more, the low sixteen bits of the size less one, the size
//!   of the code less one, the properties unless bit 6 of the first byte is clear,
//!   and the code. The low five bits of the first byte are the high bits of the
//!   size; bits 5 and 6 say what is reset: nothing, the probabilities, also the
//!   properties, or also the dictionary.
//!
//! The first chunk has to reset the dictionary. The size of the dictionary is not
//! in the stream: a decoder is told, or takes four megabytes.
//!
//! [`Encoder`] cuts its input into pieces of 64 KiB and resets everything before
//! each, so that a chunk can be decoded by itself. A piece that coding would not
//! shorten is stored. Packets are chosen by price, as at the sixth level of
//! [`EncoderParams`](crate::lzma2_internal::lzma2_encoder::EncoderParams); matches
//! reach back four megabytes at most, so that a decoder that was told nothing
//! can follow. [`lzma_payload`] holds a quicker encoder of single chunks.
pub mod decoder;
pub mod encoder;
pub mod lzma_payload;
pub mod series;
pub mod wire;

pub use decoder::{Decoder, DecoderConfig};
pub use encoder::Encoder;

use vstd::prelude::*;

use crate::error::Error;
use crate::traits::{Algorithm, RawDecoder, RawEncoder};
use decoder::{configured, start, DEFAULT_DICT};

verus! {

/// The raw LZMA2 codec.
#[derive(Debug, Clone, Copy, Default)]
pub struct Lzma2;

impl Algorithm for Lzma2 {
    const NAME: &'static str = "lzma2";

    type Encoder = Encoder;

    type Decoder = Decoder;

    type EncoderConfig = ();

    type DecoderConfig = DecoderConfig;

    open spec fn is_encoder_with(config: (), e: Encoder) -> bool {
        e.inv() && e.is_fresh()
    }

    open spec fn is_decoder_with(config: DecoderConfig, d: Decoder) -> bool {
        &&& d.inv()
        &&& d.pending().len() == 0
        &&& d.place() == match configured(config) {
            Some(n) => start(n),
            None => start(DEFAULT_DICT as nat).failed(Error::Corrupt),
        }
    }

    fn encoder_with(config: ()) -> (e: Encoder) {
        Encoder::new()
    }

    fn decoder_with(config: DecoderConfig) -> (d: Decoder) {
        Decoder::new(config)
    }
}

} // verus!
