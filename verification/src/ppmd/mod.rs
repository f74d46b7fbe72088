//! PPMd, variant H: prediction by partial matching.
//!
//! The model counts which bytes followed which contexts, of up to `order` bytes,
//! and a range decoder reads bytes by the shares that the counts give them. Streams
//! are decoded; there is no encoder.
//!
//! See [`decoder`] for the header that a stream has here. Archives keep the order
//! and the memory elsewhere, and the code is the same.
pub mod allocator;
pub mod arena;
pub mod carryless;
pub mod decoder;
pub mod heap;
pub mod interval;
pub mod model;
pub mod ppmd7;
pub mod range_dec;
pub mod tables;
pub mod wire;

pub use decoder::Decoder;

use vstd::prelude::*;

use crate::error::Error;
use crate::traits::{Algorithm, RawDecoder, RawEncoder, RawProgress};
use decoder::Stage;

verus! {

/// The PPMd codec.
#[derive(Debug, Clone, Copy, Default)]
pub struct Ppmd;

impl Algorithm for Ppmd {
    const NAME: &'static str = "ppmd";

    type Encoder = Encoder;

    type Decoder = Decoder;

    type EncoderConfig = ();

    type DecoderConfig = ();

    open spec fn is_encoder_with(config: (), e: Encoder) -> bool {
        e.inv()
    }

    open spec fn is_decoder_with(config: (), d: Decoder) -> bool {
        d.inv() && d.stage() == Stage::Buffering(Seq::empty())
    }

    fn encoder_with(config: ()) -> (e: Encoder) {
        Encoder::new()
    }

    fn decoder_with(config: ()) -> (d: Decoder) {
        Decoder::new()
    }
}

/// Stands for an encoder: every call returns [`Error::Unsupported`].
#[derive(Debug)]
pub struct Encoder;

impl Encoder {
    /// An encoder.
    pub fn new() -> (e: Self)
        ensures
            e.inv(),
    {
        Encoder
    }
}

impl Default for Encoder {
    fn default() -> (e: Self)
        ensures
            e.inv(),
    {
        Encoder::new()
    }
}

impl RawEncoder for Encoder {
    open spec fn inv(&self) -> bool {
        true
    }

    open spec fn encode_post(
        before: Self,
        input: Seq<u8>,
        old_output: Seq<u8>,
        after: Self,
        new_output: Seq<u8>,
        r: Result<RawProgress, Error>,
    ) -> bool {
        r == Err::<RawProgress, Error>(Error::Unsupported) && new_output == old_output
    }

    open spec fn finish_post(
        before: Self,
        old_output: Seq<u8>,
        after: Self,
        new_output: Seq<u8>,
        r: Result<RawProgress, Error>,
    ) -> bool {
        r == Err::<RawProgress, Error>(Error::Unsupported) && new_output == old_output
    }

    open spec fn reset_post(before: Self, after: Self) -> bool {
        after == before
    }

    fn raw_encode(&mut self, input: &[u8], output: &mut [u8]) -> (r: Result<RawProgress, Error>) {
        Err(Error::Unsupported)
    }

    fn raw_finish(&mut self, output: &mut [u8]) -> (r: Result<RawProgress, Error>) {
        Err(Error::Unsupported)
    }

    fn raw_reset(&mut self) {
    }
}

} // verus!
