//! RAR 1, of which nothing is supported: there is neither an encoder nor a decoder.
use vstd::prelude::*;

use crate::error::Error;
use crate::traits::{Algorithm, RawDecoder, RawEncoder, RawProgress};

verus! {

/// The RAR 1 codec.
#[derive(Debug, Clone, Copy, Default)]
pub struct Rar1;

impl Algorithm for Rar1 {
    const NAME: &'static str = "rar1";

    type Encoder = Encoder;

    type Decoder = Decoder;

    type EncoderConfig = ();

    type DecoderConfig = ();

    open spec fn is_encoder_with(config: (), e: Encoder) -> bool {
        e.inv()
    }

    open spec fn is_decoder_with(config: (), d: Decoder) -> bool {
        d.inv()
    }

    fn encoder_with(config: ()) -> (e: Encoder) {
        Encoder::new()
    }

    fn decoder_with(config: ()) -> (d: Decoder) {
        Decoder::new()
    }
}

/// Stands for an encoder: every call returns [`Error::Unsupported`].
#[derive(Debug)]
pub struct Encoder;

impl Encoder {
    /// An encoder.
    pub fn new() -> (e: Self)
        ensures
            e.inv(),
    {
        Encoder
    }
}

impl Default for Encoder {
    fn default() -> (e: Self)
        ensures
            e.inv(),
    {
        Encoder::new()
    }
}

impl RawEncoder for Encoder {
    open spec fn inv(&self) -> bool {
        true
    }

    open spec fn encode_post(
        before: Self,
        input: Seq<u8>,
        old_output: Seq<u8>,
        after: Self,
        new_output: Seq<u8>,
        r: Result<RawProgress, Error>,
    ) -> bool {
        r == Err::<RawProgress, Error>(Error::Unsupported) && new_output == old_output
    }

    open spec fn finish_post(
        before: Self,
        old_output: Seq<u8>,
        after: Self,
        new_output: Seq<u8>,
        r: Result<RawProgress, Error>,
    ) -> bool {
        r == Err::<RawProgress, Error>(Error::Unsupported) && new_output == old_output
    }

    open spec fn reset_post(before: Self, after: Self) -> bool {
        after == before
    }

    fn raw_encode(&mut self, input: &[u8], output: &mut [u8]) -> (r: Result<RawProgress, Error>) {
        Err(Error::Unsupported)
    }

    fn raw_finish(&mut self, output: &mut [u8]) -> (r: Result<RawProgress, Error>) {
        Err(Error::Unsupported)
    }

    fn raw_reset(&mut self) {
    }
}

/// Stands for a decoder: every call returns [`Error::Unsupported`].
#[derive(Debug)]
pub struct Decoder;

impl Decoder {
    /// A decoder.
    pub fn new() -> (d: Self)
        ensures
            d.inv(),
    {
        Decoder
    }
}

impl Default for Decoder {
    fn default() -> (d: Self)
        ensures
            d.inv(),
    {
        Decoder::new()
    }
}

impl RawDecoder for Decoder {
    open spec fn inv(&self) -> bool {
        true
    }

    open spec fn decode_post(
        before: Self,
        input: Seq<u8>,
        old_output: Seq<u8>,
        after: Self,
        new_output: Seq<u8>,
        r: Result<RawProgress, Error>,
    ) -> bool {
        r == Err::<RawProgress, Error>(Error::Unsupported) && new_output == old_output
    }

    open spec fn finish_post(
        before: Self,
        old_output: Seq<u8>,
        after: Self,
        new_output: Seq<u8>,
        r: Result<RawProgress, Error>,
    ) -> bool {
        r == Err::<RawProgress, Error>(Error::Unsupported) && new_output == old_output
    }

    open spec fn reset_post(before: Self, after: Self) -> bool {
        after == before
    }

    fn raw_decode(&mut self, input: &[u8], output: &mut [u8]) -> (r: Result<RawProgress, Error>) {
        Err(Error::Unsupported)
    }

    fn raw_finish(&mut self, output: &mut [u8]) -> (r: Result<RawProgress, Error>) {
        Err(Error::Unsupported)
    }

    fn raw_reset(&mut self) {
    }
}

} // verus!
