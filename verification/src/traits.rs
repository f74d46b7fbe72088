//! The streaming interface of the codecs.
//!
//! A codec implements [`RawEncoder`] or [`RawDecoder`]; every such type gets
//! the status-reporting [`Encoder`] or [`Decoder`] interface from it.
use vstd::prelude::*;

use crate::error::Error;

verus! {

/// What one raw codec call did.
#[derive(Debug, Clone, Copy, PartialEq, Eq, Structural)]
pub struct RawProgress {
    /// Bytes taken from the front of the input.
    pub consumed: usize,
    /// Bytes stored at the front of the output.
    pub written: usize,
    /// The stream (or the flush) is complete.
    pub done: bool,
}

/// What one codec call consumed and produced.
#[derive(Debug, Clone, Copy, PartialEq, Eq, Structural)]
pub struct Progress {
    /// Bytes taken from the front of the input.
    pub consumed: usize,
    /// Bytes stored at the front of the output.
    pub written: usize,
}

/// Why a codec call returned.
#[derive(Debug, Clone, Copy, PartialEq, Eq, Structural)]
pub enum Status {
    /// All input was consumed; supply more or finish.
    InputEmpty,
    /// The output slice was too small; supply more room.
    OutputFull,
    /// The stream is complete.
    StreamEnd,
}

/// How thoroughly a flush should commit buffered state.
#[derive(Debug, Clone, Copy, PartialEq, Eq, Structural)]
pub enum Flush {
    /// Make everything fed so far decodable.
    Sync,
    /// As `Sync`, and forget the history.
    Full,
}

/// The output slice after `bytes` were stored at its front.
pub open spec fn stored(old_output: Seq<u8>, bytes: Seq<u8>) -> Seq<u8> {
    bytes + old_output.skip(bytes.len() as int)
}

/// The smaller of two lengths.
pub open spec fn least(a: nat, b: nat) -> nat {
    if a <= b {
        a
    } else {
        b
    }
}

/// The progress of a call that neither consumed nor produced anything.
pub open spec fn idle(done: bool) -> RawProgress {
    RawProgress { consumed: 0, written: 0, done }
}

/// The bounds and the frame that every successful call keeps.
pub open spec fn progress_ok(
    p: RawProgress,
    input: Seq<u8>,
    old_output: Seq<u8>,
    new_output: Seq<u8>,
) -> bool {
    &&& p.consumed <= input.len()
    &&& p.written <= old_output.len()
    &&& new_output.skip(p.written as int) == old_output.skip(p.written as int)
}

/// The status that goes with a raw result over `available` input bytes.
pub open spec fn status_of(p: RawProgress, available: nat) -> Status {
    if p.done {
        Status::StreamEnd
    } else if p.consumed == available {
        Status::InputEmpty
    } else {
        Status::OutputFull
    }
}

/// The status-reporting view of a raw result.
pub open spec fn reported(r: Result<RawProgress, Error>, available: nat) -> Result<
    (Progress, Status),
    Error,
> {
    match r {
        Ok(p) => Ok(
            (Progress { consumed: p.consumed, written: p.written }, status_of(p, available)),
        ),
        Err(e) => Err(e),
    }
}

/// The status-reporting view of a raw finish result: a stream that is not
/// complete is waiting for output room.
pub open spec fn reported_finish(r: Result<RawProgress, Error>) -> Result<
    (Progress, Status),
    Error,
> {
    match r {
        Ok(p) => Ok(
            (
                Progress { consumed: p.consumed, written: p.written },
                if p.done {
                    Status::StreamEnd
                } else {
                    Status::OutputFull
                },
            ),
        ),
        Err(e) => Err(e),
    }
}

/// Turns a raw result over `available` input bytes into a reported one.
pub fn report(r: Result<RawProgress, Error>, available: usize) -> (s: Result<
    (Progress, Status),
    Error,
>)
    ensures
        s == reported(r, available as nat),
{
    match r {
        Ok(p) => {
            let status = if p.done {
                Status::StreamEnd
            } else if p.consumed == available {
                Status::InputEmpty
            } else {
                Status::OutputFull
            };
            Ok((Progress { consumed: p.consumed, written: p.written }, status))
        },
        Err(e) => Err(e),
    }
}

/// Turns a raw finish result into a reported one.
pub fn report_finish(r: Result<RawProgress, Error>) -> (s: Result<(Progress, Status), Error>)
    ensures
        s == reported_finish(r),
{
    match r {
        Ok(p) => {
            let status = if p.done {
                Status::StreamEnd
            } else {
                Status::OutputFull
            };
            Ok((Progress { consumed: p.consumed, written: p.written }, status))
        },
        Err(e) => Err(e),
    }
}

/// Copies as many bytes of `src[from..]` as fit into `output[at..]` and returns
/// how many that were.
pub fn copy_out(src: &[u8], from: usize, output: &mut [u8], at: usize) -> (n: usize)
    requires
        from <= src@.len(),
        at <= old(output)@.len(),
    ensures
        n == least((src@.len() - from) as nat, (old(output)@.len() - at) as nat),
        final(output)@ == old(output)@.take(at as int) + src@.subrange(
            from as int,
            from + n,
        ) + old(output)@.skip(at + n),
{
    let avail: usize = src.len() - from;
    let room: usize = output.len() - at;
    let n: usize = if avail <= room {
        avail
    } else {
        room
    };
    let mut k: usize = 0;
    let ghost before = output@;
    while k < n
        invariant
            k <= n,
            from + n <= src.len(),
            at + n <= output.len(),
            output@.len() == before.len(),
            forall|i: int| 0 <= i < at ==> output@[i] == before[i],
            forall|i: int| at <= i < at + k ==> output@[i] == src@[from + i - at],
            forall|i: int| at + k <= i < before.len() ==> output@[i] == before[i],
        decreases n - k,
    {
        output[at + k] = src[from + k];
        k = k + 1;
    }
    assert(output@ =~= before.take(at as int) + src@.subrange(from as int, from + n)
        + before.skip(at + n));
    n
}

/// An incremental decoder.
pub trait RawDecoder: Sized {
    /// The invariant that every operation keeps.
    spec fn inv(&self) -> bool;

    /// What one decode call does: how the new state, the new output contents and
    /// the result follow from the old state, the input and the old output.
    spec fn decode_post(
        before: Self,
        input: Seq<u8>,
        old_output: Seq<u8>,
        after: Self,
        new_output: Seq<u8>,
        r: Result<RawProgress, Error>,
    ) -> bool;

    /// What one finish call does.
    spec fn finish_post(
        before: Self,
        old_output: Seq<u8>,
        after: Self,
        new_output: Seq<u8>,
        r: Result<RawProgress, Error>,
    ) -> bool;

    /// What a reset does.
    spec fn reset_post(before: Self, after: Self) -> bool;

    /// Feeds `input` and stores decoded bytes into `output`.
    fn raw_decode(&mut self, input: &[u8], output: &mut [u8]) -> (r: Result<RawProgress, Error>)
        requires
            old(self).inv(),
        ensures
            final(self).inv(),
            final(output)@.len() == old(output)@.len(),
            r matches Ok(p) ==> progress_ok(p, input@, old(output)@, final(output)@),
            Self::decode_post(*old(self), input@, old(output)@, *final(self), final(output)@, r),
    ;

    /// Signals the end of the input and stores remaining bytes into `output`.
    fn raw_finish(&mut self, output: &mut [u8]) -> (r: Result<RawProgress, Error>)
        requires
            old(self).inv(),
        ensures
            final(self).inv(),
            final(output)@.len() == old(output)@.len(),
            r matches Ok(p) ==> progress_ok(p, Seq::empty(), old(output)@, final(output)@),
            Self::finish_post(*old(self), old(output)@, *final(self), final(output)@, r),
    ;

    /// Returns to the state of a fresh decoder, keeping its configuration.
    fn raw_reset(&mut self)
        requires
            old(self).inv(),
        ensures
            final(self).inv(),
            Self::reset_post(*old(self), *final(self)),
    ;
}

/// An incremental decoder that reports why each call returned.
pub trait Decoder: RawDecoder {
    /// Feeds `input` and stores decoded bytes into `output`.
    fn decode(&mut self, input: &[u8], output: &mut [u8]) -> (r: Result<(Progress, Status), Error>)
        requires
            old(self).inv(),
        ensures
            final(self).inv(),
            final(output)@.len() == old(output)@.len(),
            exists|raw: Result<RawProgress, Error>|
                r == reported(raw, input@.len()) && #[trigger] Self::decode_post(
                    *old(self),
                    input@,
                    old(output)@,
                    *final(self),
                    final(output)@,
                    raw,
                ),
    {
        let available: usize = input.len();
        let raw = self.raw_decode(input, output);
        let r = report(raw, available);
        assert(r == reported(raw, input@.len()));
        r
    }

    /// Signals the end of the input and stores remaining bytes into `output`.
    fn finish(&mut self, output: &mut [u8]) -> (r: Result<(Progress, Status), Error>)
        requires
            old(self).inv(),
        ensures
            final(self).inv(),
            final(output)@.len() == old(output)@.len(),
            exists|raw: Result<RawProgress, Error>|
                r == reported_finish(raw) && #[trigger] Self::finish_post(
                    *old(self),
                    old(output)@,
                    *final(self),
                    final(output)@,
                    raw,
                ),
    {
        let raw = self.raw_finish(output);
        let r = report_finish(raw);
        assert(r == reported_finish(raw));
        r
    }

    /// Returns to the state of a fresh decoder, keeping its configuration.
    fn reset(&mut self)
        requires
            old(self).inv(),
        ensures
            final(self).inv(),
            Self::reset_post(*old(self), *final(self)),
    {
        self.raw_reset()
    }
}

impl<T: RawDecoder> Decoder for T {

}

/// An incremental encoder.
pub trait RawEncoder: Sized {
    /// The invariant that every operation keeps.
    spec fn inv(&self) -> bool;

    /// What one encode call does: how the new state, the new output contents and
    /// the result follow from the old state, the input and the old output.
    spec fn encode_post(
        before: Self,
        input: Seq<u8>,
        old_output: Seq<u8>,
        after: Self,
        new_output: Seq<u8>,
        r: Result<RawProgress, Error>,
    ) -> bool;

    /// What one finish call does.
    spec fn finish_post(
        before: Self,
        old_output: Seq<u8>,
        after: Self,
        new_output: Seq<u8>,
        r: Result<RawProgress, Error>,
    ) -> bool;

    /// What a reset does.
    spec fn reset_post(before: Self, after: Self) -> bool;

    /// Feeds `input` and stores encoded bytes into `output`.
    fn raw_encode(&mut self, input: &[u8], output: &mut [u8]) -> (r: Result<RawProgress, Error>)
        requires
            old(self).inv(),
        ensures
            final(self).inv(),
            final(output)@.len() == old(output)@.len(),
            r matches Ok(p) ==> progress_ok(p, input@, old(output)@, final(output)@),
            Self::encode_post(*old(self), input@, old(output)@, *final(self), final(output)@, r),
    ;

    /// Signals the end of the input and stores remaining bytes into `output`.
    fn raw_finish(&mut self, output: &mut [u8]) -> (r: Result<RawProgress, Error>)
        requires
            old(self).inv(),
        ensures
            final(self).inv(),
            final(output)@.len() == old(output)@.len(),
            r matches Ok(p) ==> progress_ok(p, Seq::empty(), old(output)@, final(output)@),
            Self::finish_post(*old(self), old(output)@, *final(self), final(output)@, r),
    ;

    /// Returns to the state of a fresh encoder, keeping its configuration.
    fn raw_reset(&mut self)
        requires
            old(self).inv(),
        ensures
            final(self).inv(),
            Self::reset_post(*old(self), *final(self)),
    ;

    /// Asks for everything fed so far to be made decodable. A codec without a
    /// sync marker has nothing to do and reports the flush complete.
    fn raw_flush(&mut self, output: &mut [u8], mode: Flush) -> (r: Result<RawProgress, Error>)
        requires
            old(self).inv(),
        ensures
            *final(self) == *old(self),
            final(output)@ == old(output)@,
            r == Ok::<RawProgress, Error>(idle(true)),
    {
        Ok(RawProgress { consumed: 0, written: 0, done: true })
    }
}

/// An incremental encoder that reports why each call returned.
pub trait Encoder: RawEncoder {
    /// Feeds `input` and stores encoded bytes into `output`.
    fn encode(&mut self, input: &[u8], output: &mut [u8]) -> (r: Result<(Progress, Status), Error>)
        requires
            old(self).inv(),
        ensures
            final(self).inv(),
            final(output)@.len() == old(output)@.len(),
            exists|raw: Result<RawProgress, Error>|
                r == reported(raw, input@.len()) && #[trigger] Self::encode_post(
                    *old(self),
                    input@,
                    old(output)@,
                    *final(self),
                    final(output)@,
                    raw,
                ),
    {
        let available: usize = input.len();
        let raw = self.raw_encode(input, output);
        let r = report(raw, available);
        assert(r == reported(raw, input@.len()));
        r
    }

    /// Signals the end of the input and stores remaining bytes into `output`.
    fn finish(&mut self, output: &mut [u8]) -> (r: Result<(Progress, Status), Error>)
        requires
            old(self).inv(),
        ensures
            final(self).inv(),
            final(output)@.len() == old(output)@.len(),
            exists|raw: Result<RawProgress, Error>|
                r == reported_finish(raw) && #[trigger] Self::finish_post(
                    *old(self),
                    old(output)@,
                    *final(self),
                    final(output)@,
                    raw,
                ),
    {
        let raw = self.raw_finish(output);
        let r = report_finish(raw);
        assert(r == reported_finish(raw));
        r
    }

    /// Returns to the state of a fresh encoder, keeping its configuration.
    fn reset(&mut self)
        requires
            old(self).inv(),
        ensures
            final(self).inv(),
            Self::reset_post(*old(self), *final(self)),
    {
        self.raw_reset()
    }
}

impl<T: RawEncoder> Encoder for T {

}

/// A codec: its encoder and decoder types and how to make them.
pub trait Algorithm {
    /// The codec's short name.
    const NAME: &'static str;

    /// The encoder type.
    type Encoder;

    /// The decoder type.
    type Decoder;

    /// The encoder's configuration.
    type EncoderConfig: Default;

    /// The decoder's configuration.
    type DecoderConfig: Default;

    /// Whether `e` is the encoder that `config` describes.
    spec fn is_encoder_with(config: Self::EncoderConfig, e: Self::Encoder) -> bool;

    /// Whether `d` is the decoder that `config` describes.
    spec fn is_decoder_with(config: Self::DecoderConfig, d: Self::Decoder) -> bool;

    /// Makes an encoder.
    fn encoder_with(config: Self::EncoderConfig) -> (e: Self::Encoder)
        ensures
            Self::is_encoder_with(config, e),
    ;

    /// Makes a decoder.
    fn decoder_with(config: Self::DecoderConfig) -> (d: Self::Decoder)
        ensures
            Self::is_decoder_with(config, d),
    ;

    /// Makes an encoder with the default configuration.
    fn encoder() -> (e: Self::Encoder)
        ensures
            exists|config: Self::EncoderConfig|
                call_ensures(<Self::EncoderConfig as Default>::default, (), config)
                    && #[trigger] Self::is_encoder_with(config, e),
    {
        Self::encoder_with(<Self::EncoderConfig as Default>::default())
    }

    /// Makes a decoder with the default configuration.
    fn decoder() -> (d: Self::Decoder)
        ensures
            exists|config: Self::DecoderConfig|
                call_ensures(<Self::DecoderConfig as Default>::default, (), config)
                    && #[trigger] Self::is_decoder_with(config, d),
    {
        Self::decoder_with(<Self::DecoderConfig as Default>::default())
    }
}

} // verus!
