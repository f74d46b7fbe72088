//! The decoder of method 13.
use vstd::prelude::*;

use crate::error::Error;
use crate::traits::idle;
use crate::traits::{RawDecoder, RawProgress};

verus! {

/// How far a decoder is.
#[derive(Debug, Clone, Copy, PartialEq, Eq, Structural)]
pub enum Stage {
    /// The member has no content.
    Empty,
    /// The member has content, or may have.
    Payload,
    /// The end was reported.
    Done,
    /// A call has failed.
    Failed,
}

/// A method 13 decoder, for members without content.
#[derive(Debug)]
pub struct Decoder {
    stage: Stage,
    first: Stage,
}

impl Decoder {
    /// How far the decoder is.
    pub closed spec fn stage(&self) -> Stage {
        self.stage
    }

    /// How it starts, also after a reset.
    pub closed spec fn first_stage(&self) -> Stage {
        self.first
    }

    /// A decoder for a member of unknown length.
    pub fn new() -> (d: Self)
        ensures
            d.inv(),
            d.stage() == Stage::Payload,
            d.first_stage() == Stage::Payload,
    {
        Decoder { stage: Stage::Payload, first: Stage::Payload }
    }

    /// A decoder for a member of this length.
    pub fn with_unpack_size(unpack_size: u64) -> (d: Self)
        ensures
            d.inv(),
            d.stage() == d.first_stage(),
            d.first_stage() == if unpack_size == 0 {
                Stage::Empty
            } else {
                Stage::Payload
            },
    {
        let stage = if unpack_size == 0 {
            Stage::Empty
        } else {
            Stage::Payload
        };
        Decoder { stage, first: stage }
    }

    /// A decoder for a member of this length.
    pub fn with_len(len: usize) -> (d: Self)
        ensures
            d.inv(),
            d.stage() == d.first_stage(),
            d.first_stage() == if len == 0 {
                Stage::Empty
            } else {
                Stage::Payload
            },
    {
        Decoder::with_unpack_size(len as u64)
    }

    /// What every call returns.
    fn answer(&mut self) -> (r: Result<RawProgress, Error>)
        requires
            old(self).inv(),
        ensures
            final(self).inv(),
            final(self).first == old(self).first,
            r == answer(old(self).stage),
            final(self).stage == if old(self).stage == Stage::Payload {
                Stage::Failed
            } else {
                old(self).stage
            },
    {
        match self.stage {
            Stage::Failed => Err(Error::Corrupt),
            Stage::Payload => {
                self.stage = Stage::Failed;
                Err(Error::Unsupported)
            },
            _ => Ok(RawProgress { consumed: 0, written: 0, done: true }),
        }
    }
}

/// What a call returns.
pub open spec fn answer(s: Stage) -> Result<RawProgress, Error> {
    match s {
        Stage::Failed => Err(Error::Corrupt),
        Stage::Payload => Err(Error::Unsupported),
        _ => Ok(idle(true)),
    }
}

impl Default for Decoder {
    fn default() -> (d: Self)
        ensures
            d.inv(),
            d.stage() == Stage::Payload,
            d.first_stage() == Stage::Payload,
    {
        Decoder::new()
    }
}

impl RawDecoder for Decoder {
    closed spec fn inv(&self) -> bool {
        self.first == Stage::Empty || self.first == Stage::Payload
    }

    open spec fn decode_post(
        before: Self,
        input: Seq<u8>,
        old_output: Seq<u8>,
        after: Self,
        new_output: Seq<u8>,
        r: Result<RawProgress, Error>,
    ) -> bool {
        &&& r == answer(before.stage())
        &&& new_output == old_output
        &&& after.first_stage() == before.first_stage()
        &&& after.stage() == if before.stage() == Stage::Payload {
            Stage::Failed
        } else {
            before.stage()
        }
    }

    open spec fn finish_post(
        before: Self,
        old_output: Seq<u8>,
        after: Self,
        new_output: Seq<u8>,
        r: Result<RawProgress, Error>,
    ) -> bool {
        &&& r == answer(before.stage())
        &&& new_output == old_output
        &&& after.first_stage() == before.first_stage()
        &&& after.stage() == match before.stage() {
            Stage::Payload => Stage::Failed,
            Stage::Empty => Stage::Done,
            s => s,
        }
    }

    open spec fn reset_post(before: Self, after: Self) -> bool {
        after.stage() == before.first_stage() && after.first_stage() == before.first_stage()
    }

    fn raw_decode(&mut self, input: &[u8], output: &mut [u8]) -> (r: Result<RawProgress, Error>) {
        self.answer()
    }

    fn raw_finish(&mut self, output: &mut [u8]) -> (r: Result<RawProgress, Error>) {
        let r = self.answer();
        if self.stage == Stage::Empty {
            self.stage = Stage::Done;
        }
        r
    }

    fn raw_reset(&mut self) {
        self.stage = self.first;
    }
}

} // verus!
