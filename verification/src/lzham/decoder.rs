//! The decoder of `LZH0` containers. Only one without content is decoded; for
//! others it returns [`Error::Unsupported`].
use vstd::prelude::*;

use super::{HEADER_LEN, MAGIC, MAX_DICT_LOG2, MIN_DICT_LOG2};
use crate::error::Error;
use crate::traits::{idle, least};
use crate::traits::{RawDecoder, RawProgress};

verus! {

/// How far a decoder is.
pub enum Stage {
    /// It has this part of the header.
    Header(Seq<u8>),
    /// There is no content.
    Empty,
    /// A call has failed.
    Failed,
}

/// What is wrong with a header, or with what follows it.
pub open spec fn fault(h: Seq<u8>) -> Option<Error> {
    if h.take(4) != MAGIC@ || !(MIN_DICT_LOG2 <= h[4] <= MAX_DICT_LOG2) {
        Some(Error::BadHeader)
    } else if h.subrange(5, 13) != Seq::new(8, |i: int| 0u8) {
        Some(Error::Unsupported)
    } else {
        None
    }
}

/// Checks a header.
fn check_header(h: &Vec<u8>) -> (r: Option<Error>)
    requires
        h@.len() == HEADER_LEN,
    ensures
        r == fault(h@),
{
    if h[0] != MAGIC[0] || h[1] != MAGIC[1] || h[2] != MAGIC[2] || h[3] != MAGIC[3] {
        proof {
            let m = h@.take(4);
            assert(m[0] == h@[0] && m[1] == h@[1] && m[2] == h@[2] && m[3] == h@[3]);
        }
        return Some(Error::BadHeader);
    }
    assert(h@.take(4) =~= MAGIC@);
    if !(MIN_DICT_LOG2 <= h[4] && h[4] <= MAX_DICT_LOG2) {
        return Some(Error::BadHeader);
    }
    let ghost zeros = Seq::new(8, |i: int| 0u8);
    let mut i: usize = 5;
    while i < HEADER_LEN
        invariant
            5 <= i <= HEADER_LEN,
            h@.len() == HEADER_LEN,
            zeros == Seq::new(8, |i: int| 0u8),
            h@.take(4) == MAGIC@,
            MIN_DICT_LOG2 <= h@[4] <= MAX_DICT_LOG2,
            forall|k: int| 5 <= k < i ==> h@[k] == 0,
        decreases HEADER_LEN - i,
    {
        if h[i] != 0 {
            assert(h@.subrange(5, 13)[i - 5] != zeros[i - 5]);
            return Some(Error::Unsupported);
        }
        i = i + 1;
    }
    assert(h@.subrange(5, 13) =~= zeros);
    None
}

/// An LZHAM decoder.
#[derive(Debug)]
pub struct Decoder {
    header: Vec<u8>,
    empty: bool,
    poisoned: bool,
}

impl Decoder {
    /// How far the decoder is.
    pub closed spec fn stage(&self) -> Stage {
        if self.poisoned {
            Stage::Failed
        } else if self.empty {
            Stage::Empty
        } else {
            Stage::Header(self.header@)
        }
    }

    /// A decoder.
    pub fn new() -> (d: Self)
        ensures
            d.inv(),
            d.stage() == Stage::Header(Seq::empty()),
    {
        Decoder { header: Vec::new(), empty: false, poisoned: false }
    }
}

impl Default for Decoder {
    fn default() -> (d: Self)
        ensures
            d.inv(),
            d.stage() == Stage::Header(Seq::empty()),
    {
        Decoder::new()
    }
}

impl RawDecoder for Decoder {
    closed spec fn inv(&self) -> bool {
        !self.poisoned && !self.empty ==> self.header@.len() < HEADER_LEN
    }

    open spec fn decode_post(
        before: Self,
        input: Seq<u8>,
        old_output: Seq<u8>,
        after: Self,
        new_output: Seq<u8>,
        r: Result<RawProgress, Error>,
    ) -> bool {
        &&& new_output == old_output
        &&& match before.stage() {
            Stage::Failed => r == Err::<RawProgress, Error>(Error::Corrupt) && after.stage()
                == before.stage(),
            Stage::Empty => r == Ok::<RawProgress, Error>(idle(true)) && after.stage()
                == before.stage(),
            Stage::Header(got) => {
                let n = least((HEADER_LEN - got.len()) as nat, input.len());
                let all = got + input.take(n as int);
                if all.len() < HEADER_LEN {
                    &&& r matches Ok(p)
                    &&& p.consumed == n
                    &&& p.written == 0
                    &&& !p.done
                    &&& after.stage() == Stage::Header(all)
                } else {
                    match fault(all) {
                        Some(e) => r == Err::<RawProgress, Error>(e) && after.stage()
                            == Stage::Failed,
                        None => {
                            &&& r matches Ok(p)
                            &&& p.consumed == n
                            &&& p.written == 0
                            &&& p.done
                            &&& after.stage() == Stage::Empty
                        },
                    }
                }
            },
        }
    }

    open spec fn finish_post(
        before: Self,
        old_output: Seq<u8>,
        after: Self,
        new_output: Seq<u8>,
        r: Result<RawProgress, Error>,
    ) -> bool {
        &&& new_output == old_output
        &&& match before.stage() {
            Stage::Failed => r == Err::<RawProgress, Error>(Error::Corrupt) && after.stage()
                == Stage::Failed,
            Stage::Empty => r == Ok::<RawProgress, Error>(idle(true)) && after.stage()
                == Stage::Empty,
            Stage::Header(_) => r == Err::<RawProgress, Error>(Error::UnexpectedEnd)
                && after.stage() == Stage::Failed,
        }
    }

    open spec fn reset_post(before: Self, after: Self) -> bool {
        after.stage() == Stage::Header(Seq::empty())
    }

    fn raw_decode(&mut self, input: &[u8], output: &mut [u8]) -> (r: Result<RawProgress, Error>) {
        if self.poisoned {
            return Err(Error::Corrupt);
        }
        if self.empty {
            return Ok(RawProgress { consumed: 0, written: 0, done: true });
        }
        let need: usize = HEADER_LEN - self.header.len();
        let n: usize = if need < input.len() {
            need
        } else {
            input.len()
        };
        let ghost got = self.header@;
        self.header.extend_from_slice(vstd::slice::slice_subrange(input, 0, n));
        assert(self.header@ =~= got + input@.take(n as int));
        if self.header.len() == HEADER_LEN {
            if let Some(e) = check_header(&self.header) {
                self.poisoned = true;
                return Err(e);
            }
            self.empty = true;
        }
        Ok(RawProgress { consumed: n, written: 0, done: self.empty })
    }

    fn raw_finish(&mut self, output: &mut [u8]) -> (r: Result<RawProgress, Error>) {
        if self.poisoned {
            return Err(Error::Corrupt);
        }
        if self.empty {
            return Ok(RawProgress { consumed: 0, written: 0, done: true });
        }
        self.poisoned = true;
        Err(Error::UnexpectedEnd)
    }

    fn raw_reset(&mut self) {
        self.header.clear();
        self.empty = false;
        self.poisoned = false;
    }
}

} // verus!
