//! The decoder of PPMd streams.
//!
//! A stream has a header of eleven bytes: the order (2 to 64), the memory in
//! megabytes, the method of restoration (0 to 2), and the unpacked length, low byte
//! first. The code follows. Nothing marks its end, so the length has to be known.
use vstd::prelude::*;

use super::allocator::{Ppmd7, M};
use super::ppmd7::blank;
use super::range_dec::{started, Mode, Range, RangeDec};
use crate::error::Error;
use crate::le::{le_value, read_le};
use crate::machine::Queue;
use crate::traits::{least, stored};
use crate::traits::{RawDecoder, RawProgress};

verus! {

/// Length of the header.
pub const HEADER_LEN: usize = 11;

/// The length that says that none is known.
pub const UNKNOWN_LEN: u64 = 0xFFFF_FFFF_FFFF_FFFF;

/// The most that is unpacked.
pub const MAX_OUTPUT: u64 = 67_108_864;

/// The unpacked length that a header says.
pub open spec fn header_len(h: Seq<u8>) -> Result<nat, Error> {
    let n = le_value(h.subrange(3, 11));
    if !(2 <= h[0] <= 64) || h[1] == 0 || h[2] > 2 {
        Err(Error::BadHeader)
    } else if n == UNKNOWN_LEN {
        Err(Error::Unsupported)
    } else if n > MAX_OUTPUT {
        Err(Error::OutputLimitExceeded)
    } else {
        Ok(n)
    }
}

/// Checks a header; returns the unpacked length.
fn validate_header(h: &[u8]) -> (r: Result<u64, Error>)
    requires
        h@.len() >= HEADER_LEN,
    ensures
        match header_len(h@) {
            Ok(n) => r == Ok::<u64, Error>(n as u64) && n <= MAX_OUTPUT,
            Err(e) => r == Err::<u64, Error>(e),
        },
{
    if !(2 <= h[0] && h[0] <= 64) {
        return Err(Error::BadHeader);
    }
    if h[1] == 0 {
        return Err(Error::BadHeader);
    }
    if h[2] > 2 {
        return Err(Error::BadHeader);
    }
    let n: u64 = read_le(vstd::slice::slice_subrange(h, 3, 11));
    if n == UNKNOWN_LEN {
        return Err(Error::Unsupported);
    }
    if n > MAX_OUTPUT {
        return Err(Error::OutputLimitExceeded);
    }
    Ok(n)
}

/// Decodes `n` symbols behind `out`. A stream that ends too early is cut short.
pub open spec fn symbols(m: M, input: Seq<u8>, rc: Range, n: nat, out: Seq<u8>) -> Result<
    (Range, Seq<u8>),
    Error,
>
    decreases n,
{
    if rc.pos > input.len() {
        Err(Error::UnexpectedEnd)
    } else if n == 0 {
        Ok((rc, out))
    } else {
        match m.decoded(input, rc) {
            Err(e) => Err(e),
            Ok((m, rc, sym)) => symbols(m, input, rc, (n - 1) as nat, out.push(sym)),
        }
    }
}

/// What a stream unpacks to. At the end the code has to be used up.
pub open spec fn unpacked(input: Seq<u8>) -> Result<Seq<u8>, Error> {
    if input.len() < HEADER_LEN {
        Err(Error::UnexpectedEnd)
    } else {
        match header_len(input) {
            Err(e) => Err(e),
            Ok(n) => match started(Mode::SevenZip, input, HEADER_LEN as nat) {
                Err(e) => Err(e),
                Ok(rc) => match symbols(
                    blank((input[1] * 0x10_0000) as u32).begun(input[0] as u32),
                    input,
                    rc,
                    n,
                    Seq::empty(),
                ) {
                    Err(e) => Err(e),
                    Ok((rc, out)) => if rc.code != 0 {
                        Err(Error::Corrupt)
                    } else {
                        Ok(out)
                    },
                },
            },
        }
    }
}

proof fn lemma_symbols_len(m: M, input: Seq<u8>, rc: Range, n: nat, out: Seq<u8>)
    ensures
        symbols(m, input, rc, n, out) matches Ok((r, o)) ==> o.len() == out.len() + n,
    decreases n,
{
    if rc.pos <= input.len() && n > 0 {
        if let Ok((m2, rc2, sym)) = m.decoded(input, rc) {
            lemma_symbols_len(m2, input, rc2, (n - 1) as nat, out.push(sym));
        }
    }
}

/// A stream unpacks to as many bytes as its header says, or not at all.
pub proof fn unpacked_has_the_declared_length(input: Seq<u8>)
    ensures
        unpacked(input) matches Ok(out) ==> header_len(input) == Ok::<nat, Error>(out.len()),
{
    if input.len() >= HEADER_LEN {
        if let Ok(n) = header_len(input) {
            if let Ok(rc) = started(Mode::SevenZip, input, HEADER_LEN as nat) {
                lemma_symbols_len(
                    blank((input[1] * 0x10_0000) as u32).begun(input[0] as u32),
                    input,
                    rc,
                    n,
                    Seq::empty(),
                );
            }
        }
    }
}

/// Unpacks a stream.
fn run_decode(input: &Vec<u8>) -> (r: Result<Vec<u8>, Error>)
    ensures
        match unpacked(input@) {
            Ok(out) => r matches Ok(v) && v@ == out,
            Err(e) => r matches Err(x) && x == e,
        },
{
    if input.len() < HEADER_LEN {
        return Err(Error::UnexpectedEnd);
    }
    let n: u64 = validate_header(input.as_slice())?;
    let mut model = Ppmd7::new(input[1] as u32 * 0x10_0000)?;
    model.init(input[0] as u32);
    let (mut rc, _): (RangeDec, usize) = RangeDec::init(
        Mode::SevenZip,
        input.as_slice(),
        HEADER_LEN,
    )?;
    let mut out: Vec<u8> = Vec::new();
    let mut left: u64 = n;
    let ghost goal = symbols(model@, input@, rc@, n as nat, Seq::empty());
    while left > 0
        invariant
            model.inv(),
            rc.inv(),
            rc.source() == input@,
            symbols(model@, input@, rc@, left as nat, out@) == goal,
            goal is Err ==> unpacked(input@) == Err::<Seq<u8>, Error>(goal->Err_0),
        decreases left,
    {
        if rc.overran() {
            return Err(Error::UnexpectedEnd);
        }
        let sym: u8 = model.decode_symbol(&mut rc)?;
        out.push(sym);
        left = left - 1;
    }
    if rc.overran() {
        return Err(Error::UnexpectedEnd);
    }
    if !rc.is_finished_ok() {
        return Err(Error::Corrupt);
    }
    Ok(out)
}

/// How far a decoder is.
pub enum Stage {
    /// It has collected this input.
    Buffering(Seq<u8>),
    /// It has unpacked; this output is still to be handed out.
    Draining(Seq<u8>),
    /// The stream is wrong.
    Failed(Error),
}

/// `rest` goes to the output as far as there is room.
pub open spec fn drains(
    rest: Seq<u8>,
    consumed: nat,
    old_output: Seq<u8>,
    after: Stage,
    new_output: Seq<u8>,
    r: Result<RawProgress, Error>,
) -> bool {
    let n = least(rest.len(), old_output.len());
    &&& r matches Ok(p)
    &&& p.consumed == consumed
    &&& p.written == n
    &&& p.done == (rest.len() <= old_output.len())
    &&& new_output == stored(old_output, rest.take(n as int))
    &&& after == Stage::Draining(rest.skip(n as int))
}

/// A PPMd decoder. It collects the whole stream, and unpacks it when it is finished.
pub struct Decoder {
    input: Vec<u8>,
    queue: Queue,
    decoded: bool,
    poisoned: Option<Error>,
}

impl Decoder {
    /// How far the decoder is.
    pub closed spec fn stage(&self) -> Stage {
        match self.poisoned {
            Some(e) => Stage::Failed(e),
            None => if self.decoded {
                Stage::Draining(self.queue@)
            } else {
                Stage::Buffering(self.input@)
            },
        }
    }

    /// A decoder.
    pub fn new() -> (d: Self)
        ensures
            d.inv(),
            d.stage() == Stage::Buffering(Seq::empty()),
    {
        Decoder { input: Vec::new(), queue: Queue::new(), decoded: false, poisoned: None }
    }

    /// Hands out as much as fits.
    fn drain(&mut self, output: &mut [u8]) -> (r: (usize, bool))
        requires
            old(self).inv(),
            old(self).decoded,
            old(self).poisoned is None,
        ensures
            final(self).inv(),
            r.0 == least(old(self).queue@.len(), old(output)@.len()),
            r.1 == (old(self).queue@.len() <= old(output)@.len()),
            final(output)@ == stored(old(output)@, old(self).queue@.take(r.0 as int)),
            final(output)@.skip(r.0 as int) == old(output)@.skip(r.0 as int),
            final(self).stage() == Stage::Draining(old(self).queue@.skip(r.0 as int)),
    {
        let n: usize = self.queue.drain(output, 0);
        proof {
            let q = old(self).queue@;
            assert(output@ =~= stored(old(output)@, q.take(n as int)));
            assert(output@.skip(n as int) =~= old(output)@.skip(n as int));
        }
        (n, self.queue.is_empty())
    }
}

impl Default for Decoder {
    fn default() -> (d: Self)
        ensures
            d.inv(),
            d.stage() == Stage::Buffering(Seq::empty()),
    {
        Decoder::new()
    }
}

impl RawDecoder for Decoder {
    closed spec fn inv(&self) -> bool {
        &&& self.queue.inv()
        &&& !self.decoded && self.poisoned is None && self.input@.len() >= HEADER_LEN ==> header_len(
            self.input@,
        ) is Ok
    }

    open spec fn decode_post(
        before: Self,
        input: Seq<u8>,
        old_output: Seq<u8>,
        after: Self,
        new_output: Seq<u8>,
        r: Result<RawProgress, Error>,
    ) -> bool {
        match before.stage() {
            Stage::Failed(e) => {
                &&& r == Err::<RawProgress, Error>(e)
                &&& after.stage() == before.stage()
                &&& new_output == old_output
            },
            Stage::Draining(rest) => drains(
                rest,
                input.len(),
                old_output,
                after.stage(),
                new_output,
                r,
            ),
            Stage::Buffering(got) => {
                let all = got + input;
                &&& new_output == old_output
                &&& if all.len() >= HEADER_LEN && header_len(all) is Err {
                    &&& r == Err::<RawProgress, Error>(header_len(all)->Err_0)
                    &&& after.stage() == Stage::Failed(header_len(all)->Err_0)
                } else {
                    &&& r matches Ok(p)
                    &&& p.consumed == input.len()
                    &&& p.written == 0
                    &&& !p.done
                    &&& after.stage() == Stage::Buffering(all)
                }
            },
        }
    }

    open spec fn finish_post(
        before: Self,
        old_output: Seq<u8>,
        after: Self,
        new_output: Seq<u8>,
        r: Result<RawProgress, Error>,
    ) -> bool {
        match before.stage() {
            Stage::Failed(e) => {
                &&& r == Err::<RawProgress, Error>(e)
                &&& after.stage() == before.stage()
                &&& new_output == old_output
            },
            Stage::Draining(rest) => drains(rest, 0, old_output, after.stage(), new_output, r),
            Stage::Buffering(got) => match unpacked(got) {
                Err(e) => {
                    &&& r == Err::<RawProgress, Error>(e)
                    &&& after.stage() == Stage::Failed(e)
                    &&& new_output == old_output
                },
                Ok(out) => drains(out, 0, old_output, after.stage(), new_output, r),
            },
        }
    }

    open spec fn reset_post(before: Self, after: Self) -> bool {
        after.stage() == Stage::Buffering(Seq::empty())
    }

    fn raw_decode(&mut self, input: &[u8], output: &mut [u8]) -> (r: Result<RawProgress, Error>) {
        if let Some(e) = self.poisoned {
            return Err(e);
        }
        if self.decoded {
            let (written, done): (usize, bool) = self.drain(output);
            return Ok(RawProgress { consumed: input.len(), written, done });
        }
        let ghost before = self.input@;
        self.input.extend_from_slice(input);
        assert(self.input@ =~= before + input@);
        if self.input.len() >= HEADER_LEN {
            if let Err(e) = validate_header(self.input.as_slice()) {
                self.poisoned = Some(e);
                return Err(e);
            }
        }
        Ok(RawProgress { consumed: input.len(), written: 0, done: false })
    }

    fn raw_finish(&mut self, output: &mut [u8]) -> (r: Result<RawProgress, Error>) {
        if let Some(e) = self.poisoned {
            return Err(e);
        }
        if !self.decoded {
            match run_decode(&self.input) {
                Ok(out) => {
                    self.queue.clear();
                    self.queue.extend(out.as_slice());
                    self.decoded = true;
                    assert(self.queue@ =~= out@);
                },
                Err(e) => {
                    self.poisoned = Some(e);
                    return Err(e);
                },
            }
        }
        let (written, done): (usize, bool) = self.drain(output);
        Ok(RawProgress { consumed: 0, written, done })
    }

    fn raw_reset(&mut self) {
        self.input.clear();
        self.queue.clear();
        self.decoded = false;
        self.poisoned = None;
    }
}

} // verus!
