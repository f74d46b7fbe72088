//! The range decoder of PPMd, in the two forms that archives use.
//!
//! In the 7z form the code starts with a zero byte, and what was decoded is taken
//! off the code. In the RAR form a low end is kept, and the range is cut down where
//! it has become too small.
use vstd::prelude::*;

use crate::error::Error;
use crate::traits::least;

verus! {

/// The range is widened until the highest byte is settled.
pub const K_TOP_VALUE: u32 = 0x100_0000;

/// The scale of the probabilities of binary decisions.
pub const PPMD_BIN_SCALE: u32 = 16384;

/// Most bytes that one step may ask for.
pub const MAX_NORMALIZE_STEPS: u32 = 64;

/// The form of the decoder.
#[derive(Debug, Clone, Copy, PartialEq, Eq, Structural)]
pub enum Mode {
    /// As in 7z archives.
    SevenZip,
    /// As in RAR archives.
    Rar,
}

/// The state of a range decoder.
pub struct Range {
    /// The size of the interval.
    pub range: u32,
    /// The code.
    pub code: u32,
    /// The start of the interval.
    pub low: u32,
    /// The least size.
    pub bottom: u32,
    /// The form.
    pub mode: Mode,
    /// How many bytes of the input were asked for.
    pub pos: nat,
    /// The stream is wrong.
    pub err: bool,
}

/// The byte at `pos`; zeros follow the end.
pub open spec fn byte_at(input: Seq<u8>, pos: nat) -> u8 {
    if pos < input.len() {
        input[pos as int]
    } else {
        0
    }
}

/// `x` moved up by a byte.
pub open spec fn shifted(x: u32) -> u32 {
    (x % 0x100_0000 * 256) as u32
}

impl Range {
    /// The state with one more byte.
    pub open spec fn with_byte(self, input: Seq<u8>) -> Range {
        Range {
            range: shifted(self.range),
            code: (shifted(self.code) + byte_at(input, self.pos)) as u32,
            low: shifted(self.low),
            pos: self.pos + 1,
            ..self
        }
    }

    /// The highest byte of the interval is settled.
    pub open spec fn is_settled(self) -> bool {
        self.low ^ self.low.wrapping_add(self.range) < K_TOP_VALUE
    }

    /// The state, cut down to where the highest byte is settled.
    pub open spec fn cut(self) -> Range {
        if self.is_settled() {
            self
        } else {
            Range {
                range: 0u32.wrapping_sub(self.low) & self.bottom.wrapping_sub(1),
                ..self
            }
        }
    }

    /// The state, widened; `steps` bytes were taken before.
    pub open spec fn normalized(self, input: Seq<u8>, steps: nat) -> Range
        decreases 65 - steps,
    {
        if !self.is_settled() && self.range >= self.bottom {
            self
        } else if steps >= MAX_NORMALIZE_STEPS {
            Range { err: true, ..self.cut().with_byte(input) }
        } else {
            self.cut().with_byte(input).normalized(input, steps + 1)
        }
    }

    /// The state with the range divided, and where in it the code lies.
    pub open spec fn threshold(self, total: u32) -> (Range, u32) {
        if total == 0 {
            (Range { err: true, ..self }, 0)
        } else {
            let range = self.range / total;
            if range == 0 {
                (Range { range, err: true, ..self }, 0)
            } else {
                (Range { range, ..self }, self.code.wrapping_sub(self.low) / range)
            }
        }
    }

    /// The state behind the part from `start` of the given size.
    pub open spec fn decoded(self, input: Seq<u8>, start: u32, size: u32) -> Range {
        let off = start.wrapping_mul(self.range);
        let range = self.range.wrapping_mul(size);
        (match self.mode {
            Mode::SevenZip => Range { code: self.code.wrapping_sub(off), range, ..self },
            Mode::Rar => Range { low: self.low.wrapping_add(off), range, ..self },
        }).normalized(input, 0)
    }

    /// The state behind a binary decision, and the decision.
    pub open spec fn bit(self, input: Seq<u8>, size0: u32) -> (Range, bool) {
        match self.mode {
            Mode::SevenZip => {
                let bound = (self.range / 16384).wrapping_mul(size0);
                if self.code < bound {
                    ((Range { range: bound, ..self }).normalized(input, 0), false)
                } else {
                    (
                        (Range {
                            code: self.code.wrapping_sub(bound),
                            range: self.range.wrapping_sub(bound),
                            ..self
                        }).normalized(input, 0),
                        true,
                    )
                }
            },
            Mode::Rar => {
                let (r, value) = self.threshold(PPMD_BIN_SCALE);
                if value < size0 {
                    (r.decoded(input, 0, size0), false)
                } else {
                    (r.decoded(input, size0, PPMD_BIN_SCALE.wrapping_sub(size0)), true)
                }
            },
        }
    }
}

/// The number in four bytes from `at` on, highest first.
pub open spec fn word_at(input: Seq<u8>, at: int) -> u32 {
    (input[at] * 0x100_0000 + input[at + 1] * 0x1_0000 + input[at + 2] * 0x100 + input[at
        + 3]) as u32
}

/// The state at the start of `input[start..]`.
pub open spec fn started(mode: Mode, input: Seq<u8>, start: nat) -> Result<Range, Error> {
    let head: nat = if mode is SevenZip {
        1
    } else {
        0
    };
    if input.len() < start + head + 4 {
        Err(Error::UnexpectedEnd)
    } else if mode is SevenZip && input[start as int] != 0 {
        Err(Error::Corrupt)
    } else {
        Ok(
            Range {
                range: 0xFFFF_FFFF,
                code: word_at(input, (start + head) as int),
                low: 0,
                bottom: if mode is SevenZip {
                    0
                } else {
                    0x8000
                },
                mode,
                pos: start + head + 4,
                err: false,
            },
        )
    }
}

/// A range decoder over a byte slice.
#[derive(Clone, Copy)]
pub struct RangeDec<'a> {
    range: u32,
    code: u32,
    low: u32,
    bottom: u32,
    mode: Mode,
    input: &'a [u8],
    pos: usize,
    beyond: bool,
    asked: Ghost<nat>,
    err: bool,
}

impl<'a> RangeDec<'a> {
    /// The state.
    pub closed spec fn view(&self) -> Range {
        Range {
            range: self.range,
            code: self.code,
            low: self.low,
            bottom: self.bottom,
            mode: self.mode,
            pos: self.asked@,
            err: self.err,
        }
    }

    /// The bytes that are decoded.
    pub closed spec fn source(&self) -> Seq<u8> {
        self.input@
    }

    /// The position is known as far as the input goes.
    pub closed spec fn inv(&self) -> bool {
        &&& self.pos == least(self.asked@, self.input@.len())
        &&& self.beyond == (self.asked@ > self.input@.len())
    }

    /// A decoder for `input[start..]`, and how many bytes it has read.
    pub fn init(mode: Mode, input: &'a [u8], start: usize) -> (r: Result<(Self, usize), Error>)
        requires
            start + 5 <= usize::MAX,
        ensures
            match started(mode, input@, start as nat) {
                Ok(s) => {
                    &&& r matches Ok((d, n))
                    &&& d.inv()
                    &&& d@ == s
                    &&& d.source() == input@
                    &&& start + n == s.pos
                },
                Err(e) => r matches Err(x) && x == e,
            },
    {
        let (head, bottom): (usize, u32) = match mode {
            Mode::SevenZip => (1, 0),
            Mode::Rar => (0, 0x8000),
        };
        if input.len() < start + head + 4 {
            return Err(Error::UnexpectedEnd);
        }
        if head == 1 && input[start] != 0 {
            return Err(Error::Corrupt);
        }
        let at: usize = start + head;
        let code: u32 = input[at] as u32 * 0x100_0000 + input[at + 1] as u32 * 0x1_0000 + input[at
            + 2] as u32 * 0x100 + input[at + 3] as u32;
        Ok(
            (
                RangeDec {
                    range: 0xFFFF_FFFF,
                    code,
                    low: 0,
                    bottom,
                    mode,
                    input,
                    pos: at + 4,
                    beyond: false,
                    asked: Ghost((at + 4) as nat),
                    err: false,
                },
                head + 4,
            ),
        )
    }

    /// Whether the stream is wrong.
    pub fn err(&self) -> (r: bool)
        ensures
            r == self@.err,
    {
        self.err
    }

    /// Whether more was asked for than there is.
    pub fn overran(&self) -> (r: bool)
        requires
            self.inv(),
        ensures
            r == (self@.pos > self.source().len()),
    {
        self.beyond
    }

    /// How much of the input was read.
    pub fn pos(&self) -> (n: usize)
        requires
            self.inv(),
        ensures
            n == least(self@.pos, self.source().len()),
    {
        self.pos
    }

    /// Whether the code is used up, as it is behind the last symbol.
    pub fn is_finished_ok(&self) -> (r: bool)
        ensures
            r == (self@.code == 0),
    {
        self.code == 0
    }

    /// Divides the range; returns where in it the code lies.
    pub fn get_threshold(&mut self, total: u32) -> (v: u32)
        requires
            old(self).inv(),
        ensures
            final(self).inv(),
            final(self).source() == old(self).source(),
            (final(self)@, v) == old(self)@.threshold(total),
    {
        if total == 0 {
            self.err = true;
            return 0;
        }
        self.range = self.range / total;
        if self.range == 0 {
            self.err = true;
            return 0;
        }
        self.code.wrapping_sub(self.low) / self.range
    }

    /// Takes one more byte.
    fn take_byte(&mut self)
        requires
            old(self).inv(),
        ensures
            final(self).inv(),
            final(self).source() == old(self).source(),
            final(self)@ == old(self)@.with_byte(old(self).source()),
    {
        let b: u8 = if self.pos < self.input.len() {
            self.input[self.pos]
        } else {
            0
        };
        if self.pos < self.input.len() {
            self.pos = self.pos + 1;
        } else {
            self.beyond = true;
        }
        self.asked = Ghost(self.asked@ + 1);
        self.code = self.code % 0x100_0000 * 256 + b as u32;
        self.range = self.range % 0x100_0000 * 256;
        self.low = self.low % 0x100_0000 * 256;
    }

    fn normalize(&mut self)
        requires
            old(self).inv(),
        ensures
            final(self).inv(),
            final(self).source() == old(self).source(),
            final(self)@ == old(self)@.normalized(old(self).source(), 0),
    {
        let mut steps: u32 = 0;
        loop
            invariant_except_break
                self.inv(),
                steps <= MAX_NORMALIZE_STEPS,
                self.source() == old(self).source(),
                self@.normalized(self.source(), steps as nat) == old(self)@.normalized(
                    old(self).source(),
                    0,
                ),
            ensures
                self.inv(),
                self.source() == old(self).source(),
                self@ == old(self)@.normalized(old(self).source(), 0),
            decreases 65 - steps,
        {
            if self.low ^ self.low.wrapping_add(self.range) >= K_TOP_VALUE {
                if self.range >= self.bottom {
                    break;
                }
                self.range = 0u32.wrapping_sub(self.low) & self.bottom.wrapping_sub(1);
            }
            self.take_byte();
            steps = steps + 1;
            if steps > MAX_NORMALIZE_STEPS {
                self.err = true;
                break;
            }
        }
    }

    /// Goes behind the part from `start` of the given size.
    pub fn decode(&mut self, start: u32, size: u32)
        requires
            old(self).inv(),
        ensures
            final(self).inv(),
            final(self).source() == old(self).source(),
            final(self)@ == old(self)@.decoded(old(self).source(), start, size),
    {
        let off: u32 = start.wrapping_mul(self.range);
        match self.mode {
            Mode::SevenZip => {
                self.code = self.code.wrapping_sub(off);
            },
            Mode::Rar => {
                self.low = self.low.wrapping_add(off);
            },
        }
        self.range = self.range.wrapping_mul(size);
        self.normalize();
    }

    /// Makes a binary decision; `size0` is the chance of a zero.
    pub fn decode_bit(&mut self, size0: u32) -> (bit: bool)
        requires
            old(self).inv(),
        ensures
            final(self).inv(),
            final(self).source() == old(self).source(),
            (final(self)@, bit) == old(self)@.bit(old(self).source(), size0),
    {
        match self.mode {
            Mode::SevenZip => {
                let bound: u32 = (self.range / 16384).wrapping_mul(size0);
                if self.code < bound {
                    self.range = bound;
                    self.normalize();
                    false
                } else {
                    self.code = self.code.wrapping_sub(bound);
                    self.range = self.range.wrapping_sub(bound);
                    self.normalize();
                    true
                }
            },
            Mode::Rar => {
                let value: u32 = self.get_threshold(PPMD_BIN_SCALE);
                if value < size0 {
                    self.decode(0, size0);
                    false
                } else {
                    self.decode(size0, PPMD_BIN_SCALE.wrapping_sub(size0));
                    true
                }
            },
        }
    }
}

} // verus!
