//! The LZS decoder.
use vstd::prelude::*;

use crate::bits::{bits_of, lemma_pow2_values};
use crate::calls::{all_handed, all_taken, behind, decode_call, decodes, Call};
use crate::error::Error;
use crate::le::{le_value, read_le};
use crate::traits::{stored, RawDecoder, RawProgress};
use super::{lemma_parse_progress, length_cap, parse, parse_chain, parse_length, parse_match, run};
use super::{runs_stay_within, session, start, supplied, within, LengthParse, Owed, Parse, Place};
use super::{Session, Token, Verdict, MAX_DISTANCE};
use super::bits::BitReader;

verus! {

/// What reading a token gives.
enum Step {
    More,
    Bad(Error),
    Literal(u8),
    Match(u32, u32),
    End,
}

#[derive(Debug, Clone, Copy, PartialEq, Eq, Structural)]
enum Phase {
    /// Within the header.
    Reading,
    /// Within the payload.
    Active,
    /// Behind the payload.
    Done,
    /// A call has failed.
    Failed,
}

#[derive(Debug, Clone, Copy)]
enum Waiting {
    Nothing,
    Literal(u8),
    Match(u32, u32),
}

/// Streaming LZS decoder. Once a call has failed, every further call fails
/// until a reset.
pub struct Decoder {
    header: Vec<u8>,
    phase: Phase,
    target: u64,
    bits: BitReader,
    history: Vec<u8>,
    produced: u64,
    waiting: Waiting,
    saw_eos: bool,
    out: Ghost<Seq<u8>>,
}

impl Decoder {
    spec fn session(&self) -> Session {
        Session {
            target: self.target as nat,
            bits: self.bits@,
            out: self.out@,
            owed: match self.waiting {
                Waiting::Nothing => Owed::Nothing,
                Waiting::Literal(b) => Owed::Literal { b },
                Waiting::Match(dist, len) => Owed::Match { dist: dist as nat, len: len as nat },
            },
            eos: self.saw_eos,
        }
    }

    /// Where in the code the decoder stands.
    pub closed spec fn place(&self) -> Place {
        match self.phase {
            Phase::Reading => Place::Reading { bytes: self.header@ },
            Phase::Active => Place::Active { s: self.session() },
            Phase::Done => Place::Done,
            Phase::Failed => Place::Failed,
        }
    }

    /// All the bits that are held, those that were read too.
    pub closed spec fn buffered(&self) -> Seq<bool> {
        self.bits.all()
    }

    /// How many of them were read.
    pub closed spec fn cursor(&self) -> int {
        self.bits.pos()
    }

    /// Nothing but the cursor differs.
    pub closed spec fn moved_from(&self, o: &Self) -> bool {
        &&& *self == (Decoder { bits: self.bits, ..*o })
        &&& self.bits.all() == o.bits.all()
    }

    /// The history is the end of the output, at least a window of it.
    spec fn active_inv(&self) -> bool {
        &&& within(self.session())
        &&& self.bits.inv()
        &&& self.produced == self.out@.len()
        &&& self.history@.len() <= self.out@.len()
        &&& self.history@ == self.out@.skip(self.out@.len() - self.history@.len())
        &&& self.history@.len() == self.out@.len() || self.history@.len() >= MAX_DISTANCE
        &&& self.waiting matches Waiting::Match(dist, len) ==> 1 <= dist < MAX_DISTANCE && dist
            <= self.out@.len()
    }

    /// Within the payload, the bits that are still to be read stand from the cursor on, and
    /// no more than the declared length was written.
    pub proof fn payload_is_sound(&self)
        requires
            self.inv(),
            self.place() is Active,
        ensures
            within(self.place()->s),
            0 <= self.cursor() <= self.buffered().len(),
            self.place()->s.bits == self.buffered().skip(self.cursor()),
    {
        self.bits.lemma_bounds();
    }

    /// A fresh decoder.
    pub fn new() -> (d: Self)
        ensures
            d.inv(),
            d.place() == start(),
    {
        let d = Decoder {
            header: Vec::new(),
            phase: Phase::Reading,
            target: 0,
            bits: BitReader::new(),
            history: Vec::new(),
            produced: 0,
            waiting: Waiting::Nothing,
            saw_eos: false,
            out: Ghost(Seq::empty()),
        };
        assert(d.header@ =~= Seq::empty());
        assert(d.history@ =~= d.out@.skip(0));
        d
    }

    /// Keeps the history from growing without bound: of more than two windows, the
    /// latest is kept.
    fn trim_history(&mut self)
        requires
            old(self).active_inv(),
        ensures
            final(self).active_inv(),
            *final(self) == (Decoder { history: final(self).history, ..*old(self) }),
            final(self).history@ == if old(self).history@.len() > 2 * MAX_DISTANCE {
                old(self).history@.skip(old(self).history@.len() - MAX_DISTANCE)
            } else {
                old(self).history@
            },
            final(self).history@.len() <= 2 * MAX_DISTANCE,
    {
        if self.history.len() > 2 * MAX_DISTANCE {
            let drop: usize = self.history.len() - MAX_DISTANCE;
            let rest = self.history.split_off(drop);
            self.history = rest;
            assert(self.history@ =~= self.out@.skip(self.out@.len() - self.history@.len()));
        }
    }

    /// Records `b` as written.
    fn emit_byte(&mut self, b: u8)
        requires
            old(self).active_inv(),
            old(self).produced < old(self).target,
        ensures
            final(self).active_inv(),
            final(self).session() == (Session {
                out: old(self).session().out.push(b),
                ..old(self).session()
            }),
            final(self).phase == old(self).phase,
            final(self).header == old(self).header,
    {
        self.history.push(b);
        self.produced = self.produced + 1;
        self.out = Ghost(self.out@.push(b));
        assert(self.history@ =~= self.out@.skip(self.out@.len() - self.history@.len()));
        self.trim_history();
    }

    /// Reads the nibbles of a length of eight and more.
    fn read_chain(&mut self) -> (r: Result<Option<u32>, Error>)
        requires
            old(self).bits.inv(),
        ensures
            final(self).bits.inv(),
            final(self).bits.all() == old(self).bits.all(),
            *final(self) == (Decoder { bits: final(self).bits, ..*old(self) }),
            match parse_chain(old(self).bits@, 8, length_cap(old(self).target as nat)) {
                LengthParse::More => r == Ok::<Option<u32>, Error>(None),
                LengthParse::Bad => r == Err::<Option<u32>, Error>(Error::Corrupt),
                LengthParse::Got { len, rest } => r == Ok::<Option<u32>, Error>(Some(len as u32))
                    && len <= u32::MAX && final(self).bits@ == rest,
            },
    {
        let cap: u32 = if self.target <= 0xFFFF_FFFF {
            self.target as u32
        } else {
            0xFFFF_FFFF
        };
        let ghost whole = parse_chain(self.bits@, 8, length_cap(self.target as nat));
        let mut acc: u32 = 8;
        loop
            invariant
                self.bits.inv(),
                self.bits.all() == old(self).bits.all(),
                *self == (Decoder { bits: self.bits, ..*old(self) }),
                cap == length_cap(self.target as nat),
                whole == parse_chain(old(self).bits@, 8, length_cap(old(self).target as nat)),
                whole == parse_chain(self.bits@, acc as nat, cap as nat),
            decreases self.bits@.len(),
        {
            let nib: u32 = match self.bits.read_bits(4) {
                Some(v) => v,
                None => {
                    return Ok(None);
                },
            };
            proof {
                lemma_pow2_values();
            }
            if nib != 15 {
                if acc > 0xFFFF_FFFF - nib {
                    return Err(Error::Corrupt);
                }
                return Ok(Some(acc + nib));
            }
            if acc > 0xFFFF_FFFF - 15 {
                return Err(Error::Corrupt);
            }
            acc = acc + 15;
            if acc > cap {
                return Err(Error::Corrupt);
            }
        }
    }

    /// Reads a length. Where more bits are needed, the reader stays as it was.
    pub fn try_read_length(&mut self) -> (r: Result<Option<u32>, Error>)
        requires
            old(self).inv(),
            old(self).place() is Active,
        ensures
            final(self).inv(),
            final(self).place() is Active,
            final(self).moved_from(old(self)),
            final(self).buffered() == old(self).buffered(),
            ({
                let s = old(self).place()->s;
                let t = final(self).place()->s;
                &&& t == (Session { bits: t.bits, ..s })
                &&& match parse_length(s.bits, length_cap(s.target)) {
                    LengthParse::More => {
                        &&& r == Ok::<Option<u32>, Error>(None)
                        &&& final(self).cursor() == old(self).cursor()
                        &&& t == s
                    },
                    LengthParse::Bad => r == Err::<Option<u32>, Error>(Error::Corrupt),
                    LengthParse::Got { len, rest } => {
                        &&& r == Ok::<Option<u32>, Error>(Some(len as u32))
                        &&& len <= u32::MAX
                        &&& t.bits == rest
                        &&& final(self).cursor() == old(self).cursor() + (s.bits.len() - rest.len())
                    },
                }
            }),
    {
        let snap = self.bits.snapshot();
        proof {
            self.bits.lemma_bounds();
        }
        let r = self.read_length();
        if let Ok(None) = r {
            self.bits.restore(snap);
        }
        proof {
            self.bits.lemma_bounds();
        }
        r
    }

    /// Reads a length. Where more bits are needed, those that are there are read.
    fn read_length(&mut self) -> (r: Result<Option<u32>, Error>)
        requires
            old(self).bits.inv(),
        ensures
            final(self).bits.inv(),
            final(self).bits.all() == old(self).bits.all(),
            *final(self) == (Decoder { bits: final(self).bits, ..*old(self) }),
            match parse_length(old(self).bits@, length_cap(old(self).target as nat)) {
                LengthParse::More => r == Ok::<Option<u32>, Error>(None),
                LengthParse::Bad => r == Err::<Option<u32>, Error>(Error::Corrupt),
                LengthParse::Got { len, rest } => r == Ok::<Option<u32>, Error>(Some(len as u32))
                    && len <= u32::MAX && final(self).bits@ == rest,
            },
    {
        proof {
            lemma_pow2_values();
        }
        let a: u32 = match self.bits.read_bits(2) {
            Some(v) => v,
            None => {
                return Ok(None);
            },
        };
        if a < 3 {
            return Ok(Some(a + 2));
        }
        let b: u32 = match self.bits.read_bits(2) {
            Some(v) => v,
            None => {
                return Ok(None);
            },
        };
        if b < 3 {
            return Ok(Some(b + 5));
        }
        self.read_chain()
    }

    /// Reads the part of a match behind its first two bits.
    fn read_match(&mut self, short: bool) -> (r: Step)
        requires
            old(self).active_inv(),
            old(self).phase is Active,
        ensures
            final(self).bits.inv(),
            final(self).bits.all() == old(self).bits.all(),
            *final(self) == (Decoder { bits: final(self).bits, ..*old(self) }),
            match parse_match(old(self).bits@, short, old(self).target as nat) {
                Parse::More => r is More,
                Parse::Bad { error } => r == Step::Bad(error),
                Parse::Got { token, rest } => final(self).bits@ == rest && (match token {
                    Token::Literal { b } => r == Step::Literal(b),
                    Token::Match { dist, len } => r == Step::Match(dist as u32, len as u32) && dist
                        <= u32::MAX && len <= u32::MAX,
                    Token::End => r is End,
                }),
            },
    {
        let width: u32 = if short {
            7
        } else {
            11
        };
        let dist: u32 = match self.bits.read_bits(width) {
            Some(v) => v,
            None => {
                return Step::More;
            },
        };
        if dist == 0 {
            if short {
                return Step::End;
            }
            return Step::Bad(Error::InvalidDistance);
        }
        match self.try_read_length() {
            Ok(Some(len)) => Step::Match(dist, len),
            Ok(None) => Step::More,
            Err(e) => Step::Bad(e),
        }
    }

    /// Reads a token; the position stays where it was unless there is one.
    fn read_token(&mut self) -> (r: Step)
        requires
            old(self).active_inv(),
            old(self).phase is Active,
        ensures
            final(self).bits.inv(),
            *final(self) == (Decoder { bits: final(self).bits, ..*old(self) }),
            match parse(old(self).bits@, old(self).target as nat) {
                Parse::More => r is More && final(self).bits@ == old(self).bits@,
                Parse::Bad { error } => r == Step::Bad(error),
                Parse::Got { token, rest } => final(self).bits@ == rest && (match token {
                    Token::Literal { b } => r == Step::Literal(b),
                    Token::Match { dist, len } => r == Step::Match(dist as u32, len as u32) && dist
                        <= u32::MAX && len <= u32::MAX,
                    Token::End => r is End,
                }),
            },
    {
        proof {
            lemma_pow2_values();
        }
        let snap = self.bits.snapshot();
        let r = match self.bits.read_bits(1) {
            None => Step::More,
            Some(lead) => {
                if lead == 0 {
                    match self.bits.read_bits(8) {
                        None => Step::More,
                        Some(v) => Step::Literal(v as u8),
                    }
                } else {
                    match self.bits.read_bits(1) {
                        None => Step::More,
                        Some(kind) => self.read_match(kind == 1),
                    }
                }
            },
        };
        match r {
            Step::More => {
                self.bits.restore(snap);
            },
            Step::Bad(_) => {},
            _ => {
                self.bits.compact();
            },
        }
        r
    }

    /// Decodes as far as the bits and the output go.
    pub fn drain(&mut self, output: &mut [u8], at_eof: bool) -> (r: Result<usize, Error>)
        requires
            old(self).inv(),
            old(self).place() is Active,
        ensures
            final(self).inv(),
            final(output)@.len() == old(output)@.len(),
            r matches Ok(n) ==> final(output)@.skip(n as int) == old(output)@.skip(n as int),
            ({
                let s = old(self).place()->s;
                let (t, v) = run(s, old(output)@.len(), at_eof);
                &&& within(t)
                &&& t.target == s.target
                &&& v is Done <==> t.eos && t.out.len() == t.target
                &&& s.out.len() <= t.out.len() <= s.out.len() + old(output)@.len()
                &&& t.out.take(s.out.len() as int) == s.out
                &&& final(output)@ == stored(old(output)@, t.out.skip(s.out.len() as int))
                &&& r == (match v {
                    Verdict::Failed { error } => Err::<usize, Error>(error),
                    _ => Ok((t.out.len() - s.out.len()) as usize),
                })
                &&& final(self).place() == (match v {
                    Verdict::Failed { error } => Place::Failed,
                    Verdict::Done => Place::Done,
                    Verdict::Waiting => Place::Active { s: t },
                })
            }),
    {
        let ghost s = self.session();
        let ghost room = output@.len();
        proof {
            runs_stay_within(s, room, at_eof);
        }
        let ghost out0 = output@;
        let mut written: usize = 0;
        assert(s.out.skip(s.out.len() as int) =~= Seq::<u8>::empty());
        assert(stored(out0, Seq::empty()) =~= out0);
        assert(s.out.take(s.out.len() as int) =~= s.out);
        loop
            invariant
                self.active_inv(),
                self.phase is Active,
                old(self).place() == (Place::Active { s }),
                out0 == old(output)@,
                room == out0.len(),
                output@.len() == room,
                written <= room,
                self.out@.len() == s.out.len() + written,
                self.out@.take(s.out.len() as int) == s.out,
                output@ == stored(out0, self.out@.skip(s.out.len() as int)),
                output@.skip(written as int) == out0.skip(written as int),
                run(s, room, at_eof) == run(self.session(), (room - written) as nat, at_eof),
                ({
                    let (t, v) = run(s, room, at_eof);
                    &&& within(t)
                    &&& t.target == s.target
                    &&& v is Done <==> t.eos && t.out.len() == t.target
                }),
            decreases
                    self.bits@.len(),
                    room - written,
                    (if self.waiting is Nothing {
                        0int
                    } else {
                        1int
                    }),
        {
            let ghost here = self.session();
            if self.produced >= self.target && self.saw_eos {
                self.phase = Phase::Done;
                return Ok(written);
            }
            match self.waiting {
                Waiting::Literal(b) => {
                    if self.produced >= self.target {
                        self.phase = Phase::Failed;
                        return Err(Error::TrailerMismatch);
                    }
                    if written == output.len() {
                        return Ok(written);
                    }
                    self.waiting = Waiting::Nothing;
                    self.emit_byte(b);
                    let ghost before = output@;
                    output[written] = b;
                    written = written + 1;
                    assert(self.out@.take(s.out.len() as int) =~= s.out);
                    assert(output@ =~= stored(out0, self.out@.skip(s.out.len() as int)));
                    assert(output@.skip(written as int) =~= out0.skip(written as int));
                },
                Waiting::Match(dist, len) => {
                    if len == 0 {
                        self.waiting = Waiting::Nothing;
                        continue;
                    }
                    if written == output.len() {
                        return Ok(written);
                    }
                    if self.produced >= self.target {
                        self.phase = Phase::Failed;
                        return Err(Error::TrailerMismatch);
                    }
                    let b = self.history[self.history.len() - dist as usize];
                    assert(b == self.out@[self.out@.len() - dist]);
                    self.waiting = Waiting::Match(dist, (len - 1) as u32);
                    self.emit_byte(b);
                    output[written] = b;
                    written = written + 1;
                    assert(self.out@.take(s.out.len() as int) =~= s.out);
                    assert(output@ =~= stored(out0, self.out@.skip(s.out.len() as int)));
                    assert(output@.skip(written as int) =~= out0.skip(written as int));
                },
                Waiting::Nothing => {
                    if self.saw_eos {
                        self.phase = Phase::Failed;
                        return Err(Error::TrailerMismatch);
                    }
                    proof {
                        lemma_parse_progress(self.bits@, self.target as nat);
                    }
                    match self.read_token() {
                        Step::More => {
                            if at_eof {
                                self.phase = Phase::Failed;
                                return Err(Error::UnexpectedEnd);
                            }
                            return Ok(written);
                        },
                        Step::Bad(e) => {
                            self.phase = Phase::Failed;
                            return Err(e);
                        },
                        Step::Literal(b) => {
                            self.waiting = Waiting::Literal(b);
                        },
                        Step::Match(dist, len) => {
                            if dist as u64 > self.produced {
                                self.phase = Phase::Failed;
                                return Err(Error::InvalidDistance);
                            }
                            self.waiting = Waiting::Match(dist, len);
                        },
                        Step::End => {
                            self.saw_eos = true;
                        },
                    }
                },
            }
        }
    }
}

impl Default for Decoder {
    fn default() -> (d: Self)
        ensures
            d.inv(),
            d.place() == start(),
    {
        Decoder::new()
    }
}

impl RawDecoder for Decoder {
    closed spec fn inv(&self) -> bool {
        &&& self.phase is Active ==> self.active_inv()
        &&& self.phase is Reading ==> self.header@.len() < 8
    }

    open spec fn decode_post(
        before: Self,
        input: Seq<u8>,
        old_output: Seq<u8>,
        after: Self,
        new_output: Seq<u8>,
        r: Result<RawProgress, Error>,
    ) -> bool {
        match supplied(before.place(), input) {
            Place::Failed => {
                &&& r == Err::<RawProgress, Error>(Error::Corrupt)
                &&& new_output == old_output
                &&& after.place() is Failed
            },
            Place::Active { s } => {
                let (t, v) = run(s, old_output.len(), false);
                &&& new_output == stored(old_output, t.out.skip(s.out.len() as int))
                &&& r == (match v {
                    Verdict::Failed { error } => Err::<RawProgress, Error>(error),
                    _ => Ok(
                        RawProgress {
                            consumed: input.len() as usize,
                            written: (t.out.len() - s.out.len()) as usize,
                            done: v is Done,
                        },
                    ),
                })
                &&& after.place() == (match v {
                    Verdict::Failed { error } => Place::Failed,
                    Verdict::Done => Place::Done,
                    Verdict::Waiting => Place::Active { s: t },
                })
            },
            p => {
                &&& r == Ok::<RawProgress, Error>(
                    RawProgress {
                        consumed: input.len() as usize,
                        written: 0,
                        done: p is Done,
                    },
                )
                &&& new_output == old_output
                &&& after.place() == p
            },
        }
    }

    open spec fn finish_post(
        before: Self,
        old_output: Seq<u8>,
        after: Self,
        new_output: Seq<u8>,
        r: Result<RawProgress, Error>,
    ) -> bool {
        match before.place() {
            Place::Failed => {
                &&& r == Err::<RawProgress, Error>(Error::Corrupt)
                &&& new_output == old_output
                &&& after.place() is Failed
            },
            Place::Done => {
                &&& r == Ok::<RawProgress, Error>(
                    RawProgress { consumed: 0, written: 0, done: true },
                )
                &&& new_output == old_output
                &&& after.place() is Done
            },
            Place::Reading { bytes } => {
                &&& new_output == old_output
                &&& if bytes.len() > 0 || old_output.len() > 0 {
                    &&& r == Err::<RawProgress, Error>(Error::UnexpectedEnd)
                    &&& after.place() is Failed
                } else {
                    &&& r == Ok::<RawProgress, Error>(
                        RawProgress { consumed: 0, written: 0, done: false },
                    )
                    &&& after.place() == before.place()
                }
            },
            Place::Active { s } => {
                let (t, v) = run(s, old_output.len(), true);
                &&& new_output == stored(old_output, t.out.skip(s.out.len() as int))
                &&& r == (match v {
                    Verdict::Failed { error } => Err::<RawProgress, Error>(error),
                    _ => Ok(
                        RawProgress {
                            consumed: 0,
                            written: (t.out.len() - s.out.len()) as usize,
                            done: v is Done,
                        },
                    ),
                })
                &&& after.place() == (match v {
                    Verdict::Failed { error } => Place::Failed,
                    Verdict::Done => Place::Done,
                    Verdict::Waiting => Place::Active { s: t },
                })
            },
        }
    }

    open spec fn reset_post(before: Self, after: Self) -> bool {
        after.place() == start()
    }

    fn raw_decode(&mut self, input: &[u8], output: &mut [u8]) -> (r: Result<RawProgress, Error>) {
        let ghost place0 = self.place();
        if self.phase == Phase::Failed {
            return Err(Error::Corrupt);
        }
        let mut used: usize = 0;
        if self.phase == Phase::Reading {
            let ghost all = self.header@ + input@;
            assert(self.header@ =~= old(self).header@ + input@.take(0));
            while self.header.len() < 8 && used < input.len()
                invariant
                    used <= input@.len(),
                    self.header@.len() <= 8,
                    self.phase is Reading,
                    self.header@ == old(self).header@ + input@.take(used as int),
                decreases input@.len() - used,
            {
                self.header.push(input[used]);
                used = used + 1;
                assert(self.header@ =~= old(self).header@ + input@.take(used as int));
            }
            if self.header.len() < 8 {
                assert(self.header@ =~= all);
                return Ok(RawProgress { consumed: used, written: 0, done: false });
            }
            proof {
                assert(self.header@ =~= all.take(8));
                assert(input@.skip(used as int) =~= all.skip(8));
            }
            self.target = read_le(self.header.as_slice());
            if self.target == 0 {
                self.phase = Phase::Done;
            } else {
                self.phase = Phase::Active;
                self.bits.clear();
                self.history.clear();
                self.produced = 0;
                self.waiting = Waiting::Nothing;
                self.saw_eos = false;
                self.out = Ghost(Seq::empty());
                assert(self.history@ =~= self.out@.skip(0));
                assert(self.bits@ + bits_of(all.skip(8)) =~= bits_of(all.skip(8)));
            }
        } else {
            assert(input@.skip(0) =~= input@);
        }
        if self.phase == Phase::Done {
            return Ok(RawProgress { consumed: input.len(), written: 0, done: true });
        }
        let rest = vstd::slice::slice_subrange(input, used, input.len());
        assert(rest@ =~= input@.skip(used as int));
        self.bits.push_bytes(rest);
        assert(supplied(place0, input@) == (Place::Active { s: self.session() }));
        let r = self.drain(output, false);
        match r {
            Err(e) => Err(e),
            Ok(written) => {
                Ok(
                    RawProgress {
                        consumed: input.len(),
                        written,
                        done: self.phase == Phase::Done,
                    },
                )
            },
        }
    }

    fn raw_finish(&mut self, output: &mut [u8]) -> (r: Result<RawProgress, Error>) {
        match self.phase {
            Phase::Failed => Err(Error::Corrupt),
            Phase::Done => Ok(RawProgress { consumed: 0, written: 0, done: true }),
            Phase::Reading => {
                if self.header.len() > 0 || output.len() > 0 {
                    self.phase = Phase::Failed;
                    Err(Error::UnexpectedEnd)
                } else {
                    Ok(RawProgress { consumed: 0, written: 0, done: false })
                }
            },
            Phase::Active => {
                let r = self.drain(output, true);
                match r {
                    Err(e) => Err(e),
                    Ok(written) => {
                        Ok(
                            RawProgress {
                                consumed: 0,
                                written,
                                done: self.phase == Phase::Done,
                            },
                        )
                    },
                }
            },
        }
    }

    fn raw_reset(&mut self) {
        *self = Decoder::new();
    }
}

/// The length that the first eight bytes declare.
pub open spec fn declared(code: Seq<u8>) -> nat {
    le_value(code.take(8))
}

/// What was taken and handed out on the way to a place.
spec fn reached(p: Place, taken: Seq<u8>, handed: Seq<u8>) -> bool {
    match p {
        Place::Reading { bytes } => bytes == taken && bytes.len() < 8 && handed.len() == 0,
        Place::Active { s } => {
            &&& taken.len() >= 8
            &&& s.target == declared(taken)
            &&& s.out == handed
            &&& within(s)
        },
        Place::Done => taken.len() >= 8 && handed.len() == declared(taken),
        Place::Failed => handed.len() > 0 ==> taken.len() >= 8 && handed.len() <= declared(taken),
    }
}

proof fn lemma_reached(d: Decoder, taken: Seq<u8>, handed: Seq<u8>, c: Call<Decoder>)
    requires
        reached(d.place(), taken, handed),
        decode_call(d, c),
    ensures
        reached(c.after.place(), taken + c.taken(), handed + c.handed()),
        c.is_done() ==> c.after.place() is Done,
{
    let all = taken + c.taken();
    if taken.len() >= 8 {
        assert(all.take(8) =~= taken.take(8));
    }
    if c.r is Err {
        assert(all =~= taken);
        assert(handed + c.handed() =~= handed);
    }
    if c.finishing {
        assert(all =~= taken);
        match d.place() {
            Place::Active { s } => {
                runs_stay_within(s, c.room.len(), true);
                let t = run(s, c.room.len(), true).0;
                if c.r is Ok {
                    assert(c.handed() =~= t.out.skip(s.out.len() as int));
                    assert(handed + c.handed() =~= t.out);
                }
            },
            _ => {
                assert(handed + c.handed() =~= handed);
            },
        }
    } else {
        if c.r is Ok {
            assert(c.taken() =~= c.input);
        }
        match supplied(d.place(), c.input) {
            Place::Active { s } => {
                runs_stay_within(s, c.room.len(), false);
                let t = run(s, c.room.len(), false).0;
                if c.r is Ok {
                    assert(c.handed() =~= t.out.skip(s.out.len() as int));
                    assert(handed + c.handed() =~= t.out);
                }
            },
            _ => {
                assert(handed + c.handed() =~= handed);
            },
        }
    }
}

proof fn lemma_all_reached(d: Decoder, cs: Seq<Call<Decoder>>)
    requires
        d.place() == start(),
        decodes(d, cs),
    ensures
        reached(behind(d, cs).place(), all_taken(cs), all_handed(cs)),
        cs.len() > 0 && cs.last().is_done() ==> behind(d, cs).place() is Done,
    decreases cs.len(),
{
    if cs.len() > 0 {
        let a = cs.drop_last();
        lemma_all_reached(d, a);
        lemma_reached(behind(d, a), all_taken(a), all_handed(a), cs.last());
    }
}

/// However a new decoder is called, it hands out nothing before it has taken the declared
/// length and no more than that altogether, and it is done only with exactly as much
/// handed out.
pub proof fn declared_length_is_a_bound(d: Decoder, cs: Seq<Call<Decoder>>)
    requires
        d.place() == start(),
        decodes(d, cs),
    ensures
        all_handed(cs).len() > 0 ==> all_taken(cs).len() >= 8,
        all_handed(cs).len() > 0 ==> all_handed(cs).len() <= declared(all_taken(cs)),
        cs.len() > 0 && cs.last().is_done() ==> all_taken(cs).len() >= 8 && all_handed(cs).len()
            == declared(all_taken(cs)),
{
    lemma_all_reached(d, cs);
}

} // verus!
