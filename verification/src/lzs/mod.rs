//! Stac LZS: an LZ77 code with a window of two kilobytes, packed most
//! significant bit first.
//!
//! * A literal is `0` and the eight bits of the byte.
//! * A match is `1`, an offset and a length. The offset is `1` and seven bits
//!   (1 to 127) or `0` and eleven bits (1 to 2047).
//! * The end of the stream is a short offset of zero, `110000000`; ones fill the
//!   last byte.
//!
//! | bits                     | length |
//! |--------------------------|-------:|
//! | `00`, `01`, `10`         | 2 to 4 |
//! | `1100`, `1101`, `1110`   | 5 to 7 |
//! | `1111`, then nibbles     | 8 and up |
//!
//! Each nibble `1111` adds 15 and is followed by another; the last one, which is
//! not `1111`, adds its value.
//!
//! The payload is preceded by the uncompressed length, eight bytes, little
//! endian. A stream of length zero is complete with its header.
use vstd::prelude::*;

use crate::bits::{bits_from, bits_of, lemma_number_bound, lemma_pow2_values, lemma_read_bits};
use crate::bits::{lemma_read_more, lemma_unpacked, packed, read};
use crate::error::Error;
use crate::le::{le_bytes, le_value, lemma_le, lemma_spans};
use crate::lz::{common, lemma_common, lemma_lz_copy_source, lz_copy};
use crate::traits::{Algorithm, RawDecoder, RawEncoder};

pub mod bits;
pub mod decoder;
pub mod encoder;

pub use decoder::Decoder;
pub use encoder::Encoder;

use bits::{ones, pad_len};

verus! {

/// Size of the window. The eleven bits of a long offset reach one byte less.
pub const MAX_DISTANCE: usize = 2048;

/// Shortest match.
pub const MIN_MATCH: usize = 2;

/// Slots of the match finder.
pub const HASH_SIZE: usize = 4096;

/// An empty slot of the match finder.
pub const HASH_EMPTY: u32 = u32::MAX;

/// Marker type of the LZS codec.
#[derive(Debug, Clone, Copy, Default)]
pub struct Lzs;

impl Algorithm for Lzs {
    const NAME: &'static str = "lzs";

    type Encoder = Encoder;

    type Decoder = Decoder;

    type EncoderConfig = ();

    type DecoderConfig = ();

    open spec fn is_encoder_with(config: (), e: Encoder) -> bool {
        e.inv() && e.is_fresh()
    }

    open spec fn is_decoder_with(config: (), d: Decoder) -> bool {
        d.inv() && d.place() == start()
    }

    fn encoder_with(config: ()) -> (e: Encoder) {
        Encoder::new()
    }

    fn decoder_with(config: ()) -> (d: Decoder) {
        Decoder::new()
    }
}

/// One coded symbol.
pub enum Token {
    /// A byte that stands for itself.
    Literal { b: u8 },
    /// `len` bytes from `dist` bytes back.
    Match { dist: nat, len: nat },
    /// The end of the stream.
    End,
}

/// What reading a length gives.
pub enum LengthParse {
    /// More bits are needed.
    More,
    /// The length is too long.
    Bad,
    /// A length, and the bits behind it.
    Got { len: nat, rest: Seq<bool> },
}

/// What reading a token gives.
pub enum Parse {
    /// More bits are needed.
    More,
    /// The token is not valid.
    Bad { error: Error },
    /// A token, and the bits behind it.
    Got { token: Token, rest: Seq<bool> },
}

/// Reads the nibbles of a length of which `acc` is known. A length that
/// passes `cap` by way of `1111` nibbles is refused.
pub open spec fn parse_chain(bits: Seq<bool>, acc: nat, cap: nat) -> LengthParse
    decreases bits.len(),
{
    match read(bits, 4) {
        None => LengthParse::More,
        Some((nib, rest)) => if nib != 15 {
            if acc + nib > u32::MAX {
                LengthParse::Bad
            } else {
                LengthParse::Got { len: acc + nib, rest }
            }
        } else if acc + 15 > u32::MAX || acc + 15 > cap {
            LengthParse::Bad
        } else {
            parse_chain(rest, acc + 15, cap)
        },
    }
}

/// Reads a length.
pub open spec fn parse_length(bits: Seq<bool>, cap: nat) -> LengthParse {
    match read(bits, 2) {
        None => LengthParse::More,
        Some((a, rest)) => if a < 3 {
            LengthParse::Got { len: a + 2, rest }
        } else {
            match read(rest, 2) {
                None => LengthParse::More,
                Some((b, rest)) => if b < 3 {
                    LengthParse::Got { len: b + 5, rest }
                } else {
                    parse_chain(rest, 8, cap)
                },
            }
        },
    }
}

/// The longest length by `1111` nibbles in a stream of `target` bytes.
pub open spec fn length_cap(target: nat) -> nat {
    if target <= u32::MAX {
        target
    } else {
        u32::MAX as nat
    }
}

/// Reads the part of a match behind its first two bits.
pub open spec fn parse_match(bits: Seq<bool>, short: bool, target: nat) -> Parse {
    match read(
        bits,
        if short {
            7
        } else {
            11
        },
    ) {
        None => Parse::More,
        Some((dist, rest)) => if dist == 0 && short {
            Parse::Got { token: Token::End, rest }
        } else if dist == 0 {
            Parse::Bad { error: Error::InvalidDistance }
        } else {
            match parse_length(rest, length_cap(target)) {
                LengthParse::More => Parse::More,
                LengthParse::Bad => Parse::Bad { error: Error::Corrupt },
                LengthParse::Got { len, rest } => Parse::Got {
                    token: Token::Match { dist, len },
                    rest,
                },
            }
        },
    }
}

/// Reads a token of a stream of `target` bytes.
pub open spec fn parse(bits: Seq<bool>, target: nat) -> Parse {
    match read(bits, 1) {
        None => Parse::More,
        Some((lead, rest)) => if lead == 0 {
            match read(rest, 8) {
                None => Parse::More,
                Some((v, rest)) => Parse::Got { token: Token::Literal { b: v as u8 }, rest },
            }
        } else {
            match read(rest, 1) {
                None => Parse::More,
                Some((kind, rest)) => parse_match(rest, kind == 1, target),
            }
        },
    }
}

/// Output that a token asked for and that is not written yet.
pub enum Owed {
    /// Nothing.
    Nothing,
    /// A literal.
    Literal { b: u8 },
    /// `len` bytes from `dist` bytes back.
    Match { dist: nat, len: nat },
}

/// A payload that is being decoded.
pub struct Session {
    /// The declared length.
    pub target: nat,
    /// The bits that were supplied and not read.
    pub bits: Seq<bool>,
    /// The bytes written so far.
    pub out: Seq<u8>,
    /// Output to be written before the next token is read.
    pub owed: Owed,
    /// The end of the stream was read.
    pub eos: bool,
}

/// How a run of the decoder ends.
pub enum Verdict {
    /// It waits for bits or for room.
    Waiting,
    /// The stream is complete.
    Done,
    /// The stream is corrupt or truncated.
    Failed { error: Error },
}

/// The session behind a token, whose bits end where `rest` begins.
pub open spec fn behind(s: Session, token: Token, rest: Seq<bool>) -> Session {
    match token {
        Token::Literal { b } => Session { bits: rest, owed: Owed::Literal { b }, ..s },
        Token::Match { dist, len } => Session {
            bits: rest,
            owed: Owed::Match { dist, len },
            ..s
        },
        Token::End => Session { bits: rest, eos: true, ..s },
    }
}

/// Decodes as far as the bits and `room` bytes of output go. With `eof` there
/// are no more bits to come.
pub open spec fn run(s: Session, room: nat, eof: bool) -> (Session, Verdict)
    decreases
            s.bits.len(),
            room,
            (if s.owed is Nothing {
                0int
            } else {
                1int
            }),
{
    if s.out.len() >= s.target && s.eos {
        (s, Verdict::Done)
    } else {
        match s.owed {
            Owed::Literal { b } => if s.out.len() >= s.target {
                (s, Verdict::Failed { error: Error::TrailerMismatch })
            } else if room == 0 {
                (s, Verdict::Waiting)
            } else {
                run(
                    Session { out: s.out.push(b), owed: Owed::Nothing, ..s },
                    (room - 1) as nat,
                    eof,
                )
            },
            Owed::Match { dist, len } => if len == 0 {
                run(Session { owed: Owed::Nothing, ..s }, room, eof)
            } else if room == 0 {
                (s, Verdict::Waiting)
            } else if s.out.len() >= s.target {
                (s, Verdict::Failed { error: Error::TrailerMismatch })
            } else {
                run(
                    Session {
                        out: s.out.push(s.out[s.out.len() - dist]),
                        owed: Owed::Match { dist, len: (len - 1) as nat },
                        ..s
                    },
                    (room - 1) as nat,
                    eof,
                )
            },
            Owed::Nothing => if s.eos {
                (s, Verdict::Failed { error: Error::TrailerMismatch })
            } else {
                match parse(s.bits, s.target) {
                    Parse::More => (
                        s,
                        if eof {
                            Verdict::Failed { error: Error::UnexpectedEnd }
                        } else {
                            Verdict::Waiting
                        },
                    ),
                    Parse::Bad { error } => (s, Verdict::Failed { error }),
                    Parse::Got { token, rest } => {
                        proof {
                            lemma_parse_progress(s.bits, s.target);
                        }
                        if (token matches Token::Match { dist, len } && dist > s.out.len()) {
                            (s, Verdict::Failed { error: Error::InvalidDistance })
                        } else {
                            run(behind(s, token, rest), room, eof)
                        }
                    },
                }
            },
        }
    }
}

/// Where in the code a decoder stands.
pub enum Place {
    /// Within the header.
    Reading { bytes: Seq<u8> },
    /// Within the payload.
    Active { s: Session },
    /// Behind the payload.
    Done,
    /// The stream was found corrupt or truncated.
    Failed,
}

/// The place before the first byte.
pub open spec fn start() -> Place {
    Place::Reading { bytes: Seq::empty() }
}

/// The session at the start of a payload.
pub open spec fn session(target: nat, bits: Seq<bool>) -> Session {
    Session { target, bits, out: Seq::empty(), owed: Owed::Nothing, eos: false }
}

/// The place after the bytes of `input` were supplied.
pub open spec fn supplied(p: Place, input: Seq<u8>) -> Place {
    match p {
        Place::Reading { bytes } => {
            let all = bytes + input;
            if all.len() < 8 {
                Place::Reading { bytes: all }
            } else if le_value(all.take(8)) == 0 {
                Place::Done
            } else {
                Place::Active { s: session(le_value(all.take(8)), bits_of(all.skip(8))) }
            }
        },
        Place::Active { s } => Place::Active {
            s: Session { bits: s.bits + bits_of(input), ..s },
        },
        _ => p,
    }
}

proof fn lemma_chain_progress(bits: Seq<bool>, acc: nat, cap: nat)
    ensures
        parse_chain(bits, acc, cap) matches LengthParse::Got { len, rest } ==> rest.len()
            < bits.len() && acc <= len <= u32::MAX,
    decreases bits.len(),
{
    if let Some((nib, rest)) = read(bits, 4) {
        if nib == 15 && acc + 15 <= u32::MAX && acc + 15 <= cap {
            lemma_chain_progress(rest, acc + 15, cap);
        }
    }
}

/// A token takes bits, and what it says lies within bounds.
pub proof fn lemma_parse_progress(bits: Seq<bool>, target: nat)
    ensures
        parse(bits, target) matches Parse::Got { token, rest } ==> {
            &&& rest.len() < bits.len()
            &&& token matches Token::Match { dist, len } ==> 1 <= dist < MAX_DISTANCE && MIN_MATCH
                <= len <= u32::MAX
        },
{
    lemma_pow2_values();
    if let Some((lead, r1)) = read(bits, 1) {
        if let Some((kind, r2)) = read(r1, 1) {
            let w: nat = if kind == 1 {
                7
            } else {
                11
            };
            if let Some((dist, r3)) = read(r2, w) {
                lemma_number_bound(r2.take(w as int));
                if let Some((a, r4)) = read(r3, 2) {
                    if let Some((b, r5)) = read(r4, 2) {
                        lemma_chain_progress(r5, 8, length_cap(target));
                    }
                }
            }
        }
    }
}

/// The match finder's slot for the two bytes at `i`.
pub open spec fn hash_of(data: Seq<u8>, i: int) -> int {
    (256 * data[i] + data[i + 1]) * 2654435761 % 4294967296 / 1048576
}

/// The match finder at the start.
pub open spec fn no_positions() -> Seq<u32> {
    Seq::new(HASH_SIZE as nat, |h: int| HASH_EMPTY)
}

/// The match finder after position `i` was put in its slot. Positions are kept
/// in 32 bits.
pub open spec fn noted(slots: Seq<u32>, data: Seq<u8>, i: int) -> Seq<u32> {
    if i + MIN_MATCH <= data.len() {
        slots.update(hash_of(data, i), (i % 4294967296) as u32)
    } else {
        slots
    }
}

/// The match finder after the positions `j..end`.
pub open spec fn noted_until(slots: Seq<u32>, data: Seq<u8>, j: int, end: int) -> Seq<u32>
    decreases end - j,
{
    if j < end {
        noted_until(noted(slots, data, j), data, j + 1, end)
    } else {
        slots
    }
}

/// The match at `i` that the finder offers, as `(distance, length)`.
pub open spec fn found(slots: Seq<u32>, data: Seq<u8>, i: int) -> Option<(nat, nat)> {
    if i + MIN_MATCH > data.len() {
        None
    } else {
        let prev = slots[hash_of(data, i)];
        let len = common(data, prev as int, i, (data.len() - i) as nat);
        if prev != HASH_EMPTY && prev < i && i - prev < MAX_DISTANCE && len >= MIN_MATCH {
            Some(((i - prev) as nat, len))
        } else {
            None
        }
    }
}

/// The tokens of `data` from `i` on, without the end.
pub open spec fn tokens(slots: Seq<u32>, data: Seq<u8>, i: int) -> Seq<Token>
    decreases data.len() - i,
{
    if i < 0 || i >= data.len() {
        Seq::empty()
    } else {
        let here = noted(slots, data, i);
        match found(slots, data, i) {
            Some((dist, len)) => if i + len > data.len() || len == 0 {
                Seq::empty()
            } else {
                seq![Token::Match { dist, len }] + tokens(
                    noted_until(here, data, i + 1, i + len),
                    data,
                    i + len,
                )
            },
            None => seq![Token::Literal { b: data[i] }] + tokens(here, data, i + 1),
        }
    }
}

/// The nibbles of a length of which `rem` is left.
pub open spec fn chain_bits(rem: nat) -> Seq<bool>
    decreases rem,
{
    if rem >= 15 {
        bits_from(15, 4) + chain_bits((rem - 15) as nat)
    } else {
        bits_from(rem, 4)
    }
}

/// The bits of a length.
pub open spec fn length_bits(len: nat) -> Seq<bool> {
    if len < 5 {
        bits_from((len - 2) as nat, 2)
    } else if len < 8 {
        bits_from(3, 2) + bits_from((len - 5) as nat, 2)
    } else {
        bits_from(3, 2) + bits_from(3, 2) + chain_bits((len - 8) as nat)
    }
}

/// The bits of a token.
pub open spec fn token_bits(t: Token) -> Seq<bool> {
    match t {
        Token::Literal { b } => bits_from(0, 1) + bits_from(b as nat, 8),
        Token::Match { dist, len } => if dist <= 127 {
            bits_from(1, 1) + bits_from(1, 1) + bits_from(dist, 7) + length_bits(len)
        } else {
            bits_from(1, 1) + bits_from(0, 1) + bits_from(dist, 11) + length_bits(len)
        },
        Token::End => bits_from(1, 1) + bits_from(1, 1) + bits_from(0, 7),
    }
}

/// The bits of a sequence of tokens.
pub open spec fn all_bits(ts: Seq<Token>) -> Seq<bool>
    decreases ts.len(),
{
    if ts.len() == 0 {
        Seq::empty()
    } else {
        token_bits(ts[0]) + all_bits(ts.skip(1))
    }
}

/// The bits of the payload of `data`, without the padding.
pub open spec fn payload_bits(data: Seq<u8>) -> Seq<bool> {
    all_bits(tokens(no_positions(), data, 0)) + token_bits(Token::End)
}

/// The payload of `data`.
pub open spec fn payload(data: Seq<u8>) -> Seq<u8> {
    let bits = payload_bits(data);
    packed(bits + ones(pad_len(bits.len())))
}

/// The LZS code of `data`.
pub open spec fn encoded(data: Seq<u8>) -> Seq<u8> {
    le_bytes(data.len(), 8) + payload(data)
}

/// A token that a stream of `target` bytes can hold.
pub open spec fn sound(t: Token, target: nat) -> bool {
    t matches Token::Match { dist, len } ==> 1 <= dist < MAX_DISTANCE && MIN_MATCH <= len
        <= length_cap(target)
}

/// Every match is short enough for the decoder, which counts in 32 bits.
pub open spec fn matches_fit(ts: Seq<Token>) -> bool {
    forall|k: int|
        0 <= k < ts.len() ==> (#[trigger] ts[k] matches Token::Match { dist, len } ==> len
            <= u32::MAX)
}

proof fn lemma_chain(rem: nat, acc: nat, cap: nat, rest: Seq<bool>)
    requires
        acc + rem <= cap <= u32::MAX,
    ensures
        parse_chain(chain_bits(rem) + rest, acc, cap) == (LengthParse::Got {
            len: acc + rem,
            rest,
        }),
    decreases rem,
{
    lemma_pow2_values();
    if rem >= 15 {
        let tail = chain_bits((rem - 15) as nat) + rest;
        lemma_read_bits(15, 4, tail);
        assert(chain_bits(rem) + rest =~= bits_from(15, 4) + tail);
        lemma_chain((rem - 15) as nat, acc + 15, cap, rest);
    } else {
        lemma_read_bits(rem, 4, rest);
    }
}

proof fn lemma_chain_cut(rem: nat, acc: nat, cap: nat, k: int)
    requires
        acc + rem <= cap <= u32::MAX,
        0 <= k < chain_bits(rem).len(),
    ensures
        parse_chain(chain_bits(rem).take(k), acc, cap) is More,
    decreases rem,
{
    if k >= 4 {
        lemma_pow2_values();
        let tail = chain_bits((rem - 15) as nat);
        lemma_read_bits(15, 4, tail.take(k - 4));
        assert(chain_bits(rem).take(k) =~= bits_from(15, 4) + tail.take(k - 4));
        lemma_chain_cut((rem - 15) as nat, acc + 15, cap, k - 4);
    }
}

/// A length reads back from its bits, whatever follows, and where some of its bits are
/// missing at the end, more are asked for.
pub proof fn lengths_read_back(len: nat, cap: nat, rest: Seq<bool>, k: int)
    requires
        MIN_MATCH <= len <= cap <= u32::MAX,
    ensures
        parse_length(length_bits(len) + rest, cap) == (LengthParse::Got { len, rest }),
        0 <= k < length_bits(len).len() ==> parse_length(length_bits(len).take(k), cap) is More,
{
    lemma_length(len, cap, rest);
    if 2 <= k < length_bits(len).len() {
        lemma_pow2_values();
        let head = bits_from(3, 2);
        let tail = length_bits(len).skip(2);
        assert(length_bits(len) =~= head + tail);
        assert(length_bits(len).take(k) =~= head + tail.take(k - 2));
        lemma_read_bits(3, 2, tail.take(k - 2));
        if k >= 4 {
            let chain = chain_bits((len - 8) as nat);
            assert(tail =~= head + chain);
            assert(tail.take(k - 2) =~= head + chain.take(k - 4));
            lemma_read_bits(3, 2, chain.take(k - 4));
            lemma_chain_cut((len - 8) as nat, 8, cap, k - 4);
        }
    }
}

proof fn lemma_length(len: nat, cap: nat, rest: Seq<bool>)
    requires
        MIN_MATCH <= len <= cap <= u32::MAX,
    ensures
        parse_length(length_bits(len) + rest, cap) == (LengthParse::Got { len, rest }),
{
    lemma_pow2_values();
    let all = length_bits(len) + rest;
    if len < 5 {
        lemma_read_bits((len - 2) as nat, 2, rest);
    } else if len < 8 {
        let tail = bits_from((len - 5) as nat, 2) + rest;
        lemma_read_bits(3, 2, tail);
        lemma_read_bits((len - 5) as nat, 2, rest);
        assert(all =~= bits_from(3, 2) + tail);
    } else {
        let chain = chain_bits((len - 8) as nat) + rest;
        let tail = bits_from(3, 2) + chain;
        lemma_read_bits(3, 2, tail);
        lemma_read_bits(3, 2, chain);
        lemma_chain((len - 8) as nat, 8, cap, rest);
        assert(all =~= bits_from(3, 2) + tail);
    }
}

/// A match reads back with its distance in eleven bits, and one of less than 128 in seven
/// as well, whichever the writer chose.
pub proof fn distances_read_back_in_both_widths(
    dist: nat,
    len: nat,
    target: nat,
    rest: Seq<bool>,
)
    requires
        1 <= dist < 2048,
        2 <= len <= target,
        len <= u32::MAX,
    ensures
        parse(
            bits_from(1, 1) + (bits_from(0, 1) + (bits_from(dist, 11) + (length_bits(len) + rest))),
            target,
        ) == (Parse::Got { token: Token::Match { dist, len }, rest }),
        dist < 128 ==> parse(
            bits_from(1, 1) + (bits_from(1, 1) + (bits_from(dist, 7) + (length_bits(len) + rest))),
            target,
        ) == (Parse::Got { token: Token::Match { dist, len }, rest }),
{
    lemma_pow2_values();
    vstd::arithmetic::power2::lemma2_to64();
    let tail = length_bits(len) + rest;
    lemma_length(len, length_cap(target), rest);
    lemma_read_bits(1, 1, bits_from(0, 1) + (bits_from(dist, 11) + tail));
    lemma_read_bits(0, 1, bits_from(dist, 11) + tail);
    lemma_read_bits(dist, 11, tail);
    if dist < 128 {
        lemma_read_bits(1, 1, bits_from(1, 1) + (bits_from(dist, 7) + tail));
        lemma_read_bits(1, 1, bits_from(dist, 7) + tail);
        lemma_read_bits(dist, 7, tail);
    }
}

/// A token reads back from its bits.
pub proof fn tokens_read_back(t: Token, target: nat, rest: Seq<bool>)
    requires
        sound(t, target),
    ensures
        parse(token_bits(t) + rest, target) == (Parse::Got { token: t, rest }),
{
    lemma_pow2_values();
    let all = token_bits(t) + rest;
    match t {
        Token::Literal { b } => {
            let tail = bits_from(b as nat, 8) + rest;
            lemma_read_bits(0, 1, tail);
            lemma_read_bits(b as nat, 8, rest);
            assert(all =~= bits_from(0, 1) + tail);
        },
        Token::Match { dist, len } => {
            let short = dist <= 127;
            let (kind, width): (nat, nat) = if short {
                (1, 7)
            } else {
                (0, 11)
            };
            let r3 = length_bits(len) + rest;
            let r2 = bits_from(dist, width) + r3;
            let r1 = bits_from(kind, 1) + r2;
            lemma_read_bits(1, 1, r1);
            lemma_read_bits(kind, 1, r2);
            lemma_read_bits(dist, width, r3);
            lemma_length(len, length_cap(target), rest);
            assert(all =~= bits_from(1, 1) + r1);
        },
        Token::End => {
            let r2 = bits_from(0, 7) + rest;
            let r1 = bits_from(1, 1) + r2;
            lemma_read_bits(1, 1, r1);
            lemma_read_bits(1, 1, r2);
            lemma_read_bits(0, 7, rest);
            assert(all =~= bits_from(1, 1) + r1);
        },
    }
}

proof fn lemma_run_match(s: Session, dist: nat, len: nat, room: nat, eof: bool)
    requires
        s.owed == (Owed::Match { dist, len }),
        !s.eos,
        s.out.len() + len <= s.target,
        len <= room,
        0 < dist <= s.out.len(),
    ensures
        run(s, room, eof) == run(
            Session { out: lz_copy(s.out, dist as int, len), owed: Owed::Nothing, ..s },
            (room - len) as nat,
            eof,
        ),
    decreases len,
{
    if len > 0 {
        let next = Session {
            out: s.out.push(s.out[s.out.len() - dist]),
            owed: Owed::Match { dist, len: (len - 1) as nat },
            ..s
        };
        lemma_run_match(next, dist, (len - 1) as nat, (room - 1) as nat, eof);
    }
}

proof fn lemma_run_token(s: Session, t: Token, rest: Seq<bool>, room: nat, eof: bool)
    requires
        s.owed is Nothing,
        !s.eos,
        s.bits == token_bits(t) + rest,
        sound(t, s.target),
        t matches Token::Match { dist, len } ==> dist <= s.out.len(),
    ensures
        run(s, room, eof) == run(behind(s, t, rest), room, eof),
{
    tokens_read_back(t, s.target, rest);
}

proof fn lemma_run_literal(s: Session, b: u8, rest: Seq<bool>, room: nat, eof: bool)
    requires
        s.owed is Nothing,
        !s.eos,
        s.bits == token_bits(Token::Literal { b }) + rest,
        s.out.len() < s.target,
        room > 0,
    ensures
        run(s, room, eof) == run(
            Session { bits: rest, out: s.out.push(b), ..s },
            (room - 1) as nat,
            eof,
        ),
{
    lemma_run_token(s, Token::Literal { b }, rest, room, eof);
    let t = behind(s, Token::Literal { b }, rest);
    assert(run(t, room, eof) == run(
        Session { out: t.out.push(b), owed: Owed::Nothing, ..t },
        (room - 1) as nat,
        eof,
    ));
}

pub proof fn lemma_found(slots: Seq<u32>, data: Seq<u8>, i: int)
    requires
        0 <= i < data.len(),
    ensures
        found(slots, data, i) matches Some((dist, len)) ==> {
            &&& 1 <= dist <= i
            &&& dist < MAX_DISTANCE
            &&& MIN_MATCH <= len <= data.len() - i
            &&& lz_copy(data.take(i), dist as int, len) == data.take(i + len)
        },
{
    if let Some((dist, len)) = found(slots, data, i) {
        lemma_common(data, i - dist, i, (data.len() - i) as nat);
        lemma_lz_copy_source(data, i, dist as int, len);
    }
}

proof fn lemma_run_tokens(
    slots: Seq<u32>,
    data: Seq<u8>,
    i: int,
    tail: Seq<bool>,
    room: nat,
    eof: bool,
)
    requires
        0 <= i <= data.len(),
        room >= data.len() - i,
        matches_fit(tokens(slots, data, i)),
    ensures
        run(
            Session {
                target: data.len(),
                bits: all_bits(tokens(slots, data, i)) + tail,
                out: data.take(i),
                owed: Owed::Nothing,
                eos: false,
            },
            room,
            eof,
        ) == run(
            Session {
                target: data.len(),
                bits: tail,
                out: data,
                owed: Owed::Nothing,
                eos: false,
            },
            (room - (data.len() - i)) as nat,
            eof,
        ),
    decreases data.len() - i,
{
    let ts = tokens(slots, data, i);
    let bits = all_bits(ts) + tail;
    let s = Session {
        target: data.len(),
        bits,
        out: data.take(i),
        owed: Owed::Nothing,
        eos: false,
    };
    if i < data.len() {
        lemma_found(slots, data, i);
        let here = noted(slots, data, i);
        let t = ts[0];
        let rest = all_bits(ts.skip(1)) + tail;
        assert(bits =~= token_bits(t) + rest);
        assert forall|k: int| 0 <= k < ts.skip(1).len() implies (
        #[trigger] ts.skip(1)[k] matches Token::Match { dist, len } ==> len <= u32::MAX) by {
            assert(ts.skip(1)[k] == ts[k + 1]);
        }
        match found(slots, data, i) {
            Some((dist, len)) => {
                let next = noted_until(here, data, i + 1, i + len);
                assert(ts.skip(1) =~= tokens(next, data, i + len));
                lemma_run_token(s, t, rest, room, eof);
                lemma_run_match(behind(s, t, rest), dist, len, room, eof);
                lemma_run_tokens(next, data, i + len, tail, (room - len) as nat, eof);
            },
            None => {
                assert(ts.skip(1) =~= tokens(here, data, i + 1));
                lemma_run_literal(s, data[i], rest, room, eof);
                assert(data.take(i).push(data[i]) =~= data.take(i + 1));
                lemma_run_tokens(here, data, i + 1, tail, (room - 1) as nat, eof);
            },
        }
    } else {
        assert(bits =~= tail);
        assert(data.take(i) =~= data);
    }
}

/// Decoding inverts encoding: supplied with the code of `data` and enough room,
/// the decoder writes `data` and is done. Matches longer than 32 bits can count
/// are refused by the decoder.
#[verifier::rlimit(30)]
pub proof fn decode_inverts_encode(data: Seq<u8>, room: nat, eof: bool)
    requires
        data.len() <= u64::MAX,
        matches_fit(tokens(no_positions(), data, 0)),
        room >= data.len(),
    ensures
        data.len() == 0 ==> supplied(start(), encoded(data)) is Done,
        data.len() > 0 ==> {
            &&& supplied(start(), encoded(data)) matches Place::Active { s }
            &&& run(s, room, eof).0.out == data
            &&& run(s, room, eof).1 is Done
        },
{
    let code = encoded(data);
    lemma_spans();
    lemma_le(data.len(), 8);
    assert(Seq::<u8>::empty() + code =~= code);
    assert(code.take(8) =~= le_bytes(data.len(), 8));
    assert(code.skip(8) =~= payload(data));
    if data.len() > 0 {
        let bits = payload_bits(data);
        let pad = ones(pad_len(bits.len()));
        assert((bits + pad).len() % 8 == 0);
        lemma_unpacked(bits + pad);
        let s = session(data.len(), bits + pad);
        let end = token_bits(Token::End) + pad;
        assert(bits + pad =~= all_bits(tokens(no_positions(), data, 0)) + end);
        assert(data.take(0) =~= Seq::empty());
        lemma_run_tokens(no_positions(), data, 0, end, room, eof);
        let left = (room - data.len()) as nat;
        let t = Session {
            target: data.len(),
            bits: end,
            out: data,
            owed: Owed::Nothing,
            eos: false,
        };
        lemma_run_token(t, Token::End, pad, left, eof);
        assert(run(behind(t, Token::End, pad), left, eof).1 is Done);
        assert(supplied(start(), code) == (Place::Active { s }));
    }
}

proof fn lemma_chain_more(bits: Seq<bool>, more: Seq<bool>, acc: nat, cap: nat)
    ensures
        parse_chain(bits, acc, cap) matches LengthParse::Got { len, rest } ==> parse_chain(
            bits + more,
            acc,
            cap,
        ) == (LengthParse::Got { len, rest: rest + more }),
    decreases bits.len(),
{
    lemma_read_more(bits, more, 4);
    if let Some((nib, rest)) = read(bits, 4) {
        if nib == 15 && acc + 15 <= u32::MAX && acc + 15 <= cap {
            lemma_chain_more(rest, more, acc + 15, cap);
        }
    }
}

proof fn lemma_parse_more(bits: Seq<bool>, more: Seq<bool>, target: nat)
    ensures
        parse(bits, target) matches Parse::Got { token, rest } ==> parse(bits + more, target) == (
        Parse::Got { token, rest: rest + more }),
{
    lemma_read_more(bits, more, 1);
    if let Some((lead, r1)) = read(bits, 1) {
        lemma_read_more(r1, more, 8);
        lemma_read_more(r1, more, 1);
        if let Some((kind, r2)) = read(r1, 1) {
            let w: nat = if kind == 1 {
                7
            } else {
                11
            };
            lemma_read_more(r2, more, w);
            if let Some((dist, r3)) = read(r2, w) {
                lemma_read_more(r3, more, 2);
                if let Some((a, r4)) = read(r3, 2) {
                    lemma_read_more(r4, more, 2);
                    if let Some((b, r5)) = read(r4, 2) {
                        lemma_chain_more(r5, more, 8, length_cap(target));
                    }
                }
            }
        }
    }
}

/// How a stream is cut into pieces does not matter: a run that came to wait,
/// continued with more bits and more room, goes on as one that had them from the
/// start.
pub proof fn waiting_runs_resume(s: Session, room: nat, more: Seq<bool>, extra: nat, eof: bool)
    ensures
        ({
            let (t, v) = run(s, room, false);
            v is Waiting ==> {
                &&& s.out.len() <= t.out.len() <= s.out.len() + room
                &&& run(Session { bits: s.bits + more, ..s }, room + extra, eof) == run(
                    Session { bits: t.bits + more, ..t },
                    (room + extra - (t.out.len() - s.out.len())) as nat,
                    eof,
                )
            }
        }),
    decreases
            s.bits.len(),
            room,
            (if s.owed is Nothing {
                0int
            } else {
                1int
            }),
{
    let longer = Session { bits: s.bits + more, ..s };
    if s.out.len() >= s.target && s.eos {
    } else {
        match s.owed {
            Owed::Literal { b } => {
                if s.out.len() < s.target && room > 0 {
                    let next = Session { out: s.out.push(b), owed: Owed::Nothing, ..s };
                    waiting_runs_resume(next, (room - 1) as nat, more, extra, eof);
                }
            },
            Owed::Match { dist, len } => {
                if len == 0 {
                    waiting_runs_resume(
                        Session { owed: Owed::Nothing, ..s },
                        room,
                        more,
                        extra,
                        eof,
                    );
                } else if room > 0 && s.out.len() < s.target {
                    let next = Session {
                        out: s.out.push(s.out[s.out.len() - dist]),
                        owed: Owed::Match { dist, len: (len - 1) as nat },
                        ..s
                    };
                    waiting_runs_resume(next, (room - 1) as nat, more, extra, eof);
                }
            },
            Owed::Nothing => {
                if !s.eos {
                    if let Parse::Got { token, rest } = parse(s.bits, s.target) {
                        lemma_parse_progress(s.bits, s.target);
                        lemma_parse_more(s.bits, more, s.target);
                        if !(token matches Token::Match { dist, len } && dist > s.out.len()) {
                            let next = behind(s, token, rest);
                            waiting_runs_resume(next, room, more, extra, eof);
                            assert(behind(longer, token, rest + more) == (Session {
                                bits: next.bits + more,
                                ..next
                            }));
                        }
                    }
                }
            },
        }
    }
}

/// The declared length is not passed, and nothing is owed behind the end of the stream.
pub open spec fn within(s: Session) -> bool {
    s.out.len() <= s.target && (s.eos ==> s.owed is Nothing)
}

/// A run adds to the output, never beyond its room or the declared length, even where it
/// fails. The stream is complete only with the end of the stream read and exactly
/// the declared length written.
pub proof fn runs_stay_within(s: Session, room: nat, eof: bool)
    requires
        within(s),
    ensures
        ({
            let (t, v) = run(s, room, eof);
            &&& within(t)
            &&& t.target == s.target
            &&& s.out.len() <= t.out.len() <= s.out.len() + room
            &&& t.out.take(s.out.len() as int) == s.out
            &&& v is Done <==> t.eos && t.out.len() == t.target
            &&& t.eos && t.out.len() < t.target ==> v == (Verdict::Failed {
                error: Error::TrailerMismatch,
            })
        }),
    decreases
            s.bits.len(),
            room,
            (if s.owed is Nothing {
                0int
            } else {
                1int
            }),
{
    assert(s.out.take(s.out.len() as int) =~= s.out);
    if !(s.out.len() >= s.target && s.eos) {
        match s.owed {
            Owed::Literal { b } => if s.out.len() < s.target && room > 0 {
                let next = Session { out: s.out.push(b), owed: Owed::Nothing, ..s };
                runs_stay_within(next, (room - 1) as nat, eof);
                let t = run(next, (room - 1) as nat, eof).0;
                assert(t.out.take(s.out.len() as int) =~= next.out.take(s.out.len() as int));
            },
            Owed::Match { dist, len } => if len == 0 {
                runs_stay_within(Session { owed: Owed::Nothing, ..s }, room, eof);
            } else if room > 0 && s.out.len() < s.target {
                let next = Session {
                    out: s.out.push(s.out[s.out.len() - dist]),
                    owed: Owed::Match { dist, len: (len - 1) as nat },
                    ..s
                };
                runs_stay_within(next, (room - 1) as nat, eof);
                let t = run(next, (room - 1) as nat, eof).0;
                assert(t.out.take(s.out.len() as int) =~= next.out.take(s.out.len() as int));
            },
            Owed::Nothing => if !s.eos {
                match parse(s.bits, s.target) {
                    Parse::Got { token, rest } => {
                        lemma_parse_progress(s.bits, s.target);
                        if !(token matches Token::Match { dist, len } && dist > s.out.len()) {
                            runs_stay_within(behind(s, token, rest), room, eof);
                        }
                    },
                    _ => {},
                }
            },
        }
    }
}

proof fn lemma_match_too_long(s: Session, room: nat, eof: bool)
    requires
        within(s),
        !s.eos,
        s.owed matches Owed::Match { dist, len } && s.out.len() + len > s.target,
        room > s.target - s.out.len(),
    ensures
        run(s, room, eof).1 == (Verdict::Failed { error: Error::TrailerMismatch }),
        run(s, room, eof).0.out.len() == s.target,
    decreases s.target - s.out.len(),
{
    if s.out.len() < s.target {
        let (dist, len) = (s.owed->dist, s.owed->Match_len);
        let next = Session {
            out: s.out.push(s.out[s.out.len() - dist]),
            owed: Owed::Match { dist, len: (len - 1) as nat },
            ..s
        };
        lemma_match_too_long(next, (room - 1) as nat, eof);
    }
}

/// A token that does not go with the declared length ends the decoding: a literal where
/// as much was written, a match that goes beyond (once there is room to get that far),
/// and the end of the stream where less was written. At the declared length the end of
/// the stream completes it.
pub proof fn tokens_beyond_the_length_fail(s: Session, room: nat, eof: bool)
    requires
        within(s),
        !s.eos,
        s.owed is Nothing,
    ensures
        ({
            let (t, v) = run(s, room, eof);
            let mismatch = Verdict::Failed { error: Error::TrailerMismatch };
            match parse(s.bits, s.target) {
                Parse::Got { token: Token::Literal { b }, rest } => s.out.len() == s.target ==> v
                    == mismatch && t.out == s.out,
                Parse::Got { token: Token::Match { dist, len }, rest } => dist <= s.out.len()
                    && s.out.len() + len > s.target && room > s.target - s.out.len() ==> v
                    == mismatch && t.out.len() == s.target,
                Parse::Got { token: Token::End, rest } => {
                    &&& t.out == s.out
                    &&& s.out.len() < s.target ==> v == mismatch
                    &&& s.out.len() == s.target ==> v is Done
                },
                Parse::More => t.out == s.out && !(v is Done),
                Parse::Bad { error } => t.out == s.out && v == (Verdict::Failed { error }),
            }
        }),
{
    match parse(s.bits, s.target) {
        Parse::Got { token, rest } => {
            let next = behind(s, token, rest);
            match token {
                Token::Literal { b } => {
                    assert(run(s, room, eof) == run(next, room, eof));
                },
                Token::Match { dist, len } => if dist <= s.out.len() && s.out.len() + len > s.target
                    && room > s.target - s.out.len() {
                    assert(run(s, room, eof) == run(next, room, eof));
                    lemma_match_too_long(next, room, eof);
                },
                Token::End => {
                    assert(run(s, room, eof) == run(next, room, eof));
                },
            }
        },
        _ => {},
    }
}

} // verus!
