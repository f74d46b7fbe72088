//! LZNT1, the native compression of NTFS: independent chunks of up to 4096
//! bytes, each a two-byte header and a body.
//!
//! The header, little endian, holds the compressed flag (bit 15), the signature
//! `0b011` (bits 14 to 12) and the body length minus one (bits 11 to 0). An
//! all-zero header ends the stream, as does the end of the input.
//!
//! A compressed body is a sequence of groups: a flag byte, then up to eight
//! tokens, lowest bit first. A clear bit is a literal byte, a set bit a match of
//! two bytes, little endian, that holds `offset - 1` above `length - 3`. How many
//! of the sixteen bits the length gets depends on how many bytes of the chunk
//! are there already; see [`split_for_pos`]. Matches do not reach across
//! chunks.
use vstd::arithmetic::power2::pow2;
use vstd::prelude::*;

use crate::bits::lemma_pow2_values;
use crate::error::Error;
use crate::groups::{bodies, flag_bits, group, lemma_flag_byte, lemma_payload_append, payload};
use crate::groups::{Group, Symbol};
use crate::lz::{common, copy_back, lemma_common, lemma_common_is, lemma_lz_copy_extends};
use crate::lz::{lemma_lz_copy_source, lz_copy};
use crate::machine::{after, drive, emission, taking_is_streaming, taking_one, transduces, Feeder};
use crate::machine::{Machine, Queue};
use crate::traits::{least, stored, Algorithm, RawDecoder, RawEncoder, RawProgress};

verus! {

/// Most bytes of data in a chunk.
pub const CHUNK_SIZE: usize = 4096;

/// Shortest match.
pub const MIN_MATCH: usize = 3;

/// Slots of the match finder.
pub const HASH_TABLE_SIZE: usize = 4096;

/// An empty slot of the match finder.
const EMPTY: usize = usize::MAX;

/// How many bits of a match the length gets once `pos` bytes are there.
pub open spec fn length_bits(pos: int) -> int {
    if pos < 0x10 {
        4
    } else if pos < 0x20 {
        5
    } else if pos < 0x40 {
        6
    } else if pos < 0x80 {
        7
    } else if pos < 0x100 {
        8
    } else if pos < 0x200 {
        9
    } else if pos < 0x400 {
        10
    } else if pos < 0x800 {
        11
    } else {
        12
    }
}

/// Two to the power of [`length_bits`].
pub open spec fn length_span(pos: int) -> int {
    if pos < 0x10 {
        16
    } else if pos < 0x20 {
        32
    } else if pos < 0x40 {
        64
    } else if pos < 0x80 {
        128
    } else if pos < 0x100 {
        256
    } else if pos < 0x200 {
        512
    } else if pos < 0x400 {
        1024
    } else if pos < 0x800 {
        2048
    } else {
        4096
    }
}

/// How the sixteen bits of a match split into offset and length once `pos`
/// bytes of the chunk are there: `(offset bits, length bits)`.
pub fn split_for_pos(pos: usize) -> (r: (u32, u32))
    ensures
        r.1 == length_bits(pos as int),
        r.0 + r.1 == 16,
{
    let length_bits: u32 = if pos < 0x10 {
        4
    } else if pos < 0x20 {
        5
    } else if pos < 0x40 {
        6
    } else if pos < 0x80 {
        7
    } else if pos < 0x100 {
        8
    } else if pos < 0x200 {
        9
    } else if pos < 0x400 {
        10
    } else if pos < 0x800 {
        11
    } else {
        12
    };
    (16 - length_bits, length_bits)
}

/// How many values the length field has once `pos` bytes are there.
fn span_for_pos(pos: usize) -> (span: usize)
    ensures
        span == length_span(pos as int),
{
    let (_, bits): (u32, u32) = split_for_pos(pos);
    let mut span: usize = 16;
    let mut b: u32 = 4;
    while b < bits
        invariant
            4 <= b <= bits <= 12,
            span == (match b {
                4 => 16int,
                5 => 32,
                6 => 64,
                7 => 128,
                8 => 256,
                9 => 512,
                10 => 1024,
                11 => 2048,
                _ => 4096,
            }),
        decreases bits - b,
    {
        span = span * 2;
        b = b + 1;
    }
    span
}

/// Marker type of the LZNT1 codec.
#[derive(Debug, Clone, Copy, Default)]
pub struct Lznt1;

impl Algorithm for Lznt1 {
    const NAME: &'static str = "lznt1";

    type Encoder = Encoder;

    type Decoder = Decoder;

    type EncoderConfig = EncoderConfig;

    type DecoderConfig = ();

    open spec fn is_encoder_with(config: EncoderConfig, e: Encoder) -> bool {
        e.inv() && e.is_fresh()
    }

    open spec fn is_decoder_with(config: (), d: Decoder) -> bool {
        d.inv() && d.is_fresh()
    }

    fn encoder_with(config: EncoderConfig) -> (e: Encoder) {
        Encoder::with_config(config)
    }

    fn decoder_with(config: ()) -> (d: Decoder) {
        Decoder::new()
    }
}

/// What a chunk body stands for, read from byte `i` on with `out` already
/// decoded and `left` tokens of a group with these `flags` to come.
pub open spec fn body_from(body: Seq<u8>, i: int, flags: nat, left: nat, out: Seq<u8>) -> Result<
    Seq<u8>,
    Error,
>
    decreases body.len() - i,
{
    if i >= body.len() {
        Ok(out)
    } else if left == 0 {
        body_from(body, i + 1, body[i] as nat, 8, out)
    } else if flags % 2 == 0 {
        if out.len() + 1 > CHUNK_SIZE {
            Err(Error::Corrupt)
        } else {
            body_from(body, i + 1, flags / 2, (left - 1) as nat, out.push(body[i]))
        }
    } else if i + 2 > body.len() || out.len() == 0 {
        Err(Error::Corrupt)
    } else {
        let token = body[i] + 256 * body[i + 1];
        let span = length_span(out.len() as int);
        let length = token % span + 3;
        let offset = token / span + 1;
        if offset > out.len() {
            Err(Error::InvalidDistance)
        } else if out.len() + length > CHUNK_SIZE {
            Err(Error::Corrupt)
        } else {
            body_from(
                body,
                i + 2,
                flags / 2,
                (left - 1) as nat,
                lz_copy(out, offset, length as nat),
            )
        }
    }
}

/// What a chunk body stands for.
pub open spec fn chunk_data(compressed: bool, body: Seq<u8>) -> Result<Seq<u8>, Error> {
    if compressed {
        body_from(body, 0, 0, 0, Seq::empty())
    } else {
        Ok(body)
    }
}

/// One coded symbol of a chunk.
pub enum Token {
    /// A byte that stands for itself.
    Literal { b: u8 },
    /// `len` bytes from `off` bytes back, when `pos` bytes are there.
    Match { pos: nat, off: nat, len: nat },
}

impl Symbol for Token {
    open spec fn flag(self) -> bool {
        self is Match
    }

    open spec fn bytes(self) -> Seq<u8> {
        match self {
            Token::Literal { b } => seq![b],
            Token::Match { pos, off, len } => {
                let v = (off - 1) * length_span(pos as int) + (len - 3);
                seq![(v % 256) as u8, (v / 256) as u8]
            },
        }
    }
}

/// The match finder's slot for the three bytes at `i`.
pub open spec fn hash_of(chunk: Seq<u8>, i: int) -> int {
    (chunk[i] + 256 * chunk[i + 1] + 65536 * chunk[i + 2]) * 2654435761 % 4294967296 / 1048576
}

/// The match finder: for each slot the last position put there, or -1.
pub open spec fn no_positions() -> Seq<int> {
    Seq::new(HASH_TABLE_SIZE as nat, |h: int| -1)
}

/// The match finder after position `i` was put in its slot.
pub open spec fn noted(slots: Seq<int>, chunk: Seq<u8>, i: int) -> Seq<int> {
    if i + MIN_MATCH <= chunk.len() {
        slots.update(hash_of(chunk, i), i)
    } else {
        slots
    }
}

/// The match finder after the positions from `j` on that have three bytes
/// before `end`.
pub open spec fn noted_until(slots: Seq<int>, chunk: Seq<u8>, j: int, end: int) -> Seq<int>
    decreases end - j,
{
    if j + MIN_MATCH <= end {
        noted_until(noted(slots, chunk, j), chunk, j + 1, end)
    } else {
        slots
    }
}

/// Longest match that the format can express at `i`.
pub open spec fn max_match(chunk: Seq<u8>, i: int) -> nat {
    least((chunk.len() - i) as nat, (length_span(i) + 2) as nat)
}

/// The match at `i` that the finder offers, as `(offset, length)`.
pub open spec fn found(slots: Seq<int>, chunk: Seq<u8>, i: int) -> Option<(nat, nat)> {
    if i + MIN_MATCH > chunk.len() {
        None
    } else {
        let prev = slots[hash_of(chunk, i)];
        let dist = i - prev;
        let len = common(chunk, prev, i, max_match(chunk, i));
        if 0 <= prev < i && dist * length_span(i) <= 65536 && len >= MIN_MATCH {
            Some((dist as nat, len))
        } else {
            None
        }
    }
}

/// The tokens of a chunk from `i` on.
pub open spec fn tokens(slots: Seq<int>, chunk: Seq<u8>, i: int) -> Seq<Token>
    decreases chunk.len() - i,
{
    if i < 0 || i >= chunk.len() {
        Seq::empty()
    } else {
        let here = noted(slots, chunk, i);
        match found(slots, chunk, i) {
            Some((off, len)) => if i + len > chunk.len() || len == 0 {
                Seq::empty()
            } else {
                seq![Token::Match { pos: i as nat, off, len }] + tokens(
                    noted_until(here, chunk, i + 1, i + len),
                    chunk,
                    i + len,
                )
            },
            None => seq![Token::Literal { b: chunk[i] }] + tokens(here, chunk, i + 1),
        }
    }
}

/// The compressed body of a chunk.
pub open spec fn compressed(chunk: Seq<u8>) -> Seq<u8> {
    payload(tokens(no_positions(), chunk, 0))
}

/// A chunk with its header.
pub open spec fn framed(flag: int, body: Seq<u8>) -> Seq<u8> {
    let h = flag + (body.len() - 1);
    seq![(h % 256) as u8, (h / 256) as u8] + body
}

/// The code of a chunk: compressed where that is shorter.
pub open spec fn chunk_code(chunk: Seq<u8>) -> Seq<u8> {
    if compressed(chunk).len() < chunk.len() {
        framed(0xB000, compressed(chunk))
    } else {
        framed(0x3000, chunk)
    }
}

/// The code of all the chunks of `data`.
pub open spec fn chunks_code(data: Seq<u8>) -> Seq<u8>
    decreases data.len(),
{
    if data.len() == 0 {
        Seq::empty()
    } else if data.len() <= CHUNK_SIZE {
        chunk_code(data)
    } else {
        chunk_code(data.take(CHUNK_SIZE as int)) + chunks_code(data.skip(CHUNK_SIZE as int))
    }
}

/// The LZNT1 code of `data`: nothing for no data, else the chunks and a
/// terminator.
pub open spec fn encoded(data: Seq<u8>) -> Seq<u8> {
    if data.len() == 0 {
        Seq::empty()
    } else {
        chunks_code(data) + seq![0u8, 0u8]
    }
}

/// Where in the code a decoder stands.
pub enum Place {
    /// Before a header.
    HeaderLow,
    /// Within a header.
    HeaderHigh { lo: u8 },
    /// Within a body, `remaining` bytes of which are to come.
    Body { compressed: bool, remaining: nat, body: Seq<u8> },
    /// After the terminator.
    Done,
    /// The stream was found corrupt or truncated.
    Failed { error: Error },
}

impl Machine for Place {
    open spec fn fed(self, b: u8) -> Self {
        match self {
            Place::HeaderLow => Place::HeaderHigh { lo: b },
            Place::HeaderHigh { lo } => if lo == 0 && b == 0 {
                Place::Done
            } else if b / 16 % 8 != 3 {
                Place::Failed { error: Error::BadHeader }
            } else {
                Place::Body {
                    compressed: b >= 128,
                    remaining: (lo + 256 * (b % 16) + 1) as nat,
                    body: Seq::empty(),
                }
            },
            Place::Body { compressed, remaining, body } => if remaining > 1 {
                Place::Body {
                    compressed,
                    remaining: (remaining - 1) as nat,
                    body: body.push(b),
                }
            } else {
                match chunk_data(compressed, body.push(b)) {
                    Ok(data) => Place::HeaderLow,
                    Err(error) => Place::Failed { error },
                }
            },
            _ => self,
        }
    }

    open spec fn emits(self, b: u8) -> Seq<u8> {
        match self {
            Place::Body { compressed, remaining, body } => if remaining > 1 {
                Seq::empty()
            } else {
                match chunk_data(compressed, body.push(b)) {
                    Ok(data) => data,
                    Err(error) => Seq::empty(),
                }
            },
            _ => Seq::empty(),
        }
    }

    open spec fn room(self, b: u8) -> nat {
        0
    }

    open spec fn halted(self) -> bool {
        self is Done || self is Failed
    }
}

/// The bytes that the code `data` stands for.
pub open spec fn decoded(data: Seq<u8>) -> Seq<u8> {
    emission(Place::HeaderLow, data)
}

/// The code `data` is sound and ends between two chunks.
pub open spec fn complete(data: Seq<u8>) -> bool {
    let p = after(Place::HeaderLow, data);
    p is HeaderLow || p is Done
}

/// `out` after one token.
pub open spec fn applied(out: Seq<u8>, t: Token) -> Seq<u8> {
    match t {
        Token::Literal { b } => out.push(b),
        Token::Match { pos, off, len } => lz_copy(out, off as int, len),
    }
}

/// `out` after a sequence of tokens.
pub open spec fn expanded(out: Seq<u8>, ts: Seq<Token>) -> Seq<u8>
    decreases ts.len(),
{
    if ts.len() == 0 {
        out
    } else {
        expanded(applied(out, ts[0]), ts.skip(1))
    }
}

/// A token that can follow `out`.
pub open spec fn sound(out: Seq<u8>, t: Token) -> bool {
    t matches Token::Match { pos, off, len } ==> {
        &&& pos == out.len()
        &&& 1 <= off <= pos
        &&& off * length_span(pos as int) <= 65536
        &&& MIN_MATCH <= len < length_span(pos as int) + MIN_MATCH
    }
}

/// Tokens that can follow `out` one after the other.
pub open spec fn all_sound(out: Seq<u8>, ts: Seq<Token>) -> bool
    decreases ts.len(),
{
    ts.len() > 0 ==> sound(out, ts[0]) && all_sound(applied(out, ts[0]), ts.skip(1))
}

/// Every slot of the finder holds a position before `i`, or nothing.
pub open spec fn slots_before(slots: Seq<int>, i: int) -> bool {
    &&& slots.len() == HASH_TABLE_SIZE
    &&& forall|h: int| 0 <= h < HASH_TABLE_SIZE ==> -1 <= #[trigger] slots[h] < i
}

proof fn lemma_hash_range(chunk: Seq<u8>, i: int)
    ensures
        0 <= hash_of(chunk, i) < HASH_TABLE_SIZE,
{
}

proof fn lemma_noted(slots: Seq<int>, chunk: Seq<u8>, i: int)
    requires
        slots_before(slots, i),
        0 <= i,
    ensures
        slots_before(noted(slots, chunk, i), i + 1),
{
    lemma_hash_range(chunk, i);
    assert forall|h: int| 0 <= h < HASH_TABLE_SIZE implies -1 <= #[trigger] noted(
        slots,
        chunk,
        i,
    )[h] < i + 1 by {
        assert(slots[h] < i);
    }
}

proof fn lemma_noted_until(slots: Seq<int>, chunk: Seq<u8>, j: int, end: int)
    requires
        slots_before(slots, j),
        0 <= j <= end,
    ensures
        slots_before(noted_until(slots, chunk, j, end), end),
    decreases end - j,
{
    if j + MIN_MATCH <= end {
        lemma_noted(slots, chunk, j);
        lemma_noted_until(noted(slots, chunk, j), chunk, j + 1, end);
    } else {
        assert forall|h: int| 0 <= h < HASH_TABLE_SIZE implies -1 <= #[trigger] slots[h]
            < end by {}
    }
}

proof fn lemma_found(slots: Seq<int>, chunk: Seq<u8>, i: int)
    requires
        slots_before(slots, i),
        0 <= i < chunk.len(),
    ensures
        found(slots, chunk, i) matches Some((off, len)) ==> {
            &&& sound(chunk.take(i), Token::Match { pos: i as nat, off, len })
            &&& MIN_MATCH <= len <= chunk.len() - i
            &&& lz_copy(chunk.take(i), off as int, len) == chunk.take(i + len)
        },
{
    if let Some((off, len)) = found(slots, chunk, i) {
        lemma_hash_range(chunk, i);
        let prev = slots[hash_of(chunk, i)];
        assert(prev == i - off);
        lemma_common(chunk, prev, i, max_match(chunk, i));
        lemma_lz_copy_source(chunk, i, off as int, len);
    }
}

/// Expanding the tokens of a chunk gives the chunk back.
pub proof fn tokens_expand_to_chunk(slots: Seq<int>, chunk: Seq<u8>, i: int)
    requires
        slots_before(slots, i),
        0 <= i <= chunk.len(),
    ensures
        expanded(chunk.take(i), tokens(slots, chunk, i)) == chunk,
        all_sound(chunk.take(i), tokens(slots, chunk, i)),
        i < chunk.len() ==> tokens(slots, chunk, i).len() > 0,
    decreases chunk.len() - i,
{
    if i < chunk.len() {
        let ts = tokens(slots, chunk, i);
        lemma_noted(slots, chunk, i);
        lemma_found(slots, chunk, i);
        let here = noted(slots, chunk, i);
        match found(slots, chunk, i) {
            Some((off, len)) => {
                lemma_noted_until(here, chunk, i + 1, i + len);
                let next = noted_until(here, chunk, i + 1, i + len);
                tokens_expand_to_chunk(next, chunk, i + len);
                assert(ts.skip(1) =~= tokens(next, chunk, i + len));
            },
            None => {
                tokens_expand_to_chunk(here, chunk, i + 1);
                assert(ts.skip(1) =~= tokens(here, chunk, i + 1));
                assert(chunk.take(i).push(chunk[i]) =~= chunk.take(i + 1));
            },
        }
    } else {
        assert(chunk.take(i) =~= chunk);
    }
}

proof fn lemma_token_value(pos: int, off: nat, len: nat)
    requires
        1 <= off,
        off * length_span(pos) <= 65536,
        MIN_MATCH <= len < length_span(pos) + MIN_MATCH,
    ensures
        ({
            let span = length_span(pos);
            let v = (off - 1) * span + (len - 3);
            &&& 0 <= v < 65536
            &&& v % span == len - 3
            &&& v / span == off - 1
        }),
{
    let span = length_span(pos);
    let v = (off - 1) * span + (len - 3);
    assert((off - 1) * span == off * span - span) by (nonlinear_arith);
    assert(0 <= (off - 1) * span) by (nonlinear_arith)
        requires
            off >= 1,
            span >= 16,
    ;
    vstd::arithmetic::div_mod::lemma_fundamental_div_mod_converse(v, span, off - 1, len - 3);
}

proof fn lemma_applied_extends(out: Seq<u8>, t: Token)
    ensures
        applied(out, t).len() >= out.len(),
        t is Literal ==> applied(out, t).len() == out.len() + 1,
        t matches Token::Match { pos, off, len } ==> applied(out, t).len() == out.len() + len,
{
    if let Token::Match { pos, off, len } = t {
        lemma_lz_copy_extends(out, off as int, len);
    }
}

proof fn lemma_expanded_extends(out: Seq<u8>, ts: Seq<Token>)
    ensures
        expanded(out, ts).len() >= out.len(),
    decreases ts.len(),
{
    if ts.len() > 0 {
        lemma_applied_extends(out, ts[0]);
        lemma_expanded_extends(applied(out, ts[0]), ts.skip(1));
    }
}

proof fn lemma_body_token(
    body: Seq<u8>,
    i: int,
    flags: nat,
    left: nat,
    out: Seq<u8>,
    t: Token,
)
    requires
        sound(out, t),
        left > 0,
        flags % 2 == (if t.flag() {
            1nat
        } else {
            0nat
        }),
        0 <= i,
        i + t.bytes().len() <= body.len(),
        body.subrange(i, i + t.bytes().len()) == t.bytes(),
        applied(out, t).len() <= CHUNK_SIZE,
    ensures
        body_from(body, i, flags, left, out) == body_from(
            body,
            i + t.bytes().len(),
            flags / 2,
            (left - 1) as nat,
            applied(out, t),
        ),
{
    let piece = body.subrange(i, i + t.bytes().len());
    assert(piece[0] == body[i]);
    lemma_applied_extends(out, t);
    if let Token::Match { pos, off, len } = t {
        assert(piece[1] == body[i + 1]);
        lemma_token_value(pos as int, off, len);
        let span = length_span(pos as int);
        let v = (off - 1) * span + (len - 3);
        assert(body[i] + 256 * body[i + 1] == v);
    }
}

proof fn lemma_body_tokens(
    body: Seq<u8>,
    i: int,
    left: nat,
    out: Seq<u8>,
    ts: Seq<Token>,
)
    requires
        all_sound(out, ts),
        ts.len() <= left,
        0 <= i,
        i + bodies(ts).len() <= body.len(),
        body.subrange(i, i + bodies(ts).len()) == bodies(ts),
        expanded(out, ts).len() <= CHUNK_SIZE,
    ensures
        body_from(body, i, flag_bits(ts), left, out) == body_from(
            body,
            i + bodies(ts).len(),
            0,
            (left - ts.len()) as nat,
            expanded(out, ts),
        ),
    decreases ts.len(),
{
    if ts.len() > 0 {
        let t = ts[0];
        let rest = ts.skip(1);
        let n = t.bytes().len();
        let all = bodies(ts);
        lemma_expanded_extends(applied(out, t), rest);
        assert(body.subrange(i, i + n) =~= all.take(n as int));
        assert(all.take(n as int) =~= t.bytes());
        lemma_body_token(body, i, flag_bits(ts), left, out, t);
        assert(flag_bits(ts) / 2 == flag_bits(rest));
        assert(body.subrange(i + n, i + n + bodies(rest).len()) =~= all.skip(n as int));
        assert(all.skip(n as int) =~= bodies(rest));
        lemma_body_tokens(body, i + n, (left - 1) as nat, applied(out, t), rest);
    }
}

proof fn lemma_sound_split(out: Seq<u8>, a: Seq<Token>, b: Seq<Token>)
    requires
        all_sound(out, a + b),
    ensures
        all_sound(out, a),
        all_sound(expanded(out, a), b),
        expanded(out, a + b) == expanded(expanded(out, a), b),
    decreases a.len(),
{
    if a.len() == 0 {
        assert(a + b =~= b);
    } else {
        assert((a + b).skip(1) =~= a.skip(1) + b);
        lemma_sound_split(applied(out, a[0]), a.skip(1), b);
    }
}

proof fn lemma_body_payload(body: Seq<u8>, i: int, out: Seq<u8>, ts: Seq<Token>)
    requires
        all_sound(out, ts),
        0 <= i <= body.len(),
        body.skip(i) == payload(ts),
        expanded(out, ts).len() <= CHUNK_SIZE,
    ensures
        body_from(body, i, 0, 0, out) == Ok::<Seq<u8>, Error>(expanded(out, ts)),
    decreases ts.len(),
{
    if ts.len() > 0 {
        let a = if ts.len() <= 8 {
            ts
        } else {
            ts.take(8)
        };
        let b = ts.skip(a.len() as int);
        assert(ts =~= a + b);
        lemma_sound_split(out, a, b);
        lemma_expanded_extends(expanded(out, a), b);
        lemma_flag_byte(a);
        let rest = body.skip(i);
        assert(payload(ts) =~= group(a) + (if ts.len() <= 8 {
            Seq::empty()
        } else {
            payload(b)
        }));
        assert(group(a).len() == 1 + bodies(a).len());
        assert(rest.len() == body.len() - i);
        assert(rest.take(group(a).len() as int) =~= group(a));
        assert(rest[0] == body[i]);
        assert(group(a)[0] == flag_bits(a) as u8);
        assert(body.subrange(i + 1, i + 1 + bodies(a).len()) =~= group(a).skip(1));
        assert(group(a).skip(1) =~= bodies(a));
        lemma_body_tokens(body, i + 1, 8, out, a);
        let j = i + group(a).len();
        if ts.len() <= 8 {
            assert(b =~= Seq::empty());
            assert(j == body.len());
        } else {
            assert(body.skip(j) =~= rest.skip(group(a).len() as int));
            assert(rest.skip(group(a).len() as int) =~= payload(b));
            lemma_body_payload(body, j, expanded(out, a), b);
        }
    } else {
        assert(body.skip(i).len() == body.len() - i);
    }
}

proof fn lemma_compressed(chunk: Seq<u8>)
    requires
        chunk.len() <= CHUNK_SIZE,
    ensures
        chunk_data(true, compressed(chunk)) == Ok::<Seq<u8>, Error>(chunk),
        chunk.len() > 0 ==> compressed(chunk).len() > 0,
{
    let ts = tokens(no_positions(), chunk, 0);
    assert(chunk.take(0) =~= Seq::empty());
    tokens_expand_to_chunk(no_positions(), chunk, 0);
    assert(compressed(chunk).skip(0) =~= payload(ts));
    lemma_body_payload(compressed(chunk), 0, Seq::empty(), ts);
}

proof fn lemma_body_bytes(compressed: bool, remaining: nat, got: Seq<u8>, bytes: Seq<u8>)
    requires
        bytes.len() < remaining,
    ensures
        after((Place::Body { compressed, remaining, body: got }), bytes) == (Place::Body {
            compressed,
            remaining: (remaining - bytes.len()) as nat,
            body: got + bytes,
        }),
        emission((Place::Body { compressed, remaining, body: got }), bytes) == Seq::<u8>::empty(),
    decreases bytes.len(),
{
    if bytes.len() > 0 {
        lemma_body_bytes(compressed, remaining, got, bytes.drop_last());
        assert((got + bytes.drop_last()).push(bytes.last()) =~= got + bytes);
    } else {
        assert(got + bytes =~= got);
    }
}

proof fn lemma_header(flag: int, n: nat)
    requires
        flag == 0xB000 || flag == 0x3000,
        1 <= n <= CHUNK_SIZE,
    ensures
        ({
            let h = flag + (n - 1);
            let header = seq![(h % 256) as u8, (h / 256) as u8];
            &&& after(Place::HeaderLow, header) == (Place::Body {
                compressed: flag == 0xB000,
                remaining: n,
                body: Seq::empty(),
            })
            &&& emission(Place::HeaderLow, header) == Seq::<u8>::empty()
        }),
{
    let h = flag + (n - 1);
    let lo = (h % 256) as u8;
    let hi = (h / 256) as u8;
    let p0 = Place::HeaderLow;
    let p1 = p0.fed(lo);
    assert(hi / 16 % 8 == 3);
    assert(lo + 256 * (hi % 16) + 1 == n);
    taking_one(p0, lo);
    taking_one(p1, hi);
    taking_is_streaming(p0, seq![lo], seq![hi]);
    assert(seq![lo, hi] =~= seq![lo] + seq![hi]);
}

proof fn lemma_body(compressed: bool, body: Seq<u8>, data: Seq<u8>)
    requires
        1 <= body.len(),
        chunk_data(compressed, body) == Ok::<Seq<u8>, Error>(data),
    ensures
        ({
            let p = Place::Body { compressed, remaining: body.len(), body: Seq::empty() };
            &&& after(p, body) == Place::HeaderLow
            &&& emission(p, body) == data
        }),
{
    let p = Place::Body { compressed, remaining: body.len(), body: Seq::empty() };
    let init = body.drop_last();
    lemma_body_bytes(compressed, body.len(), Seq::empty(), init);
    assert(Seq::<u8>::empty() + init =~= init);
    assert(init.push(body.last()) =~= body);
    taking_one(after(p, init), body.last());
    taking_is_streaming(p, init, seq![body.last()]);
    assert(body =~= init + seq![body.last()]);
    assert(emission(p, body) =~= data);
}

proof fn lemma_framed(flag: int, body: Seq<u8>, data: Seq<u8>)
    requires
        flag == 0xB000 || flag == 0x3000,
        1 <= body.len() <= CHUNK_SIZE,
        chunk_data(flag == 0xB000, body) == Ok::<Seq<u8>, Error>(data),
    ensures
        after(Place::HeaderLow, framed(flag, body)) == Place::HeaderLow,
        decoded(framed(flag, body)) == data,
{
    let h = flag + (body.len() - 1);
    let header = seq![(h % 256) as u8, (h / 256) as u8];
    lemma_header(flag, body.len());
    lemma_body(flag == 0xB000, body, data);
    taking_is_streaming(Place::HeaderLow, header, body);
    assert(decoded(framed(flag, body)) =~= data);
}

/// The split of a match follows the position: as many bits for the length as the position
/// has, at least four, and the other bits of sixteen for the offset.
pub proof fn splits_follow_the_position(pos: int)
    requires
        0 <= pos < 4096,
    ensures
        length_span(pos) == pow2(length_bits(pos) as nat),
        length_bits(pos) >= 4,
        pos < pow2(length_bits(pos) as nat),
        length_bits(pos) > 4 ==> pow2((length_bits(pos) - 1) as nat) <= pos,
{
    lemma_pow2_values();
}

/// `n` bytes copied from `off` bytes back, one by one.
pub open spec fn copied_back(out: Seq<u8>, off: nat, n: nat) -> Seq<u8>
    decreases n,
{
    if n == 0 {
        out
    } else {
        copied_back(out.push(out[out.len() - off]), off, (n - 1) as nat)
    }
}

/// What tokens say behind `out`.
pub open spec fn told(out: Seq<u8>, ts: Seq<Token>) -> Seq<u8>
    decreases ts.len(),
{
    if ts.len() == 0 {
        out
    } else {
        told(
            match ts[0] {
                Token::Literal { b } => out.push(b),
                Token::Match { pos, off, len } => copied_back(out, off, len),
            },
            ts.skip(1),
        )
    }
}

proof fn lemma_copied_back(out: Seq<u8>, off: nat, n: nat)
    requires
        1 <= off <= out.len(),
    ensures
        copied_back(out, off, n) == lz_copy(out, off as int, n),
    decreases n,
{
    if n > 0 {
        lemma_copied_back(out.push(out[out.len() - off]), off, (n - 1) as nat);
    }
}

proof fn lemma_told(out: Seq<u8>, ts: Seq<Token>)
    requires
        all_sound(out, ts),
    ensures
        told(out, ts) == expanded(out, ts),
    decreases ts.len(),
{
    if ts.len() > 0 {
        if let Token::Match { pos, off, len } = ts[0] {
            lemma_copied_back(out, off, len);
        }
        lemma_told(applied(out, ts[0]), ts.skip(1));
    }
}

/// All chunks are read back: any literals and matches that fit, behind the header of a
/// compressed chunk, say what they say, and any bytes behind the header of a stored chunk
/// stand for themselves. What follows a chunk is read by itself.
pub proof fn chunks_read_back(ts: Seq<Token>, bytes: Seq<u8>, rest: Seq<u8>)
    requires
        ts.len() > 0,
        all_sound(Seq::empty(), ts),
        told(Seq::empty(), ts).len() <= 4096,
        payload(ts).len() <= 4096,
        1 <= bytes.len() <= 4096,
    ensures
        ({
            let body = payload(ts);
            let h = 0xB000 + body.len() - 1;
            decoded(seq![(h % 256) as u8, (h / 256) as u8] + body + rest) == told(
                Seq::empty(),
                ts,
            ) + decoded(rest)
        }),
        ({
            let h = 0x3000 + bytes.len() - 1;
            decoded(seq![(h % 256) as u8, (h / 256) as u8] + bytes + rest) == bytes + decoded(rest)
        }),
{
    let body = payload(ts);
    lemma_told(Seq::empty(), ts);
    assert(body.skip(0) =~= body);
    lemma_body_payload(body, 0, Seq::empty(), ts);
    lemma_framed(0xB000, body, told(Seq::empty(), ts));
    taking_is_streaming(Place::HeaderLow, framed(0xB000, body), rest);
    lemma_framed(0x3000, bytes, bytes);
    taking_is_streaming(Place::HeaderLow, framed(0x3000, bytes), rest);
}

/// The compressed body of a chunk reads back by itself: it stands for the chunk, and where
/// it is no longer than a chunk may be, behind the header of a compressed chunk, it is a
/// whole piece of code that decodes to the chunk and to nothing else.
pub proof fn body_reads_back(chunk: Seq<u8>)
    requires
        chunk.len() <= CHUNK_SIZE,
    ensures
        chunk_data(true, compressed(chunk)) == Ok::<Seq<u8>, Error>(chunk),
        compressed(chunk).len() == 0 <==> chunk.len() == 0,
        0 < compressed(chunk).len() <= CHUNK_SIZE ==> {
            let code = framed(0xB000, compressed(chunk));
            &&& decoded(code) == chunk
            &&& complete(code)
            &&& after(Place::HeaderLow, code) == Place::HeaderLow
        },
{
    lemma_compressed(chunk);
    if 0 < compressed(chunk).len() <= CHUNK_SIZE {
        lemma_framed(0xB000, compressed(chunk), chunk);
    }
}

proof fn lemma_chunk(chunk: Seq<u8>)
    requires
        1 <= chunk.len() <= CHUNK_SIZE,
    ensures
        after(Place::HeaderLow, chunk_code(chunk)) == Place::HeaderLow,
        decoded(chunk_code(chunk)) == chunk,
{
    lemma_compressed(chunk);
    if compressed(chunk).len() < chunk.len() {
        lemma_framed(0xB000, compressed(chunk), chunk);
    } else {
        lemma_framed(0x3000, chunk, chunk);
    }
}

proof fn lemma_chunks(data: Seq<u8>)
    requires
        data.len() > 0,
    ensures
        after(Place::HeaderLow, chunks_code(data)) == Place::HeaderLow,
        decoded(chunks_code(data)) == data,
    decreases data.len(),
{
    if data.len() <= CHUNK_SIZE {
        lemma_chunk(data);
    } else {
        let a = data.take(CHUNK_SIZE as int);
        let b = data.skip(CHUNK_SIZE as int);
        lemma_chunk(a);
        lemma_chunks(b);
        taking_is_streaming(Place::HeaderLow, chunk_code(a), chunks_code(b));
        assert(a + b =~= data);
    }
}

/// Decoding inverts encoding: the code of `data` is complete and stands for
/// `data`.
pub proof fn decode_inverts_encode(data: Seq<u8>)
    ensures
        complete(encoded(data)),
        decoded(encoded(data)) == data,
{
    if data.len() == 0 {
        assert(decoded(encoded(data)) =~= data);
    } else {
        lemma_chunks(data);
        let p = Place::HeaderLow;
        let end = seq![0u8, 0u8];
        taking_one(p, 0);
        taking_one(p.fed(0), 0);
        taking_is_streaming(p, seq![0u8], seq![0u8]);
        assert(end =~= seq![0u8] + seq![0u8]);
        taking_is_streaming(p, chunks_code(data), end);
        assert(decoded(encoded(data)) =~= data);
    }
}

/// A chunk never takes more than its data and a header.
pub proof fn chunk_code_is_bounded(chunk: Seq<u8>)
    ensures
        chunk_code(chunk).len() <= chunk.len() + 2,
{
}

/// A chunk holds no more than its share of the data, whatever its body says.
pub proof fn chunk_data_is_bounded(compressed: bool, body: Seq<u8>)
    requires
        body.len() <= CHUNK_SIZE,
    ensures
        chunk_data(compressed, body) matches Ok(d) ==> d.len() <= CHUNK_SIZE,
{
    lemma_body_bounded(body, 0, 0, 0, Seq::empty());
}

proof fn lemma_body_bounded(body: Seq<u8>, i: int, flags: nat, left: nat, out: Seq<u8>)
    requires
        out.len() <= CHUNK_SIZE,
    ensures
        body_from(body, i, flags, left, out) matches Ok(d) ==> d.len() <= CHUNK_SIZE,
    decreases body.len() - i,
{
    if i < body.len() {
        if left == 0 {
            lemma_body_bounded(body, i + 1, body[i] as nat, 8, out);
        } else if flags % 2 == 0 {
            if out.len() + 1 <= CHUNK_SIZE {
                lemma_body_bounded(
                    body,
                    i + 1,
                    flags / 2,
                    (left - 1) as nat,
                    out.push(body[i]),
                );
            }
        } else if i + 2 <= body.len() && out.len() > 0 {
            let token = body[i] + 256 * body[i + 1];
            let span = length_span(out.len() as int);
            let length = token % span + 3;
            let offset = token / span + 1;
            if offset <= out.len() && out.len() + length <= CHUNK_SIZE {
                lemma_lz_copy_extends(out, offset, length as nat);
                lemma_body_bounded(
                    body,
                    i + 2,
                    flags / 2,
                    (left - 1) as nat,
                    lz_copy(out, offset, length as nat),
                );
            }
        }
    }
}

/// Chunks are coded by themselves: what stands before a boundary does not show behind
/// it.
pub proof fn chunks_are_independent(a: Seq<u8>, b: Seq<u8>)
    requires
        a.len() % (CHUNK_SIZE as nat) == 0,
    ensures
        chunks_code(a + b) == chunks_code(a) + chunks_code(b),
    decreases a.len(),
{
    if a.len() == 0 {
        assert(a + b =~= b);
        assert(chunks_code(a) + chunks_code(b) =~= chunks_code(b));
    } else {
        let n = CHUNK_SIZE as int;
        let rest = a.skip(n);
        assert((a + b).take(n) =~= a.take(n));
        assert((a + b).skip(n) =~= rest + b);
        chunks_are_independent(rest, b);
        if a.len() == n {
            assert(a.take(n) =~= a);
            assert(rest =~= Seq::empty());
            if b.len() == 0 {
                assert(a + b =~= a);
                assert(chunks_code(a) + chunks_code(b) =~= chunks_code(a));
            } else {
                assert(rest + b =~= b);
            }
        } else {
            assert(chunks_code(a) + chunks_code(b) =~= chunk_code(a.take(n)) + (chunks_code(rest)
                + chunks_code(b)));
        }
    }
}

/// The match finder.
struct Finder {
    slots: Vec<usize>,
}

impl Finder {
    /// The finder's slots, with -1 for an empty one.
    spec fn view(&self) -> Seq<int> {
        Seq::new(
            self.slots@.len(),
            |h: int|
                if self.slots@[h] == EMPTY {
                    -1
                } else {
                    self.slots@[h] as int
                },
        )
    }

    fn new() -> (f: Self)
        ensures
            f@ == no_positions(),
    {
        let f = Finder { slots: vec![EMPTY;HASH_TABLE_SIZE] };
        assert(f@ =~= no_positions());
        f
    }

    fn hash3(chunk: &[u8], i: usize) -> (h: usize)
        requires
            i + MIN_MATCH <= chunk@.len(),
        ensures
            h == hash_of(chunk@, i as int),
            h < HASH_TABLE_SIZE,
    {
        let v: u64 = chunk[i] as u64 + 256 * chunk[i + 1] as u64 + 65536 * chunk[i + 2] as u64;
        (v * 2654435761 % 4294967296 / 1048576) as usize
    }

    /// Puts position `i` in its slot.
    fn note(&mut self, chunk: &[u8], i: usize)
        requires
            i < chunk@.len(),
            old(self)@.len() == HASH_TABLE_SIZE,
        ensures
            final(self)@ == noted(old(self)@, chunk@, i as int),
            final(self)@.len() == HASH_TABLE_SIZE,
    {
        if chunk.len() - i >= MIN_MATCH {
            let h: usize = Self::hash3(chunk, i);
            self.slots[h] = i;
        }
        assert(self@ =~= noted(old(self)@, chunk@, i as int));
    }

    /// Puts the positions from `j` on that have three bytes before `end` in
    /// their slots.
    fn note_until(&mut self, chunk: &[u8], j: usize, end: usize)
        requires
            j <= end <= chunk@.len(),
            old(self)@.len() == HASH_TABLE_SIZE,
        ensures
            final(self)@ == noted_until(old(self)@, chunk@, j as int, end as int),
            final(self)@.len() == HASH_TABLE_SIZE,
    {
        let mut k: usize = j;
        while end - k >= MIN_MATCH
            invariant
                j <= k <= end <= chunk@.len(),
                self@.len() == HASH_TABLE_SIZE,
                noted_until(self@, chunk@, k as int, end as int) == noted_until(
                    old(self)@,
                    chunk@,
                    j as int,
                    end as int,
                ),
            decreases end - k,
        {
            self.note(chunk, k);
            k = k + 1;
        }
    }

    /// The match that the finder offers at `i`.
    fn find(&self, chunk: &[u8], i: usize) -> (r: Option<(usize, usize)>)
        requires
            i < chunk@.len() <= CHUNK_SIZE,
            slots_before(self@, i as int),
        ensures
            found(self@, chunk@, i as int) == (match r {
                Some((off, len)) => Some((off as nat, len as nat)),
                None => None,
            }),
    {
        if chunk.len() - i < MIN_MATCH {
            return None;
        }
        let h: usize = Self::hash3(chunk, i);
        let prev: usize = self.slots[h];
        assert(-1 <= self@[h as int] < i);
        if prev == EMPTY {
            return None;
        }
        let dist: usize = i - prev;
        let span: usize = span_for_pos(i);
        assert(dist * span <= 4096 * 4096) by (nonlinear_arith)
            requires
                dist <= 4096,
                span <= 4096,
        ;
        if dist * span > 65536 {
            return None;
        }
        let limit: usize = if chunk.len() - i <= span + 2 {
            chunk.len() - i
        } else {
            span + 2
        };
        let mut len: usize = 0;
        while len < limit && chunk[i + len] == chunk[prev + len]
            invariant
                len <= limit,
                prev < i,
                i + limit <= chunk.len(),
                forall|k: int| 0 <= k < len ==> #[trigger] chunk@[prev + k] == chunk@[i + k],
            decreases limit - len,
        {
            len = len + 1;
        }
        proof {
            lemma_common_is(chunk@, prev as int, i as int, limit as nat, len as nat);
        }
        if len >= MIN_MATCH {
            Some((dist, len))
        } else {
            None
        }
    }
}

/// Adds the token for position `i` to the group, keeps the finder current and
/// returns the position after the token.
fn code_next(
    chunk: &[u8],
    i: usize,
    finder: &mut Finder,
    filling: &mut Group,
    Ghost(ts): Ghost<Seq<Token>>,
) -> (r: (usize, Ghost<Token>))
    requires
        i < chunk@.len() <= CHUNK_SIZE,
        slots_before(old(finder)@, i as int),
        old(filling).holds(ts),
        ts.len() < 8,
    ensures
        i < r.0 <= chunk@.len(),
        slots_before(final(finder)@, r.0 as int),
        final(filling).holds(ts.push(r.1@)),
        tokens(old(finder)@, chunk@, i as int) == seq![r.1@] + tokens(
            final(finder)@,
            chunk@,
            r.0 as int,
        ),
{
    let hit = finder.find(chunk, i);
    proof {
        lemma_found(finder@, chunk@, i as int);
        lemma_noted(finder@, chunk@, i as int);
    }
    finder.note(chunk, i);
    match hit {
        Some((off, len)) => {
            let ghost t = Token::Match { pos: i as nat, off: off as nat, len: len as nat };
            let span: usize = span_for_pos(i);
            proof {
                lemma_token_value(i as int, off as nat, len as nat);
                lemma_noted_until(finder@, chunk@, i + 1, i + len);
                assert((off - 1) * span <= 65536) by (nonlinear_arith)
                    requires
                        off * span <= 65536,
                        off >= 1,
                        span >= 0,
                ;
            }
            let v: usize = (off - 1) * span + (len - MIN_MATCH);
            filling.two::<Token>(true, (v % 256) as u8, (v / 256) as u8, Ghost(t), Ghost(ts));
            finder.note_until(chunk, i + 1, i + len);
            (i + len, Ghost(t))
        },
        None => {
            let ghost t = Token::Literal { b: chunk@[i as int] };
            filling.one::<Token>(false, chunk[i], Ghost(t), Ghost(ts));
            (i + 1, Ghost(t))
        },
    }
}

/// Builds the compressed body of a chunk in `out`. It gives up and returns
/// `false` where the body would be longer than a chunk may be.
pub fn compress_chunk_body(chunk: &[u8], out: &mut Vec<u8>) -> (fits: bool)
    requires
        chunk@.len() <= CHUNK_SIZE,
    ensures
        fits == (compressed(chunk@).len() <= CHUNK_SIZE),
        fits ==> final(out)@ == compressed(chunk@),
        fits ==> chunk_data(true, final(out)@) == Ok::<Seq<u8>, Error>(chunk@),
        fits && chunk@.len() > 0 ==> {
            let code = framed(0xB000, final(out)@);
            &&& 0 < final(out)@.len() <= CHUNK_SIZE
            &&& decoded(code) == chunk@
            &&& after(Place::HeaderLow, code) == Place::HeaderLow
        },
{
    out.clear();
    let n: usize = chunk.len();
    let mut finder = Finder::new();
    let mut filling = Group::new::<Token>();
    let mut i: usize = 0;
    let ghost all = tokens(no_positions(), chunk@, 0);
    let ghost mut full: Seq<Token> = Seq::empty();
    let ghost mut ts: Seq<Token> = Seq::empty();
    assert(full + ts + all =~= all);
    assert(out@ =~= payload(full));
    while i < n
        invariant
            n == chunk@.len(),
            n <= CHUNK_SIZE,
            i <= n,
            slots_before(finder@, i as int),
            filling.holds(ts),
            ts.len() < 8,
            full.len() % 8 == 0,
            all == tokens(no_positions(), chunk@, 0),
            full + ts + tokens(finder@, chunk@, i as int) == all,
            out@ == payload(full),
            out@.len() <= CHUNK_SIZE,
        decreases n - i,
    {
        let ghost before = tokens(finder@, chunk@, i as int);
        let (next, t): (usize, Ghost<Token>) = code_next(
            chunk,
            i,
            &mut finder,
            &mut filling,
            Ghost(ts),
        );
        let ghost rest = tokens(finder@, chunk@, next as int);
        proof {
            assert(full + ts.push(t@) + rest =~= full + ts + before);
            ts = ts.push(t@);
        }
        i = next;
        if filling.len::<Token>(Ghost(ts)) == 8 {
            filling.flush::<Token>(out, Ghost(ts));
            proof {
                lemma_payload_append(full, ts);
                lemma_payload_prefix(full + ts, rest);
                full = full + ts;
                ts = Seq::empty();
                assert(full + ts =~= full);
            }
            if out.len() > CHUNK_SIZE {
                return false;
            }
        }
    }
    assert(tokens(finder@, chunk@, i as int) =~= Seq::empty());
    assert(full + ts =~= all);
    if filling.len::<Token>(Ghost(ts)) > 0 {
        filling.flush::<Token>(out, Ghost(ts));
        proof {
            lemma_payload_append(full, ts);
        }
    } else {
        assert(full + ts =~= full);
    }
    proof {
        body_reads_back(chunk@);
    }
    out.len() <= CHUNK_SIZE
}

proof fn lemma_payload_prefix(full: Seq<Token>, rest: Seq<Token>)
    requires
        full.len() % 8 == 0,
    ensures
        payload(full + rest).len() >= payload(full).len(),
    decreases full.len(),
{
    if full.len() > 0 {
        lemma_payload_prefix(full.skip(8), rest);
        assert((full + rest).take(8) =~= full.take(8));
        assert((full + rest).skip(8) =~= full.skip(8) + rest);
        if full.len() == 8 {
            assert(full.take(8) =~= full);
            if rest.len() == 0 {
                assert(full + rest =~= full);
            }
        }
    }
}

/// Per-encoder configuration; the format has nothing to configure.
#[derive(Debug, Clone, Copy, Default)]
pub struct EncoderConfig;

/// Streaming LZNT1 encoder. It collects the input and codes it at the end.
#[derive(Debug)]
pub struct Encoder {
    cfg: EncoderConfig,
    input: Vec<u8>,
    encoded: Queue,
    finished: bool,
}

impl Encoder {
    /// The input collected so far.
    pub closed spec fn collected(&self) -> Seq<u8> {
        self.input@
    }

    /// Coded bytes that wait for room.
    pub closed spec fn pending(&self) -> Seq<u8> {
        self.encoded@
    }

    /// The end of the input was signalled.
    pub closed spec fn is_finished(&self) -> bool {
        self.finished
    }

    /// Nothing was taken yet.
    pub open spec fn is_fresh(&self) -> bool {
        &&& self.collected() == Seq::<u8>::empty()
        &&& self.pending() == Seq::<u8>::empty()
        &&& !self.is_finished()
    }

    /// A fresh encoder.
    pub fn new() -> (e: Self)
        ensures
            e.inv(),
            e.is_fresh(),
    {
        Self::with_config(EncoderConfig)
    }

    /// A fresh encoder with the given configuration.
    pub fn with_config(cfg: EncoderConfig) -> (e: Self)
        ensures
            e.inv(),
            e.is_fresh(),
    {
        Encoder { cfg, input: Vec::new(), encoded: Queue::new(), finished: false }
    }

    /// Codes one chunk.
    fn emit_chunk(chunk: &[u8], queue: &mut Queue)
        requires
            1 <= chunk@.len() <= CHUNK_SIZE,
            old(queue).inv(),
        ensures
            final(queue).inv(),
            final(queue)@ == old(queue)@ + chunk_code(chunk@),
    {
        let mut body: Vec<u8> = Vec::new();
        let fits = compress_chunk_body(chunk, &mut body);
        proof {
            lemma_compressed(chunk@);
        }
        if fits && body.len() < chunk.len() {
            let h: usize = 0xB000 + (body.len() - 1);
            queue.push((h % 256) as u8);
            queue.push((h / 256) as u8);
            queue.extend(body.as_slice());
        } else {
            let h: usize = 0x3000 + (chunk.len() - 1);
            queue.push((h % 256) as u8);
            queue.push((h / 256) as u8);
            queue.extend(chunk);
        }
        assert(queue@ =~= old(queue)@ + chunk_code(chunk@));
    }

    /// Codes the collected input.
    fn build(&mut self)
        requires
            old(self).encoded.inv(),
        ensures
            final(self).encoded.inv(),
            final(self).encoded@ == old(self).encoded@ + encoded(old(self).input@),
            final(self).input@ == Seq::<u8>::empty(),
            final(self).finished == old(self).finished,
    {
        let n: usize = self.input.len();
        let ghost data = self.input@;
        let ghost start = self.encoded@;
        if n > 0 {
            let mut i: usize = 0;
            assert(data.skip(0) =~= data);
            while n - i > CHUNK_SIZE
                invariant
                    n == data.len(),
                    i < n,
                    self.input@ == data,
                    self.finished == old(self).finished,
                    self.encoded.inv(),
                    self.encoded@ + chunks_code(data.skip(i as int)) == start + chunks_code(data),
                decreases n - i,
            {
                let ghost before = self.encoded@;
                let ghost rest = data.skip(i as int);
                let chunk = vstd::slice::slice_subrange(self.input.as_slice(), i, i + CHUNK_SIZE);
                assert(chunk@ =~= rest.take(CHUNK_SIZE as int));
                Self::emit_chunk(chunk, &mut self.encoded);
                i = i + CHUNK_SIZE;
                assert(data.skip(i as int) =~= rest.skip(CHUNK_SIZE as int));
                assert(self.encoded@ + chunks_code(data.skip(i as int)) =~= before + chunks_code(
                    rest,
                ));
            }
            let chunk = vstd::slice::slice_subrange(self.input.as_slice(), i, n);
            assert(chunk@ =~= data.skip(i as int));
            Self::emit_chunk(chunk, &mut self.encoded);
            self.encoded.push(0);
            self.encoded.push(0);
            assert(self.encoded@ =~= start + encoded(data));
        }
        self.input = Vec::new();
        assert(self.encoded@ =~= start + encoded(data));
    }
}

impl Default for Encoder {
    fn default() -> (e: Self)
        ensures
            e.inv(),
            e.is_fresh(),
    {
        Encoder::new()
    }
}

impl RawEncoder for Encoder {
    closed spec fn inv(&self) -> bool {
        self.encoded.inv()
    }

    open spec fn encode_post(
        before: Self,
        input: Seq<u8>,
        old_output: Seq<u8>,
        after: Self,
        new_output: Seq<u8>,
        r: Result<RawProgress, Error>,
    ) -> bool {
        let n = if before.is_finished() {
            0
        } else {
            input.len()
        };
        &&& r == Ok::<RawProgress, Error>(
            RawProgress { consumed: n as usize, written: 0, done: false },
        )
        &&& new_output == old_output
        &&& after.collected() == before.collected() + input.take(n as int)
        &&& after.pending() == before.pending()
        &&& after.is_finished() == before.is_finished()
    }

    open spec fn finish_post(
        before: Self,
        old_output: Seq<u8>,
        after: Self,
        new_output: Seq<u8>,
        r: Result<RawProgress, Error>,
    ) -> bool {
        let all = if before.is_finished() {
            before.pending()
        } else {
            before.pending() + encoded(before.collected())
        };
        let n = least(all.len(), old_output.len());
        &&& r == Ok::<RawProgress, Error>(
            RawProgress { consumed: 0, written: n as usize, done: n == all.len() },
        )
        &&& new_output == stored(old_output, all.take(n as int))
        &&& after.pending() == all.skip(n as int)
        &&& after.is_finished()
        &&& after.collected() == (if before.is_finished() {
            before.collected()
        } else {
            Seq::empty()
        })
    }

    open spec fn reset_post(before: Self, after: Self) -> bool {
        after.is_fresh()
    }

    fn raw_encode(&mut self, input: &[u8], output: &mut [u8]) -> (r: Result<RawProgress, Error>) {
        if self.finished {
            assert(self.input@ =~= self.input@ + input@.take(0));
            return Ok(RawProgress { consumed: 0, written: 0, done: false });
        }
        self.input.extend_from_slice(input);
        assert(self.input@ =~= old(self).input@ + input@.take(input@.len() as int));
        Ok(RawProgress { consumed: input.len(), written: 0, done: false })
    }

    fn raw_finish(&mut self, output: &mut [u8]) -> (r: Result<RawProgress, Error>) {
        if !self.finished {
            self.build();
            self.finished = true;
        }
        let written: usize = self.encoded.drain(output, 0);
        let done = self.encoded.is_empty();
        assert(output@.skip(written as int) =~= old(output)@.skip(written as int));
        Ok(RawProgress { consumed: 0, written, done })
    }

    fn raw_reset(&mut self) {
        self.input.clear();
        self.encoded.clear();
        self.finished = false;
    }
}

#[derive(Clone, Copy, PartialEq, Eq, Structural)]
enum Phase {
    /// Before a header.
    HeaderLow,
    /// Within a header.
    HeaderHigh { hdr_lo: u8 },
    /// Within a body.
    Body { compressed: bool, body_remaining: usize },
    /// After the terminator.
    Done,
    /// The stream was found corrupt or truncated.
    Failed { error: Error },
}

/// Collects and decodes chunks.
struct Reader {
    chunk_buf: Vec<u8>,
    phase: Phase,
}

/// Decodes a compressed chunk body.
fn decode_compressed_chunk(body: &[u8]) -> (r: Result<Vec<u8>, Error>)
    ensures
        chunk_data(true, body@) == (match r {
            Ok(v) => Ok::<Seq<u8>, Error>(v@),
            Err(e) => Err(e),
        }),
{
    let mut out: Vec<u8> = Vec::new();
    let mut i: usize = 0;
    let mut flags: u8 = 0;
    let mut left: u8 = 0;
    assert(out@ =~= Seq::empty());
    while i < body.len()
        invariant
            i <= body@.len(),
            left <= 8,
            out@.len() <= CHUNK_SIZE,
            body_from(body@, i as int, flags as nat, left as nat, out@) == chunk_data(true, body@),
        decreases body@.len() - i,
    {
        if left == 0 {
            flags = body[i];
            left = 8;
            i = i + 1;
            continue;
        }
        let is_match = flags % 2 == 1;
        flags = flags / 2;
        left = left - 1;
        if !is_match {
            if out.len() + 1 > CHUNK_SIZE {
                return Err(Error::Corrupt);
            }
            out.push(body[i]);
            i = i + 1;
        } else {
            if body.len() - i < 2 || out.len() == 0 {
                return Err(Error::Corrupt);
            }
            let token: usize = body[i] as usize + 256 * body[i + 1] as usize;
            i = i + 2;
            let pos: usize = out.len();
            let span: usize = span_for_pos(pos);
            let length: usize = token % span + 3;
            let offset: usize = token / span + 1;
            if offset > pos {
                return Err(Error::InvalidDistance);
            }
            if pos + length > CHUNK_SIZE {
                return Err(Error::Corrupt);
            }
            proof {
                lemma_lz_copy_extends(out@, offset as int, length as nat);
            }
            copy_back(&mut out, offset, length);
        }
    }
    Ok(out)
}

impl Feeder for Reader {
    type State = Place;

    closed spec fn state(&self) -> Place {
        match self.phase {
            Phase::HeaderLow => Place::HeaderLow,
            Phase::HeaderHigh { hdr_lo } => Place::HeaderHigh { lo: hdr_lo },
            Phase::Body { compressed, body_remaining } => Place::Body {
                compressed,
                remaining: body_remaining as nat,
                body: self.chunk_buf@,
            },
            Phase::Done => Place::Done,
            Phase::Failed { error } => Place::Failed { error },
        }
    }

    closed spec fn inv(&self) -> bool {
        self.phase matches Phase::Body { compressed, body_remaining } ==> 1 <= body_remaining
    }

    fn is_halted(&self) -> (r: bool) {
        let r = match self.phase {
            Phase::Done | Phase::Failed { .. } => true,
            _ => false,
        };
        assert(r == self.state().halted());
        r
    }

    fn feed(&mut self, b: u8, queue: &mut Queue) {
        match self.phase {
            Phase::HeaderLow => {
                self.phase = Phase::HeaderHigh { hdr_lo: b };
            },
            Phase::HeaderHigh { hdr_lo } => {
                if hdr_lo == 0 && b == 0 {
                    self.phase = Phase::Done;
                } else if b / 16 % 8 != 3 {
                    self.phase = Phase::Failed { error: Error::BadHeader };
                } else {
                    self.chunk_buf.clear();
                    self.phase = Phase::Body {
                        compressed: b >= 128,
                        body_remaining: hdr_lo as usize + 256 * (b as usize % 16) + 1,
                    };
                    assert(self.chunk_buf@ =~= Seq::empty());
                }
            },
            Phase::Body { compressed, body_remaining } => {
                self.chunk_buf.push(b);
                if body_remaining > 1 {
                    self.phase = Phase::Body { compressed, body_remaining: body_remaining - 1 };
                } else if compressed {
                    match decode_compressed_chunk(self.chunk_buf.as_slice()) {
                        Ok(data) => {
                            queue.extend(data.as_slice());
                            self.phase = Phase::HeaderLow;
                        },
                        Err(error) => {
                            self.phase = Phase::Failed { error };
                        },
                    }
                } else {
                    queue.extend(self.chunk_buf.as_slice());
                    self.phase = Phase::HeaderLow;
                }
            },
            _ => {},
        }
        assert(queue@ =~= old(queue)@ + old(self).state().emits(b));
    }
}

/// Streaming LZNT1 decoder. It collects the body of a chunk, decodes it, and
/// hands the data out. Once a call has failed, every further call fails until a
/// reset.
pub struct Decoder {
    reader: Reader,
    out_buf: Queue,
}

impl Decoder {
    /// Where in the code the decoder stands.
    pub closed spec fn place(&self) -> Place {
        self.reader.state()
    }

    /// Decoded bytes that wait for room.
    pub closed spec fn pending(&self) -> Seq<u8> {
        self.out_buf@
    }

    /// Nothing was taken yet.
    pub open spec fn is_fresh(&self) -> bool {
        self.place() is HeaderLow && self.pending() == Seq::<u8>::empty()
    }

    /// A fresh decoder.
    pub fn new() -> (d: Self)
        ensures
            d.inv(),
            d.is_fresh(),
    {
        Decoder {
            reader: Reader { chunk_buf: Vec::new(), phase: Phase::HeaderLow },
            out_buf: Queue::new(),
        }
    }
}

impl Default for Decoder {
    fn default() -> (d: Self)
        ensures
            d.inv(),
            d.is_fresh(),
    {
        Decoder::new()
    }
}

impl RawDecoder for Decoder {
    closed spec fn inv(&self) -> bool {
        self.reader.inv() && self.out_buf.inv()
    }

    open spec fn decode_post(
        before: Self,
        input: Seq<u8>,
        old_output: Seq<u8>,
        after: Self,
        new_output: Seq<u8>,
        r: Result<RawProgress, Error>,
    ) -> bool {
        if before.place() is Failed {
            &&& r == Err::<RawProgress, Error>(Error::Corrupt)
            &&& new_output == old_output
            &&& after.place() == before.place()
            &&& after.pending() == before.pending()
        } else {
            exists|consumed: int, written: int|
                {
                    &&& #[trigger] transduces(
                        before.place(),
                        before.pending(),
                        input,
                        old_output,
                        after.place(),
                        after.pending(),
                        new_output,
                        consumed,
                        written,
                    )
                    &&& r == (match after.place() {
                        Place::Failed { error } => Err::<RawProgress, Error>(error),
                        _ => Ok(
                            RawProgress {
                                consumed: consumed as usize,
                                written: written as usize,
                                done: after.place() is Done && after.pending().len() == 0,
                            },
                        ),
                    })
                }
        }
    }

    open spec fn finish_post(
        before: Self,
        old_output: Seq<u8>,
        after: Self,
        new_output: Seq<u8>,
        r: Result<RawProgress, Error>,
    ) -> bool {
        if before.place() is Failed {
            &&& r == Err::<RawProgress, Error>(Error::Corrupt)
            &&& new_output == old_output
            &&& after.place() == before.place()
            &&& after.pending() == before.pending()
        } else {
            let n = least(before.pending().len(), old_output.len());
            let cut = n == before.pending().len() && !(before.place() is HeaderLow
                || before.place() is Done);
            &&& new_output == stored(old_output, before.pending().take(n as int))
            &&& after.pending() == before.pending().skip(n as int)
            &&& after.place() == (if cut {
                Place::Failed { error: Error::UnexpectedEnd }
            } else {
                before.place()
            })
            &&& r == (if cut {
                Err::<RawProgress, Error>(Error::UnexpectedEnd)
            } else {
                Ok(
                    RawProgress {
                        consumed: 0,
                        written: n as usize,
                        done: n == before.pending().len(),
                    },
                )
            })
        }
    }

    open spec fn reset_post(before: Self, after: Self) -> bool {
        after.is_fresh()
    }

    fn raw_decode(&mut self, input: &[u8], output: &mut [u8]) -> (r: Result<RawProgress, Error>) {
        if let Phase::Failed { .. } = self.reader.phase {
            return Err(Error::Corrupt);
        }
        let (consumed, written): (usize, usize) = drive(
            &mut self.reader,
            &mut self.out_buf,
            input,
            output,
        );
        assert(output@.skip(written as int) =~= old(output)@.skip(written as int));
        assert(transduces(
            old(self).place(),
            old(self).pending(),
            input@,
            old(output)@,
            self.place(),
            self.pending(),
            output@,
            consumed as int,
            written as int,
        ));
        match self.reader.phase {
            Phase::Failed { error } => Err(error),
            Phase::Done => Ok(RawProgress { consumed, written, done: self.out_buf.is_empty() }),
            _ => Ok(RawProgress { consumed, written, done: false }),
        }
    }

    fn raw_finish(&mut self, output: &mut [u8]) -> (r: Result<RawProgress, Error>) {
        if let Phase::Failed { .. } = self.reader.phase {
            return Err(Error::Corrupt);
        }
        let written: usize = self.out_buf.drain(output, 0);
        assert(output@.skip(written as int) =~= old(output)@.skip(written as int));
        if !self.out_buf.is_empty() {
            return Ok(RawProgress { consumed: 0, written, done: false });
        }
        match self.reader.phase {
            Phase::HeaderLow | Phase::Done => Ok(RawProgress { consumed: 0, written, done: true }),
            _ => {
                self.reader.phase = Phase::Failed { error: Error::UnexpectedEnd };
                Err(Error::UnexpectedEnd)
            },
        }
    }

    fn raw_reset(&mut self) {
        self.reader.chunk_buf.clear();
        self.out_buf.clear();
        self.reader.phase = Phase::HeaderLow;
    }
}

} // verus!
