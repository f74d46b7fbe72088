//! LZSS in the classic layout: a 4 KiB ring filled with spaces, matches of 3 to
//! 18 bytes, and groups of eight tokens behind a flag byte.
//!
//! * A flag byte announces eight tokens, lowest bit first: a set bit is a
//!   literal (one byte), a clear bit a match (two bytes).
//! * A match is `low8(pos)`, then the high four bits of `pos` above `len - 3`.
//!   `pos` is an absolute index into the ring, not a distance.
//! * Both sides start with a ring full of `0x20` and write at index `N - F`.
//!
//! The payload is preceded by the uncompressed length, four bytes, little
//! endian, so that a decoder knows where the stream ends.
//!
//! The encoder collects its input and codes it when the input ends. At each
//! position it takes the longest match among the `N - F` positions before, the
//! most recent one among equals.
use vstd::prelude::*;

use crate::error::Error;
use crate::groups::{bodies, flag_bits, group, lemma_flag_byte, lemma_payload_append, payload};
use crate::groups::{Group, Symbol};
use crate::lz::{common, lemma_common, lemma_common_is};
use crate::machine::{Machine, Queue};
use crate::machine::{after, emission, taking_is_streaming, taking_one, transduces};
use crate::machine::{midway, midway_start, midway_stop, midway_store, midway_take};
use crate::traits::{Algorithm, RawDecoder, RawEncoder, RawProgress};
use crate::traits::{idle, least, stored};

verus! {

/// Ring size.
pub const N: usize = 4096;

/// Longest match.
pub const F: usize = 18;

/// Matches of at most this length are coded as literals.
pub const THRESHOLD: usize = 2;

/// What the ring holds at first.
pub const NUL: u8 = 0x20;

/// Shortest match.
pub const MIN_MATCH: usize = 3;

/// Farthest match.
pub const REACH: usize = 4078;

/// Number of hash chains.
const HASH_SIZE: usize = 32768;

/// Marks the end of a hash chain.
const NIL: usize = usize::MAX;

/// Marker type of the LZSS codec.
#[derive(Debug, Clone, Copy, Default)]
pub struct Lzss;

impl Algorithm for Lzss {
    const NAME: &'static str = "lzss";

    type Encoder = Encoder;

    type Decoder = Decoder;

    type EncoderConfig = ();

    type DecoderConfig = ();

    open spec fn is_encoder_with(config: (), e: Encoder) -> bool {
        e.inv() && e.is_fresh()
    }

    open spec fn is_decoder_with(config: (), d: Decoder) -> bool {
        d.inv() && d.is_fresh()
    }

    fn encoder_with(config: ()) -> (e: Encoder) {
        Encoder::new()
    }

    fn decoder_with(config: ()) -> (d: Decoder) {
        Decoder::new()
    }
}

/// One coded symbol.
pub enum Token {
    /// A byte that stands for itself.
    Literal { b: u8 },
    /// `len` bytes of the ring from `pos` on.
    Match { pos: nat, len: nat },
}

/// The byte at ring index `p` once `out` was written: the latest byte that
/// landed there, or the initial fill.
#[verifier::opaque]
pub open spec fn ring_byte(out: Seq<u8>, p: int) -> u8 {
    let w = (N - F + out.len()) % (N as int);
    let back = if w > p {
        w - p
    } else {
        w - p + N
    };
    if back <= out.len() {
        out[out.len() - back]
    } else {
        NUL
    }
}

/// `out` after copying `len` bytes of the ring from `pos` on; copied bytes go
/// to the ring as they are written.
pub open spec fn copied(out: Seq<u8>, pos: int, len: nat) -> Seq<u8>
    decreases len,
{
    if len == 0 {
        out
    } else {
        copied(out.push(ring_byte(out, pos)), (pos + 1) % (N as int), (len - 1) as nat)
    }
}

/// `out` after one token.
pub open spec fn applied(out: Seq<u8>, t: Token) -> Seq<u8> {
    match t {
        Token::Literal { b } => out.push(b),
        Token::Match { pos, len } => copied(out, pos as int, len),
    }
}

/// `out` after a sequence of tokens.
pub open spec fn expanded(out: Seq<u8>, ts: Seq<Token>) -> Seq<u8>
    decreases ts.len(),
{
    if ts.len() == 0 {
        out
    } else {
        expanded(applied(out, ts[0]), ts.skip(1))
    }
}

/// Longest match that may start at `cur`.
pub open spec fn max_match(data: Seq<u8>, cur: int) -> nat {
    least(F as nat, (data.len() - cur) as nat)
}

/// The longest match for `cur` among the sources `from..cur`, as its length
/// and its source; the most recent source wins among equals. Without a match of
/// at least three bytes the length is `THRESHOLD`.
pub open spec fn best_match(data: Seq<u8>, cur: int, from: int) -> (nat, int)
    decreases cur - from,
{
    if from >= cur {
        (THRESHOLD as nat, 0)
    } else {
        let later = best_match(data, cur, from + 1);
        let k = common(data, from, cur, max_match(data, cur));
        if k > later.0 {
            (k, from)
        } else {
            later
        }
    }
}

/// The first source within reach of `cur`.
pub open spec fn window_start(cur: int) -> int {
    if cur <= REACH {
        0
    } else {
        cur - REACH
    }
}

/// The token for position `cur`, and how many bytes it covers.
pub open spec fn token_at(data: Seq<u8>, cur: int) -> (Token, nat) {
    let (len, source) = best_match(data, cur, window_start(cur));
    if len <= THRESHOLD {
        (Token::Literal { b: data[cur] }, 1)
    } else {
        (Token::Match { pos: ((source + N - F) % (N as int)) as nat, len }, len)
    }
}

/// The tokens for `data` from `cur` on.
pub open spec fn tokens(data: Seq<u8>, cur: int) -> Seq<Token>
    decreases data.len() - cur,
{
    if cur < 0 || cur >= data.len() {
        Seq::empty()
    } else {
        let (t, n) = token_at(data, cur);
        if n == 0 || cur + n > data.len() {
            Seq::empty()
        } else {
            seq![t] + tokens(data, cur + n)
        }
    }
}

impl Symbol for Token {
    open spec fn flag(self) -> bool {
        self is Literal
    }

    open spec fn bytes(self) -> Seq<u8> {
        match self {
            Token::Literal { b } => seq![b],
            Token::Match { pos, len } => seq![
                (pos % 256) as u8,
                (pos / 256 * 16 + (len - 3)) as u8,
            ],
        }
    }
}

/// The low 32 bits of `n`, little endian.
pub open spec fn le32(n: nat) -> Seq<u8> {
    seq![
        (n % 256) as u8,
        (n / 256 % 256) as u8,
        (n / 65536 % 256) as u8,
        (n / 16777216 % 256) as u8,
    ]
}

/// The number that four little-endian bytes stand for.
pub open spec fn le32_value(b: Seq<u8>) -> nat {
    (b[0] + 256 * b[1] + 65536 * b[2] + 16777216 * b[3]) as nat
}

/// The LZSS code of `data`.
pub open spec fn encoded(data: Seq<u8>) -> Seq<u8> {
    le32(data.len()) + payload(tokens(data, 0))
}

/// What a decoder expects next.
pub enum Stage {
    /// The rest of the length; `bytes` of it are there.
    Header { bytes: Seq<u8> },
    /// A flag byte.
    Flags,
    /// A literal; then `left` tokens of this group with these `flags`.
    Literal { flags: nat, left: nat },
    /// The first byte of a match.
    Match1 { flags: nat, left: nat },
    /// The second byte of a match.
    Match2 { flags: nat, left: nat, first: u8 },
    /// Nothing: all the declared bytes are there.
    Done,
}

/// Where in the code a decoder stands.
pub struct Place {
    /// The declared length.
    pub expected: nat,
    /// The bytes decoded so far.
    pub out: Seq<u8>,
    /// What comes next.
    pub stage: Stage,
}

/// The place before the first byte.
pub open spec fn start() -> Place {
    Place { expected: 0, out: Seq::empty(), stage: Stage::Header { bytes: Seq::empty() } }
}

/// What comes next when `left` tokens of a group remain.
pub open spec fn next_token(flags: nat, left: nat) -> Stage {
    if left == 0 {
        Stage::Flags
    } else if flags % 2 == 1 {
        Stage::Literal { flags: flags / 2, left: (left - 1) as nat }
    } else {
        Stage::Match1 { flags: flags / 2, left: (left - 1) as nat }
    }
}

impl Place {
    /// The place after a token made the output `out`.
    pub open spec fn arrived(self, out: Seq<u8>, flags: nat, left: nat) -> Place {
        Place {
            expected: self.expected,
            out,
            stage: if out.len() >= self.expected {
                Stage::Done
            } else {
                next_token(flags, left)
            },
        }
    }

    /// As much of a match as the declared length admits.
    pub open spec fn matched(self, first: u8, second: u8) -> Seq<u8> {
        copied(
            self.out,
            first + second / 16 * 256,
            least((second % 16 + 3) as nat, (self.expected - self.out.len()) as nat),
        )
    }
}

impl Machine for Place {
    open spec fn fed(self, b: u8) -> Self {
        match self.stage {
            Stage::Header { bytes } => {
                let all = bytes.push(b);
                if all.len() < 4 {
                    Place { stage: Stage::Header { bytes: all }, ..self }
                } else if le32_value(all) == 0 {
                    Place { expected: 0, stage: Stage::Done, ..self }
                } else {
                    Place { expected: le32_value(all), stage: Stage::Flags, ..self }
                }
            },
            Stage::Flags => Place { stage: next_token(b as nat, 8), ..self },
            Stage::Literal { flags, left } => self.arrived(self.out.push(b), flags, left),
            Stage::Match1 { flags, left } => Place {
                stage: Stage::Match2 { flags, left, first: b },
                ..self
            },
            Stage::Match2 { flags, left, first } => self.arrived(
                self.matched(first, b),
                flags,
                left,
            ),
            Stage::Done => self,
        }
    }

    open spec fn emits(self, b: u8) -> Seq<u8> {
        self.fed(b).out.skip(self.out.len() as int)
    }

    open spec fn room(self, b: u8) -> nat {
        0
    }

    open spec fn halted(self) -> bool {
        self.stage is Done
    }
}

/// The bytes that the code `data` stands for.
pub open spec fn decoded(data: Seq<u8>) -> Seq<u8> {
    emission(start(), data)
}

/// The code `data` holds all the bytes it declares.
pub open spec fn complete(data: Seq<u8>) -> bool {
    after(start(), data).stage is Done
}

proof fn lemma_copied_extends(out: Seq<u8>, pos: int, len: nat)
    ensures
        copied(out, pos, len).len() == out.len() + len,
        copied(out, pos, len).take(out.len() as int) == out,
    decreases len,
{
    if len > 0 {
        let next = out.push(ring_byte(out, pos));
        lemma_copied_extends(next, (pos + 1) % (N as int), (len - 1) as nat);
        let all = copied(out, pos, len);
        assert(all.take(out.len() as int) =~= all.take(next.len() as int).take(out.len() as int));
        assert(next.take(out.len() as int) =~= out);
    } else {
        assert(out.take(out.len() as int) =~= out);
    }
}

proof fn lemma_fed_extends(p: Place, b: u8)
    requires
        p.stage is Done || p.stage is Header || p.out.len() <= p.expected,
    ensures
        p.fed(b).out == p.out + p.emits(b),
{
    if let Stage::Match2 { flags, left, first } = p.stage {
        let n = least((b % 16 + 3) as nat, (p.expected - p.out.len()) as nat);
        lemma_copied_extends(p.out, first + b / 16 * 256, n);
    }
    assert(p.fed(b).out.take(p.out.len() as int) =~= p.out);
    assert(p.fed(b).out =~= p.fed(b).out.take(p.out.len() as int) + p.fed(b).out.skip(
        p.out.len() as int,
    ));
}

/// A token that the encoder may use after `out`.
pub open spec fn sound(t: Token) -> bool {
    t matches Token::Match { pos, len } ==> pos < N && MIN_MATCH <= len <= F
}

/// How many bytes a token covers.
pub open spec fn width(t: Token) -> nat {
    match t {
        Token::Literal { b } => 1,
        Token::Match { pos, len } => len,
    }
}

proof fn lemma_best(data: Seq<u8>, cur: int, from: int)
    requires
        0 <= from <= cur < data.len(),
    ensures
        THRESHOLD <= best_match(data, cur, from).0,
        best_match(data, cur, from).0 > THRESHOLD ==> {
            let (len, source) = best_match(data, cur, from);
            &&& from <= source < cur
            &&& len <= max_match(data, cur)
            &&& len == common(data, source, cur, max_match(data, cur))
        },
    decreases cur - from,
{
    if from < cur {
        lemma_best(data, cur, from + 1);
        lemma_common(data, from, cur, max_match(data, cur));
    }
}

proof fn lemma_skip_sources(data: Seq<u8>, cur: int, from: int, to: int)
    requires
        0 <= from <= to <= cur,
        forall|q: int|
            from <= q < to ==> #[trigger] common(data, q, cur, max_match(data, cur)) <= best_match(
                data,
                cur,
                to,
            ).0,
    ensures
        best_match(data, cur, from) == best_match(data, cur, to),
    decreases to - from,
{
    if from < to {
        lemma_skip_sources(data, cur, from + 1, to);
        assert(common(data, from, cur, max_match(data, cur)) <= best_match(data, cur, to).0);
    }
}

proof fn lemma_ring_source(out: Seq<u8>, source: int, dist: int)
    requires
        0 <= source,
        0 < dist <= REACH,
        source + dist == out.len(),
    ensures
        ring_byte(out, (source + N - F) % (N as int)) == out[source],
{
    reveal(ring_byte);
}

proof fn lemma_copy_source(data: Seq<u8>, cur: int, source: int, len: nat)
    requires
        0 <= source < cur,
        cur - source <= REACH,
        cur + len <= data.len(),
        forall|i: int| 0 <= i < len ==> #[trigger] data[source + i] == data[cur + i],
    ensures
        copied(data.take(cur), (source + N - F) % (N as int), len) == data.take(cur + len),
    decreases len,
{
    if len > 0 {
        let out = data.take(cur);
        let pos = (source + N - F) % (N as int);
        assert(data[source + 0] == data[cur + 0]);
        lemma_ring_source(out, source, cur - source);
        assert(out.push(ring_byte(out, pos)) =~= data.take(cur + 1));
        assert forall|i: int| 0 <= i < len - 1 implies #[trigger] data[source + 1 + i] == data[cur
            + 1 + i] by {
            assert(data[source + (i + 1)] == data[cur + (i + 1)]);
        }
        lemma_copy_source(data, cur + 1, source + 1, (len - 1) as nat);
        assert((pos + 1) % (N as int) == (source + 1 + N - F) % (N as int));
    }
}

proof fn lemma_token(data: Seq<u8>, cur: int)
    requires
        0 <= cur < data.len(),
    ensures
        sound(token_at(data, cur).0),
        width(token_at(data, cur).0) == token_at(data, cur).1,
        1 <= token_at(data, cur).1 <= data.len() - cur,
        applied(data.take(cur), token_at(data, cur).0) == data.take(cur + token_at(data, cur).1),
{
    let from = window_start(cur);
    lemma_best(data, cur, from);
    let (len, source) = best_match(data, cur, from);
    if len <= THRESHOLD {
        assert(data.take(cur).push(data[cur]) =~= data.take(cur + 1));
    } else {
        lemma_common(data, source, cur, max_match(data, cur));
        lemma_copy_source(data, cur, source, len);
    }
}

/// Expanding the encoder's tokens gives the data back.
pub proof fn tokens_expand_to_data(data: Seq<u8>, cur: int)
    requires
        0 <= cur <= data.len(),
    ensures
        expanded(data.take(cur), tokens(data, cur)) == data,
        forall|i: int| 0 <= i < tokens(data, cur).len() ==> sound(#[trigger] tokens(data, cur)[i]),
    decreases data.len() - cur,
{
    if cur < data.len() {
        lemma_token(data, cur);
        let (t, n) = token_at(data, cur);
        tokens_expand_to_data(data, cur + n);
        let ts = tokens(data, cur);
        assert(ts.skip(1) =~= tokens(data, cur + n));
        assert forall|i: int| 0 <= i < ts.len() implies sound(#[trigger] ts[i]) by {
            if i > 0 {
                assert(ts[i] == tokens(data, cur + n)[i - 1]);
            }
        }
    } else {
        assert(data.take(cur) =~= data);
    }
}

proof fn lemma_expanded_extends(out: Seq<u8>, ts: Seq<Token>)
    ensures
        expanded(out, ts).len() >= out.len(),
        expanded(out, ts).take(out.len() as int) == out,
    decreases ts.len(),
{
    if ts.len() > 0 {
        let next = applied(out, ts[0]);
        match ts[0] {
            Token::Literal { b } => {
                assert(next.take(out.len() as int) =~= out);
            },
            Token::Match { pos, len } => {
                lemma_copied_extends(out, pos as int, len);
            },
        }
        lemma_expanded_extends(next, ts.skip(1));
        let all = expanded(out, ts);
        assert(all.take(out.len() as int) =~= all.take(next.len() as int).take(out.len() as int));
    } else {
        assert(out.take(out.len() as int) =~= out);
    }
}

proof fn lemma_applied_len(out: Seq<u8>, t: Token)
    ensures
        applied(out, t).len() == out.len() + width(t),
{
    if let Token::Match { pos, len } = t {
        lemma_copied_extends(out, pos as int, len);
    }
}

proof fn lemma_match_body(p: Place, pos: nat, len: nat, flags: nat, left: nat)
    requires
        pos < N,
        MIN_MATCH <= len <= F,
        left > 0,
        p.stage == next_token(flags, left),
        flags % 2 == 0,
        copied(p.out, pos as int, len).len() <= p.expected,
    ensures
        after(p, (Token::Match { pos, len }).bytes()) == p.arrived(
            copied(p.out, pos as int, len),
            flags / 2,
            (left - 1) as nat,
        ),
{
    let first = (pos % 256) as u8;
    let second = (pos / 256 * 16 + (len - 3)) as u8;
    lemma_copied_extends(p.out, pos as int, len);
    assert(second / 16 == pos / 256);
    assert(second % 16 == len - 3);
    assert(first + second / 16 * 256 == pos);
    taking_one(p, first);
    let q = p.fed(first);
    taking_one(q, second);
    taking_is_streaming(p, seq![first], seq![second]);
    assert((Token::Match { pos, len }).bytes() =~= seq![first] + seq![second]);
    assert(q.matched(first, second) == copied(p.out, pos as int, len));
}

proof fn lemma_body(p: Place, t: Token, flags: nat, left: nat)
    requires
        sound(t),
        left > 0,
        p.stage == next_token(flags, left),
        flags % 2 == (if t is Literal {
            1nat
        } else {
            0nat
        }),
        applied(p.out, t).len() <= p.expected,
    ensures
        after(p, t.bytes()) == p.arrived(applied(p.out, t), flags / 2, (left - 1) as nat),
{
    match t {
        Token::Literal { b } => {
            taking_one(p, b);
        },
        Token::Match { pos, len } => {
            lemma_match_body(p, pos, len, flags, left);
        },
    }
}

proof fn lemma_bodies(p: Place, ts: Seq<Token>, left: nat)
    requires
        ts.len() <= left,
        forall|i: int| 0 <= i < ts.len() ==> sound(#[trigger] ts[i]),
        p.out.len() < p.expected,
        expanded(p.out, ts).len() <= p.expected,
        p.stage == next_token(flag_bits(ts), left),
    ensures
        after(p, bodies(ts)) == p.arrived(expanded(p.out, ts), 0, (left - ts.len()) as nat),
    decreases ts.len(),
{
    if ts.len() > 0 {
        let t = ts[0];
        let rest = ts.skip(1);
        let flags = flag_bits(ts);
        lemma_applied_len(p.out, t);
        lemma_expanded_extends(applied(p.out, t), rest);
        assert(sound(ts[0]));
        lemma_body(p, t, flags, left);
        let q = after(p, t.bytes());
        taking_is_streaming(p, t.bytes(), bodies(rest));
        assert(flags / 2 == flag_bits(rest));
        assert forall|i: int| 0 <= i < rest.len() implies sound(#[trigger] rest[i]) by {
            assert(sound(ts[i + 1]));
        }
        if rest.len() == 0 {
            assert(bodies(rest) =~= Seq::<u8>::empty());
            assert(flag_bits(rest) == 0);
        } else {
            lemma_applied_len(q.out, rest[0]);
            assert(sound(rest[0]));
            lemma_expanded_extends(applied(q.out, rest[0]), rest.skip(1));
            lemma_bodies(q, rest, (left - 1) as nat);
        }
    }
}

proof fn lemma_group(p: Place, ts: Seq<Token>)
    requires
        1 <= ts.len() <= 8,
        forall|i: int| 0 <= i < ts.len() ==> sound(#[trigger] ts[i]),
        p.stage is Flags,
        p.out.len() < p.expected,
        expanded(p.out, ts).len() <= p.expected,
    ensures
        after(p, group(ts)) == p.arrived(expanded(p.out, ts), 0, (8 - ts.len()) as nat),
{
    lemma_flag_byte(ts);
    let h = flag_bits(ts) as u8;
    taking_one(p, h);
    taking_is_streaming(p, seq![h], bodies(ts));
    lemma_bodies(p.fed(h), ts, 8);
}

proof fn lemma_expanded_concat(out: Seq<u8>, a: Seq<Token>, b: Seq<Token>)
    ensures
        expanded(out, a + b) == expanded(expanded(out, a), b),
    decreases a.len(),
{
    if a.len() == 0 {
        assert(a + b =~= b);
    } else {
        assert((a + b).skip(1) =~= a.skip(1) + b);
        lemma_expanded_concat(applied(out, a[0]), a.skip(1), b);
    }
}

proof fn lemma_payload(p: Place, ts: Seq<Token>)
    requires
        ts.len() > 0,
        forall|i: int| 0 <= i < ts.len() ==> sound(#[trigger] ts[i]),
        p.stage is Flags,
        p.out.len() < p.expected,
        expanded(p.out, ts).len() == p.expected,
    ensures
        after(p, payload(ts)).stage is Done,
        after(p, payload(ts)).out == expanded(p.out, ts),
    decreases ts.len(),
{
    if ts.len() <= 8 {
        lemma_group(p, ts);
    } else {
        let a = ts.take(8);
        let b = ts.skip(8);
        assert(a + b =~= ts);
        lemma_expanded_concat(p.out, a, b);
        lemma_expanded_extends(expanded(p.out, a), b);
        assert forall|i: int| 0 <= i < a.len() implies sound(#[trigger] a[i]) by {
            assert(sound(ts[i]));
        }
        assert forall|i: int| 0 <= i < b.len() implies sound(#[trigger] b[i]) by {
            assert(sound(ts[i + 8]));
        }
        lemma_group(p, a);
        let q = after(p, group(a));
        lemma_applied_len(q.out, b[0]);
        assert(sound(b[0]));
        lemma_expanded_extends(applied(q.out, b[0]), b.skip(1));
        taking_is_streaming(p, group(a), payload(b));
        lemma_payload(q, b);
    }
}

proof fn lemma_out_is_emission(p: Place, data: Seq<u8>)
    requires
        p.stage is Done || p.stage is Header || p.out.len() < p.expected,
        p.stage is Header ==> p.out.len() == 0,
    ensures
        after(p, data).out == p.out + emission(p, data),
        after(p, data).stage is Header ==> after(p, data).out.len() == 0,
        after(p, data).stage is Done || after(p, data).stage is Header || after(p, data).out.len()
            < after(p, data).expected,
    decreases data.len(),
{
    if data.len() == 0 {
        assert(p.out + emission(p, data) =~= p.out);
    } else {
        let init = data.drop_last();
        lemma_out_is_emission(p, init);
        let q = after(p, init);
        lemma_fed_extends(q, data.last());
        assert(after(p, data).out =~= p.out + emission(p, data));
    }
}

proof fn lemma_le32(n: nat)
    requires
        n <= u32::MAX,
    ensures
        le32_value(le32(n)) == n,
{
}

proof fn lemma_header(n: nat)
    requires
        n <= u32::MAX,
    ensures
        after(start(), le32(n)) == (Place {
            expected: n,
            out: Seq::empty(),
            stage: if n == 0 {
                Stage::Done
            } else {
                Stage::Flags
            },
        }),
{
    lemma_le32(n);
    let h = le32(n);
    let s0 = start();
    let s1 = s0.fed(h[0]);
    let s2 = s1.fed(h[1]);
    let s3 = s2.fed(h[2]);
    taking_one(s0, h[0]);
    taking_one(s1, h[1]);
    taking_one(s2, h[2]);
    taking_one(s3, h[3]);
    taking_is_streaming(s0, seq![h[0]], seq![h[1]]);
    taking_is_streaming(s0, seq![h[0]] + seq![h[1]], seq![h[2]]);
    taking_is_streaming(s0, seq![h[0]] + seq![h[1]] + seq![h[2]], seq![h[3]]);
    assert(h =~= seq![h[0]] + seq![h[1]] + seq![h[2]] + seq![h[3]]);
    assert(Seq::<u8>::empty().push(h[0]).push(h[1]).push(h[2]).push(h[3]) =~= h);
}

/// The ring itself: 4096 cells, which hold spaces at first, and where the next byte goes.
pub struct Ring {
    /// The cells.
    pub cells: Seq<u8>,
    /// Where the next byte goes.
    pub at: int,
}

/// The ring before the first byte.
pub open spec fn new_ring() -> Ring {
    Ring { cells: Seq::new(4096, |i: int| 0x20u8), at: 4078 }
}

/// The ring with one more byte.
pub open spec fn put(r: Ring, b: u8) -> Ring {
    Ring { cells: r.cells.update(r.at, b), at: (r.at + 1) % 4096 }
}

/// The ring behind `out`.
pub open spec fn ring_behind(out: Seq<u8>) -> Ring
    decreases out.len(),
{
    if out.len() == 0 {
        new_ring()
    } else {
        put(ring_behind(out.drop_last()), out.last())
    }
}

/// `out` with `len` cells from `pos` on, each put into the ring as it is read.
pub open spec fn read_off(out: Seq<u8>, pos: int, len: nat) -> Seq<u8>
    decreases len,
{
    if len == 0 {
        out
    } else {
        read_off(
            out.push(ring_behind(out).cells[pos]),
            if pos == 4095 {
                0
            } else {
                pos + 1
            },
            (len - 1) as nat,
        )
    }
}

/// What tokens say behind `out`.
pub open spec fn told(out: Seq<u8>, ts: Seq<Token>) -> Seq<u8>
    decreases ts.len(),
{
    if ts.len() == 0 {
        out
    } else {
        told(
            match ts[0] {
                Token::Literal { b } => out.push(b),
                Token::Match { pos, len } => read_off(out, pos as int, len),
            },
            ts.skip(1),
        )
    }
}

proof fn lemma_ring(out: Seq<u8>)
    ensures
        ring_behind(out).cells.len() == 4096,
        ring_behind(out).at == (4078 + out.len()) % 4096,
        forall|p: int| 0 <= p < 4096 ==> #[trigger] ring_behind(out).cells[p] == ring_byte(out, p),
    decreases out.len(),
{
    reveal(ring_byte);
    if out.len() > 0 {
        lemma_ring(out.drop_last());
        let r = ring_behind(out.drop_last());
        assert forall|p: int| 0 <= p < 4096 implies #[trigger] ring_behind(out).cells[p]
            == ring_byte(out, p) by {
            if p != r.at {
                assert(r.cells[p] == ring_byte(out.drop_last(), p));
            }
        }
    }
}

proof fn lemma_read_off(out: Seq<u8>, pos: int, len: nat)
    requires
        0 <= pos < 4096,
    ensures
        read_off(out, pos, len) == copied(out, pos, len),
    decreases len,
{
    if len > 0 {
        lemma_ring(out);
        assert((pos + 1) % 4096 == if pos == 4095 {
            0
        } else {
            pos + 1
        });
        lemma_read_off(out.push(ring_byte(out, pos)), (pos + 1) % 4096, (len - 1) as nat);
    }
}

proof fn lemma_told(out: Seq<u8>, ts: Seq<Token>)
    requires
        forall|i: int| 0 <= i < ts.len() ==> sound(#[trigger] ts[i]),
    ensures
        told(out, ts) == expanded(out, ts),
    decreases ts.len(),
{
    if ts.len() > 0 {
        assert(sound(ts[0]));
        if let Token::Match { pos, len } = ts[0] {
            lemma_read_off(out, pos as int, len);
        }
        assert forall|i: int| 0 <= i < ts.skip(1).len() implies sound(
            #[trigger] ts.skip(1)[i],
        ) by {
            assert(sound(ts[i + 1]));
        }
        lemma_told(applied(out, ts[0]), ts.skip(1));
    }
}

/// All code is read back: literals and matches anywhere in the ring, also where nothing
/// was written yet, say what the ring says.
pub proof fn tokens_read_back(ts: Seq<Token>)
    requires
        ts.len() > 0,
        forall|i: int|
            0 <= i < ts.len() ==> (#[trigger] ts[i] matches Token::Match { pos, len } ==> pos < 4096
                && 3 <= len <= 18),
        told(Seq::empty(), ts).len() <= u32::MAX,
    ensures
        ({
            let said = told(Seq::empty(), ts);
            let code = le32(said.len()) + payload(ts);
            complete(code) && decoded(code) == said
        }),
{
    assert forall|i: int| 0 <= i < ts.len() implies sound(#[trigger] ts[i]) by {}
    lemma_told(Seq::empty(), ts);
    let said = told(Seq::empty(), ts);
    let code = le32(said.len()) + payload(ts);
    lemma_header(said.len());
    let p = after(start(), le32(said.len()));
    taking_is_streaming(start(), le32(said.len()), payload(ts));
    assert(sound(ts[0]));
    lemma_applied_len(Seq::empty(), ts[0]);
    lemma_expanded_extends(applied(Seq::empty(), ts[0]), ts.skip(1));
    lemma_payload(p, ts);
    lemma_out_is_emission(start(), code);
    assert(start().out + decoded(code) =~= decoded(code));
}

/// Decoding inverts encoding: the code of `data` holds all the bytes it
/// declares and stands for `data`. The length field is four bytes wide.
pub proof fn decode_inverts_encode(data: Seq<u8>)
    requires
        data.len() <= u32::MAX,
    ensures
        complete(encoded(data)),
        decoded(encoded(data)) == data,
{
    lemma_header(data.len());
    let p = after(start(), le32(data.len()));
    let ts = tokens(data, 0);
    taking_is_streaming(start(), le32(data.len()), payload(ts));
    tokens_expand_to_data(data, 0);
    assert(data.take(0) =~= Seq::empty());
    if data.len() == 0 {
        assert(payload(ts) =~= Seq::<u8>::empty());
    } else {
        lemma_token(data, 0);
        lemma_payload(p, ts);
    }
    lemma_out_is_emission(start(), encoded(data));
    assert(start().out + decoded(encoded(data)) =~= decoded(encoded(data)));
    assert(data =~= after(start(), encoded(data)).out);
}

/// The chain of a position: a function of the three bytes there.
spec fn hash_of(data: Seq<u8>, i: int) -> int {
    (data[i] * 1024 + data[i + 1] * 32 + data[i + 2]) % (HASH_SIZE as int)
}

/// `q` is the last position before `below` on the chain `h`, if there is one.
spec fn is_last(data: Seq<u8>, below: int, h: int, q: usize) -> bool {
    if q == NIL {
        forall|i: int|
            0 <= i < below && i + MIN_MATCH <= data.len() ==> #[trigger] hash_of(data, i) != h
    } else {
        &&& q < below
        &&& q + MIN_MATCH <= data.len()
        &&& hash_of(data, q as int) == h
        &&& forall|i: int|
            q < i < below && i + MIN_MATCH <= data.len() ==> #[trigger] hash_of(data, i) != h
    }
}

/// Positions of the input by the hash of the three bytes there.
struct Chains {
    head: Vec<usize>,
    prev: Vec<usize>,
}

impl Chains {
    /// All the positions before `inserted` are on their chains.
    #[verifier::opaque]
    spec fn holds(&self, data: Seq<u8>, inserted: int) -> bool {
        &&& self.head@.len() == HASH_SIZE
        &&& self.prev@.len() == data.len()
        &&& forall|h: int|
            0 <= h < HASH_SIZE ==> #[trigger] is_last(data, inserted, h, self.head@[h])
        &&& forall|i: int|
            0 <= i < inserted && i + MIN_MATCH <= data.len() ==> #[trigger] is_last(
                data,
                i,
                hash_of(data, i),
                self.prev@[i],
            )
    }

    fn new(data: &[u8]) -> (c: Self)
        ensures
            c.holds(data@, 0),
    {
        reveal(Chains::holds);
        let c = Chains { head: vec![NIL;HASH_SIZE], prev: vec![NIL;data.len()] };
        c
    }

    fn hash3(data: &[u8], i: usize) -> (h: usize)
        requires
            i + MIN_MATCH <= data@.len(),
        ensures
            h == hash_of(data@, i as int),
            h < HASH_SIZE,
    {
        (data[i] as usize * 1024 + data[i + 1] as usize * 32 + data[i + 2] as usize) % HASH_SIZE
    }

    /// Puts position `i` on its chain.
    fn insert(&mut self, data: &[u8], i: usize)
        requires
            old(self).holds(data@, i as int),
            i < data@.len(),
        ensures
            final(self).holds(data@, i + 1),
    {
        reveal(Chains::holds);
        if data.len() - i >= MIN_MATCH {
            let h: usize = Self::hash3(data, i);
            let last: usize = self.head[h];
            assert(is_last(data@, i as int, h as int, last));
            self.prev[i] = last;
            self.head[h] = i;
        }
        proof {
            assert forall|g: int| 0 <= g < HASH_SIZE implies #[trigger] is_last(
                data@,
                i + 1,
                g,
                self.head@[g],
            ) by {
                assert(is_last(data@, i as int, g, old(self).head@[g]));
            }
            assert forall|j: int| 0 <= j < i + 1 && j + MIN_MATCH <= data@.len() implies
                #[trigger] is_last(data@, j, hash_of(data@, j), self.prev@[j]) by {
                if j < i {
                    assert(is_last(data@, j, hash_of(data@, j), old(self).prev@[j]));
                }
            }
        }
    }

    /// Puts the positions `from..to` on their chains.
    fn insert_all(&mut self, data: &[u8], from: usize, to: usize)
        requires
            old(self).holds(data@, from as int),
            from <= to <= data@.len(),
        ensures
            final(self).holds(data@, to as int),
    {
        let mut i: usize = from;
        while i < to
            invariant
                i <= to <= data@.len(),
                self.holds(data@, i as int),
            decreases to - i,
        {
            self.insert(data, i);
            i = i + 1;
        }
    }

    /// The longest match for `cur` within reach.
    fn longest(&self, data: &[u8], cur: usize) -> (r: (usize, usize))
        requires
            self.holds(data@, cur as int),
            cur < data@.len(),
        ensures
            r.0 == best_match(data@, cur as int, window_start(cur as int)).0,
            r.0 > THRESHOLD ==> r.1 == best_match(data@, cur as int, window_start(cur as int)).1,
    {
        reveal(Chains::holds);
        let mut best_len: usize = THRESHOLD;
        let mut best_cand: usize = 0;
        let min_pos: usize = if cur <= REACH {
            0
        } else {
            cur - REACH
        };
        let ghost max = max_match(data@, cur as int);
        if data.len() - cur < MIN_MATCH {
            proof {
                assert forall|q: int| min_pos <= q < cur implies #[trigger] common(
                    data@,
                    q,
                    cur as int,
                    max,
                ) <= THRESHOLD by {
                    lemma_common(data@, q, cur as int, max);
                }
                lemma_skip_sources(data@, cur as int, min_pos as int, cur as int);
            }
            return (best_len, best_cand);
        }
        let max_len: usize = if F <= data.len() - cur {
            F
        } else {
            data.len() - cur
        };
        let h: usize = Self::hash3(data, cur);
        let mut cand: usize = self.head[h];
        let mut seen: Ghost<int> = Ghost(cur as int);
        assert(is_last(data@, cur as int, h as int, cand));
        while cand != NIL && cand >= min_pos && best_len < F
            invariant
                self.holds(data@, cur as int),
                cur < data@.len(),
                max == max_match(data@, cur as int),
                max_len == max,
                MIN_MATCH <= max_len <= F,
                cur + max_len <= data@.len(),
                min_pos == window_start(cur as int),
                h == hash_of(data@, cur as int),
                min_pos <= seen@ <= cur,
                is_last(data@, seen@, h as int, cand),
                THRESHOLD <= best_len <= F,
                best_len == best_match(data@, cur as int, seen@).0,
                best_len > THRESHOLD ==> best_cand == best_match(data@, cur as int, seen@).1,
            decreases seen@,
        {
            reveal(Chains::holds);
            let mut k: usize = 0;
            while k < max_len && data[cand + k] == data[cur + k]
                invariant
                    cand < cur,
                    cur + max_len <= data.len(),
                    k <= max_len,
                    forall|i: int| 0 <= i < k ==> #[trigger] data@[cand + i] == data@[cur + i],
                decreases max_len - k,
            {
                k = k + 1;
            }
            proof {
                lemma_common_is(data@, cand as int, cur as int, max, k as nat);
                lemma_gap(data@, cur as int, cand + 1, seen@, h as int);
            }
            if k > best_len {
                best_len = k;
                best_cand = cand;
            }
            proof {
                assert(best_len == best_match(data@, cur as int, cand as int).0);
                assert(is_last(
                    data@,
                    cand as int,
                    hash_of(data@, cand as int),
                    self.prev@[cand as int],
                ));
                seen@ = cand as int;
            }
            cand = self.prev[cand];
        }
        proof {
            if best_len >= F {
                assert forall|q: int| min_pos <= q < seen@ implies #[trigger] common(
                    data@,
                    q,
                    cur as int,
                    max,
                ) <= F by {
                    lemma_common(data@, q, cur as int, max);
                }
                lemma_skip_sources(data@, cur as int, min_pos as int, seen@);
            } else {
                lemma_gap(data@, cur as int, min_pos as int, seen@, h as int);
            }
        }
        (best_len, best_cand)
    }
}

proof fn lemma_gap(data: Seq<u8>, cur: int, from: int, to: int, h: int)
    requires
        0 <= from <= to <= cur,
        cur + MIN_MATCH <= data.len(),
        h == hash_of(data, cur),
        forall|i: int|
            from <= i < to && i + MIN_MATCH <= data.len() ==> #[trigger] hash_of(data, i) != h,
    ensures
        best_match(data, cur, from) == best_match(data, cur, to),
{
    let max = max_match(data, cur);
    assert forall|q: int| from <= q < to implies #[trigger] common(data, q, cur, max)
        <= best_match(data, cur, to).0 by {
        lemma_best(data, cur, to);
        lemma_common(data, q, cur, max);
        if common(data, q, cur, max) > THRESHOLD {
            assert(data[q + 0] == data[cur + 0]);
            assert(data[q + 1] == data[cur + 1]);
            assert(data[q + 2] == data[cur + 2]);
            assert(hash_of(data, q) == hash_of(data, cur));
        }
    }
    lemma_skip_sources(data, cur, from, to);
}

/// Adds the token for position `cur` to the group and returns how many bytes
/// it covers.
fn code_next(
    data: &[u8],
    cur: usize,
    chains: &Chains,
    filling: &mut Group,
    Ghost(ts): Ghost<Seq<Token>>,
) -> (advance: usize)
    requires
        cur < data@.len(),
        chains.holds(data@, cur as int),
        old(filling).holds(ts),
        ts.len() < 8,
    ensures
        advance == token_at(data@, cur as int).1,
        final(filling).holds(ts.push(token_at(data@, cur as int).0)),
{
    proof {
        lemma_best(data@, cur as int, window_start(cur as int));
    }
    let (best_len, best_cand): (usize, usize) = chains.longest(data, cur);
    if best_len <= THRESHOLD {
        filling.one::<Token>(true, data[cur], Ghost(Token::Literal { b: data@[cur as int] }), Ghost(ts));
        1
    } else {
        let best_pos: usize = (best_cand % N + (N - F)) % N;
        assert(best_pos == (best_cand + N - F) % (N as int));
        filling.two::<Token>(
            false,
            (best_pos % 256) as u8,
            (best_pos / 256 * 16 + (best_len - MIN_MATCH)) as u8,
            Ghost(Token::Match { pos: best_pos as nat, len: best_len as nat }),
            Ghost(ts),
        );
        best_len
    }
}

/// The code of `data`.
fn compress(data: &[u8]) -> (out: Vec<u8>)
    ensures
        out@ == encoded(data@),
{
    let n: usize = data.len();
    let mut out: Vec<u8> = Vec::new();
    out.push((n % 256) as u8);
    out.push((n / 256 % 256) as u8);
    out.push((n / 65536 % 256) as u8);
    out.push((n / 16777216 % 256) as u8);
    assert(out@ =~= le32(n as nat));
    let mut chains = Chains::new(data);
    let mut filling = Group::new::<Token>();
    let mut cur: usize = 0;
    let ghost mut full: Seq<Token> = Seq::empty();
    let ghost mut ts: Seq<Token> = Seq::empty();
    assert(full + ts + tokens(data@, 0) =~= tokens(data@, 0));
    assert(out@ =~= le32(n as nat) + payload(full));
    while cur < n
        invariant
            n == data@.len(),
            n == data.len(),
            cur <= n,
            chains.holds(data@, cur as int),
            filling.holds(ts),
            ts.len() < 8,
            full.len() % 8 == 0,
            full + ts + tokens(data@, cur as int) == tokens(data@, 0),
            out@ == le32(n as nat) + payload(full),
        decreases n - cur,
    {
        let ghost (t, len) = token_at(data@, cur as int);
        proof {
            lemma_token(data@, cur as int);
            let rest = tokens(data@, cur + len);
            assert(tokens(data@, cur as int) =~= seq![t] + rest);
            assert(full + ts.push(t) + rest =~= full + ts + tokens(data@, cur as int));
        }
        let advance: usize = code_next(data, cur, &chains, &mut filling, Ghost(ts));
        proof {
            ts = ts.push(t);
        }
        if filling.len::<Token>(Ghost(ts)) == 8 {
            filling.flush::<Token>(&mut out, Ghost(ts));
            proof {
                lemma_payload_append(full, ts);
                assert(out@ =~= le32(n as nat) + payload(full + ts));
                full = full + ts;
                ts = Seq::empty();
                assert(full + ts =~= full);
            }
        }
        chains.insert_all(data, cur, cur + advance);
        cur = cur + advance;
    }
    assert(tokens(data@, cur as int) =~= Seq::empty());
    assert(full + ts =~= tokens(data@, 0));
    if filling.len::<Token>(Ghost(ts)) > 0 {
        filling.flush::<Token>(&mut out, Ghost(ts));
        proof {
            lemma_payload_append(full, ts);
            assert(out@ =~= le32(n as nat) + payload(full + ts));
        }
    } else {
        assert(full + ts =~= full);
    }
    out
}

/// Streaming LZSS encoder. It collects the input and codes it at the end.
#[derive(Debug)]
pub struct Encoder {
    input: Vec<u8>,
    output: Queue,
    finalized: bool,
}

impl Encoder {
    /// The input collected so far.
    pub closed spec fn collected(&self) -> Seq<u8> {
        self.input@
    }

    /// Coded bytes that wait for room.
    pub closed spec fn pending(&self) -> Seq<u8> {
        self.output@
    }

    /// The end of the input was signalled.
    pub closed spec fn is_finished(&self) -> bool {
        self.finalized
    }

    /// Nothing was taken yet.
    pub open spec fn is_fresh(&self) -> bool {
        &&& self.collected() == Seq::<u8>::empty()
        &&& self.pending() == Seq::<u8>::empty()
        &&& !self.is_finished()
    }

    /// A fresh encoder.
    pub fn new() -> (e: Self)
        ensures
            e.inv(),
            e.is_fresh(),
    {
        Encoder { input: Vec::new(), output: Queue::new(), finalized: false }
    }

    /// Codes the collected input.
    fn finalize(&mut self)
        requires
            old(self).output.inv(),
        ensures
            final(self).output.inv(),
            final(self).output@ == old(self).output@ + encoded(old(self).input@),
            final(self).input@ == Seq::<u8>::empty(),
            final(self).finalized == old(self).finalized,
    {
        let out = compress(self.input.as_slice());
        self.output.extend(out.as_slice());
        self.input = Vec::new();
    }
}

impl Default for Encoder {
    fn default() -> (e: Self)
        ensures
            e.inv(),
            e.is_fresh(),
    {
        Encoder::new()
    }
}

impl RawEncoder for Encoder {
    closed spec fn inv(&self) -> bool {
        self.output.inv()
    }

    open spec fn encode_post(
        before: Self,
        input: Seq<u8>,
        old_output: Seq<u8>,
        after: Self,
        new_output: Seq<u8>,
        r: Result<RawProgress, Error>,
    ) -> bool {
        &&& r == Ok::<RawProgress, Error>(
            RawProgress { consumed: input.len() as usize, written: 0, done: false },
        )
        &&& new_output == old_output
        &&& after.collected() == before.collected() + input
        &&& after.pending() == before.pending()
        &&& after.is_finished() == before.is_finished()
    }

    open spec fn finish_post(
        before: Self,
        old_output: Seq<u8>,
        after: Self,
        new_output: Seq<u8>,
        r: Result<RawProgress, Error>,
    ) -> bool {
        let all = if before.is_finished() {
            before.pending()
        } else {
            before.pending() + encoded(before.collected())
        };
        let n = least(all.len(), old_output.len());
        &&& r == Ok::<RawProgress, Error>(
            RawProgress { consumed: 0, written: n as usize, done: n == all.len() },
        )
        &&& new_output == stored(old_output, all.take(n as int))
        &&& after.pending() == all.skip(n as int)
        &&& after.is_finished()
        &&& after.collected() == (if before.is_finished() {
            before.collected()
        } else {
            Seq::empty()
        })
    }

    open spec fn reset_post(before: Self, after: Self) -> bool {
        after.is_fresh()
    }

    fn raw_encode(&mut self, input: &[u8], output: &mut [u8]) -> (r: Result<RawProgress, Error>) {
        self.input.extend_from_slice(input);
        assert(self.input@ =~= old(self).input@ + input@);
        Ok(RawProgress { consumed: input.len(), written: 0, done: false })
    }

    fn raw_finish(&mut self, output: &mut [u8]) -> (r: Result<RawProgress, Error>) {
        if !self.finalized {
            self.finalize();
            self.finalized = true;
        }
        let written: usize = self.output.drain(output, 0);
        let done = self.output.is_empty();
        assert(output@.skip(written as int) =~= old(output)@.skip(written as int));
        Ok(RawProgress { consumed: 0, written, done })
    }

    fn raw_reset(&mut self) {
        self.input.clear();
        self.output.clear();
        self.finalized = false;
    }
}

#[derive(Debug, Clone, Copy, PartialEq, Eq, Structural)]
enum DecPhase {
    /// Within the length.
    Header,
    /// Before a flag byte.
    Flags,
    /// Before the next bit of the flag byte.
    Token,
    /// Before a literal.
    NeedLiteral,
    /// A literal waits for room.
    PendingLiteral,
    /// Before the first byte of a match.
    NeedMatch1,
    /// Before the second byte of a match.
    NeedMatch2,
    /// Within a copy.
    EmitMatch,
    /// All the declared bytes are there.
    Done,
}

/// Streaming LZSS decoder.
pub struct Decoder {
    phase: DecPhase,
    header: Vec<u8>,
    expected_len: u32,
    emitted: u32,
    flags: u8,
    flags_left: u8,
    match_first: u8,
    match_pos: usize,
    match_len: usize,
    pending_literal: u8,
    ring: Vec<u8>,
    ring_w: usize,
    history: Ghost<Seq<u8>>,
}

impl Decoder {
    /// Decoded bytes that wait for room.
    pub closed spec fn pending(&self) -> Seq<u8> {
        match self.phase {
            DecPhase::PendingLiteral => seq![self.pending_literal],
            DecPhase::EmitMatch => copied(
                self.history@,
                self.match_pos as int,
                self.owed(),
            ).skip(self.history@.len() as int),
            _ => Seq::empty(),
        }
    }

    spec fn owed(&self) -> nat {
        least(self.match_len as nat, (self.expected_len - self.emitted) as nat)
    }

    /// Where in the code the decoder stands, once the waiting bytes are out.
    pub closed spec fn place(&self) -> Place {
        let here = Place {
            expected: self.expected_len as nat,
            out: self.history@,
            stage: Stage::Flags,
        };
        let (flags, left) = (self.flags as nat, self.flags_left as nat);
        match self.phase {
            DecPhase::Header => Place { stage: Stage::Header { bytes: self.header@ }, ..here },
            DecPhase::Flags => here,
            DecPhase::Token => Place { stage: next_token(flags, left), ..here },
            DecPhase::NeedLiteral => Place { stage: Stage::Literal { flags, left }, ..here },
            DecPhase::PendingLiteral => here.arrived(
                self.history@.push(self.pending_literal),
                flags,
                left,
            ),
            DecPhase::NeedMatch1 => Place { stage: Stage::Match1 { flags, left }, ..here },
            DecPhase::NeedMatch2 => Place {
                stage: Stage::Match2 { flags, left, first: self.match_first },
                ..here
            },
            DecPhase::EmitMatch => here.arrived(
                copied(self.history@, self.match_pos as int, self.owed()),
                flags,
                left,
            ),
            DecPhase::Done => Place { stage: Stage::Done, ..here },
        }
    }

    spec fn ring_inv(&self) -> bool {
        &&& self.ring@.len() == N
        &&& self.ring_w == (N - F + self.history@.len()) % (N as int)
        &&& forall|p: int| 0 <= p < N ==> #[trigger] self.ring@[p] == ring_byte(self.history@, p)
    }

    /// Nothing was taken yet.
    pub open spec fn is_fresh(&self) -> bool {
        self.place() == start() && self.pending() == Seq::<u8>::empty()
    }

    /// A fresh decoder.
    pub fn new() -> (d: Self)
        ensures
            d.inv(),
            d.is_fresh(),
    {
        reveal(ring_byte);
        let d = Decoder {
            phase: DecPhase::Header,
            header: Vec::new(),
            expected_len: 0,
            emitted: 0,
            flags: 0,
            flags_left: 0,
            match_first: 0,
            match_pos: 0,
            match_len: 0,
            pending_literal: 0,
            ring: vec![NUL;N],
            ring_w: N - F,
            history: Ghost(Seq::empty()),
        };
        assert(d.place().stage->bytes =~= start().stage->bytes);
        d
    }

    proof fn lemma_owes(&self)
        requires
            self.inv(),
        ensures
            (self.phase is PendingLiteral || self.phase is EmitMatch) == (self.pending().len() > 0),
    {
        if self.phase is EmitMatch {
            lemma_copied_extends(self.history@, self.match_pos as int, self.owed());
        }
    }

    /// The next byte that waits for room, which is written with that.
    fn pop(&mut self) -> (b: u8)
        requires
            old(self).inv(),
            old(self).phase is PendingLiteral || old(self).phase is EmitMatch,
        ensures
            final(self).inv(),
            final(self).place() == old(self).place(),
            b == old(self).pending()[0],
            final(self).pending() == old(self).pending().skip(1),
    {
        if self.phase == DecPhase::PendingLiteral {
            let b = self.pending_literal;
            self.emit(b, DecPhase::Token);
            assert(seq![b].skip(1) =~= Seq::empty());
            b
        } else {
            let ghost before = self.history@;
            let ghost owed = self.pending();
            let ghost all = copied(before, self.match_pos as int, self.owed());
            let b = self.ring[self.match_pos];
            proof {
                assert(b == ring_byte(before, self.match_pos as int));
                lemma_copied_extends(before, self.match_pos as int, self.owed());
                lemma_copied_extends(
                    before.push(b),
                    (self.match_pos + 1) % (N as int),
                    (self.owed() - 1) as nat,
                );
                assert(all.take(before.push(b).len() as int)[before.len() as int] == b);
                assert(owed[0] == b);
                assert(owed.skip(1) =~= all.skip(before.push(b).len() as int));
            }
            let next = if self.match_len == 1 {
                DecPhase::Token
            } else {
                DecPhase::EmitMatch
            };
            self.emit(b, next);
            self.match_pos = (self.match_pos + 1) % N;
            self.match_len = self.match_len - 1;
            assert(self.pending() =~= owed.skip(1));
            b
        }
    }

    /// Records `b` as written; the phase becomes `Done` when it was the last
    /// of the declared bytes, else `next`.
    fn emit(&mut self, b: u8, next: DecPhase)
        requires
            old(self).ring_inv(),
            old(self).emitted == old(self).history@.len(),
            old(self).emitted < old(self).expected_len,
        ensures
            final(self).ring_inv(),
            final(self).emitted == old(self).emitted + 1,
            final(self).history@ == old(self).history@.push(b),
            final(self).phase == (if old(self).emitted + 1 >= old(self).expected_len {
                DecPhase::Done
            } else {
                next
            }),
            final(self).header == old(self).header,
            final(self).expected_len == old(self).expected_len,
            final(self).flags == old(self).flags,
            final(self).flags_left == old(self).flags_left,
            final(self).match_first == old(self).match_first,
            final(self).match_pos == old(self).match_pos,
            final(self).match_len == old(self).match_len,
            final(self).pending_literal == old(self).pending_literal,
    {
        reveal(ring_byte);
        self.ring[self.ring_w] = b;
        self.ring_w = (self.ring_w + 1) % N;
        self.history = Ghost(self.history@.push(b));
        self.emitted = self.emitted + 1;
        if self.emitted >= self.expected_len {
            self.phase = DecPhase::Done;
        } else {
            self.phase = next;
        }
        assert forall|p: int| 0 <= p < N implies #[trigger] self.ring@[p] == ring_byte(
            self.history@,
            p,
        ) by {
            assert(old(self).ring@[p] == ring_byte(old(self).history@, p));
        }
    }
}

impl Default for Decoder {
    fn default() -> (d: Self)
        ensures
            d.inv(),
            d.is_fresh(),
    {
        Decoder::new()
    }
}

impl RawDecoder for Decoder {
    closed spec fn inv(&self) -> bool {
        &&& self.ring_inv()
        &&& self.emitted == self.history@.len()
        &&& self.flags_left <= 8
        &&& self.phase is Header ==> self.header@.len() < 4 && self.emitted == 0
            && self.expected_len == 0
        &&& !(self.phase is Header || self.phase is Done) ==> self.emitted < self.expected_len
        &&& self.phase is EmitMatch ==> self.match_pos < N && self.match_len > 0
    }

    open spec fn decode_post(
        before: Self,
        input: Seq<u8>,
        old_output: Seq<u8>,
        after: Self,
        new_output: Seq<u8>,
        r: Result<RawProgress, Error>,
    ) -> bool {
        &&& r matches Ok(p)
        &&& p.done == (after.place().stage is Done && after.pending().len() == 0)
        &&& transduces(
            before.place(),
            before.pending(),
            input,
            old_output,
            after.place(),
            after.pending(),
            new_output,
            p.consumed as int,
            p.written as int,
        )
    }

    open spec fn finish_post(
        before: Self,
        old_output: Seq<u8>,
        after: Self,
        new_output: Seq<u8>,
        r: Result<RawProgress, Error>,
    ) -> bool {
        &&& new_output == old_output
        &&& after.pending() == before.pending()
        &&& if before.place() == start() {
            &&& r == Ok::<RawProgress, Error>(idle(true))
            &&& after.place() == (Place { stage: Stage::Done, ..start() })
        } else if before.place().stage is Done && before.pending().len() == 0 {
            &&& r == Ok::<RawProgress, Error>(idle(true))
            &&& after.place() == before.place()
        } else {
            &&& r == Err::<RawProgress, Error>(Error::UnexpectedEnd)
            &&& after.place() == before.place()
        }
    }

    open spec fn reset_post(before: Self, after: Self) -> bool {
        after.is_fresh()
    }

    #[verifier::rlimit(30)]
    fn raw_decode(&mut self, input: &[u8], output: &mut [u8]) -> (r: Result<RawProgress, Error>) {
        let ghost m = self.place();
        let ghost pending = self.pending();
        let ghost out0 = output@;
        let mut consumed: usize = 0;
        let mut written: usize = 0;
        proof {
            midway_start(m, pending, input@, out0);
        }
        loop
            invariant
                m == old(self).place(),
                pending == old(self).pending(),
                out0 == old(output)@,
                self.inv(),
                consumed <= input@.len(),
                written <= out0.len(),
                output@.len() == out0.len(),
                midway(
                    m,
                    pending,
                    input@,
                    out0,
                    self.place(),
                    self.pending(),
                    output@,
                    consumed as int,
                    written as int,
                ),
            decreases
                    input@.len() - consumed,
                    out0.len() - written,
                    (match self.phase {
                        DecPhase::EmitMatch => 4int,
                        DecPhase::PendingLiteral => 4int,
                        DecPhase::Token => 2int,
                        _ => 1int,
                    }),
        {
            let ghost here = self.place();
            match self.phase {
                DecPhase::Header => {
                    if consumed == input.len() {
                        proof {
                            midway_stop(
                                m,
                                pending,
                                input@,
                                out0,
                                self.place(),
                                self.pending(),
                                output@,
                                consumed as int,
                                written as int,
                            );
                        }
                        return Ok(RawProgress { consumed, written, done: false });
                    }
                    proof {
                        midway_take(
                            m,
                            pending,
                            input@,
                            out0,
                            self.place(),
                            self.pending(),
                            output@,
                            consumed as int,
                            written as int,
                        );
                    }
                    let b = input[consumed];
                    self.header.push(b);
                    consumed = consumed + 1;
                    if self.header.len() == 4 {
                        self.expected_len = self.header[0] as u32 + 256 * self.header[1] as u32
                            + 65536 * self.header[2] as u32 + 16777216 * self.header[3] as u32;
                        self.phase = if self.expected_len == 0 {
                            DecPhase::Done
                        } else {
                            DecPhase::Flags
                        };
                    }
                    assert(here.emits(b) =~= Seq::empty());
                },
                DecPhase::Flags => {
                    if consumed == input.len() {
                        proof {
                            midway_stop(
                                m,
                                pending,
                                input@,
                                out0,
                                self.place(),
                                self.pending(),
                                output@,
                                consumed as int,
                                written as int,
                            );
                        }
                        return Ok(RawProgress { consumed, written, done: false });
                    }
                    proof {
                        midway_take(
                            m,
                            pending,
                            input@,
                            out0,
                            self.place(),
                            self.pending(),
                            output@,
                            consumed as int,
                            written as int,
                        );
                    }
                    self.flags = input[consumed];
                    consumed = consumed + 1;
                    self.flags_left = 8;
                    self.phase = DecPhase::Token;
                    assert(here.emits(self.flags) =~= Seq::empty());
                },
                DecPhase::Token => {
                    if self.flags_left == 0 {
                        self.phase = DecPhase::Flags;
                    } else {
                        let is_literal = self.flags % 2 == 1;
                        self.flags = self.flags / 2;
                        self.flags_left = self.flags_left - 1;
                        self.phase = if is_literal {
                            DecPhase::NeedLiteral
                        } else {
                            DecPhase::NeedMatch1
                        };
                    }
                },
                DecPhase::NeedLiteral => {
                    if consumed == input.len() {
                        proof {
                            midway_stop(
                                m,
                                pending,
                                input@,
                                out0,
                                self.place(),
                                self.pending(),
                                output@,
                                consumed as int,
                                written as int,
                            );
                        }
                        return Ok(RawProgress { consumed, written, done: false });
                    }
                    proof {
                        midway_take(
                            m,
                            pending,
                            input@,
                            out0,
                            self.place(),
                            self.pending(),
                            output@,
                            consumed as int,
                            written as int,
                        );
                    }
                    self.pending_literal = input[consumed];
                    consumed = consumed + 1;
                    self.phase = DecPhase::PendingLiteral;
                    assert(here.emits(self.pending_literal) =~= seq![self.pending_literal]);
                },
                DecPhase::PendingLiteral | DecPhase::EmitMatch => {
                    proof {
                        self.lemma_owes();
                    }
                    if written == output.len() {
                        proof {
                            midway_stop(
                                m,
                                pending,
                                input@,
                                out0,
                                self.place(),
                                self.pending(),
                                output@,
                                consumed as int,
                                written as int,
                            );
                        }
                        return Ok(RawProgress { consumed, written, done: false });
                    }
                    proof {
                        midway_store(
                            m,
                            pending,
                            input@,
                            out0,
                            self.place(),
                            self.pending(),
                            output@,
                            consumed as int,
                            written as int,
                        );
                    }
                    let b = self.pop();
                    output[written] = b;
                    written = written + 1;
                },
                DecPhase::NeedMatch1 => {
                    if consumed == input.len() {
                        proof {
                            midway_stop(
                                m,
                                pending,
                                input@,
                                out0,
                                self.place(),
                                self.pending(),
                                output@,
                                consumed as int,
                                written as int,
                            );
                        }
                        return Ok(RawProgress { consumed, written, done: false });
                    }
                    proof {
                        midway_take(
                            m,
                            pending,
                            input@,
                            out0,
                            self.place(),
                            self.pending(),
                            output@,
                            consumed as int,
                            written as int,
                        );
                    }
                    self.match_first = input[consumed];
                    consumed = consumed + 1;
                    self.phase = DecPhase::NeedMatch2;
                    assert(here.emits(self.match_first) =~= Seq::empty());
                },
                DecPhase::NeedMatch2 => {
                    if consumed == input.len() {
                        proof {
                            midway_stop(
                                m,
                                pending,
                                input@,
                                out0,
                                self.place(),
                                self.pending(),
                                output@,
                                consumed as int,
                                written as int,
                            );
                        }
                        return Ok(RawProgress { consumed, written, done: false });
                    }
                    proof {
                        midway_take(
                            m,
                            pending,
                            input@,
                            out0,
                            self.place(),
                            self.pending(),
                            output@,
                            consumed as int,
                            written as int,
                        );
                    }
                    let b2 = input[consumed];
                    consumed = consumed + 1;
                    self.match_pos = self.match_first as usize + (b2 as usize) / 16 * 256;
                    self.match_len = (b2 as usize) % 16 + MIN_MATCH;
                    self.phase = DecPhase::EmitMatch;
                },
                DecPhase::Done => {
                    proof {
                        midway_stop(
                            m,
                            pending,
                            input@,
                            out0,
                            self.place(),
                            self.pending(),
                            output@,
                            consumed as int,
                            written as int,
                        );
                    }
                    return Ok(RawProgress { consumed, written, done: true });
                },
            }
        }
    }

    fn raw_finish(&mut self, output: &mut [u8]) -> (r: Result<RawProgress, Error>) {
        proof {
            if self.phase is EmitMatch {
                lemma_copied_extends(self.history@, self.match_pos as int, self.owed());
            }
            if self.phase is Header && self.header@.len() == 0 {
                assert(self.header@ =~= Seq::empty());
                assert(self.history@ =~= Seq::empty());
            }
        }
        match self.phase {
            DecPhase::Done => Ok(RawProgress { consumed: 0, written: 0, done: true }),
            DecPhase::Header => {
                if self.header.len() == 0 {
                    self.phase = DecPhase::Done;
                    Ok(RawProgress { consumed: 0, written: 0, done: true })
                } else {
                    Err(Error::UnexpectedEnd)
                }
            },
            _ => Err(Error::UnexpectedEnd),
        }
    }

    fn raw_reset(&mut self) {
        *self = Decoder::new();
    }
}

} // verus!
