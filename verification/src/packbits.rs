//! PackBits: the tag-byte run-length code of TIFF, PSD and classic Mac files.
//!
//! A control byte `n`, read as signed, says what follows:
//!
//! * `0..=127`: the next `n + 1` bytes are literal.
//! * `-1..=-127`: the next byte stands for `-n + 1` copies of itself.
//! * `-128`: nothing.
//!
//! There is no header, trailer or length prefix; decoding ends when the input
//! does, at a control-byte boundary.
//!
//! The encoder codes runs of three and more equal bytes as copies (at most 128
//! at a time) and everything between as literals (at most 128 at a time).
use vstd::prelude::*;

use crate::error::Error;
use crate::machine::{drive, Feeder, Machine, Queue};
use crate::machine::{after, emission, taking_is_streaming, taking_one, transduces};
use crate::machine::{midway, midway_start, midway_stop, midway_store, midway_take};
use crate::traits::{Algorithm, RawDecoder, RawEncoder, RawProgress};
use crate::traits::{least, stored};

verus! {

/// Most bytes that one literal header covers.
pub const MAX_LITERAL: usize = 128;

/// Most copies that one run header covers.
pub const MAX_RUN: usize = 128;

/// Shortest run that is coded as copies.
pub const MIN_RUN: usize = 3;

/// Marker type of the PackBits codec.
#[derive(Debug, Clone, Copy, Default)]
pub struct PackBits;

impl Algorithm for PackBits {
    const NAME: &'static str = "packbits";

    type Encoder = Encoder;

    type Decoder = Decoder;

    type EncoderConfig = ();

    type DecoderConfig = ();

    open spec fn is_encoder_with(config: (), e: Encoder) -> bool {
        e.inv() && e.is_fresh()
    }

    open spec fn is_decoder_with(config: (), d: Decoder) -> bool {
        d.is_fresh()
    }

    fn encoder_with(config: ()) -> (e: Encoder) {
        Encoder::new()
    }

    fn decoder_with(config: ()) -> (d: Decoder) {
        Decoder::new()
    }
}

/// `n` copies of `b`.
pub open spec fn copies(b: u8, n: nat) -> Seq<u8> {
    Seq::new(n, |i: int| b)
}

/// A literal block: its header and its bytes; nothing for no bytes.
pub open spec fn literal_block(literal: Seq<u8>) -> Seq<u8> {
    if literal.len() == 0 {
        Seq::empty()
    } else {
        seq![(literal.len() - 1) as u8] + literal
    }
}

/// A run block: the header that stands for `count` copies, and the byte.
pub open spec fn run_block(b: u8, count: nat) -> Seq<u8> {
    seq![(257 - count) as u8, b]
}

/// What the encoder has taken and not yet coded: literal bytes, then a run.
#[verifier::ext_equal]
pub struct Tail {
    /// Bytes to be coded as literals.
    pub literal: Seq<u8>,
    /// The byte that repeats at the end, and how often.
    pub run: Option<(u8, nat)>,
}

/// The tail of an encoder that has taken nothing.
pub open spec fn empty_tail() -> Tail {
    Tail { literal: Seq::empty(), run: None }
}

impl Tail {
    /// The bytes the tail stands for.
    pub open spec fn bytes(self) -> Seq<u8> {
        match self.run {
            Some((b, n)) => self.literal + copies(b, n),
            None => self.literal,
        }
    }

    /// The bounds that taking bytes keeps.
    pub open spec fn bounded(self) -> bool {
        &&& self.literal.len() < MAX_LITERAL
        &&& match self.run {
            Some((b, n)) => 1 <= n <= MAX_RUN,
            None => self.literal.len() == 0,
        }
    }

    /// The literal part after `extra` joined it: a full block is coded at once.
    pub open spec fn joined(self, extra: Seq<u8>) -> Seq<u8> {
        let all = self.literal + extra;
        if all.len() >= MAX_LITERAL {
            all.skip(MAX_LITERAL as int)
        } else {
            all
        }
    }

    /// What joining `extra` to the literal part codes.
    pub open spec fn join_emits(self, extra: Seq<u8>) -> Seq<u8> {
        let all = self.literal + extra;
        if all.len() >= MAX_LITERAL {
            literal_block(all.take(MAX_LITERAL as int))
        } else {
            Seq::empty()
        }
    }

    /// What is coded when the input ends.
    pub open spec fn finale(self) -> Seq<u8> {
        match self.run {
            Some((b, n)) => if n >= MIN_RUN {
                literal_block(self.literal) + run_block(b, n)
            } else {
                self.join_emits(copies(b, n)) + literal_block(self.joined(copies(b, n)))
            },
            None => literal_block(self.literal),
        }
    }
}

impl Machine for Tail {
    open spec fn fed(self, b: u8) -> Self {
        match self.run {
            Some((byte, n)) => if byte == b && n < MAX_RUN {
                Tail { literal: self.literal, run: Some((byte, n + 1)) }
            } else if byte == b || n >= MIN_RUN {
                Tail { literal: Seq::empty(), run: Some((b, 1)) }
            } else {
                Tail { literal: self.joined(copies(byte, n)), run: Some((b, 1)) }
            },
            None => Tail { literal: self.literal, run: Some((b, 1)) },
        }
    }

    open spec fn emits(self, b: u8) -> Seq<u8> {
        match self.run {
            Some((byte, n)) => if byte == b && n < MAX_RUN {
                Seq::empty()
            } else if byte == b || n >= MIN_RUN {
                literal_block(self.literal) + run_block(byte, n)
            } else {
                self.join_emits(copies(byte, n))
            },
            None => Seq::empty(),
        }
    }

    open spec fn room(self, b: u8) -> nat {
        0
    }

    open spec fn halted(self) -> bool {
        false
    }
}

/// The PackBits code of `data`.
pub open spec fn encoded(data: Seq<u8>) -> Seq<u8> {
    emission(empty_tail(), data) + after(empty_tail(), data).finale()
}

/// Where in the code a decoder stands.
pub enum Place {
    /// Before a control byte.
    Header,
    /// Before this many more literal bytes.
    Literal { remaining: nat },
    /// Before the byte that stands for this many copies.
    RunByte { count: nat },
}

impl Machine for Place {
    open spec fn fed(self, b: u8) -> Self {
        match self {
            Place::Header => if b < 128 {
                Place::Literal { remaining: (b + 1) as nat }
            } else if b == 128 {
                Place::Header
            } else {
                Place::RunByte { count: (257 - b) as nat }
            },
            Place::Literal { remaining } => if remaining == 1 {
                Place::Header
            } else {
                Place::Literal { remaining: (remaining - 1) as nat }
            },
            Place::RunByte { count } => Place::Header,
        }
    }

    open spec fn emits(self, b: u8) -> Seq<u8> {
        match self {
            Place::Header => Seq::empty(),
            Place::Literal { remaining } => seq![b],
            Place::RunByte { count } => copies(b, count),
        }
    }

    open spec fn room(self, b: u8) -> nat {
        if self is Literal {
            1
        } else {
            0
        }
    }

    open spec fn halted(self) -> bool {
        false
    }
}

/// The bytes that the code `data` stands for.
pub open spec fn decoded(data: Seq<u8>) -> Seq<u8> {
    emission(Place::Header, data)
}

/// The code `data` ends at a control-byte boundary.
pub open spec fn complete(data: Seq<u8>) -> bool {
    after(Place::Header, data) is Header
}

proof fn lemma_literal_bytes(bytes: Seq<u8>, k: nat)
    requires
        0 < k,
        bytes.len() <= k,
    ensures
        emission((Place::Literal { remaining: k }), bytes) == bytes,
        after((Place::Literal { remaining: k }), bytes) == (if bytes.len() == k {
            Place::Header
        } else {
            Place::Literal { remaining: (k - bytes.len()) as nat }
        }),
    decreases bytes.len(),
{
    if bytes.len() > 0 {
        lemma_literal_bytes(bytes.drop_last(), k);
        assert(bytes.drop_last() + seq![bytes.last()] =~= bytes);
    }
}

proof fn lemma_literal_block(literal: Seq<u8>)
    requires
        literal.len() <= MAX_LITERAL,
    ensures
        decoded(literal_block(literal)) == literal,
        complete(literal_block(literal)),
{
    if literal.len() > 0 {
        let h = seq![(literal.len() - 1) as u8];
        taking_one(Place::Header, h[0]);
        lemma_literal_bytes(literal, literal.len());
        taking_is_streaming(Place::Header, h, literal);
        assert(decoded(literal_block(literal)) =~= literal);
    }
}

proof fn lemma_run_block(b: u8, n: nat)
    requires
        2 <= n <= MAX_RUN,
    ensures
        decoded(run_block(b, n)) == copies(b, n),
        complete(run_block(b, n)),
{
    let h = seq![(257 - n) as u8];
    taking_one(Place::Header, h[0]);
    taking_one(Place::RunByte { count: n }, b);
    taking_is_streaming(Place::Header, h, seq![b]);
    assert(run_block(b, n) =~= h + seq![b]);
    assert(decoded(run_block(b, n)) =~= copies(b, n));
}

proof fn lemma_complete_concat(a: Seq<u8>, b: Seq<u8>)
    requires
        complete(a),
        complete(b),
    ensures
        complete(a + b),
        decoded(a + b) == decoded(a) + decoded(b),
{
    taking_is_streaming(Place::Header, a, b);
}

proof fn lemma_join(t: Tail, extra: Seq<u8>)
    requires
        t.literal.len() < MAX_LITERAL,
        extra.len() <= MAX_LITERAL,
    ensures
        t.joined(extra).len() < MAX_LITERAL,
        complete(t.join_emits(extra)),
        decoded(t.join_emits(extra)) + t.joined(extra) == t.literal + extra,
{
    let all = t.literal + extra;
    if all.len() >= MAX_LITERAL {
        lemma_literal_block(all.take(MAX_LITERAL as int));
    }
    assert(decoded(t.join_emits(extra)) + t.joined(extra) =~= all);
}

proof fn lemma_step(t: Tail, b: u8)
    requires
        t.bounded(),
    ensures
        t.fed(b).bounded(),
        complete(t.emits(b)),
        decoded(t.emits(b)) + t.fed(b).bytes() == t.bytes().push(b),
{
    match t.run {
        Some((byte, n)) => {
            if byte == b && n < MAX_RUN {
            } else if byte == b || n >= MIN_RUN {
                lemma_literal_block(t.literal);
                lemma_run_block(byte, n);
                lemma_complete_concat(literal_block(t.literal), run_block(byte, n));
            } else {
                lemma_join(t, copies(byte, n));
            }
        },
        None => {},
    }
    assert(decoded(t.emits(b)) + t.fed(b).bytes() =~= t.bytes().push(b));
}

proof fn lemma_prefix(data: Seq<u8>)
    ensures
        after(empty_tail(), data).bounded(),
        complete(emission(empty_tail(), data)),
        decoded(emission(empty_tail(), data)) + after(empty_tail(), data).bytes() == data,
    decreases data.len(),
{
    if data.len() > 0 {
        let init = data.drop_last();
        lemma_prefix(init);
        let t = after(empty_tail(), init);
        lemma_step(t, data.last());
        lemma_complete_concat(emission(empty_tail(), init), t.emits(data.last()));
        assert(init.push(data.last()) =~= data);
        assert(decoded(emission(empty_tail(), data)) + after(empty_tail(), data).bytes()
            =~= decoded(emission(empty_tail(), init)) + t.bytes().push(data.last()));
        assert(decoded(emission(empty_tail(), init)) + t.bytes().push(data.last()) =~= (decoded(
            emission(empty_tail(), init),
        ) + t.bytes()).push(data.last()));
    } else {
        assert(empty_tail().bytes() =~= data);
        assert(decoded(emission(empty_tail(), data)) =~= data);
    }
}

/// A piece of code, whoever wrote it.
pub enum Block {
    /// One to 128 bytes that stand for themselves.
    Bytes { bytes: Seq<u8> },
    /// Two to 128 times the byte.
    Run { b: u8, n: nat },
    /// A control byte that stands for nothing.
    Nothing,
}

/// The bytes of a piece.
pub open spec fn block_written(k: Block) -> Seq<u8> {
    match k {
        Block::Bytes { bytes } => seq![(bytes.len() - 1) as u8] + bytes,
        Block::Run { b, n } => seq![(256 - (n - 1)) as u8, b],
        Block::Nothing => seq![0x80u8],
    }
}

/// What a piece says.
pub open spec fn block_said(k: Block) -> Seq<u8> {
    match k {
        Block::Bytes { bytes } => bytes,
        Block::Run { b, n } => Seq::new(n, |i: int| b),
        Block::Nothing => Seq::empty(),
    }
}

/// The piece can be written.
pub open spec fn block_writable(k: Block) -> bool {
    match k {
        Block::Bytes { bytes } => 1 <= bytes.len() <= 128,
        Block::Run { b, n } => 2 <= n <= 128,
        Block::Nothing => true,
    }
}

/// The bytes of all pieces.
pub open spec fn blocks_written(ks: Seq<Block>) -> Seq<u8>
    decreases ks.len(),
{
    if ks.len() == 0 {
        Seq::empty()
    } else {
        block_written(ks[0]) + blocks_written(ks.skip(1))
    }
}

/// What all pieces say.
pub open spec fn blocks_said(ks: Seq<Block>) -> Seq<u8>
    decreases ks.len(),
{
    if ks.len() == 0 {
        Seq::empty()
    } else {
        block_said(ks[0]) + blocks_said(ks.skip(1))
    }
}

/// All code is read back: any pieces, in any order, say what they say.
pub proof fn blocks_read_back(ks: Seq<Block>)
    requires
        forall|i: int| 0 <= i < ks.len() ==> block_writable(#[trigger] ks[i]),
    ensures
        complete(blocks_written(ks)),
        decoded(blocks_written(ks)) == blocks_said(ks),
    decreases ks.len(),
{
    if ks.len() > 0 {
        let k = ks[0];
        assert(block_writable(k));
        match k {
            Block::Bytes { bytes } => {
                lemma_literal_block(bytes);
                assert(block_written(k) =~= literal_block(bytes));
            },
            Block::Run { b, n } => {
                lemma_run_block(b, n);
                assert(block_written(k) =~= run_block(b, n));
                assert(block_said(k) =~= copies(b, n));
            },
            Block::Nothing => {
                taking_one(Place::Header, 0x80u8);
            },
        }
        assert forall|i: int| 0 <= i < ks.skip(1).len() implies block_writable(
            #[trigger] ks.skip(1)[i],
        ) by {
            assert(block_writable(ks[i + 1]));
        }
        blocks_read_back(ks.skip(1));
        lemma_complete_concat(block_written(k), blocks_written(ks.skip(1)));
    }
}

/// Decoding inverts encoding: the code of `data` is complete and stands for
/// `data`.
pub proof fn decode_inverts_encode(data: Seq<u8>)
    ensures
        complete(encoded(data)),
        decoded(encoded(data)) == data,
{
    lemma_prefix(data);
    let t = after(empty_tail(), data);
    let head = emission(empty_tail(), data);
    match t.run {
        Some((b, n)) => {
            if n >= MIN_RUN {
                lemma_literal_block(t.literal);
                lemma_run_block(b, n);
                lemma_complete_concat(literal_block(t.literal), run_block(b, n));
            } else {
                lemma_join(t, copies(b, n));
                lemma_literal_block(t.joined(copies(b, n)));
                lemma_complete_concat(
                    t.join_emits(copies(b, n)),
                    literal_block(t.joined(copies(b, n))),
                );
            }
        },
        None => {
            lemma_literal_block(t.literal);
        },
    }
    lemma_complete_concat(head, t.finale());
    assert(decoded(t.finale()) =~= t.bytes());
}

/// The uncoded tail of the input.
#[derive(Debug)]
struct Coder {
    literal: Vec<u8>,
    run: Option<(u8, usize)>,
}

impl Coder {
    fn new() -> (c: Self)
        ensures
            c.inv(),
            c.state() == empty_tail(),
    {
        let c = Coder { literal: Vec::new(), run: None };
        assert(c.state() =~= empty_tail());
        c
    }

    /// Codes the literal part.
    fn flush_literal(&mut self, queue: &mut Queue)
        requires
            old(queue).inv(),
            old(self).literal@.len() <= MAX_LITERAL,
        ensures
            final(queue).inv(),
            final(queue)@ == old(queue)@ + literal_block(old(self).literal@),
            final(self).literal@ == Seq::<u8>::empty(),
            final(self).run == old(self).run,
    {
        if self.literal.len() > 0 {
            queue.push((self.literal.len() - 1) as u8);
            queue.extend(self.literal.as_slice());
            self.literal.clear();
        }
        assert(queue@ =~= old(queue)@ + literal_block(old(self).literal@));
        assert(self.literal@ =~= Seq::<u8>::empty());
    }

    /// Codes the run. The literal part comes before it and must be coded first.
    fn flush_run(&mut self, queue: &mut Queue)
        requires
            old(queue).inv(),
            old(self).run matches Some((b, n)) ==> 2 <= n <= MAX_RUN,
        ensures
            final(queue).inv(),
            final(queue)@ == old(queue)@ + (match old(self).run {
                Some((b, n)) => run_block(b, n as nat),
                None => Seq::empty(),
            }),
            final(self).literal == old(self).literal,
            final(self).run is None,
    {
        if let Some((byte, count)) = self.run {
            queue.push((257 - count) as u8);
            queue.push(byte);
        }
        self.run = None;
        assert(queue@ =~= old(queue)@ + (match old(self).run {
            Some((b, n)) => run_block(b, n as nat),
            None => Seq::empty(),
        }));
    }

    /// Appends one byte to the literal part, which is coded when it is full.
    fn push_literal(&mut self, b: u8, queue: &mut Queue)
        requires
            old(queue).inv(),
            old(self).literal@.len() < MAX_LITERAL,
        ensures
            final(queue).inv(),
            final(self).run == old(self).run,
            final(self).literal@ == (if old(self).literal@.len() + 1 == MAX_LITERAL {
                Seq::empty()
            } else {
                old(self).literal@.push(b)
            }),
            final(queue)@ == old(queue)@ + (if old(self).literal@.len() + 1 == MAX_LITERAL {
                literal_block(old(self).literal@.push(b))
            } else {
                Seq::empty()
            }),
    {
        self.literal.push(b);
        if self.literal.len() == MAX_LITERAL {
            self.flush_literal(queue);
        }
        assert(queue@ =~= old(queue)@ + (if old(self).literal@.len() + 1 == MAX_LITERAL {
            literal_block(old(self).literal@.push(b))
        } else {
            Seq::empty()
        }));
    }

    /// Appends `count` copies of `b` to the literal part.
    fn push_literals(&mut self, b: u8, count: usize, queue: &mut Queue)
        requires
            old(queue).inv(),
            old(self).literal@.len() < MAX_LITERAL,
            count < MIN_RUN,
        ensures
            final(queue).inv(),
            final(self).run == old(self).run,
            final(self).literal@ == old(self).state().joined(copies(b, count as nat)),
            final(self).literal@.len() < MAX_LITERAL,
            final(queue)@ == old(queue)@ + old(self).state().join_emits(copies(b, count as nat)),
    {
        let mut i: usize = 0;
        let ghost t = self.state();
        assert(t.literal + copies(b, 0) =~= t.literal);
        assert(queue@ =~= old(queue)@ + t.join_emits(copies(b, 0)));
        while i < count
            invariant
                i <= count < MIN_RUN,
                t.literal.len() < MAX_LITERAL,
                queue.inv(),
                self.literal@.len() < MAX_LITERAL,
                self.run == old(self).run,
                self.literal@ == t.joined(copies(b, i as nat)),
                queue@ == old(queue)@ + t.join_emits(copies(b, i as nat)),
            decreases count - i,
        {
            let ghost all = t.literal + copies(b, i as nat);
            let ghost next = t.literal + copies(b, (i + 1) as nat);
            let ghost q = queue@;
            let ghost lit = self.literal@;
            assert(next =~= all.push(b));
            self.push_literal(b, queue);
            proof {
                if next.len() >= MAX_LITERAL {
                    if all.len() >= MAX_LITERAL {
                        assert(next.take(MAX_LITERAL as int) =~= all.take(MAX_LITERAL as int));
                        assert(next.skip(MAX_LITERAL as int) =~= lit.push(b));
                        assert(queue@ =~= q);
                    } else {
                        assert(next.take(MAX_LITERAL as int) =~= next);
                        assert(next.skip(MAX_LITERAL as int) =~= Seq::empty());
                        assert(q =~= old(queue)@);
                    }
                }
                assert(self.literal@ =~= t.joined(copies(b, (i + 1) as nat)));
                assert(queue@ =~= old(queue)@ + t.join_emits(copies(b, (i + 1) as nat)));
            }
            i = i + 1;
        }
    }

    /// Codes everything that is left.
    fn finalize(&mut self, queue: &mut Queue)
        requires
            old(self).inv(),
            old(queue).inv(),
        ensures
            final(self).inv(),
            final(queue).inv(),
            final(queue)@ == old(queue)@ + old(self).state().finale(),
            final(self).state() == empty_tail(),
    {
        let ghost t = self.state();
        if let Some((byte, count)) = self.run {
            if count >= MIN_RUN {
                self.flush_literal(queue);
                self.flush_run(queue);
            } else {
                self.push_literals(byte, count, queue);
                self.run = None;
                self.flush_literal(queue);
            }
        } else {
            self.flush_literal(queue);
        }
        assert(queue@ =~= old(queue)@ + t.finale());
        assert(self.state() =~= empty_tail());
    }
}

impl Feeder for Coder {
    type State = Tail;

    closed spec fn state(&self) -> Tail {
        Tail {
            literal: self.literal@,
            run: match self.run {
                Some((b, n)) => Some((b, n as nat)),
                None => None,
            },
        }
    }

    closed spec fn inv(&self) -> bool {
        self.state().bounded()
    }

    fn is_halted(&self) -> (r: bool) {
        assert(!self.state().halted());
        false
    }

    fn feed(&mut self, b: u8, queue: &mut Queue) {
        let ghost t = self.state();
        match self.run {
            Some((byte, count)) => {
                if byte == b && count < MAX_RUN {
                    self.run = Some((byte, count + 1));
                } else if byte == b || count >= MIN_RUN {
                    self.flush_literal(queue);
                    self.flush_run(queue);
                    self.run = Some((b, 1));
                } else {
                    self.push_literals(byte, count, queue);
                    self.run = Some((b, 1));
                }
            },
            None => {
                self.run = Some((b, 1));
            },
        }
        assert(queue@ =~= old(queue)@ + t.emits(b));
        assert(self.state() =~= t.fed(b));
    }
}

/// Streaming PackBits encoder.
#[derive(Debug)]
pub struct Encoder {
    coder: Coder,
    queue: Queue,
    finished: bool,
}

impl Encoder {
    /// What was taken and not yet coded.
    pub closed spec fn tail(&self) -> Tail {
        self.coder.state()
    }

    /// Coded bytes that wait for room.
    pub closed spec fn pending(&self) -> Seq<u8> {
        self.queue@
    }

    /// The end of the input was signalled.
    pub closed spec fn is_finished(&self) -> bool {
        self.finished
    }

    /// Nothing was taken yet.
    pub open spec fn is_fresh(&self) -> bool {
        &&& self.tail() == empty_tail()
        &&& self.pending() == Seq::<u8>::empty()
        &&& !self.is_finished()
    }

    /// A fresh encoder.
    pub fn new() -> (e: Self)
        ensures
            e.inv(),
            e.is_fresh(),
    {
        Encoder { coder: Coder::new(), queue: Queue::new(), finished: false }
    }
}

impl Default for Encoder {
    fn default() -> (e: Self)
        ensures
            e.inv(),
            e.is_fresh(),
    {
        Encoder::new()
    }
}

impl RawEncoder for Encoder {
    closed spec fn inv(&self) -> bool {
        self.coder.inv() && self.queue.inv()
    }

    open spec fn encode_post(
        before: Self,
        input: Seq<u8>,
        old_output: Seq<u8>,
        after: Self,
        new_output: Seq<u8>,
        r: Result<RawProgress, Error>,
    ) -> bool {
        &&& r matches Ok(p)
        &&& !p.done
        &&& after.is_finished() == before.is_finished()
        &&& transduces(
            before.tail(),
            before.pending(),
            input,
            old_output,
            after.tail(),
            after.pending(),
            new_output,
            p.consumed as int,
            p.written as int,
        )
    }

    open spec fn finish_post(
        before: Self,
        old_output: Seq<u8>,
        after: Self,
        new_output: Seq<u8>,
        r: Result<RawProgress, Error>,
    ) -> bool {
        let all = if before.is_finished() {
            before.pending()
        } else {
            before.pending() + before.tail().finale()
        };
        let n = least(all.len(), old_output.len());
        &&& r == Ok::<RawProgress, Error>(
            RawProgress { consumed: 0, written: n as usize, done: n == all.len() },
        )
        &&& new_output == stored(old_output, all.take(n as int))
        &&& after.pending() == all.skip(n as int)
        &&& after.is_finished()
        &&& after.tail() == (if before.is_finished() {
            before.tail()
        } else {
            empty_tail()
        })
    }

    open spec fn reset_post(before: Self, after: Self) -> bool {
        after.is_fresh()
    }

    fn raw_encode(&mut self, input: &[u8], output: &mut [u8]) -> (r: Result<RawProgress, Error>) {
        let (consumed, written): (usize, usize) = drive(
            &mut self.coder,
            &mut self.queue,
            input,
            output,
        );
        assert(output@.skip(written as int) =~= old(output)@.skip(written as int));
        Ok(RawProgress { consumed, written, done: false })
    }

    fn raw_finish(&mut self, output: &mut [u8]) -> (r: Result<RawProgress, Error>) {
        if !self.finished {
            self.coder.finalize(&mut self.queue);
            self.finished = true;
        }
        let written: usize = self.queue.drain(output, 0);
        let done = self.queue.is_empty();
        assert(output@.skip(written as int) =~= old(output)@.skip(written as int));
        Ok(RawProgress { consumed: 0, written, done })
    }

    fn raw_reset(&mut self) {
        self.coder = Coder::new();
        self.queue.clear();
        self.finished = false;
    }
}

#[derive(Debug, Clone, Copy)]
enum DecState {
    /// Before a control byte.
    Header,
    /// Before `remaining` more literal bytes.
    Literal { remaining: u8 },
    /// Before the byte to repeat.
    NeedRunByte { count: u8 },
    /// `byte` is still owed `remaining` times.
    Run { byte: u8, remaining: u8 },
}

/// Streaming PackBits decoder.
#[derive(Debug, Clone, Copy)]
pub struct Decoder {
    state: DecState,
}

impl Decoder {
    /// Where in the code the decoder stands.
    pub closed spec fn place(&self) -> Place {
        match self.state {
            DecState::Literal { remaining } if remaining > 0 => Place::Literal {
                remaining: remaining as nat,
            },
            DecState::NeedRunByte { count } => Place::RunByte { count: count as nat },
            _ => Place::Header,
        }
    }

    /// Decoded bytes that wait for room.
    pub closed spec fn pending(&self) -> Seq<u8> {
        match self.state {
            DecState::Run { byte, remaining } => copies(byte, remaining as nat),
            _ => Seq::empty(),
        }
    }

    /// Nothing was taken yet.
    pub open spec fn is_fresh(&self) -> bool {
        self.place() is Header && self.pending() == Seq::<u8>::empty()
    }

    /// A fresh decoder.
    pub fn new() -> (d: Self)
        ensures
            d.is_fresh(),
    {
        Decoder { state: DecState::Header }
    }
}

impl Default for Decoder {
    fn default() -> (d: Self)
        ensures
            d.is_fresh(),
    {
        Decoder::new()
    }
}

impl RawDecoder for Decoder {
    open spec fn inv(&self) -> bool {
        true
    }

    open spec fn decode_post(
        before: Self,
        input: Seq<u8>,
        old_output: Seq<u8>,
        after: Self,
        new_output: Seq<u8>,
        r: Result<RawProgress, Error>,
    ) -> bool {
        &&& r matches Ok(p)
        &&& !p.done
        &&& transduces(
            before.place(),
            before.pending(),
            input,
            old_output,
            after.place(),
            after.pending(),
            new_output,
            p.consumed as int,
            p.written as int,
        )
    }

    open spec fn finish_post(
        before: Self,
        old_output: Seq<u8>,
        after: Self,
        new_output: Seq<u8>,
        r: Result<RawProgress, Error>,
    ) -> bool {
        let n = least(before.pending().len(), old_output.len());
        &&& after.place() == before.place()
        &&& after.pending() == before.pending().skip(n as int)
        &&& new_output == stored(old_output, before.pending().take(n as int))
        &&& r == (if before.place() is Header {
            Ok::<RawProgress, Error>(
                RawProgress {
                    consumed: 0,
                    written: n as usize,
                    done: n == before.pending().len(),
                },
            )
        } else {
            Err(Error::UnexpectedEnd)
        })
    }

    open spec fn reset_post(before: Self, after: Self) -> bool {
        after.is_fresh()
    }

    fn raw_decode(&mut self, input: &[u8], output: &mut [u8]) -> (r: Result<RawProgress, Error>) {
        let ghost m = self.place();
        let ghost pending = self.pending();
        let ghost out0 = output@;
        let mut consumed: usize = 0;
        let mut written: usize = 0;
        proof {
            midway_start(m, pending, input@, out0);
        }
        loop
            invariant
                m == old(self).place(),
                pending == old(self).pending(),
                out0 == old(output)@,
                consumed <= input@.len(),
                written <= out0.len(),
                output@.len() == out0.len(),
                midway(
                    m,
                    pending,
                    input@,
                    out0,
                    self.place(),
                    self.pending(),
                    output@,
                    consumed as int,
                    written as int,
                ),
            decreases
                    input@.len() - consumed,
                    out0.len() - written,
                    (if self.state is Header {
                        0int
                    } else {
                        1int
                    }),
        {
            let ghost old_pending = self.pending();
            match self.state {
                DecState::Header => {
                    if consumed == input.len() {
                        proof {
                            midway_stop(
                                m,
                                pending,
                                input@,
                                out0,
                                self.place(),
                                self.pending(),
                                output@,
                                consumed as int,
                                written as int,
                            );
                        }
                        return Ok(RawProgress { consumed, written, done: false });
                    }
                    proof {
                        midway_take(
                            m,
                            pending,
                            input@,
                            out0,
                            self.place(),
                            self.pending(),
                            output@,
                            consumed as int,
                            written as int,
                        );
                    }
                    let b = input[consumed];
                    consumed = consumed + 1;
                    if b < 128 {
                        self.state = DecState::Literal { remaining: b + 1 };
                    } else if b > 128 {
                        self.state = DecState::NeedRunByte { count: (257 - b as usize) as u8 };
                    }
                },
                DecState::Literal { remaining } => {
                    if remaining == 0 {
                        self.state = DecState::Header;
                        continue;
                    }
                    if consumed == input.len() || written == output.len() {
                        proof {
                            midway_stop(
                                m,
                                pending,
                                input@,
                                out0,
                                self.place(),
                                self.pending(),
                                output@,
                                consumed as int,
                                written as int,
                            );
                        }
                        return Ok(RawProgress { consumed, written, done: false });
                    }
                    proof {
                        midway_take(
                            m,
                            pending,
                            input@,
                            out0,
                            self.place(),
                            self.pending(),
                            output@,
                            consumed as int,
                            written as int,
                        );
                    }
                    let b = input[consumed];
                    consumed = consumed + 1;
                    self.state = if remaining == 1 {
                        DecState::Header
                    } else {
                        DecState::Literal { remaining: remaining - 1 }
                    };
                    proof {
                        midway_store(
                            m,
                            pending,
                            input@,
                            out0,
                            self.place(),
                            seq![b],
                            output@,
                            consumed as int,
                            written as int,
                        );
                        assert(seq![b].skip(1) =~= self.pending());
                    }
                    output[written] = b;
                    written = written + 1;
                },
                DecState::NeedRunByte { count } => {
                    if consumed == input.len() {
                        proof {
                            midway_stop(
                                m,
                                pending,
                                input@,
                                out0,
                                self.place(),
                                self.pending(),
                                output@,
                                consumed as int,
                                written as int,
                            );
                        }
                        return Ok(RawProgress { consumed, written, done: false });
                    }
                    proof {
                        midway_take(
                            m,
                            pending,
                            input@,
                            out0,
                            self.place(),
                            self.pending(),
                            output@,
                            consumed as int,
                            written as int,
                        );
                    }
                    let byte = input[consumed];
                    consumed = consumed + 1;
                    self.state = DecState::Run { byte, remaining: count };
                },
                DecState::Run { byte, remaining } => {
                    if remaining == 0 {
                        self.state = DecState::Header;
                        assert(self.pending() =~= old_pending);
                        continue;
                    }
                    if written == output.len() {
                        proof {
                            midway_stop(
                                m,
                                pending,
                                input@,
                                out0,
                                self.place(),
                                self.pending(),
                                output@,
                                consumed as int,
                                written as int,
                            );
                        }
                        return Ok(RawProgress { consumed, written, done: false });
                    }
                    proof {
                        midway_store(
                            m,
                            pending,
                            input@,
                            out0,
                            self.place(),
                            self.pending(),
                            output@,
                            consumed as int,
                            written as int,
                        );
                    }
                    output[written] = byte;
                    written = written + 1;
                    self.state = DecState::Run { byte, remaining: (remaining - 1) as u8 };
                    assert(self.pending() =~= old_pending.skip(1));
                },
            }
        }
    }

    fn raw_finish(&mut self, output: &mut [u8]) -> (r: Result<RawProgress, Error>) {
        let ghost pending = self.pending();
        let ghost out0 = output@;
        let mut written: usize = 0;
        if let DecState::Run { byte, remaining } = self.state {
            let n: usize = if (remaining as usize) <= output.len() {
                remaining as usize
            } else {
                output.len()
            };
            while written < n
                invariant
                    written <= n <= remaining,
                    n <= out0.len(),
                    output@.len() == out0.len(),
                    forall|i: int| 0 <= i < written ==> output@[i] == byte,
                    forall|i: int| written <= i < out0.len() ==> output@[i] == out0[i],
                decreases n - written,
            {
                output[written] = byte;
                written = written + 1;
            }
            self.state = DecState::Run { byte, remaining: (remaining - n as u8) as u8 };
        }
        assert(output@ =~= stored(out0, pending.take(written as int)));
        assert(self.pending() =~= pending.skip(written as int));
        assert(output@.skip(written as int) =~= out0.skip(written as int));
        match self.state {
            DecState::Header => Ok(RawProgress { consumed: 0, written, done: true }),
            DecState::Run { byte: _, remaining } => Ok(
                RawProgress { consumed: 0, written, done: remaining == 0 },
            ),
            DecState::Literal { remaining: 0 } => Ok(
                RawProgress { consumed: 0, written, done: true },
            ),
            DecState::Literal { .. } => Err(Error::UnexpectedEnd),
            DecState::NeedRunByte { .. } => Err(Error::UnexpectedEnd),
        }
    }

    fn raw_reset(&mut self) {
        self.state = DecState::Header;
    }
}

} // verus!
