//! RLE90: the `0x90` run-length code of ARC ("packed") and classic StuffIt.
//!
//! Bytes stand for themselves but for the marker `0x90`. After a byte `b`, the
//! marker and a count `n` say that `b` occurs `n` times in all, so that the
//! decoder adds `n - 1` copies; a count of one adds nothing. The marker and a
//! zero stand for a literal `0x90`. A non-zero count before any byte is corrupt,
//! and input that ends right after a marker is truncated.
//!
//! There is no header, trailer or length prefix. The decoder never makes more
//! output than the caller's slice holds: the rest of a run is owed, not stored.
use vstd::prelude::*;

use crate::error::Error;
use crate::machine::{drive, Feeder, Machine, Queue};
use crate::machine::{after, emission, taking_is_streaming, taking_one, transduces};
use crate::machine::{midway, midway_start, midway_stop, midway_store, midway_take};
use crate::traits::{Algorithm, RawDecoder, RawEncoder, RawProgress};
use crate::traits::{least, stored};

verus! {

/// The marker byte.
pub const FLAG: u8 = 0x90;

/// Shortest run that is coded with a count.
pub const MIN_RUN: usize = 3;

/// Most copies that one count covers.
pub const MAX_RUN: usize = 255;

/// Marker type of the RLE90 codec.
#[derive(Debug, Clone, Copy, Default)]
pub struct Rle90;

impl Algorithm for Rle90 {
    const NAME: &'static str = "rle90";

    type Encoder = Encoder;

    type Decoder = Decoder;

    type EncoderConfig = ();

    type DecoderConfig = ();

    open spec fn is_encoder_with(config: (), e: Encoder) -> bool {
        e.inv() && e.is_fresh()
    }

    open spec fn is_decoder_with(config: (), d: Decoder) -> bool {
        d.inv() && d.is_fresh()
    }

    fn encoder_with(config: ()) -> (e: Encoder) {
        Encoder::new()
    }

    fn decoder_with(config: ()) -> (d: Decoder) {
        Decoder::new()
    }
}

/// `n` copies of `b`.
pub open spec fn copies(b: u8, n: nat) -> Seq<u8> {
    Seq::new(n, |i: int| b)
}

/// A byte that stands for itself; the marker is escaped.
pub open spec fn literal(b: u8) -> Seq<u8> {
    if b == FLAG {
        seq![FLAG, 0u8]
    } else {
        seq![b]
    }
}

/// `n` literals.
pub open spec fn literals(b: u8, n: nat) -> Seq<u8>
    decreases n,
{
    if n == 0 {
        Seq::empty()
    } else {
        literals(b, (n - 1) as nat) + literal(b)
    }
}

/// The code of a run. The marker itself cannot lead a counted run.
pub open spec fn run_code(b: u8, n: nat) -> Seq<u8> {
    if b == FLAG || n < MIN_RUN {
        literals(b, n)
    } else {
        seq![b, FLAG, n as u8]
    }
}

/// The run that the encoder has taken and not yet coded.
pub struct Tail {
    /// The byte that repeats at the end of the input, and how often.
    pub run: Option<(u8, nat)>,
}

/// The tail of an encoder that has taken nothing.
pub open spec fn empty_tail() -> Tail {
    Tail { run: None }
}

impl Tail {
    /// The bytes the tail stands for.
    pub open spec fn bytes(self) -> Seq<u8> {
        match self.run {
            Some((b, n)) => copies(b, n),
            None => Seq::empty(),
        }
    }

    /// The bounds that taking bytes keeps.
    pub open spec fn bounded(self) -> bool {
        self.run matches Some((b, n)) ==> 1 <= n <= MAX_RUN
    }

    /// What is coded when the run ends.
    pub open spec fn finale(self) -> Seq<u8> {
        match self.run {
            Some((b, n)) => run_code(b, n),
            None => Seq::empty(),
        }
    }
}

impl Machine for Tail {
    open spec fn fed(self, b: u8) -> Self {
        match self.run {
            Some((byte, n)) => if byte == b && n < MAX_RUN {
                Tail { run: Some((byte, n + 1)) }
            } else {
                Tail { run: Some((b, 1)) }
            },
            None => Tail { run: Some((b, 1)) },
        }
    }

    open spec fn emits(self, b: u8) -> Seq<u8> {
        match self.run {
            Some((byte, n)) => if byte == b && n < MAX_RUN {
                Seq::empty()
            } else {
                run_code(byte, n)
            },
            None => Seq::empty(),
        }
    }

    open spec fn room(self, b: u8) -> nat {
        0
    }

    open spec fn halted(self) -> bool {
        false
    }
}

/// The RLE90 code of `data`.
pub open spec fn encoded(data: Seq<u8>) -> Seq<u8> {
    emission(empty_tail(), data) + after(empty_tail(), data).finale()
}

/// Where in the code a decoder stands.
pub struct Place {
    /// The byte that a count would repeat.
    pub last: Option<u8>,
    /// The last byte taken was a marker whose count is still to come.
    pub marked: bool,
    /// The stream was found corrupt or truncated.
    pub poisoned: bool,
}

/// The place before the first byte.
pub open spec fn start() -> Place {
    Place { last: None, marked: false, poisoned: false }
}

impl Machine for Place {
    open spec fn fed(self, b: u8) -> Self {
        if !self.marked {
            if b == FLAG {
                Place { marked: true, ..self }
            } else {
                Place { last: Some(b), ..self }
            }
        } else if b == 0 {
            Place { last: Some(FLAG), marked: false, ..self }
        } else if self.last is None {
            Place { poisoned: true, ..self }
        } else {
            Place { marked: false, ..self }
        }
    }

    open spec fn emits(self, b: u8) -> Seq<u8> {
        if !self.marked {
            if b == FLAG {
                Seq::empty()
            } else {
                seq![b]
            }
        } else if b == 0 {
            seq![FLAG]
        } else {
            match self.last {
                Some(last) => copies(last, (b - 1) as nat),
                None => Seq::empty(),
            }
        }
    }

    open spec fn room(self, b: u8) -> nat {
        if !self.marked && b != FLAG {
            1
        } else {
            0
        }
    }

    open spec fn halted(self) -> bool {
        self.poisoned
    }
}

/// The bytes that the code `data` stands for.
pub open spec fn decoded(data: Seq<u8>) -> Seq<u8> {
    emission(start(), data)
}

/// The code `data` is sound and ends between two symbols.
pub open spec fn complete(data: Seq<u8>) -> bool {
    after(start(), data).at_boundary()
}

impl Place {
    /// Sound, and between two symbols.
    pub open spec fn at_boundary(self) -> bool {
        !self.marked && !self.poisoned
    }
}

proof fn lemma_literals(p: Place, b: u8, n: nat)
    requires
        p.at_boundary(),
    ensures
        after(p, literals(b, n)).at_boundary(),
        emission(p, literals(b, n)) == copies(b, n),
    decreases n,
{
    if n == 0 {
        assert(emission(p, literals(b, n)) =~= copies(b, n));
    } else {
        let init = literals(b, (n - 1) as nat);
        lemma_literals(p, b, (n - 1) as nat);
        let q = after(p, init);
        taking_is_streaming(p, init, literal(b));
        if b == FLAG {
            taking_one(q, FLAG);
            taking_one(q.fed(FLAG), 0);
            assert(literal(b) =~= seq![FLAG] + seq![0u8]);
            taking_is_streaming(q, seq![FLAG], seq![0u8]);
        } else {
            taking_one(q, b);
        }
        assert(emission(p, literals(b, n)) =~= copies(b, n));
    }
}

proof fn lemma_run_code(p: Place, b: u8, n: nat)
    requires
        p.at_boundary(),
        1 <= n <= MAX_RUN,
    ensures
        after(p, run_code(b, n)).at_boundary(),
        emission(p, run_code(b, n)) == copies(b, n),
{
    if b == FLAG || n < MIN_RUN {
        lemma_literals(p, b, n);
    } else {
        let q = p.fed(b);
        taking_one(p, b);
        taking_one(q, FLAG);
        taking_one(q.fed(FLAG), n as u8);
        taking_is_streaming(q, seq![FLAG], seq![n as u8]);
        taking_is_streaming(p, seq![b], seq![FLAG] + seq![n as u8]);
        assert(run_code(b, n) =~= seq![b] + (seq![FLAG] + seq![n as u8]));
        assert(emission(p, run_code(b, n)) =~= copies(b, n));
    }
}

proof fn lemma_prefix(data: Seq<u8>)
    ensures
        after(empty_tail(), data).bounded(),
        complete(emission(empty_tail(), data)),
        decoded(emission(empty_tail(), data)) + after(empty_tail(), data).bytes() == data,
    decreases data.len(),
{
    let head = emission(empty_tail(), data);
    if data.len() > 0 {
        let init = data.drop_last();
        let b = data.last();
        lemma_prefix(init);
        let t = after(empty_tail(), init);
        let done = emission(empty_tail(), init);
        taking_is_streaming(start(), done, t.emits(b));
        match t.run {
            Some((byte, n)) => {
                if byte == b && n < MAX_RUN {
                    assert(head =~= done);
                } else {
                    lemma_run_code(after(start(), done), byte, n);
                }
            },
            None => {
                assert(head =~= done);
            },
        }
        assert(data =~= init.push(b));
        assert(decoded(head) + after(empty_tail(), data).bytes() =~= data);
    } else {
        assert(decoded(head) + after(empty_tail(), data).bytes() =~= data);
    }
}

/// A piece of code, whoever wrote it.
pub enum Item {
    /// A byte that is no marker.
    Byte { b: u8 },
    /// The byte that is the marker.
    Marker,
    /// The byte before, so often in all.
    Repeat { n: nat },
}

/// The bytes of a piece.
pub open spec fn item_written(k: Item) -> Seq<u8> {
    match k {
        Item::Byte { b } => seq![b],
        Item::Marker => seq![0x90u8, 0u8],
        Item::Repeat { n } => seq![0x90u8, n as u8],
    }
}

/// What is said with a piece behind `out`.
pub open spec fn item_said(out: Seq<u8>, k: Item) -> Seq<u8> {
    match k {
        Item::Byte { b } => out.push(b),
        Item::Marker => out.push(0x90u8),
        Item::Repeat { n } => out + Seq::new((n - 1) as nat, |i: int| out.last()),
    }
}

/// The piece can be written behind `out`.
pub open spec fn item_writable(out: Seq<u8>, k: Item) -> bool {
    match k {
        Item::Byte { b } => b != 0x90,
        Item::Marker => true,
        Item::Repeat { n } => out.len() > 0 && 1 <= n <= 255,
    }
}

/// The bytes of all pieces.
pub open spec fn items_written(ks: Seq<Item>) -> Seq<u8>
    decreases ks.len(),
{
    if ks.len() == 0 {
        Seq::empty()
    } else {
        items_written(ks.drop_last()) + item_written(ks.last())
    }
}

/// What all pieces say.
pub open spec fn items_said(ks: Seq<Item>) -> Seq<u8>
    decreases ks.len(),
{
    if ks.len() == 0 {
        Seq::empty()
    } else {
        item_said(items_said(ks.drop_last()), ks.last())
    }
}

/// All pieces can be written, one behind the other.
pub open spec fn items_writable(ks: Seq<Item>) -> bool
    decreases ks.len(),
{
    ks.len() > 0 ==> items_writable(ks.drop_last()) && item_writable(
        items_said(ks.drop_last()),
        ks.last(),
    )
}

proof fn lemma_items(ks: Seq<Item>)
    requires
        items_writable(ks),
    ensures
        complete(items_written(ks)),
        decoded(items_written(ks)) == items_said(ks),
        ({
            let p = after(start(), items_written(ks));
            let said = items_said(ks);
            p.last == if said.len() == 0 {
                None::<u8>
            } else {
                Some(said.last())
            }
        }),
    decreases ks.len(),
{
    if ks.len() > 0 {
        let init = ks.drop_last();
        lemma_items(init);
        let code = items_written(init);
        let p = after(start(), code);
        let k = ks.last();
        let w = item_written(k);
        taking_is_streaming(start(), code, w);
        taking_one(p, w[0]);
        match k {
            Item::Byte { b } => {
                assert(w =~= seq![w[0]]);
            },
            Item::Marker => {
                taking_one(p.fed(w[0]), w[1]);
                taking_is_streaming(p, seq![w[0]], seq![w[1]]);
                assert(w =~= seq![w[0]] + seq![w[1]]);
            },
            Item::Repeat { n } => {
                taking_one(p.fed(w[0]), w[1]);
                taking_is_streaming(p, seq![w[0]], seq![w[1]]);
                assert(w =~= seq![w[0]] + seq![w[1]]);
            },
        }
        assert(decoded(items_written(ks)) =~= items_said(ks));
    }
}

/// All code is read back: any pieces, in any order, say what they say.
pub proof fn items_read_back(ks: Seq<Item>)
    requires
        items_writable(ks),
    ensures
        complete(items_written(ks)),
        decoded(items_written(ks)) == items_said(ks),
{
    lemma_items(ks);
}

/// Decoding inverts encoding: the code of `data` is complete and stands for
/// `data`.
pub proof fn decode_inverts_encode(data: Seq<u8>)
    ensures
        complete(encoded(data)),
        decoded(encoded(data)) == data,
{
    lemma_prefix(data);
    let t = after(empty_tail(), data);
    let head = emission(empty_tail(), data);
    taking_is_streaming(start(), head, t.finale());
    match t.run {
        Some((b, n)) => {
            lemma_run_code(after(start(), head), b, n);
        },
        None => {
            assert(encoded(data) =~= head);
        },
    }
    assert(decoded(encoded(data)) =~= data);
}

proof fn lemma_stays_poisoned(p: Place, data: Seq<u8>)
    requires
        p.poisoned,
    ensures
        after(p, data).poisoned,
    decreases data.len(),
{
    if data.len() > 0 {
        lemma_stays_poisoned(p, data.drop_last());
    }
}

/// A count with nothing to repeat makes nothing, halts the decoder and spoils the
/// stream, whatever follows.
pub proof fn count_without_byte_is_corrupt(n: u8, rest: Seq<u8>)
    requires
        n != 0,
    ensures
        decoded(seq![FLAG, n]) == Seq::<u8>::empty(),
        after(start(), seq![FLAG, n]).halted(),
        !complete(seq![FLAG, n] + rest),
{
    taking_one(start(), FLAG);
    taking_one(start().fed(FLAG), n);
    taking_is_streaming(start(), seq![FLAG], seq![n]);
    assert(seq![FLAG, n] =~= seq![FLAG] + seq![n]);
    taking_is_streaming(start(), seq![FLAG, n], rest);
    lemma_stays_poisoned(after(start(), seq![FLAG, n]), rest);
}

/// Two bytes of code stand for no more than 254 bytes.
pub proof fn expansion_is_bounded(data: Seq<u8>)
    ensures
        decoded(data).len() <= 127 * data.len(),
{
    lemma_expansion(data);
}

proof fn lemma_expansion(data: Seq<u8>)
    ensures
        decoded(data).len() <= 127 * data.len(),
        after(start(), data).marked ==> data.len() > 0 && decoded(data).len() <= 127 * (data.len()
            - 1),
    decreases data.len(),
{
    if data.len() > 0 {
        lemma_expansion(data.drop_last());
    }
}

/// The run at the end of the input.
#[derive(Debug)]
struct Coder {
    run: Option<(u8, usize)>,
}

impl Coder {
    /// Codes a byte that stands for itself.
    fn emit_literal(b: u8, queue: &mut Queue)
        requires
            old(queue).inv(),
        ensures
            final(queue).inv(),
            final(queue)@ == old(queue)@ + literal(b),
    {
        queue.push(b);
        if b == FLAG {
            queue.push(0);
        }
        assert(queue@ =~= old(queue)@ + literal(b));
    }

    /// Codes the run.
    fn flush_run(&mut self, queue: &mut Queue)
        requires
            old(self).inv(),
            old(queue).inv(),
        ensures
            final(self).inv(),
            final(queue).inv(),
            final(queue)@ == old(queue)@ + old(self).state().finale(),
            final(self).state() == empty_tail(),
    {
        if let Some((byte, count)) = self.run {
            if byte == FLAG || count < MIN_RUN {
                let mut i: usize = 0;
                assert(queue@ =~= old(queue)@ + literals(byte, 0));
                while i < count
                    invariant
                        i <= count,
                        queue.inv(),
                        queue@ == old(queue)@ + literals(byte, i as nat),
                    decreases count - i,
                {
                    Self::emit_literal(byte, queue);
                    i = i + 1;
                    assert(queue@ =~= old(queue)@ + literals(byte, i as nat));
                }
            } else {
                queue.push(byte);
                queue.push(FLAG);
                queue.push(count as u8);
            }
        }
        assert(queue@ =~= old(queue)@ + self.state().finale());
        self.run = None;
    }
}

impl Feeder for Coder {
    type State = Tail;

    closed spec fn state(&self) -> Tail {
        Tail {
            run: match self.run {
                Some((b, n)) => Some((b, n as nat)),
                None => None,
            },
        }
    }

    closed spec fn inv(&self) -> bool {
        self.state().bounded()
    }

    fn is_halted(&self) -> (r: bool) {
        assert(!self.state().halted());
        false
    }

    fn feed(&mut self, b: u8, queue: &mut Queue) {
        let ghost t = self.state();
        match self.run {
            Some((byte, count)) => {
                if byte == b && count < MAX_RUN {
                    self.run = Some((byte, count + 1));
                } else {
                    self.flush_run(queue);
                    self.run = Some((b, 1));
                }
            },
            None => {
                self.run = Some((b, 1));
            },
        }
        assert(queue@ =~= old(queue)@ + t.emits(b));
    }
}

/// Streaming RLE90 encoder.
#[derive(Debug)]
pub struct Encoder {
    coder: Coder,
    queue: Queue,
    finished: bool,
}

impl Encoder {
    /// What was taken and not yet coded.
    pub closed spec fn tail(&self) -> Tail {
        self.coder.state()
    }

    /// Coded bytes that wait for room.
    pub closed spec fn pending(&self) -> Seq<u8> {
        self.queue@
    }

    /// The end of the input was signalled.
    pub closed spec fn is_finished(&self) -> bool {
        self.finished
    }

    /// Nothing was taken yet.
    pub open spec fn is_fresh(&self) -> bool {
        &&& self.tail() == empty_tail()
        &&& self.pending() == Seq::<u8>::empty()
        &&& !self.is_finished()
    }

    /// A fresh encoder.
    pub fn new() -> (e: Self)
        ensures
            e.inv(),
            e.is_fresh(),
    {
        Encoder { coder: Coder { run: None }, queue: Queue::new(), finished: false }
    }
}

impl Default for Encoder {
    fn default() -> (e: Self)
        ensures
            e.inv(),
            e.is_fresh(),
    {
        Encoder::new()
    }
}

impl RawEncoder for Encoder {
    closed spec fn inv(&self) -> bool {
        self.coder.inv() && self.queue.inv()
    }

    open spec fn encode_post(
        before: Self,
        input: Seq<u8>,
        old_output: Seq<u8>,
        after: Self,
        new_output: Seq<u8>,
        r: Result<RawProgress, Error>,
    ) -> bool {
        &&& r matches Ok(p)
        &&& !p.done
        &&& after.is_finished() == before.is_finished()
        &&& transduces(
            before.tail(),
            before.pending(),
            input,
            old_output,
            after.tail(),
            after.pending(),
            new_output,
            p.consumed as int,
            p.written as int,
        )
    }

    open spec fn finish_post(
        before: Self,
        old_output: Seq<u8>,
        after: Self,
        new_output: Seq<u8>,
        r: Result<RawProgress, Error>,
    ) -> bool {
        let all = if before.is_finished() {
            before.pending()
        } else {
            before.pending() + before.tail().finale()
        };
        let n = least(all.len(), old_output.len());
        &&& r == Ok::<RawProgress, Error>(
            RawProgress { consumed: 0, written: n as usize, done: n == all.len() },
        )
        &&& new_output == stored(old_output, all.take(n as int))
        &&& after.pending() == all.skip(n as int)
        &&& after.is_finished()
        &&& after.tail() == (if before.is_finished() {
            before.tail()
        } else {
            empty_tail()
        })
    }

    open spec fn reset_post(before: Self, after: Self) -> bool {
        after.is_fresh()
    }

    fn raw_encode(&mut self, input: &[u8], output: &mut [u8]) -> (r: Result<RawProgress, Error>) {
        let (consumed, written): (usize, usize) = drive(
            &mut self.coder,
            &mut self.queue,
            input,
            output,
        );
        assert(output@.skip(written as int) =~= old(output)@.skip(written as int));
        Ok(RawProgress { consumed, written, done: false })
    }

    fn raw_finish(&mut self, output: &mut [u8]) -> (r: Result<RawProgress, Error>) {
        if !self.finished {
            self.coder.flush_run(&mut self.queue);
            self.finished = true;
        }
        let written: usize = self.queue.drain(output, 0);
        let done = self.queue.is_empty();
        assert(output@.skip(written as int) =~= old(output)@.skip(written as int));
        Ok(RawProgress { consumed: 0, written, done })
    }

    fn raw_reset(&mut self) {
        self.coder = Coder { run: None };
        self.queue.clear();
        self.finished = false;
    }
}

#[derive(Debug, Clone, Copy)]
enum DecState {
    /// Between two symbols.
    Normal,
    /// After a marker.
    AwaitCount,
    /// `byte` is still owed `remaining` times.
    Run { byte: u8, remaining: u8 },
}

/// Streaming RLE90 decoder. Once a call has failed, every further call fails
/// until a reset.
#[derive(Debug, Clone, Copy)]
pub struct Decoder {
    state: DecState,
    last: u8,
    have_last: bool,
    poisoned: bool,
}

impl Decoder {
    /// Where in the code the decoder stands.
    pub closed spec fn place(&self) -> Place {
        Place {
            last: if self.have_last {
                Some(self.last)
            } else {
                None
            },
            marked: self.state is AwaitCount,
            poisoned: self.poisoned,
        }
    }

    /// Decoded bytes that wait for room.
    pub closed spec fn pending(&self) -> Seq<u8> {
        match self.state {
            DecState::Run { byte, remaining } => copies(byte, remaining as nat),
            _ => Seq::empty(),
        }
    }

    /// Nothing was taken yet.
    pub open spec fn is_fresh(&self) -> bool {
        self.place() == start() && self.pending() == Seq::<u8>::empty()
    }

    /// A fresh decoder.
    pub fn new() -> (d: Self)
        ensures
            d.inv(),
            d.is_fresh(),
    {
        Decoder { state: DecState::Normal, last: 0, have_last: false, poisoned: false }
    }
}

impl Default for Decoder {
    fn default() -> (d: Self)
        ensures
            d.inv(),
            d.is_fresh(),
    {
        Decoder::new()
    }
}

impl RawDecoder for Decoder {
    closed spec fn inv(&self) -> bool {
        self.poisoned ==> self.state is AwaitCount
    }

    open spec fn decode_post(
        before: Self,
        input: Seq<u8>,
        old_output: Seq<u8>,
        after: Self,
        new_output: Seq<u8>,
        r: Result<RawProgress, Error>,
    ) -> bool {
        exists|consumed: int, written: int|
            {
                &&& #[trigger] transduces(
                    before.place(),
                    before.pending(),
                    input,
                    old_output,
                    after.place(),
                    after.pending(),
                    new_output,
                    consumed,
                    written,
                )
                &&& r == (if after.place().poisoned {
                    Err::<RawProgress, Error>(Error::Corrupt)
                } else {
                    Ok(
                        RawProgress {
                            consumed: consumed as usize,
                            written: written as usize,
                            done: false,
                        },
                    )
                })
            }
    }

    open spec fn finish_post(
        before: Self,
        old_output: Seq<u8>,
        after: Self,
        new_output: Seq<u8>,
        r: Result<RawProgress, Error>,
    ) -> bool {
        let n = least(before.pending().len(), old_output.len());
        &&& after.place() == (Place {
            poisoned: before.place().poisoned || before.place().marked,
            ..before.place()
        })
        &&& after.pending() == before.pending().skip(n as int)
        &&& new_output == stored(old_output, before.pending().take(n as int))
        &&& r == (if before.place().poisoned {
            Err::<RawProgress, Error>(Error::Corrupt)
        } else if before.place().marked {
            Err(Error::UnexpectedEnd)
        } else {
            Ok(
                RawProgress {
                    consumed: 0,
                    written: n as usize,
                    done: n == before.pending().len(),
                },
            )
        })
    }

    open spec fn reset_post(before: Self, after: Self) -> bool {
        after.is_fresh()
    }

    fn raw_decode(&mut self, input: &[u8], output: &mut [u8]) -> (r: Result<RawProgress, Error>) {
        let ghost m = self.place();
        let ghost pending = self.pending();
        let ghost out0 = output@;
        let mut consumed: usize = 0;
        let mut written: usize = 0;
        proof {
            midway_start(m, pending, input@, out0);
        }
        if self.poisoned {
            proof {
                midway_stop(
                    m,
                    pending,
                    input@,
                    out0,
                    self.place(),
                    self.pending(),
                    output@,
                    consumed as int,
                    written as int,
                );
            }
            return Err(Error::Corrupt);
        }
        loop
            invariant
                m == old(self).place(),
                pending == old(self).pending(),
                out0 == old(output)@,
                !self.poisoned,
                consumed <= input@.len(),
                written <= out0.len(),
                output@.len() == out0.len(),
                midway(
                    m,
                    pending,
                    input@,
                    out0,
                    self.place(),
                    self.pending(),
                    output@,
                    consumed as int,
                    written as int,
                ),
            decreases
                    input@.len() - consumed,
                    out0.len() - written,
                    (if self.state is Run {
                        1int
                    } else {
                        0int
                    }),
        {
            let ghost old_pending = self.pending();
            match self.state {
                DecState::Normal => {
                    if consumed == input.len() {
                        proof {
                            midway_stop(
                                m,
                                pending,
                                input@,
                                out0,
                                self.place(),
                                self.pending(),
                                output@,
                                consumed as int,
                                written as int,
                            );
                        }
                        return Ok(RawProgress { consumed, written, done: false });
                    }
                    let b = input[consumed];
                    if b != FLAG && written == output.len() {
                        proof {
                            midway_stop(
                                m,
                                pending,
                                input@,
                                out0,
                                self.place(),
                                self.pending(),
                                output@,
                                consumed as int,
                                written as int,
                            );
                        }
                        return Ok(RawProgress { consumed, written, done: false });
                    }
                    proof {
                        midway_take(
                            m,
                            pending,
                            input@,
                            out0,
                            self.place(),
                            self.pending(),
                            output@,
                            consumed as int,
                            written as int,
                        );
                    }
                    consumed = consumed + 1;
                    if b == FLAG {
                        self.state = DecState::AwaitCount;
                    } else {
                        self.last = b;
                        self.have_last = true;
                        proof {
                            midway_store(
                                m,
                                pending,
                                input@,
                                out0,
                                self.place(),
                                seq![b],
                                output@,
                                consumed as int,
                                written as int,
                            );
                            assert(seq![b].skip(1) =~= self.pending());
                        }
                        output[written] = b;
                        written = written + 1;
                    }
                },
                DecState::AwaitCount => {
                    if consumed == input.len() {
                        proof {
                            midway_stop(
                                m,
                                pending,
                                input@,
                                out0,
                                self.place(),
                                self.pending(),
                                output@,
                                consumed as int,
                                written as int,
                            );
                        }
                        return Ok(RawProgress { consumed, written, done: false });
                    }
                    proof {
                        midway_take(
                            m,
                            pending,
                            input@,
                            out0,
                            self.place(),
                            self.pending(),
                            output@,
                            consumed as int,
                            written as int,
                        );
                    }
                    let n = input[consumed];
                    consumed = consumed + 1;
                    if n == 0 {
                        self.last = FLAG;
                        self.have_last = true;
                        self.state = DecState::Run { byte: FLAG, remaining: 1 };
                        assert(self.pending() =~= seq![FLAG]);
                    } else {
                        if !self.have_last {
                            self.poisoned = true;
                            proof {
                                midway_stop(
                                    m,
                                    pending,
                                    input@,
                                    out0,
                                    self.place(),
                                    self.pending(),
                                    output@,
                                    consumed as int,
                                    written as int,
                                );
                            }
                            return Err(Error::Corrupt);
                        }
                        self.state = DecState::Run { byte: self.last, remaining: n - 1 };
                    }
                },
                DecState::Run { byte, remaining } => {
                    if remaining == 0 {
                        self.state = DecState::Normal;
                        assert(self.pending() =~= old_pending);
                        continue;
                    }
                    if written == output.len() {
                        proof {
                            midway_stop(
                                m,
                                pending,
                                input@,
                                out0,
                                self.place(),
                                self.pending(),
                                output@,
                                consumed as int,
                                written as int,
                            );
                        }
                        return Ok(RawProgress { consumed, written, done: false });
                    }
                    proof {
                        midway_store(
                            m,
                            pending,
                            input@,
                            out0,
                            self.place(),
                            self.pending(),
                            output@,
                            consumed as int,
                            written as int,
                        );
                    }
                    output[written] = byte;
                    written = written + 1;
                    self.state = DecState::Run { byte, remaining: (remaining - 1) as u8 };
                    assert(self.pending() =~= old_pending.skip(1));
                },
            }
        }
    }

    fn raw_finish(&mut self, output: &mut [u8]) -> (r: Result<RawProgress, Error>) {
        let ghost pending = self.pending();
        let ghost out0 = output@;
        let mut written: usize = 0;
        assert(pending.skip(0) =~= pending);
        assert(stored(out0, pending.take(0)) =~= out0);
        if self.poisoned {
            return Err(Error::Corrupt);
        }
        if let DecState::Run { byte, remaining } = self.state {
            let n: usize = if (remaining as usize) <= output.len() {
                remaining as usize
            } else {
                output.len()
            };
            while written < n
                invariant
                    written <= n <= remaining,
                    n <= out0.len(),
                    output@.len() == out0.len(),
                    forall|i: int| 0 <= i < written ==> output@[i] == byte,
                    forall|i: int| written <= i < out0.len() ==> output@[i] == out0[i],
                decreases n - written,
            {
                output[written] = byte;
                written = written + 1;
            }
            self.state = DecState::Run { byte, remaining: (remaining - n as u8) as u8 };
        }
        assert(output@ =~= stored(out0, pending.take(written as int)));
        assert(self.pending() =~= pending.skip(written as int));
        assert(output@.skip(written as int) =~= out0.skip(written as int));
        match self.state {
            DecState::Normal => Ok(RawProgress { consumed: 0, written, done: true }),
            DecState::Run { byte: _, remaining } => Ok(
                RawProgress { consumed: 0, written, done: remaining == 0 },
            ),
            DecState::AwaitCount => {
                self.poisoned = true;
                Err(Error::UnexpectedEnd)
            },
        }
    }

    fn raw_reset(&mut self) {
        self.state = DecState::Normal;
        self.last = 0;
        self.have_last = false;
        self.poisoned = false;
    }
}

} // verus!
