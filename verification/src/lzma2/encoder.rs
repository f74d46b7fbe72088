//! The encoder of raw LZMA2 streams.
use vstd::prelude::*;

use crate::error::Error;
use crate::lzma2_internal::lzma2_decoder::{chunk_read, fresh_core, props_of, Core};
use crate::lzma2_internal::lzma2_encoder::{chunk_code, chunk_reads_back, encode_lzma_chunk};
use crate::lzma2_internal::lzma2_encoder::{level_params, EncoderParams, LZMA2_PROPS_BYTE};
use crate::machine::{after, emission, taking_first, taking_is_streaming, taking_one, Machine};
use crate::machine::Queue;
use crate::traits::{idle, least, stored, RawEncoder, RawProgress};
use super::decoder::{chunk_size, code_size, default_props, header_len, opened, start, Place, Stage};

verus! {

/// How much input a chunk holds at most.
pub const ENC_CHUNK_MAX: usize = 65536;

/// How far back matches reach at most.
pub const ENC_DICT_SIZE: u32 = 4194304;

/// The level of compression.
pub const ENC_DEFAULT_LEVEL: u8 = 6;

/// The code of a piece of the input.
pub open spec fn body_of(data: Seq<u8>) -> Seq<u8> {
    chunk_code(data, ENC_DICT_SIZE, level_params(ENC_DEFAULT_LEVEL))
}

/// A chunk that holds `data` as it is.
pub open spec fn stored_frame(data: Seq<u8>) -> Seq<u8> {
    seq![1u8, ((data.len() - 1) / 256) as u8, ((data.len() - 1) % 256) as u8] + data
}

/// A chunk that holds the code of `data` and resets everything before.
pub open spec fn coded_frame(data: Seq<u8>, body: Seq<u8>) -> Seq<u8> {
    seq![
        0xE0u8,
        ((data.len() - 1) / 256) as u8,
        ((data.len() - 1) % 256) as u8,
        ((body.len() - 1) / 256) as u8,
        ((body.len() - 1) % 256) as u8,
        LZMA2_PROPS_BYTE,
    ] + body
}

/// The chunk for a piece of the input: coded where that is shorter.
pub open spec fn frame(data: Seq<u8>) -> Seq<u8> {
    if body_of(data).len() < data.len() {
        coded_frame(data, body_of(data))
    } else {
        stored_frame(data)
    }
}

/// The chunks for the full pieces of `data`, and the rest.
pub open spec fn cut(data: Seq<u8>) -> (Seq<u8>, Seq<u8>)
    decreases data.len(),
{
    if data.len() < ENC_CHUNK_MAX {
        (Seq::empty(), data)
    } else {
        let more = cut(data.skip(ENC_CHUNK_MAX as int));
        (frame(data.take(ENC_CHUNK_MAX as int)) + more.0, more.1)
    }
}

/// What follows the chunks of full pieces.
pub open spec fn tail(rest: Seq<u8>) -> Seq<u8> {
    if rest.len() == 0 {
        seq![0u8]
    } else {
        frame(rest) + seq![0u8]
    }
}

/// The stream for `data`.
pub open spec fn encoded(data: Seq<u8>) -> Seq<u8> {
    cut(data).0 + tail(cut(data).1)
}

/// What a call takes, stores and leaves.
pub struct Call {
    /// How much input it takes.
    pub consumed: nat,
    /// What it stores.
    pub stored: Seq<u8>,
    /// The input that waits for a full piece.
    pub buf: Seq<u8>,
    /// The output that waits.
    pub pending: Seq<u8>,
}

/// What a call with `room` for output does. It takes input in slices of at most
/// one piece, and no more while output waits.
pub open spec fn call(buf: Seq<u8>, pending: Seq<u8>, input: Seq<u8>, room: nat) -> Call
    decreases input.len(), pending.len(),
{
    if pending.len() > room {
        Call {
            consumed: 0,
            stored: pending.take(room as int),
            buf,
            pending: pending.skip(room as int),
        }
    } else if pending.len() > 0 {
        let r = call(buf, Seq::empty(), input, (room - pending.len()) as nat);
        Call { stored: pending + r.stored, ..r }
    } else if input.len() == 0 {
        Call { consumed: 0, stored: Seq::empty(), buf, pending: Seq::empty() }
    } else {
        let n = least(input.len(), ENC_CHUNK_MAX as nat);
        let all = buf + input.take(n as int);
        let r = if all.len() < ENC_CHUNK_MAX {
            call(all, Seq::empty(), input.skip(n as int), room)
        } else {
            call(
                all.skip(ENC_CHUNK_MAX as int),
                frame(all.take(ENC_CHUNK_MAX as int)),
                input.skip(n as int),
                room,
            )
        };
        Call { consumed: n + r.consumed, ..r }
    }
}

/// How the calls cut the input does not show: what a call stores and leaves waiting
/// is what waited before and the chunks of the pieces that became full.
pub proof fn calls_cut_the_input(buf: Seq<u8>, pending: Seq<u8>, input: Seq<u8>, room: nat)
    requires
        buf.len() < ENC_CHUNK_MAX,
    ensures
        ({
            let r = call(buf, pending, input, room);
            let fed = buf + input.take(r.consumed as int);
            &&& r.consumed <= input.len()
            &&& r.buf.len() < ENC_CHUNK_MAX
            &&& r.stored.len() <= room
            &&& r.stored + r.pending == pending + cut(fed).0
            &&& r.buf == cut(fed).1
        }),
    decreases input.len(), pending.len(),
{
    let r = call(buf, pending, input, room);
    if pending.len() > room {
        assert(input.take(0) =~= Seq::empty());
        assert(buf + input.take(0) =~= buf);
        assert(r.stored + r.pending =~= pending);
        assert(pending + cut(buf).0 =~= pending);
    } else if pending.len() > 0 {
        calls_cut_the_input(buf, Seq::empty(), input, (room - pending.len()) as nat);
        let q = call(buf, Seq::empty(), input, (room - pending.len()) as nat);
        let fed = buf + input.take(r.consumed as int);
        assert(Seq::<u8>::empty() + cut(fed).0 =~= cut(fed).0);
        assert(r.stored + r.pending =~= pending + (q.stored + q.pending));
    } else if input.len() == 0 {
        assert(buf + input.take(0) =~= buf);
        assert(r.stored + r.pending =~= pending + cut(buf).0);
    } else {
        let n = least(input.len(), ENC_CHUNK_MAX as nat);
        let all = buf + input.take(n as int);
        let rest = input.skip(n as int);
        let fed = buf + input.take(r.consumed as int);
        if all.len() < ENC_CHUNK_MAX {
            calls_cut_the_input(all, Seq::empty(), rest, room);
            let q = call(all, Seq::empty(), rest, room);
            assert(fed =~= all + rest.take(q.consumed as int));
            assert(pending =~= Seq::empty());
        } else {
            let piece = all.take(ENC_CHUNK_MAX as int);
            let left = all.skip(ENC_CHUNK_MAX as int);
            calls_cut_the_input(left, frame(piece), rest, room);
            let q = call(left, frame(piece), rest, room);
            assert(fed =~= all + rest.take(q.consumed as int));
            assert(fed.take(ENC_CHUNK_MAX as int) =~= piece);
            assert(fed.skip(ENC_CHUNK_MAX as int) =~= left + rest.take(q.consumed as int));
            assert(pending + cut(fed).0 =~= cut(fed).0);
        }
    }
}

/// How far an encoder is.
pub enum Progressing {
    /// It takes input.
    Open {
        /// The input that waits for a full piece.
        buf: Seq<u8>,
        /// The output that waits.
        pending: Seq<u8>,
    },
    /// It was finished.
    Closing {
        /// The output that waits.
        owed: Seq<u8>,
    },
}

/// An encoder of raw LZMA2 streams.
pub struct Encoder {
    buf: Vec<u8>,
    queue: Queue,
    closing: bool,
}

/// Appends the chunk for a piece of the input.
fn stage_chunk(data: &[u8], queue: &mut Queue)
    requires
        1 <= data@.len() <= ENC_CHUNK_MAX,
        old(queue).inv(),
    ensures
        final(queue).inv(),
        final(queue)@ == old(queue)@ + frame(data@),
{
    let params = EncoderParams::from_level(ENC_DEFAULT_LEVEL);
    let body = encode_lzma_chunk(data, ENC_DICT_SIZE, params);
    if body.len() < data.len() {
        stage_compressed_chunk(data, body.as_slice(), queue);
    } else {
        stage_uncompressed_chunk(data, queue);
    }
}

/// Appends a chunk that holds the code of `data`.
fn stage_compressed_chunk(data: &[u8], body: &[u8], queue: &mut Queue)
    requires
        1 <= data@.len() <= ENC_CHUNK_MAX,
        1 <= body@.len() <= ENC_CHUNK_MAX,
        old(queue).inv(),
    ensures
        final(queue).inv(),
        final(queue)@ == old(queue)@ + coded_frame(data@, body@),
{
    let n: usize = data.len() - 1;
    let m: usize = body.len() - 1;
    queue.push(0xE0);
    queue.push((n / 256) as u8);
    queue.push((n % 256) as u8);
    queue.push((m / 256) as u8);
    queue.push((m % 256) as u8);
    queue.push(LZMA2_PROPS_BYTE);
    queue.extend(body);
    assert(queue@ =~= old(queue)@ + coded_frame(data@, body@));
}

/// Appends a chunk that holds `data` as it is.
fn stage_uncompressed_chunk(data: &[u8], queue: &mut Queue)
    requires
        1 <= data@.len() <= ENC_CHUNK_MAX,
        old(queue).inv(),
    ensures
        final(queue).inv(),
        final(queue)@ == old(queue)@ + stored_frame(data@),
{
    let n: usize = data.len() - 1;
    queue.push(1);
    queue.push((n / 256) as u8);
    queue.push((n % 256) as u8);
    queue.extend(data);
    assert(queue@ =~= old(queue)@ + stored_frame(data@));
}

impl Encoder {
    /// How far the encoder is.
    pub closed spec fn progress(&self) -> Progressing {
        if self.closing {
            Progressing::Closing { owed: self.queue@ }
        } else {
            Progressing::Open { buf: self.buf@, pending: self.queue@ }
        }
    }

    /// Nothing was fed.
    pub open spec fn is_fresh(&self) -> bool {
        self.progress() == (Progressing::Open { buf: Seq::empty(), pending: Seq::empty() })
    }

    /// An encoder.
    pub fn new() -> (e: Self)
        ensures
            e.inv(),
            e.is_fresh(),
    {
        Encoder { buf: Vec::new(), queue: Queue::new(), closing: false }
    }

    /// Takes input, and stages a chunk when a piece is full.
    fn take(&mut self, slice: &[u8])
        requires
            old(self).inv(),
            1 <= slice@.len() <= ENC_CHUNK_MAX,
        ensures
            final(self).inv(),
            final(self).closing == old(self).closing,
            ({
                let all = old(self).buf@ + slice@;
                if all.len() < ENC_CHUNK_MAX {
                    final(self).buf@ == all && final(self).queue@ == old(self).queue@
                } else {
                    &&& final(self).buf@ == all.skip(ENC_CHUNK_MAX as int)
                    &&& final(self).queue@ == old(self).queue@ + frame(
                        all.take(ENC_CHUNK_MAX as int),
                    )
                }
            }),
    {
        let ghost all = self.buf@ + slice@;
        self.buf.extend_from_slice(slice);
        assert(self.buf@ =~= all);
        if self.buf.len() >= ENC_CHUNK_MAX {
            let rest = self.buf.split_off(ENC_CHUNK_MAX);
            assert(self.buf@ =~= all.take(ENC_CHUNK_MAX as int));
            assert(rest@ =~= all.skip(ENC_CHUNK_MAX as int));
            stage_chunk(self.buf.as_slice(), &mut self.queue);
            self.buf = rest;
        }
    }
}

impl Default for Encoder {
    fn default() -> (e: Self)
        ensures
            e.inv(),
            e.is_fresh(),
    {
        Encoder::new()
    }
}

impl RawEncoder for Encoder {
    closed spec fn inv(&self) -> bool {
        self.queue.inv() && self.buf@.len() < ENC_CHUNK_MAX
    }

    open spec fn encode_post(
        before: Self,
        input: Seq<u8>,
        old_output: Seq<u8>,
        after: Self,
        new_output: Seq<u8>,
        r: Result<RawProgress, Error>,
    ) -> bool {
        match before.progress() {
            Progressing::Open { buf, pending } => {
                let c = call(buf, pending, input, old_output.len());
                &&& r matches Ok(p)
                &&& p.consumed == c.consumed
                &&& p.written == c.stored.len()
                &&& !p.done
                &&& new_output == stored(old_output, c.stored)
                &&& after.progress() == (Progressing::Open { buf: c.buf, pending: c.pending })
            },
            Progressing::Closing { owed } => {
                &&& r == Ok::<RawProgress, Error>(idle(false))
                &&& new_output == old_output
                &&& after.progress() == before.progress()
            },
        }
    }

    open spec fn finish_post(
        before: Self,
        old_output: Seq<u8>,
        after: Self,
        new_output: Seq<u8>,
        r: Result<RawProgress, Error>,
    ) -> bool {
        let owed = match before.progress() {
            Progressing::Open { buf, pending } => pending + tail(buf),
            Progressing::Closing { owed } => owed,
        };
        let n = least(owed.len(), old_output.len());
        &&& r == Ok::<RawProgress, Error>(
            RawProgress {
                consumed: 0,
                written: n as usize,
                done: owed.len() <= old_output.len(),
            },
        )
        &&& new_output == stored(old_output, owed.take(n as int))
        &&& after.progress() == (Progressing::Closing { owed: owed.skip(n as int) })
    }

    open spec fn reset_post(before: Self, after: Self) -> bool {
        after.is_fresh()
    }

    fn raw_encode(&mut self, input: &[u8], output: &mut [u8]) -> (r: Result<RawProgress, Error>) {
        if self.closing {
            return Ok(RawProgress { consumed: 0, written: 0, done: false });
        }
        let ghost goal = call(self.buf@, self.queue@, input@, output@.len());
        let ghost out0 = output@;
        let mut consumed: usize = 0;
        let mut written: usize = 0;
        proof {
            assert(input@.skip(0) =~= input@);
            assert(output@.take(0) + goal.stored =~= goal.stored);
        }
        loop
            invariant
                self.inv(),
                !self.closing,
                out0 == old(output)@,
                output@.len() == out0.len(),
                consumed <= input.len(),
                written <= output.len(),
                output@.skip(written as int) == out0.skip(written as int),
                ({
                    let r = call(
                        self.buf@,
                        self.queue@,
                        input@.skip(consumed as int),
                        (out0.len() - written) as nat,
                    );
                    &&& goal.consumed == consumed + r.consumed
                    &&& goal.stored == output@.take(written as int) + r.stored
                    &&& goal.buf == r.buf
                    &&& goal.pending == r.pending
                }),
            ensures
                goal.consumed == consumed,
                goal.stored == output@.take(written as int),
                goal.buf == self.buf@,
                goal.pending == self.queue@,
            decreases input.len() - consumed, self.queue@.len(),
        {
            if !self.queue.is_empty() {
                let ghost q = self.queue@;
                let ghost before = output@;
                let n: usize = self.queue.drain(output, written);
                assert(written + n <= output.len());
                proof {
                    assert(output@.take(written + n) =~= before.take(written as int) + q.take(
                        n as int,
                    ));
                    assert(output@.skip(written + n) =~= before.skip(written as int).skip(
                        n as int,
                    ));
                    assert(out0.skip(written + n) =~= out0.skip(written as int).skip(n as int));
                }
                written = written + n;
                if !self.queue.is_empty() {
                    proof {
                        assert(n == out0.len() - (written - n));
                    }
                    break;
                }
                proof {
                    assert(q.take(n as int) =~= q);
                    assert(self.queue@ =~= Seq::empty());
                    let r = call(
                        self.buf@,
                        Seq::empty(),
                        input@.skip(consumed as int),
                        (out0.len() - written) as nat,
                    );
                    assert(before.take(written - n) + (q + r.stored) =~= output@.take(
                        written as int,
                    ) + r.stored);
                }
                continue;
            }
            assert(self.queue@ =~= Seq::empty());
            if consumed == input.len() {
                assert(input@.skip(consumed as int).len() == 0);
                break;
            }
            let left: usize = input.len() - consumed;
            let n: usize = if left < ENC_CHUNK_MAX {
                left
            } else {
                ENC_CHUNK_MAX
            };
            let slice = vstd::slice::slice_subrange(input, consumed, consumed + n);
            proof {
                let rest = input@.skip(consumed as int);
                assert(slice@ =~= rest.take(n as int));
                assert(rest.skip(n as int) =~= input@.skip(consumed + n));
            }
            let ghost all = self.buf@ + slice@;
            self.take(slice);
            consumed = consumed + n;
            proof {
                if all.len() >= ENC_CHUNK_MAX {
                    assert(self.queue@ =~= frame(all.take(ENC_CHUNK_MAX as int)));
                } else {
                    assert(self.queue@ =~= Seq::empty());
                }
            }
        }
        proof {
            assert(output@ =~= stored(out0, goal.stored));
        }
        Ok(RawProgress { consumed, written, done: false })
    }

    fn raw_finish(&mut self, output: &mut [u8]) -> (r: Result<RawProgress, Error>) {
        if !self.closing {
            let ghost pending = self.queue@;
            let ghost buf = self.buf@;
            if self.buf.len() > 0 {
                stage_chunk(self.buf.as_slice(), &mut self.queue);
            }
            self.queue.push(0);
            self.buf.clear();
            self.closing = true;
            assert(self.queue@ =~= pending + tail(buf));
        }
        let ghost owed = self.queue@;
        let n: usize = self.queue.drain(output, 0);
        proof {
            assert(output@ =~= stored(old(output)@, owed.take(n as int)));
            assert(output@.skip(n as int) =~= old(output)@.skip(n as int));
        }
        Ok(RawProgress { consumed: 0, written: n, done: self.queue.is_empty() })
    }

    fn raw_reset(&mut self) {
        self.buf.clear();
        self.queue.clear();
        self.closing = false;
    }
}

proof fn lemma_stored_bytes(p: Place, data: Seq<u8>)
    requires
        p.stage matches Stage::Stored { left } && left == data.len(),
        data.len() > 0,
    ensures
        after(p, data).stage is Control,
        after(p, data).first == p.first,
        after(p, data).cap == p.cap,
        emission(p, data) == data,
    decreases data.len(),
{
    taking_first(p, data);
    let next = p.fed(data[0]);
    let rest = data.skip(1);
    if data.len() == 1 {
        assert(rest =~= Seq::empty());
        assert(after(next, rest) == next);
        assert(emission(next, rest) =~= Seq::<u8>::empty());
        assert(emission(p, data) =~= data);
    } else {
        lemma_stored_bytes(next, rest);
        assert(seq![data[0]] + rest =~= data);
    }
}

pub proof fn lemma_body_bytes(p: Place, bytes: Seq<u8>)
    requires
        p.stage matches Stage::Body { n, size, got } && got.len() + bytes.len() == size,
        bytes.len() > 0,
    ensures
        ({
            let all = p.stage->Body_got + bytes;
            let n = p.stage->Body_n;
            match chunk_read(p.core->0, all, n) {
                Ok(c) => {
                    &&& after(p, bytes) == (Place { stage: Stage::Control, core: Some(c), ..p })
                    &&& emission(p, bytes) == c.out.skip((p.core->0).out.len() as int)
                },
                Err(e) => true,
            }
        }),
    decreases bytes.len(),
{
    taking_first(p, bytes);
    let next = p.fed(bytes[0]);
    let rest = bytes.skip(1);
    let got = p.stage->Body_got;
    if bytes.len() == 1 {
        assert(rest =~= Seq::empty());
        assert(after(next, rest) == next);
        assert(emission(next, rest) =~= Seq::<u8>::empty());
        assert(got.push(bytes[0]) =~= got + bytes);
        assert(emission(p, bytes) =~= p.emits(bytes[0]));
    } else {
        assert(got.push(bytes[0]) + rest =~= got + bytes);
        lemma_body_bytes(next, rest);
        assert(p.emits(bytes[0]) + emission(next, rest) =~= emission(next, rest));
    }
}

pub proof fn lemma_header_bytes(p: Place, bytes: Seq<u8>)
    requires
        p.stage matches Stage::Header { control, got } && got.len() + bytes.len() == header_len(
            control,
        ),
        bytes.len() > 0,
    ensures
        after(p, bytes) == p.at_header(p.stage->control, p.stage->Header_got + bytes),
        emission(p, bytes) == Seq::<u8>::empty(),
    decreases bytes.len(),
{
    taking_first(p, bytes);
    let next = p.fed(bytes[0]);
    let rest = bytes.skip(1);
    let got = p.stage->Header_got;
    if bytes.len() == 1 {
        assert(rest =~= Seq::empty());
        assert(after(next, rest) == next);
        assert(emission(next, rest) =~= Seq::<u8>::empty());
        assert(got.push(bytes[0]) =~= got + bytes);
        assert(emission(p, bytes) =~= Seq::<u8>::empty());
    } else {
        assert(got.push(bytes[0]) + rest =~= got + bytes);
        assert(next == (Place {
            stage: Stage::Header { control: p.stage->control, got: got.push(bytes[0]) },
            ..p
        }));
        lemma_header_bytes(next, rest);
        assert(emission(p, bytes) =~= Seq::<u8>::empty());
    }
}

proof fn lemma_stored_frame(p: Place, data: Seq<u8>)
    requires
        p.stage is Control,
        1 <= data.len() <= ENC_CHUNK_MAX,
    ensures
        after(p, stored_frame(data)).stage is Control,
        !after(p, stored_frame(data)).first,
        after(p, stored_frame(data)).cap == p.cap,
        emission(p, stored_frame(data)) == data,
{
    let f0 = stored_frame(data);
    let p1 = p.fed(f0[0]);
    let f1 = f0.skip(1);
    let p2 = p1.fed(f1[0]);
    let f2 = f1.skip(1);
    let p3 = p2.fed(f2[0]);
    let f3 = f2.skip(1);
    assert(f3 =~= data);
    taking_first(p, f0);
    taking_first(p1, f1);
    taking_first(p2, f2);
    lemma_stored_bytes(p3, data);
    assert(emission(p2, f2) =~= data);
    assert(emission(p1, f1) =~= data);
    assert(emission(p, f0) =~= data);
}

/// The header of a coded chunk behind its first byte.
spec fn coded_header(n: int, k: int) -> Seq<u8> {
    seq![
        (n / 256) as u8,
        (n % 256) as u8,
        (k / 256) as u8,
        (k % 256) as u8,
        LZMA2_PROPS_BYTE,
    ]
}

proof fn lemma_coded_sizes(n: int, k: int)
    requires
        0 <= n < ENC_CHUNK_MAX,
        0 <= k < ENC_CHUNK_MAX,
    ensures
        chunk_size(0xE0u8, coded_header(n, k)) == n + 1,
        code_size(coded_header(n, k)) == k + 1,
{
}

#[verifier::spinoff_prover]
proof fn lemma_coded_header(p: Place, n: int, k: int)
    requires
        p.stage is Control,
        0 <= n < ENC_CHUNK_MAX,
        0 <= k < ENC_CHUNK_MAX,
    ensures
        after(p, seq![0xE0u8] + coded_header(n, k)) == (Place {
            stage: Stage::Body { n: (n + 1) as nat, size: (k + 1) as nat, got: Seq::empty() },
            core: Some(fresh_core(default_props(), p.cap)),
            first: false,
            cap: p.cap,
        }),
        emission(p, seq![0xE0u8] + coded_header(n, k)) == Seq::<u8>::empty(),
{
    let h = coded_header(n, k);
    taking_is_streaming(p, seq![0xE0u8], h);
    taking_one(p, 0xE0u8);
    let p1 = p.fed(0xE0u8);
    assert(p1.stage == (Stage::Header { control: 0xE0u8, got: Seq::empty() }));
    lemma_header_bytes(p1, h);
    assert(Seq::<u8>::empty() + h =~= h);
    assert(props_of(LZMA2_PROPS_BYTE) == Some(default_props()));
    assert(opened(p.core, p.cap, 0xE0u8, LZMA2_PROPS_BYTE) == Some(
        fresh_core(default_props(), p.cap),
    ));
    lemma_coded_sizes(n, k);
    assert(emission(p, seq![0xE0u8] + h) =~= Seq::<u8>::empty());
}

#[verifier::spinoff_prover]
proof fn lemma_coded_frame(p: Place, data: Seq<u8>, body: Seq<u8>, c: Core)
    requires
        p.stage is Control,
        1 <= data.len() <= ENC_CHUNK_MAX,
        1 <= body.len() <= ENC_CHUNK_MAX,
        chunk_read(fresh_core(default_props(), p.cap), body, data.len()) == Ok::<Core, Error>(c),
        c.out == data,
    ensures
        after(p, coded_frame(data, body)).stage is Control,
        !after(p, coded_frame(data, body)).first,
        after(p, coded_frame(data, body)).cap == p.cap,
        emission(p, coded_frame(data, body)) == data,
{
    let head = seq![0xE0u8] + coded_header(data.len() - 1, body.len() - 1);
    assert(coded_frame(data, body) =~= head + body);
    lemma_coded_header(p, data.len() - 1, body.len() - 1);
    let q = after(p, head);
    taking_is_streaming(p, head, body);
    assert(Seq::<u8>::empty() + body =~= body);
    lemma_body_bytes(q, body);
    assert(data.skip(0) =~= data);
    assert(emission(p, coded_frame(data, body)) =~= data);
}

/// A chunk can be decoded by itself, whatever came before it.
pub proof fn frames_decode_alone(p: Place, data: Seq<u8>)
    requires
        p.stage is Control,
        1 <= data.len() <= ENC_CHUNK_MAX,
        p.cap >= ENC_CHUNK_MAX,
    ensures
        after(p, frame(data)).stage is Control,
        !after(p, frame(data)).first,
        after(p, frame(data)).cap == p.cap,
        emission(p, frame(data)) == data,
{
    if body_of(data).len() < data.len() {
        chunk_reads_back(data, ENC_DICT_SIZE, level_params(ENC_DEFAULT_LEVEL), p.cap);
        let c = chunk_read(fresh_core(default_props(), p.cap), body_of(data), data.len())->Ok_0;
        lemma_coded_frame(p, data, body_of(data), c);
    } else {
        lemma_stored_frame(p, data);
    }
}

proof fn lemma_stream_decodes(p: Place, data: Seq<u8>)
    requires
        p.stage is Control,
        p.cap >= ENC_CHUNK_MAX,
    ensures
        after(p, encoded(data)).stage is Done,
        emission(p, encoded(data)) == data,
    decreases data.len(),
{
    let stream = encoded(data);
    if data.len() >= ENC_CHUNK_MAX {
        let piece = data.take(ENC_CHUNK_MAX as int);
        let rest = data.skip(ENC_CHUNK_MAX as int);
        assert(stream =~= frame(piece) + encoded(rest));
        frames_decode_alone(p, piece);
        taking_is_streaming(p, frame(piece), encoded(rest));
        lemma_stream_decodes(after(p, frame(piece)), rest);
        assert(piece + rest =~= data);
    } else {
        assert(stream =~= tail(data));
        let end = seq![0u8];
        if data.len() == 0 {
            taking_one(p, 0u8);
            assert(emission(p, stream) =~= data);
        } else {
            frames_decode_alone(p, data);
            taking_is_streaming(p, frame(data), end);
            taking_one(after(p, frame(data)), 0u8);
            assert(data + Seq::<u8>::empty() =~= data);
            assert(emission(p, stream) =~= data);
        }
    }
}

/// Decoding undoes encoding, with a dictionary of at least 64 KiB.
pub proof fn decode_inverts_encode(data: Seq<u8>, cap: nat)
    requires
        cap >= ENC_CHUNK_MAX,
    ensures
        after(start(cap), encoded(data)).stage is Done,
        emission(start(cap), encoded(data)) == data,
{
    lemma_stream_decodes(start(cap), data);
}

} // verus!
