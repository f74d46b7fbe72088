//! Byte transducers behind an output queue.
//!
//! Several codecs share one shape: a state takes input bytes one at a time,
//! each byte makes some output bytes, and what does not fit the caller's
//! output slice waits in a queue. This module states what one call of such a
//! codec does, once for all of them, and drives the ones that keep an explicit
//! queue.
use vstd::prelude::*;

use crate::traits::{copy_out, least, stored};

verus! {

/// The states of a byte transducer.
pub trait Machine: Sized {
    /// The state after taking `b`.
    spec fn fed(self, b: u8) -> Self;

    /// The bytes that taking `b` makes.
    spec fn emits(self, b: u8) -> Seq<u8>;

    /// Output room that must be free before `b` is taken.
    spec fn room(self, b: u8) -> nat;

    /// The state takes no more input.
    spec fn halted(self) -> bool;
}

/// The state after taking `data`.
pub open spec fn after<M: Machine>(m: M, data: Seq<u8>) -> M
    decreases data.len(),
{
    if data.len() == 0 {
        m
    } else {
        after(m, data.drop_last()).fed(data.last())
    }
}

/// The bytes that taking `data` makes.
pub open spec fn emission<M: Machine>(m: M, data: Seq<u8>) -> Seq<u8>
    decreases data.len(),
{
    if data.len() == 0 {
        Seq::empty()
    } else {
        emission(m, data.drop_last()) + after(m, data.drop_last()).emits(data.last())
    }
}

/// Everything there is to output once `c` bytes of `input` are taken.
pub open spec fn total<M: Machine>(m: M, pending: Seq<u8>, input: Seq<u8>, c: int) -> Seq<u8> {
    pending + emission(m, input.take(c))
}

/// Whether the byte at `c` is taken when the output holds `cap` bytes: the
/// queue is empty by then and the room that the byte asks for is free.
pub open spec fn takes<M: Machine>(
    m: M,
    pending: Seq<u8>,
    input: Seq<u8>,
    cap: nat,
    c: int,
) -> bool {
    let s = after(m, input.take(c));
    &&& !s.halted()
    &&& total(m, pending, input, c).len() + s.room(input[c]) <= cap
}

/// What one call does: it takes input as long as it may, stores as much output
/// as fits and queues the rest.
pub open spec fn transduces<M: Machine>(
    m: M,
    pending: Seq<u8>,
    input: Seq<u8>,
    old_output: Seq<u8>,
    m2: M,
    pending2: Seq<u8>,
    new_output: Seq<u8>,
    consumed: int,
    written: int,
) -> bool {
    let all = total(m, pending, input, consumed);
    &&& 0 <= consumed <= input.len()
    &&& forall|c: int| 0 <= c < consumed ==> #[trigger] takes(m, pending, input, old_output.len(), c)
    &&& consumed < input.len() ==> !takes(m, pending, input, old_output.len(), consumed)
    &&& written == least(all.len(), old_output.len())
    &&& new_output == stored(old_output, all.take(written))
    &&& pending2 == all.skip(written)
    &&& m2 == after(m, input.take(consumed))
}

/// Taking `a` and then `b` is taking their concatenation.
pub proof fn taking_is_streaming<M: Machine>(m: M, a: Seq<u8>, b: Seq<u8>)
    ensures
        after(m, a + b) == after(after(m, a), b),
        emission(m, a + b) == emission(m, a) + emission(after(m, a), b),
    decreases b.len(),
{
    if b.len() == 0 {
        assert(a + b == a);
    } else {
        taking_is_streaming(m, a, b.drop_last());
        assert((a + b).drop_last() == a + b.drop_last());
        assert((a + b).last() == b.last());
    }
}

/// Taking a single byte.
pub proof fn taking_one<M: Machine>(m: M, b: u8)
    ensures
        after(m, seq![b]) == m.fed(b),
        emission(m, seq![b]) == m.emits(b),
{
    let d = seq![b];
    assert(d.drop_last() =~= Seq::empty());
    assert(d.last() == b);
    assert(after(m, d.drop_last()) == m);
    assert(emission(m, d.drop_last()) =~= Seq::<u8>::empty());
    assert(emission(m, d) =~= m.emits(b));
}

/// Taking a byte first and then the rest.
pub proof fn taking_first<M: Machine>(m: M, data: Seq<u8>)
    requires
        data.len() > 0,
    ensures
        after(m, data) == after(m.fed(data[0]), data.skip(1)),
        emission(m, data) == m.emits(data[0]) + emission(m.fed(data[0]), data.skip(1)),
{
    taking_is_streaming(m, seq![data[0]], data.skip(1));
    taking_one(m, data[0]);
    assert(seq![data[0]] + data.skip(1) =~= data);
}

/// What two calls in a row store and leave queued is, together, what the first
/// queue held and all the input taken made: how the input and the output are
/// cut into slices does not show in the bytes.
pub proof fn calls_compose<M: Machine>(
    m: M,
    pending: Seq<u8>,
    input: Seq<u8>,
    out_a: Seq<u8>,
    m_a: M,
    pending_a: Seq<u8>,
    new_a: Seq<u8>,
    consumed_a: int,
    written_a: int,
    out_b: Seq<u8>,
    m_b: M,
    pending_b: Seq<u8>,
    new_b: Seq<u8>,
    consumed_b: int,
    written_b: int,
)
    requires
        transduces(m, pending, input, out_a, m_a, pending_a, new_a, consumed_a, written_a),
        transduces(
            m_a,
            pending_a,
            input.skip(consumed_a),
            out_b,
            m_b,
            pending_b,
            new_b,
            consumed_b,
            written_b,
        ),
    ensures
        m_b == after(m, input.take(consumed_a + consumed_b)),
        new_a.take(written_a) + new_b.take(written_b) + pending_b == total(
            m,
            pending,
            input,
            consumed_a + consumed_b,
        ),
{
    let a = input.take(consumed_a);
    let b = input.skip(consumed_a).take(consumed_b);
    assert(input.take(consumed_a + consumed_b) =~= a + b);
    taking_is_streaming(m, a, b);
    let all_a = total(m, pending, input, consumed_a);
    let all_b = total(m_a, pending_a, input.skip(consumed_a), consumed_b);
    assert(new_a.take(written_a) =~= all_a.take(written_a));
    assert(new_b.take(written_b) =~= all_b.take(written_b));
    assert(new_b.take(written_b) + pending_b =~= all_b);
    assert(new_a.take(written_a) + pending_a =~= all_a);
    assert(new_a.take(written_a) + new_b.take(written_b) + pending_b =~= total(
        m,
        pending,
        input,
        consumed_a + consumed_b,
    ));
}

/// A call, and what it does.
pub struct Turn<M> {
    /// The input that is offered.
    pub input: Seq<u8>,
    /// What the output slice holds before.
    pub room: Seq<u8>,
    /// The state behind the call.
    pub m: M,
    /// What is queued behind the call.
    pub pending: Seq<u8>,
    /// What the output slice holds behind the call.
    pub output: Seq<u8>,
    /// How many bytes are taken.
    pub consumed: int,
    /// How many bytes are stored.
    pub written: int,
}

/// The state behind the calls.
pub open spec fn state_behind<M>(m: M, ts: Seq<Turn<M>>) -> M {
    if ts.len() == 0 {
        m
    } else {
        ts.last().m
    }
}

/// What is queued behind the calls.
pub open spec fn queued_behind<M>(pending: Seq<u8>, ts: Seq<Turn<M>>) -> Seq<u8> {
    if ts.len() == 0 {
        pending
    } else {
        ts.last().pending
    }
}

/// Each call does what a call does, from where the one before left off.
pub open spec fn turns<M: Machine>(m: M, pending: Seq<u8>, ts: Seq<Turn<M>>) -> bool
    decreases ts.len(),
{
    ts.len() > 0 ==> {
        let t = ts.last();
        &&& turns(m, pending, ts.drop_last())
        &&& transduces(
            state_behind(m, ts.drop_last()),
            queued_behind(pending, ts.drop_last()),
            t.input,
            t.room,
            t.m,
            t.pending,
            t.output,
            t.consumed,
            t.written,
        )
    }
}

/// All the input that the calls take.
pub open spec fn taken_by<M>(ts: Seq<Turn<M>>) -> Seq<u8>
    decreases ts.len(),
{
    if ts.len() == 0 {
        Seq::empty()
    } else {
        taken_by(ts.drop_last()) + ts.last().input.take(ts.last().consumed)
    }
}

/// All that the calls store.
pub open spec fn stored_by<M>(ts: Seq<Turn<M>>) -> Seq<u8>
    decreases ts.len(),
{
    if ts.len() == 0 {
        Seq::empty()
    } else {
        stored_by(ts.drop_last()) + ts.last().output.take(ts.last().written)
    }
}

/// The calls are offered `s` piece by piece; what one does not take is offered again.
pub open spec fn offered<M>(s: Seq<u8>, ts: Seq<Turn<M>>) -> bool
    decreases ts.len(),
{
    ts.len() > 0 ==> {
        let at = taken_by(ts.drop_last()).len();
        let input = ts.last().input;
        &&& offered(s, ts.drop_last())
        &&& at + input.len() <= s.len()
        &&& input == s.subrange(at as int, (at + input.len()) as int)
    }
}

/// How a series of calls stands, seen from its start: the state is the one behind all
/// that was taken, and what was stored and is queued is all that this made.
pub open spec fn adds_up<M: Machine>(
    m: M,
    pending: Seq<u8>,
    taken: Seq<u8>,
    handed: Seq<u8>,
    m2: M,
    pending2: Seq<u8>,
) -> bool {
    m2 == after(m, taken) && handed + pending2 == pending + emission(m, taken)
}

pub proof fn lemma_adds_up<M: Machine>(
    m: M,
    pending: Seq<u8>,
    taken: Seq<u8>,
    handed: Seq<u8>,
    m1: M,
    pending1: Seq<u8>,
    input: Seq<u8>,
    room: Seq<u8>,
    m2: M,
    pending2: Seq<u8>,
    output: Seq<u8>,
    consumed: int,
    written: int,
)
    requires
        adds_up(m, pending, taken, handed, m1, pending1),
        transduces(m1, pending1, input, room, m2, pending2, output, consumed, written),
    ensures
        adds_up(
            m,
            pending,
            taken + input.take(consumed),
            handed + output.take(written),
            m2,
            pending2,
        ),
{
    let b = input.take(consumed);
    taking_is_streaming(m, taken, b);
    let all = total(m1, pending1, input, consumed);
    assert(output.take(written) =~= all.take(written));
    assert(output.take(written) + pending2 =~= all);
    assert((handed + output.take(written)) + pending2 =~= handed + all);
    assert(handed + all =~= (handed + pending1) + emission(m1, b));
    assert((pending + emission(m, taken)) + emission(m1, b) =~= pending + emission(m, taken + b));
}

/// What any number of calls store and leave queued is, together, what the first queue
/// held and all the input taken made, however input and output are cut into slices.
pub proof fn any_calls_add_up<M: Machine>(m: M, pending: Seq<u8>, ts: Seq<Turn<M>>)
    requires
        turns(m, pending, ts),
    ensures
        state_behind(m, ts) == after(m, taken_by(ts)),
        stored_by(ts) + queued_behind(pending, ts) == pending + emission(m, taken_by(ts)),
    decreases ts.len(),
{
    if ts.len() == 0 {
        assert(stored_by(ts) + pending =~= pending + emission(m, taken_by(ts)));
    } else {
        let a = ts.drop_last();
        let t = ts.last();
        any_calls_add_up(m, pending, a);
        lemma_adds_up(
            m,
            pending,
            taken_by(a),
            stored_by(a),
            state_behind(m, a),
            queued_behind(pending, a),
            t.input,
            t.room,
            t.m,
            t.pending,
            t.output,
            t.consumed,
            t.written,
        );
    }
}

/// The input is `s` from the byte `at` on, of which the machine that stopped at `end`
/// takes no more: then a call takes nothing beyond `end` either.
pub proof fn lemma_stops_there<M: Machine>(
    m: M,
    s: Seq<u8>,
    end: int,
    at: int,
    pending: Seq<u8>,
    input: Seq<u8>,
    room: Seq<u8>,
    m2: M,
    pending2: Seq<u8>,
    output: Seq<u8>,
    consumed: int,
    written: int,
)
    requires
        0 <= at <= end <= s.len(),
        end == s.len() || after(m, s.take(end)).halted(),
        at + input.len() <= s.len(),
        input == s.subrange(at, at + input.len()),
        transduces(
            after(m, s.take(at)),
            pending,
            input,
            room,
            m2,
            pending2,
            output,
            consumed,
            written,
        ),
    ensures
        at + consumed <= end,
        s.take(at) + input.take(consumed) == s.take(at + consumed),
{
    assert(s.take(at) + input.take(consumed) =~= s.take(at + consumed));
    if at + consumed > end {
        let c = end - at;
        let m1 = after(m, s.take(at));
        assert(takes(m1, pending, input, room.len(), c));
        assert(s.take(at) + input.take(c) =~= s.take(end));
        taking_is_streaming(m, s.take(at), input.take(c));
    }
}

/// Any number of calls in any pieces give what one call gives that had room for all:
/// they take no more, they store what it stored, or a first part of that, and the same
/// once they took as much and nothing is queued.
pub proof fn any_calls_give_what_one_gives<M: Machine>(
    m: M,
    s: Seq<u8>,
    one: Turn<M>,
    ts: Seq<Turn<M>>,
)
    requires
        transduces(
            m,
            Seq::empty(),
            s,
            one.room,
            one.m,
            one.pending,
            one.output,
            one.consumed,
            one.written,
        ),
        one.pending.len() == 0,
        one.consumed == s.len() || one.m.halted(),
        turns(m, Seq::empty(), ts),
        offered(s, ts),
    ensures
        taken_by(ts).len() <= one.consumed,
        taken_by(ts) == s.take(taken_by(ts).len() as int),
        stored_by(ts).len() <= one.written,
        stored_by(ts) == one.output.take(stored_by(ts).len() as int),
        taken_by(ts).len() == one.consumed && queued_behind(Seq::empty(), ts).len() == 0 ==> {
            &&& stored_by(ts) == one.output.take(one.written)
            &&& state_behind(m, ts) == one.m
        },
{
    lemma_all_taken(m, s, one.consumed, ts);
    any_calls_add_up(m, Seq::empty(), ts);
    assert(one.output.take(one.written) =~= total(m, Seq::empty(), s, one.consumed));
    lemma_part_of_all(
        m,
        s,
        one.consumed,
        one.output.take(one.written),
        taken_by(ts),
        stored_by(ts),
        queued_behind(Seq::empty(), ts),
    );
    let all = one.output.take(one.written);
    assert(one.output.take(stored_by(ts).len() as int) =~= all.take(stored_by(ts).len() as int));
}

proof fn lemma_all_taken<M: Machine>(m: M, s: Seq<u8>, end: int, ts: Seq<Turn<M>>)
    requires
        0 <= end <= s.len(),
        end == s.len() || after(m, s.take(end)).halted(),
        turns(m, Seq::empty(), ts),
        offered(s, ts),
    ensures
        taken_by(ts).len() <= end,
        taken_by(ts) == s.take(taken_by(ts).len() as int),
    decreases ts.len(),
{
    if ts.len() == 0 {
        assert(taken_by(ts) =~= s.take(0));
    } else {
        let a = ts.drop_last();
        let t = ts.last();
        lemma_all_taken(m, s, end, a);
        any_calls_add_up(m, Seq::empty(), a);
        lemma_stops_there(
            m,
            s,
            end,
            taken_by(a).len() as int,
            queued_behind(Seq::empty(), a),
            t.input,
            t.room,
            t.m,
            t.pending,
            t.output,
            t.consumed,
            t.written,
        );
    }
}

/// What was made of a first part of the input is a first part of what is made of all.
pub proof fn lemma_part_of_all<M: Machine>(
    m: M,
    s: Seq<u8>,
    end: int,
    all: Seq<u8>,
    taken: Seq<u8>,
    handed: Seq<u8>,
    queued: Seq<u8>,
)
    requires
        0 <= end <= s.len(),
        all == Seq::<u8>::empty() + emission(m, s.take(end)),
        taken.len() <= end,
        taken == s.take(taken.len() as int),
        handed + queued == Seq::<u8>::empty() + emission(m, taken),
    ensures
        handed.len() <= all.len(),
        handed == all.take(handed.len() as int),
        taken.len() == end && queued.len() == 0 ==> handed == all,
{
    let rest = s.take(end).skip(taken.len() as int);
    assert(s.take(end) =~= taken + rest);
    taking_is_streaming(m, taken, rest);
    assert(all =~= (handed + queued) + emission(after(m, taken), rest));
    assert(handed =~= all.take(handed.len() as int));
    if taken.len() == end && queued.len() == 0 {
        assert(rest =~= Seq::empty());
        assert(handed =~= all);
    }
}

/// A call that has room gets on: it stores something where something is queued, and
/// else takes something where something is offered.
pub proof fn calls_get_on<M: Machine>(m: M, pending: Seq<u8>, t: Turn<M>)
    requires
        transduces(
            m,
            pending,
            t.input,
            t.room,
            t.m,
            t.pending,
            t.output,
            t.consumed,
            t.written,
        ),
        t.room.len() > 0,
    ensures
        pending.len() > 0 ==> t.written > 0,
        pending.len() == 0 && t.input.len() > 0 && !m.halted() && m.room(t.input[0])
            <= t.room.len() ==> t.consumed > 0,
{
    if pending.len() == 0 && t.input.len() > 0 && t.consumed == 0 {
        assert(t.input.take(0) =~= Seq::empty());
        assert(!takes(m, pending, t.input, t.room.len(), 0));
        assert(total(m, pending, t.input, 0) =~= Seq::empty());
    }
}

/// How things stand within a call: `consumed` input bytes are taken, `written`
/// output bytes stored, `pending2` is still owed.
#[verifier::opaque]
pub open spec fn midway<M: Machine>(
    m: M,
    pending: Seq<u8>,
    input: Seq<u8>,
    old_output: Seq<u8>,
    m2: M,
    pending2: Seq<u8>,
    output: Seq<u8>,
    consumed: int,
    written: int,
) -> bool {
    &&& 0 <= consumed <= input.len()
    &&& 0 <= written <= old_output.len()
    &&& output.len() == old_output.len()
    &&& forall|c: int| 0 <= c < consumed ==> #[trigger] takes(m, pending, input, old_output.len(), c)
    &&& output.skip(written) == old_output.skip(written)
    &&& output.take(written) + pending2 == total(m, pending, input, consumed)
    &&& m2 == after(m, input.take(consumed))
}

pub proof fn midway_start<M: Machine>(m: M, pending: Seq<u8>, input: Seq<u8>, output: Seq<u8>)
    ensures
        midway(m, pending, input, output, m, pending, output, 0, 0),
{
    reveal(midway);
    assert(input.take(0) =~= Seq::empty());
    assert(emission(m, input.take(0)) =~= Seq::<u8>::empty());
    assert(total(m, pending, input, 0) =~= pending);
    assert(output.take(0) + pending =~= pending);
}

pub proof fn midway_take<M: Machine>(
    m: M,
    pending: Seq<u8>,
    input: Seq<u8>,
    old_output: Seq<u8>,
    m2: M,
    pending2: Seq<u8>,
    output: Seq<u8>,
    consumed: int,
    written: int,
)
    requires
        midway(m, pending, input, old_output, m2, pending2, output, consumed, written),
        consumed < input.len(),
        pending2.len() == 0,
        !m2.halted(),
        written + m2.room(input[consumed]) <= old_output.len(),
    ensures
        midway(
            m,
            pending,
            input,
            old_output,
            m2.fed(input[consumed]),
            m2.emits(input[consumed]),
            output,
            consumed + 1,
            written,
        ),
{
    reveal(midway);
    let d = input.take(consumed + 1);
    assert(d.drop_last() =~= input.take(consumed));
    assert(d.last() == input[consumed]);
    assert(total(m, pending, input, consumed).len() == written);
    assert(takes(m, pending, input, old_output.len(), consumed));
    assert(output.take(written) + m2.emits(input[consumed]) =~= total(
        m,
        pending,
        input,
        consumed + 1,
    ));
}

pub proof fn midway_store<M: Machine>(
    m: M,
    pending: Seq<u8>,
    input: Seq<u8>,
    old_output: Seq<u8>,
    m2: M,
    pending2: Seq<u8>,
    output: Seq<u8>,
    consumed: int,
    written: int,
)
    requires
        midway(m, pending, input, old_output, m2, pending2, output, consumed, written),
        written < old_output.len(),
        pending2.len() > 0,
    ensures
        midway(
            m,
            pending,
            input,
            old_output,
            m2,
            pending2.skip(1),
            output.update(written, pending2[0]),
            consumed,
            written + 1,
        ),
{
    reveal(midway);
    let next = output.update(written, pending2[0]);
    assert(next.take(written + 1) + pending2.skip(1) =~= output.take(written) + pending2);
    assert(next.skip(written + 1) =~= output.skip(written).skip(1));
    assert(old_output.skip(written + 1) =~= old_output.skip(written).skip(1));
}

pub proof fn midway_drain<M: Machine>(
    m: M,
    pending: Seq<u8>,
    input: Seq<u8>,
    old_output: Seq<u8>,
    m2: M,
    pending2: Seq<u8>,
    output: Seq<u8>,
    consumed: int,
    written: int,
    n: int,
)
    requires
        midway(m, pending, input, old_output, m2, pending2, output, consumed, written),
        0 <= n <= pending2.len(),
        written + n <= old_output.len(),
    ensures
        midway(
            m,
            pending,
            input,
            old_output,
            m2,
            pending2.skip(n),
            output.take(written) + pending2.take(n) + output.skip(written + n),
            consumed,
            written + n,
        ),
{
    reveal(midway);
    let next = output.take(written) + pending2.take(n) + output.skip(written + n);
    assert(next.take(written + n) + pending2.skip(n) =~= output.take(written) + pending2);
    assert(next.skip(written + n) =~= output.skip(written).skip(n));
    assert(old_output.skip(written + n) =~= old_output.skip(written).skip(n));
}

pub proof fn midway_stop<M: Machine>(
    m: M,
    pending: Seq<u8>,
    input: Seq<u8>,
    old_output: Seq<u8>,
    m2: M,
    pending2: Seq<u8>,
    output: Seq<u8>,
    consumed: int,
    written: int,
)
    requires
        midway(m, pending, input, old_output, m2, pending2, output, consumed, written),
        written == old_output.len() || pending2.len() == 0,
        consumed == input.len() || pending2.len() > 0 || m2.halted() || written + m2.room(
            input[consumed],
        ) > old_output.len(),
    ensures
        transduces(m, pending, input, old_output, m2, pending2, output, consumed, written),
        output.skip(written) == old_output.skip(written),
{
    reveal(midway);
    let all = total(m, pending, input, consumed);
    assert(all.take(written) =~= output.take(written));
    assert(all.skip(written) =~= pending2);
    assert(stored(old_output, all.take(written)) =~= output.take(written) + output.skip(written));
    assert(output =~= output.take(written) + output.skip(written));
}

/// Encoded output that waits for room.
#[derive(Debug)]
pub struct Queue {
    bytes: Vec<u8>,
    head: usize,
}

impl Queue {
    /// The waiting bytes.
    pub closed spec fn view(&self) -> Seq<u8> {
        self.bytes@.skip(self.head as int)
    }

    /// The head stays within the buffer.
    pub closed spec fn inv(&self) -> bool {
        self.head <= self.bytes@.len()
    }

    /// An empty queue.
    pub fn new() -> (q: Self)
        ensures
            q.inv(),
            q@ == Seq::<u8>::empty(),
    {
        Queue { bytes: Vec::new(), head: 0 }
    }

    /// Empties the queue.
    pub fn clear(&mut self)
        ensures
            final(self).inv(),
            final(self)@ == Seq::<u8>::empty(),
    {
        self.bytes.clear();
        self.head = 0;
    }

    /// Whether nothing waits.
    pub fn is_empty(&self) -> (r: bool)
        requires
            self.inv(),
        ensures
            r == (self@.len() == 0),
    {
        self.head == self.bytes.len()
    }

    /// Appends one byte.
    pub fn push(&mut self, b: u8)
        requires
            old(self).inv(),
        ensures
            final(self).inv(),
            final(self)@ == old(self)@.push(b),
    {
        self.bytes.push(b);
        assert(self@ =~= old(self)@.push(b));
    }

    /// Appends a slice.
    pub fn extend(&mut self, src: &[u8])
        requires
            old(self).inv(),
        ensures
            final(self).inv(),
            final(self)@ == old(self)@ + src@,
    {
        self.bytes.extend_from_slice(src);
        assert(self@ =~= old(self)@ + src@);
    }

    /// Moves as many bytes as fit to `output[at..]` and returns their number.
    pub fn drain(&mut self, output: &mut [u8], at: usize) -> (n: usize)
        requires
            old(self).inv(),
            at <= old(output)@.len(),
        ensures
            final(self).inv(),
            n == least(old(self)@.len(), (old(output)@.len() - at) as nat),
            final(self)@ == old(self)@.skip(n as int),
            final(output)@ == old(output)@.take(at as int) + old(self)@.take(n as int) + old(
                output,
            )@.skip(at + n),
    {
        let n: usize = copy_out(self.bytes.as_slice(), self.head, output, at);
        assert(self.bytes@.subrange(self.head as int, self.head + n) =~= self@.take(n as int));
        let len: usize = self.bytes.len();
        assert(self.head + n <= len);
        self.head = self.head + n;
        assert(self@ =~= old(self)@.skip(n as int));
        if self.head == self.bytes.len() {
            self.bytes.clear();
            self.head = 0;
            assert(self@ =~= old(self)@.skip(n as int));
        }
        n
    }
}

/// An executable transducer that appends what it makes to a queue and asks for
/// no room.
pub trait Feeder: Sized {
    /// The states it models.
    type State: Machine;

    /// The current state.
    spec fn state(&self) -> Self::State;

    /// The invariant that every operation keeps.
    spec fn inv(&self) -> bool;

    /// Whether the current state takes no more input.
    fn is_halted(&self) -> (r: bool)
        requires
            self.inv(),
        ensures
            r == self.state().halted(),
    ;

    /// Takes one byte.
    fn feed(&mut self, b: u8, queue: &mut Queue)
        requires
            old(self).inv(),
            old(queue).inv(),
            !old(self).state().halted(),
        ensures
            final(self).inv(),
            final(queue).inv(),
            final(self).state() == old(self).state().fed(b),
            final(queue)@ == old(queue)@ + old(self).state().emits(b),
            old(self).state().room(b) == 0,
    ;
}

/// One call of a queueing codec: drains the queue, then takes input until bytes
/// are left waiting, and returns how much was taken and stored.
pub fn drive<F: Feeder>(f: &mut F, queue: &mut Queue, input: &[u8], output: &mut [u8]) -> (r: (
    usize,
    usize,
))
    requires
        old(f).inv(),
        old(queue).inv(),
    ensures
        final(f).inv(),
        final(queue).inv(),
        final(output)@.len() == old(output)@.len(),
        transduces(
            old(f).state(),
            old(queue)@,
            input@,
            old(output)@,
            final(f).state(),
            final(queue)@,
            final(output)@,
            r.0 as int,
            r.1 as int,
        ),
{
    let ghost m = f.state();
    let ghost pending = queue@;
    let ghost out0 = output@;
    let mut consumed: usize = 0;
    let mut written: usize = queue.drain(output, 0);
    assert(input@.take(0) =~= Seq::empty());
    assert(total(m, pending, input@, 0) =~= pending);
    assert(output@ =~= stored(out0, pending.take(written as int)));
    while consumed < input.len() && queue.is_empty() && !f.is_halted()
        invariant
            consumed <= input@.len(),
            f.inv(),
            queue.inv(),
            output@.len() == out0.len(),
            forall|c: int| 0 <= c < consumed ==> #[trigger] takes(m, pending, input@, out0.len(), c),
            written == least(total(m, pending, input@, consumed as int).len(), out0.len()),
            output@ == stored(
                out0,
                total(m, pending, input@, consumed as int).take(written as int),
            ),
            queue@ == total(m, pending, input@, consumed as int).skip(written as int),
            f.state() == after(m, input@.take(consumed as int)),
        decreases input@.len() - consumed,
    {
        let ghost before = total(m, pending, input@, consumed as int);
        let ghost s = f.state();
        let ghost out1 = output@;
        f.feed(input[consumed], queue);
        proof {
            assert(takes(m, pending, input@, out0.len(), consumed as int));
            let d = input@.take(consumed + 1);
            assert(d.drop_last() =~= input@.take(consumed as int));
            assert(d.last() == input@[consumed as int]);
            assert(before + s.emits(input@[consumed as int]) =~= total(
                m,
                pending,
                input@,
                consumed + 1,
            ));
        }
        let ghost made = queue@;
        let n: usize = queue.drain(output, written);
        consumed = consumed + 1;
        assert(written + n <= output.len());
        proof {
            let now = total(m, pending, input@, consumed as int);
            assert(now =~= before + made);
            assert(output@ =~= stored(out0, now.take(written + n)));
            assert(queue@ =~= now.skip(written + n));
        }
        written = written + n;
    }
    (consumed, written)
}

} // verus!
