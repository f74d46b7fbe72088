//! What series of calls of the encoder and the decoder do together.
use vstd::prelude::*;

use crate::calls::{all_handed, all_ok, all_taken, answered_alike, behind, decode_call, decodes};
use crate::calls::{encode_call, encodes, has_ended, in_order, lemma_alike, lemma_in_order};
use crate::calls::{made_alike, offered, unended, Call};
use crate::error::Error;
use crate::machine::{adds_up, after, calls_get_on, emission, lemma_adds_up, lemma_part_of_all};
use crate::machine::{lemma_stops_there, takes, taking_is_streaming, total, transduces, Machine};
use crate::machine::Turn;
use crate::traits::{least, RawDecoder, RawEncoder, RawProgress};
use super::decoder::{start, Decoder, Place, Stage};
use super::encoder::{call, calls_cut_the_input, cut, decode_inverts_encode, encoded, frame, tail};
use super::encoder::{Encoder, Progressing, ENC_CHUNK_MAX};

verus! {

/// The place that `s` leads to is not a wrong one, or it is the last.
spec fn leads(p: Place, s: Seq<u8>, end: int) -> bool {
    &&& 0 <= end <= s.len()
    &&& end == s.len() || after(p, s.take(end)).halted()
    &&& forall|c: int| 0 <= c < end ==> !(#[trigger] after(p, s.take(c)).stage is Failed)
}

proof fn lemma_no_end<T>(cs: Seq<Call<T>>)
    requires
        cs.len() > 0,
        unended(cs),
    ensures
        unended(cs.drop_last()),
        !cs.last().finishing,
{
    let a = cs.drop_last();
    assert forall|i: int| 0 <= i < a.len() implies !(#[trigger] a[i]).finishing by {
        assert(!cs[i].finishing);
    }
    assert(cs.last() == cs[cs.len() - 1]);
}

proof fn lemma_ok_before<T>(cs: Seq<Call<T>>)
    requires
        cs.len() > 0,
    ensures
        all_ok(cs) <==> all_ok(cs.drop_last()) && cs.last().r is Ok,
{
    let a = cs.drop_last();
    if all_ok(cs) {
        assert forall|i: int| 0 <= i < a.len() implies (#[trigger] a[i]).r is Ok by {
            assert(cs[i].r is Ok);
        }
        assert(cs[cs.len() - 1].r is Ok);
    }
    if all_ok(a) && cs.last().r is Ok {
        assert forall|i: int| 0 <= i < cs.len() implies (#[trigger] cs[i]).r is Ok by {
            if i < a.len() {
                assert(a[i].r is Ok);
            }
        }
    }
}

proof fn lemma_decoding_call(d: Decoder, p: Place, s: Seq<u8>, end: int, a: Seq<Call<Decoder>>, c: Call<Decoder>)
    requires
        leads(p, s, end),
        decode_call(behind(d, a), c),
        !c.finishing,
        !(behind(d, a).place().stage is Failed),
        all_taken(a).len() <= end,
        all_taken(a) == s.take(all_taken(a).len() as int),
        adds_up(
            p,
            Seq::empty(),
            all_taken(a),
            all_handed(a),
            behind(d, a).place(),
            behind(d, a).pending(),
        ),
        all_taken(a).len() + c.input.len() <= s.len(),
        c.input == s.subrange(
            all_taken(a).len() as int,
            (all_taken(a).len() + c.input.len()) as int,
        ),
    ensures
        c.r is Ok ==> {
            let taken = all_taken(a) + c.taken();
            &&& taken.len() <= end
            &&& taken == s.take(taken.len() as int)
            &&& adds_up(
                p,
                Seq::empty(),
                taken,
                all_handed(a) + c.handed(),
                c.after.place(),
                c.after.pending(),
            )
            &&& c.is_done() <==> c.after.place().stage is Done && c.after.pending().len() == 0
        },
        c.r matches Err(e) ==> after(p, s.take(end)).stage == (Stage::Failed { error: e }),
        c.r is Ok ==> !(c.after.place().stage is Failed),
{
    let at = all_taken(a).len() as int;
    let b = behind(d, a);
    let (consumed, written) = choose|consumed: int, written: int|
        {
            &&& #[trigger] transduces(
                b.place(),
                b.pending(),
                c.input,
                c.room,
                c.after.place(),
                c.after.pending(),
                c.output,
                consumed,
                written,
            )
            &&& c.r == (match c.after.place().stage {
                Stage::Failed { error } => Err::<RawProgress, Error>(error),
                _ => Ok(
                    RawProgress {
                        consumed: consumed as usize,
                        written: written as usize,
                        done: c.after.place().stage is Done && c.after.pending().len() == 0,
                    },
                ),
            })
        };
    lemma_stops_there(
        p,
        s,
        end,
        at,
        b.pending(),
        c.input,
        c.room,
        c.after.place(),
        c.after.pending(),
        c.output,
        consumed,
        written,
    );
    lemma_adds_up(
        p,
        Seq::empty(),
        all_taken(a),
        all_handed(a),
        b.place(),
        b.pending(),
        c.input,
        c.room,
        c.after.place(),
        c.after.pending(),
        c.output,
        consumed,
        written,
    );
    assert(c.after.place() == after(p, s.take(at + consumed)));
}

/// How a decoder stands behind calls none of which failed.
proof fn lemma_decoding(d: Decoder, s: Seq<u8>, end: int, cs: Seq<Call<Decoder>>)
    requires
        leads(d.place(), s, end),
        d.pending().len() == 0,
        !(d.place().stage is Failed),
        decodes(d, cs),
        unended(cs),
        offered(s, cs),
    ensures
        all_ok(cs) ==> {
            &&& all_taken(cs).len() <= end
            &&& all_taken(cs) == s.take(all_taken(cs).len() as int)
            &&& adds_up(
                d.place(),
                Seq::empty(),
                all_taken(cs),
                all_handed(cs),
                behind(d, cs).place(),
                behind(d, cs).pending(),
            )
            &&& !(behind(d, cs).place().stage is Failed)
            &&& cs.len() > 0 ==> (cs.last().is_done() <==> behind(d, cs).place().stage is Done
                && behind(d, cs).pending().len() == 0)
        },
        !(after(d.place(), s.take(end)).stage is Failed) ==> all_ok(cs),
        cs.len() > 0 && all_ok(cs.drop_last()) ==> match cs.last().r {
            Err(e) => after(d.place(), s.take(end)).stage == (Stage::Failed { error: e }),
            Ok(_) => true,
        },
    decreases cs.len(),
{
    if cs.len() == 0 {
        assert(all_taken(cs) =~= s.take(0));
        assert(all_handed(cs) + d.pending() =~= Seq::<u8>::empty() + emission(
            d.place(),
            all_taken(cs),
        ));
    } else {
        let a = cs.drop_last();
        lemma_no_end(cs);
        lemma_ok_before(cs);
        lemma_decoding(d, s, end, a);
        if all_ok(a) {
            lemma_decoding_call(d, d.place(), s, end, a, cs.last());
        }
    }
}

/// A call that gets the whole stream at once and has room for all it holds leads to where
/// the stream leads.
proof fn lemma_one_call(d: Decoder, s: Seq<u8>, one: Call<Decoder>) -> (end: int)
    requires
        d.pending().len() == 0,
        !(d.place().stage is Failed),
        decode_call(d, one),
        !one.finishing,
        one.input == s,
        one.after.pending().len() == 0,
        one.r matches Ok(p) ==> p.consumed == s.len() || p.done,
    ensures
        leads(d.place(), s, end),
        one.r matches Ok(p) ==> p.consumed == end && one.handed() == Seq::<u8>::empty()
            + emission(d.place(), s.take(end)),
        one.after.place() == after(d.place(), s.take(end)),
        one.r matches Err(e) ==> one.after.place().stage == (Stage::Failed { error: e }),
        one.r is Ok ==> !(one.after.place().stage is Failed),
        one.r matches Ok(p) ==> (p.done <==> one.after.place().stage is Done),
        forall|c: int| 0 <= c < end ==> !(#[trigger] after(d.place(), s.take(c))).halted(),
{
    let p0 = d.place();
    let (consumed, written) = choose|consumed: int, written: int|
        {
            &&& #[trigger] transduces(
                p0,
                d.pending(),
                s,
                one.room,
                one.after.place(),
                one.after.pending(),
                one.output,
                consumed,
                written,
            )
            &&& one.r == (match one.after.place().stage {
                Stage::Failed { error } => Err::<RawProgress, Error>(error),
                _ => Ok(
                    RawProgress {
                        consumed: consumed as usize,
                        written: written as usize,
                        done: one.after.place().stage is Done && one.after.pending().len() == 0,
                    },
                ),
            })
        };
    assert(d.pending() =~= Seq::empty());
    assert forall|c: int| 0 <= c < consumed implies !(#[trigger] after(p0, s.take(c))).halted() by {
        assert(takes(p0, d.pending(), s, one.room.len(), c));
    }
    let all = total(p0, d.pending(), s, consumed);
    assert(all.take(written) =~= all);
    assert(one.output.take(written) =~= all);
    consumed
}

/// Decoding in any number of calls, with any pieces of input and output, gives what one
/// call gives that gets the whole stream and has room for all it holds. Where that one
/// succeeds no other fails; they take and hand out a first part of what it took and
/// handed out, and the same once they are done, or have taken as much and handed out
/// as much. Where it fails, the first call that fails does so with the same error.
pub proof fn pieces_decode_alike(
    d: Decoder,
    s: Seq<u8>,
    one: Call<Decoder>,
    cs: Seq<Call<Decoder>>,
)
    requires
        d.pending().len() == 0,
        !(d.place().stage is Failed),
        decode_call(d, one),
        !one.finishing,
        one.input == s,
        one.after.pending().len() == 0,
        one.r matches Ok(p) ==> p.consumed == s.len() || p.done,
        decodes(d, cs),
        unended(cs),
        offered(s, cs),
    ensures
        one.r is Ok ==> {
            &&& all_ok(cs)
            &&& all_taken(cs).len() <= one.taken().len()
            &&& all_taken(cs) == one.taken().take(all_taken(cs).len() as int)
            &&& all_handed(cs).len() <= one.handed().len()
            &&& all_handed(cs) == one.handed().take(all_handed(cs).len() as int)
            &&& cs.len() > 0 && cs.last().is_done() ==> all_taken(cs) == one.taken() && all_handed(
                cs,
            ) == one.handed() && one.is_done()
            &&& all_taken(cs).len() == one.taken().len() && all_handed(cs).len()
                == one.handed().len() && cs.len() > 0 ==> cs.last().is_done() == one.is_done()
        },
        one.r matches Err(e) ==> (cs.len() > 0 && all_ok(cs.drop_last()) ==> match cs.last().r {
            Err(x) => x == e,
            Ok(_) => true,
        }),
{
    let end = lemma_one_call(d, s, one);
    lemma_decoding(d, s, end, cs);
    if one.r is Ok {
        let taken = all_taken(cs);
        let queued = behind(d, cs).pending();
        lemma_part_of_all(d.place(), s, end, one.handed(), taken, all_handed(cs), queued);
        assert(taken =~= one.taken().take(taken.len() as int));
        assert((all_handed(cs) + queued).len() == emission(d.place(), taken).len());
        if cs.len() > 0 && cs.last().is_done() {
            if taken.len() < end {
                assert(!after(d.place(), s.take(taken.len() as int)).halted());
            }
            assert(taken =~= one.taken());
        }
        if taken.len() == one.taken().len() && all_handed(cs).len() == one.handed().len() {
            assert(taken =~= s.take(end));
            assert(one.handed().len() == emission(d.place(), taken).len());
        }
    }
}

/// A call with room takes or hands out something where there is input or output waits,
/// unless it fails or the stream has ended and all of it is handed out.
pub proof fn decoding_gets_on(d: Decoder, c: Call<Decoder>)
    requires
        decode_call(d, c),
        !c.finishing,
        c.input.len() > 0 || d.pending().len() > 0,
        c.room.len() > 0,
    ensures
        c.r is Err || c.taken().len() + c.handed().len() > 0 || c.is_done(),
{
    if c.r is Ok {
        let (consumed, written) = choose|consumed: int, written: int|
            {
                &&& #[trigger] transduces(
                    d.place(),
                    d.pending(),
                    c.input,
                    c.room,
                    c.after.place(),
                    c.after.pending(),
                    c.output,
                    consumed,
                    written,
                )
                &&& c.r == (match c.after.place().stage {
                    Stage::Failed { error } => Err::<RawProgress, Error>(error),
                    _ => Ok(
                        RawProgress {
                            consumed: consumed as usize,
                            written: written as usize,
                            done: c.after.place().stage is Done && c.after.pending().len() == 0,
                        },
                    ),
                })
            };
        let t = Turn {
            input: c.input,
            room: c.room,
            m: c.after.place(),
            pending: c.after.pending(),
            output: c.output,
            consumed,
            written,
        };
        calls_get_on(d.place(), d.pending(), t);
        if consumed == 0 && written == 0 {
            assert(c.input.take(0) =~= Seq::empty());
            assert(c.after.place() == d.place());
            assert(total(d.place(), d.pending(), c.input, 0) =~= d.pending());
        }
    }
}

proof fn lemma_halted_stays(p: Place, rest: Seq<u8>)
    requires
        p.halted(),
    ensures
        after(p, rest) == p,
        emission(p, rest) == Seq::<u8>::empty(),
    decreases rest.len(),
{
    if rest.len() > 0 {
        lemma_halted_stays(p, rest.drop_last());
        assert(emission(p, rest) =~= Seq::<u8>::empty());
    }
}

proof fn lemma_cut_more(a: Seq<u8>, b: Seq<u8>)
    ensures
        cut(a + b).0 == cut(a).0 + cut(cut(a).1 + b).0,
        cut(a + b).1 == cut(cut(a).1 + b).1,
        cut(a).1.len() < ENC_CHUNK_MAX,
    decreases a.len(),
{
    let n = ENC_CHUNK_MAX as int;
    if a.len() < ENC_CHUNK_MAX {
        assert(cut(a).0 + cut(a + b).0 =~= cut(a + b).0);
    } else {
        lemma_cut_more(a.skip(n), b);
        assert((a + b).take(n) =~= a.take(n));
        assert((a + b).skip(n) =~= a.skip(n) + b);
        let rest = cut(cut(a).1 + b).0;
        assert(frame(a.take(n)) + (cut(a.skip(n)).0 + rest) =~= (frame(a.take(n)) + cut(
            a.skip(n),
        ).0) + rest);
    }
}

/// How an encoder stands once it took `fed` and handed out `handed`.
spec fn stands(p: Progressing, fed: Seq<u8>, handed: Seq<u8>) -> bool {
    match p {
        Progressing::Open { buf, pending } => buf == cut(fed).1 && handed + pending == cut(fed).0,
        Progressing::Closing { owed } => handed + owed == encoded(fed),
    }
}

proof fn lemma_encode_call(e: Encoder, fed: Seq<u8>, handed: Seq<u8>, c: Call<Encoder>)
    requires
        stands(e.progress(), fed, handed),
        e.progress() is Open,
        encode_call(e, c),
        !c.finishing,
    ensures
        c.r is Ok,
        c.after.progress() is Open,
        stands(c.after.progress(), fed + c.taken(), handed + c.handed()),
{
    let (buf, pending) = (e.progress()->buf, e.progress()->pending);
    let r = call(buf, pending, c.input, c.room.len());
    lemma_cut_more(fed, c.taken());
    calls_cut_the_input(buf, pending, c.input, c.room.len());
    assert(c.taken() == c.input.take(r.consumed as int));
    assert(c.handed() =~= r.stored);
    let more = cut(buf + c.taken()).0;
    assert((handed + r.stored) + r.pending =~= handed + (r.stored + r.pending));
    assert(handed + (pending + more) =~= (handed + pending) + more);
}

proof fn lemma_finish_call(e: Encoder, fed: Seq<u8>, handed: Seq<u8>, c: Call<Encoder>)
    requires
        stands(e.progress(), fed, handed),
        encode_call(e, c),
        c.finishing,
    ensures
        c.r is Ok,
        c.taken() == Seq::<u8>::empty(),
        c.after.progress() is Closing,
        stands(c.after.progress(), fed, handed + c.handed()),
        c.is_done() <==> c.after.progress()->owed.len() == 0,
{
    let owed = match e.progress() {
        Progressing::Open { buf, pending } => pending + tail(buf),
        Progressing::Closing { owed } => owed,
    };
    let n = least(owed.len(), c.room.len());
    assert(c.taken() =~= Seq::empty());
    assert(c.handed() =~= owed.take(n as int));
    assert((handed + owed.take(n as int)) + owed.skip(n as int) =~= handed + owed);
    if let Progressing::Open { buf, pending } = e.progress() {
        assert(handed + owed =~= (handed + pending) + tail(buf));
    }
}

proof fn lemma_encoding(e: Encoder, cs: Seq<Call<Encoder>>)
    requires
        e.is_fresh(),
        encodes(e, cs),
        in_order(cs),
    ensures
        all_ok(cs),
        stands(behind(e, cs).progress(), all_taken(cs), all_handed(cs)),
        behind(e, cs).progress() is Closing <==> has_ended(cs),
        has_ended(cs) ==> (cs.last().is_done() <==> behind(e, cs).progress()->owed.len() == 0),
    decreases cs.len(),
{
    if cs.len() == 0 {
        assert(all_handed(cs) + Seq::<u8>::empty() =~= cut(all_taken(cs)).0);
    } else {
        let a = cs.drop_last();
        let c = cs.last();
        lemma_in_order(cs);
        lemma_ok_before(cs);
        lemma_encoding(e, a);
        if c.finishing {
            lemma_finish_call(behind(e, a), all_taken(a), all_handed(a), c);
            assert(all_taken(cs) =~= all_taken(a));
        } else {
            lemma_encode_call(behind(e, a), all_taken(a), all_handed(a), c);
        }
    }
}

/// However the data is fed and the stream fetched, a new encoder that was called until it
/// is done has handed out the stream of the data, which ends with the byte 0; without
/// data it is this byte alone.
pub proof fn calls_hand_out_the_stream(e: Encoder, cs: Seq<Call<Encoder>>)
    requires
        e.is_fresh(),
        encodes(e, cs),
        in_order(cs),
        has_ended(cs),
        cs.last().is_done(),
    ensures
        all_ok(cs),
        all_handed(cs) == encoded(all_taken(cs)),
        all_handed(cs).len() > 0,
        all_handed(cs).last() == 0,
        all_taken(cs).len() == 0 ==> all_handed(cs) == seq![0u8],
{
    lemma_encoding(e, cs);
    let owed = behind(e, cs).progress()->owed;
    assert(all_handed(cs) + owed =~= all_handed(cs));
    if all_taken(cs).len() == 0 {
        assert(cut(all_taken(cs)).0 + seq![0u8] =~= seq![0u8]);
    }
}

/// A stream that leads to its end leads to nothing wrong before.
proof fn lemma_leads(p: Place, s: Seq<u8>)
    requires
        after(p, s).stage is Done,
    ensures
        leads(p, s, s.len() as int),
{
    assert(s.take(s.len() as int) =~= s);
    assert forall|c: int| 0 <= c < s.len() implies !(#[trigger] after(p, s.take(c)).stage is Failed)
        by {
        if after(p, s.take(c)).stage is Failed {
            assert(s =~= s.take(c) + s.skip(c));
            taking_is_streaming(p, s.take(c), s.skip(c));
            lemma_halted_stays(after(p, s.take(c)), s.skip(c));
        }
    }
}

#[verifier::spinoff_prover]
proof fn lemma_stream_decodes(d: Decoder, data: Seq<u8>, cap: nat, cd: Seq<Call<Decoder>>)
    requires
        cap >= ENC_CHUNK_MAX,
        d.place() == start(cap),
        d.pending().len() == 0,
        decodes(d, cd),
        unended(cd),
        offered(encoded(data), cd),
    ensures
        all_ok(cd),
        all_handed(cd).len() <= data.len(),
        all_handed(cd) == data.take(all_handed(cd).len() as int),
        cd.len() > 0 && cd.last().is_done() ==> all_handed(cd) == data,
        cd.len() > 0 && all_taken(cd) == encoded(data) && all_handed(cd).len() == data.len()
            ==> cd.last().is_done(),
{
    let s = encoded(data);
    let p = d.place();
    let end = s.len() as int;
    decode_inverts_encode(data, cap);
    lemma_leads(p, s);
    assert(s.take(end) =~= s);
    lemma_decoding(d, s, end, cd);
    let taken = all_taken(cd);
    let queued = behind(d, cd).pending();
    assert(Seq::<u8>::empty() + emission(p, s) =~= data);
    lemma_part_of_all(p, s, end, data, taken, all_handed(cd), queued);
    if cd.len() > 0 && cd.last().is_done() {
        let rest = s.skip(taken.len() as int);
        assert(s =~= taken + rest);
        taking_is_streaming(p, taken, rest);
        lemma_halted_stays(after(p, taken), rest);
        assert(all_handed(cd) + queued =~= all_handed(cd));
        assert(Seq::<u8>::empty() + emission(p, taken) =~= emission(p, s));
    }
    if taken == s && all_handed(cd).len() == data.len() {
        assert((all_handed(cd) + queued).len() == data.len());
    }
}

/// However an encoder is fed and its stream fetched, and however a decoder with a
/// dictionary of at least 64 KiB is fed the stream and its data fetched: no call fails,
/// what is handed out is a first part of the data, and the decoder is done once it took
/// the stream and handed out as much as there was, and then it has handed out the data.
pub proof fn calls_round_trip(
    e: Encoder,
    ce: Seq<Call<Encoder>>,
    d: Decoder,
    cap: nat,
    cd: Seq<Call<Decoder>>,
)
    requires
        e.is_fresh(),
        encodes(e, ce),
        in_order(ce),
        has_ended(ce),
        ce.last().is_done(),
        cap >= ENC_CHUNK_MAX,
        d.place() == start(cap),
        d.pending().len() == 0,
        decodes(d, cd),
        unended(cd),
        offered(all_handed(ce), cd),
    ensures
        all_ok(ce),
        all_ok(cd),
        all_handed(cd).len() <= all_taken(ce).len(),
        all_handed(cd) == all_taken(ce).take(all_handed(cd).len() as int),
        cd.len() > 0 && cd.last().is_done() ==> all_handed(cd) == all_taken(ce),
        cd.len() > 0 && all_taken(cd) == all_handed(ce) && all_handed(cd).len() == all_taken(
            ce,
        ).len() ==> cd.last().is_done(),
{
    calls_hand_out_the_stream(e, ce);
    lemma_stream_decodes(d, all_taken(ce), cap, cd);
}

proof fn lemma_same_answers(a: Encoder, b: Encoder, ca: Seq<Call<Encoder>>, cb: Seq<Call<Encoder>>)
    requires
        a.progress() == b.progress(),
        encodes(a, ca),
        encodes(b, cb),
        made_alike(ca, cb),
    ensures
        answered_alike(ca, cb),
        behind(a, ca).progress() == behind(b, cb).progress(),
    decreases ca.len(),
{
    if ca.len() > 0 {
        lemma_alike(ca, cb);
        lemma_same_answers(a, b, ca.drop_last(), cb.drop_last());
    }
}

/// An encoder that was reset answers every series of calls as a new one does.
pub proof fn reset_is_as_new(
    before: Encoder,
    reset: Encoder,
    new: Encoder,
    ca: Seq<Call<Encoder>>,
    cb: Seq<Call<Encoder>>,
)
    requires
        Encoder::reset_post(before, reset),
        new.is_fresh(),
        encodes(reset, ca),
        encodes(new, cb),
        made_alike(ca, cb),
    ensures
        answered_alike(ca, cb),
{
    lemma_same_answers(reset, new, ca, cb);
}

} // verus!
