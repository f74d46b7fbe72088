//! The wire form of LZMA2, stated by itself: every kind of chunk, of every size, whoever
//! wrote it. What is written so is read back.
use vstd::prelude::*;

use crate::error::Error;
use crate::lz::lemma_lz_copy_source;
use crate::lzma2_internal::coding::{at, coder_ok, fresh_mode, fresh_probs, mode_after, mode_ok};
use crate::lzma2_internal::coding::{probs_ok, put_packet, sees_packet, Coder, Eye, Lzma2Props};
use crate::lzma2_internal::coding::{Mode, Packet};
use crate::lzma2_internal::enc_core::{packet_dist, packet_len, tells};
use crate::lzma2_internal::lzma2_decoder::{applied, chunk_read, packets, props_of, stepped, Core};
use crate::lzma2_internal::lzma2_decoder::Left;
use crate::machine::{after, emission, taking_first, taking_is_streaming, taking_one, Machine};
use crate::rc::{begun, decoder_starts_with_encoder, final_code, final_code_leads, leads_to};
use crate::rc::{lemma_whole_ok, whole};
use super::decoder::{chunk_size, code_size, opened, start, Place, Stage};
use super::encoder::{lemma_body_bytes, lemma_header_bytes};

verus! {

/// A decoder whose dictionary was begun by a stored chunk, before its first byte.
pub open spec fn begun_core(cap: nat) -> Core {
    let props = Lzma2Props { lc: 3, lp: 0, pb: 2 };
    Core { probs: fresh_probs(props), mode: fresh_mode(), props, out: Seq::empty(), cap }
}

/// What a coded chunk resets before it is read.
pub enum Reset {
    /// Nothing.
    Nothing,
    /// The probabilities and the mode.
    State,
    /// These and the properties.
    Props {
        /// The new properties.
        props: Lzma2Props,
    },
    /// These and the dictionary.
    All {
        /// The new properties.
        props: Lzma2Props,
    },
}

/// A chunk.
pub enum Chunk {
    /// Bytes as they are.
    Stored {
        /// Whether the dictionary is reset.
        reset: bool,
        /// The bytes.
        data: Seq<u8>,
    },
    /// Coded packets.
    Coded {
        /// What is reset.
        reset: Reset,
        /// The packets.
        ps: Seq<Packet>,
        /// What they stand for.
        data: Seq<u8>,
    },
}

/// The properties, the probabilities, the mode and the dictionary that a chunk starts from.
pub open spec fn prepared(core: Core, reset: Reset) -> Core {
    match reset {
        Reset::Nothing => core,
        Reset::State => Core {
            probs: fresh_probs(core.props),
            mode: fresh_mode(),
            ..core
        },
        Reset::Props { props } => Core {
            props,
            probs: fresh_probs(props),
            mode: fresh_mode(),
            ..core
        },
        Reset::All { props } => Core {
            props,
            probs: fresh_probs(props),
            mode: fresh_mode(),
            out: Seq::empty(),
            ..core
        },
    }
}

/// The coder behind all packets.
pub open spec fn coder_behind(
    c: Coder,
    m: Mode,
    props: Lzma2Props,
    data: Seq<u8>,
    pos: int,
    ps: Seq<Packet>,
) -> Coder
    decreases ps.len(),
{
    if ps.len() == 0 {
        c
    } else {
        coder_behind(
            put_packet(c, m, props, data.take(pos), ps[0]),
            mode_after(m, ps[0]),
            props,
            data,
            pos + packet_len(ps[0]),
            ps.skip(1),
        )
    }
}

/// The mode behind all packets.
pub open spec fn mode_behind(m: Mode, ps: Seq<Packet>) -> Mode
    decreases ps.len(),
{
    if ps.len() == 0 {
        m
    } else {
        mode_behind(mode_after(m, ps[0]), ps.skip(1))
    }
}

/// The packets stand for `data` from `pos` on, and reach back less than `cap` bytes.
pub open spec fn stand_for(data: Seq<u8>, pos: int, m: Mode, ps: Seq<Packet>, cap: nat) -> bool
    decreases ps.len(),
{
    if ps.len() == 0 {
        pos == data.len()
    } else {
        &&& tells(data, pos, m, ps[0])
        &&& ps[0] is Literal || packet_dist(m, ps[0]) < cap
        &&& stand_for(data, pos + packet_len(ps[0]), mode_after(m, ps[0]), ps.skip(1), cap)
    }
}

/// The coder at the end of a coded chunk.
pub open spec fn coder_at_end(core: Core, ps: Seq<Packet>, data: Seq<u8>) -> Coder {
    coder_behind(
        Coder { v: whole(), probs: core.probs },
        core.mode,
        core.props,
        core.out + data,
        core.out.len() as int,
        ps,
    )
}

/// The code of the packets of a chunk that starts from `core`.
pub open spec fn body(core: Core, ps: Seq<Packet>, data: Seq<u8>) -> Seq<u8> {
    final_code(coder_at_end(core, ps, data).v)
}

/// The byte for properties.
pub open spec fn props_byte(p: Lzma2Props) -> u8 {
    ((p.pb * 5 + p.lp) * 9 + p.lc) as u8
}

/// The first byte of a coded chunk, without the bits of the size.
pub open spec fn kind(reset: Reset) -> int {
    match reset {
        Reset::Nothing => 0b1000_0000,
        Reset::State => 0b1010_0000,
        Reset::Props { props } => 0b1100_0000,
        Reset::All { props } => 0b1110_0000,
    }
}

/// The bytes of a chunk for a decoder that stands at `core`. The size of a coded chunk,
/// less one, is in 21 bits, the highest five of them in the first byte.
pub open spec fn chunk_written(core: Core, c: Chunk) -> Seq<u8> {
    match c {
        Chunk::Stored { reset, data } => {
            let n = data.len() - 1;
            seq![
                if reset {
                    1u8
                } else {
                    2u8
                },
                (n / 0x100) as u8,
                (n % 0x100) as u8,
            ] + data
        },
        Chunk::Coded { reset, ps, data } => {
            let n = data.len() - 1;
            let code = body(prepared(core, reset), ps, data);
            let k = code.len() - 1;
            seq![
                (kind(reset) + n / 0x1_0000) as u8,
                (n / 0x100 % 0x100) as u8,
                (n % 0x100) as u8,
                (k / 0x100) as u8,
                (k % 0x100) as u8,
            ] + match reset {
                Reset::Props { props } => seq![props_byte(props)],
                Reset::All { props } => seq![props_byte(props)],
                _ => Seq::empty(),
            } + code
        },
    }
}

/// A chunk may be written behind `core`: it has one byte at least, a stored chunk at most
/// 64 KiB, a coded one at most 2 MiB and 64 KiB of code, and its packets stand for its
/// data.
pub open spec fn legal(core: Core, c: Chunk) -> bool {
    match c {
        Chunk::Stored { reset, data } => 1 <= data.len() <= 0x1_0000,
        Chunk::Coded { reset, ps, data } => {
            let from = prepared(core, reset);
            &&& 1 <= data.len() <= 0x20_0000
            &&& body(from, ps, data).len() <= 0x1_0000
            &&& from.props.ok()
            &&& probs_ok(from.probs, from.props.table_len())
            &&& mode_ok(from.mode)
            &&& stand_for(
                from.out + data,
                from.out.len() as int,
                from.mode,
                ps,
                from.cap,
            )
        },
    }
}

/// Where a decoder stands behind a chunk.
pub open spec fn core_behind(core: Core, c: Chunk) -> Core {
    match c {
        Chunk::Stored { reset, data } => if reset {
            Core { out: data, ..begun_core(core.cap) }
        } else {
            Core { out: core.out + data, ..core }
        },
        Chunk::Coded { reset, ps, data } => {
            let from = prepared(core, reset);
            Core {
                probs: coder_at_end(from, ps, data).probs,
                mode: mode_behind(from.mode, ps),
                out: from.out + data,
                ..from
            }
        },
    }
}

/// The bytes that a chunk stands for.
pub open spec fn said(c: Chunk) -> Seq<u8> {
    match c {
        Chunk::Stored { reset, data } => data,
        Chunk::Coded { reset, ps, data } => data,
    }
}

/// A chunk that resets the dictionary, as the first one has to.
pub open spec fn resets_all(c: Chunk) -> bool {
    match c {
        Chunk::Stored { reset, data } => reset,
        Chunk::Coded { reset, ps, data } => reset is All,
    }
}

proof fn lemma_packets(
    c: Coder,
    m: Mode,
    props: Lzma2Props,
    data: Seq<u8>,
    pos: int,
    ps: Seq<Packet>,
    cap: nat,
    code: Seq<u8>,
)
    requires
        props.ok(),
        coder_ok(c, props.table_len()),
        mode_ok(m),
        0 <= pos <= data.len(),
        stand_for(data, pos, m, ps, cap),
    ensures
        coder_ok(coder_behind(c, m, props, data, pos, ps), props.table_len()),
        leads_to(coder_behind(c, m, props, data, pos, ps).v, code) ==> {
            &&& leads_to(c.v, code)
            &&& packets(code, at(c, code), m, props, data.take(pos), cap, data.len()) == Ok::<
                Left,
                Error,
            >(
                Left {
                    probs: coder_behind(c, m, props, data, pos, ps).probs,
                    mode: mode_behind(m, ps),
                    out: data,
                },
            )
        },
    decreases ps.len(),
{
    let out = data.take(pos);
    if ps.len() == 0 {
        assert(out =~= data);
    } else {
        let p = ps[0];
        let end = pos + packet_len(p);
        let next = put_packet(c, m, props, out, p);
        sees_packet(c, m, props, out, p, code);
        lemma_packets(next, mode_after(m, p), props, data, end, ps.skip(1), cap, code);
        match p {
            Packet::Literal { byte } => {
                assert(out.push(byte) =~= data.take(end));
            },
            _ => {
                lemma_lz_copy_source(data, pos, packet_dist(m, p) + 1, packet_len(p));
            },
        }
        if leads_to(coder_behind(c, m, props, data, pos, ps).v, code) {
            assert(applied(m, out, cap, data.len(), p) == Ok::<Seq<u8>, Error>(data.take(end)));
            assert(stepped(code, at(c, code), m, props, out, cap, data.len()) == Ok::<_, Error>(
                (at(next, code), mode_after(m, p), data.take(end)),
            )) by {
                reveal(stepped);
            }
        }
    }
}

/// The code of a coded chunk is read back.
proof fn lemma_body_read(from: Core, ps: Seq<Packet>, data: Seq<u8>)
    requires
        from.props.ok(),
        probs_ok(from.probs, from.props.table_len()),
        mode_ok(from.mode),
        stand_for(from.out + data, from.out.len() as int, from.mode, ps, from.cap),
    ensures
        body(from, ps, data).len() > 0,
        chunk_read(from, body(from, ps, data), data.len()) == Ok::<Core, Error>(
            Core {
                probs: coder_at_end(from, ps, data).probs,
                mode: mode_behind(from.mode, ps),
                out: from.out + data,
                ..from
            },
        ),
{
    reveal(chunk_read);
    let all = from.out + data;
    let c = Coder { v: whole(), probs: from.probs };
    let f = coder_at_end(from, ps, data);
    let code = body(from, ps, data);
    lemma_whole_ok();
    lemma_packets(
        c,
        from.mode,
        from.props,
        all,
        from.out.len() as int,
        ps,
        from.cap,
        code,
    );
    final_code_leads(f.v);
    assert(all.take(from.out.len() as int) =~= from.out);
    decoder_starts_with_encoder(code);
}

proof fn lemma_stored(p: Place, core: Core, data: Seq<u8>)
    requires
        p.stage matches Stage::Stored { left } && left == data.len(),
        data.len() > 0,
        p.core == Some(core) || (p.core is None && core == begun_core(p.cap)),
    ensures
        after(p, data) == (Place {
            stage: Stage::Control,
            core: Some(Core { out: core.out + data, ..core }),
            ..p
        }),
        emission(p, data) == data,
    decreases data.len(),
{
    taking_first(p, data);
    let next = p.fed(data[0]);
    let rest = data.skip(1);
    let more = Core { out: core.out.push(data[0]), ..core };
    if data.len() == 1 {
        assert(rest =~= Seq::empty());
        assert(after(next, rest) == next);
        assert(emission(next, rest) =~= Seq::<u8>::empty());
        assert(emission(p, data) =~= data);
        assert(core.out.push(data[0]) =~= core.out + data);
    } else {
        lemma_stored(next, more, rest);
        assert(seq![data[0]] + rest =~= data);
        assert(more.out + rest =~= core.out + data);
    }
}

proof fn lemma_stored_chunk(p: Place, core: Core, reset: bool, data: Seq<u8>)
    requires
        p.stage is Control,
        p.core == Some(core) || reset,
        p.cap == core.cap,
        p.first ==> reset,
        1 <= data.len() <= 0x1_0000,
    ensures
        ({
            let c = Chunk::Stored { reset, data };
            &&& after(p, chunk_written(core, c)) == (Place {
                stage: Stage::Control,
                core: Some(core_behind(core, c)),
                first: false,
                cap: p.cap,
            })
            &&& emission(p, chunk_written(core, c)) == data
        }),
{
    let f0 = chunk_written(core, Chunk::Stored { reset, data });
    let p1 = p.fed(f0[0]);
    let f1 = f0.skip(1);
    let p2 = p1.fed(f1[0]);
    let f2 = f1.skip(1);
    let p3 = p2.fed(f2[0]);
    let f3 = f2.skip(1);
    assert(f3 =~= data);
    taking_first(p, f0);
    taking_first(p1, f1);
    taking_first(p2, f2);
    let from = if reset {
        begun_core(p.cap)
    } else {
        core
    };
    assert(from.out + data =~= core_behind(core, Chunk::Stored { reset, data }).out);
    lemma_stored(p3, from, data);
    assert(emission(p2, f2) =~= data);
    assert(emission(p1, f1) =~= data);
    assert(emission(p, f0) =~= data);
}

proof fn lemma_props_byte(p: Lzma2Props)
    requires
        p.ok(),
    ensures
        props_of(props_byte(p)) == Some(p),
{
    let b = (p.pb * 5 + p.lp) * 9 + p.lc;
    assert(b == 45 * p.pb + 9 * p.lp + p.lc);
    assert(b % 9 == p.lc);
    assert(b / 9 == 5 * p.pb + p.lp);
    assert(b / 45 == p.pb);
}

#[verifier::spinoff_prover]
proof fn lemma_kind(reset: Reset, n: int)
    requires
        0 <= n < 0x20_0000,
    ensures
        ({
            let c = (kind(reset) + n / 0x1_0000) as u8;
            &&& c >= 0x80
            &&& (c >= 0xE0) == (reset is All)
            &&& c % 32 == n / 0x1_0000
            &&& c / 32 % 4 == (match reset {
                Reset::Nothing => 0int,
                Reset::State => 1,
                Reset::Props { props } => 2,
                Reset::All { props } => 3,
            })
            &&& (c / 64 % 2 == 1) == (reset is All || reset is Props)
        }),
{
}

/// What stands between the first byte of a coded chunk and its code.
spec fn header_rest(reset: Reset, n: int, k: int) -> Seq<u8> {
    seq![
        (n / 0x100 % 0x100) as u8,
        (n % 0x100) as u8,
        (k / 0x100) as u8,
        (k % 0x100) as u8,
    ] + match reset {
        Reset::Props { props } => seq![props_byte(props)],
        Reset::All { props } => seq![props_byte(props)],
        _ => Seq::empty(),
    }
}

#[verifier::spinoff_prover]
proof fn lemma_opened(at: Option<Core>, core: Core, reset: Reset, control: u8, h: Seq<u8>)
    requires
        at == Some(core) || reset is All,
        prepared(core, reset).props.ok(),
        control / 32 % 4 == (match reset {
            Reset::Nothing => 0int,
            Reset::State => 1,
            Reset::Props { props } => 2,
            Reset::All { props } => 3,
        }),
        reset is All || reset is Props ==> h[4] == props_byte(prepared(core, reset).props),
    ensures
        opened(at, core.cap, control, h[4]) == Some(prepared(core, reset)),
{
    lemma_props_byte(prepared(core, reset).props);
}

#[verifier::spinoff_prover]
proof fn lemma_sizes(control: u8, n: int, k: int, h: Seq<u8>)
    requires
        0 <= n < 0x20_0000,
        0 <= k < 0x1_0000,
        control % 32 == n / 0x1_0000,
        h.len() >= 4,
        h[0] == n / 0x100 % 0x100,
        h[1] == n % 0x100,
        h[2] == k / 0x100,
        h[3] == k % 0x100,
    ensures
        chunk_size(control, h) == n + 1,
        code_size(h) == k + 1,
{
}

#[verifier::spinoff_prover]
proof fn lemma_header(p: Place, core: Core, reset: Reset, n: int, k: int)
    requires
        p.stage is Control,
        p.core == Some(core) || reset is All,
        p.cap == core.cap,
        p.first ==> reset is All,
        0 <= n < 0x20_0000,
        0 <= k < 0x1_0000,
        prepared(core, reset).props.ok(),
    ensures
        ({
            let control = (kind(reset) + n / 0x1_0000) as u8;
            let head = seq![control] + header_rest(reset, n, k);
            &&& after(p, head) == (Place {
                stage: Stage::Body {
                    n: (n + 1) as nat,
                    size: (k + 1) as nat,
                    got: Seq::empty(),
                },
                core: Some(prepared(core, reset)),
                first: false,
                cap: p.cap,
            })
            &&& emission(p, head) == Seq::<u8>::empty()
        }),
{
    let control = (kind(reset) + n / 0x1_0000) as u8;
    let h = header_rest(reset, n, k);
    lemma_kind(reset, n);
    taking_is_streaming(p, seq![control], h);
    taking_one(p, control);
    let p1 = p.fed(control);
    assert(p1.stage == (Stage::Header { control, got: Seq::empty() }));
    lemma_header_bytes(p1, h);
    assert(Seq::<u8>::empty() + h =~= h);
    lemma_opened(p.core, core, reset, control, h);
    lemma_sizes(control, n, k, h);
    assert(emission(p, seq![control] + h) =~= Seq::<u8>::empty());
}

proof fn lemma_coded_chunk(p: Place, core: Core, reset: Reset, ps: Seq<Packet>, data: Seq<u8>)
    requires
        p.stage is Control,
        p.core == Some(core) || reset is All,
        p.cap == core.cap,
        p.first ==> reset is All,
        legal(core, Chunk::Coded { reset, ps, data }),
    ensures
        ({
            let c = Chunk::Coded { reset, ps, data };
            &&& after(p, chunk_written(core, c)) == (Place {
                stage: Stage::Control,
                core: Some(core_behind(core, c)),
                first: false,
                cap: p.cap,
            })
            &&& emission(p, chunk_written(core, c)) == data
        }),
{
    let from = prepared(core, reset);
    let code = body(from, ps, data);
    let n = data.len() - 1;
    lemma_body_read(from, ps, data);
    let k = code.len() - 1;
    let head = seq![(kind(reset) + n / 0x1_0000) as u8] + header_rest(reset, n, k);
    assert(chunk_written(core, Chunk::Coded { reset, ps, data }) =~= head + code);
    lemma_header(p, core, reset, n, k);
    taking_is_streaming(p, head, code);
    assert(Seq::<u8>::empty() + code =~= code);
    lemma_body_bytes(after(p, head), code);
    assert((from.out + data).skip(from.out.len() as int) =~= data);
    assert(emission(p, head + code) =~= data);
}

/// A chunk of every kind and size is read back: the bytes that it stands for come out, and
/// the decoder is left with the probabilities, the mode, the properties and the
/// dictionary of whoever wrote it.
pub proof fn chunks_read_back(p: Place, core: Core, c: Chunk)
    requires
        p.stage is Control,
        p.core == Some(core) || resets_all(c),
        p.cap == core.cap,
        p.first ==> resets_all(c),
        legal(core, c),
    ensures
        after(p, chunk_written(core, c)) == (Place {
            stage: Stage::Control,
            core: Some(core_behind(core, c)),
            first: false,
            cap: p.cap,
        }),
        emission(p, chunk_written(core, c)) == said(c),
{
    match c {
        Chunk::Stored { reset, data } => {
            lemma_stored_chunk(p, core, reset, data);
        },
        Chunk::Coded { reset, ps, data } => {
            lemma_coded_chunk(p, core, reset, ps, data);
        },
    }
}

/// The chunks behind `core`, and the end.
pub open spec fn stream_written(core: Core, cs: Seq<Chunk>) -> Seq<u8>
    decreases cs.len(),
{
    if cs.len() == 0 {
        seq![0u8]
    } else {
        chunk_written(core, cs[0]) + stream_written(core_behind(core, cs[0]), cs.skip(1))
    }
}

/// The chunks may be written one behind the other.
pub open spec fn all_legal(core: Core, cs: Seq<Chunk>) -> bool
    decreases cs.len(),
{
    cs.len() > 0 ==> legal(core, cs[0]) && all_legal(core_behind(core, cs[0]), cs.skip(1))
}

/// The bytes that the chunks stand for.
pub open spec fn all_said(cs: Seq<Chunk>) -> Seq<u8>
    decreases cs.len(),
{
    if cs.len() == 0 {
        Seq::empty()
    } else {
        said(cs[0]) + all_said(cs.skip(1))
    }
}

proof fn lemma_stream(p: Place, core: Core, cs: Seq<Chunk>)
    requires
        p.stage is Control,
        p.core == Some(core) || (cs.len() > 0 && resets_all(cs[0])) || cs.len() == 0,
        p.cap == core.cap,
        p.first && cs.len() > 0 ==> resets_all(cs[0]),
        all_legal(core, cs),
    ensures
        after(p, stream_written(core, cs)).stage is Done,
        emission(p, stream_written(core, cs)) == all_said(cs),
    decreases cs.len(),
{
    if cs.len() == 0 {
        taking_one(p, 0u8);
    } else {
        let next = core_behind(core, cs[0]);
        let head = chunk_written(core, cs[0]);
        let rest = stream_written(next, cs.skip(1));
        chunks_read_back(p, core, cs[0]);
        taking_is_streaming(p, head, rest);
        lemma_stream(after(p, head), next, cs.skip(1));
    }
}

/// A whole stream is read back, whatever its chunks carry over from each other or reset,
/// as long as the first one resets everything.
pub proof fn streams_read_back(cap: nat, core: Core, cs: Seq<Chunk>)
    requires
        core.cap == cap,
        cs.len() > 0 ==> resets_all(cs[0]),
        all_legal(core, cs),
    ensures
        after(start(cap), stream_written(core, cs)).stage is Done,
        emission(start(cap), stream_written(core, cs)) == all_said(cs),
{
    lemma_stream(start(cap), core, cs);
}

/// A coded chunk that is read without error makes exactly as many bytes as its first byte
/// and the two behind it say, with the low five bits of the first one on top.
pub proof fn coded_chunks_have_their_size(p: Place, b: Seq<u8>)
    requires
        p.stage is Control,
        b.len() > 6,
        b[0] >= 0x80,
        b.len() == (if b[0] / 64 % 2 == 1 {
            6
        } else {
            5int
        }) + b[3] * 0x100 + b[4] + 1,
        !(after(p, b).stage is Failed),
    ensures
        after(p, b).stage is Control,
        emission(p, b).len() == (b[0] % 32) * 0x1_0000 + b[1] * 0x100 + b[2] + 1,
{
    let n = if b[0] / 64 % 2 == 1 {
        6
    } else {
        5int
    };
    let head = b.subrange(1, n);
    let code = b.skip(n);
    assert(b =~= seq![b[0]] + (head + code));
    taking_is_streaming(p, seq![b[0]], head + code);
    taking_one(p, b[0]);
    let p1 = p.fed(b[0]);
    if p1.stage is Failed {
        lemma_failed_stays(p1, head + code);
    }
    taking_is_streaming(p1, head, code);
    lemma_header_bytes(p1, head);
    assert(Seq::<u8>::empty() + head =~= head);
    let p2 = after(p1, head);
    if p2.stage is Failed {
        lemma_failed_stays(p2, code);
    }
    assert(Seq::<u8>::empty() + code =~= code);
    let size = p2.stage->Body_n;
    let core = p2.core->0;
    lemma_body_bytes(p2, code);
    if chunk_read(core, code, size) is Err {
        lemma_body_fails(p2, code);
    }
    if let Ok(c) = chunk_read(core, code, size) {
        reveal(chunk_read);
        lemma_packets_len(
            code,
            Eye { d: begun(code), probs: core.probs },
            core.mode,
            core.props,
            core.out,
            core.cap,
            core.out.len() + size,
        );
    }
}

proof fn lemma_failed_stays(p: Place, b: Seq<u8>)
    requires
        p.stage is Failed,
    ensures
        after(p, b) == p,
    decreases b.len(),
{
    if b.len() > 0 {
        lemma_failed_stays(p, b.drop_last());
    }
}

proof fn lemma_body_fails(p: Place, bytes: Seq<u8>)
    requires
        p.stage matches Stage::Body { n, size, got } && got.len() + bytes.len() == size,
        bytes.len() > 0,
        chunk_read(p.core->0, p.stage->Body_got + bytes, p.stage->Body_n) is Err,
    ensures
        after(p, bytes).stage is Failed,
    decreases bytes.len(),
{
    taking_first(p, bytes);
    let next = p.fed(bytes[0]);
    let rest = bytes.skip(1);
    let got = p.stage->Body_got;
    if bytes.len() == 1 {
        assert(rest =~= Seq::empty());
        assert(got.push(bytes[0]) =~= got + bytes);
        assert(after(next, rest) == next);
    } else {
        assert(got.push(bytes[0]) + rest =~= got + bytes);
        lemma_body_fails(next, rest);
    }
}

proof fn lemma_packets_len(
    input: Seq<u8>,
    e: Eye,
    m: Mode,
    props: Lzma2Props,
    out: Seq<u8>,
    cap: nat,
    limit: nat,
)
    requires
        out.len() <= limit,
    ensures
        packets(input, e, m, props, out, cap, limit) matches Ok(l) ==> l.out.len() == limit,
    decreases limit - out.len(),
{
    if out.len() < limit {
        if let Ok((e2, m2, more)) = stepped(input, e, m, props, out, cap, limit) {
            if out.len() < more.len() <= limit {
                lemma_packets_len(input, e2, m2, props, more, cap, limit);
            }
        }
    }
}

} // verus!
