//! The encoder of LZMA chunks.
//!
//! Low levels parse greedily. The others choose packets by price as well, a window
//! at a time, and keep the shorter code.
use vstd::prelude::*;

use crate::error::Error;
use crate::lzma2::decoder::default_props;
use crate::lzma2_internal::chain::{candidates, candidates_are_matches, longest, HashChain, Reach};
use crate::lzma2_internal::coding::{fresh_mode, mode_after, mode_ok, Mode, Packet};
use crate::lzma2_internal::enc_core::{all_tell, code_of, code_reads_back, coded_all, enc_ok};
use crate::lzma2_internal::enc_core::{fresh_enc, greedy_choice, lemma_all_tell_more};
use crate::lzma2_internal::enc_core::{lemma_coded_all_more, lemma_fresh_enc, lemma_greedy_choice};
use crate::lzma2_internal::enc_core::{lemma_telling_packet, mode_after_all, packet_len, tells};
use crate::lzma2_internal::enc_core::{telling_packets_fit, told, Enc, LzmaEncCore};
use crate::lzma2_internal::lzma2_decoder::{chunk_read, fresh_core, has_start, Core};
use crate::lzma2_internal::parser::{no_rows, opening, parsed, path, trace_back};
use crate::lzma2_internal::parser::{window_tells, Board, LenPriceCache, OptNode, Rows, Scene};
use crate::lzma2_internal::parser::Window;
use crate::lzma2_internal::prices::Prices;
use crate::traits::least;

verus! {

/// The byte that stands for the properties of the chunks.
pub const LZMA2_PROPS_BYTE: u8 = 0x5d;

/// The tables for lengths are made anew after this many packets.
pub const LEN_PRICE_REFRESH: usize = 128;

/// The longest chunk.
pub const CHUNK_MAX: usize = 0x20_0000;

/// How hard the encoder tries.
#[derive(Debug, Clone, Copy, PartialEq, Eq, Structural)]
pub struct EncoderParams {
    /// How many positions are tried for a match.
    pub max_chain: usize,
    /// A match of this length ends the search.
    pub nice_match: u32,
    /// A match of this length ends a window.
    pub nice_len: u32,
    /// How long a window is; zero for a greedy parse.
    pub opt_window: u32,
}

/// The parameters of a level. Those above the ninth are the ninth.
pub open spec fn level_params(level: u8) -> EncoderParams {
    if level == 0 {
        EncoderParams { max_chain: 4, nice_match: 8, nice_len: 8, opt_window: 0 }
    } else if level == 1 {
        EncoderParams { max_chain: 8, nice_match: 16, nice_len: 16, opt_window: 0 }
    } else if level == 2 {
        EncoderParams { max_chain: 16, nice_match: 32, nice_len: 32, opt_window: 0 }
    } else if level == 3 {
        EncoderParams { max_chain: 32, nice_match: 64, nice_len: 16, opt_window: 512 }
    } else if level == 4 {
        EncoderParams { max_chain: 64, nice_match: 128, nice_len: 24, opt_window: 1024 }
    } else if level == 5 {
        EncoderParams { max_chain: 128, nice_match: 192, nice_len: 32, opt_window: 2048 }
    } else if level == 6 {
        EncoderParams { max_chain: 256, nice_match: 273, nice_len: 48, opt_window: 4096 }
    } else if level == 7 {
        EncoderParams { max_chain: 512, nice_match: 273, nice_len: 64, opt_window: 4096 }
    } else if level == 8 {
        EncoderParams { max_chain: 1024, nice_match: 273, nice_len: 96, opt_window: 4096 }
    } else {
        EncoderParams { max_chain: 2048, nice_match: 273, nice_len: 128, opt_window: 4096 }
    }
}

/// A higher level tries more positions, goes on to longer matches and looks at longer
/// windows.
pub proof fn levels_are_monotonic(a: u8, b: u8)
    requires
        a <= b,
    ensures
        level_params(a).max_chain <= level_params(b).max_chain,
        level_params(a).nice_match <= level_params(b).nice_match,
        level_params(a).opt_window <= level_params(b).opt_window,
{
}

impl EncoderParams {
    /// The parameters of a level.
    pub fn from_level(level: u8) -> (p: Self)
        ensures
            p == level_params(level),
    {
        match level {
            0 => EncoderParams { max_chain: 4, nice_match: 8, nice_len: 8, opt_window: 0 },
            1 => EncoderParams { max_chain: 8, nice_match: 16, nice_len: 16, opt_window: 0 },
            2 => EncoderParams { max_chain: 16, nice_match: 32, nice_len: 32, opt_window: 0 },
            3 => EncoderParams { max_chain: 32, nice_match: 64, nice_len: 16, opt_window: 512 },
            4 => EncoderParams { max_chain: 64, nice_match: 128, nice_len: 24, opt_window: 1024 },
            5 => EncoderParams { max_chain: 128, nice_match: 192, nice_len: 32, opt_window: 2048 },
            6 => EncoderParams { max_chain: 256, nice_match: 273, nice_len: 48, opt_window: 4096 },
            7 => EncoderParams { max_chain: 512, nice_match: 273, nice_len: 64, opt_window: 4096 },
            8 => EncoderParams { max_chain: 1024, nice_match: 273, nice_len: 96, opt_window: 4096 },
            _ => EncoderParams { max_chain: 2048, nice_match: 273, nice_len: 128, opt_window: 4096 },
        }
    }

    /// How far matches are looked for.
    pub open spec fn reach(self, dict_size: u32) -> Reach {
        Reach { dict: dict_size, max_chain: self.max_chain, nice_match: self.nice_match }
    }
}

/// The packet of a greedy parse at `pos`.
pub open spec fn greedy_packet(data: Seq<u8>, pos: int, m: Mode, reach: Reach) -> Packet {
    greedy_choice(data, pos, m, longest(candidates(data, pos, reach, pos)))
}

/// The packets of a greedy parse from `pos` on.
pub open spec fn greedy(data: Seq<u8>, pos: int, m: Mode, reach: Reach) -> Seq<Packet>
    decreases data.len() - pos,
{
    if pos >= data.len() {
        Seq::empty()
    } else {
        let p = greedy_packet(data, pos, m, reach);
        let n = packet_len(p);
        if n == 0 || pos + n > data.len() {
            Seq::empty()
        } else {
            seq![p] + greedy(data, pos + n, mode_after(m, p), reach)
        }
    }
}

/// How far a parse by price is.
pub struct Stand {
    /// The encoder.
    pub e: Enc,
    /// The tables for lengths.
    pub rows: Rows,
    /// How many packets were coded since they were made.
    pub since: nat,
}

/// The tables and the count at the start of a window.
pub open spec fn refreshed(st: Stand) -> Stand {
    if st.since >= LEN_PRICE_REFRESH {
        Stand { e: st.e, rows: no_rows(), since: 0 }
    } else {
        st
    }
}

/// The window at `pos`.
pub open spec fn scene(
    data: Seq<u8>,
    pos: int,
    probs: Seq<u16>,
    dict_size: u32,
    params: EncoderParams,
) -> Scene {
    Scene {
        data,
        start: pos,
        limit: least(params.opt_window as nat, (data.len() - pos) as nat),
        probs,
        reach: params.reach(dict_size),
        nice_len: params.nice_len,
    }
}

/// The board at the end of the window at `pos`, and up to where packets are taken.
pub open spec fn window_at(
    data: Seq<u8>,
    pos: int,
    st: Stand,
    dict_size: u32,
    params: EncoderParams,
) -> (Board, nat) {
    let s = scene(data, pos, st.e.c.probs, dict_size, params);
    parsed(s, Board { t: opening(st.e.m, s.limit), rows: st.rows }, 0)
}

/// The packets of a parse by price from `pos` on.
pub open spec fn optimal(
    data: Seq<u8>,
    pos: int,
    st: Stand,
    dict_size: u32,
    params: EncoderParams,
) -> Seq<Packet>
    decreases data.len() - pos,
{
    if pos >= data.len() {
        Seq::empty()
    } else {
        let st = refreshed(st);
        let (b, end) = window_at(data, pos, st, dict_size, params);
        let ps = path(b.t, end);
        if end == 0 || pos + end > data.len() {
            Seq::empty()
        } else {
            ps + optimal(
                data,
                pos + end,
                Stand { e: coded_all(st.e, ps), rows: b.rows, since: st.since + ps.len() },
                dict_size,
                params,
            )
        }
    }
}

/// A parse by price before the first packet.
pub open spec fn fresh_stand() -> Stand {
    Stand { e: fresh_enc(), rows: no_rows(), since: LEN_PRICE_REFRESH as nat }
}

/// The packets of the chunk that holds `data`: by price, or greedily where the code is
/// shorter or the level says so.
pub open spec fn chunk_packets(data: Seq<u8>, dict_size: u32, params: EncoderParams) -> Seq<Packet> {
    let g = greedy(data, 0, fresh_mode(), params.reach(dict_size));
    if params.opt_window == 0 {
        g
    } else {
        let o = optimal(data, 0, fresh_stand(), dict_size, params);
        if code_of(g).len() < code_of(o).len() {
            g
        } else {
            o
        }
    }
}

/// The code of the chunk that holds `data`.
pub open spec fn chunk_code(data: Seq<u8>, dict_size: u32, params: EncoderParams) -> Seq<u8> {
    code_of(chunk_packets(data, dict_size, params))
}

proof fn lemma_greedy_packet(data: Seq<u8>, pos: int, m: Mode, reach: Reach)
    requires
        0 <= pos < data.len() <= CHUNK_MAX,
        mode_ok(m),
    ensures
        tells(data, pos, m, greedy_packet(data, pos, m, reach)),
        packet_len(greedy_packet(data, pos, m, reach)) > 0,
{
    candidates_are_matches(data, pos, reach, pos);
    lemma_greedy_choice(data, pos, m, longest(candidates(data, pos, reach, pos)));
}

/// The greedy packets stand for the data.
pub proof fn greedy_packets_tell(data: Seq<u8>, pos: int, m: Mode, reach: Reach)
    requires
        0 <= pos <= data.len() <= CHUNK_MAX,
        mode_ok(m),
    ensures
        all_tell(data, pos, m, greedy(data, pos, m, reach)),
        told(greedy(data, pos, m, reach)) == data.len() - pos,
    decreases data.len() - pos,
{
    if pos < data.len() {
        let p = greedy_packet(data, pos, m, reach);
        lemma_greedy_packet(data, pos, m, reach);
        greedy_packets_tell(data, pos + packet_len(p), mode_after(m, p), reach);
        let ps = greedy(data, pos, m, reach);
        assert(ps[0] == p);
        assert(ps.skip(1) =~= greedy(data, pos + packet_len(p), mode_after(m, p), reach));
    }
}

proof fn lemma_window(
    data: Seq<u8>,
    pos: int,
    st: Stand,
    dict_size: u32,
    params: EncoderParams,
)
    requires
        0 <= pos < data.len() <= CHUNK_MAX,
        params.opt_window > 0,
        enc_ok(st.e),
        st.e.out == data.take(pos),
    ensures
        ({
            let (b, end) = window_at(data, pos, st, dict_size, params);
            let ps = path(b.t, end);
            &&& 1 <= end <= params.opt_window
            &&& pos + end <= data.len()
            &&& all_tell(data, pos, st.e.m, ps)
            &&& told(ps) == end
            &&& ps.len() <= end
            &&& enc_ok(coded_all(st.e, ps))
            &&& coded_all(st.e, ps).out == data.take(pos + end)
            &&& coded_all(st.e, ps).m == mode_after_all(st.e.m, ps)
        }),
{
    let s = scene(data, pos, st.e.c.probs, dict_size, params);
    window_tells(s, st.e.m, st.rows);
    let (b, end) = window_at(data, pos, st, dict_size, params);
    telling_packets_fit(st.e, data, pos, path(b.t, end), data.len());
}

/// The packets that were chosen by price stand for the data.
pub proof fn optimal_packets_tell(
    data: Seq<u8>,
    pos: int,
    st: Stand,
    dict_size: u32,
    params: EncoderParams,
)
    requires
        0 <= pos <= data.len() <= CHUNK_MAX,
        params.opt_window > 0,
        enc_ok(st.e),
        st.e.out == data.take(pos),
    ensures
        all_tell(data, pos, st.e.m, optimal(data, pos, st, dict_size, params)),
        told(optimal(data, pos, st, dict_size, params)) == data.len() - pos,
    decreases data.len() - pos,
{
    if pos < data.len() {
        let st = refreshed(st);
        lemma_window(data, pos, st, dict_size, params);
        let (b, end) = window_at(data, pos, st, dict_size, params);
        let ps = path(b.t, end);
        let next = Stand { e: coded_all(st.e, ps), rows: b.rows, since: st.since + ps.len() };
        optimal_packets_tell(data, pos + end, next, dict_size, params);
        lemma_all_tell_more(
            data,
            pos,
            st.e.m,
            ps,
            optimal(data, pos + end, next, dict_size, params),
        );
    }
}

proof fn lemma_chunk_packets(data: Seq<u8>, dict_size: u32, params: EncoderParams)
    requires
        data.len() <= CHUNK_MAX,
    ensures
        all_tell(data, 0, fresh_mode(), chunk_packets(data, dict_size, params)),
        told(chunk_packets(data, dict_size, params)) == data.len(),
{
    greedy_packets_tell(data, 0, fresh_mode(), params.reach(dict_size));
    if params.opt_window > 0 {
        lemma_fresh_enc();
        assert(data.take(0) =~= Seq::empty());
        optimal_packets_tell(data, 0, fresh_stand(), dict_size, params);
    }
}

/// At every level, a decoder with fresh probabilities reads the data from its code.
pub proof fn chunk_reads_back(data: Seq<u8>, dict_size: u32, params: EncoderParams, cap: nat)
    requires
        data.len() <= CHUNK_MAX,
        data.len() <= cap,
    ensures
        has_start(chunk_code(data, dict_size, params)),
        ({
            let f = coded_all(fresh_enc(), chunk_packets(data, dict_size, params));
            let c = fresh_core(default_props(), cap);
            chunk_read(c, chunk_code(data, dict_size, params), data.len()) == Ok::<Core, Error>(
                Core { probs: f.c.probs, mode: f.m, out: data, ..c },
            )
        }),
{
    lemma_chunk_packets(data, dict_size, params);
    code_reads_back(data, chunk_packets(data, dict_size, params), cap);
}

/// The code is never longer than that of a greedy parse.
pub proof fn price_never_loses(data: Seq<u8>, dict_size: u32, params: EncoderParams)
    ensures
        chunk_code(data, dict_size, params).len() <= code_of(
            greedy(data, 0, fresh_mode(), params.reach(dict_size)),
        ).len(),
{
}

/// Parses greedily.
fn encode_greedy(input: &[u8], dict_size: u32, params: EncoderParams) -> (body: Vec<u8>)
    requires
        input@.len() <= CHUNK_MAX,
    ensures
        body@ == code_of(greedy(input@, 0, fresh_mode(), params.reach(dict_size))),
{
    let reach = Reach {
        dict: dict_size,
        max_chain: params.max_chain,
        nice_match: params.nice_match,
    };
    let mut core = LzmaEncCore::new();
    let mut hc = HashChain::new(input, dict_size);
    let mut pos: usize = 0;
    let ghost goal = coded_all(fresh_enc(), greedy(input@, 0, fresh_mode(), reach));
    proof {
        lemma_fresh_enc();
        assert(input@.take(0) =~= Seq::empty());
    }
    while pos < input.len()
        invariant
            pos <= input.len(),
            input@.len() <= CHUNK_MAX,
            reach == params.reach(dict_size),
            core.inv(),
            enc_ok(core@),
            core.pos == pos,
            core@.out == input@.take(pos as int),
            hc.inv(input@, dict_size, pos as int),
            coded_all(core@, greedy(input@, pos as int, core@.m, reach)) == goal,
        decreases input.len() - pos,
    {
        let ghost e = core@;
        let ghost p = greedy_packet(input@, pos as int, e.m, reach);
        proof {
            candidates_are_matches(input@, pos as int, reach, pos as int);
            lemma_greedy_packet(input@, pos as int, e.m, reach);
            lemma_telling_packet(e, input@, pos as int, p, input@.len());
            let ps = greedy(input@, pos as int, e.m, reach);
            assert(ps[0] == p);
            assert(ps.skip(1) =~= greedy(
                input@,
                pos + packet_len(p),
                mode_after(e.m, p),
                reach,
            ));
        }
        let (new_len, new_dist): (usize, usize) = hc.find_longest(input, pos, reach);
        let next: usize = pos + core.emit_greedy(input, new_len, new_dist);
        hc.insert_all(input, Ghost(dict_size), pos, next);
        pos = next;
    }
    core.rc.finish()
}

/// Codes packets, last first, that stand for the data from the current position on.
fn replay(core: &mut LzmaEncCore, input: &[u8], decisions: Vec<Packet>)
    requires
        old(core).inv(),
        enc_ok(old(core)@),
        old(core).pos <= input@.len(),
        old(core).out@ == input@.take(old(core).pos as int),
        all_tell(input@, old(core).pos as int, old(core)@.m, decisions@.reverse()),
    ensures
        final(core).inv(),
        final(core)@ == coded_all(old(core)@, decisions@.reverse()),
        final(core).pos == old(core).pos + told(decisions@.reverse()),
{
    let ghost goal = coded_all(core@, decisions@.reverse());
    let ghost end = core.pos + told(decisions@.reverse());
    let mut n: usize = decisions.len();
    assert(decisions@.take(n as int) =~= decisions@);
    while n > 0
        invariant
            n <= decisions@.len(),
            core.inv(),
            enc_ok(core@),
            core.pos <= input@.len(),
            core.out@ == input@.take(core.pos as int),
            all_tell(input@, core.pos as int, core@.m, decisions@.take(n as int).reverse()),
            coded_all(core@, decisions@.take(n as int).reverse()) == goal,
            core.pos + told(decisions@.take(n as int).reverse()) == end,
        decreases n,
    {
        let ghost rest = decisions@.take(n as int).reverse();
        let p = decisions[n - 1];
        proof {
            assert(rest[0] == p);
            assert(rest.skip(1) =~= decisions@.take(n - 1).reverse());
            assert(packet_len(p) > 0);
            lemma_telling_packet(core@, input@, core.pos as int, p, input@.len());
        }
        core.emit(input, p);
        n = n - 1;
    }
    assert(decisions@.take(0).reverse() =~= Seq::empty());
}

/// Chooses packets by price.
fn encode_optimal(input: &[u8], dict_size: u32, params: EncoderParams) -> (body: Vec<u8>)
    requires
        input@.len() <= CHUNK_MAX,
        params.opt_window > 0,
    ensures
        body@ == code_of(optimal(input@, 0, fresh_stand(), dict_size, params)),
{
    let reach = Reach {
        dict: dict_size,
        max_chain: params.max_chain,
        nice_match: params.nice_match,
    };
    let prices = Prices::new();
    let mut core = LzmaEncCore::new();
    let mut hc = HashChain::new(input, dict_size);
    let mut nodes: Vec<OptNode> = Vec::new();
    let mut found: Vec<(u32, u32)> = Vec::new();
    let mut cache = LenPriceCache::new();
    let mut since: usize = LEN_PRICE_REFRESH;
    let mut pos: usize = 0;
    let ghost goal = coded_all(
        fresh_enc(),
        optimal(input@, 0, fresh_stand(), dict_size, params),
    );
    proof {
        lemma_fresh_enc();
        assert(input@.take(0) =~= Seq::empty());
    }
    while pos < input.len()
        invariant
            pos <= input.len(),
            input@.len() <= CHUNK_MAX,
            params.opt_window > 0,
            reach == params.reach(dict_size),
            prices.inv(),
            core.inv(),
            enc_ok(core@),
            core.pos == pos,
            core@.out == input@.take(pos as int),
            hc.inv(input@, dict_size, pos as int),
            cache.inv(),
            since <= pos + LEN_PRICE_REFRESH,
            coded_all(
                core@,
                optimal(
                    input@,
                    pos as int,
                    (Stand { e: core@, rows: cache@, since: since as nat }),
                    dict_size,
                    params,
                ),
            ) == goal,
        decreases input.len() - pos,
    {
        let ghost st0 = Stand { e: core@, rows: cache@, since: since as nat };
        if since >= LEN_PRICE_REFRESH {
            cache.reset();
            since = 0;
        }
        let ghost st = refreshed(st0);
        assert(st == (Stand { e: core@, rows: cache@, since: since as nat }));
        let rest: usize = input.len() - pos;
        let limit: usize = if (params.opt_window as u64) < rest as u64 {
            params.opt_window as usize
        } else {
            rest
        };
        proof {
            lemma_window(input@, pos as int, st, dict_size, params);
        }
        let ghost (b, last) = window_at(input@, pos as int, st, dict_size, params);
        let state: usize = core.state;
        let reps: [u32; 4] = core.reps;
        let window = Window {
            input,
            start: pos,
            limit,
            probs: core.probs.as_slice(),
            prices: &prices,
            reach,
            nice_len: params.nice_len,
        };
        assert(window@ == scene(input@, pos as int, st.e.c.probs, dict_size, params));
        let end: usize = window.parse_window(
            &hc,
            state,
            reps,
            &mut nodes,
            &mut cache,
            &mut found,
        );
        let decisions = trace_back(&nodes, end);
        let taken: usize = decisions.len();
        let ghost ps = path(b.t, last);
        proof {
            assert(decisions@.reverse() == ps);
            assert(taken == ps.len());
            let next = Stand { e: coded_all(st.e, ps), rows: b.rows, since: st.since + ps.len() };
            lemma_coded_all_more(
                st.e,
                ps,
                optimal(input@, pos + end, next, dict_size, params),
            );
        }
        replay(&mut core, input, decisions);
        hc.insert_all(input, Ghost(dict_size), pos, pos + end);
        pos = pos + end;
        since = since + taken;
    }
    core.rc.finish()
}

/// The code of a chunk that holds `input`, for a decoder with fresh probabilities.
/// There is no end marker: the chunk says how long the data is. Matches reach back
/// `dict_size` bytes at most.
pub fn encode_lzma_chunk(input: &[u8], dict_size: u32, params: EncoderParams) -> (body: Vec<u8>)
    requires
        input@.len() <= CHUNK_MAX,
    ensures
        body@ == chunk_code(input@, dict_size, params),
{
    let greedy = encode_greedy(input, dict_size, params);
    if params.opt_window == 0 {
        return greedy;
    }
    let opt = encode_optimal(input, dict_size, params);
    if greedy.len() < opt.len() {
        greedy
    } else {
        opt
    }
}

} // verus!
