//! Chooses packets by price.
//!
//! A window of the data is laid out as a board: for each position, the least price
//! at which a series of packets was seen to get there, and the last of these packets.
//! Positions are gone through in order, and from each all packets that can stand
//! there are tried. When a long match was met, or a fixed number of positions, the
//! packets that lead to the end of what was looked at are taken.
use vstd::prelude::*;

use crate::lzma2::decoder::default_props;
use crate::lzma2_internal::chain::{candidates, candidates_are_matches, longest, mounting, pairs};
use crate::lzma2_internal::chain::{HashChain, Reach};
use crate::lzma2_internal::coding::{fresh_mode, mode_after, mode_ok, packet_ok, pos_state};
use crate::lzma2_internal::coding::{probs_ok, Mode, Packet, IS_MATCH, IS_REP, IS_REP0};
use crate::lzma2_internal::coding::{IS_REP0_LONG, IS_REP1, IS_REP2, LIT_STATES, MATCH_LEN};
use crate::lzma2_internal::coding::{MAX_MATCH_LEN, REP_LEN};
use crate::lzma2_internal::enc_core::{all_tell, lemma_all_tell_more, lemma_rep_len};
use crate::lzma2_internal::enc_core::{longest_allowed, match_ok, mode_after_all, packet_dist};
use crate::lzma2_internal::enc_core::{packet_len, rep_len, rep_match_len, tells, told};
use crate::lzma2_internal::lzma2_decoder::lemma_table_len;
use crate::lzma2_internal::prices::{byte_cost, costs_are_bounded, dist_cost, len_cost, price};
use crate::lzma2_internal::prices::Prices;
use crate::traits::least;

verus! {

/// After this many positions packets are taken.
pub const COMMIT_CAP: usize = 192;

/// The price of what was not reached.
pub const INFINITY_PRICE: u32 = 0xFFFF_FFFF;

/// What is known of a position.
pub struct Node {
    /// The least price to get there.
    pub price: nat,
    /// Where the last packet stands.
    pub prev: nat,
    /// The last packet.
    pub step: Packet,
    /// The mode behind it.
    pub m: Mode,
}

/// The tables of probabilities by which lengths are priced, one for each part of the
/// position, where there is one yet. They are kept for a while though the
/// probabilities change.
pub struct Rows {
    /// For matches with a new distance.
    pub matches: Seq<Option<Seq<u16>>>,
    /// For matches that repeat one.
    pub reps: Seq<Option<Seq<u16>>>,
}

/// No tables.
pub open spec fn no_rows() -> Rows {
    Rows { matches: seq![None, None, None, None], reps: seq![None, None, None, None] }
}

/// The tables with one for `ps`.
pub open spec fn filled(rows: Seq<Option<Seq<u16>>>, ps: int, probs: Seq<u16>) -> Seq<
    Option<Seq<u16>>,
> {
    if rows[ps] is None {
        rows.update(ps, Some(probs))
    } else {
        rows
    }
}

/// What a window is about.
pub struct Scene {
    /// The data.
    pub data: Seq<u8>,
    /// Where the window begins.
    pub start: int,
    /// How long it is.
    pub limit: nat,
    /// The probabilities at its start.
    pub probs: Seq<u16>,
    /// How far matches are looked for.
    pub reach: Reach,
    /// A match of this length ends the window.
    pub nice_len: u32,
}

impl Scene {
    /// The window lies within the data.
    pub open spec fn ok(self) -> bool {
        &&& 0 <= self.start
        &&& 1 <= self.limit
        &&& self.start + self.limit <= self.data.len() <= 0x20_0000
    }

    /// The part of the position that chooses probabilities.
    pub open spec fn ps(self, cur: nat) -> nat {
        pos_state(default_props(), (self.start + cur) as nat)
    }

    /// The price of a flag that depends on the state alone.
    pub open spec fn flag(self, slot: usize, m: Mode, bit: bool) -> nat {
        price(self.probs[slot + m.state], bit)
    }

    /// The price of a flag that depends on the state and the position.
    pub open spec fn flag_at(self, slot: usize, m: Mode, cur: nat, bit: bool) -> nat {
        price(self.probs[slot + 16 * m.state + self.ps(cur)], bit)
    }

    /// The matches that are looked at.
    pub open spec fn found(self, cur: nat) -> Seq<(nat, nat)> {
        candidates(self.data, self.start + cur, self.reach, self.start)
    }

    /// The price of a literal.
    pub open spec fn literal_total(self, cur: nat, m: Mode) -> nat {
        self.flag_at(IS_MATCH, m, cur, false) + byte_cost(
            self.probs,
            m,
            self.data.take(self.start + cur),
            self.data[self.start + cur],
        )
    }

    /// The price of one byte at the latest distance.
    pub open spec fn short_total(self, cur: nat, m: Mode) -> nat {
        self.flag_at(IS_MATCH, m, cur, true) + self.flag(IS_REP, m, true) + self.flag(
            IS_REP0,
            m,
            false,
        ) + self.flag_at(IS_REP0_LONG, m, cur, false)
    }

    /// The price of the choice of a recent distance.
    pub open spec fn choice(self, cur: nat, m: Mode, idx: u32) -> nat {
        if idx == 0 {
            self.flag(IS_REP0, m, false) + self.flag_at(IS_REP0_LONG, m, cur, true)
        } else if idx == 1 {
            self.flag(IS_REP0, m, true) + self.flag(IS_REP1, m, false)
        } else {
            self.flag(IS_REP0, m, true) + self.flag(IS_REP1, m, true) + self.flag(
                IS_REP2,
                m,
                idx == 3,
            )
        }
    }

    /// The price of a match that repeats a distance.
    pub open spec fn rep_total(self, cur: nat, m: Mode, idx: u32, len: nat, row: Seq<u16>) -> nat {
        self.flag_at(IS_MATCH, m, cur, true) + self.flag(IS_REP, m, true) + self.choice(cur, m, idx)
            + len_cost(row, REP_LEN as int, self.ps(cur), (len - 2) as nat)
    }

    /// The price of a match with a new distance.
    pub open spec fn match_total(self, cur: nat, m: Mode, dist: nat, len: nat, row: Seq<u16>) -> nat {
        self.flag_at(IS_MATCH, m, cur, true) + self.flag(IS_REP, m, false) + len_cost(
            row,
            MATCH_LEN as int,
            self.ps(cur),
            (len - 2) as nat,
        ) + dist_cost(self.probs, (len - 2) as nat, dist)
    }

    /// The longest repetition at a position, where it is worth a match.
    #[verifier::opaque]
    pub open spec fn best_here(self, cur: nat, m: Mode) -> nat {
        let pos = self.start + cur;
        let a = worth(0, rep_len(self.data, pos, m.reps[0]));
        let b = worth(a, rep_len(self.data, pos, m.reps[1]));
        let c = worth(b, rep_len(self.data, pos, m.reps[2]));
        let d = worth(c, rep_len(self.data, pos, m.reps[3]));
        worth(d, longest(self.found(cur)).0)
    }
}

/// The larger of two lengths, where the second is that of a match.
pub open spec fn worth(best: nat, len: nat) -> nat {
    if len >= 2 && len > best {
        len
    } else {
        best
    }
}

/// A sum of prices.
pub open spec fn summed(a: nat, b: nat) -> nat {
    if a + b <= INFINITY_PRICE {
        a + b
    } else {
        INFINITY_PRICE as nat
    }
}

/// The board after a packet from `cur` was tried.
pub open spec fn relaxed(t: Seq<Node>, cur: nat, cost: nat, p: Packet) -> Seq<Node> {
    let to = (cur + packet_len(p)) as int;
    let n = summed(t[cur as int].price, cost);
    if n < t[to].price {
        t.update(to, Node { price: n, prev: cur, step: p, m: mode_after(t[cur as int].m, p) })
    } else {
        t
    }
}

/// The board after matches that repeat a distance were tried, of the lengths from
/// `len` to `max`.
pub open spec fn rep_lens(
    s: Scene,
    t: Seq<Node>,
    cur: nat,
    idx: u32,
    row: Seq<u16>,
    len: nat,
    max: nat,
) -> Seq<Node>
    decreases max + 1 - len,
{
    if len > max {
        t
    } else {
        rep_lens(
            s,
            relaxed(
                t,
                cur,
                s.rep_total(cur, t[cur as int].m, idx, len, row),
                Packet::Rep { idx, len: len as u32 },
            ),
            cur,
            idx,
            row,
            len + 1,
            max,
        )
    }
}

/// The board after matches with a new distance were tried, of the lengths from `len`
/// to `max`.
pub open spec fn match_lens(
    s: Scene,
    t: Seq<Node>,
    cur: nat,
    dist: nat,
    row: Seq<u16>,
    len: nat,
    max: nat,
) -> Seq<Node>
    decreases max + 1 - len,
{
    if len > max {
        t
    } else {
        match_lens(
            s,
            relaxed(
                t,
                cur,
                s.match_total(cur, t[cur as int].m, dist, len, row),
                Packet::Match { dist: dist as u32, len: len as u32 },
            ),
            cur,
            dist,
            row,
            len + 1,
            max,
        )
    }
}

/// A board, and the tables for lengths.
pub struct Board {
    /// What is known of the positions.
    pub t: Seq<Node>,
    /// The tables.
    pub rows: Rows,
}

/// The board after repetitions of a recent distance were tried.
pub open spec fn rep_tried(s: Scene, b: Board, cur: nat, idx: u32) -> Board {
    let m = b.t[cur as int].m;
    let len = rep_len(s.data, s.start + cur, m.reps[idx as int]);
    let t = if idx == 0 && len >= 1 {
        relaxed(b.t, cur, s.short_total(cur, m), Packet::ShortRep)
    } else {
        b.t
    };
    let max = least(len, (s.limit - cur) as nat);
    if max < 2 {
        Board { t, rows: b.rows }
    } else {
        let reps = filled(b.rows.reps, s.ps(cur) as int, s.probs);
        Board {
            t: rep_lens(s, t, cur, idx, reps[s.ps(cur) as int]->0, 2, max),
            rows: Rows { reps, ..b.rows },
        }
    }
}

/// The board after the matches from the `i`th on were tried, with lengths that the ones
/// before, of at most `len`, do not have.
pub open spec fn matches_tried(
    s: Scene,
    b: Board,
    cur: nat,
    found: Seq<(nat, nat)>,
    i: nat,
    len: nat,
) -> Board
    decreases found.len() - i,
{
    if i >= found.len() {
        b
    } else {
        let max = least(found[i as int].0, (s.limit - cur) as nat);
        let next = if len + 1 > max {
            b
        } else {
            let matches = filled(b.rows.matches, s.ps(cur) as int, s.probs);
            Board {
                t: match_lens(
                    s,
                    b.t,
                    cur,
                    found[i as int].1,
                    matches[s.ps(cur) as int]->0,
                    len + 1,
                    max,
                ),
                rows: Rows { matches, ..b.rows },
            }
        };
        matches_tried(s, next, cur, found, i + 1, found[i as int].0)
    }
}

/// The board after a literal was tried.
pub open spec fn literal_tried(s: Scene, b: Board, cur: nat) -> Board {
    Board {
        t: relaxed(
            b.t,
            cur,
            s.literal_total(cur, b.t[cur as int].m),
            Packet::Literal { byte: s.data[s.start + cur] },
        ),
        rows: b.rows,
    }
}

/// The board after the recent distances were tried.
pub open spec fn reps_tried(s: Scene, b: Board, cur: nat) -> Board {
    rep_tried(s, rep_tried(s, rep_tried(s, rep_tried(s, b, cur, 0), cur, 1), cur, 2), cur, 3)
}

/// The board after everything was tried at `cur`.
#[verifier::opaque]
pub open spec fn tried(s: Scene, b: Board, cur: nat) -> Board {
    matches_tried(s, reps_tried(s, literal_tried(s, b, cur), cur), cur, s.found(cur), 0, 1)
}

/// The board at the end, and up to where packets are taken.
pub open spec fn parsed(s: Scene, b: Board, cur: nat) -> (Board, nat)
    decreases s.limit - cur,
{
    if cur >= s.limit {
        (b, s.limit)
    } else if cur >= COMMIT_CAP {
        (b, cur)
    } else {
        let best = s.best_here(cur, b.t[cur as int].m);
        if best >= s.nice_len {
            let end = least(cur + best, s.limit);
            (
                tried(s, b, cur),
                if end == 0 {
                    1
                } else {
                    end
                },
            )
        } else {
            parsed(s, tried(s, b, cur), cur + 1)
        }
    }
}

/// What is known of a position that was not reached.
pub open spec fn blank() -> Node {
    Node {
        price: INFINITY_PRICE as nat,
        prev: 0,
        step: Packet::Literal { byte: 0 },
        m: fresh_mode(),
    }
}

/// The board of a window of the given length, at the start.
pub open spec fn opening(m: Mode, limit: nat) -> Seq<Node> {
    Seq::new(
        limit + 1,
        |k: int|
            if k == 0 {
                Node { price: 0, m, ..blank() }
            } else {
                blank()
            },
    )
}

/// The packets that lead to a position.
pub open spec fn path(t: Seq<Node>, k: nat) -> Seq<Packet>
    decreases k,
{
    if k == 0 || t[k as int].prev >= k {
        Seq::empty()
    } else {
        path(t, t[k as int].prev).push(t[k as int].step)
    }
}

/// The position was reached.
pub open spec fn finite(t: Seq<Node>, k: int) -> bool {
    t[k].price < INFINITY_PRICE
}

/// What is known of the position `k` is so: its last packet stands for the data, and
/// it comes from a position up to `cur`.
pub open spec fn node_ok(s: Scene, t: Seq<Node>, cur: nat, k: int) -> bool {
    let n = t[k];
    &&& n.price <= 8192 * k
    &&& n.prev < k
    &&& n.prev <= cur
    &&& k == n.prev + packet_len(n.step)
    &&& finite(t, n.prev as int)
    &&& tells(s.data, s.start + n.prev, t[n.prev as int].m, n.step)
    &&& n.m == mode_after(t[n.prev as int].m, n.step)
}

/// All that the board says of single positions is so.
#[verifier::opaque]
pub open spec fn nodes_ok(s: Scene, t: Seq<Node>, cur: nat) -> bool {
    &&& forall|k: int| 0 <= k < t.len() ==> mode_ok(#[trigger] t[k].m)
    &&& forall|k: int| 0 < k < t.len() && #[trigger] finite(t, k) ==> node_ok(s, t, cur, k)
}

/// All that the board says is so. The window is opened with the mode `m`.
pub open spec fn sound(s: Scene, m: Mode, t: Seq<Node>, cur: nat) -> bool {
    &&& t.len() == s.limit + 1
    &&& t[0].m == m
    &&& t[0].price == 0
    &&& nodes_ok(s, t, cur)
}

proof fn lemma_opening(s: Scene, m: Mode)
    requires
        mode_ok(m),
    ensures
        sound(s, m, opening(m, s.limit), 0),
        finite(opening(m, s.limit), 0),
{
    reveal(nodes_ok);
}

proof fn lemma_later(s: Scene, m: Mode, t: Seq<Node>, cur: nat, later: nat)
    requires
        sound(s, m, t, cur),
        cur <= later,
    ensures
        sound(s, m, t, later),
{
    reveal(nodes_ok);
    assert forall|k: int| 0 < k < t.len() && #[trigger] finite(t, k) implies node_ok(
        s,
        t,
        later,
        k,
    ) by {
        assert(node_ok(s, t, cur, k));
    }
}

/// What trying packets from `cur` keeps: the positions up to there, and what was
/// reached.
pub open spec fn extends(t: Seq<Node>, u: Seq<Node>, cur: nat) -> bool {
    &&& u.len() == t.len()
    &&& forall|k: int| 0 <= k <= cur && k < t.len() ==> #[trigger] u[k] == t[k]
    &&& forall|k: int| 0 <= k < t.len() && #[trigger] finite(t, k) ==> finite(u, k)
}

proof fn lemma_relaxed(s: Scene, m: Mode, t: Seq<Node>, cur: nat, cost: nat, p: Packet)
    requires
        sound(s, m, t, cur),
        cur + packet_len(p) <= s.limit,
        packet_len(p) >= 1,
        cur <= COMMIT_CAP,
        finite(t, cur as int),
        cost <= 8192,
        tells(s.data, s.start + cur, t[cur as int].m, p),
    ensures
        sound(s, m, relaxed(t, cur, cost, p), cur),
        extends(t, relaxed(t, cur, cost, p), cur),
        finite(relaxed(t, cur, cost, p), (cur + packet_len(p)) as int),
{
    reveal(nodes_ok);
    let u = relaxed(t, cur, cost, p);
    let to = (cur + packet_len(p)) as int;
    assert(t[cur as int].price <= 8192 * cur) by {
        if cur > 0 {
            assert(node_ok(s, t, cur, cur as int));
        }
    }
    assert(mode_ok(t[cur as int].m));
    assert(mode_ok(mode_after(t[cur as int].m, p)));
    assert forall|k: int| 0 < k < u.len() && #[trigger] finite(u, k) implies node_ok(
        s,
        u,
        cur,
        k,
    ) by {
        if k != to {
            assert(finite(t, k));
            assert(node_ok(s, t, cur, k));
            assert(u[t[k].prev as int] == t[t[k].prev as int]);
        } else if u != t {
            assert(u[cur as int] == t[cur as int]);
        } else {
            assert(finite(t, k));
        }
    }
}

proof fn lemma_extends(t: Seq<Node>, u: Seq<Node>, v: Seq<Node>, cur: nat)
    requires
        extends(t, u, cur),
        extends(u, v, cur),
    ensures
        extends(t, v, cur),
{
    assert forall|k: int| 0 <= k <= cur && k < t.len() implies #[trigger] v[k] == t[k] by {
        assert(u[k] == t[k]);
    }
    assert forall|k: int| 0 <= k < t.len() && #[trigger] finite(t, k) implies finite(v, k) by {
        assert(finite(u, k));
    }
}

/// Lengths within a repetition are lengths of repetitions.
proof fn lemma_shorter(data: Seq<u8>, pos: int, m: Mode, p: Packet, dist: int, max: nat)
    requires
        0 <= pos < data.len(),
        packet_ok(p),
        !(p is Literal),
        packet_dist(m, p) == dist,
        dist < pos,
        packet_len(p) <= max <= longest_allowed(data, pos),
        forall|i: int| 0 <= i < max ==> #[trigger] data[pos - (dist + 1) + i] == data[pos + i],
    ensures
        tells(data, pos, m, p),
{
}

proof fn lemma_rep_lens(
    s: Scene,
    m: Mode,
    t: Seq<Node>,
    cur: nat,
    idx: u32,
    row: Seq<u16>,
    len: nat,
    max: nat,
)
    requires
        s.ok(),
        sound(s, m, t, cur),
        cur < s.limit,
        cur <= COMMIT_CAP,
        finite(t, cur as int),
        idx < 4,
        2 <= len <= max + 1,
        max <= rep_len(s.data, s.start + cur, t[cur as int].m.reps[idx as int]),
        cur + max <= s.limit,
    ensures
        sound(s, m, rep_lens(s, t, cur, idx, row, len, max), cur),
        extends(t, rep_lens(s, t, cur, idx, row, len, max), cur),
        forall|k: int|
            cur + len <= k <= cur + max ==> #[trigger] finite(
                rep_lens(s, t, cur, idx, row, len, max),
                k,
            ),
    decreases max + 1 - len,
{
    if len <= max {
        let mc = t[cur as int].m;
        let pos = s.start + cur;
        let dist = mc.reps[idx as int];
        let p = Packet::Rep { idx, len: len as u32 };
        let cost = s.rep_total(cur, mc, idx, len, row);
        lemma_rep_len(s.data, pos, dist);
        lemma_shorter(
            s.data,
            pos,
            mc,
            p,
            dist as int,
            rep_len(s.data, pos, dist),
        );
        costs_are_bounded(
            row,
            mc,
            Seq::empty(),
            0,
            REP_LEN as int,
            s.ps(cur),
            (len - 2) as nat,
            0,
        );
        lemma_relaxed(s, m, t, cur, cost, p);
        let u = relaxed(t, cur, cost, p);
        assert(u[cur as int] == t[cur as int]);
        lemma_rep_lens(s, m, u, cur, idx, row, len + 1, max);
        let v = rep_lens(s, u, cur, idx, row, len + 1, max);
        lemma_extends(t, u, v, cur);
        assert forall|k: int| cur + len <= k <= cur + max implies #[trigger] finite(v, k) by {
            if k == cur + len {
                assert(finite(u, (cur + packet_len(p)) as int));
            }
        }
    }
}

proof fn lemma_match_lens(
    s: Scene,
    m: Mode,
    t: Seq<Node>,
    cur: nat,
    found: (nat, nat),
    row: Seq<u16>,
    len: nat,
    max: nat,
)
    requires
        s.ok(),
        sound(s, m, t, cur),
        cur < s.limit,
        cur <= COMMIT_CAP,
        finite(t, cur as int),
        match_ok(s.data, s.start + cur, found),
        2 <= len <= max + 1,
        max <= found.0,
        cur + max <= s.limit,
    ensures
        sound(s, m, match_lens(s, t, cur, found.1, row, len, max), cur),
        extends(t, match_lens(s, t, cur, found.1, row, len, max), cur),
        forall|k: int|
            cur + len <= k <= cur + max ==> #[trigger] finite(
                match_lens(s, t, cur, found.1, row, len, max),
                k,
            ),
    decreases max + 1 - len,
{
    if len <= max {
        let mc = t[cur as int].m;
        let pos = s.start + cur;
        let p = Packet::Match { dist: found.1 as u32, len: len as u32 };
        let cost = s.match_total(cur, mc, found.1, len, row);
        let dist = found.1 as int;
        assert forall|i: int| 0 <= i < found.0 implies #[trigger] s.data[pos - (dist + 1) + i]
            == s.data[pos + i] by {
            assert(s.data[pos - (found.1 + 1) + i] == s.data[pos + i]);
        }
        lemma_shorter(s.data, pos, mc, p, dist, found.0);
        costs_are_bounded(
            row,
            mc,
            Seq::empty(),
            0,
            MATCH_LEN as int,
            s.ps(cur),
            (len - 2) as nat,
            0,
        );
        costs_are_bounded(
            s.probs,
            mc,
            Seq::empty(),
            0,
            MATCH_LEN as int,
            s.ps(cur),
            (len - 2) as nat,
            found.1 as u32,
        );
        lemma_relaxed(s, m, t, cur, cost, p);
        let u = relaxed(t, cur, cost, p);
        assert(u[cur as int] == t[cur as int]);
        lemma_match_lens(s, m, u, cur, found, row, len + 1, max);
        let v = match_lens(s, u, cur, found.1, row, len + 1, max);
        lemma_extends(t, u, v, cur);
        assert forall|k: int| cur + len <= k <= cur + max implies #[trigger] finite(v, k) by {
            if k == cur + len {
                assert(finite(u, (cur + packet_len(p)) as int));
            }
        }
    }
}

proof fn lemma_rep_tried(s: Scene, m: Mode, b: Board, cur: nat, idx: u32)
    requires
        s.ok(),
        sound(s, m, b.t, cur),
        cur < s.limit,
        cur <= COMMIT_CAP,
        finite(b.t, cur as int),
        idx < 4,
    ensures
        sound(s, m, rep_tried(s, b, cur, idx).t, cur),
        extends(b.t, rep_tried(s, b, cur, idx).t, cur),
        forall|k: int|
            cur + 2 <= k <= s.limit && k <= cur + rep_len(
                s.data,
                s.start + cur,
                b.t[cur as int].m.reps[idx as int],
            ) ==> #[trigger] finite(rep_tried(s, b, cur, idx).t, k),
{
    let mc = b.t[cur as int].m;
    let pos = s.start + cur;
    let dist = mc.reps[idx as int];
    let len = rep_len(s.data, pos, dist);
    let max = least(len, (s.limit - cur) as nat);
    lemma_rep_len(s.data, pos, dist);
    let t = if idx == 0 && len >= 1 {
        relaxed(b.t, cur, s.short_total(cur, mc), Packet::ShortRep)
    } else {
        b.t
    };
    if idx == 0 && len >= 1 {
        assert(tells(s.data, pos, mc, Packet::ShortRep)) by {
            lemma_shorter(s.data, pos, mc, Packet::ShortRep, dist as int, len);
        }
        lemma_relaxed(s, m, b.t, cur, s.short_total(cur, mc), Packet::ShortRep);
    }
    assert(t[cur as int] == b.t[cur as int]);
    if max >= 2 {
        let row = filled(b.rows.reps, s.ps(cur) as int, s.probs)[s.ps(cur) as int]->0;
        lemma_rep_lens(s, m, t, cur, idx, row, 2, max);
        lemma_extends(b.t, t, rep_lens(s, t, cur, idx, row, 2, max), cur);
    }
}

proof fn lemma_matches_tried(
    s: Scene,
    m: Mode,
    b: Board,
    cur: nat,
    found: Seq<(nat, nat)>,
    i: nat,
    len: nat,
)
    requires
        s.ok(),
        sound(s, m, b.t, cur),
        cur < s.limit,
        cur <= COMMIT_CAP,
        finite(b.t, cur as int),
        mounting(s.data, s.start + cur, s.reach.dict, 1, found),
        i <= found.len(),
        len == if i == 0 {
            1
        } else {
            found[i - 1].0
        },
        forall|k: int|
            cur + 2 <= k <= s.limit && k <= cur + len ==> #[trigger] finite(b.t, k),
    ensures
        sound(s, m, matches_tried(s, b, cur, found, i, len).t, cur),
        extends(b.t, matches_tried(s, b, cur, found, i, len).t, cur),
        forall|k: int|
            cur + 2 <= k <= s.limit && k <= cur + longest(found).0 ==> #[trigger] finite(
                matches_tried(s, b, cur, found, i, len).t,
                k,
            ),
    decreases found.len() - i,
{
    if i < found.len() {
        reveal(mounting);
        let f = found[i as int];
        assert(match_ok(s.data, s.start + cur, f));
        if i > 0 {
            assert(found[i - 1].0 < found[i as int].0);
            assert(match_ok(s.data, s.start + cur, found[i - 1]));
        }
        let max = least(f.0, (s.limit - cur) as nat);
        let matches = filled(b.rows.matches, s.ps(cur) as int, s.probs);
        let row = matches[s.ps(cur) as int]->0;
        let next = if len + 1 > max {
            b
        } else {
            Board {
                t: match_lens(s, b.t, cur, f.1, row, len + 1, max),
                rows: Rows { matches, ..b.rows },
            }
        };
        if len + 1 <= max {
            lemma_match_lens(s, m, b.t, cur, f, row, len + 1, max);
        }
        assert(extends(b.t, next.t, cur));
        assert(next.t[cur as int] == b.t[cur as int]);
        assert forall|k: int| cur + 2 <= k <= s.limit && k <= cur + f.0 implies #[trigger] finite(
            next.t,
            k,
        ) by {
            if k <= cur + len {
                assert(finite(b.t, k));
            }
        }
        lemma_matches_tried(s, m, next, cur, found, i + 1, f.0);
        lemma_extends(
            b.t,
            next.t,
            matches_tried(s, next, cur, found, i + 1, f.0).t,
            cur,
        );
    }
}

proof fn lemma_reps_tried(s: Scene, m: Mode, b: Board, cur: nat)
    requires
        s.ok(),
        sound(s, m, b.t, cur),
        cur < s.limit,
        cur <= COMMIT_CAP,
        finite(b.t, cur as int),
    ensures
        sound(s, m, reps_tried(s, b, cur).t, cur),
        extends(b.t, reps_tried(s, b, cur).t, cur),
        forall|idx: int, k: int|
            #![trigger b.t[cur as int].m.reps[idx], finite(reps_tried(s, b, cur).t, k)]
            0 <= idx < 4 && cur + 2 <= k <= s.limit && k <= cur + rep_len(
                s.data,
                s.start + cur,
                b.t[cur as int].m.reps[idx],
            ) ==> finite(reps_tried(s, b, cur).t, k),
{
    let b0 = rep_tried(s, b, cur, 0);
    lemma_rep_tried(s, m, b, cur, 0);
    assert(b0.t[cur as int] == b.t[cur as int]);
    let b1 = rep_tried(s, b0, cur, 1);
    lemma_rep_tried(s, m, b0, cur, 1);
    assert(b1.t[cur as int] == b.t[cur as int]);
    let b2 = rep_tried(s, b1, cur, 2);
    lemma_rep_tried(s, m, b1, cur, 2);
    assert(b2.t[cur as int] == b.t[cur as int]);
    let b3 = rep_tried(s, b2, cur, 3);
    lemma_rep_tried(s, m, b2, cur, 3);
    lemma_extends(b.t, b0.t, b1.t, cur);
    lemma_extends(b.t, b1.t, b2.t, cur);
    lemma_extends(b.t, b2.t, b3.t, cur);
    lemma_extends(b0.t, b1.t, b2.t, cur);
    lemma_extends(b0.t, b2.t, b3.t, cur);
    lemma_extends(b1.t, b2.t, b3.t, cur);
    assert forall|idx: int, k: int|
        #![trigger b.t[cur as int].m.reps[idx], finite(b3.t, k)]
        0 <= idx < 4 && cur + 2 <= k <= s.limit && k <= cur + rep_len(
            s.data,
            s.start + cur,
            b.t[cur as int].m.reps[idx],
        ) implies finite(b3.t, k) by {
        if idx == 0 {
            assert(finite(b0.t, k));
        } else if idx == 1 {
            assert(finite(b1.t, k));
        } else if idx == 2 {
            assert(finite(b2.t, k));
        } else {
            assert(idx == 3);
        }
    }
}

proof fn lemma_tried(s: Scene, m: Mode, b: Board, cur: nat)
    requires
        s.ok(),
        sound(s, m, b.t, cur),
        cur < s.limit,
        cur <= COMMIT_CAP,
        finite(b.t, cur as int),
    ensures
        sound(s, m, tried(s, b, cur).t, cur),
        extends(b.t, tried(s, b, cur).t, cur),
        finite(tried(s, b, cur).t, cur as int + 1),
        ({
            let best = s.best_here(cur, b.t[cur as int].m);
            best == 0 || finite(tried(s, b, cur).t, least(cur + best, s.limit) as int)
        }),
{
    reveal(tried);
    reveal(Scene::best_here);
    let mc = b.t[cur as int].m;
    let pos = s.start + cur;
    let p = Packet::Literal { byte: s.data[pos] };
    costs_are_bounded(s.probs, mc, s.data.take(pos), s.data[pos], 0, 0, 0, 0);
    let b0 = literal_tried(s, b, cur);
    lemma_relaxed(s, m, b.t, cur, s.literal_total(cur, mc), p);
    assert(b0.t[cur as int] == b.t[cur as int]);
    let b1 = reps_tried(s, b0, cur);
    lemma_reps_tried(s, m, b0, cur);
    assert(b1.t[cur as int] == b.t[cur as int]);
    let found = s.found(cur);
    candidates_are_matches(s.data, pos, s.reach, s.start);
    let b2 = matches_tried(s, b1, cur, found, 0, 1);
    lemma_matches_tried(s, m, b1, cur, found, 0, 1);
    lemma_extends(b.t, b0.t, b1.t, cur);
    lemma_extends(b.t, b1.t, b2.t, cur);
    lemma_extends(b0.t, b1.t, b2.t, cur);
    assert(finite(b0.t, cur as int + 1));
    let best = s.best_here(cur, mc);
    if best > 0 {
        let to = least(cur + best, s.limit) as int;
        if s.limit == cur + 1 {
            assert(to == cur + 1);
        } else if best == longest(found).0 {
            assert(finite(b2.t, to));
        } else {
            let r0 = mc.reps[0];
            let r1 = mc.reps[1];
            let r2 = mc.reps[2];
            let r3 = mc.reps[3];
            assert(exists|idx: int|
                0 <= idx < 4 && best == rep_len(s.data, pos, #[trigger] mc.reps[idx])) by {
                if best == rep_len(s.data, pos, r0) {
                    assert(best == rep_len(s.data, pos, mc.reps[0]));
                } else if best == rep_len(s.data, pos, r1) {
                    assert(best == rep_len(s.data, pos, mc.reps[1]));
                } else if best == rep_len(s.data, pos, r2) {
                    assert(best == rep_len(s.data, pos, mc.reps[2]));
                } else {
                    assert(best == rep_len(s.data, pos, mc.reps[3]));
                }
            }
            let idx = choose|idx: int|
                0 <= idx < 4 && best == rep_len(s.data, pos, #[trigger] mc.reps[idx]);
            assert(b0.t[cur as int].m.reps[idx] == mc.reps[idx]);
            assert(finite(b1.t, to));
        }
    }
}

proof fn lemma_parsed(s: Scene, m: Mode, b: Board, cur: nat)
    requires
        s.ok(),
        sound(s, m, b.t, cur),
        cur <= s.limit,
        cur <= COMMIT_CAP,
        finite(b.t, cur as int),
    ensures
        1 <= parsed(s, b, cur).1 <= s.limit,
        finite(parsed(s, b, cur).0.t, parsed(s, b, cur).1 as int),
        sound(s, m, parsed(s, b, cur).0.t, s.limit),
    decreases s.limit - cur,
{
    if cur < s.limit && cur < COMMIT_CAP {
        lemma_tried(s, m, b, cur);
        let c = tried(s, b, cur);
        let best = s.best_here(cur, b.t[cur as int].m);
        if best >= s.nice_len {
            lemma_later(s, m, c.t, cur, s.limit);
            if best == 0 {
                assert(finite(c.t, cur as int));
            }
        } else {
            lemma_later(s, m, c.t, cur, cur + 1);
            lemma_parsed(s, m, c, cur + 1);
        }
    } else {
        lemma_later(s, m, b.t, cur, s.limit);
    }
}

proof fn lemma_path(s: Scene, m: Mode, t: Seq<Node>, last: nat, k: nat)
    requires
        s.ok(),
        sound(s, m, t, last),
        k <= s.limit,
        finite(t, k as int),
    ensures
        all_tell(s.data, s.start, m, path(t, k)),
        told(path(t, k)) == k,
        mode_after_all(m, path(t, k)) == t[k as int].m,
        path(t, k).len() <= k,
        k > 0 ==> t[k as int].prev < k,
        k > 0 ==> finite(t, t[k as int].prev as int),
    decreases k,
{
    if k > 0 {
        reveal(nodes_ok);
        let n = t[k as int];
        assert(node_ok(s, t, last, k as int));
        lemma_path(s, m, t, last, n.prev);
        let a = path(t, n.prev);
        let p = seq![n.step];
        assert(p.skip(1) =~= Seq::empty());
        assert(told(p) == packet_len(n.step)) by {
            assert(told(p.skip(1)) == 0);
        }
        assert(all_tell(s.data, s.start + told(a), t[n.prev as int].m, p)) by {
            assert(all_tell(
                s.data,
                s.start + told(a) + packet_len(p[0]),
                mode_after(t[n.prev as int].m, p[0]),
                p.skip(1),
            ));
        }
        assert(mode_after_all(t[n.prev as int].m, p) == n.m) by {
            assert(mode_after_all(n.m, p.skip(1)) == n.m);
        }
        lemma_all_tell_more(s.data, s.start, m, a, p);
        assert(a + p =~= path(t, k));
    }
}

/// The packets that are taken in a window stand for the data there.
pub proof fn window_tells(s: Scene, m: Mode, rows: Rows)
    requires
        s.ok(),
        mode_ok(m),
    ensures
        ({
            let (c, end) = parsed(s, Board { t: opening(m, s.limit), rows }, 0);
            let ps = path(c.t, end);
            &&& 1 <= end <= s.limit
            &&& all_tell(s.data, s.start, m, ps)
            &&& told(ps) == end
            &&& ps.len() <= end
        }),
{
    let b = Board { t: opening(m, s.limit), rows };
    lemma_opening(s, m);
    lemma_parsed(s, m, b, 0);
    let (c, end) = parsed(s, b, 0);
    lemma_path(s, m, c.t, s.limit, end);
}

/// A node of the board.
#[derive(Debug, Clone, Copy)]
pub struct OptNode {
    price: u32,
    prev: usize,
    step: Packet,
    state: usize,
    reps: [u32; 4],
}

impl OptNode {
    /// What it says.
    pub closed spec fn view(&self) -> Node {
        Node {
            price: self.price as nat,
            prev: self.prev as nat,
            step: self.step,
            m: Mode { state: self.state as nat, reps: self.reps@ },
        }
    }

    /// The mode behind a packet from here.
    fn after(&self, p: Packet) -> (r: (usize, [u32; 4]))
        requires
            mode_ok(self@.m),
            packet_ok(p),
        ensures
            (Mode { state: r.0 as nat, reps: r.1@ }) == mode_after(self@.m, p),
            mode_ok(mode_after(self@.m, p)),
    {
        let s: usize = self.state;
        let low: bool = s < LIT_STATES;
        let q = self.reps;
        let r: (usize, [u32; 4]) = match p {
            Packet::Literal { byte } => (
                if s <= 3 {
                    0
                } else if s <= 9 {
                    s - 3
                } else {
                    s - 6
                },
                q,
            ),
            Packet::Match { dist, len } => (
                if low {
                    7
                } else {
                    10
                },
                [dist, q[0], q[1], q[2]],
            ),
            Packet::ShortRep => (
                if low {
                    9
                } else {
                    11
                },
                q,
            ),
            Packet::Rep { idx, len } => (
                if low {
                    8
                } else {
                    11
                },
                if idx == 0 {
                    q
                } else if idx == 1 {
                    [q[1], q[0], q[2], q[3]]
                } else if idx == 2 {
                    [q[2], q[0], q[1], q[3]]
                } else {
                    [q[3], q[0], q[1], q[2]]
                },
            ),
        };
        assert(r.1@ =~= mode_after(self@.m, p).reps);
        r
    }
}

/// What the nodes say.
pub open spec fn table(v: Seq<OptNode>) -> Seq<Node> {
    Seq::new(v.len(), |k: int| v[k]@)
}

/// All modes are modes.
pub open spec fn modes_ok(v: Seq<OptNode>) -> bool {
    forall|k: int| 0 <= k < v.len() ==> mode_ok(#[trigger] v[k]@.m)
}

/// Tries a packet from `cur`.
fn relax(nodes: &mut Vec<OptNode>, cur: usize, cost: u32, p: Packet, len: usize)
    requires
        cur + len < old(nodes)@.len(),
        len == packet_len(p),
        packet_ok(p),
        modes_ok(old(nodes)@),
    ensures
        table(final(nodes)@) == relaxed(table(old(nodes)@), cur as nat, cost as nat, p),
        final(nodes)@.len() == old(nodes)@.len(),
        modes_ok(final(nodes)@),
        len >= 1 ==> final(nodes)@[cur as int] == old(nodes)@[cur as int],
{
    let node = nodes[cur];
    assert(cur + len < nodes.len());
    let to: usize = cur + len;
    let n: u32 = if node.price > INFINITY_PRICE - cost {
        INFINITY_PRICE
    } else {
        node.price + cost
    };
    if n < nodes[to].price {
        let (state, reps) = node.after(p);
        let ghost before = nodes@;
        nodes.set(to, OptNode { price: n, prev: cur, step: p, state, reps });
        proof {
            assert(table(nodes@) =~= table(before).update(to as int, nodes@[to as int]@));
        }
    }
}

/// Prices of lengths, by the tables of probabilities.
pub struct LenRows {
    base: usize,
    cells: Vec<u32>,
    valid: [bool; 4],
    rows: Ghost<Seq<Option<Seq<u16>>>>,
}

impl LenRows {
    /// The tables.
    pub closed spec fn view(&self) -> Seq<Option<Seq<u16>>> {
        self.rows@
    }

    spec fn cell(&self, ps: int, sym: int) -> u32 {
        self.cells@[ps * 272 + sym]
    }

    /// The prices are those for lengths whose probabilities stand at `base`.
    pub closed spec fn inv(&self, base: usize) -> bool {
        &&& self.base == base
        &&& self.cells@.len() == 1088
        &&& self.rows@.len() == 4
        &&& forall|ps: int|
            0 <= ps < 4 ==> #[trigger] self.valid@[ps] == (self.rows@[ps] is Some)
        &&& forall|ps: int, sym: int|
            0 <= ps < 4 && 0 <= sym < 272 && self.rows@[ps] is Some ==> #[trigger] self.cell(
                ps,
                sym,
            ) == len_cost(self.rows@[ps]->0, base as int, ps as nat, sym as nat)
    }

    /// No tables.
    pub fn new(base: usize) -> (r: Self)
        ensures
            r.inv(base),
            r@ == no_rows().matches,
    {
        LenRows {
            base,
            cells: vec![0;1088],
            valid: [false, false, false, false],
            rows: Ghost(no_rows().matches),
        }
    }

    /// Forgets the tables.
    pub fn reset(&mut self)
        requires
            old(self).inv(old(self).base()),
        ensures
            final(self).inv(old(self).base()),
            final(self)@ == no_rows().matches,
    {
        self.valid = [false, false, false, false];
        self.rows = Ghost(no_rows().matches);
    }

    /// Where the probabilities stand.
    pub closed spec fn base(&self) -> usize {
        self.base
    }

    /// Makes sure that there is a table for `ps`.
    fn fill(&mut self, prices: &Prices, probs: &[u16], ps: usize)
        requires
            old(self).inv(old(self).base()),
            prices.inv(),
            probs_ok(probs@, default_props().table_len()),
            old(self).base() + 514 <= default_props().table_len(),
            ps < 4,
        ensures
            final(self).inv(old(self).base()),
            final(self).base() == old(self).base(),
            final(self)@ == filled(old(self)@, ps as int, probs@),
    {
        if self.valid[ps] {
            return;
        }
        let ghost o = *self;
        let base: usize = self.base;
        let mut sym: usize = 0;
        while sym < 272
            invariant
                sym <= 272,
                ps < 4,
                prices.inv(),
                probs_ok(probs@, default_props().table_len()),
                base + 514 <= default_props().table_len(),
                self.base == base,
                self.valid == o.valid,
                self.rows == o.rows,
                self.cells@.len() == 1088,
                o.cells@.len() == 1088,
                forall|k: int|
                    0 <= k < 1088 && !(ps * 272 <= k < ps * 272 + 272) ==> #[trigger] self.cells@[k]
                        == o.cells@[k],
                forall|y: int|
                    0 <= y < sym ==> #[trigger] self.cell(ps as int, y) == len_cost(
                        probs@,
                        base as int,
                        ps as nat,
                        y as nat,
                    ),
            decreases 272 - sym,
        {
            let ghost before = *self;
            self.cells.set(ps * 272 + sym, prices.len_price(probs, base, ps, sym as u32));
            proof {
                assert forall|y: int| 0 <= y < sym + 1 implies #[trigger] self.cell(ps as int, y)
                    == len_cost(probs@, base as int, ps as nat, y as nat) by {
                    if y < sym {
                        assert(before.cell(ps as int, y) == self.cell(ps as int, y));
                    }
                }
            }
            sym = sym + 1;
        }
        let ghost done = *self;
        self.valid[ps] = true;
        self.rows = Ghost(filled(self.rows@, ps as int, probs@));
        proof {
            assert forall|q: int, y: int|
                0 <= q < 4 && 0 <= y < 272 && self.rows@[q] is Some implies #[trigger] self.cell(
                q,
                y,
            ) == len_cost(self.rows@[q]->0, base as int, q as nat, y as nat) by {
                if q != ps {
                    assert(!(ps * 272 <= q * 272 + y < ps * 272 + 272));
                    assert(0 <= q * 272 + y < 1088);
                    assert(self.cells@[q * 272 + y] == o.cells@[q * 272 + y]);
                    assert(o.cell(q, y) == self.cell(q, y));
                } else {
                    assert(done.cell(q, y) == self.cell(q, y));
                }
            }
        }
    }

    /// The price of a length, less two.
    fn get(&self, ps: usize, sym: usize) -> (n: u32)
        requires
            self.inv(self.base()),
            ps < 4,
            sym < 272,
            self@[ps as int] is Some,
        ensures
            n == len_cost(self@[ps as int]->0, self.base() as int, ps as nat, sym as nat),
            n <= 1610,
    {
        let n: u32 = self.cells[ps * 272 + sym];
        proof {
            assert(n == self.cell(ps as int, sym as int));
            costs_are_bounded(
                self@[ps as int]->0,
                fresh_mode(),
                Seq::empty(),
                0,
                self.base as int,
                ps as nat,
                sym as nat,
                0,
            );
        }
        n
    }
}

/// What a window is about.
pub struct Window<'a> {
    /// The data.
    pub input: &'a [u8],
    /// Where the window begins.
    pub start: usize,
    /// How long it is.
    pub limit: usize,
    /// The probabilities.
    pub probs: &'a [u16],
    /// The prices.
    pub prices: &'a Prices,
    /// How far matches are looked for.
    pub reach: Reach,
    /// A match of this length ends the window.
    pub nice_len: u32,
}

impl<'a> Window<'a> {
    /// What the window is about.
    pub open spec fn view(&self) -> Scene {
        Scene {
            data: self.input@,
            start: self.start as int,
            limit: self.limit as nat,
            probs: self.probs@,
            reach: self.reach,
            nice_len: self.nice_len,
        }
    }

    /// The window lies within the data, and there are probabilities and prices.
    pub open spec fn ok(&self) -> bool {
        &&& self@.ok()
        &&& probs_ok(self.probs@, default_props().table_len())
        &&& self.prices.inv()
    }

    fn ps(&self, cur: usize) -> (r: usize)
        requires
            self.ok(),
            cur < self.limit,
        ensures
            r == self@.ps(cur as nat),
            r < 4,
    {
        proof {
            vstd::arithmetic::power2::lemma2_to64();
        }
        (self.start + cur) % 4
    }

    fn flag(&self, slot: usize, node: &OptNode, bit: bool) -> (n: u32)
        requires
            self.ok(),
            mode_ok(node@.m),
            slot <= 1000,
        ensures
            n == self@.flag(slot, node@.m, bit),
            n <= 161,
    {
        proof {
            lemma_table_len(default_props());
        }
        self.prices.bit(self.probs[slot + node.state], bit)
    }

    fn flag_at(&self, slot: usize, node: &OptNode, cur: usize, bit: bool) -> (n: u32)
        requires
            self.ok(),
            cur < self.limit,
            mode_ok(node@.m),
            slot <= 1000,
        ensures
            n == self@.flag_at(slot, node@.m, cur as nat, bit),
            n <= 161,
    {
        let ps: usize = self.ps(cur);
        proof {
            lemma_table_len(default_props());
        }
        self.prices.bit(self.probs[slot + 16 * node.state + ps], bit)
    }

    /// Tries a literal.
    fn try_literal(&self, nodes: &mut Vec<OptNode>, cur: usize)
        requires
            self.ok(),
            cur < self.limit,
            old(nodes)@.len() == self.limit + 1,
            modes_ok(old(nodes)@),
        ensures
            final(nodes)@.len() == old(nodes)@.len(),
            modes_ok(final(nodes)@),
            final(nodes)@[cur as int]@.m == old(nodes)@[cur as int]@.m,
            forall|rows: Rows|
                (Board { t: table(final(nodes)@), rows }) == #[trigger] literal_tried(
                    self@,
                    (Board { t: table(old(nodes)@), rows }),
                    cur as nat,
                ),
    {
        let node = nodes[cur];
        assert(mode_ok(node@.m));
        let pos: usize = self.start + cur;
        let byte: u8 = self.input[pos];
        let cost: u32 = self.flag_at(IS_MATCH, &node, cur, false) + self.prices.byte_price(
            self.probs,
            self.input,
            pos,
            node.state >= LIT_STATES,
            node.reps[0],
        );
        relax(nodes, cur, cost, Packet::Literal { byte }, 1);
    }

    /// Tries repetitions of a recent distance, and says how long they can be.
    fn try_rep(&self, nodes: &mut Vec<OptNode>, lens: &mut LenRows, cur: usize, idx: u32) -> (n:
        usize)
        requires
            self.ok(),
            cur < self.limit,
            old(nodes)@.len() == self.limit + 1,
            modes_ok(old(nodes)@),
            old(lens).inv(REP_LEN),
            idx < 4,
        ensures
            final(nodes)@.len() == old(nodes)@.len(),
            modes_ok(final(nodes)@),
            final(nodes)@[cur as int]@.m == old(nodes)@[cur as int]@.m,
            final(lens).inv(REP_LEN),
            n == rep_len(
                self.input@,
                self.start + cur,
                old(nodes)@[cur as int]@.m.reps[idx as int],
            ),
            forall|matches: Seq<Option<Seq<u16>>>|
                (Board {
                    t: table(final(nodes)@),
                    rows: Rows { matches, reps: final(lens)@ },
                }) == #[trigger] rep_tried(
                    self@,
                    (Board { t: table(old(nodes)@), rows: Rows { matches, reps: old(lens)@ } }),
                    cur as nat,
                    idx,
                ),
    {
        let node = nodes[cur];
        let ghost s = self@;
        let ghost mc = node@.m;
        assert(mode_ok(mc));
        let pos: usize = self.start + cur;
        let len: usize = rep_match_len(self.input, pos, node.reps[idx as usize]);
        let flag: u32 = self.flag_at(IS_MATCH, &node, cur, true) + self.flag(IS_REP, &node, true);
        if idx == 0 && len >= 1 {
            let cost: u32 = flag + self.flag(IS_REP0, &node, false) + self.flag_at(
                IS_REP0_LONG,
                &node,
                cur,
                false,
            );
            relax(nodes, cur, cost, Packet::ShortRep, 1);
        }
        let room: usize = self.limit - cur;
        let max: usize = if len < room {
            len
        } else {
            room
        };
        if max < 2 {
            return len;
        }
        let choice: u32 = if idx == 0 {
            self.flag(IS_REP0, &node, false) + self.flag_at(IS_REP0_LONG, &node, cur, true)
        } else if idx == 1 {
            self.flag(IS_REP0, &node, true) + self.flag(IS_REP1, &node, false)
        } else {
            self.flag(IS_REP0, &node, true) + self.flag(IS_REP1, &node, true) + self.flag(
                IS_REP2,
                &node,
                idx == 3,
            )
        };
        let ps: usize = self.ps(cur);
        proof {
            lemma_table_len(default_props());
            lemma_rep_len(self.input@, pos as int, node.reps@[idx as int]);
        }
        lens.fill(self.prices, self.probs, ps);
        let ghost row = lens@[ps as int]->0;
        let ghost t0 = table(nodes@);
        let ghost goal = rep_lens(s, t0, cur as nat, idx, row, 2, max as nat);
        let mut l: usize = 2;
        while l <= max
            invariant
                self.ok(),
                s == self@,
                2 <= l <= max + 1,
                max <= MAX_MATCH_LEN,
                cur + max <= self.limit,
                cur < self.limit,
                idx < 4,
                ps == s.ps(cur as nat),
                ps < 4,
                flag == s.flag_at(IS_MATCH, mc, cur as nat, true) + s.flag(IS_REP, mc, true),
                choice == s.choice(cur as nat, mc, idx),
                flag <= 322,
                choice <= 483,
                lens.inv(REP_LEN),
                lens.base() == REP_LEN,
                lens@[ps as int] is Some,
                row == lens@[ps as int]->0,
                nodes@.len() == self.limit + 1,
                modes_ok(nodes@),
                table(nodes@)[cur as int].m == mc,
                rep_lens(s, table(nodes@), cur as nat, idx, row, l as nat, max as nat) == goal,
            decreases max + 1 - l,
        {
            let cost: u32 = flag + choice + lens.get(ps, l - 2);
            let ghost before = table(nodes@);
            relax(nodes, cur, cost, Packet::Rep { idx, len: l as u32 }, l);
            proof {
                assert(cost == s.rep_total(cur as nat, mc, idx, l as nat, row));
                assert(table(nodes@)[cur as int] == before[cur as int]);
            }
            l = l + 1;
        }
        len
    }

    /// Tries the matches that were found.
    fn try_matches(
        &self,
        nodes: &mut Vec<OptNode>,
        lens: &mut LenRows,
        cur: usize,
        found: &Vec<(u32, u32)>,
    )
        requires
            self.ok(),
            cur < self.limit,
            old(nodes)@.len() == self.limit + 1,
            modes_ok(old(nodes)@),
            old(lens).inv(MATCH_LEN),
            mounting(self.input@, self.start + cur, self.reach.dict, 1, pairs(found@)),
        ensures
            final(nodes)@.len() == old(nodes)@.len(),
            modes_ok(final(nodes)@),
            final(nodes)@[cur as int]@.m == old(nodes)@[cur as int]@.m,
            final(lens).inv(MATCH_LEN),
            forall|reps: Seq<Option<Seq<u16>>>|
                (Board {
                    t: table(final(nodes)@),
                    rows: Rows { matches: final(lens)@, reps },
                }) == #[trigger] matches_tried(
                    self@,
                    (Board { t: table(old(nodes)@), rows: Rows { matches: old(lens)@, reps } }),
                    cur as nat,
                    pairs(found@),
                    0,
                    1,
                ),
    {
        let node = nodes[cur];
        let ghost s = self@;
        let ghost mc = node@.m;
        let ghost f = pairs(found@);
        let ghost t0 = table(nodes@);
        let ghost rows0 = lens@;
        assert(mode_ok(mc));
        let flag: u32 = self.flag_at(IS_MATCH, &node, cur, true) + self.flag(IS_REP, &node, false);
        let ps: usize = self.ps(cur);
        let room: usize = self.limit - cur;
        let n: usize = found.len();
        let mut prev_len: usize = 1;
        let mut i: usize = 0;
        proof {
            lemma_table_len(default_props());
        }
        while i < n
            invariant
                self.ok(),
                s == self@,
                f == pairs(found@),
                n == found@.len(),
                i <= n,
                mounting(self.input@, self.start + cur, self.reach.dict, 1, f),
                node@.m == mc,
                cur < self.limit,
                room == self.limit - cur,
                ps == s.ps(cur as nat),
                ps < 4,
                MATCH_LEN + 514 <= default_props().table_len(),
                flag == s.flag_at(IS_MATCH, mc, cur as nat, true) + s.flag(IS_REP, mc, false),
                flag <= 322,
                prev_len == if i == 0 {
                    1
                } else {
                    f[i - 1].0
                },
                1 <= prev_len <= MAX_MATCH_LEN,
                lens.inv(MATCH_LEN),
                nodes@.len() == self.limit + 1,
                modes_ok(nodes@),
                table(nodes@)[cur as int].m == mc,
                forall|reps: Seq<Option<Seq<u16>>>|
                    matches_tried(
                        s,
                        (Board { t: table(nodes@), rows: Rows { matches: lens@, reps } }),
                        cur as nat,
                        f,
                        i as nat,
                        prev_len as nat,
                    ) == #[trigger] matches_tried(
                        s,
                        (Board { t: t0, rows: Rows { matches: rows0, reps } }),
                        cur as nat,
                        f,
                        0,
                        1,
                    ),
            decreases n - i,
        {
            let (mlen, mdist) = found[i];
            proof {
                reveal(mounting);
                assert(f[i as int] == (mlen as nat, mdist as nat));
                assert(match_ok(self.input@, self.start + cur, f[i as int]));
                if i > 0 {
                    assert(f[i - 1].0 < f[i as int].0);
                }
            }
            let max: usize = if (mlen as usize) < room {
                mlen as usize
            } else {
                room
            };
            let ghost rows1 = lens@;
            let ghost t1 = table(nodes@);
            if prev_len + 1 <= max {
                lens.fill(self.prices, self.probs, ps);
                self.try_lens(nodes, lens, cur, &node, ps, flag, mdist, prev_len + 1, max);
            }
            proof {
                assert forall|reps: Seq<Option<Seq<u16>>>|
                    matches_tried(
                        s,
                        (Board { t: table(nodes@), rows: Rows { matches: lens@, reps } }),
                        cur as nat,
                        f,
                        i as nat + 1,
                        mlen as nat,
                    ) == #[trigger] matches_tried(
                        s,
                        (Board { t: t0, rows: Rows { matches: rows0, reps } }),
                        cur as nat,
                        f,
                        0,
                        1,
                    ) by {
                    let b = Board { t: t1, rows: Rows { matches: rows1, reps } };
                    assert(matches_tried(s, b, cur as nat, f, i as nat, prev_len as nat)
                        == matches_tried(
                        s,
                        (Board { t: t0, rows: Rows { matches: rows0, reps } }),
                        cur as nat,
                        f,
                        0,
                        1,
                    ));
                }
            }
            prev_len = mlen as usize;
            i = i + 1;
        }
    }

    /// Tries a match of the lengths from `from` to `max`.
    fn try_lens(
        &self,
        nodes: &mut Vec<OptNode>,
        lens: &LenRows,
        cur: usize,
        node: &OptNode,
        ps: usize,
        flag: u32,
        dist: u32,
        from: usize,
        max: usize,
    )
        requires
            self.ok(),
            cur < self.limit,
            old(nodes)@.len() == self.limit + 1,
            modes_ok(old(nodes)@),
            lens.inv(MATCH_LEN),
            ps == self@.ps(cur as nat),
            ps < 4,
            lens@[ps as int] is Some,
            node@.m == old(nodes)@[cur as int]@.m,
            flag == self@.flag_at(IS_MATCH, node@.m, cur as nat, true) + self@.flag(
                IS_REP,
                node@.m,
                false,
            ),
            flag <= 322,
            2 <= from <= max <= MAX_MATCH_LEN,
            cur + max <= self.limit,
        ensures
            final(nodes)@.len() == old(nodes)@.len(),
            modes_ok(final(nodes)@),
            table(final(nodes)@) == match_lens(
                self@,
                table(old(nodes)@),
                cur as nat,
                dist as nat,
                lens@[ps as int]->0,
                from as nat,
                max as nat,
            ),
            final(nodes)@[cur as int]@.m == node@.m,
    {
        let ghost s = self@;
        let ghost mc = node@.m;
        let ghost row = lens@[ps as int]->0;
        let ghost goal = match_lens(
            s,
            table(nodes@),
            cur as nat,
            dist as nat,
            row,
            from as nat,
            max as nat,
        );
        let mut l: usize = from;
        let mut dist_price: u32 = self.prices.distance_price(self.probs, (l - 2) as u32, dist);
        while l <= max
            invariant
                self.ok(),
                s == self@,
                2 <= from <= l <= max + 1,
                max <= MAX_MATCH_LEN,
                cur + max <= self.limit,
                cur < self.limit,
                ps == s.ps(cur as nat),
                ps < 4,
                flag == s.flag_at(IS_MATCH, mc, cur as nat, true) + s.flag(IS_REP, mc, false),
                flag <= 322,
                l <= max ==> dist_price == dist_cost(self.probs@, (l - 2) as nat, dist as nat),
                dist_price <= 2187,
                lens.inv(MATCH_LEN),
                lens@[ps as int] is Some,
                row == lens@[ps as int]->0,
                nodes@.len() == self.limit + 1,
                modes_ok(nodes@),
                table(nodes@)[cur as int].m == mc,
                match_lens(
                    s,
                    table(nodes@),
                    cur as nat,
                    dist as nat,
                    row,
                    l as nat,
                    max as nat,
                ) == goal,
            decreases max + 1 - l,
        {
            let cost: u32 = flag + lens.get(ps, l - 2) + dist_price;
            let ghost before = table(nodes@);
            relax(nodes, cur, cost, Packet::Match { dist, len: l as u32 }, l);
            proof {
                assert(cost == s.match_total(cur as nat, mc, dist as nat, l as nat, row));
                assert(table(nodes@)[cur as int] == before[cur as int]);
            }
            l = l + 1;
            if l <= max && l < 6 {
                dist_price = self.prices.distance_price(self.probs, (l - 2) as u32, dist);
            }
        }
    }
}

/// The prices of lengths.
pub struct LenPriceCache {
    matches: LenRows,
    reps: LenRows,
}

impl LenPriceCache {
    /// The tables.
    pub closed spec fn view(&self) -> Rows {
        Rows { matches: self.matches@, reps: self.reps@ }
    }

    /// The prices are those by the tables.
    pub closed spec fn inv(&self) -> bool {
        self.matches.inv(MATCH_LEN) && self.reps.inv(REP_LEN)
    }

    /// No tables.
    pub fn new() -> (c: Self)
        ensures
            c.inv(),
            c@ == no_rows(),
    {
        LenPriceCache { matches: LenRows::new(MATCH_LEN), reps: LenRows::new(REP_LEN) }
    }

    /// Forgets the tables.
    pub fn reset(&mut self)
        requires
            old(self).inv(),
        ensures
            final(self).inv(),
            final(self)@ == no_rows(),
    {
        self.matches.reset();
        self.reps.reset();
    }
}

/// The larger of two lengths, where the second is that of a match.
fn larger(best: usize, len: usize) -> (n: usize)
    ensures
        n == worth(best as nat, len as nat),
{
    if len >= 2 && len > best {
        len
    } else {
        best
    }
}

impl<'a> Window<'a> {
    /// Tries everything at `cur`, and says how long the longest repetition is.
    fn try_all(
        &self,
        hc: &HashChain,
        nodes: &mut Vec<OptNode>,
        cache: &mut LenPriceCache,
        found: &mut Vec<(u32, u32)>,
        cur: usize,
    ) -> (best: usize)
        requires
            self.ok(),
            hc.inv(self.input@, self.reach.dict, self.start as int),
            cur < self.limit,
            old(nodes)@.len() == self.limit + 1,
            modes_ok(old(nodes)@),
            old(cache).inv(),
        ensures
            final(nodes)@.len() == old(nodes)@.len(),
            modes_ok(final(nodes)@),
            final(cache).inv(),
            best == self@.best_here(cur as nat, old(nodes)@[cur as int]@.m),
            best <= MAX_MATCH_LEN,
            (Board { t: table(final(nodes)@), rows: final(cache)@ }) == tried(
                self@,
                (Board { t: table(old(nodes)@), rows: old(cache)@ }),
                cur as nat,
            ),
    {
        reveal(tried);
        reveal(Scene::best_here);
        let ghost s = self@;
        let ghost mc = nodes@[cur as int]@.m;
        let ghost b = Board { t: table(nodes@), rows: cache@ };
        let pos: usize = self.start + cur;
        self.try_literal(nodes, cur);
        assert((Board { t: table(nodes@), rows: b.rows }) == literal_tried(s, b, cur as nat));
        let ghost b0 = literal_tried(s, b, cur as nat);
        let r0: usize = self.try_rep(nodes, &mut cache.reps, cur, 0);
        let ghost b1 = rep_tried(s, b0, cur as nat, 0);
        assert((Board { t: table(nodes@), rows: cache@ }) == b1);
        let r1: usize = self.try_rep(nodes, &mut cache.reps, cur, 1);
        let ghost b2 = rep_tried(s, b1, cur as nat, 1);
        assert((Board { t: table(nodes@), rows: cache@ }) == b2);
        let r2: usize = self.try_rep(nodes, &mut cache.reps, cur, 2);
        let ghost b3 = rep_tried(s, b2, cur as nat, 2);
        assert((Board { t: table(nodes@), rows: cache@ }) == b3);
        let r3: usize = self.try_rep(nodes, &mut cache.reps, cur, 3);
        let ghost b4 = rep_tried(s, b3, cur as nat, 3);
        assert((Board { t: table(nodes@), rows: cache@ }) == b4);
        hc.find_matches(self.input, pos, self.reach, Ghost(self.start as int), found);
        proof {
            candidates_are_matches(s.data, pos as int, s.reach, s.start);
            lemma_rep_len(s.data, pos as int, mc.reps[0]);
            lemma_rep_len(s.data, pos as int, mc.reps[1]);
            lemma_rep_len(s.data, pos as int, mc.reps[2]);
            lemma_rep_len(s.data, pos as int, mc.reps[3]);
        }
        self.try_matches(nodes, &mut cache.matches, cur, found);
        assert((Board { t: table(nodes@), rows: cache@ }) == matches_tried(
            s,
            b4,
            cur as nat,
            s.found(cur as nat),
            0,
            1,
        ));
        let n: usize = found.len();
        let new: usize = if n == 0 {
            0
        } else {
            found[n - 1].0 as usize
        };
        proof {
            assert(new == longest(pairs(found@)).0) by {
                if n > 0 {
                    assert(pairs(found@).last() == pairs(found@)[n - 1]);
                }
            }
        }
        larger(larger(larger(larger(larger(0, r0), r1), r2), r3), new)
    }

    /// Goes through the window, and says up to where packets are to be taken.
    pub fn parse_window(
        &self,
        hc: &HashChain,
        state: usize,
        reps: [u32; 4],
        nodes: &mut Vec<OptNode>,
        cache: &mut LenPriceCache,
        found: &mut Vec<(u32, u32)>,
    ) -> (end: usize)
        requires
            self.ok(),
            hc.inv(self.input@, self.reach.dict, self.start as int),
            state < 12,
            old(cache).inv(),
        ensures
            final(cache).inv(),
            final(nodes)@.len() == self.limit + 1,
            (
                Board { t: table(final(nodes)@), rows: final(cache)@ },
                end as nat,
            ) == parsed(
                self@,
                (Board {
                    t: opening(Mode { state: state as nat, reps: reps@ }, self.limit as nat),
                    rows: old(cache)@,
                }),
                0,
            ),
    {
        let ghost s = self@;
        let ghost m = Mode { state: state as nat, reps: reps@ };
        let blank = OptNode {
            price: INFINITY_PRICE,
            prev: 0,
            step: Packet::Literal { byte: 0 },
            state: 0,
            reps: [0, 0, 0, 0],
        };
        assert(blank.reps@ =~= fresh_mode().reps);
        nodes.clear();
        nodes.push(OptNode { price: 0, prev: 0, step: Packet::Literal { byte: 0 }, state, reps });
        let mut k: usize = 0;
        while k < self.limit
            invariant
                k <= self.limit,
                self.ok(),
                blank@ == crate::lzma2_internal::parser::blank(),
                m == (Mode { state: state as nat, reps: reps@ }),
                state < 12,
                nodes@.len() == k + 1,
                nodes@[0]@ == (Node { price: 0, m, ..crate::lzma2_internal::parser::blank() }),
                forall|j: int| 0 < j < nodes@.len() ==> #[trigger] nodes@[j] == blank,
            decreases self.limit - k,
        {
            nodes.push(blank);
            k = k + 1;
        }
        proof {
            assert(table(nodes@) =~= opening(m, s.limit));
            assert forall|j: int| 0 <= j < nodes@.len() implies mode_ok(#[trigger] nodes@[j]@.m) by {
                if j > 0 {
                    assert(nodes@[j] == blank);
                }
            }
        }
        let ghost goal = parsed(s, Board { t: opening(m, s.limit), rows: cache@ }, 0);
        let mut cur: usize = 0;
        while cur < self.limit
            invariant
                self.ok(),
                s == self@,
                hc.inv(self.input@, self.reach.dict, self.start as int),
                cur <= self.limit,
                nodes@.len() == self.limit + 1,
                modes_ok(nodes@),
                cache.inv(),
                goal == parsed(
                    s,
                    (Board {
                        t: opening(Mode { state: state as nat, reps: reps@ }, self.limit as nat),
                        rows: old(cache)@,
                    }),
                    0,
                ),
                parsed(s, (Board { t: table(nodes@), rows: cache@ }), cur as nat) == goal,
            decreases self.limit - cur,
        {
            if cur >= COMMIT_CAP {
                return cur;
            }
            let best: usize = self.try_all(hc, nodes, cache, found, cur);
            if best as u64 >= self.nice_len as u64 {
                let room: usize = self.limit - cur;
                let end: usize = cur + if best < room {
                    best
                } else {
                    room
                };
                return if end == 0 {
                    1
                } else {
                    end
                };
            }
            cur = cur + 1;
        }
        self.limit
    }
}

/// The packets that lead to `end`, last first.
pub fn trace_back(nodes: &Vec<OptNode>, end: usize) -> (r: Vec<Packet>)
    requires
        end < nodes@.len(),
    ensures
        r@.reverse() == path(table(nodes@), end as nat),
{
    let ghost t = table(nodes@);
    let mut r: Vec<Packet> = Vec::new();
    let mut cur: usize = end;
    assert(path(t, end as nat) + r@.reverse() =~= path(t, end as nat));
    while cur > 0 && nodes[cur].prev < cur
        invariant
            cur <= end < nodes@.len(),
            t == table(nodes@),
            path(t, cur as nat) + r@.reverse() == path(t, end as nat),
        decreases cur,
    {
        let node = nodes[cur];
        let ghost before = r@;
        r.push(node.step);
        proof {
            let a = path(t, node.prev as nat);
            assert(path(t, cur as nat) == a.push(node.step));
            assert(a + r@.reverse() =~= a.push(node.step) + before.reverse());
        }
        cur = node.prev;
    }
    assert(path(t, cur as nat) + r@.reverse() =~= r@.reverse());
    r
}

} // verus!
