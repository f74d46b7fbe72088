//! Looks for matches along chains of positions whose first bytes hash alike.
use vstd::prelude::*;

use crate::lz::{common, lemma_common};
use crate::lzma2_internal::enc_core::{agreement, longest_allowed, match_ok};
use crate::lzma2_internal::coding::MAX_MATCH_LEN;

verus! {

/// How far a search goes.
#[derive(Debug, Clone, Copy)]
pub struct Reach {
    /// The farthest distance.
    pub dict: u32,
    /// How many positions are tried.
    pub max_chain: usize,
    /// A match of this length ends the search.
    pub nice_match: u32,
}

/// The least of `p`, `2 * p`, ... that is `n` at least.
pub open spec fn power_from(p: nat, n: nat) -> nat
    decreases (if p < n { n - p } else { 0 }),
{
    if p == 0 || p >= n {
        p
    } else {
        power_from(2 * p, n)
    }
}

/// How many hash values there are for data of the given length: about as many as
/// there are positions within reach.
pub open spec fn buckets(len: nat, dict: u32) -> nat {
    let needed = (dict + MAX_MATCH_LEN + 2) as nat;
    let some = if len == 0 {
        1
    } else {
        len
    };
    let n = power_from(1, if needed < some {
        needed
    } else {
        some
    });
    if n < 16384 {
        16384
    } else {
        n
    }
}

/// A product within 32 bits.
pub open spec fn mixed(b: u8, k: u32) -> u32 {
    ((b * k) % 0x1_0000_0000) as u32
}

/// The hash of the bytes at `i`.
pub open spec fn hash3_at(data: Seq<u8>, i: int) -> u32 {
    mixed(data[i], 2654435761) ^ mixed(data[i + 1], 2246822519) ^ mixed(data[i + 2], 3266489917)
}

/// The bucket of the position `i` among `n`.
pub open spec fn bucket(data: Seq<u8>, n: nat, i: int) -> nat {
    hash3_at(data, i) as nat % n
}

/// The latest position before `i` in the bucket `h` of `n`.
pub open spec fn latest(data: Seq<u8>, n: nat, h: nat, i: int) -> Option<int>
    decreases i,
{
    if i <= 0 {
        None
    } else if i + 2 <= data.len() && bucket(data, n, i - 1) == h {
        Some(i - 1)
    } else {
        latest(data, n, h, i - 1)
    }
}

/// The matches at `pos` with the positions from `cur` down its chain that are longer
/// than `best` and all before: their lengths, and their distances less one.
pub open spec fn candidates_from(
    data: Seq<u8>,
    pos: int,
    reach: Reach,
    n: nat,
    cur: Option<int>,
    steps: nat,
    best: nat,
) -> Seq<(nat, nat)>
    decreases reach.max_chain - steps,
{
    match cur {
        None => Seq::empty(),
        Some(q) => if steps >= reach.max_chain || pos - q > reach.dict {
            Seq::empty()
        } else {
            let max = longest_allowed(data, pos);
            let len = common(data, q, pos, max);
            let next = latest(data, n, bucket(data, n, pos), q);
            if len > best {
                seq![(len, (pos - q - 1) as nat)] + if len >= reach.nice_match || len >= max {
                    Seq::empty()
                } else {
                    candidates_from(data, pos, reach, n, next, steps + 1, len)
                }
            } else {
                candidates_from(data, pos, reach, n, next, steps + 1, best)
            }
        },
    }
}

/// The matches at `pos` with positions before `from`: the nearest first, and each
/// longer than those before.
pub open spec fn candidates(data: Seq<u8>, pos: int, reach: Reach, from: int) -> Seq<(nat, nat)> {
    let n = buckets(data.len(), reach.dict);
    if pos + 3 > data.len() {
        Seq::empty()
    } else {
        candidates_from(data, pos, reach, n, latest(data, n, bucket(data, n, pos), from), 0, 1)
    }
}

/// The longest match, of length zero where there is none.
pub open spec fn longest(found: Seq<(nat, nat)>) -> (nat, nat) {
    if found.len() == 0 {
        (0, 0)
    } else {
        found.last()
    }
}

proof fn lemma_power_from(p: nat, n: nat)
    requires
        1 <= p,
        p <= n || p == 1,
    ensures
        power_from(p, n) >= n,
        power_from(p, n) >= 1,
        power_from(p, n) <= 2 * n || power_from(p, n) == 1,
    decreases n - p,
{
    if p < n {
        if 2 * p <= n {
            lemma_power_from(2 * p, n);
        }
    }
}

pub proof fn lemma_buckets(len: nat, dict: u32)
    ensures
        buckets(len, dict) >= 16384,
        buckets(len, dict) <= 16384 || buckets(len, dict) <= 2 * len,
{
    let needed = (dict + MAX_MATCH_LEN + 2) as nat;
    let some = if len == 0 {
        1
    } else {
        len
    };
    lemma_power_from(1, if needed < some {
        needed
    } else {
        some
    });
}

proof fn lemma_latest(data: Seq<u8>, n: nat, h: nat, i: int)
    ensures
        latest(data, n, h, i) matches Some(q) ==> 0 <= q < i && bucket(data, n, q) == h && q + 3
            <= data.len(),
    decreases i,
{
    if i > 0 {
        lemma_latest(data, n, h, i - 1);
    }
}

/// Matches within reach that are longer than `best`, each longer than those before.
#[verifier::opaque]
pub open spec fn mounting(
    data: Seq<u8>,
    pos: int,
    dict: u32,
    best: nat,
    c: Seq<(nat, nat)>,
) -> bool {
    &&& forall|i: int|
        0 <= i < c.len() ==> match_ok(data, pos, #[trigger] c[i]) && c[i].0 > best && c[i].1 < dict
    &&& forall|i: int, j: int| 0 <= i < j < c.len() ==> #[trigger] c[i].0 < #[trigger] c[j].0
}

proof fn lemma_mounting(
    data: Seq<u8>,
    pos: int,
    dict: u32,
    best: nat,
    found: (nat, nat),
    later: Seq<(nat, nat)>,
)
    requires
        match_ok(data, pos, found),
        found.0 > best,
        found.1 < dict,
        mounting(data, pos, dict, found.0, later),
    ensures
        mounting(data, pos, dict, best, seq![found] + later),
{
    reveal(mounting);
    let c = seq![found] + later;
    assert forall|i: int| 0 <= i < c.len() implies match_ok(data, pos, #[trigger] c[i]) && c[i].0
        > best && c[i].1 < dict by {
        if i > 0 {
            assert(c[i] == later[i - 1]);
        }
    }
    assert forall|i: int, j: int| 0 <= i < j < c.len() implies #[trigger] c[i].0 < #[trigger] c[j].0
    by {
        assert(c[j] == later[j - 1]);
        if i > 0 {
            assert(c[i] == later[i - 1]);
        }
    }
}

proof fn lemma_candidates_from(
    data: Seq<u8>,
    pos: int,
    reach: Reach,
    n: nat,
    cur: Option<int>,
    steps: nat,
    best: nat,
)
    requires
        0 <= pos < data.len(),
        best >= 1,
        cur matches Some(q) ==> 0 <= q < pos,
    ensures
        mounting(
            data,
            pos,
            reach.dict,
            best,
            candidates_from(data, pos, reach, n, cur, steps, best),
        ),
    decreases reach.max_chain - steps,
{
    assert(forall|b: nat| mounting(data, pos, reach.dict, b, Seq::empty())) by {
        reveal(mounting);
    }
    if let Some(q) = cur {
        if steps < reach.max_chain && pos - q <= reach.dict {
            let max = longest_allowed(data, pos);
            let len = common(data, q, pos, max);
            let next = latest(data, n, bucket(data, n, pos), q);
            lemma_latest(data, n, bucket(data, n, pos), q);
            let found = (len, (pos - q - 1) as nat);
            if len > best {
                assert(match_ok(data, pos, found)) by {
                    lemma_common(data, q, pos, max);
                    assert forall|i: int| 0 <= i < len implies #[trigger] data[pos - (found.1 + 1)
                        + i] == data[pos + i] by {
                        assert(data[q + i] == data[pos + i]);
                    }
                }
                let ends = len >= reach.nice_match || len >= max;
                let later = if ends {
                    Seq::empty()
                } else {
                    candidates_from(data, pos, reach, n, next, steps + 1, len)
                };
                if !ends {
                    lemma_candidates_from(data, pos, reach, n, next, steps + 1, len);
                }
                lemma_mounting(data, pos, reach.dict, best, found, later);
            } else {
                lemma_candidates_from(data, pos, reach, n, next, steps + 1, best);
            }
        }
    }
}

/// The candidates are matches with what stands before, within reach, and each is longer
/// than those before.
pub proof fn candidates_are_matches(data: Seq<u8>, pos: int, reach: Reach, from: int)
    requires
        0 <= from <= pos < data.len(),
    ensures
        mounting(data, pos, reach.dict, 1, candidates(data, pos, reach, from)),
        match_ok(data, pos, longest(candidates(data, pos, reach, from))),
{
    let n = buckets(data.len(), reach.dict);
    if pos + 3 <= data.len() {
        let cur = latest(data, n, bucket(data, n, pos), from);
        lemma_latest(data, n, bucket(data, n, pos), from);
        lemma_candidates_from(data, pos, reach, n, cur, 0, 1);
    }
    reveal(mounting);
}

/// Pairs as numbers.
pub open spec fn pairs(v: Seq<(u32, u32)>) -> Seq<(nat, nat)> {
    Seq::new(v.len(), |i: int| (v[i].0 as nat, v[i].1 as nat))
}

/// No position.
const NIL: u32 = 0xFFFF_FFFF;

/// The number that stands for a position.
spec fn link(q: Option<int>) -> u32 {
    match q {
        Some(q) => q as u32,
        None => NIL,
    }
}

/// The hash of three bytes.
fn hash3(b0: u8, b1: u8, b2: u8) -> (h: u32)
    ensures
        h == mixed(b0, 2654435761) ^ mixed(b1, 2246822519) ^ mixed(b2, 3266489917),
{
    let x: u32 = ((b0 as u64 * 2654435761u64) % 0x1_0000_0000) as u32;
    let y: u32 = ((b1 as u64 * 2246822519u64) % 0x1_0000_0000) as u32;
    let z: u32 = ((b2 as u64 * 3266489917u64) % 0x1_0000_0000) as u32;
    x ^ y ^ z
}

/// The positions so far, by bucket, latest first.
pub struct HashChain {
    head: Vec<u32>,
    prev: Vec<u32>,
}

impl HashChain {
    /// The positions below `pos` are linked.
    pub closed spec fn inv(&self, data: Seq<u8>, dict: u32, pos: int) -> bool {
        let n = buckets(data.len(), dict);
        &&& self.head@.len() == n
        &&& self.prev@.len() == data.len()
        &&& data.len() <= 0x20_0000
        &&& 0 <= pos <= data.len()
        &&& forall|h: int|
            0 <= h < n ==> #[trigger] self.head@[h] == link(latest(data, n, h as nat, pos))
        &&& forall|q: int|
            0 <= q < pos && q + 3 <= data.len() ==> #[trigger] self.prev@[q] == link(
                latest(data, n, bucket(data, n, q), q),
            )
    }

    /// No position is linked.
    pub fn new(input: &[u8], dict: u32) -> (c: Self)
        requires
            input@.len() <= 0x20_0000,
        ensures
            c.inv(input@, dict, 0),
    {
        let needed: u64 = dict as u64 + MAX_MATCH_LEN as u64 + 2;
        let some: usize = if input.len() == 0 {
            1
        } else {
            input.len()
        };
        let want: usize = if needed < some as u64 {
            needed as usize
        } else {
            some
        };
        let mut n: usize = 1;
        while n < want
            invariant
                1 <= n,
                n <= 2 * want,
                want <= 0x20_0000,
                power_from(n as nat, want as nat) == power_from(1, want as nat),
            decreases (if n < want { want - n } else { 0 }),
        {
            n = 2 * n;
        }
        if n < 16384 {
            n = 16384;
        }
        HashChain { head: vec![NIL;n], prev: vec![NIL;input.len()] }
    }

    /// Links a position.
    pub fn insert(&mut self, input: &[u8], dict: Ghost<u32>, pos: usize)
        requires
            old(self).inv(input@, dict@, pos as int),
            pos < input@.len(),
        ensures
            final(self).inv(input@, dict@, pos + 1),
    {
        let ghost o = *self;
        let ghost n = buckets(input@.len(), dict@);
        proof {
            lemma_buckets(input@.len(), dict@);
        }
        if pos + 3 > input.len() {
            proof {
                assert forall|h: int| 0 <= h < n implies #[trigger] self.head@[h] == link(
                    latest(input@, n, h as nat, pos + 1),
                ) by {}
            }
            return;
        }
        let h: usize = hash3(input[pos], input[pos + 1], input[pos + 2]) as usize % self.head.len();
        assert(h == bucket(input@, n, pos as int));
        self.prev.set(pos, self.head[h]);
        self.head.set(h, pos as u32);
        proof {
            assert forall|k: int| 0 <= k < n implies #[trigger] self.head@[k] == link(
                latest(input@, n, k as nat, pos + 1),
            ) by {
                assert(o.head@[k] == link(latest(input@, n, k as nat, pos as int)));
            }
        }
    }

    /// Links the positions from `from` up to `to`.
    pub fn insert_all(&mut self, input: &[u8], dict: Ghost<u32>, from: usize, to: usize)
        requires
            old(self).inv(input@, dict@, from as int),
            from <= to <= input@.len(),
        ensures
            final(self).inv(input@, dict@, to as int),
    {
        let mut p: usize = from;
        while p < to
            invariant
                from <= p <= to,
                to <= input@.len(),
                self.inv(input@, dict@, p as int),
            decreases to - p,
        {
            self.insert(input, dict, p);
            p = p + 1;
        }
    }

    /// Finds the candidates at `pos`.
    pub fn find_matches(
        &self,
        input: &[u8],
        pos: usize,
        reach: Reach,
        from: Ghost<int>,
        out: &mut Vec<(u32, u32)>,
    )
        requires
            self.inv(input@, reach.dict, from@),
            from@ <= pos < input@.len(),
        ensures
            pairs(final(out)@) == candidates(input@, pos as int, reach, from@),
    {
        out.clear();
        let ghost goal = candidates(input@, pos as int, reach, from@);
        let ghost n = buckets(input@.len(), reach.dict);
        if pos + 3 > input.len() {
            assert(pairs(out@) =~= goal);
            return;
        }
        proof {
            lemma_buckets(input@.len(), reach.dict);
        }
        let h: usize = hash3(input[pos], input[pos + 1], input[pos + 2]) as usize % self.head.len();
        let ghost hv = bucket(input@, n, pos as int);
        assert(h == hv);
        let rest: usize = input.len() - pos;
        let max_len: usize = if rest < MAX_MATCH_LEN {
            rest
        } else {
            MAX_MATCH_LEN
        };
        let mut best_len: usize = 1;
        let ghost mut at: Option<int> = latest(input@, n, hv, from@);
        let mut cur: u32 = self.head[h];
        let mut steps: usize = 0;
        proof {
            lemma_latest(input@, n, hv, from@);
            assert(pairs(out@) =~= Seq::empty());
            assert(pairs(out@) + goal =~= goal);
        }
        while cur != NIL && steps < reach.max_chain
            invariant
                cur == link(at),
                at matches Some(q) ==> 0 <= q < from@ && bucket(input@, n, q) == hv && q + 3
                    <= input@.len(),
                self.inv(input@, reach.dict, from@),
                n == buckets(input@.len(), reach.dict),
                from@ <= pos,
                pos + 3 <= input.len(),
                hv == bucket(input@, n, pos as int),
                goal == candidates(input@, pos as int, reach, from@),
                max_len == longest_allowed(input@, pos as int),
                1 <= best_len <= max_len,
                steps <= reach.max_chain,
                pairs(out@) + candidates_from(
                    input@,
                    pos as int,
                    reach,
                    n,
                    at,
                    steps as nat,
                    best_len as nat,
                ) == goal,
            decreases reach.max_chain - steps,
        {
            let q: usize = cur as usize;
            let dist: usize = pos - q;
            if dist as u64 > reach.dict as u64 {
                assert(pairs(out@) + Seq::empty() =~= pairs(out@));
                return;
            }
            let ghost max = longest_allowed(input@, pos as int);
            let ghost len0 = common(input@, q as int, pos as int, max);
            let ghost next = latest(input@, n, hv, q as int);
            proof {
                lemma_common(input@, q as int, pos as int, max);
                lemma_latest(input@, n, hv, q as int);
                if best_len < input.len() - pos && input@[q + best_len] != input@[pos + best_len] {
                    if len0 > best_len {
                        assert(input@[q + best_len as int] == input@[pos + best_len as int]);
                    }
                }
            }
            if best_len < 2 || best_len >= input.len() - pos || input[q + best_len] == input[pos
                + best_len] {
                let len: usize = agreement(input, q, pos, max_len);
                if len > best_len {
                    let ghost before = out@;
                    let ghost later = if len >= reach.nice_match || len >= max_len {
                        Seq::empty()
                    } else {
                        candidates_from(
                            input@,
                            pos as int,
                            reach,
                            n,
                            next,
                            steps as nat + 1,
                            len as nat,
                        )
                    };
                    out.push((len as u32, (dist - 1) as u32));
                    best_len = len;
                    proof {
                        assert(pairs(out@) =~= pairs(before).push((len as nat, (dist - 1) as nat)));
                        assert(pairs(out@) + later =~= pairs(before) + (seq![
                            (len as nat, (dist - 1) as nat),
                        ] + later));
                    }
                    if len >= reach.nice_match as usize || len >= max_len {
                        assert(pairs(out@) + Seq::empty() =~= pairs(out@));
                        return;
                    }
                }
            }
            cur = self.prev[q];
            steps = steps + 1;
            proof {
                at = next;
            }
        }
        assert(pairs(out@) + Seq::empty() =~= pairs(out@));
    }

    /// Finds the longest candidate at `pos`.
    pub fn find_longest(&self, input: &[u8], pos: usize, reach: Reach) -> (r: (usize, usize))
        requires
            self.inv(input@, reach.dict, pos as int),
            pos < input@.len(),
        ensures
            (r.0 as nat, r.1 as nat) == longest(candidates(input@, pos as int, reach, pos as int)),
    {
        let mut out: Vec<(u32, u32)> = Vec::new();
        self.find_matches(input, pos, reach, Ghost(pos as int), &mut out);
        let n: usize = out.len();
        if n == 0 {
            return (0, 0);
        }
        let (len, dist) = out[n - 1];
        assert(pairs(out@).last() == (len as nat, dist as nat));
        (len as usize, dist as usize)
    }
}

} // verus!
