//! The move-to-front transform: a reversible, length-preserving byte filter.
//!
//! Both directions keep a table that is a permutation of all byte values and
//! starts as the identity. The encoder replaces each byte by its current rank
//! and moves the byte to the front; the decoder replaces each rank by the byte
//! at that rank and moves it to the front. The tables stay in lock-step, so
//! decoding an encoded stream gives the original bytes back.
use vstd::prelude::*;

use crate::calls::{all_handed, all_ok, all_taken, answered_alike, behind, decodes, encodes};
use crate::calls::{lemma_alike, made_alike, Call};
use crate::error::Error;
use crate::traits::{idle, least, stored, Algorithm, RawDecoder, RawEncoder, RawProgress};

verus! {

/// The table both directions start from.
pub open spec fn identity() -> Seq<u8> {
    Seq::new(256, |i: int| i as u8)
}

/// Every byte value stands at exactly one rank.
pub open spec fn is_table(t: Seq<u8>) -> bool {
    &&& t.len() == 256
    &&& t.no_duplicates()
    &&& forall|b: u8| #[trigger] t.contains(b)
}

/// The table after the symbol at `rank` moved to the front.
pub open spec fn to_front(t: Seq<u8>, rank: int) -> Seq<u8> {
    seq![t[rank]] + t.take(rank) + t.skip(rank + 1)
}

/// The rank of `b`.
pub open spec fn rank_of(t: Seq<u8>, b: u8) -> int {
    t.index_of(b)
}

/// The table after encoding `data`.
pub open spec fn table_after(t: Seq<u8>, data: Seq<u8>) -> Seq<u8>
    decreases data.len(),
{
    if data.len() == 0 {
        t
    } else {
        let u = table_after(t, data.drop_last());
        to_front(u, rank_of(u, data.last()))
    }
}

/// The ranks that encode `data`.
pub open spec fn encoded(t: Seq<u8>, data: Seq<u8>) -> Seq<u8>
    decreases data.len(),
{
    if data.len() == 0 {
        Seq::empty()
    } else {
        encoded(t, data.drop_last()).push(
            rank_of(table_after(t, data.drop_last()), data.last()) as u8,
        )
    }
}

/// The table after decoding `ranks`.
pub open spec fn table_after_ranks(t: Seq<u8>, ranks: Seq<u8>) -> Seq<u8>
    decreases ranks.len(),
{
    if ranks.len() == 0 {
        t
    } else {
        to_front(table_after_ranks(t, ranks.drop_last()), ranks.last() as int)
    }
}

/// The bytes that `ranks` decode to.
pub open spec fn decoded(t: Seq<u8>, ranks: Seq<u8>) -> Seq<u8>
    decreases ranks.len(),
{
    if ranks.len() == 0 {
        Seq::empty()
    } else {
        decoded(t, ranks.drop_last()).push(
            table_after_ranks(t, ranks.drop_last())[ranks.last() as int],
        )
    }
}

proof fn lemma_identity_is_table()
    ensures
        is_table(identity()),
{
    assert forall|b: u8| #[trigger] identity().contains(b) by {
        assert(identity()[b as int] == b);
    }
}

proof fn lemma_rank(t: Seq<u8>, b: u8)
    requires
        is_table(t),
    ensures
        0 <= rank_of(t, b) < 256,
        t[rank_of(t, b)] == b,
{
    assert(t.contains(b));
}

proof fn lemma_to_front_keeps_table(t: Seq<u8>, rank: int)
    requires
        is_table(t),
        0 <= rank < 256,
    ensures
        is_table(to_front(t, rank)),
{
    let u = to_front(t, rank);
    assert forall|b: u8| #[trigger] u.contains(b) by {
        assert(t.contains(b));
        let i = t.index_of(b);
        let j = if i == rank {
            0
        } else if i < rank {
            i + 1
        } else {
            i
        };
        assert(u[j] == b);
    }
    assert forall|i: int, j: int| 0 <= i < u.len() && 0 <= j < u.len() && i != j implies u[i]
        != u[j] by {
        let a = if i == 0 {
            rank
        } else if i <= rank {
            i - 1
        } else {
            i
        };
        let b = if j == 0 {
            rank
        } else if j <= rank {
            j - 1
        } else {
            j
        };
        assert(u[i] == t[a] && u[j] == t[b] && a != b);
    }
}

proof fn lemma_table_after_is_table(t: Seq<u8>, data: Seq<u8>)
    requires
        is_table(t),
    ensures
        is_table(table_after(t, data)),
    decreases data.len(),
{
    if data.len() > 0 {
        let u = table_after(t, data.drop_last());
        lemma_table_after_is_table(t, data.drop_last());
        lemma_rank(u, data.last());
        lemma_to_front_keeps_table(u, rank_of(u, data.last()));
    }
}

/// Decoding inverts encoding: from any table, the ranks that encode `data`
/// decode to `data`, and both directions end with the same table.
pub proof fn decode_inverts_encode(t: Seq<u8>, data: Seq<u8>)
    requires
        is_table(t),
    ensures
        decoded(t, encoded(t, data)) == data,
        table_after_ranks(t, encoded(t, data)) == table_after(t, data),
    decreases data.len(),
{
    if data.len() > 0 {
        let init = data.drop_last();
        let u = table_after(t, init);
        decode_inverts_encode(t, init);
        lemma_table_after_is_table(t, init);
        lemma_rank(u, data.last());
        let r = encoded(t, data);
        assert(r.drop_last() == encoded(t, init));
        assert(decoded(t, r) == init.push(data.last()));
        assert(init.push(data.last()) == data);
    }
}

proof fn lemma_moved(t: Seq<u8>, b: u8, x: u8)
    requires
        is_table(t),
        x != b,
    ensures
        rank_of(to_front(t, rank_of(t, b)), x) == (if rank_of(t, x) < rank_of(t, b) {
            rank_of(t, x) + 1
        } else {
            rank_of(t, x)
        }),
{
    let r = rank_of(t, b);
    let u = to_front(t, r);
    lemma_rank(t, b);
    lemma_rank(t, x);
    lemma_to_front_keeps_table(t, r);
    lemma_rank(u, x);
    let i = rank_of(t, x);
    let j = if i < r {
        i + 1
    } else {
        i
    };
    assert(u[j] == x);
}

/// A single byte comes back: the rank of `b` leads to `b` in the table that gave it, both
/// directions make the same table of it, and that table ranks `b` first and the other
/// bytes in the order they had.
pub proof fn one_byte_comes_back(t: Seq<u8>, b: u8)
    requires
        is_table(t),
    ensures
        ({
            let r = rank_of(t, b);
            let u = to_front(t, r);
            &&& 0 <= r <= u8::MAX
            &&& t[r] == b
            &&& encoded(t, seq![b]) == seq![r as u8]
            &&& decoded(t, seq![r as u8]) == seq![b]
            &&& table_after(t, seq![b]) == u
            &&& table_after_ranks(t, seq![r as u8]) == u
            &&& is_table(u)
            &&& rank_of(u, b) == 0
            &&& forall|x: u8, y: u8|
                x != b && y != b ==> (#[trigger] rank_of(u, x) < #[trigger] rank_of(u, y)
                    <==> rank_of(t, x) < rank_of(t, y))
        }),
{
    let r = rank_of(t, b);
    let u = to_front(t, r);
    lemma_rank(t, b);
    lemma_to_front_keeps_table(t, r);
    lemma_rank(u, b);
    assert(u[0] == b);
    let d = seq![b];
    let k = seq![r as u8];
    assert(d.drop_last() =~= Seq::empty() && d.last() == b);
    assert(k.drop_last() =~= Seq::empty() && k.last() == r);
    assert(table_after(t, d.drop_last()) == t);
    assert(table_after_ranks(t, k.drop_last()) == t);
    assert(encoded(t, d.drop_last()) =~= Seq::empty());
    assert(decoded(t, k.drop_last()) =~= Seq::empty());
    assert(encoded(t, d) =~= k);
    assert(decoded(t, k) =~= d);
    assert forall|x: u8, y: u8| x != b && y != b implies (#[trigger] rank_of(u, x)
        < #[trigger] rank_of(u, y) <==> rank_of(t, x) < rank_of(t, y)) by {
        lemma_moved(t, b, x);
        lemma_moved(t, b, y);
        if rank_of(t, x) == r {
            lemma_rank(t, x);
        }
        if rank_of(t, y) == r {
            lemma_rank(t, y);
        }
    }
}

/// The filter keeps the length of its input.
pub proof fn encode_keeps_length(t: Seq<u8>, data: Seq<u8>)
    ensures
        encoded(t, data).len() == data.len(),
    decreases data.len(),
{
    if data.len() > 0 {
        encode_keeps_length(t, data.drop_last());
    }
}

/// Encoding in two calls gives the same ranks and the same table as encoding
/// the concatenation in one.
pub proof fn encode_is_streaming(t: Seq<u8>, a: Seq<u8>, b: Seq<u8>)
    ensures
        table_after(t, a + b) == table_after(table_after(t, a), b),
        encoded(t, a + b) == encoded(t, a) + encoded(table_after(t, a), b),
    decreases b.len(),
{
    if b.len() == 0 {
        assert(a + b == a);
    } else {
        encode_is_streaming(t, a, b.drop_last());
        assert((a + b).drop_last() == a + b.drop_last());
        assert((a + b).last() == b.last());
    }
}

/// Decoding in two calls gives the same bytes and the same table as decoding
/// the concatenation in one.
pub proof fn decode_is_streaming(t: Seq<u8>, a: Seq<u8>, b: Seq<u8>)
    ensures
        table_after_ranks(t, a + b) == table_after_ranks(table_after_ranks(t, a), b),
        decoded(t, a + b) == decoded(t, a) + decoded(table_after_ranks(t, a), b),
    decreases b.len(),
{
    if b.len() == 0 {
        assert(a + b == a);
    } else {
        decode_is_streaming(t, a, b.drop_last());
        assert((a + b).drop_last() == a + b.drop_last());
        assert((a + b).last() == b.last());
    }
}

/// How lately a byte was used: its last place in `data`, or, where it was not used, so much
/// earlier than all places as the byte is great.
pub open spec fn recency(data: Seq<u8>, b: u8) -> int
    decreases data.len(),
{
    if data.len() == 0 {
        -1 - b
    } else if data.last() == b {
        data.len() - 1
    } else {
        recency(data.drop_last(), b)
    }
}

proof fn lemma_rank_at(t: Seq<u8>, i: int)
    requires
        is_table(t),
        0 <= i < 256,
    ensures
        rank_of(t, t[i]) == i,
{
    lemma_rank(t, t[i]);
}

proof fn lemma_rank_moves(t: Seq<u8>, b: u8, x: u8)
    requires
        is_table(t),
    ensures
        ({
            let u = to_front(t, rank_of(t, b));
            rank_of(u, x) == if x == b {
                0
            } else if rank_of(t, x) < rank_of(t, b) {
                rank_of(t, x) + 1
            } else {
                rank_of(t, x)
            }
        }),
{
    let r = rank_of(t, b);
    let k = rank_of(t, x);
    lemma_rank(t, b);
    lemma_rank(t, x);
    let u = to_front(t, r);
    lemma_to_front_keeps_table(t, r);
    if x == b {
        assert(u[0] == x);
        lemma_rank_at(u, 0);
    } else if k < r {
        assert(u[k + 1] == x);
        lemma_rank_at(u, k + 1);
    } else {
        assert(u[k] == x);
        lemma_rank_at(u, k);
    }
}

/// Recency is below the number of bytes.
proof fn lemma_recency(data: Seq<u8>, b: u8)
    ensures
        recency(data, b) < data.len(),
    decreases data.len(),
{
    if data.len() > 0 {
        lemma_recency(data.drop_last(), b);
    }
}

/// The table is in the order of use: the byte that was used later stands before, and of
/// bytes that were not used the smaller one.
pub proof fn tables_are_in_order_of_use(data: Seq<u8>, x: u8, y: u8)
    ensures
        rank_of(table_after(identity(), data), x) < rank_of(table_after(identity(), data), y) <==> recency(
            data,
            x,
        ) > recency(data, y),
    decreases data.len(),
{
    lemma_identity_is_table();
    if data.len() == 0 {
        assert(identity()[x as int] == x && identity()[y as int] == y);
        lemma_rank_at(identity(), x as int);
        lemma_rank_at(identity(), y as int);
    } else {
        let init = data.drop_last();
        let u = table_after(identity(), init);
        lemma_table_after_is_table(identity(), init);
        tables_are_in_order_of_use(init, x, y);
        lemma_rank_moves(u, data.last(), x);
        lemma_rank_moves(u, data.last(), y);
        lemma_recency(init, x);
        lemma_recency(init, y);
        lemma_rank(u, data.last());
        lemma_rank(u, x);
        lemma_rank(u, y);
    }
}

/// A byte that repeats its predecessor is encoded as rank zero.
pub proof fn repeated_byte_encodes_as_zero(t: Seq<u8>, data: Seq<u8>, b: u8)
    requires
        is_table(t),
    ensures
        encoded(t, data.push(b).push(b)).last() == 0,
{
    let u = table_after(t, data);
    lemma_table_after_is_table(t, data);
    lemma_rank(u, b);
    lemma_to_front_keeps_table(u, rank_of(u, b));
    assert(data.push(b).drop_last() == data);
    let v = table_after(t, data.push(b));
    assert(v == to_front(u, rank_of(u, b)));
    lemma_rank(v, b);
    assert(v[0] == b);
    assert(data.push(b).push(b).drop_last() == data.push(b));
}

/// The filter keeps the length of its input when it decodes, too.
pub proof fn decode_keeps_length(t: Seq<u8>, ranks: Seq<u8>)
    requires
        is_table(t),
    ensures
        decoded(t, ranks).len() == ranks.len(),
        is_table(table_after_ranks(t, ranks)),
    decreases ranks.len(),
{
    if ranks.len() > 0 {
        decode_keeps_length(t, ranks.drop_last());
        lemma_to_front_keeps_table(
            table_after_ranks(t, ranks.drop_last()),
            ranks.last() as int,
        );
    }
}

/// The ranked table of byte values.
#[derive(Debug)]
pub struct Table {
    table: [u8; 256],
}

impl Clone for Table {
    fn clone(&self) -> (c: Self)
        ensures
            c@ == self@,
    {
        Table { table: self.table }
    }
}

impl Table {
    /// The byte values by rank.
    pub closed spec fn view(&self) -> Seq<u8> {
        self.table@
    }

    /// The table that both directions start from.
    pub fn new() -> (t: Self)
        ensures
            t@ == identity(),
            is_table(t@),
    {
        let mut table = [0u8;256];
        let mut i: usize = 0;
        while i < 256
            invariant
                i <= 256,
                table@.len() == 256,
                forall|k: int| 0 <= k < i ==> table@[k] == k,
            decreases 256 - i,
        {
            table[i] = i as u8;
            i = i + 1;
        }
        proof {
            lemma_identity_is_table();
            assert(table@ == identity());
        }
        Table { table }
    }

    fn reset(&mut self)
        ensures
            final(self)@ == identity(),
            is_table(final(self)@),
    {
        let mut i: usize = 0;
        while i < 256
            invariant
                i <= 256,
                self.table@.len() == 256,
                forall|k: int| 0 <= k < i ==> self.table@[k] == k,
            decreases 256 - i,
        {
            self.table[i] = i as u8;
            i = i + 1;
        }
        proof {
            lemma_identity_is_table();
            assert(self.table@ == identity());
        }
    }

    /// Returns the rank of `b` and moves `b` to the front.
    pub fn encode_byte(&mut self, b: u8) -> (rank: u8)
        requires
            is_table(old(self)@),
        ensures
            rank == rank_of(old(self)@, b),
            final(self)@ == to_front(old(self)@, rank as int),
            is_table(final(self)@),
    {
        let mut rank: usize = 0;
        proof {
            lemma_rank(self@, b);
        }
        while self.table[rank] != b
            invariant
                is_table(self@),
                rank <= rank_of(self@, b) < 256,
                self@[rank_of(self@, b)] == b,
            decreases 256 - rank,
        {
            rank = rank + 1;
        }
        self.move_to_front(rank);
        rank as u8
    }

    /// Returns the symbol at `rank` and moves it to the front.
    pub fn decode_byte(&mut self, rank: u8) -> (b: u8)
        requires
            is_table(old(self)@),
        ensures
            b == old(self)@[rank as int],
            final(self)@ == to_front(old(self)@, rank as int),
            is_table(final(self)@),
    {
        let b = self.table[rank as usize];
        self.move_to_front(rank as usize);
        b
    }

    /// Moves the entry at `rank` to the front, shifting the entries before it.
    fn move_to_front(&mut self, rank: usize)
        requires
            is_table(old(self)@),
            rank < 256,
        ensures
            final(self)@ == to_front(old(self)@, rank as int),
            is_table(final(self)@),
    {
        let ghost before = self@;
        let b = self.table[rank];
        let mut k: usize = rank;
        while k > 0
            invariant
                k <= rank < 256,
                before.len() == 256,
                self.table@.len() == 256,
                forall|i: int| 0 <= i <= k ==> self.table@[i] == before[i],
                forall|i: int| k < i <= rank ==> self.table@[i] == before[i - 1],
                forall|i: int| rank < i < 256 ==> self.table@[i] == before[i],
            decreases k,
        {
            self.table[k] = self.table[k - 1];
            k = k - 1;
        }
        self.table[0] = b;
        proof {
            assert(self@ =~= to_front(before, rank as int));
            lemma_to_front_keeps_table(before, rank as int);
        }
    }
}

/// Marker type of the move-to-front filter.
#[derive(Debug, Clone, Copy, Default)]
pub struct Mtf;

impl Algorithm for Mtf {
    const NAME: &'static str = "mtf";

    type Encoder = Encoder;

    type Decoder = Decoder;

    type EncoderConfig = ();

    type DecoderConfig = ();

    open spec fn is_encoder_with(config: (), e: Encoder) -> bool {
        e.inv() && e@ == identity()
    }

    open spec fn is_decoder_with(config: (), d: Decoder) -> bool {
        d.inv() && d@ == identity()
    }

    fn encoder_with(config: ()) -> (e: Encoder) {
        Encoder::new()
    }

    fn decoder_with(config: ()) -> (d: Decoder) {
        Decoder::new()
    }
}

/// Streaming move-to-front encoder.
#[derive(Debug)]
pub struct Encoder {
    table: Table,
}

impl Clone for Encoder {
    fn clone(&self) -> (c: Self)
        ensures
            c@ == self@,
    {
        Encoder { table: self.table.clone() }
    }
}

impl Encoder {
    /// The current table.
    pub closed spec fn view(&self) -> Seq<u8> {
        self.table@
    }

    /// An encoder with the identity table.
    pub fn new() -> (e: Self)
        ensures
            e.inv(),
            e@ == identity(),
    {
        Encoder { table: Table::new() }
    }
}

impl Default for Encoder {
    fn default() -> (e: Self)
        ensures
            e.inv(),
            e@ == identity(),
    {
        Encoder::new()
    }
}

impl RawEncoder for Encoder {
    open spec fn inv(&self) -> bool {
        is_table(self@)
    }

    open spec fn encode_post(
        before: Self,
        input: Seq<u8>,
        old_output: Seq<u8>,
        after: Self,
        new_output: Seq<u8>,
        r: Result<RawProgress, Error>,
    ) -> bool {
        let n = least(input.len(), old_output.len());
        &&& r == Ok::<RawProgress, Error>(
            RawProgress { consumed: n as usize, written: n as usize, done: false },
        )
        &&& new_output == stored(old_output, encoded(before@, input.take(n as int)))
        &&& after@ == table_after(before@, input.take(n as int))
    }

    open spec fn finish_post(
        before: Self,
        old_output: Seq<u8>,
        after: Self,
        new_output: Seq<u8>,
        r: Result<RawProgress, Error>,
    ) -> bool {
        &&& r == Ok::<RawProgress, Error>(idle(true))
        &&& new_output == old_output
        &&& after@ == before@
    }

    open spec fn reset_post(before: Self, after: Self) -> bool {
        after@ == identity()
    }

    fn raw_encode(&mut self, input: &[u8], output: &mut [u8]) -> (r: Result<RawProgress, Error>) {
        let n: usize = if input.len() <= output.len() {
            input.len()
        } else {
            output.len()
        };
        let mut i: usize = 0;
        let ghost t0 = self@;
        let ghost out0 = output@;
        assert(input@.take(0) =~= Seq::empty());
        while i < n
            invariant
                i <= n <= input@.len(),
                n <= out0.len(),
                output@.len() == out0.len(),
                is_table(self@),
                self@ == table_after(t0, input@.take(i as int)),
                encoded(t0, input@.take(i as int)).len() == i,
                output@ == stored(out0, encoded(t0, input@.take(i as int))),
            decreases n - i,
        {
            output[i] = self.table.encode_byte(input[i]);
            proof {
                let d = input@.take(i + 1);
                assert(d.drop_last() =~= input@.take(i as int));
                assert(d.last() == input@[i as int]);
                assert(output@ =~= stored(out0, encoded(t0, d)));
            }
            i = i + 1;
        }
        assert(output@.skip(n as int) =~= out0.skip(n as int));
        Ok(RawProgress { consumed: n, written: n, done: false })
    }

    fn raw_finish(&mut self, output: &mut [u8]) -> (r: Result<RawProgress, Error>) {
        Ok(RawProgress { consumed: 0, written: 0, done: true })
    }

    fn raw_reset(&mut self) {
        self.table.reset();
    }
}

/// Streaming move-to-front decoder.
#[derive(Debug)]
pub struct Decoder {
    table: Table,
}

impl Clone for Decoder {
    fn clone(&self) -> (c: Self)
        ensures
            c@ == self@,
    {
        Decoder { table: self.table.clone() }
    }
}

impl Decoder {
    /// The current table.
    pub closed spec fn view(&self) -> Seq<u8> {
        self.table@
    }

    /// A decoder with the identity table.
    pub fn new() -> (d: Self)
        ensures
            d.inv(),
            d@ == identity(),
    {
        Decoder { table: Table::new() }
    }
}

impl Default for Decoder {
    fn default() -> (d: Self)
        ensures
            d.inv(),
            d@ == identity(),
    {
        Decoder::new()
    }
}

impl RawDecoder for Decoder {
    open spec fn inv(&self) -> bool {
        is_table(self@)
    }

    open spec fn decode_post(
        before: Self,
        input: Seq<u8>,
        old_output: Seq<u8>,
        after: Self,
        new_output: Seq<u8>,
        r: Result<RawProgress, Error>,
    ) -> bool {
        let n = least(input.len(), old_output.len());
        &&& r == Ok::<RawProgress, Error>(
            RawProgress { consumed: n as usize, written: n as usize, done: false },
        )
        &&& new_output == stored(old_output, decoded(before@, input.take(n as int)))
        &&& after@ == table_after_ranks(before@, input.take(n as int))
    }

    open spec fn finish_post(
        before: Self,
        old_output: Seq<u8>,
        after: Self,
        new_output: Seq<u8>,
        r: Result<RawProgress, Error>,
    ) -> bool {
        &&& r == Ok::<RawProgress, Error>(idle(true))
        &&& new_output == old_output
        &&& after@ == before@
    }

    open spec fn reset_post(before: Self, after: Self) -> bool {
        after@ == identity()
    }

    fn raw_decode(&mut self, input: &[u8], output: &mut [u8]) -> (r: Result<RawProgress, Error>) {
        let n: usize = if input.len() <= output.len() {
            input.len()
        } else {
            output.len()
        };
        let mut i: usize = 0;
        let ghost t0 = self@;
        let ghost out0 = output@;
        assert(input@.take(0) =~= Seq::empty());
        while i < n
            invariant
                i <= n <= input@.len(),
                n <= out0.len(),
                output@.len() == out0.len(),
                is_table(self@),
                self@ == table_after_ranks(t0, input@.take(i as int)),
                decoded(t0, input@.take(i as int)).len() == i,
                output@ == stored(out0, decoded(t0, input@.take(i as int))),
            decreases n - i,
        {
            output[i] = self.table.decode_byte(input[i]);
            proof {
                let d = input@.take(i + 1);
                assert(d.drop_last() =~= input@.take(i as int));
                assert(d.last() == input@[i as int]);
                assert(output@ =~= stored(out0, decoded(t0, d)));
            }
            i = i + 1;
        }
        assert(output@.skip(n as int) =~= out0.skip(n as int));
        Ok(RawProgress { consumed: n, written: n, done: false })
    }

    fn raw_finish(&mut self, output: &mut [u8]) -> (r: Result<RawProgress, Error>) {
        Ok(RawProgress { consumed: 0, written: 0, done: true })
    }

    fn raw_reset(&mut self) {
        self.table.reset();
    }
}

proof fn lemma_encoding(e: Encoder, cs: Seq<Call<Encoder>>)
    requires
        encodes(e, cs),
    ensures
        all_ok(cs),
        all_handed(cs) == encoded(e@, all_taken(cs)),
        behind(e, cs)@ == table_after(e@, all_taken(cs)),
    decreases cs.len(),
{
    if cs.len() > 0 {
        let a = cs.drop_last();
        let c = cs.last();
        lemma_encoding(e, a);
        assert forall|i: int| 0 <= i < cs.len() implies (#[trigger] cs[i]).r is Ok by {
            if i < a.len() {
                assert(a[i].r is Ok);
            }
        }
        encode_is_streaming(e@, all_taken(a), c.taken());
        if c.finishing {
            assert(c.taken() =~= Seq::empty());
            assert(c.handed() =~= Seq::empty());
            assert(all_taken(cs) =~= all_taken(a));
            assert(all_handed(cs) =~= all_handed(a));
        } else {
            encode_keeps_length(behind(e, a)@, c.taken());
            assert(c.handed() =~= encoded(behind(e, a)@, c.taken()));
        }
    }
}

proof fn lemma_decoding(d: Decoder, cs: Seq<Call<Decoder>>)
    requires
        decodes(d, cs),
    ensures
        all_ok(cs),
        all_handed(cs) == decoded(d@, all_taken(cs)),
        behind(d, cs)@ == table_after_ranks(d@, all_taken(cs)),
    decreases cs.len(),
{
    if cs.len() > 0 {
        let a = cs.drop_last();
        let c = cs.last();
        lemma_decoding(d, a);
        assert forall|i: int| 0 <= i < cs.len() implies (#[trigger] cs[i]).r is Ok by {
            if i < a.len() {
                assert(a[i].r is Ok);
            }
        }
        decode_is_streaming(d@, all_taken(a), c.taken());
        if c.finishing {
            assert(c.taken() =~= Seq::empty());
            assert(c.handed() =~= Seq::empty());
            assert(all_taken(cs) =~= all_taken(a));
            assert(all_handed(cs) =~= all_handed(a));
        } else {
            decode_keeps_length(behind(d, a)@, c.taken());
            assert(c.handed() =~= decoded(behind(d, a)@, c.taken()));
        }
    }
}

/// However an encoder and a decoder with the same table are called: no call fails, the
/// encoder hands out the ranks of all it takes, and a decoder that takes those hands
/// the data out.
pub proof fn calls_round_trip(
    e: Encoder,
    ce: Seq<Call<Encoder>>,
    d: Decoder,
    cd: Seq<Call<Decoder>>,
)
    requires
        e.inv(),
        d@ == e@,
        encodes(e, ce),
        decodes(d, cd),
    ensures
        all_ok(ce),
        all_ok(cd),
        all_handed(ce) == encoded(e@, all_taken(ce)),
        all_handed(ce).len() == all_taken(ce).len(),
        all_handed(cd) == decoded(d@, all_taken(cd)),
        all_handed(cd).len() == all_taken(cd).len(),
        all_taken(cd) == all_handed(ce) ==> all_handed(cd) == all_taken(ce) && behind(d, cd)@
            == behind(e, ce)@,
{
    lemma_encoding(e, ce);
    lemma_decoding(d, cd);
    decode_inverts_encode(e@, all_taken(ce));
    encode_keeps_length(e@, all_taken(ce));
    decode_keeps_length(d@, all_taken(cd));
}

proof fn lemma_same_answers(a: Encoder, b: Encoder, ca: Seq<Call<Encoder>>, cb: Seq<Call<Encoder>>)
    requires
        a@ == b@,
        encodes(a, ca),
        encodes(b, cb),
        made_alike(ca, cb),
    ensures
        answered_alike(ca, cb),
        behind(a, ca)@ == behind(b, cb)@,
    decreases ca.len(),
{
    if ca.len() > 0 {
        lemma_alike(ca, cb);
        lemma_same_answers(a, b, ca.drop_last(), cb.drop_last());
    }
}

/// An encoder that was reset answers every series of calls as a new one does.
pub proof fn reset_is_as_new(
    before: Encoder,
    reset: Encoder,
    new: Encoder,
    ca: Seq<Call<Encoder>>,
    cb: Seq<Call<Encoder>>,
)
    requires
        Encoder::reset_post(before, reset),
        new@ == identity(),
        encodes(reset, ca),
        encodes(new, cb),
        made_alike(ca, cb),
    ensures
        answered_alike(ca, cb),
{
    lemma_same_answers(reset, new, ca, cb);
}

} // verus!
