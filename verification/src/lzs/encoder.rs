//! The LZS encoder: it collects the input and codes it at the end.
//!
//! The match finder keeps one position per slot, the last one whose two bytes
//! hash there.
use vstd::prelude::*;

use super::bits::BitWriter;
use super::{all_bits, chain_bits, encoded, found, hash_of, length_bits, no_positions};
use super::{noted, noted_until, payload, payload_bits, token_bits, tokens};
use super::{lemma_found, Token, HASH_EMPTY, HASH_SIZE, MAX_DISTANCE, MIN_MATCH};
use crate::bits::lemma_packed;
use crate::error::Error;
use crate::le::{le_bytes, push_le};
use crate::lz::lemma_common_is;
use crate::machine::Queue;
use crate::traits::{least, stored};
use crate::traits::{RawEncoder, RawProgress};

verus! {

/// The match finder.
struct Finder {
    slots: Vec<u32>,
}

impl Finder {
    fn new() -> (f: Self)
        ensures
            f.slots@ == no_positions(),
    {
        let f = Finder { slots: vec![HASH_EMPTY;HASH_SIZE] };
        assert(f.slots@ =~= no_positions());
        f
    }

    fn hash2(data: &[u8], i: usize) -> (h: usize)
        requires
            i + MIN_MATCH <= data@.len(),
        ensures
            h == hash_of(data@, i as int),
            h < HASH_SIZE,
    {
        let v: u64 = 256 * data[i] as u64 + data[i + 1] as u64;
        (v * 2654435761 % 4294967296 / 1048576) as usize
    }

    /// Puts position `i` in its slot.
    fn note(&mut self, data: &[u8], i: usize)
        requires
            i < data@.len(),
            old(self).slots@.len() == HASH_SIZE,
        ensures
            final(self).slots@ == noted(old(self).slots@, data@, i as int),
            final(self).slots@.len() == HASH_SIZE,
    {
        if data.len() - i >= MIN_MATCH {
            let h: usize = Self::hash2(data, i);
            self.slots[h] = (i as u64 % 4294967296) as u32;
        }
    }

    /// Puts the positions `j..end` in their slots.
    fn note_until(&mut self, data: &[u8], j: usize, end: usize)
        requires
            j <= end <= data@.len(),
            old(self).slots@.len() == HASH_SIZE,
        ensures
            final(self).slots@ == noted_until(old(self).slots@, data@, j as int, end as int),
            final(self).slots@.len() == HASH_SIZE,
    {
        let mut k: usize = j;
        while k < end
            invariant
                j <= k <= end <= data@.len(),
                self.slots@.len() == HASH_SIZE,
                noted_until(self.slots@, data@, k as int, end as int) == noted_until(
                    old(self).slots@,
                    data@,
                    j as int,
                    end as int,
                ),
            decreases end - k,
        {
            self.note(data, k);
            k = k + 1;
        }
    }

    /// The match that the finder offers at `i`.
    fn find(&self, data: &[u8], i: usize) -> (r: Option<(usize, usize)>)
        requires
            i < data@.len(),
            self.slots@.len() == HASH_SIZE,
        ensures
            found(self.slots@, data@, i as int) == (match r {
                Some((dist, len)) => Some((dist as nat, len as nat)),
                None => None,
            }),
    {
        let limit: usize = data.len() - i;
        if limit < MIN_MATCH {
            return None;
        }
        let h: usize = Self::hash2(data, i);
        let slot: u32 = self.slots[h];
        if slot == HASH_EMPTY {
            return None;
        }
        let prev: usize = slot as usize;
        if prev >= i || i - prev >= MAX_DISTANCE {
            return None;
        }
        let mut len: usize = 0;
        while len < limit && data[prev + len] == data[i + len]
            invariant
                len <= limit,
                prev < i,
                i + limit <= data.len(),
                forall|k: int| 0 <= k < len ==> #[trigger] data@[prev + k] == data@[i + k],
            decreases limit - len,
        {
            len = len + 1;
        }
        proof {
            lemma_common_is(data@, prev as int, i as int, limit as nat, len as nat);
        }
        if len >= MIN_MATCH {
            Some((i - prev, len))
        } else {
            None
        }
    }
}

/// Writes a match length.
pub fn write_length(bw: &mut BitWriter, len: usize)
    requires
        old(bw).inv(),
        len >= MIN_MATCH,
    ensures
        final(bw).inv(),
        final(bw)@ == old(bw)@ + length_bits(len as nat),
{
    if len < 5 {
        bw.write_bits(2, (len - 2) as u32);
    } else if len < 8 {
        bw.write_bits(2, 3);
        bw.write_bits(2, (len - 5) as u32);
        assert(bw@ =~= old(bw)@ + length_bits(len as nat));
    } else {
        bw.write_bits(2, 3);
        bw.write_bits(2, 3);
        let mut rem: usize = len - 8;
        let ghost all = old(bw)@ + length_bits(len as nat);
        assert(bw@ + chain_bits(rem as nat) =~= all);
        while rem >= 15
            invariant
                bw.inv(),
                bw@ + chain_bits(rem as nat) == all,
            decreases rem,
        {
            let ghost before = bw@;
            bw.write_bits(4, 15);
            rem = rem - 15;
            assert(bw@ + chain_bits(rem as nat) =~= before + chain_bits((rem + 15) as nat));
        }
        bw.write_bits(4, rem as u32);
    }
}

/// Writes a match.
fn write_match(bw: &mut BitWriter, dist: usize, len: usize)
    requires
        old(bw).inv(),
        dist < MAX_DISTANCE,
        len >= MIN_MATCH,
    ensures
        final(bw).inv(),
        final(bw)@ == old(bw)@ + token_bits(Token::Match { dist: dist as nat, len: len as nat }),
{
    bw.write_bits(1, 1);
    if dist <= 127 {
        bw.write_bits(1, 1);
        bw.write_bits(7, dist as u32);
    } else {
        bw.write_bits(1, 0);
        bw.write_bits(11, dist as u32);
    }
    write_length(bw, len);
    assert(bw@ =~= old(bw)@ + token_bits(Token::Match { dist: dist as nat, len: len as nat }));
}

/// Writes the tokens of `input`, without the end.
fn encode_payload(input: &[u8], bw: &mut BitWriter)
    requires
        old(bw).inv(),
    ensures
        final(bw).inv(),
        final(bw)@ == old(bw)@ + all_bits(tokens(no_positions(), input@, 0)),
{
    let n: usize = input.len();
    let mut finder = Finder::new();
    let mut i: usize = 0;
    let ghost all = old(bw)@ + all_bits(tokens(no_positions(), input@, 0));
    while i < n
        invariant
            n == input@.len(),
            n == input.len(),
            i <= n,
            bw.inv(),
            finder.slots@.len() == HASH_SIZE,
            bw@ + all_bits(tokens(finder.slots@, input@, i as int)) == all,
        decreases n - i,
    {
        let ghost before = bw@;
        let ghost ts = tokens(finder.slots@, input@, i as int);
        proof {
            lemma_found(finder.slots@, input@, i as int);
        }
        let hit = finder.find(input, i);
        finder.note(input, i);
        match hit {
            Some((dist, len)) => {
                write_match(bw, dist, len);
                finder.note_until(input, i + 1, i + len);
                i = i + len;
            },
            None => {
                bw.write_bits(1, 0);
                bw.write_bits(8, input[i] as u32);
                i = i + 1;
            },
        }
        proof {
            let rest = tokens(finder.slots@, input@, i as int);
            assert(ts.skip(1) =~= rest);
            assert(bw@ =~= before + token_bits(ts[0]));
            assert(bw@ + all_bits(rest) =~= before + all_bits(ts));
        }
    }
    assert(all_bits(tokens(finder.slots@, input@, i as int)) =~= Seq::<bool>::empty());
    assert(bw@ =~= all);
}

/// Streaming LZS encoder.
#[derive(Debug)]
pub struct Encoder {
    raw: Vec<u8>,
    staged: Queue,
    finished: bool,
}

impl Encoder {
    /// The input collected so far.
    pub closed spec fn collected(&self) -> Seq<u8> {
        self.raw@
    }

    /// Coded bytes that wait for room.
    pub closed spec fn pending(&self) -> Seq<u8> {
        self.staged@
    }

    /// The end of the input was signalled.
    pub closed spec fn is_finished(&self) -> bool {
        self.finished
    }

    /// Nothing was taken yet.
    pub open spec fn is_fresh(&self) -> bool {
        &&& self.collected() == Seq::<u8>::empty()
        &&& self.pending() == Seq::<u8>::empty()
        &&& !self.is_finished()
    }

    /// A fresh encoder.
    pub fn new() -> (e: Self)
        ensures
            e.inv(),
            e.is_fresh(),
    {
        Encoder { raw: Vec::new(), staged: Queue::new(), finished: false }
    }

    /// Codes the collected input.
    fn build_stream(&mut self)
        requires
            old(self).staged.inv(),
        ensures
            final(self).staged.inv(),
            final(self).staged@ == old(self).staged@ + encoded(old(self).raw@),
            final(self).raw == old(self).raw,
            final(self).finished == old(self).finished,
    {
        let n: u64 = self.raw.len() as u64;
        let mut header: Vec<u8> = Vec::new();
        push_le(&mut header, n, 8);
        assert(header@ =~= le_bytes(n as nat, 8));
        self.staged.extend(header.as_slice());
        let mut bw = BitWriter::new();
        encode_payload(self.raw.as_slice(), &mut bw);
        let ghost body = bw@;
        bw.write_bits(1, 1);
        bw.write_bits(1, 1);
        bw.write_bits(7, 0);
        assert(bw@ =~= payload_bits(self.raw@));
        bw.pad_with_ones_to_byte();
        let ghost bits = bw@;
        let bytes = bw.into_bytes();
        proof {
            assert(bits.take(8 * bytes@.len() as int) =~= bits);
            lemma_packed(bytes@);
            assert(bytes@ == payload(self.raw@));
        }
        self.staged.extend(bytes.as_slice());
        assert(self.staged@ =~= old(self).staged@ + encoded(self.raw@));
    }
}

impl Default for Encoder {
    fn default() -> (e: Self)
        ensures
            e.inv(),
            e.is_fresh(),
    {
        Encoder::new()
    }
}

impl RawEncoder for Encoder {
    closed spec fn inv(&self) -> bool {
        self.staged.inv()
    }

    open spec fn encode_post(
        before: Self,
        input: Seq<u8>,
        old_output: Seq<u8>,
        after: Self,
        new_output: Seq<u8>,
        r: Result<RawProgress, Error>,
    ) -> bool {
        let n = if before.is_finished() {
            0
        } else {
            input.len()
        };
        &&& r == Ok::<RawProgress, Error>(
            RawProgress { consumed: n as usize, written: 0, done: false },
        )
        &&& new_output == old_output
        &&& after.collected() == before.collected() + input.take(n as int)
        &&& after.pending() == before.pending()
        &&& after.is_finished() == before.is_finished()
    }

    open spec fn finish_post(
        before: Self,
        old_output: Seq<u8>,
        after: Self,
        new_output: Seq<u8>,
        r: Result<RawProgress, Error>,
    ) -> bool {
        let all = if before.is_finished() {
            before.pending()
        } else {
            before.pending() + encoded(before.collected())
        };
        let n = least(all.len(), old_output.len());
        &&& r == Ok::<RawProgress, Error>(
            RawProgress { consumed: 0, written: n as usize, done: n == all.len() },
        )
        &&& new_output == stored(old_output, all.take(n as int))
        &&& after.pending() == all.skip(n as int)
        &&& after.is_finished()
        &&& after.collected() == before.collected()
    }

    open spec fn reset_post(before: Self, after: Self) -> bool {
        after.is_fresh()
    }

    fn raw_encode(&mut self, input: &[u8], output: &mut [u8]) -> (r: Result<RawProgress, Error>) {
        if self.finished {
            assert(self.raw@ =~= self.raw@ + input@.take(0));
            return Ok(RawProgress { consumed: 0, written: 0, done: false });
        }
        self.raw.extend_from_slice(input);
        assert(self.raw@ =~= old(self).raw@ + input@.take(input@.len() as int));
        Ok(RawProgress { consumed: input.len(), written: 0, done: false })
    }

    fn raw_finish(&mut self, output: &mut [u8]) -> (r: Result<RawProgress, Error>) {
        if !self.finished {
            self.build_stream();
            self.finished = true;
        }
        let written: usize = self.staged.drain(output, 0);
        let done = self.staged.is_empty();
        assert(output@.skip(written as int) =~= old(output)@.skip(written as int));
        Ok(RawProgress { consumed: 0, written, done })
    }

    fn raw_reset(&mut self) {
        self.raw.clear();
        self.staged.clear();
        self.finished = false;
    }
}

} // verus!
