//! The decoder of QPACK.
use vstd::prelude::*;

use crate::bits::lemma_pow2_values;
use crate::error::Error;
use crate::hpack::{said, Field, HeaderField};
use super::static_table;
use super::dynamic_table::{fresh, lemma_evicted, DynamicTable, Entry, Table};
use super::integer::{decode_int, int_at};
use super::static_table::{name_of, value_of};
use super::strings::{read_string, string_at};

verus! {

/// The capacity that a decoder allows where it is not told.
pub const DEFAULT_MAX_TABLE_CAPACITY: usize = 4096;

/// The entry that came `rel` insertions before the last.
pub open spec fn recent(t: Table, rel: nat) -> Option<Entry> {
    t.at(t.inserted() - 1 - rel)
}

/// The name that an insertion refers to.
pub open spec fn referred_name(t: Table, idx: nat, is_static: bool) -> Option<Seq<u8>> {
    if is_static {
        if idx < 99 {
            Some(name_of(idx as int))
        } else {
            None
        }
    } else {
        match recent(t, idx) {
            Some(e) => Some(e.0),
            None => None,
        }
    }
}

/// The table with one more entry.
pub open spec fn grown(t: Table, e: Entry, end: int) -> Result<(Table, int), Error> {
    match t.with(e) {
        Some(u) => Ok((u, end)),
        None => Err(Error::Corrupt),
    }
}

/// The table behind the instruction at `pos`, and where that ends:
///
/// * `1T` and an index of six bits: an insertion with the name of an entry, which
///   is a static one if T is set; the value follows.
/// * `01H` and a length of five bits: an insertion with a new name, and the value.
/// * `001` and a capacity of five bits.
/// * `000` and an index of five bits: an entry is inserted again.
#[verifier::opaque]
pub open spec fn instruction(t: Table, max: nat, b: Seq<u8>, pos: int) -> Result<
    (Table, int),
    Error,
> {
    let x = b[pos];
    if x >= 0x80 {
        match int_at(b, pos, 6) {
            Err(e) => Err(e),
            Ok((idx, p)) => match string_at(b, p, 7) {
                Err(e) => Err(e),
                Ok((value, q)) => match referred_name(t, idx, x >= 0xC0) {
                    None => Err(Error::Corrupt),
                    Some(name) => grown(t, (name, value), q),
                },
            },
        }
    } else if x >= 0x40 {
        match string_at(b, pos, 5) {
            Err(e) => Err(e),
            Ok((name, p)) => match string_at(b, p, 7) {
                Err(e) => Err(e),
                Ok((value, q)) => grown(t, (name, value), q),
            },
        }
    } else if x >= 0x20 {
        match int_at(b, pos, 5) {
            Err(e) => Err(e),
            Ok((capacity, p)) => if capacity > max {
                Err(Error::Corrupt)
            } else {
                Ok((t.resized(capacity), p))
            },
        }
    } else {
        match int_at(b, pos, 5) {
            Err(e) => Err(e),
            Ok((rel, p)) => match recent(t, rel) {
                None => Err(Error::Corrupt),
                Some(e) => grown(t, e, p),
            },
        }
    }
}

/// The table behind the instructions from `pos` on. Those before a wrong one count.
pub open spec fn fed(t: Table, max: nat, b: Seq<u8>, pos: int) -> (Table, Option<Error>)
    decreases b.len() - pos,
{
    if pos >= b.len() {
        (t, None)
    } else {
        match instruction(t, max, b, pos) {
            Err(e) => (t, Some(e)),
            Ok((u, p)) => if pos < p <= b.len() {
                fed(u, max, b, p)
            } else {
                (t, Some(Error::Corrupt))
            },
        }
    }
}

/// How many insertions a field section requires, from how that is written. It is
/// written modulo twice the number of entries that can be in the table, less the
/// insertions so far, and plus one.
pub open spec fn required(enc: nat, max: nat, inserted: nat) -> Option<nat> {
    let entries = max / 32;
    let full = 2 * entries;
    if enc == 0 {
        Some(0)
    } else if full == 0 || enc > full {
        None
    } else {
        let most = inserted + entries;
        let req = most / full * full + enc - 1;
        if req > most {
            if req <= full {
                None
            } else {
                Some((req - full) as nat)
            }
        } else if req == 0 {
            None
        } else {
            Some(req as nat)
        }
    }
}

/// The insertions that a section requires, its base, and where its lines begin.
pub open spec fn prefix(t: Table, max: nat, b: Seq<u8>) -> Result<(nat, nat, int), Error> {
    match int_at(b, 0, 8) {
        Err(e) => Err(e),
        Ok((enc, p)) => match required(enc, max, t.inserted()) {
            None => Err(Error::Corrupt),
            Some(req) => if p >= b.len() {
                Err(Error::UnexpectedEnd)
            } else {
                match int_at(b, p, 7) {
                    Err(e) => Err(e),
                    Ok((delta, q)) => if b[p] >= 0x80 {
                        if delta + 1 > req {
                            Err(Error::Corrupt)
                        } else {
                            Ok((req, (req - delta - 1) as nat, q))
                        }
                    } else if req + delta > usize::MAX {
                        Err(Error::Corrupt)
                    } else {
                        Ok((req, req + delta, q))
                    },
                }
            },
        },
    }
}

/// The entry with an absolute index below `req`.
pub open spec fn dynamic(t: Table, abs: int, req: nat) -> Option<Entry> {
    if abs < req {
        t.at(abs)
    } else {
        None
    }
}

/// The entry that a line refers to: a static one, or one that is `idx` places before
/// `base - 1`.
pub open spec fn indexed(t: Table, idx: nat, is_static: bool, base: nat, req: nat) -> Option<
    Entry,
> {
    if is_static {
        if idx < 99 {
            Some((name_of(idx as int), value_of(idx as int)))
        } else {
            None
        }
    } else if idx < base {
        dynamic(t, base - 1 - idx, req)
    } else {
        None
    }
}

/// The entry `idx` places behind `base`.
pub open spec fn post_base(t: Table, idx: nat, base: nat, req: nat) -> Option<Entry> {
    if base + idx > usize::MAX {
        None
    } else {
        dynamic(t, (base + idx) as int, req)
    }
}

/// A line with the name of an entry; the value stands at `p`.
pub open spec fn named_line(e: Option<Entry>, b: Seq<u8>, p: int, sensitive: bool) -> Result<
    (Field, int),
    Error,
> {
    match e {
        None => Err(Error::Corrupt),
        Some(e) => match string_at(b, p, 7) {
            Err(x) => Err(x),
            Ok((value, q)) => Ok((Field { name: e.0, value, sensitive }, q)),
        },
    }
}

/// A line that is an entry.
pub open spec fn entry_line(e: Option<Entry>, p: int) -> Result<(Field, int), Error> {
    match e {
        None => Err(Error::Corrupt),
        Some(e) => Ok((Field { name: e.0, value: e.1, sensitive: false }, p)),
    }
}

/// The field in the line at `pos`, and where that ends:
///
/// * `1T` and an index of six bits: an entry, a static one if T is set.
/// * `01NT` and an index of four bits: the name of an entry, and the value.
/// * `001NH` and a length of three bits: a new name, and the value.
/// * `0001` and an index of four bits: an entry behind the base.
/// * `0000N` and an index of three bits: the name of an entry behind the base, and
///   the value.
///
/// N marks a sensitive field.
#[verifier::opaque]
pub open spec fn line(t: Table, b: Seq<u8>, pos: int, base: nat, req: nat) -> Result<
    (Field, int),
    Error,
> {
    let x = b[pos];
    if x >= 0x80 {
        match int_at(b, pos, 6) {
            Err(e) => Err(e),
            Ok((idx, p)) => entry_line(indexed(t, idx, x >= 0xC0, base, req), p),
        }
    } else if x >= 0x40 {
        match int_at(b, pos, 4) {
            Err(e) => Err(e),
            Ok((idx, p)) => named_line(
                indexed(t, idx, x / 16 % 2 == 1, base, req),
                b,
                p,
                x / 32 % 2 == 1,
            ),
        }
    } else if x >= 0x20 {
        match string_at(b, pos, 3) {
            Err(e) => Err(e),
            Ok((name, p)) => match string_at(b, p, 7) {
                Err(e) => Err(e),
                Ok((value, q)) => Ok((Field { name, value, sensitive: x / 16 % 2 == 1 }, q)),
            },
        }
    } else if x >= 0x10 {
        match int_at(b, pos, 4) {
            Err(e) => Err(e),
            Ok((idx, p)) => entry_line(post_base(t, idx, base, req), p),
        }
    } else {
        match int_at(b, pos, 3) {
            Err(e) => Err(e),
            Ok((idx, p)) => named_line(post_base(t, idx, base, req), b, p, x / 8 % 2 == 1),
        }
    }
}

/// The fields behind `out` in the lines from `pos` on.
pub open spec fn lines(
    t: Table,
    b: Seq<u8>,
    pos: int,
    base: nat,
    req: nat,
    out: Seq<Field>,
) -> Result<Seq<Field>, Error>
    decreases b.len() - pos,
{
    if pos >= b.len() {
        Ok(out)
    } else {
        match line(t, b, pos, base, req) {
            Err(e) => Err(e),
            Ok((f, p)) => if pos < p <= b.len() {
                lines(t, b, p, base, req, out.push(f))
            } else {
                Err(Error::Corrupt)
            },
        }
    }
}

/// The fields in a section. It may not require more insertions than there were.
pub open spec fn section(t: Table, max: nat, b: Seq<u8>) -> Result<Seq<Field>, Error> {
    match prefix(t, max, b) {
        Err(e) => Err(e),
        Ok((req, base, p)) => if req > t.inserted() {
            Err(Error::Corrupt)
        } else {
            lines(t, b, p, base, req, Seq::empty())
        },
    }
}

/// As long as the capacity is zero, as it is at first, every insertion that is there as a
/// whole is refused, and the others fail too.
pub proof fn insertions_need_a_capacity(t: Table, max: nat, b: Seq<u8>, pos: int)
    requires
        t.capacity == 0,
        0 <= pos < b.len(),
        !(0x20 <= b[pos] < 0x40),
    ensures
        instruction(t, max, b, pos) is Err,
        fed(t, max, b, pos) == (t, Some(instruction(t, max, b, pos)->Err_0)),
        b[pos] >= 0x80 ==> (int_at(b, pos, 6) matches Ok((idx, p)) ==> (string_at(b, p, 7) is Ok
            ==> instruction(t, max, b, pos) == Err::<(Table, int), Error>(Error::Corrupt))),
        0x40 <= b[pos] < 0x80 ==> (string_at(b, pos, 5) matches Ok((name, p)) ==> (string_at(
            b,
            p,
            7,
        ) is Ok ==> instruction(t, max, b, pos) == Err::<(Table, int), Error>(Error::Corrupt))),
        b[pos] < 0x20 ==> (int_at(b, pos, 5) is Ok ==> instruction(t, max, b, pos) == Err::<
            (Table, int),
            Error,
        >(Error::Corrupt)),
{
    reveal(instruction);
}

/// A capacity that the other side asks for is set where it is allowed, and refused where
/// it is not. With the capacity the table has no more entries than it can have.
pub proof fn capacity_is_set_within_the_limit(t: Table, max: nat, b: Seq<u8>, pos: int)
    requires
        0 <= pos < b.len(),
        0x20 <= b[pos] < 0x40,
        int_at(b, pos, 5) is Ok,
    ensures
        ({
            let (capacity, p) = int_at(b, pos, 5)->Ok_0;
            let r = instruction(t, max, b, pos);
            &&& capacity <= max ==> r == Ok::<(Table, int), Error>((t.resized(capacity), p))
            &&& capacity > max ==> r == Err::<(Table, int), Error>(Error::Corrupt)
            &&& capacity <= max && p == b.len() ==> fed(t, max, b, pos) == (
                t.resized(capacity),
                None::<Error>,
            )
            &&& capacity > max ==> fed(t, max, b, pos) == (t, Some(Error::Corrupt))
            &&& t.resized(capacity).capacity == capacity
            &&& t.resized(capacity).ok()
        }),
{
    reveal(instruction);
    let (capacity, p) = int_at(b, pos, 5)->Ok_0;
    lemma_evicted((Table { capacity, ..t }), capacity);
    if capacity <= max && p == b.len() {
        assert(fed(t.resized(capacity), max, b, p) == (t.resized(capacity), None::<Error>));
    }
}

/// A count that is written as zero is zero, and one that is written as more than twice the
/// number of entries that the table can have is refused.
pub proof fn required_count_at_its_ends(b: Seq<u8>, max: nat, inserted: nat)
    ensures
        b.len() > 0 && b[0] == 0 ==> int_at(b, 0, 8) == Ok::<(nat, int), Error>((0, 1)),
        required(0, max, inserted) == Some(0nat),
        forall|enc: nat| enc > 2 * (max / 32) ==> #[trigger] required(enc, max, inserted) is None,
{
    lemma_pow2_values();
}

/// A QPACK decoder.
#[derive(Debug)]
pub struct QpackDecoder {
    table: DynamicTable,
    max_capacity: usize,
}

impl QpackDecoder {
    /// The dynamic table.
    pub closed spec fn view(&self) -> Table {
        self.table@
    }

    /// The capacity that is allowed.
    pub closed spec fn max(&self) -> nat {
        self.max_capacity as nat
    }

    /// The table is as it ought to be.
    pub closed spec fn inv(&self) -> bool {
        &&& self.table.inv()
        &&& self.table@.inserted() <= usize::MAX
    }

    /// The entries count no more than the capacity.
    pub proof fn table_is_ok(&self)
        requires
            self.inv(),
        ensures
            self@.ok(),
            self@.inserted() <= usize::MAX,
            self.max() <= usize::MAX,
    {
        self.table.lemma_bounds();
    }

    /// A decoder that allows a table of [`DEFAULT_MAX_TABLE_CAPACITY`] bytes.
    pub fn new() -> (d: Self)
        ensures
            d.inv(),
            d@ == fresh(),
            d.max() == DEFAULT_MAX_TABLE_CAPACITY,
    {
        QpackDecoder::with_max_table_capacity(DEFAULT_MAX_TABLE_CAPACITY)
    }

    /// A decoder that allows a table of `max` bytes. The other side has to ask for
    /// the capacity.
    pub fn with_max_table_capacity(max: usize) -> (d: Self)
        ensures
            d.inv(),
            d@ == fresh(),
            d.max() == max,
    {
        QpackDecoder { table: DynamicTable::new(), max_capacity: max }
    }

    /// Follows the instructions of an encoder. Where one is wrong, those before it
    /// were followed.
    pub fn feed_encoder_stream(&mut self, data: &[u8]) -> (r: Result<(), Error>)
        requires
            old(self).inv(),
            old(self)@.inserted() + data@.len() <= usize::MAX,
        ensures
            final(self).inv(),
            final(self).max() == old(self).max(),
            final(self)@ == fed(old(self)@, old(self).max(), data@, 0).0,
            match fed(old(self)@, old(self).max(), data@, 0).1 {
                None => r is Ok,
                Some(e) => r matches Err(x) && x == e,
            },
    {
        let mut pos: usize = 0;
        while pos < data.len()
            invariant
                pos <= data@.len(),
                self.inv(),
                self.max() == old(self).max(),
                self@.inserted() + (data@.len() - pos) <= usize::MAX,
                fed(self@, self.max(), data@, pos as int) == fed(
                    old(self)@,
                    old(self).max(),
                    data@,
                    0,
                ),
            decreases data@.len() - pos,
        {
            pos = match self.step(data, pos) {
                Ok(p) => p,
                Err(e) => {
                    return Err(e);
                },
            };
        }
        Ok(())
    }

    /// Follows the instruction at `pos`; returns where it ends.
    fn step(&mut self, data: &[u8], pos: usize) -> (r: Result<usize, Error>)
        requires
            old(self).inv(),
            pos < data@.len(),
            old(self)@.inserted() + 1 <= usize::MAX,
        ensures
            final(self).inv(),
            final(self).max() == old(self).max(),
            match instruction(old(self)@, old(self).max(), data@, pos as int) {
                Ok((t, p)) => {
                    &&& r matches Ok(q)
                    &&& q == p
                    &&& pos < q <= data@.len()
                    &&& final(self)@ == t
                    &&& t.inserted() <= old(self)@.inserted() + 1
                },
                Err(e) => r matches Err(x) && x == e && final(self)@ == old(self)@,
            },
    {
        reveal(instruction);
        let b: u8 = data[pos];
        if b >= 0x80 {
            let (name_idx, p): (usize, usize) = decode_int(data, pos, 6)?;
            let (value, q): (Vec<u8>, usize) = read_string(data, p, 7)?;
            let name: Vec<u8> = self.resolve_insert_name(name_idx, b >= 0xC0)?;
            self.do_insert(name.as_slice(), value.as_slice())?;
            Ok(q)
        } else if b >= 0x40 {
            let (name, p): (Vec<u8>, usize) = read_string(data, pos, 5)?;
            let (value, q): (Vec<u8>, usize) = read_string(data, p, 7)?;
            self.do_insert(name.as_slice(), value.as_slice())?;
            Ok(q)
        } else if b >= 0x20 {
            let (cap, p): (usize, usize) = decode_int(data, pos, 5)?;
            proof {
                super::dynamic_table::lemma_evicted(
                    (Table { capacity: cap as nat, ..self@ }),
                    cap as nat,
                );
            }
            if !self.table.set_capacity(cap, self.max_capacity) {
                return Err(Error::Corrupt);
            }
            Ok(p)
        } else {
            let (rel, p): (usize, usize) = decode_int(data, pos, 5)?;
            let (n, v): (Vec<u8>, Vec<u8>) = match self.table.relative_to_absolute_encoder(rel) {
                None => {
                    return Err(Error::Corrupt);
                },
                Some(abs) => match self.table.get_absolute(abs) {
                    None => {
                        return Err(Error::Corrupt);
                    },
                    Some((n, v)) => (vstd::slice::slice_to_vec(n), vstd::slice::slice_to_vec(v)),
                },
            };
            self.do_insert(n.as_slice(), v.as_slice())?;
            Ok(p)
        }
    }

    /// The name that an insertion refers to.
    fn resolve_insert_name(&self, idx: usize, t_static: bool) -> (r: Result<Vec<u8>, Error>)
        requires
            self.inv(),
        ensures
            match referred_name(self@, idx as nat, t_static) {
                Some(n) => r matches Ok(v) && v@ == n,
                None => r matches Err(e) && e == Error::Corrupt,
            },
    {
        if t_static {
            match static_table::get(idx) {
                Some((n, _)) => Ok(vstd::slice::slice_to_vec(n)),
                None => Err(Error::Corrupt),
            }
        } else {
            match self.table.relative_to_absolute_encoder(idx) {
                None => Err(Error::Corrupt),
                Some(abs) => match self.table.get_absolute(abs) {
                    None => Err(Error::Corrupt),
                    Some((n, _)) => Ok(vstd::slice::slice_to_vec(n)),
                },
            }
        }
    }

    fn do_insert(&mut self, name: &[u8], value: &[u8]) -> (r: Result<(), Error>)
        requires
            old(self).inv(),
            old(self)@.inserted() + 1 <= usize::MAX,
        ensures
            final(self).inv(),
            final(self).max() == old(self).max(),
            match old(self)@.with((name@, value@)) {
                Some(t) => r is Ok && final(self)@ == t && t.inserted() == old(self)@.inserted()
                    + 1,
                None => r matches Err(e) && e == Error::Corrupt && final(self)@ == old(self)@,
            },
    {
        proof {
            super::dynamic_table::indices_are_kept(self@, 0, (name@, value@), 0);
        }
        match self.table.insert(name, value) {
            Some(_) => Ok(()),
            None => Err(Error::Corrupt),
        }
    }

    /// Decodes a field section. It cannot wait for insertions: a section that
    /// requires some that are still to come is wrong.
    pub fn decode_field_section(&mut self, block: &[u8]) -> (r: Result<Vec<HeaderField>, Error>)
        requires
            old(self).inv(),
        ensures
            *final(self) == *old(self),
            match section(old(self)@, old(self).max(), block@) {
                Ok(fields) => r matches Ok(v) && said(v@) == fields,
                Err(e) => r matches Err(x) && x == e,
            },
    {
        let (req, base, start): (u128, u128, usize) = match self.decode_prefix(block) {
            Ok(x) => x,
            Err(e) => {
                return Err(e);
            },
        };
        if req > self.table.insert_count() as u128 {
            return Err(Error::Corrupt);
        }
        let req: usize = req as usize;
        let base: usize = base as usize;
        let mut pos: usize = start;
        let mut fields: Vec<HeaderField> = Vec::new();
        assert(said(fields@) =~= Seq::empty());
        while pos < block.len()
            invariant
                self.inv(),
                *self == *old(self),
                pos <= block@.len(),
                lines(self@, block@, pos as int, base as nat, req as nat, said(fields@)) == section(
                    self@,
                    self.max(),
                    block@,
                ),
            decreases block@.len() - pos,
        {
            let (f, p): (HeaderField, usize) = match self.decode_line(block, pos, base, req) {
                Ok(x) => x,
                Err(e) => {
                    return Err(e);
                },
            };
            let ghost before = fields@;
            fields.push(f);
            assert(said(fields@) =~= said(before).push(f@));
            pos = p;
        }
        Ok(fields)
    }

    /// Decodes the line at `pos`; returns the field and where the line ends.
    fn decode_line(&self, block: &[u8], pos: usize, base: usize, req: usize) -> (r: Result<
        (HeaderField, usize),
        Error,
    >)
        requires
            self.inv(),
            pos < block@.len(),
        ensures
            match line(self@, block@, pos as int, base as nat, req as nat) {
                Ok((f, p)) => r matches Ok((g, q)) && g@ == f && q == p && pos < q <= block@.len(),
                Err(e) => r matches Err(x) && x == e,
            },
    {
        reveal(line);
        let b: u8 = block[pos];
        if b >= 0x80 {
            let (idx, p): (usize, usize) = decode_int(block, pos, 6)?;
            let (name, value): (Vec<u8>, Vec<u8>) = self.lookup_indexed(idx, b >= 0xC0, base, req)?;
            Ok((HeaderField { name, value, sensitive: false }, p))
        } else if b >= 0x40 {
            let (idx, p): (usize, usize) = decode_int(block, pos, 4)?;
            let (name, _): (Vec<u8>, Vec<u8>) = self.lookup_indexed(
                idx,
                b / 16 % 2 == 1,
                base,
                req,
            )?;
            let (value, q): (Vec<u8>, usize) = read_string(block, p, 7)?;
            Ok((HeaderField { name, value, sensitive: b / 32 % 2 == 1 }, q))
        } else if b >= 0x20 {
            let (name, p): (Vec<u8>, usize) = read_string(block, pos, 3)?;
            let (value, q): (Vec<u8>, usize) = read_string(block, p, 7)?;
            Ok((HeaderField { name, value, sensitive: b / 16 % 2 == 1 }, q))
        } else if b >= 0x10 {
            let (idx, p): (usize, usize) = decode_int(block, pos, 4)?;
            let (name, value): (Vec<u8>, Vec<u8>) = self.lookup_post_base(idx, base, req)?;
            Ok((HeaderField { name, value, sensitive: false }, p))
        } else {
            let (idx, p): (usize, usize) = decode_int(block, pos, 3)?;
            let (name, _): (Vec<u8>, Vec<u8>) = self.lookup_post_base(idx, base, req)?;
            let (value, q): (Vec<u8>, usize) = read_string(block, p, 7)?;
            Ok((HeaderField { name, value, sensitive: b / 8 % 2 == 1 }, q))
        }
    }

    /// Decodes what a section requires, its base, and where its lines begin.
    fn decode_prefix(&self, block: &[u8]) -> (r: Result<(u128, u128, usize), Error>)
        requires
            self.inv(),
        ensures
            match prefix(self@, self.max(), block@) {
                Ok((req, base, p)) => {
                    &&& r matches Ok((req2, base2, p2))
                    &&& req2 == req
                    &&& base2 == base
                    &&& p2 == p
                    &&& p2 <= block@.len()
                    &&& base <= req || base <= usize::MAX
                },
                Err(e) => r matches Err(x) && x == e,
            },
    {
        let (req, p): (u128, usize) = self.decode_required_insert_count(block)?;
        let (base, q): (u128, usize) = self.decode_base(block, p, req)?;
        Ok((req, base, q))
    }

    /// Decodes how many insertions a section requires.
    pub fn decode_required_insert_count(&self, block: &[u8]) -> (r: Result<(u128, usize), Error>)
        requires
            self.inv(),
        ensures
            match int_at(block@, 0, 8) {
                Err(e) => r matches Err(x) && x == e,
                Ok((enc, p)) => match required(enc, self.max(), self@.inserted()) {
                    None => r matches Err(e) && e == Error::Corrupt,
                    Some(req) => r matches Ok((v, q)) && v == req && q == p && q <= block@.len() && req
                        <= 2 * usize::MAX,
                },
            },
    {
        let (enc, pos): (usize, usize) = decode_int(block, 0, 8)?;
        if enc == 0 {
            return Ok((0, pos));
        }
        let enc: u128 = enc as u128;
        let max_entries: u128 = (self.max_capacity / 32) as u128;
        let full_range: u128 = 2 * max_entries;
        if full_range == 0 || enc > full_range {
            return Err(Error::Corrupt);
        }
        let max_value: u128 = self.table.insert_count() as u128 + max_entries;
        proof {
            vstd::arithmetic::div_mod::lemma_fundamental_div_mod(
                max_value as int,
                full_range as int,
            );
            vstd::arithmetic::mul::lemma_mul_is_commutative(
                max_value as int / full_range as int,
                full_range as int,
            );
        }
        let max_wrapped: u128 = max_value / full_range * full_range;
        let req: u128 = max_wrapped + (enc - 1);
        if req > max_value {
            if req <= full_range {
                return Err(Error::Corrupt);
            }
            return Ok((req - full_range, pos));
        }
        if req == 0 {
            return Err(Error::Corrupt);
        }
        Ok((req, pos))
    }

    /// Decodes the base, which is told by its distance.
    fn decode_base(&self, block: &[u8], pos: usize, req: u128) -> (r: Result<
        (u128, usize),
        Error,
    >)
        requires
            req <= 2 * usize::MAX,
        ensures
            if pos >= block@.len() {
                r matches Err(e) && e == Error::UnexpectedEnd
            } else {
                match int_at(block@, pos as int, 7) {
                    Err(e) => r matches Err(x) && x == e,
                    Ok((delta, p)) => if block@[pos as int] >= 0x80 {
                        if delta + 1 > req {
                            r matches Err(e) && e == Error::Corrupt
                        } else {
                            r matches Ok((b, q)) && b == req - delta - 1 && q == p && q
                                <= block@.len()
                        }
                    } else if req + delta > usize::MAX {
                        r matches Err(e) && e == Error::Corrupt
                    } else {
                        r matches Ok((b, q)) && b == req + delta && q == p && q <= block@.len()
                    },
                }
            },
    {
        if pos >= block.len() {
            return Err(Error::UnexpectedEnd);
        }
        let sign: bool = block[pos] >= 0x80;
        let (delta, p): (usize, usize) = decode_int(block, pos, 7)?;
        let delta: u128 = delta as u128;
        if sign {
            if delta >= req {
                Err(Error::Corrupt)
            } else {
                Ok((req - delta - 1, p))
            }
        } else if req + delta > usize::MAX as u128 {
            Err(Error::Corrupt)
        } else {
            Ok((req + delta, p))
        }
    }

    /// The entry that a line refers to.
    fn lookup_indexed(&self, idx: usize, t_static: bool, base: usize, req: usize) -> (r: Result<
        (Vec<u8>, Vec<u8>),
        Error,
    >)
        requires
            self.inv(),
        ensures
            match indexed(self@, idx as nat, t_static, base as nat, req as nat) {
                Some(e) => r matches Ok((n, v)) && n@ == e.0 && v@ == e.1,
                None => r matches Err(x) && x == Error::Corrupt,
            },
    {
        if t_static {
            match static_table::get(idx) {
                Some((n, v)) => Ok(
                    (vstd::slice::slice_to_vec(n), vstd::slice::slice_to_vec(v)),
                ),
                None => Err(Error::Corrupt),
            }
        } else {
            match DynamicTable::field_relative_to_absolute(base, idx) {
                Some(abs) => self.lookup_dynamic_abs(abs, req),
                None => Err(Error::Corrupt),
            }
        }
    }

    /// The entry behind the base that a line refers to.
    fn lookup_post_base(&self, idx: usize, base: usize, req: usize) -> (r: Result<
        (Vec<u8>, Vec<u8>),
        Error,
    >)
        requires
            self.inv(),
        ensures
            match post_base(self@, idx as nat, base as nat, req as nat) {
                Some(e) => r matches Ok((n, v)) && n@ == e.0 && v@ == e.1,
                None => r matches Err(x) && x == Error::Corrupt,
            },
    {
        match DynamicTable::post_base_to_absolute(base, idx) {
            Some(abs) => self.lookup_dynamic_abs(abs, req),
            None => Err(Error::Corrupt),
        }
    }

    /// The entry with an absolute index, which has to be below `req`.
    fn lookup_dynamic_abs(&self, abs: usize, req: usize) -> (r: Result<(Vec<u8>, Vec<u8>), Error>)
        requires
            self.inv(),
        ensures
            match dynamic(self@, abs as int, req as nat) {
                Some(e) => r matches Ok((n, v)) && n@ == e.0 && v@ == e.1,
                None => r matches Err(x) && x == Error::Corrupt,
            },
    {
        if abs >= req {
            return Err(Error::Corrupt);
        }
        match self.table.get_absolute(abs) {
            Some((n, v)) => Ok((vstd::slice::slice_to_vec(n), vstd::slice::slice_to_vec(v))),
            None => Err(Error::Corrupt),
        }
    }

    /// How many entries were inserted.
    pub fn insert_count(&self) -> (n: usize)
        requires
            self.inv(),
        ensures
            n == self@.inserted(),
    {
        self.table.insert_count()
    }

    /// What the entries of the table count.
    pub fn table_size(&self) -> (n: usize)
        requires
            self.inv(),
        ensures
            n == super::dynamic_table::total(self@.entries),
    {
        self.table.size()
    }

    /// The capacity of the table.
    pub fn table_capacity(&self) -> (n: usize)
        ensures
            n == self@.capacity,
    {
        self.table.capacity()
    }

    /// How many entries the table has.
    pub fn table_len(&self) -> (n: usize)
        ensures
            n == self@.entries.len(),
    {
        self.table.len()
    }
}

impl Default for QpackDecoder {
    fn default() -> (d: Self)
        ensures
            d.inv(),
            d@ == fresh(),
            d.max() == DEFAULT_MAX_TABLE_CAPACITY,
    {
        QpackDecoder::new()
    }
}

} // verus!
