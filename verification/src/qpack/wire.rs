//! The wire form of QPACK, stated by itself: every way in which a section or an encoder
//! stream can be written, whoever wrote it. What is written so is read back.
use vstd::arithmetic::power2::pow2;
use vstd::prelude::*;

use crate::bits::lemma_pow2_values;
use crate::error::Error;
use crate::hpack::Field;
use crate::hpack::huffman::{decode_inverts_encode, encoded};
use super::decoder::{instruction, line, lines, prefix, section};
use super::dynamic_table::{changes_keep_all_they_can, cost, lemma_evicted, lemma_total_push, total};
use super::dynamic_table::{Entry, Table};
use super::encoder::required_count_is_recovered;
use super::integer::{int_at, int_bytes, integers_read_back, lemma_flags, lemma_stands, stands};
use super::integer::tail_bytes;
use super::static_table::{name_of, value_of};
use super::strings::{lemma_first, string_at};

verus! {

/// A number in groups of seven bits, the lowest first, each but the last with 128 added.
pub open spec fn groups(v: nat) -> Seq<u8>
    decreases v,
{
    if v < 0x80 {
        seq![v as u8]
    } else {
        seq![(0x80 + v % 0x80) as u8] + groups(v / 0x80)
    }
}

/// A number whose first byte has room for those up to `most`, with `flags` above.
pub open spec fn prefixed(v: nat, most: nat, flags: int) -> Seq<u8> {
    if v < most {
        seq![(flags + v) as u8]
    } else {
        seq![(flags + most) as u8] + groups((v - most) as nat)
    }
}

/// How a string is written.
pub struct Text {
    /// What it says.
    pub s: Seq<u8>,
    /// Whether it is in coded form.
    pub coded: bool,
}

/// A string behind its length; `mark`, which is one more than the greatest length that the
/// first byte holds, says that it is in coded form.
pub open spec fn text(x: Text, mark: nat, flags: int) -> Seq<u8> {
    if x.coded {
        prefixed(encoded(x.s).len(), (mark - 1) as nat, flags + mark) + encoded(x.s)
    } else {
        prefixed(x.s.len(), (mark - 1) as nat, flags) + x.s
    }
}

/// A field line.
pub enum Line {
    /// A static entry.
    Static { i: nat },
    /// The entry with an absolute index below the base.
    Dynamic { abs: nat },
    /// The entry with an absolute index from the base on.
    Post { abs: nat },
    /// A value with the name of a static entry.
    StaticName { i: nat, value: Text, never: bool },
    /// A value with the name of an entry below the base.
    DynamicName { abs: nat, value: Text, never: bool },
    /// A value with the name of an entry from the base on.
    PostName { abs: nat, value: Text, never: bool },
    /// A name and a value.
    New { name: Text, value: Text, never: bool },
}

/// `bit` where `on` is set.
pub open spec fn bit(on: bool, bit: int) -> int {
    if on {
        bit
    } else {
        0
    }
}

/// The bytes of a line in a section with this base.
pub open spec fn line_written(l: Line, base: nat) -> Seq<u8> {
    match l {
        Line::Static { i } => prefixed(i, 63, 0b1100_0000),
        Line::Dynamic { abs } => prefixed((base - 1 - abs) as nat, 63, 0b1000_0000),
        Line::Post { abs } => prefixed((abs - base) as nat, 15, 0b0001_0000),
        Line::StaticName { i, value, never } => prefixed(i, 15, 0b0101_0000 + bit(never, 32))
            + text(value, 128, 0),
        Line::DynamicName { abs, value, never } => prefixed(
            (base - 1 - abs) as nat,
            15,
            0b0100_0000 + bit(never, 32),
        ) + text(value, 128, 0),
        Line::PostName { abs, value, never } => prefixed(
            (abs - base) as nat,
            7,
            0b0000_0000 + bit(never, 8),
        ) + text(value, 128, 0),
        Line::New { name, value, never } => text(name, 8, 0b0010_0000 + bit(never, 16)) + text(
            value,
            128,
            0,
        ),
    }
}

/// The entry with an absolute index is still in the table.
pub open spec fn live(t: Table, abs: nat) -> bool {
    t.dropped <= abs < t.dropped + t.entries.len()
}

/// The entry with an absolute index.
pub open spec fn entry(t: Table, abs: nat) -> Entry {
    t.entries[abs - t.dropped]
}

/// A line may stand in a section that requires `req` insertions.
pub open spec fn legal(l: Line, t: Table, base: nat, req: nat) -> bool {
    match l {
        Line::Static { i } => i < 99,
        Line::StaticName { i, value, never } => i < 99,
        Line::Dynamic { abs } => live(t, abs) && abs < req && abs < base,
        Line::DynamicName { abs, value, never } => live(t, abs) && abs < req && abs < base,
        Line::Post { abs } => live(t, abs) && base <= abs < req,
        Line::PostName { abs, value, never } => live(t, abs) && base <= abs < req,
        Line::New { name, value, never } => true,
    }
}

/// The field that a line says.
pub open spec fn said_by(l: Line, t: Table) -> Field {
    match l {
        Line::Static { i } => Field {
            name: name_of(i as int),
            value: value_of(i as int),
            sensitive: false,
        },
        Line::Dynamic { abs } => Field {
            name: entry(t, abs).0,
            value: entry(t, abs).1,
            sensitive: false,
        },
        Line::Post { abs } => Field {
            name: entry(t, abs).0,
            value: entry(t, abs).1,
            sensitive: false,
        },
        Line::StaticName { i, value, never } => Field {
            name: name_of(i as int),
            value: value.s,
            sensitive: never,
        },
        Line::DynamicName { abs, value, never } => Field {
            name: entry(t, abs).0,
            value: value.s,
            sensitive: never,
        },
        Line::PostName { abs, value, never } => Field {
            name: entry(t, abs).0,
            value: value.s,
            sensitive: never,
        },
        Line::New { name, value, never } => Field {
            name: name.s,
            value: value.s,
            sensitive: never,
        },
    }
}

proof fn lemma_groups(v: nat)
    ensures
        groups(v) == tail_bytes(v),
    decreases v,
{
    if v >= 0x80 {
        lemma_groups(v / 0x80);
    }
}

proof fn lemma_prefixed(v: nat, n: nat, flags: int)
    requires
        1 <= n <= 8,
        0 <= flags <= 255,
    ensures
        prefixed(v, (pow2(n) - 1) as nat, flags) == int_bytes(v, n, flags as u8),
{
    lemma_pow2_values();
    let max = (pow2(n) - 1) as nat;
    if v >= max {
        lemma_groups((v - max) as nat);
    }
}

/// A number at the start of what stands at `pos`.
proof fn lemma_number(b: Seq<u8>, pos: int, v: nat, n: nat, flags: int, rest: Seq<u8>)
    requires
        1 <= n <= 8,
        0 <= flags <= 255,
        flags % (pow2(n) as int) == 0,
        v <= usize::MAX,
        stands(b, pos, prefixed(v, (pow2(n) - 1) as nat, flags) + rest),
    ensures
        ({
            let k = prefixed(v, (pow2(n) - 1) as nat, flags).len();
            &&& k > 0
            &&& int_at(b, pos, n) == Ok::<(nat, int), Error>((v, pos + k))
            &&& stands(b, pos + k, rest)
            &&& flags <= b[pos] < flags + pow2(n)
            &&& flags + pow2(n) <= 256
        }),
{
    let f = flags as u8;
    lemma_pow2_values();
    lemma_prefixed(v, n, flags);
    lemma_stands(b, pos, int_bytes(v, n, f), rest);
    integers_read_back(b, pos, v, n, f);
    lemma_first(v, n, f);
    lemma_flags(f, n);
}

/// A string at the start of what stands at `pos`.
proof fn lemma_text(b: Seq<u8>, pos: int, x: Text, n: nat, flags: int, rest: Seq<u8>)
    requires
        1 <= n <= 7,
        0 <= flags,
        flags + 2 * pow2(n) <= 256,
        flags % (pow2(n) as int) == 0,
        flags / (pow2(n) as int) % 2 == 0,
        (flags + pow2(n)) % (pow2(n) as int) == 0,
        (flags + pow2(n)) / (pow2(n) as int) % 2 == 1,
        b.len() <= usize::MAX,
        stands(b, pos, text(x, pow2(n), flags) + rest),
    ensures
        ({
            let k = text(x, pow2(n), flags).len();
            &&& k > 0
            &&& string_at(b, pos, n) == Ok::<(Seq<u8>, int), Error>((x.s, pos + k))
            &&& stands(b, pos + k, rest)
            &&& flags <= b[pos] < flags + 2 * pow2(n)
        }),
{
    reveal(string_at);
    lemma_pow2_values();
    let body = if x.coded {
        encoded(x.s)
    } else {
        x.s
    };
    let f = if x.coded {
        flags + pow2(n)
    } else {
        flags
    };
    let head = prefixed(body.len(), (pow2(n) - 1) as nat, f);
    assert(text(x, pow2(n), flags) + rest =~= head + (body + rest));
    assert(body.len() <= usize::MAX) by {
        assert((head + (body + rest)).len() <= b.len());
    }
    lemma_number(b, pos, body.len(), n, f, body + rest);
    lemma_stands(b, pos + head.len(), body, rest);
    lemma_prefixed(body.len(), n, f);
    lemma_first(body.len(), n, f as u8);
    lemma_stands(b, pos, head, body + rest);
    decode_inverts_encode(x.s);
}

proof fn lemma_value(b: Seq<u8>, pos: int, x: Text)
    requires
        b.len() <= usize::MAX,
        stands(b, pos, text(x, 128, 0)),
    ensures
        string_at(b, pos, 7) == Ok::<(Seq<u8>, int), Error>((x.s, pos + text(x, 128, 0).len())),
        text(x, 128, 0).len() > 0,
{
    lemma_pow2_values();
    assert(text(x, 128, 0) + Seq::<u8>::empty() =~= text(x, 128, 0));
    lemma_text(b, pos, x, 7, 0, Seq::empty());
}

#[verifier::spinoff_prover]
proof fn lemma_entry_lines(t: Table, b: Seq<u8>, pos: int, base: nat, req: nat, l: Line)
    requires
        b.len() <= usize::MAX,
        base <= usize::MAX,
        req <= usize::MAX,
        l is Static || l is Dynamic || l is Post,
        legal(l, t, base, req),
        stands(b, pos, line_written(l, base)),
    ensures
        line_written(l, base).len() > 0,
        line(t, b, pos, base, req) == Ok::<(Field, int), Error>(
            (said_by(l, t), pos + line_written(l, base).len()),
        ),
{
    reveal(line);
    lemma_pow2_values();
    let none = Seq::<u8>::empty();
    assert(line_written(l, base) + none =~= line_written(l, base));
    match l {
        Line::Static { i } => {
            lemma_number(b, pos, i, 6, 0b1100_0000, none);
        },
        Line::Dynamic { abs } => {
            lemma_number(b, pos, (base - 1 - abs) as nat, 6, 0b1000_0000, none);
        },
        Line::Post { abs } => {
            lemma_number(b, pos, (abs - base) as nat, 4, 0b0001_0000, none);
        },
        _ => {},
    }
}

#[verifier::spinoff_prover]
proof fn lemma_static_name(t: Table, b: Seq<u8>, pos: int, base: nat, req: nat, l: Line)
    requires
        b.len() <= usize::MAX,
        l is StaticName,
        legal(l, t, base, req),
        stands(b, pos, line_written(l, base)),
    ensures
        line_written(l, base).len() > 0,
        line(t, b, pos, base, req) == Ok::<(Field, int), Error>(
            (said_by(l, t), pos + line_written(l, base).len()),
        ),
{
    reveal(line);
    lemma_pow2_values();
    if let Line::StaticName { i, value, never } = l {
        let flags = 0b0101_0000 + bit(never, 32);
        let head = prefixed(i, 15, flags);
        lemma_number(b, pos, i, 4, flags, text(value, 128, 0));
        lemma_value(b, pos + head.len(), value);
        let x = b[pos];
        assert(x / 16 % 2 == 1);
        assert((x / 32 % 2 == 1) == never);
    }
}

#[verifier::spinoff_prover]
proof fn lemma_dynamic_name(t: Table, b: Seq<u8>, pos: int, base: nat, req: nat, l: Line)
    requires
        b.len() <= usize::MAX,
        base <= usize::MAX,
        l is DynamicName,
        legal(l, t, base, req),
        stands(b, pos, line_written(l, base)),
    ensures
        line_written(l, base).len() > 0,
        line(t, b, pos, base, req) == Ok::<(Field, int), Error>(
            (said_by(l, t), pos + line_written(l, base).len()),
        ),
{
    reveal(line);
    lemma_pow2_values();
    if let Line::DynamicName { abs, value, never } = l {
        let flags = 0b0100_0000 + bit(never, 32);
        let idx = (base - 1 - abs) as nat;
        let head = prefixed(idx, 15, flags);
        lemma_number(b, pos, idx, 4, flags, text(value, 128, 0));
        lemma_value(b, pos + head.len(), value);
        let x = b[pos];
        assert(x / 16 % 2 == 0);
        assert((x / 32 % 2 == 1) == never);
    }
}

#[verifier::spinoff_prover]
proof fn lemma_post_name(t: Table, b: Seq<u8>, pos: int, base: nat, req: nat, l: Line)
    requires
        b.len() <= usize::MAX,
        req <= usize::MAX,
        l is PostName,
        legal(l, t, base, req),
        stands(b, pos, line_written(l, base)),
    ensures
        line_written(l, base).len() > 0,
        line(t, b, pos, base, req) == Ok::<(Field, int), Error>(
            (said_by(l, t), pos + line_written(l, base).len()),
        ),
{
    reveal(line);
    lemma_pow2_values();
    if let Line::PostName { abs, value, never } = l {
        let flags = 0b0000_0000 + bit(never, 8);
        let idx = (abs - base) as nat;
        let head = prefixed(idx, 7, flags);
        lemma_number(b, pos, idx, 3, flags, text(value, 128, 0));
        lemma_value(b, pos + head.len(), value);
        let x = b[pos];
        assert((x / 8 % 2 == 1) == never);
    }
}

#[verifier::spinoff_prover]
proof fn lemma_new(t: Table, b: Seq<u8>, pos: int, base: nat, req: nat, l: Line)
    requires
        b.len() <= usize::MAX,
        l is New,
        stands(b, pos, line_written(l, base)),
    ensures
        line_written(l, base).len() > 0,
        line(t, b, pos, base, req) == Ok::<(Field, int), Error>(
            (said_by(l, t), pos + line_written(l, base).len()),
        ),
{
    reveal(line);
    lemma_pow2_values();
    if let Line::New { name, value, never } = l {
        let flags = 0b0010_0000 + bit(never, 16);
        let head = text(name, 8, flags);
        lemma_text(b, pos, name, 3, flags, text(value, 128, 0));
        lemma_value(b, pos + head.len(), value);
        let x = b[pos];
        assert((x / 16 % 2 == 1) == never);
    }
}

/// Every kind of line is read back as the field that it says: entries of both tables,
/// below the base and behind it, by themselves or for their names, with strings in either
/// form, and with the mark that a field is never to be indexed.
pub proof fn lines_read_back(t: Table, b: Seq<u8>, pos: int, base: nat, req: nat, l: Line)
    requires
        b.len() <= usize::MAX,
        base <= usize::MAX,
        req <= usize::MAX,
        legal(l, t, base, req),
        stands(b, pos, line_written(l, base)),
    ensures
        line_written(l, base).len() > 0,
        line(t, b, pos, base, req) == Ok::<(Field, int), Error>(
            (said_by(l, t), pos + line_written(l, base).len()),
        ),
{
    match l {
        Line::StaticName { i, value, never } => {
            lemma_static_name(t, b, pos, base, req, l);
        },
        Line::DynamicName { abs, value, never } => {
            lemma_dynamic_name(t, b, pos, base, req, l);
        },
        Line::PostName { abs, value, never } => {
            lemma_post_name(t, b, pos, base, req, l);
        },
        Line::New { name, value, never } => {
            lemma_new(t, b, pos, base, req, l);
        },
        _ => {
            lemma_entry_lines(t, b, pos, base, req, l);
        },
    }
}

/// The prefix of a section: how many insertions it requires, in a table that may count
/// `max` bytes, and its base.
pub open spec fn prefix_written(req: nat, base: nat, max: nat) -> Seq<u8> {
    let count = if req == 0 {
        0
    } else {
        req % (2 * (max / 32)) + 1
    };
    prefixed(count, 255, 0) + if base >= req {
        prefixed((base - req) as nat, 127, 0)
    } else {
        prefixed((req - base - 1) as nat, 127, 128)
    }
}

/// The lines of a section.
pub open spec fn lines_written(ls: Seq<Line>, base: nat) -> Seq<u8>
    decreases ls.len(),
{
    if ls.len() == 0 {
        Seq::empty()
    } else {
        line_written(ls[0], base) + lines_written(ls.skip(1), base)
    }
}

/// A section can be told to require `req` insertions.
pub open spec fn tellable(req: nat, max: nat, inserted: nat) -> bool {
    req == 0 || (max / 32 > 0 && req + max / 32 > inserted && req <= inserted + max / 32)
}

proof fn lemma_prefix_reads(t: Table, max: nat, b: Seq<u8>, req: nat, base: nat, rest: Seq<u8>)
    requires
        b.len() <= usize::MAX,
        base <= usize::MAX,
        req <= usize::MAX,
        max <= usize::MAX,
        tellable(req, max, t.inserted()),
        stands(b, 0, prefix_written(req, base, max) + rest),
    ensures
        prefix(t, max, b) == Ok::<(nat, nat, int), Error>(
            (req, base, prefix_written(req, base, max).len() as int),
        ),
        stands(b, prefix_written(req, base, max).len() as int, rest),
{
    lemma_pow2_values();
    let full = 2 * (max / 32);
    let count: nat = if req == 0 {
        0
    } else {
        req % full + 1
    };
    let head = prefixed(count, 255, 0);
    let (delta, flags): (nat, int) = if base >= req {
        ((base - req) as nat, 0)
    } else {
        ((req - base - 1) as nat, 128)
    };
    let second = prefixed(delta, 127, flags);
    assert(prefix_written(req, base, max) + rest =~= head + (second + rest));
    if req > 0 {
        required_count_is_recovered(req, max, t.inserted());
    }
    lemma_number(b, 0, count, 8, 0, second + rest);
    lemma_number(b, head.len() as int, delta, 7, flags, rest);
}

proof fn lemma_lines_read(
    t: Table,
    b: Seq<u8>,
    pos: int,
    base: nat,
    req: nat,
    ls: Seq<Line>,
    out: Seq<Field>,
)
    requires
        b.len() <= usize::MAX,
        base <= usize::MAX,
        req <= usize::MAX,
        forall|i: int| 0 <= i < ls.len() ==> legal(#[trigger] ls[i], t, base, req),
        stands(b, pos, lines_written(ls, base)),
        b.len() == pos + lines_written(ls, base).len(),
    ensures
        lines(t, b, pos, base, req, out) == Ok::<Seq<Field>, Error>(
            out + ls.map_values(|l: Line| said_by(l, t)),
        ),
    decreases ls.len(),
{
    let all = ls.map_values(|l: Line| said_by(l, t));
    if ls.len() == 0 {
        assert(out + all =~= out);
    } else {
        let head = line_written(ls[0], base);
        let more = ls.skip(1);
        lemma_stands(b, pos, head, lines_written(more, base));
        assert(legal(ls[0], t, base, req));
        lines_read_back(t, b, pos, base, req, ls[0]);
        assert forall|i: int| 0 <= i < more.len() implies legal(
            #[trigger] more[i],
            t,
            base,
            req,
        ) by {
            assert(legal(ls[i + 1], t, base, req));
        }
        let f = said_by(ls[0], t);
        lemma_lines_read(t, b, pos + head.len(), base, req, more, out.push(f));
        assert(out.push(f) + more.map_values(|l: Line| said_by(l, t)) =~= out + all);
    }
}

/// A section is read back as the fields that its lines say, whatever base the writer
/// chose, and whichever of the ways each line is written in.
pub proof fn sections_read_back(
    t: Table,
    max: nat,
    b: Seq<u8>,
    req: nat,
    base: nat,
    ls: Seq<Line>,
)
    requires
        b.len() <= usize::MAX,
        base <= usize::MAX,
        req <= t.inserted() <= usize::MAX,
        max <= usize::MAX,
        tellable(req, max, t.inserted()),
        forall|i: int| 0 <= i < ls.len() ==> legal(#[trigger] ls[i], t, base, req),
        b == prefix_written(req, base, max) + lines_written(ls, base),
    ensures
        section(t, max, b) == Ok::<Seq<Field>, Error>(ls.map_values(|l: Line| said_by(l, t))),
{
    let rest = lines_written(ls, base);
    assert(b.subrange(0, b.len() as int) =~= b);
    lemma_prefix_reads(t, max, b, req, base, rest);
    let pos = prefix_written(req, base, max).len() as int;
    lemma_lines_read(t, b, pos, base, req, ls, Seq::empty());
    assert(Seq::<Field>::empty() + ls.map_values(|l: Line| said_by(l, t)) =~= ls.map_values(
        |l: Line| said_by(l, t),
    ));
}

/// An instruction of the encoder stream.
pub enum Order {
    /// Insert a value with the name of a static entry.
    StaticName { i: nat, value: Text },
    /// Insert a value with the name of the entry with this absolute index.
    DynamicName { abs: nat, value: Text },
    /// Insert a name and a value.
    New { name: Text, value: Text },
    /// Insert the entry with this absolute index again.
    Again { abs: nat },
    /// Set the capacity.
    Capacity { c: nat },
}

/// The bytes of an instruction for a table into which `inserted` entries were inserted.
pub open spec fn order_written(o: Order, inserted: nat) -> Seq<u8> {
    match o {
        Order::StaticName { i, value } => prefixed(i, 63, 0b1100_0000) + text(value, 128, 0),
        Order::DynamicName { abs, value } => prefixed(
            (inserted - 1 - abs) as nat,
            63,
            0b1000_0000,
        ) + text(value, 128, 0),
        Order::New { name, value } => text(name, 32, 0b0100_0000) + text(value, 128, 0),
        Order::Again { abs } => prefixed((inserted - 1 - abs) as nat, 31, 0),
        Order::Capacity { c } => prefixed(c, 31, 0b0010_0000),
    }
}

/// The entry that an instruction inserts.
pub open spec fn inserted_by(o: Order, t: Table) -> Option<Entry> {
    match o {
        Order::StaticName { i, value } => Some((name_of(i as int), value.s)),
        Order::DynamicName { abs, value } => Some((entry(t, abs).0, value.s)),
        Order::New { name, value } => Some((name.s, value.s)),
        Order::Again { abs } => Some(entry(t, abs)),
        Order::Capacity { c } => None,
    }
}

/// An instruction may be given for a table that may count `max` bytes.
pub open spec fn legal_order(o: Order, t: Table, max: nat) -> bool {
    &&& match o {
        Order::StaticName { i, value } => i < 99,
        Order::DynamicName { abs, value } => live(t, abs),
        Order::New { name, value } => true,
        Order::Again { abs } => live(t, abs),
        Order::Capacity { c } => c <= max,
    }
    &&& match inserted_by(o, t) {
        Some(e) => e.0.len() + e.1.len() + 32 <= t.capacity,
        None => true,
    }
}

/// What is left of `t` in `u`: the most recent entries that count at most `room`.
pub open spec fn keeps_what_fits(t: Table, kept: Seq<Entry>, dropped: nat, room: int) -> bool {
    &&& t.dropped <= dropped <= t.dropped + t.entries.len()
    &&& kept == t.entries.skip(dropped - t.dropped)
    &&& total(kept) <= room
    &&& forall|j: int|
        0 <= j < dropped - t.dropped ==> total(#[trigger] t.entries.skip(j)) > room
}

/// The table `u` is what an instruction makes of `t`.
pub open spec fn carried_out(o: Order, t: Table, u: Table) -> bool {
    match inserted_by(o, t) {
        Some(e) => {
            &&& u.capacity == t.capacity
            &&& u.entries.len() > 0
            &&& u.entries.last() == e
            &&& keeps_what_fits(
                t,
                u.entries.drop_last(),
                u.dropped,
                t.capacity - (e.0.len() + e.1.len() + 32),
            )
        },
        None => {
            &&& o matches Order::Capacity { c }
            &&& u.capacity == c
            &&& keeps_what_fits(t, u.entries, u.dropped, c as int)
        },
    }
}

#[verifier::spinoff_prover]
proof fn lemma_order_read(t: Table, max: nat, b: Seq<u8>, pos: int, o: Order)
    requires
        b.len() <= usize::MAX,
        max <= usize::MAX,
        t.inserted() <= usize::MAX,
        legal_order(o, t, max),
        stands(b, pos, order_written(o, t.inserted())),
    ensures
        order_written(o, t.inserted()).len() > 0,
        instruction(t, max, b, pos) == Ok::<(Table, int), Error>(
            (
                match inserted_by(o, t) {
                    Some(e) => t.with(e)->0,
                    None => t.resized(o->c),
                },
                pos + order_written(o, t.inserted()).len(),
            ),
        ),
{
    reveal(instruction);
    lemma_pow2_values();
    let none = Seq::<u8>::empty();
    let all = order_written(o, t.inserted());
    assert(all + none =~= all);
    match o {
        Order::StaticName { i, value } => {
            lemma_number(b, pos, i, 6, 0b1100_0000, text(value, 128, 0));
            lemma_value(b, pos + prefixed(i, 63, 0b1100_0000).len(), value);
        },
        Order::DynamicName { abs, value } => {
            let rel = (t.inserted() - 1 - abs) as nat;
            lemma_number(b, pos, rel, 6, 0b1000_0000, text(value, 128, 0));
            lemma_value(b, pos + prefixed(rel, 63, 0b1000_0000).len(), value);
        },
        Order::New { name, value } => {
            lemma_text(b, pos, name, 5, 0b0100_0000, text(value, 128, 0));
            lemma_value(b, pos + text(name, 32, 0b0100_0000).len(), value);
        },
        Order::Again { abs } => {
            lemma_number(b, pos, (t.inserted() - 1 - abs) as nat, 5, 0, none);
        },
        Order::Capacity { c } => {
            lemma_number(b, pos, c, 5, 0b0010_0000, none);
        },
    }
}

/// Every kind of instruction is carried out: the entry that it says is the latest, or the
/// capacity is the one that it says, and of the entries before as many stay as fit.
pub proof fn orders_are_carried_out(t: Table, max: nat, b: Seq<u8>, pos: int, o: Order)
    requires
        b.len() <= usize::MAX,
        max <= usize::MAX,
        t.inserted() <= usize::MAX,
        legal_order(o, t, max),
        stands(b, pos, order_written(o, t.inserted())),
    ensures
        order_written(o, t.inserted()).len() > 0,
        instruction(t, max, b, pos) matches Ok((u, p)) && carried_out(o, t, u) && p == pos
            + order_written(o, t.inserted()).len(),
{
    lemma_order_read(t, max, b, pos, o);
    let e = match inserted_by(o, t) {
        Some(e) => e,
        None => (Seq::empty(), Seq::empty()),
    };
    let c: nat = match o {
        Order::Capacity { c } => c,
        _ => 0,
    };
    changes_keep_all_they_can(t, c, e);
    lemma_evicted((Table { capacity: c, ..t }), c);
    if let Some(e) = inserted_by(o, t) {
        let u = t.with(e)->0;
        let k = u.dropped - t.dropped;
        lemma_evicted(t, (t.capacity - cost(e)) as nat);
        assert(u.entries.drop_last() =~= t.entries.skip(k));
        lemma_total_push(t.entries.skip(k), e);
    }
}

} // verus!
