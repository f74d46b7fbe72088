//! The encoder of QPACK.
//!
//! A field is written as a static entry where there is one. An encoder with a
//! dynamic table writes others as entries of that, which it inserts where they are
//! missing; but it never lets an entry leave that the same section refers to. What
//! is left, and every sensitive field, is written with its value, and with the name
//! of a static entry or a new one.
use vstd::prelude::*;

use crate::bits::lemma_pow2_values;
use crate::error::Error;
use crate::hpack::{said, Field, HeaderField};
use super::static_table;
use super::decoder::{fed, instruction, line, lines, prefix, recent, required, section};
use super::dynamic_table::{cost, fresh, last_equal, last_named, lemma_evicted, lemma_last};
use super::dynamic_table::{lemma_total_len, total, DynamicTable, Entry, Table};
use super::integer::{encode_int, int_at, int_bytes, integers_read_back, lemma_stands, stands};
use super::static_table::{exact_from, found, lemma_exact, lemma_named, name_of, named_from};
use super::static_table::value_of;
use super::strings::{coded_form_is_no_longer, emit_string, is_pattern, lemma_first};
use super::strings::{lemma_string_first, string_bytes, strings_read_back};
use vstd::arithmetic::power2::pow2;

verus! {

/// The line of a field that does without the dynamic table.
pub open spec fn plain_line(f: Field, huffman: bool) -> Seq<u8> {
    match found(f.name, f.value) {
        Some((i, true)) if !f.sensitive => int_bytes(i, 6, 0xC0),
        Some((i, _)) => int_bytes(
            i,
            4,
            if f.sensitive {
                0x70
            } else {
                0x50
            },
        ) + string_bytes(f.value, 7, 0, huffman),
        None => string_bytes(
            f.name,
            3,
            if f.sensitive {
                0x30
            } else {
                0x20
            },
            huffman,
        ) + string_bytes(f.value, 7, 0, huffman),
    }
}

/// How a field is written.
pub enum Choice {
    /// Without the dynamic table.
    Plain(Field),
    /// As the entry with this absolute index.
    Entry(nat),
}

/// The line of a field in a section with the base `base`.
pub open spec fn line_bytes(c: Choice, base: nat, huffman: bool) -> Seq<u8> {
    match c {
        Choice::Plain(f) => plain_line(f, huffman),
        Choice::Entry(abs) => int_bytes((base - 1 - abs) as nat, 6, 0x80),
    }
}

/// The lines of the fields.
pub open spec fn all_lines(cs: Seq<Choice>, base: nat, huffman: bool) -> Seq<u8>
    decreases cs.len(),
{
    if cs.len() == 0 {
        Seq::empty()
    } else {
        all_lines(cs.drop_last(), base, huffman) + line_bytes(cs.last(), base, huffman)
    }
}

/// How many insertions the choices require.
pub open spec fn needed(cs: Seq<Choice>) -> nat
    decreases cs.len(),
{
    if cs.len() == 0 {
        0
    } else {
        let before = needed(cs.drop_last());
        match cs.last() {
            Choice::Entry(abs) if abs >= before => abs + 1,
            _ => before,
        }
    }
}

/// A section's prefix. The base is where the required insertions end.
pub open spec fn prefix_bytes(req: nat, limit: nat) -> Seq<u8> {
    if req == 0 {
        seq![0u8, 0u8]
    } else {
        int_bytes(req % (2 * (limit / 32)) + 1, 8, 0) + seq![0u8]
    }
}

/// A section with these choices.
pub open spec fn section_bytes(cs: Seq<Choice>, limit: nat, huffman: bool) -> Seq<u8> {
    prefix_bytes(needed(cs), limit) + all_lines(cs, needed(cs), huffman)
}

/// All fields, without the dynamic table.
pub open spec fn plainly(fields: Seq<Field>) -> Seq<Choice> {
    fields.map_values(|f: Field| Choice::Plain(f))
}

/// What an encoder has done so far in a section.
pub struct Plan {
    /// The dynamic table.
    pub table: Table,
    /// The instructions for the other side.
    pub stream: Seq<u8>,
    /// How the fields are written.
    pub choices: Seq<Choice>,
    /// The oldest entry that is referred to.
    pub pin: Option<nat>,
}

/// The oldest entry that is referred to, with `abs` as well.
pub open spec fn pinned(pin: Option<nat>, abs: nat) -> Option<nat> {
    match pin {
        Some(p) if p <= abs => Some(p),
        _ => Some(abs),
    }
}

/// The instruction that inserts an entry.
pub open spec fn insert_bytes(t: Table, e: Entry, huffman: bool) -> Seq<u8> {
    let value = string_bytes(e.1, 7, 0, huffman);
    match named_from(e.0, 0) {
        Some(i) => int_bytes(i, 6, 0xC0) + value,
        None => match last_named(t.entries, e.0, t.entries.len()) {
            Some(k) => int_bytes((t.entries.len() - 1 - k) as nat, 6, 0x80) + value,
            None => string_bytes(e.0, 5, 0x40, huffman) + value,
        },
    }
}

impl Plan {
    /// The table with its full capacity.
    pub open spec fn opened(self, limit: nat) -> Table {
        if self.table.capacity == limit {
            self.table
        } else {
            self.table.resized(limit)
        }
    }

    /// What tells the other side the capacity, where it does not know.
    pub open spec fn opening(self, limit: nat) -> Seq<u8> {
        if self.table.capacity == limit {
            Seq::empty()
        } else {
            int_bytes(limit, 5, 0x20)
        }
    }

    /// An entry can be inserted, and none leaves that is referred to.
    pub open spec fn has_room(self, limit: nat, e: Entry) -> bool {
        &&& cost(e) <= limit
        &&& self.pin matches Some(p) ==> self.opened(limit).evicted(
            (limit - cost(e)) as nat,
        ).dropped <= p
    }

    /// The plan with one more field.
    pub open spec fn with(self, limit: nat, f: Field, huffman: bool) -> Plan {
        let e = (f.name, f.value);
        let t = self.table;
        let plain = Plan { choices: self.choices.push(Choice::Plain(f)), ..self };
        if f.sensitive || exact_from(f.name, f.value, 0) is Some {
            plain
        } else {
            match last_equal(t.entries, e, t.entries.len()) {
                Some(k) => Plan {
                    choices: self.choices.push(Choice::Entry(t.dropped + k)),
                    pin: pinned(self.pin, t.dropped + k),
                    ..self
                },
                None => if self.has_room(limit, e) {
                    let open = self.opened(limit);
                    Plan {
                        table: open.with(e)->0,
                        stream: self.stream + self.opening(limit) + insert_bytes(open, e, huffman),
                        choices: self.choices.push(Choice::Entry(t.inserted())),
                        pin: pinned(self.pin, t.inserted()),
                    }
                } else {
                    plain
                },
            }
        }
    }
}

/// The plan at the start of a section.
pub open spec fn blank(t: Table) -> Plan {
    Plan { table: t, stream: Seq::empty(), choices: Seq::empty(), pin: None }
}

/// The plan for the fields.
pub open spec fn planned(t: Table, limit: nat, fields: Seq<Field>, huffman: bool) -> Plan
    decreases fields.len(),
{
    if fields.len() == 0 {
        blank(t)
    } else {
        planned(t, limit, fields.drop_last(), huffman).with(limit, fields.last(), huffman)
    }
}

/// Field `f` is written as `c`, with the table `t`.
pub open spec fn written(t: Table, pin: Option<nat>, c: Choice, f: Field) -> bool {
    match c {
        Choice::Plain(g) => g == f,
        Choice::Entry(abs) => {
            &&& !f.sensitive
            &&& t.at(abs as int) == Some((f.name, f.value))
            &&& pin matches Some(p)
            &&& p <= abs
        },
    }
}

/// The plan agrees with the fields, and refers to no entry that has left.
pub open spec fn plan_ok(p: Plan, limit: nat, fields: Seq<Field>) -> bool {
    &&& p.table.ok()
    &&& p.table.capacity <= limit
    &&& p.choices.len() == fields.len()
    &&& p.pin matches Some(k) ==> p.table.dropped <= k < p.table.inserted()
    &&& forall|i: int|
        0 <= i < fields.len() ==> written(p.table, p.pin, #[trigger] p.choices[i], fields[i])
}

proof fn lemma_line_shortens(c: Choice, base: nat)
    ensures
        line_bytes(c, base, true).len() <= line_bytes(c, base, false).len(),
{
    lemma_pow2_values();
    match c {
        Choice::Plain(f) => {
            coded_form_is_no_longer(f.value, 7, 0);
            assert(pow2(3 + 1) == 16);
            assert(is_pattern(0x20, 3) && is_pattern(0x30, 3));
            coded_form_is_no_longer(f.name, 3, 0x30);
            coded_form_is_no_longer(f.name, 3, 0x20);
        },
        Choice::Entry(abs) => {},
    }
}

/// A section is never longer where strings may be in coded form.
pub proof fn coded_sections_are_no_longer(cs: Seq<Choice>, limit: nat)
    ensures
        section_bytes(cs, limit, true).len() <= section_bytes(cs, limit, false).len(),
{
    lemma_lines_shorten(cs, needed(cs));
}

proof fn lemma_lines_shorten(cs: Seq<Choice>, base: nat)
    ensures
        all_lines(cs, base, true).len() <= all_lines(cs, base, false).len(),
    decreases cs.len(),
{
    if cs.len() > 0 {
        lemma_lines_shorten(cs.drop_last(), base);
        lemma_line_shortens(cs.last(), base);
    }
}

/// Whether strings may be in coded form changes neither the table nor how the fields are
/// written, and it makes neither the instructions nor the section longer.
pub proof fn coded_form_only_shortens(t: Table, limit: nat, fields: Seq<Field>)
    ensures
        ({
            let on = planned(t, limit, fields, true);
            let off = planned(t, limit, fields, false);
            &&& on.table == off.table
            &&& on.choices == off.choices
            &&& on.pin == off.pin
            &&& on.stream.len() <= off.stream.len()
            &&& section_bytes(on.choices, limit, true).len() <= section_bytes(
                off.choices,
                limit,
                false,
            ).len()
        }),
    decreases fields.len(),
{
    if fields.len() > 0 {
        lemma_pow2_values();
        coded_form_only_shortens(t, limit, fields.drop_last());
        let f = fields.last();
        coded_form_is_no_longer(f.value, 7, 0);
        assert(pow2(5 + 1) == 64);
        assert(is_pattern(0x40, 5));
        coded_form_is_no_longer(f.name, 5, 0x40);
    }
    coded_sections_are_no_longer(planned(t, limit, fields, true).choices, limit);
}

proof fn lemma_opened(t: Table, limit: nat)
    requires
        t.ok(),
        t.capacity <= limit,
    ensures
        t.resized(limit) == (Table { capacity: limit, ..t }),
{
}

/// An insertion that leaves the pinned entries.
proof fn lemma_inserted(open: Table, e: Entry)
    requires
        open.ok(),
        cost(e) <= open.capacity,
    ensures
        ({
            let u = open.with(e)->0;
            &&& open.with(e) is Some
            &&& u.ok()
            &&& u.capacity == open.capacity
            &&& u.inserted() == open.inserted() + 1
            &&& u.dropped == open.evicted((open.capacity - cost(e)) as nat).dropped
            &&& u.dropped <= open.inserted()
            &&& u.at(open.inserted() as int) == Some(e)
            &&& forall|abs: int|
                u.dropped <= abs < open.inserted() ==> #[trigger] u.at(abs) == open.at(abs)
        }),
{
    let room = (open.capacity - cost(e)) as nat;
    lemma_evicted(open, room);
    super::dynamic_table::lemma_total_push(open.evicted(room).entries, e);
}

proof fn lemma_with(p: Plan, limit: nat, fields: Seq<Field>, f: Field, huffman: bool)
    requires
        plan_ok(p, limit, fields),
    ensures
        plan_ok(p.with(limit, f, huffman), limit, fields.push(f)),
        p.table.inserted() <= p.with(limit, f, huffman).table.inserted() <= p.table.inserted() + 1,
        p.with(limit, f, huffman).stream.take(p.stream.len() as int) == p.stream,
        p.with(limit, f, huffman).stream.len() >= p.stream.len(),
{
    let e = (f.name, f.value);
    let t = p.table;
    let q = p.with(limit, f, huffman);
    lemma_last(t.entries, e, t.entries.len());
    lemma_opened(t, limit);
    let open = p.opened(limit);
    if cost(e) <= limit {
        lemma_inserted(open, e);
    }
    assert(q.stream.take(p.stream.len() as int) =~= p.stream);
    assert forall|i: int| 0 <= i < fields.push(f).len() implies written(
        q.table,
        q.pin,
        #[trigger] q.choices[i],
        fields.push(f)[i],
    ) by {
        if i < fields.len() {
            assert(q.choices[i] == p.choices[i]);
            assert(written(t, p.pin, p.choices[i], fields[i]));
            if let Choice::Entry(abs) = p.choices[i] {
                assert(q.table.at(abs as int) == t.at(abs as int));
            }
        }
    }
}

proof fn lemma_planned(t: Table, limit: nat, fields: Seq<Field>, huffman: bool)
    requires
        t.ok(),
        t.capacity <= limit,
    ensures
        plan_ok(planned(t, limit, fields, huffman), limit, fields),
        t.inserted() <= planned(t, limit, fields, huffman).table.inserted() <= t.inserted()
            + fields.len(),
    decreases fields.len(),
{
    if fields.len() > 0 {
        lemma_planned(t, limit, fields.drop_last(), huffman);
        lemma_with(
            planned(t, limit, fields.drop_last(), huffman),
            limit,
            fields.drop_last(),
            fields.last(),
            huffman,
        );
        assert(fields.drop_last().push(fields.last()) =~= fields);
    }
}

proof fn lemma_needed(cs: Seq<Choice>)
    ensures
        forall|i: int|
            0 <= i < cs.len() ==> (#[trigger] cs[i] matches Choice::Entry(abs) ==> abs < needed(
                cs,
            )),
        needed(cs) > 0 ==> exists|i: int|
            0 <= i < cs.len() && #[trigger] cs[i] == Choice::Entry((needed(cs) - 1) as nat),
    decreases cs.len(),
{
    if cs.len() > 0 {
        let d = cs.drop_last();
        lemma_needed(d);
        assert forall|i: int| 0 <= i < cs.len() implies (#[trigger] cs[i] matches Choice::Entry(
            abs,
        ) ==> abs < needed(cs)) by {
            if i < d.len() {
                assert(d[i] == cs[i]);
            }
        }
        if needed(cs) > 0 {
            if needed(cs) == needed(d) {
                let i = choose|i: int|
                    0 <= i < d.len() && #[trigger] d[i] == Choice::Entry((needed(d) - 1) as nat);
                assert(cs[i] == d[i]);
            } else {
                assert(cs[cs.len() - 1] == cs.last());
            }
        }
    }
}

/// The line of a static entry is read back.
proof fn lemma_entry_line(t: Table, b: Seq<u8>, pos: int, base: nat, req: nat, i: nat)
    requires
        b.len() <= usize::MAX,
        i < 99,
        stands(b, pos, int_bytes(i, 6, 0xC0)),
    ensures
        int_bytes(i, 6, 0xC0).len() > 0,
        line(t, b, pos, base, req) == Ok::<(Field, int), Error>(
            (
                Field { name: name_of(i as int), value: value_of(i as int), sensitive: false },
                pos + int_bytes(i, 6, 0xC0).len(),
            ),
        ),
{
    reveal(line);
    lemma_pow2_values();
    let head = int_bytes(i, 6, 0xC0);
    assert(head + Seq::<u8>::empty() =~= head);
    lemma_first(i, 6, 0xC0);
    lemma_stands(b, pos, head, Seq::empty());
    integers_read_back(b, pos, i, 6, 0xC0);
}

/// A line with the name of a static entry is read back.
proof fn lemma_named_line(
    t: Table,
    b: Seq<u8>,
    pos: int,
    base: nat,
    req: nat,
    i: nat,
    f: Field,
    huffman: bool,
)
    requires
        b.len() <= usize::MAX,
        f.value.len() <= usize::MAX,
        i < 99,
        name_of(i as int) == f.name,
        stands(
            b,
            pos,
            int_bytes(
                i,
                4,
                if f.sensitive {
                    0x70
                } else {
                    0x50
                },
            ) + string_bytes(f.value, 7, 0, huffman),
        ),
    ensures
        line(t, b, pos, base, req) == Ok::<(Field, int), Error>(
            (
                f,
                pos + int_bytes(
                    i,
                    4,
                    if f.sensitive {
                        0x70
                    } else {
                        0x50
                    },
                ).len() + string_bytes(f.value, 7, 0, huffman).len(),
            ),
        ),
{
    reveal(line);
    lemma_pow2_values();
    let flags: u8 = if f.sensitive {
        0x70
    } else {
        0x50
    };
    let head = int_bytes(i, 4, flags);
    let tail = string_bytes(f.value, 7, 0, huffman);
    lemma_first(i, 4, flags);
    lemma_stands(b, pos, head, tail);
    integers_read_back(b, pos, i, 4, flags);
    strings_read_back(b, pos + head.len(), f.value, 7, 0, huffman);
    let x = b[pos];
    assert(flags <= x < flags + 16);
    assert(x / 16 % 2 == 1);
    assert((x / 32 % 2 == 1) == f.sensitive);
}

/// A line with a new name is read back.
proof fn lemma_new_line(
    t: Table,
    b: Seq<u8>,
    pos: int,
    base: nat,
    req: nat,
    f: Field,
    huffman: bool,
)
    requires
        b.len() <= usize::MAX,
        f.name.len() <= usize::MAX,
        f.value.len() <= usize::MAX,
        stands(
            b,
            pos,
            string_bytes(
                f.name,
                3,
                if f.sensitive {
                    0x30
                } else {
                    0x20
                },
                huffman,
            ) + string_bytes(f.value, 7, 0, huffman),
        ),
    ensures
        line(t, b, pos, base, req) == Ok::<(Field, int), Error>(
            (
                f,
                pos + string_bytes(
                    f.name,
                    3,
                    if f.sensitive {
                        0x30
                    } else {
                        0x20
                    },
                    huffman,
                ).len() + string_bytes(f.value, 7, 0, huffman).len(),
            ),
        ),
{
    reveal(line);
    lemma_pow2_values();
    let flags: u8 = if f.sensitive {
        0x30
    } else {
        0x20
    };
    let head = string_bytes(f.name, 3, flags, huffman);
    let tail = string_bytes(f.value, 7, 0, huffman);
    assert(pow2(3 + 1) == 16);
    assert(is_pattern(flags, 3));
    lemma_string_first(f.name, 3, flags, huffman);
    lemma_stands(b, pos, head, tail);
    strings_read_back(b, pos, f.name, 3, flags, huffman);
    strings_read_back(b, pos + head.len(), f.value, 7, 0, huffman);
    let x = b[pos];
    assert(flags <= x < flags + 16);
    assert((x / 16 % 2 == 1) == f.sensitive);
}

/// A line without the dynamic table is read back, whatever the table holds.
proof fn lemma_plain_line(
    t: Table,
    b: Seq<u8>,
    pos: int,
    base: nat,
    req: nat,
    f: Field,
    huffman: bool,
)
    requires
        b.len() <= usize::MAX,
        f.name.len() <= usize::MAX,
        f.value.len() <= usize::MAX,
        stands(b, pos, plain_line(f, huffman)),
    ensures
        plain_line(f, huffman).len() > 0,
        line(t, b, pos, base, req) == Ok::<(Field, int), Error>(
            (f, pos + plain_line(f, huffman).len()),
        ),
{
    lemma_pow2_values();
    lemma_exact(f.name, f.value, 0);
    lemma_named(f.name, 0);
    assert(pow2(7 + 1) == 256);
    lemma_string_first(f.value, 7, 0, huffman);
    match found(f.name, f.value) {
        Some((i, exact)) => {
            if exact && !f.sensitive {
                lemma_entry_line(t, b, pos, base, req, i);
            } else {
                lemma_named_line(t, b, pos, base, req, i, f, huffman);
            }
        },
        None => {
            lemma_new_line(t, b, pos, base, req, f, huffman);
        },
    }
}

/// Each line is read back.
proof fn lemma_line(
    t: Table,
    pin: Option<nat>,
    b: Seq<u8>,
    pos: int,
    base: nat,
    c: Choice,
    f: Field,
    huffman: bool,
)
    requires
        b.len() <= usize::MAX,
        f.name.len() <= usize::MAX,
        f.value.len() <= usize::MAX,
        base <= usize::MAX,
        written(t, pin, c, f),
        c matches Choice::Entry(abs) ==> abs < base,
        stands(b, pos, line_bytes(c, base, huffman)),
    ensures
        line_bytes(c, base, huffman).len() > 0,
        line(t, b, pos, base, base) == Ok::<(Field, int), Error>(
            (f, pos + line_bytes(c, base, huffman).len()),
        ),
{
    match c {
        Choice::Plain(g) => {
            lemma_plain_line(t, b, pos, base, base, f, huffman);
        },
        Choice::Entry(abs) => {
            reveal(line);
            lemma_pow2_values();
            let idx = (base - 1 - abs) as nat;
            let head = int_bytes(idx, 6, 0x80);
            assert(head + Seq::<u8>::empty() =~= head);
            lemma_first(idx, 6, 0x80);
            lemma_stands(b, pos, head, Seq::empty());
            integers_read_back(b, pos, idx, 6, 0x80);
        },
    }
}

proof fn lemma_lines(
    t: Table,
    pin: Option<nat>,
    b: Seq<u8>,
    pos: int,
    base: nat,
    cs: Seq<Choice>,
    fields: Seq<Field>,
    huffman: bool,
)
    requires
        b.len() <= usize::MAX,
        base <= usize::MAX,
        cs.len() == fields.len(),
        forall|i: int|
            0 <= i < fields.len() ==> (#[trigger] fields[i]).name.len() <= usize::MAX
                && fields[i].value.len() <= usize::MAX,
        forall|i: int| 0 <= i < fields.len() ==> written(t, pin, #[trigger] cs[i], fields[i]),
        forall|i: int|
            0 <= i < cs.len() ==> (#[trigger] cs[i] matches Choice::Entry(abs) ==> abs < base),
        stands(b, pos, all_lines(cs, base, huffman)),
    ensures
        lines(t, b, pos, base, base, Seq::empty()) == lines(
            t,
            b,
            pos + all_lines(cs, base, huffman).len(),
            base,
            base,
            fields,
        ),
    decreases cs.len(),
{
    if cs.len() == 0 {
        assert(fields =~= Seq::empty());
    } else {
        let d = cs.drop_last();
        let g = fields.drop_last();
        let head = all_lines(d, base, huffman);
        let tail = line_bytes(cs.last(), base, huffman);
        lemma_stands(b, pos, head, tail);
        assert forall|i: int| 0 <= i < g.len() implies written(t, pin, #[trigger] d[i], g[i]) by {
            assert(d[i] == cs[i] && g[i] == fields[i]);
        }
        assert forall|i: int| 0 <= i < g.len() implies (#[trigger] g[i]).name.len() <= usize::MAX
            && g[i].value.len() <= usize::MAX by {
            assert(g[i] == fields[i]);
        }
        assert forall|i: int| 0 <= i < d.len() implies (#[trigger] d[i] matches Choice::Entry(
            abs,
        ) ==> abs < base) by {
            assert(d[i] == cs[i]);
        }
        lemma_lines(t, pin, b, pos, base, d, g, huffman);
        let n = cs.len() - 1;
        assert(cs[n] == cs.last() && fields[n] == fields.last());
        lemma_line(t, pin, b, pos + head.len(), base, cs.last(), fields.last(), huffman);
        assert(g.push(fields.last()) =~= fields);
    }
}

/// How many insertions a section requires is recovered from how that is written as long
/// as it is not too far from those that were made, whether they include it or it is
/// still to come.
pub proof fn required_count_is_recovered(req: nat, limit: nat, inserted: nat)
    requires
        0 < req <= inserted + limit / 32,
        req + limit / 32 > inserted,
        limit / 32 > 0,
    ensures
        required(req % (2 * (limit / 32)) + 1, limit, inserted) == Some(req),
{
    let entries = limit / 32;
    let full = 2 * entries;
    let most = inserted + entries;
    let q = most / full;
    let k = req / full;
    vstd::arithmetic::div_mod::lemma_fundamental_div_mod(most as int, full as int);
    vstd::arithmetic::div_mod::lemma_fundamental_div_mod(req as int, full as int);
    assert(k == q || k + 1 == q) by (nonlinear_arith)
        requires
            most == full * q + most % full,
            req == full * k + req % full,
            0 <= most % full < full,
            0 <= req % full < full,
            most - full < req <= most,
    ;
    assert(q * full == full * q) by (nonlinear_arith);
    assert(full * (k + 1) == full * k + full) by (nonlinear_arith);
}

/// A count at the start of a section is read back, and what is recovered from it is the
/// count.
pub proof fn required_count_reads_back(b: Seq<u8>, req: nat, limit: nat, inserted: nat)
    requires
        0 < req <= inserted + limit / 32,
        req + limit / 32 > inserted,
        limit / 32 > 0,
        limit <= usize::MAX,
        stands(b, 0, int_bytes(req % (2 * (limit / 32)) + 1, 8, 0)),
    ensures
        ({
            let enc = req % (2 * (limit / 32)) + 1;
            &&& int_at(b, 0, 8) == Ok::<(nat, int), Error>((enc, int_bytes(enc, 8, 0).len() as int))
            &&& required(enc, limit, inserted) == Some(req)
        }),
{
    lemma_pow2_values();
    required_count_is_recovered(req, limit, inserted);
    integers_read_back(b, 0, req % (2 * (limit / 32)) + 1, 8, 0);
}

proof fn lemma_prefix(t: Table, limit: nat, b: Seq<u8>, req: nat)
    requires
        b.len() <= usize::MAX,
        limit <= usize::MAX,
        req <= t.inserted() <= usize::MAX,
        req > 0 ==> limit / 32 > 0 && req + limit / 32 > t.inserted(),
        stands(b, 0, prefix_bytes(req, limit)),
    ensures
        prefix(t, limit, b) == Ok::<(nat, nat, int), Error>(
            (req, req, prefix_bytes(req, limit).len() as int),
        ),
{
    lemma_pow2_values();
    if req == 0 {
        assert(seq![0u8, 0u8] =~= int_bytes(0, 8, 0) + seq![0u8]);
        lemma_stands(b, 0, int_bytes(0, 8, 0), seq![0u8]);
        integers_read_back(b, 0, 0, 8, 0);
        assert(int_bytes(0, 7, 0) =~= seq![0u8]);
        integers_read_back(b, 1, 0, 7, 0);
        lemma_stands(b, 1, seq![0u8], Seq::empty());
    } else {
        let full = 2 * (limit / 32);
        let enc = req % full + 1;
        let head = int_bytes(enc, 8, 0);
        lemma_stands(b, 0, head, seq![0u8]);
        integers_read_back(b, 0, enc, 8, 0);
        assert(int_bytes(0, 7, 0) =~= seq![0u8]);
        integers_read_back(b, head.len() as int, 0, 7, 0);
        assert(seq![0u8] + Seq::<u8>::empty() =~= seq![0u8]);
        lemma_stands(b, head.len() as int, seq![0u8], Seq::empty());
        required_count_is_recovered(req, limit, t.inserted());
    }
}

/// The entries that can be told apart are those that can be in the table.
proof fn lemma_window(t: Table, limit: nat, abs: nat)
    requires
        t.ok(),
        t.capacity <= limit,
        t.dropped <= abs < t.inserted(),
    ensures
        limit / 32 > 0,
        abs + 1 + limit / 32 > t.inserted(),
{
    lemma_total_len(t.entries);
    assert(32 * t.entries.len() <= limit);
    assert(t.entries.len() <= limit / 32);
}

/// The other side follows an insertion with the name of an entry.
proof fn lemma_named_insertion(
    t: Table,
    limit: nat,
    b: Seq<u8>,
    pos: int,
    e: Entry,
    idx: nat,
    flags: u8,
    huffman: bool,
)
    requires
        b.len() <= usize::MAX,
        e.1.len() <= usize::MAX,
        idx <= usize::MAX,
        flags == 0xC0 || flags == 0x80,
        super::decoder::referred_name(t, idx, flags == 0xC0) == Some(e.0),
        t.with(e) is Some,
        stands(b, pos, int_bytes(idx, 6, flags) + string_bytes(e.1, 7, 0, huffman)),
    ensures
        instruction(t, limit, b, pos) == Ok::<(Table, int), Error>(
            (
                t.with(e)->0,
                pos + int_bytes(idx, 6, flags).len() + string_bytes(e.1, 7, 0, huffman).len(),
            ),
        ),
{
    reveal(instruction);
    lemma_pow2_values();
    let head = int_bytes(idx, 6, flags);
    lemma_first(idx, 6, flags);
    lemma_stands(b, pos, head, string_bytes(e.1, 7, 0, huffman));
    integers_read_back(b, pos, idx, 6, flags);
    strings_read_back(b, pos + head.len(), e.1, 7, 0, huffman);
}

/// The other side follows an insertion with a new name.
proof fn lemma_new_insertion(t: Table, limit: nat, b: Seq<u8>, pos: int, e: Entry, huffman: bool)
    requires
        b.len() <= usize::MAX,
        e.0.len() <= usize::MAX,
        e.1.len() <= usize::MAX,
        t.with(e) is Some,
        stands(b, pos, string_bytes(e.0, 5, 0x40, huffman) + string_bytes(e.1, 7, 0, huffman)),
    ensures
        instruction(t, limit, b, pos) == Ok::<(Table, int), Error>(
            (
                t.with(e)->0,
                pos + string_bytes(e.0, 5, 0x40, huffman).len() + string_bytes(
                    e.1,
                    7,
                    0,
                    huffman,
                ).len(),
            ),
        ),
{
    reveal(instruction);
    lemma_pow2_values();
    assert(pow2(5 + 1) == 64);
    assert(is_pattern(0x40, 5));
    let head = string_bytes(e.0, 5, 0x40, huffman);
    lemma_string_first(e.0, 5, 0x40, huffman);
    lemma_stands(b, pos, head, string_bytes(e.1, 7, 0, huffman));
    strings_read_back(b, pos, e.0, 5, 0x40, huffman);
    strings_read_back(b, pos + head.len(), e.1, 7, 0, huffman);
}

/// The other side follows an insertion.
proof fn lemma_insertion(t: Table, limit: nat, b: Seq<u8>, pos: int, e: Entry, huffman: bool)
    requires
        b.len() <= usize::MAX,
        e.0.len() <= usize::MAX,
        e.1.len() <= usize::MAX,
        t.entries.len() <= usize::MAX,
        t.with(e) is Some,
        stands(b, pos, insert_bytes(t, e, huffman)),
    ensures
        insert_bytes(t, e, huffman).len() > 0,
        instruction(t, limit, b, pos) == Ok::<(Table, int), Error>(
            (t.with(e)->0, pos + insert_bytes(t, e, huffman).len()),
        ),
{
    lemma_named(e.0, 0);
    lemma_last(t.entries, e, t.entries.len());
    lemma_pow2_values();
    assert(pow2(7 + 1) == 256);
    lemma_string_first(e.1, 7, 0, huffman);
    match named_from(e.0, 0) {
        Some(i) => {
            lemma_named_insertion(t, limit, b, pos, e, i, 0xC0, huffman);
        },
        None => match last_named(t.entries, e.0, t.entries.len()) {
            Some(k) => {
                let rel = (t.entries.len() - 1 - k) as nat;
                assert(recent(t, rel) == Some(t.entries[k as int]));
                lemma_named_insertion(t, limit, b, pos, e, rel, 0x80, huffman);
            },
            None => {
                lemma_new_insertion(t, limit, b, pos, e, huffman);
            },
        },
    }
}

/// The other side follows what a field adds to the stream.
proof fn lemma_fed_with(
    p: Plan,
    limit: nat,
    fields: Seq<Field>,
    f: Field,
    huffman: bool,
    b: Seq<u8>,
)
    requires
        plan_ok(p, limit, fields),
        limit <= usize::MAX,
        b.len() <= usize::MAX,
        p.table.inserted() <= usize::MAX,
        f.name.len() <= usize::MAX,
        f.value.len() <= usize::MAX,
        stands(b, 0, p.with(limit, f, huffman).stream),
    ensures
        stands(b, 0, p.stream),
        fed(p.table, limit, b, p.stream.len() as int) == fed(
            p.with(limit, f, huffman).table,
            limit,
            b,
            p.with(limit, f, huffman).stream.len() as int,
        ),
{
    let e = (f.name, f.value);
    let q = p.with(limit, f, huffman);
    let extra = q.stream.skip(p.stream.len() as int);
    lemma_with(p, limit, fields, f, huffman);
    assert(q.stream =~= p.stream + extra);
    lemma_stands(b, 0, p.stream, extra);
    let inserts = !f.sensitive && exact_from(f.name, f.value, 0) is None && last_equal(
        p.table.entries,
        e,
        p.table.entries.len(),
    ) is None && p.has_room(limit, e);
    if inserts {
        let pos = p.stream.len() as int;
        let open = p.opened(limit);
        let first = p.opening(limit);
        let second = insert_bytes(open, e, huffman);
        lemma_opened(p.table, limit);
        lemma_inserted(open, e);
        assert(extra =~= first + second);
        lemma_stands(b, pos, first, second);
        lemma_insertion(open, limit, b, pos + first.len(), e, huffman);
        if p.table.capacity != limit {
            lemma_pow2_values();
            reveal(instruction);
            lemma_first(limit, 5, 0x20);
            integers_read_back(b, pos, limit, 5, 0x20);
            assert(instruction(p.table, limit, b, pos) == Ok::<(Table, int), Error>(
                (open, pos + first.len()),
            ));
            assert(fed(p.table, limit, b, pos) == fed(open, limit, b, pos + first.len()));
        } else {
            assert(first.len() == 0);
        }
        assert(fed(open, limit, b, pos + first.len()) == fed(
            q.table,
            limit,
            b,
            pos + first.len() + second.len(),
        ));
    }
}

proof fn lemma_fed(t: Table, limit: nat, fields: Seq<Field>, huffman: bool, b: Seq<u8>)
    requires
        t.ok(),
        t.capacity <= limit <= usize::MAX,
        b.len() <= usize::MAX,
        t.inserted() + fields.len() <= usize::MAX,
        all_short(fields),
        stands(b, 0, planned(t, limit, fields, huffman).stream),
    ensures
        fed(t, limit, b, 0) == fed(
            planned(t, limit, fields, huffman).table,
            limit,
            b,
            planned(t, limit, fields, huffman).stream.len() as int,
        ),
    decreases fields.len(),
{
    if fields.len() > 0 {
        let g = fields.drop_last();
        let p = planned(t, limit, g, huffman);
        assert forall|i: int| 0 <= i < g.len() implies is_short(#[trigger] g[i]) by {
            assert(g[i] == fields[i]);
        }
        assert(is_short(fields[fields.len() - 1]));
        lemma_planned(t, limit, g, huffman);
        lemma_fed_with(p, limit, g, fields.last(), huffman, b);
        lemma_fed(t, limit, g, huffman, b);
    }
}

/// The name and the value have a length.
pub open spec fn is_short(f: Field) -> bool {
    f.name.len() <= usize::MAX && f.value.len() <= usize::MAX
}

/// All names and values have a length.
pub open spec fn all_short(fields: Seq<Field>) -> bool {
    forall|i: int| 0 <= i < fields.len() ==> is_short(#[trigger] fields[i])
}

/// A decoder reads back the fields of a section that does without the dynamic
/// table, whatever its own table holds.
pub proof fn decode_inverts_plain_encode(t: Table, max: nat, fields: Seq<Field>, huffman: bool)
    requires
        t.inserted() <= usize::MAX,
        max <= usize::MAX,
        all_short(fields),
        section_bytes(plainly(fields), max, huffman).len() <= usize::MAX,
    ensures
        section(t, max, section_bytes(plainly(fields), max, huffman)) == Ok::<Seq<Field>, Error>(
            fields,
        ),
{
    let cs = plainly(fields);
    lemma_needed(cs);
    if needed(cs) > 0 {
        let i = choose|i: int|
            0 <= i < cs.len() && #[trigger] cs[i] == Choice::Entry((needed(cs) - 1) as nat);
        assert(cs[i] is Plain);
    }
    lemma_section(t, max, cs, None, fields, huffman);
}

proof fn lemma_section(
    t: Table,
    limit: nat,
    cs: Seq<Choice>,
    pin: Option<nat>,
    fields: Seq<Field>,
    huffman: bool,
)
    requires
        limit <= usize::MAX,
        t.inserted() <= usize::MAX,
        all_short(fields),
        section_bytes(cs, limit, huffman).len() <= usize::MAX,
        cs.len() == fields.len(),
        forall|i: int| 0 <= i < fields.len() ==> written(t, pin, #[trigger] cs[i], fields[i]),
        needed(cs) > 0 ==> limit / 32 > 0 && needed(cs) + limit / 32 > t.inserted(),
        needed(cs) <= t.inserted(),
    ensures
        section(t, limit, section_bytes(cs, limit, huffman)) == Ok::<Seq<Field>, Error>(fields),
{
    let b = section_bytes(cs, limit, huffman);
    let req = needed(cs);
    let head = prefix_bytes(req, limit);
    let tail = all_lines(cs, req, huffman);
    assert(b.subrange(0, b.len() as int) =~= b);
    lemma_stands(b, 0, head, tail);
    lemma_prefix(t, limit, b, req);
    lemma_needed(cs);
    assert forall|i: int| 0 <= i < fields.len() implies (#[trigger] fields[i]).name.len()
        <= usize::MAX && fields[i].value.len() <= usize::MAX by {
        assert(is_short(fields[i]));
    }
    lemma_lines(t, pin, b, head.len() as int, req, cs, fields, huffman);
}

/// A decoder with the same table, and which allows the same capacity, follows the
/// stream of a section to the encoder's table, and then reads back the fields.
pub proof fn decode_inverts_encode(t: Table, limit: nat, fields: Seq<Field>, huffman: bool)
    requires
        t.ok(),
        t.capacity <= limit <= usize::MAX,
        t.inserted() + fields.len() <= usize::MAX,
        all_short(fields),
        planned(t, limit, fields, huffman).stream.len() <= usize::MAX,
        section_bytes(
            planned(t, limit, fields, huffman).choices,
            limit,
            huffman,
        ).len() <= usize::MAX,
    ensures
        ({
            let p = planned(t, limit, fields, huffman);
            &&& fed(t, limit, p.stream, 0) == (p.table, None::<Error>)
            &&& section(p.table, limit, section_bytes(p.choices, limit, huffman)) == Ok::<
                Seq<Field>,
                Error,
            >(fields)
        }),
{
    let p = planned(t, limit, fields, huffman);
    lemma_planned(t, limit, fields, huffman);
    assert(p.stream.subrange(0, p.stream.len() as int) =~= p.stream);
    lemma_fed(t, limit, fields, huffman, p.stream);
    lemma_needed(p.choices);
    if needed(p.choices) > 0 {
        let i = choose|i: int|
            0 <= i < p.choices.len() && #[trigger] p.choices[i] == Choice::Entry(
                (needed(p.choices) - 1) as nat,
            );
        assert(written(p.table, p.pin, p.choices[i], fields[i]));
        lemma_window(p.table, limit, (needed(p.choices) - 1) as nat);
    }
    lemma_section(p.table, limit, p.choices, p.pin, fields, huffman);
}

/// What an encoder gives for a section.
#[derive(Debug, Clone)]
pub struct Encoded {
    /// Instructions, which a decoder has to follow first.
    pub encoder_stream: Vec<u8>,
    /// The section.
    pub field_section: Vec<u8>,
}

/// A QPACK encoder.
#[derive(Debug)]
pub struct QpackEncoder {
    use_huffman: bool,
    table: DynamicTable,
    limit: usize,
}

/// How a field is written.
enum Way {
    Plain,
    Entry(usize),
}

impl QpackEncoder {
    /// The dynamic table.
    pub closed spec fn view(&self) -> Table {
        self.table@
    }

    /// The capacity that the dynamic table may have.
    pub closed spec fn limit(&self) -> nat {
        self.limit as nat
    }

    /// Strings are coded where that is shorter.
    pub closed spec fn huffman(&self) -> bool {
        self.use_huffman
    }

    /// The table is as it ought to be.
    pub closed spec fn inv(&self) -> bool {
        &&& self.table.inv()
        &&& self.table@.capacity <= self.limit
    }

    /// The entries count no more than the capacity.
    pub proof fn table_is_ok(&self)
        requires
            self.inv(),
        ensures
            self@.ok(),
            self@.capacity <= self.limit() <= usize::MAX,
            self@.inserted() <= usize::MAX,
    {
        self.table.lemma_bounds();
    }

    /// An encoder without a dynamic table.
    pub fn new() -> (e: Self)
        ensures
            e.inv(),
            e@ == fresh(),
            e.limit() == 0,
            e.huffman(),
    {
        QpackEncoder::with_dynamic_table(0)
    }

    /// An encoder with a dynamic table of this capacity, which the decoder has to
    /// allow.
    pub fn with_dynamic_table(capacity: usize) -> (e: Self)
        ensures
            e.inv(),
            e@ == fresh(),
            e.limit() == capacity,
            e.huffman(),
    {
        QpackEncoder { use_huffman: true, table: DynamicTable::new(), limit: capacity }
    }

    /// Says whether strings are coded where that is shorter.
    pub fn set_huffman(&mut self, on: bool)
        requires
            old(self).inv(),
        ensures
            final(self).inv(),
            final(self)@ == old(self)@,
            final(self).limit() == old(self).limit(),
            final(self).huffman() == on,
    {
        self.use_huffman = on;
    }

    /// How many entries were inserted.
    pub fn insert_count(&self) -> (n: usize)
        requires
            self.inv(),
        ensures
            n == self@.inserted(),
    {
        self.table.insert_count()
    }

    /// Encodes a section without the dynamic table.
    pub fn encode_field_section(&mut self, fields: &[HeaderField]) -> (out: Vec<u8>)
        requires
            old(self).inv(),
        ensures
            *final(self) == *old(self),
            out@ == section_bytes(plainly(said(fields@)), old(self).limit(), old(self).huffman()),
    {
        let ghost all = said(fields@);
        let mut out: Vec<u8> = Vec::new();
        out.push(0);
        out.push(0);
        let mut i: usize = 0;
        assert(plainly(all.take(0)) =~= Seq::empty());
        assert(out@ =~= section_bytes(plainly(all.take(0)), self.limit(), self.huffman()));
        while i < fields.len()
            invariant
                i <= fields@.len(),
                all == said(fields@),
                *self == *old(self),
                self.inv(),
                needed(plainly(all.take(i as int))) == 0,
                out@ == section_bytes(plainly(all.take(i as int)), self.limit(), self.huffman()),
            decreases fields@.len() - i,
        {
            let ghost before = plainly(all.take(i as int));
            let ghost after = plainly(all.take(i + 1));
            let ghost out0 = out@;
            self.encode_field(&mut out, &fields[i]);
            proof {
                assert(all[i as int] == fields@[i as int]@);
                assert(after.drop_last() =~= before);
                assert(after.last() == Choice::Plain(all[i as int]));
                assert(out@ =~= section_bytes(after, self.limit(), self.huffman()));
            }
            i = i + 1;
        }
        assert(all.take(all.len() as int) =~= all);
        out
    }

    /// Appends the line of a field that does without the dynamic table.
    fn encode_field(&self, out: &mut Vec<u8>, f: &HeaderField)
        ensures
            final(out)@ == old(out)@ + plain_line(f@, self.use_huffman),
    {
        proof {
            lemma_pow2_values();
            assert(pow2(3 + 1) == 16);
            assert(is_pattern(0x20, 3) && is_pattern(0x30, 3));
        }
        match static_table::find(f.name.as_slice(), f.value.as_slice()) {
            Some((idx, exact)) => {
                if exact && !f.sensitive {
                    encode_int(out, idx, 6, 0xC0);
                } else {
                    let flags: u8 = if f.sensitive {
                        0x70
                    } else {
                        0x50
                    };
                    encode_int(out, idx, 4, flags);
                    emit_string(out, f.value.as_slice(), 7, 0, self.use_huffman);
                }
            },
            None => {
                let flags: u8 = if f.sensitive {
                    0x30
                } else {
                    0x20
                };
                emit_string(out, f.name.as_slice(), 3, flags, self.use_huffman);
                emit_string(out, f.value.as_slice(), 7, 0, self.use_huffman);
            },
        }
        assert(out@ =~= old(out)@ + plain_line(f@, self.use_huffman));
    }

    /// Encodes a section with the dynamic table.
    pub fn encode(&mut self, fields: &[HeaderField]) -> (r: Encoded)
        requires
            old(self).inv(),
            old(self)@.inserted() + fields@.len() <= usize::MAX,
        ensures
            final(self).inv(),
            final(self).limit() == old(self).limit(),
            final(self).huffman() == old(self).huffman(),
            ({
                let p = planned(
                    old(self)@,
                    old(self).limit(),
                    said(fields@),
                    old(self).huffman(),
                );
                &&& final(self)@ == p.table
                &&& r.encoder_stream@ == p.stream
                &&& r.field_section@ == section_bytes(
                    p.choices,
                    old(self).limit(),
                    old(self).huffman(),
                )
            }),
    {
        let ghost all = said(fields@);
        let ghost limit = self.limit();
        let ghost h = self.huffman();
        let ghost t = self@;
        let mut stream: Vec<u8> = Vec::new();
        let mut ways: Vec<Way> = Vec::new();
        let mut pin: Option<usize> = None;
        let mut req: usize = 0;
        let mut i: usize = 0;
        let ghost mut p = blank(t);
        proof {
            self.table_is_ok();
            assert(all.take(0) =~= Seq::empty());
        }
        while i < fields.len()
            invariant
                i <= fields@.len(),
                all == said(fields@),
                t == old(self)@,
                t.ok(),
                t.capacity <= limit,
                t.inserted() + fields@.len() <= usize::MAX,
                limit == old(self).limit(),
                limit <= usize::MAX,
                h == old(self).huffman(),
                self.inv(),
                self.limit() == limit,
                self.huffman() == h,
                p == planned(t, limit, all.take(i as int), h),
                self@ == p.table,
                stream@ == p.stream,
                same_pin(pin, p.pin),
                req == needed(p.choices),
                ways@.len() == i,
                p.choices.len() == i,
                forall|k: int|
                    0 <= k < i ==> same_way(#[trigger] ways@[k], p.choices[k], fields@[k]@),
            decreases fields@.len() - i,
        {
            let ghost p0 = p;
            let ghost f = fields@[i as int]@;
            proof {
                assert(all.take(i + 1).drop_last() =~= all.take(i as int));
                assert(all.take(i + 1).last() == f);
                lemma_planned(t, limit, all.take(i as int), h);
                lemma_with(p0, limit, all.take(i as int), f, h);
                lemma_needed(p0.choices);
                p = p0.with(limit, f, h);
            }
            let way = self.choose_way(&fields[i], &mut stream, pin, Ghost(p0));
            if let Way::Entry(abs) = way {
                pin = match pin {
                    Some(k) => if k <= abs {
                        Some(k)
                    } else {
                        Some(abs)
                    },
                    None => Some(abs),
                };
                if abs >= req {
                    req = abs + 1;
                }
            }
            proof {
                assert(p.choices.drop_last() =~= p0.choices);
                assert(p.choices.last() == p.choices[i as int]);
            }
            ways.push(way);
            i = i + 1;
        }
        proof {
            assert(all.take(all.len() as int) =~= all);
            lemma_planned(t, limit, all, h);
            lemma_needed(p.choices);
            if req > 0 {
                let k = choose|k: int|
                    0 <= k < p.choices.len() && #[trigger] p.choices[k] == Choice::Entry(
                        (needed(p.choices) - 1) as nat,
                    );
                assert(written(p.table, p.pin, p.choices[k], all[k]));
                lemma_window(p.table, limit, (req - 1) as nat);
            }
        }
        let section = self.write_section(fields, &ways, req, Ghost(p.choices));
        Encoded { encoder_stream: stream, field_section: section }
    }

    /// Decides how a field is written, and inserts it where that is to be.
    fn choose_way(
        &mut self,
        f: &HeaderField,
        stream: &mut Vec<u8>,
        pin: Option<usize>,
        Ghost(p): Ghost<Plan>,
    ) -> (way: Way)
        requires
            old(self).inv(),
            p.table == old(self)@,
            p.stream == old(stream)@,
            same_pin(pin, p.pin),
            old(self)@.inserted() < usize::MAX,
        ensures
            final(self).inv(),
            final(self).limit() == old(self).limit(),
            final(self).huffman() == old(self).huffman(),
            ({
                let q = p.with(old(self).limit(), f@, old(self).huffman());
                &&& final(self)@ == q.table
                &&& final(stream)@ == q.stream
                &&& same_way(way, q.choices.last(), f@)
                &&& same_pin(way_pinned(pin, way), q.pin)
            }),
    {
        let ghost e = (f@.name, f@.value);
        let ghost limit = self.limit();
        let ghost h = self.huffman();
        proof {
            self.table_is_ok();
            lemma_opened(self@, limit);
            lemma_last(self@.entries, e, self@.entries.len());
            lemma_exact(f@.name, f@.value, 0);
        }
        if f.sensitive {
            return Way::Plain;
        }
        let static_name: Option<usize> = match static_table::find(
            f.name.as_slice(),
            f.value.as_slice(),
        ) {
            Some((_, true)) => {
                return Way::Plain;
            },
            Some((i, false)) => Some(i),
            None => None,
        };
        if let Some(k) = self.table.find_pair(f.name.as_slice(), f.value.as_slice()) {
            return Way::Entry(self.table.dropped() + k);
        }
        let need: u128 = f.name.len() as u128 + f.value.len() as u128 + 32;
        if need > self.limit as u128 {
            return Way::Plain;
        }
        let room: usize = self.limit - need as usize;
        let dropped: usize = self.table.dropped_for(room);
        proof {
            lemma_evicted_capacity(self@, limit, room as nat);
        }
        if let Some(k) = pin {
            if dropped > k {
                return Way::Plain;
            }
        }
        if self.table.capacity() != self.limit {
            proof {
                lemma_pow2_values();
            }
            encode_int(stream, self.limit, 5, 0x20);
            let _ = self.table.set_capacity(self.limit, self.limit);
        }
        let ghost open = p.opened(limit);
        assert(self@ == open);
        assert(stream@ =~= p.stream + p.opening(limit));
        self.write_insertion(stream, f, static_name);
        proof {
            lemma_inserted(open, e);
        }
        let abs: usize = self.table.insert_count();
        let _ = self.table.insert(f.name.as_slice(), f.value.as_slice());
        assert(stream@ =~= p.stream + p.opening(limit) + insert_bytes(open, e, h));
        Way::Entry(abs)
    }

    /// Appends the instruction that inserts a field.
    fn write_insertion(&self, stream: &mut Vec<u8>, f: &HeaderField, static_name: Option<usize>)
        requires
            self.inv(),
            match named_from(f.name@, 0) {
                Some(i) => static_name matches Some(j) && i == j,
                None => static_name is None,
            },
        ensures
            final(stream)@ == old(stream)@ + insert_bytes(
                self.table@,
                (f.name@, f.value@),
                self.use_huffman,
            ),
    {
        proof {
            lemma_pow2_values();
            assert(pow2(5 + 1) == 64);
            assert(is_pattern(0x40, 5));
        }
        match static_name {
            Some(i) => {
                encode_int(stream, i, 6, 0xC0);
            },
            None => match self.table.find_name(f.name.as_slice()) {
                Some(k) => {
                    encode_int(stream, self.table.len() - 1 - k, 6, 0x80);
                },
                None => {
                    emit_string(stream, f.name.as_slice(), 5, 0x40, self.use_huffman);
                },
            },
        }
        emit_string(stream, f.value.as_slice(), 7, 0, self.use_huffman);
        assert(stream@ =~= old(stream)@ + insert_bytes(
            self.table@,
            (f.name@, f.value@),
            self.use_huffman,
        ));
    }

    /// Writes the section.
    fn write_section(
        &self,
        fields: &[HeaderField],
        ways: &Vec<Way>,
        req: usize,
        Ghost(cs): Ghost<Seq<Choice>>,
    ) -> (out: Vec<u8>)
        requires
            self.inv(),
            ways@.len() == fields@.len(),
            cs.len() == fields@.len(),
            req == needed(cs),
            req > 0 ==> self.limit() / 32 > 0,
            forall|k: int|
                0 <= k < cs.len() ==> same_way(#[trigger] ways@[k], cs[k], fields@[k]@),
        ensures
            out@ == section_bytes(cs, self.limit(), self.huffman()),
    {
        let mut out: Vec<u8> = Vec::new();
        proof {
            lemma_pow2_values();
            lemma_needed(cs);
        }
        if req == 0 {
            out.push(0);
        } else {
            let full: usize = 2 * (self.limit / 32);
            encode_int(&mut out, req % full + 1, 8, 0);
        }
        out.push(0);
        assert(out@ =~= prefix_bytes(req as nat, self.limit()));
        let ghost head = out@;
        let mut i: usize = 0;
        assert(cs.take(0) =~= Seq::empty());
        while i < fields.len()
            invariant
                i <= fields@.len(),
                ways@.len() == fields@.len(),
                cs.len() == fields@.len(),
                req == needed(cs),
                forall|k: int|
                    0 <= k < cs.len() ==> same_way(#[trigger] ways@[k], cs[k], fields@[k]@),
                forall|k: int|
                    0 <= k < cs.len() ==> (#[trigger] cs[k] matches Choice::Entry(abs) ==> abs
                        < req),
                out@ == head + all_lines(cs.take(i as int), req as nat, self.huffman()),
            decreases fields@.len() - i,
        {
            assert(same_way(ways@[i as int], cs[i as int], fields@[i as int]@));
            assert(cs.take(i + 1).drop_last() =~= cs.take(i as int));
            assert(cs.take(i + 1).last() == cs[i as int]);
            match &ways[i] {
                Way::Plain => {
                    self.encode_field(&mut out, &fields[i]);
                },
                Way::Entry(abs) => {
                    proof {
                        lemma_pow2_values();
                    }
                    encode_int(&mut out, req - 1 - *abs, 6, 0x80);
                },
            }
            i = i + 1;
            assert(out@ =~= head + all_lines(cs.take(i as int), req as nat, self.huffman()));
        }
        assert(cs.take(cs.len() as int) =~= cs);
        out
    }
}

impl Default for QpackEncoder {
    fn default() -> (e: Self)
        ensures
            e.inv(),
            e@ == fresh(),
            e.limit() == 0,
            e.huffman(),
    {
        QpackEncoder::new()
    }
}

spec fn same_pin(pin: Option<usize>, p: Option<nat>) -> bool {
    match pin {
        Some(k) => p == Some(k as nat),
        None => p is None,
    }
}

spec fn way_pinned(pin: Option<usize>, way: Way) -> Option<usize> {
    match way {
        Way::Plain => pin,
        Way::Entry(abs) => match pin {
            Some(k) if k <= abs => Some(k),
            _ => Some(abs),
        },
    }
}

spec fn same_way(way: Way, c: Choice, f: Field) -> bool {
    match way {
        Way::Plain => c == Choice::Plain(f),
        Way::Entry(abs) => c == Choice::Entry(abs as nat),
    }
}

proof fn lemma_evicted_capacity(t: Table, capacity: nat, room: nat)
    ensures
        (Table { capacity, ..t }).evicted(room).dropped == t.evicted(room).dropped,
    decreases t.entries.len(),
{
    if !(total(t.entries) <= room || t.entries.len() == 0) {
        let u = Table { entries: t.entries.skip(1), dropped: t.dropped + 1, ..t };
        lemma_evicted_capacity(u, capacity, room);
    }
}

} // verus!
