//! The dynamic table: header fields that one side has told the other.
//!
//! Entries have absolute indices, in the order of their insertion. Where the table
//! grows too large the oldest entries leave. An entry counts with the length of its
//! name and value and 32 bytes more.
use std::collections::VecDeque;

use vstd::prelude::*;

use super::static_table::same;

verus! {

/// What an entry counts beyond its name and value.
pub const ENTRY_OVERHEAD: usize = 32;

/// A name and a value.
pub type Entry = (Seq<u8>, Seq<u8>);

/// What an entry counts.
pub open spec fn cost(e: Entry) -> nat {
    e.0.len() + e.1.len() + 32
}

/// What the entries count.
pub open spec fn total(s: Seq<Entry>) -> nat
    decreases s.len(),
{
    if s.len() == 0 {
        0
    } else {
        cost(s[0]) + total(s.skip(1))
    }
}

/// A dynamic table.
#[verifier::ext_equal]
pub struct Table {
    /// The entries, the oldest first.
    pub entries: Seq<Entry>,
    /// How much the entries may count.
    pub capacity: nat,
    /// How many entries have left.
    pub dropped: nat,
}

impl Table {
    /// How many entries were inserted.
    pub open spec fn inserted(self) -> nat {
        self.dropped + self.entries.len()
    }

    /// The entries count no more than they may.
    pub open spec fn ok(self) -> bool {
        total(self.entries) <= self.capacity
    }

    /// The entry with an absolute index.
    pub open spec fn at(self, abs: int) -> Option<Entry> {
        if self.dropped <= abs < self.inserted() {
            Some(self.entries[abs - self.dropped])
        } else {
            None
        }
    }

    /// The table once the oldest entries have left, so that the others count at
    /// most `room`.
    pub open spec fn evicted(self, room: nat) -> Table
        decreases self.entries.len(),
    {
        if total(self.entries) <= room || self.entries.len() == 0 {
            self
        } else {
            (Table {
                entries: self.entries.skip(1),
                dropped: self.dropped + 1,
                ..self
            }).evicted(room)
        }
    }

    /// The table with another capacity.
    pub open spec fn resized(self, capacity: nat) -> Table {
        (Table { capacity, ..self }).evicted(capacity)
    }

    /// The table with one more entry, where that can fit.
    pub open spec fn with(self, e: Entry) -> Option<Table> {
        if cost(e) > self.capacity {
            None
        } else {
            let t = self.evicted((self.capacity - cost(e)) as nat);
            Some(Table { entries: t.entries.push(e), ..t })
        }
    }
}

/// The last of the first `n` entries that is `e`.
pub open spec fn last_equal(s: Seq<Entry>, e: Entry, n: nat) -> Option<nat>
    decreases n,
{
    if n == 0 {
        None
    } else if s[n - 1] == e {
        Some((n - 1) as nat)
    } else {
        last_equal(s, e, (n - 1) as nat)
    }
}

/// The last of the first `n` entries with this name.
pub open spec fn last_named(s: Seq<Entry>, name: Seq<u8>, n: nat) -> Option<nat>
    decreases n,
{
    if n == 0 {
        None
    } else if s[n - 1].0 == name {
        Some((n - 1) as nat)
    } else {
        last_named(s, name, (n - 1) as nat)
    }
}

pub proof fn lemma_last(s: Seq<Entry>, e: Entry, n: nat)
    ensures
        last_equal(s, e, n) matches Some(k) ==> k < n && s[k as int] == e,
        last_named(s, e.0, n) matches Some(k) ==> k < n && s[k as int].0 == e.0,
    decreases n,
{
    if n > 0 {
        lemma_last(s, e, (n - 1) as nat);
    }
}

/// A table without entries and without room for any.
pub open spec fn fresh() -> Table {
    Table { entries: Seq::empty(), capacity: 0, dropped: 0 }
}

pub proof fn lemma_total_push(s: Seq<Entry>, e: Entry)
    ensures
        total(s.push(e)) == total(s) + cost(e),
    decreases s.len(),
{
    if s.len() == 0 {
        assert(s.push(e).skip(1) =~= s);
    } else {
        lemma_total_push(s.skip(1), e);
        assert(s.push(e).skip(1) =~= s.skip(1).push(e));
    }
}

/// Each entry counts at least 32.
pub proof fn lemma_total_len(s: Seq<Entry>)
    ensures
        total(s) >= 32 * s.len(),
    decreases s.len(),
{
    if s.len() > 0 {
        lemma_total_len(s.skip(1));
    }
}

pub proof fn lemma_evicted(t: Table, room: nat)
    ensures
        ({
            let u = t.evicted(room);
            &&& total(u.entries) <= room
            &&& total(u.entries) <= total(t.entries)
            &&& u.capacity == t.capacity
            &&& u.inserted() == t.inserted()
            &&& t.dropped <= u.dropped <= t.inserted()
            &&& u.entries == t.entries.skip(u.dropped - t.dropped)
        }),
    decreases t.entries.len(),
{
    if total(t.entries) <= room || t.entries.len() == 0 {
        assert(t.entries.skip(0) =~= t.entries);
    } else {
        let next = Table { entries: t.entries.skip(1), dropped: t.dropped + 1, ..t };
        lemma_evicted(next, room);
        let u = t.evicted(room);
        assert(t.entries.skip(1).skip(u.dropped - next.dropped) =~= t.entries.skip(
            u.dropped - t.dropped,
        ));
    }
}

/// Only the oldest entries leave, and no more than have to: those that stay are the most
/// recent ones, as many as count at most `room`.
pub proof fn eviction_keeps_all_it_can(t: Table, room: nat)
    ensures
        ({
            let u = t.evicted(room);
            let k = u.dropped - t.dropped;
            &&& 0 <= k <= t.entries.len()
            &&& u.entries == t.entries.skip(k)
            &&& u.capacity == t.capacity
            &&& total(u.entries) <= room
            &&& forall|j: int| 0 <= j < k ==> total(#[trigger] t.entries.skip(j)) > room
        }),
    decreases t.entries.len(),
{
    lemma_evicted(t, room);
    if total(t.entries) > room && t.entries.len() > 0 {
        let next = Table { entries: t.entries.skip(1), dropped: t.dropped + 1, ..t };
        eviction_keeps_all_it_can(next, room);
        let k = t.evicted(room).dropped - t.dropped;
        assert forall|j: int| 0 <= j < k implies total(#[trigger] t.entries.skip(j)) > room by {
            if j == 0 {
                assert(t.entries.skip(0) =~= t.entries);
            } else {
                assert(next.entries.skip(j - 1) =~= t.entries.skip(j));
            }
        }
    }
}

/// A new capacity and a new entry make the oldest entries leave, and no more of them
/// than have to.
pub proof fn changes_keep_all_they_can(t: Table, capacity: nat, e: Entry)
    ensures
        ({
            let u = t.resized(capacity);
            let k = u.dropped - t.dropped;
            &&& 0 <= k <= t.entries.len()
            &&& u.entries == t.entries.skip(k)
            &&& total(u.entries) <= capacity
            &&& forall|j: int| 0 <= j < k ==> total(#[trigger] t.entries.skip(j)) > capacity
        }),
        t.with(e) matches Some(u) ==> {
            let k = u.dropped - t.dropped;
            &&& 0 <= k <= t.entries.len()
            &&& u.entries == t.entries.skip(k).push(e)
            &&& total(u.entries) <= t.capacity
            &&& forall|j: int|
                0 <= j < k ==> total(#[trigger] t.entries.skip(j)) + cost(e) > t.capacity
        },
        t.with(e) is Some <==> cost(e) <= t.capacity,
{
    eviction_keeps_all_it_can((Table { capacity, ..t }), capacity);
    if cost(e) <= t.capacity {
        let room = (t.capacity - cost(e)) as nat;
        eviction_keeps_all_it_can(t, room);
        lemma_total_push(t.evicted(room).entries, e);
    }
}

/// The entries never count more than the capacity.
pub proof fn table_stays_within_capacity(t: Table, capacity: nat, e: Entry)
    requires
        t.ok(),
    ensures
        t.resized(capacity).ok(),
        t.resized(capacity).capacity == capacity,
        t.with(e) matches Some(u) ==> u.ok() && u.capacity == t.capacity,
{
    lemma_evicted((Table { capacity, ..t }), capacity);
    if cost(e) <= t.capacity {
        let room = (t.capacity - cost(e)) as nat;
        lemma_evicted(t, room);
        lemma_total_push(t.evicted(room).entries, e);
    }
}

/// An entry keeps its absolute index for as long as it stays, and a new one gets
/// the next.
pub proof fn indices_are_kept(t: Table, capacity: nat, e: Entry, abs: int)
    ensures
        t.resized(capacity).at(abs) matches Some(x) ==> t.at(abs) == Some(x),
        t.with(e) matches Some(u) ==> {
            &&& u.inserted() == t.inserted() + 1
            &&& u.at(t.inserted() as int) == Some(e)
            &&& abs != t.inserted() ==> (u.at(abs) matches Some(x) ==> t.at(abs) == Some(x))
        },
{
    lemma_evicted((Table { capacity, ..t }), capacity);
    if cost(e) <= t.capacity {
        lemma_evicted(t, (t.capacity - cost(e)) as nat);
    }
}

/// What a pair of vectors holds.
pub open spec fn pair(e: (Vec<u8>, Vec<u8>)) -> Entry {
    (e.0@, e.1@)
}

/// A dynamic table.
#[derive(Debug)]
pub struct DynamicTable {
    entries: VecDeque<(Vec<u8>, Vec<u8>)>,
    size: usize,
    capacity: usize,
    insert_count: usize,
    dropped: usize,
}

impl DynamicTable {
    /// What the table holds.
    pub closed spec fn view(&self) -> Table {
        Table {
            entries: self.entries@.map_values(|e: (Vec<u8>, Vec<u8>)| pair(e)),
            capacity: self.capacity as nat,
            dropped: self.dropped as nat,
        }
    }

    /// The counts agree with the entries.
    pub closed spec fn inv(&self) -> bool {
        &&& self@.ok()
        &&& self.size == total(self@.entries)
        &&& self.insert_count == self@.inserted()
    }

    pub proof fn lemma_bounds(&self)
        requires
            self.inv(),
        ensures
            self@.ok(),
            self@.capacity <= usize::MAX,
            self@.inserted() <= usize::MAX,
    {
    }

    /// An empty table.
    pub fn new() -> (t: Self)
        ensures
            t.inv(),
            t@ == fresh(),
    {
        let t = DynamicTable {
            entries: VecDeque::new(),
            size: 0,
            capacity: 0,
            insert_count: 0,
            dropped: 0,
        };
        assert(t@ =~= fresh());
        t
    }

    /// What an entry counts.
    pub fn entry_size(name: &[u8], value: &[u8]) -> (n: usize)
        requires
            cost((name@, value@)) <= usize::MAX,
        ensures
            n == cost((name@, value@)),
    {
        name.len() + value.len() + ENTRY_OVERHEAD
    }

    /// How many entries were inserted.
    pub fn insert_count(&self) -> (n: usize)
        requires
            self.inv(),
        ensures
            n == self@.inserted(),
    {
        self.insert_count
    }

    /// What the entries count.
    pub fn size(&self) -> (n: usize)
        requires
            self.inv(),
        ensures
            n == total(self@.entries),
    {
        self.size
    }

    /// How much the entries may count.
    pub fn capacity(&self) -> (n: usize)
        ensures
            n == self@.capacity,
    {
        self.capacity
    }

    /// How many entries there are.
    pub fn len(&self) -> (n: usize)
        ensures
            n == self@.entries.len(),
    {
        self.entries.len()
    }

    /// How many entries have left.
    pub fn dropped(&self) -> (n: usize)
        ensures
            n == self@.dropped,
    {
        self.dropped
    }

    /// Sets the capacity, which may not exceed `max`.
    pub fn set_capacity(&mut self, new_capacity: usize, max: usize) -> (r: bool)
        requires
            old(self).inv(),
        ensures
            final(self).inv(),
            r == (new_capacity <= max),
            final(self)@ == if new_capacity <= max {
                old(self)@.resized(new_capacity as nat)
            } else {
                old(self)@
            },
    {
        if new_capacity > max {
            return false;
        }
        self.capacity = new_capacity;
        proof {
            lemma_evicted(self@, new_capacity as nat);
        }
        assert(self@ == (Table { capacity: new_capacity as nat, ..old(self)@ }));
        self.evict_to_fit(0);
        true
    }

    /// Removes the oldest entries until there is room for `incoming`.
    fn evict_to_fit(&mut self, incoming: usize)
        requires
            incoming <= old(self).capacity,
            old(self).size == total(old(self)@.entries),
            old(self).insert_count == old(self)@.inserted(),
        ensures
            final(self).inv(),
            final(self)@ == old(self)@.evicted((old(self).capacity - incoming) as nat),
            final(self).capacity == old(self).capacity,
    {
        let room: usize = self.capacity - incoming;
        proof {
            lemma_evicted(self@, room as nat);
        }
        while self.size > room
            invariant
                room == old(self).capacity - incoming,
                incoming <= old(self).capacity,
                self.capacity == old(self).capacity,
                self.size == total(self@.entries),
                self.insert_count == self@.inserted(),
                self@.evicted(room as nat) == old(self)@.evicted(room as nat),
                total(old(self)@.evicted(room as nat).entries) <= room,
            decreases self@.entries.len(),
        {
            let ghost before = self@;
            match self.entries.pop_front() {
                Some((n, v)) => {
                    assert(before.entries[0] == (n@, v@));
                    assert(self@.entries =~= before.entries.skip(1));
                    self.size = self.size - (n.len() + v.len() + ENTRY_OVERHEAD);
                    self.dropped = self.dropped + 1;
                    assert(self@ == (Table {
                        entries: before.entries.skip(1),
                        dropped: before.dropped + 1,
                        ..before
                    }));
                },
                None => {
                    assert(false);
                },
            }
        }
    }

    /// Whether an entry can fit at all.
    pub fn can_insert(&self, name: &[u8], value: &[u8]) -> (r: bool)
        ensures
            r == (cost((name@, value@)) <= self@.capacity),
    {
        name.len() as u128 + value.len() as u128 + ENTRY_OVERHEAD as u128 <= self.capacity as u128
    }

    /// Inserts an entry, for which the oldest may have to leave; returns its
    /// absolute index. Where it cannot fit at all, nothing happens.
    pub fn insert(&mut self, name: &[u8], value: &[u8]) -> (r: Option<usize>)
        requires
            old(self).inv(),
            old(self)@.inserted() < usize::MAX,
        ensures
            final(self).inv(),
            match old(self)@.with((name@, value@)) {
                Some(t) => r matches Some(i) && i == old(self)@.inserted() && final(self)@ == t,
                None => r is None && *final(self) == *old(self),
            },
    {
        if !self.can_insert(name, value) {
            return None;
        }
        let need: usize = DynamicTable::entry_size(name, value);
        self.evict_to_fit(need);
        let ghost t = self@;
        proof {
            lemma_evicted(old(self)@, (old(self).capacity - need) as nat);
            lemma_total_push(t.entries, (name@, value@));
        }
        let abs: usize = self.insert_count;
        let e = (vstd::slice::slice_to_vec(name), vstd::slice::slice_to_vec(value));
        let ghost ee = pair(e);
        self.entries.push_back(e);
        assert(self@.entries =~= t.entries.push(ee));
        self.size = self.size + need;
        self.insert_count = self.insert_count + 1;
        Some(abs)
    }

    /// The entry with an absolute index.
    pub fn get_absolute(&self, abs: usize) -> (r: Option<(&[u8], &[u8])>)
        requires
            self.inv(),
        ensures
            match self@.at(abs as int) {
                Some(e) => r matches Some((n, v)) && n@ == e.0 && v@ == e.1,
                None => r is None,
            },
    {
        if abs < self.dropped || abs >= self.insert_count {
            return None;
        }
        let i: usize = abs - self.dropped;
        assert(self@.entries[i as int] == pair(self.entries@[i as int]));
        let e: &(Vec<u8>, Vec<u8>) = &self.entries[i];
        Some((e.0.as_slice(), e.1.as_slice()))
    }

    /// The place of the last entry with this name and value.
    pub fn find_pair(&self, name: &[u8], value: &[u8]) -> (r: Option<usize>)
        ensures
            match last_equal(self@.entries, (name@, value@), self@.entries.len()) {
                Some(k) => r matches Some(i) && i == k && k < self@.entries.len(),
                None => r is None,
            },
    {
        proof {
            lemma_last(self@.entries, (name@, value@), self@.entries.len());
        }
        let mut n: usize = self.entries.len();
        while n > 0
            invariant
                n <= self@.entries.len(),
                last_equal(self@.entries, (name@, value@), n as nat) == last_equal(
                    self@.entries,
                    (name@, value@),
                    self@.entries.len(),
                ),
            decreases n,
        {
            assert(self@.entries[n - 1] == pair(self.entries@[n - 1]));
            let e: &(Vec<u8>, Vec<u8>) = &self.entries[n - 1];
            if same(e.0.as_slice(), name) && same(e.1.as_slice(), value) {
                return Some(n - 1);
            }
            n = n - 1;
        }
        None
    }

    /// The place of the last entry with this name.
    pub fn find_name(&self, name: &[u8]) -> (r: Option<usize>)
        ensures
            match last_named(self@.entries, name@, self@.entries.len()) {
                Some(k) => r matches Some(i) && i == k && k < self@.entries.len(),
                None => r is None,
            },
    {
        proof {
            lemma_last(self@.entries, (name@, name@), self@.entries.len());
        }
        let mut n: usize = self.entries.len();
        while n > 0
            invariant
                n <= self@.entries.len(),
                last_named(self@.entries, name@, n as nat) == last_named(
                    self@.entries,
                    name@,
                    self@.entries.len(),
                ),
            decreases n,
        {
            assert(self@.entries[n - 1] == pair(self.entries@[n - 1]));
            let e: &(Vec<u8>, Vec<u8>) = &self.entries[n - 1];
            if same(e.0.as_slice(), name) {
                return Some(n - 1);
            }
            n = n - 1;
        }
        None
    }

    /// How many entries will have left once the others count at most `room`.
    pub fn dropped_for(&self, room: usize) -> (n: usize)
        requires
            self.inv(),
        ensures
            n == self@.evicted(room as nat).dropped,
    {
        let mut size: usize = self.size;
        let mut i: usize = 0;
        let ghost mut t = self@;
        assert(self@.entries.skip(0) =~= self@.entries);
        while size > room
            invariant
                self.inv(),
                i <= self@.entries.len(),
                t.entries == self@.entries.skip(i as int),
                t.dropped == self@.dropped + i,
                size == total(t.entries),
                t.evicted(room as nat) == self@.evicted(room as nat),
            decreases t.entries.len(),
        {
            assert(i < self@.entries.len()) by {
                assert(t.entries.len() > 0);
            }
            assert(t.entries[0] == pair(self.entries@[i as int]));
            let e: &(Vec<u8>, Vec<u8>) = &self.entries[i];
            size = size - (e.0.len() + e.1.len() + ENTRY_OVERHEAD);
            i = i + 1;
            proof {
                assert(t.entries.skip(1) =~= self@.entries.skip(i as int));
                t = Table { entries: t.entries.skip(1), dropped: t.dropped + 1, ..t };
            }
        }
        self.dropped + i
    }

    /// The absolute index of the entry that came `rel` insertions before the last.
    pub fn relative_to_absolute_encoder(&self, rel: usize) -> (r: Option<usize>)
        requires
            self.inv(),
        ensures
            match r {
                Some(i) => rel < self@.inserted() && i == self@.inserted() - 1 - rel,
                None => rel >= self@.inserted(),
            },
    {
        if rel < self.insert_count {
            Some(self.insert_count - 1 - rel)
        } else {
            None
        }
    }

    /// The absolute index of the entry that is `rel` places before `base - 1`.
    pub fn field_relative_to_absolute(base: usize, rel: usize) -> (r: Option<usize>)
        ensures
            match r {
                Some(i) => rel < base && i == base - 1 - rel,
                None => rel >= base,
            },
    {
        if rel < base {
            Some(base - 1 - rel)
        } else {
            None
        }
    }

    /// The absolute index of the entry `idx` places behind `base`.
    pub fn post_base_to_absolute(base: usize, idx: usize) -> (r: Option<usize>)
        ensures
            match r {
                Some(i) => i == base + idx,
                None => base + idx > usize::MAX,
            },
    {
        base.checked_add(idx)
    }
}

impl Default for DynamicTable {
    fn default() -> (t: Self)
        ensures
            t.inv(),
            t@ == fresh(),
    {
        DynamicTable::new()
    }
}

} // verus!
