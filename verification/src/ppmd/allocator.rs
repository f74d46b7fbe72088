//! The memory manager of the PPMd model.
//!
//! Blocks of one to 128 units are handed out from lists of free blocks, from the
//! middle of the memory, or from below the first block. The text of what was
//! decoded grows from the start of the memory towards it.
//!
//! Every access is checked; one outside the memory, or a list that goes in circles,
//! marks the model as broken.
use vstd::prelude::*;

use super::heap::{g16, g32, moved, p16, p32, p8, within, Heap};
use super::tables::{i2u, index_of, u2i, units_of, PPMD_NUM_INDEXES, UNIT_SIZE};

verus! {

/// An estimate of how often contexts of a kind are left.
#[derive(Debug, Clone, Copy, PartialEq, Eq, Structural)]
pub struct See {
    /// The scaled frequency.
    pub summ: u16,
    /// How it is scaled.
    pub shift: u8,
    /// How many uses until it is scaled anew.
    pub count: u8,
}

/// The registers of the model. Positions are offsets into the memory; zero is none.
#[derive(Debug, Clone, Copy, PartialEq, Eq, Structural)]
pub struct Regs {
    /// The size of the memory.
    pub size: u32,
    /// Where it begins.
    pub align_offset: u32,
    /// The context that is used.
    pub min_context: u32,
    /// The longest context.
    pub max_context: u32,
    /// The state of the last symbol.
    pub found_state: u32,
    /// The end of the text.
    pub text: u32,
    /// The start of the free middle.
    pub lo_unit: u32,
    /// The end of the free middle.
    pub hi_unit: u32,
    /// The first block.
    pub units_start: u32,
    /// How many failures until free blocks are joined.
    pub glue_count: u32,
    /// How much shorter than wanted the context is.
    pub order_fall: u32,
    /// The escape frequency that new contexts start with.
    pub init_esc: u32,
    /// Whether the last symbol was the likely one.
    pub prev_success: u32,
    /// The longest order.
    pub max_order: u32,
    /// Whether the last symbol lies in the upper part of the alphabet.
    pub hi_bits_flag: u32,
    /// How long predictions have held.
    pub run_length: i32,
    /// What that starts with.
    pub init_rl: i32,
}

/// The state of a model.
#[verifier::ext_equal]
pub struct M {
    /// The memory.
    pub base: Seq<u8>,
    /// The model is broken.
    pub err: bool,
    /// The registers.
    pub r: Regs,
    /// The lists of free blocks.
    pub free: Seq<u32>,
    /// The escape estimates, sixteen to a row.
    pub see: Seq<See>,
    /// The chances of binary contexts, sixty-four to a row.
    pub bins: Seq<u16>,
}

impl M {
    /// The model, broken unless `n` bytes from `o` on lie in the memory.
    pub open spec fn need(self, o: u32, n: nat) -> M {
        M { err: self.err || !within(self.base, o, n), ..self }
    }

    /// The model, broken.
    pub open spec fn broken(self) -> M {
        M { err: true, ..self }
    }

    /// The model with a byte at `o`.
    pub open spec fn w8(self, o: u32, v: u8) -> M {
        M { base: p8(self.base, o, v), ..self.need(o, 1) }
    }

    /// The model with the low half of a number at `o`.
    pub open spec fn w16(self, o: u32, v: u32) -> M {
        M { base: p16(self.base, o, v), ..self.need(o, 2) }
    }

    /// The model with a number at `o`.
    pub open spec fn w32(self, o: u32, v: u32) -> M {
        M { base: p32(self.base, o, v), ..self.need(o, 4) }
    }

    /// The first block of a list.
    pub open spec fn head(self, i: u32) -> u32 {
        if i < PPMD_NUM_INDEXES {
            self.free[i as int]
        } else {
            0
        }
    }

    /// The model with `node` at the front of a list.
    pub open spec fn inserted(self, node: u32, i: u32) -> M {
        if i < PPMD_NUM_INDEXES {
            let m = self.w32(node, self.free[i as int]);
            M { free: m.free.update(i as int, node), ..m }
        } else {
            self.broken()
        }
    }

    /// The model without the first block of a list.
    pub open spec fn removed(self, i: u32) -> M {
        if i < PPMD_NUM_INDEXES {
            let node = self.free[i as int];
            let m = self.need(node, 4);
            M { free: m.free.update(i as int, g32(m.base, node)), ..m }
        } else {
            self.broken()
        }
    }

    /// The model with the units from `ptr` on in lists.
    pub open spec fn listed(self, ptr: u32, nu: u32) -> M {
        let i = index_of(nu);
        if units_of(i) != nu {
            let j = i.wrapping_sub(1);
            let k = units_of(j);
            self.inserted(
                ptr.wrapping_add(UNIT_SIZE.wrapping_mul(k)),
                nu.wrapping_sub(k).wrapping_sub(1),
            ).inserted(ptr, j)
        } else {
            self.inserted(ptr, i)
        }
    }

    /// The model with what a block is too long in lists.
    pub open spec fn split(self, ptr: u32, old_i: u32, new_i: u32) -> M {
        self.listed(
            ptr.wrapping_add(UNIT_SIZE.wrapping_mul(units_of(new_i))),
            units_of(old_i).wrapping_sub(units_of(new_i)),
        )
    }

    /// The chain of free blocks with the blocks of one list in front of `n`, and the
    /// new first block.
    pub open spec fn chained(self, n: u32, next: u32, nu: u32, fuel: nat) -> (M, u32)
        decreases fuel,
    {
        if next == 0 {
            (self, n)
        } else if fuel == 0 {
            (self.broken(), n)
        } else {
            let m = self.w32(next.wrapping_add(4), n).w32(n.wrapping_add(8), next).need(next, 4);
            let after = g32(m.base, next);
            m.w16(next, 0).w16(next.wrapping_add(2), nu).chained(
                next,
                after,
                nu,
                (fuel - 1) as nat,
            )
        }
    }

    /// The chain of the blocks of all lists from `i` on.
    pub open spec fn all_chained(self, n: u32, i: u32) -> (M, u32)
        decreases PPMD_NUM_INDEXES - i,
    {
        if i >= PPMD_NUM_INDEXES {
            (self, n)
        } else {
            let next = self.free[i as int];
            let m = M { free: self.free.update(i as int, 0), ..self };
            let (m, n) = m.chained(n, next, units_of(i), self.base.len());
            m.all_chained(n, (i + 1) as u32)
        }
    }

    /// The chain with the blocks behind `node` joined to it.
    pub open spec fn joined(self, node: u32, nu: u32, fuel: nat) -> M
        decreases fuel,
    {
        let node2 = node.wrapping_add(nu.wrapping_mul(UNIT_SIZE));
        let m = self.need(node2, 4);
        let stamp = g16(m.base, node2);
        let nu2 = g16(m.base, node2.wrapping_add(2));
        if stamp != 0 || nu + nu2 >= 0x1_0000 {
            m
        } else if fuel == 0 {
            m.broken()
        } else {
            let m = m.need(node2, 12);
            let prev = g32(m.base, node2.wrapping_add(8));
            let next = g32(m.base, node2.wrapping_add(4));
            m.w32(prev.wrapping_add(4), next).w32(next.wrapping_add(8), prev).w16(
                node.wrapping_add(2),
                (nu + nu2) as u32,
            ).joined(node, (nu + nu2) as u32, (fuel - 1) as nat)
        }
    }

    /// The chain from `n` on with neighbours joined.
    pub open spec fn all_joined(self, n: u32, head: u32, fuel: nat) -> M
        decreases fuel,
    {
        if n == head || self.err {
            self
        } else if fuel == 0 {
            self.broken()
        } else {
            let m = self.need(n, 12);
            let m = m.joined(n, g16(m.base, n.wrapping_add(2)), m.base.len());
            m.all_joined(g32(m.base, n.wrapping_add(4)), head, (fuel - 1) as nat)
        }
    }

    /// The model with a block of `nu` units in lists, in pieces of at most 128.
    pub open spec fn relisted(self, node: u32, nu: u32) -> M
        decreases nu,
    {
        if nu > 128 {
            self.inserted(node, 37).relisted(node.wrapping_add(1536), (nu - 128) as u32)
        } else {
            self.listed(node, nu)
        }
    }

    /// The model with the chain from `n` on in lists.
    pub open spec fn all_relisted(self, n: u32, head: u32, fuel: nat) -> M
        decreases fuel,
    {
        if n == head || self.err {
            self
        } else if fuel == 0 {
            self.broken()
        } else {
            let m = self.need(n, 12);
            let next = g32(m.base, n.wrapping_add(4));
            m.relisted(n, g16(m.base, n.wrapping_add(2))).all_relisted(
                next,
                head,
                (fuel - 1) as nat,
            )
        }
    }

    /// The model with neighbouring free blocks joined.
    pub open spec fn glued(self) -> M {
        let head = self.r.align_offset.wrapping_add(self.r.size);
        let m = M { r: Regs { glue_count: 255, ..self.r }, ..self };
        let (m, n) = m.all_chained(head, 0);
        let m = m.w16(head, 1).w32(head.wrapping_add(4), n).w32(n.wrapping_add(8), head);
        let m = if m.r.lo_unit != m.r.hi_unit {
            m.w16(m.r.lo_unit, 1)
        } else {
            m
        };
        let m = m.all_joined(g32(m.base, head.wrapping_add(4)), head, m.base.len());
        m.all_relisted(g32(m.base, head.wrapping_add(4)), head, m.base.len())
    }

    /// The first list from `i` on that is not empty.
    pub open spec fn filled_from(self, i: u32) -> u32
        decreases PPMD_NUM_INDEXES - i,
    {
        if i >= PPMD_NUM_INDEXES || self.free[i as int] != 0 {
            i
        } else {
            self.filled_from((i + 1) as u32)
        }
    }

    /// A block from a list of longer ones, or from below the first block; zero where
    /// there is none.
    pub open spec fn from_longer(self, i: u32) -> (M, u32) {
        let j = self.filled_from(i.wrapping_add(1));
        if j >= PPMD_NUM_INDEXES {
            let n = UNIT_SIZE.wrapping_mul(units_of(i));
            let r = Regs { glue_count: self.r.glue_count.wrapping_sub(1), ..self.r };
            if self.r.units_start.wrapping_sub(self.r.text) > n {
                let start = self.r.units_start.wrapping_sub(n);
                (M { r: Regs { units_start: start, ..r }, ..self }, start)
            } else {
                (M { r, ..self }, 0)
            }
        } else {
            let block = self.free[j as int];
            (self.removed(j).split(block, j, i), block)
        }
    }

    /// A block that no list of its size holds.
    pub open spec fn allocated_rare(self, i: u32) -> (M, u32) {
        if self.r.glue_count == 0 {
            let m = self.glued();
            if m.head(i) != 0 {
                (m.removed(i), m.head(i))
            } else {
                m.from_longer(i)
            }
        } else {
            self.from_longer(i)
        }
    }

    /// A block.
    pub open spec fn allocated(self, i: u32) -> (M, u32) {
        let n = UNIT_SIZE.wrapping_mul(units_of(i));
        if self.head(i) != 0 {
            (self.removed(i), self.head(i))
        } else if n <= self.r.hi_unit.wrapping_sub(self.r.lo_unit) {
            (
                M { r: Regs { lo_unit: self.r.lo_unit.wrapping_add(n), ..self.r }, ..self },
                self.r.lo_unit,
            )
        } else {
            self.allocated_rare(i)
        }
    }

    /// The memory for a context.
    pub open spec fn context_allocated(self) -> (M, u32) {
        if self.r.hi_unit != self.r.lo_unit {
            let hi = self.r.hi_unit.wrapping_sub(UNIT_SIZE);
            (M { r: Regs { hi_unit: hi, ..self.r }, ..self }, hi)
        } else if self.head(0) != 0 {
            (self.removed(0), self.head(0))
        } else {
            self.allocated_rare(0)
        }
    }

    /// The model with `nu` units copied.
    pub open spec fn units_copied(self, dst: u32, src: u32, nu: u32) -> M {
        let n = 12 * nu as nat;
        M { base: moved(self.base, dst, src, n), ..self.need(dst, n).need(src, n) }
    }

    /// A block with the start of another one, which is given back.
    pub open spec fn shrunk(self, ptr: u32, old_nu: u32, new_nu: u32) -> (M, u32) {
        let i0 = index_of(old_nu);
        let i1 = index_of(new_nu);
        if i0 == i1 {
            (self, ptr)
        } else if self.free[i1 as int] != 0 {
            let block = self.free[i1 as int];
            (self.removed(i1).units_copied(block, ptr, new_nu).inserted(ptr, i0), block)
        } else {
            (self.split(ptr, i0, i1), ptr)
        }
    }
}

/// The model.
pub struct Ppmd7 {
    /// The memory.
    pub heap: Heap,
    /// The model is broken.
    pub err: bool,
    /// The registers.
    pub r: Regs,
    /// The lists of free blocks.
    pub free: Vec<u32>,
    /// The escape estimates.
    pub see: Vec<See>,
    /// The chances of binary contexts.
    pub bins: Vec<u16>,
}

impl Ppmd7 {
    /// The state.
    pub open spec fn view(&self) -> M {
        M {
            base: self.heap@,
            err: self.err,
            r: self.r,
            free: self.free@,
            see: self.see@,
            bins: self.bins@,
        }
    }

    /// The tables have their sizes.
    pub open spec fn inv(&self) -> bool {
        m_ok(self@)
    }

    pub fn need(&mut self, o: u32, n: u64)
        requires
            old(self).inv(),
            n <= 0xFFFF_FFFF_FFFF,
        ensures
            final(self).inv(),
            final(self)@ == old(self)@.need(o, n as nat),
    {
        if !self.heap.has(o, n) {
            self.err = true;
        }
    }

    pub fn w8(&mut self, o: u32, v: u8)
        requires
            old(self).inv(),
        ensures
            final(self).inv(),
            final(self)@ == old(self)@.w8(o, v),
    {
        self.need(o, 1);
        self.heap.p8(o, v);
    }

    pub fn w16(&mut self, o: u32, v: u32)
        requires
            old(self).inv(),
        ensures
            final(self).inv(),
            final(self)@ == old(self)@.w16(o, v),
    {
        self.need(o, 2);
        self.heap.p16(o, v);
    }

    pub fn w32(&mut self, o: u32, v: u32)
        requires
            old(self).inv(),
        ensures
            final(self).inv(),
            final(self)@ == old(self)@.w32(o, v),
    {
        self.need(o, 4);
        self.heap.p32(o, v);
    }

    fn head(&self, i: u32) -> (n: u32)
        requires
            self.inv(),
        ensures
            n == self@.head(i),
    {
        if i < PPMD_NUM_INDEXES {
            self.free[i as usize]
        } else {
            0
        }
    }

    pub fn insert_node(&mut self, node: u32, i: u32)
        requires
            old(self).inv(),
        ensures
            final(self).inv(),
            final(self)@ == old(self)@.inserted(node, i),
    {
        if i < PPMD_NUM_INDEXES {
            let head: u32 = self.free[i as usize];
            self.w32(node, head);
            self.free.set(i as usize, node);
        } else {
            self.err = true;
        }
    }

    fn remove_node(&mut self, i: u32) -> (node: u32)
        requires
            old(self).inv(),
        ensures
            final(self).inv(),
            final(self)@ == old(self)@.removed(i),
            node == old(self)@.head(i),
    {
        if i < PPMD_NUM_INDEXES {
            let node: u32 = self.free[i as usize];
            self.need(node, 4);
            let next: u32 = self.heap.g32(node);
            self.free.set(i as usize, next);
            node
        } else {
            self.err = true;
            0
        }
    }

    /// Puts units in lists.
    fn list_units(&mut self, ptr: u32, nu: u32)
        requires
            old(self).inv(),
        ensures
            final(self).inv(),
            final(self)@ == old(self)@.listed(ptr, nu),
    {
        let i: u32 = u2i(nu);
        if i2u(i) != nu {
            let j: u32 = i.wrapping_sub(1);
            let k: u32 = i2u(j);
            self.insert_node(
                ptr.wrapping_add(UNIT_SIZE.wrapping_mul(k)),
                nu.wrapping_sub(k).wrapping_sub(1),
            );
            self.insert_node(ptr, j);
        } else {
            self.insert_node(ptr, i);
        }
    }

    fn split_block(&mut self, ptr: u32, old_i: u32, new_i: u32)
        requires
            old(self).inv(),
        ensures
            final(self).inv(),
            final(self)@ == old(self)@.split(ptr, old_i, new_i),
    {
        let n: u32 = i2u(new_i);
        self.list_units(ptr.wrapping_add(UNIT_SIZE.wrapping_mul(n)), i2u(old_i).wrapping_sub(n));
    }

    /// Chains the blocks of one list in front of `first`; returns the new first
    /// block.
    fn chain_list(&mut self, first: u32, list: u32, nu: u32) -> (n: u32)
        requires
            old(self).inv(),
        ensures
            final(self).inv(),
            (final(self)@, n) == old(self)@.chained(first, list, nu, old(self)@.base.len()),
    {
        let mut n: u32 = first;
        let mut next: u32 = list;
        let mut fuel: usize = self.heap.len();
        while next != 0
            invariant
                self.inv(),
                self@.chained(n, next, nu, fuel as nat) == old(self)@.chained(
                    first,
                    list,
                    nu,
                    old(self)@.base.len(),
                ),
            decreases fuel,
        {
            if fuel == 0 {
                self.err = true;
                return n;
            }
            self.w32(next.wrapping_add(4), n);
            self.w32(n.wrapping_add(8), next);
            self.need(next, 4);
            n = next;
            next = self.heap.g32(n);
            self.w16(n, 0);
            self.w16(n.wrapping_add(2), nu);
            fuel = fuel - 1;
        }
        n
    }

    /// Chains the blocks of all lists.
    fn chain_all(&mut self, head: u32) -> (n: u32)
        requires
            old(self).inv(),
        ensures
            final(self).inv(),
            (final(self)@, n) == old(self)@.all_chained(head, 0),
    {
        let mut n: u32 = head;
        let mut i: u32 = 0;
        while i < PPMD_NUM_INDEXES
            invariant
                self.inv(),
                i <= PPMD_NUM_INDEXES,
                self@.all_chained(n, i) == old(self)@.all_chained(head, 0),
            decreases PPMD_NUM_INDEXES - i,
        {
            let next: u32 = self.free[i as usize];
            self.free.set(i as usize, 0);
            n = self.chain_list(n, next, i2u(i));
            i = i + 1;
        }
        n
    }

    /// Joins the blocks behind `node` to it.
    fn join_block(&mut self, node: u32, units: u32)
        requires
            old(self).inv(),
            units <= 0xFFFF,
        ensures
            final(self).inv(),
            final(self)@ == old(self)@.joined(node, units, old(self)@.base.len()),
    {
        let mut nu: u32 = units;
        let mut fuel: usize = self.heap.len();
        loop
            invariant
                self.inv(),
                nu <= 0xFFFF,
                self@.joined(node, nu, fuel as nat) == old(self)@.joined(
                    node,
                    units,
                    old(self)@.base.len(),
                ),
            decreases fuel,
        {
            let node2: u32 = node.wrapping_add(nu.wrapping_mul(UNIT_SIZE));
            self.need(node2, 4);
            let stamp: u32 = self.heap.g16(node2);
            let nu2: u32 = self.heap.g16(node2.wrapping_add(2));
            if stamp != 0 || nu + nu2 >= 0x1_0000 {
                return;
            }
            if fuel == 0 {
                self.err = true;
                return;
            }
            self.need(node2, 12);
            let prev: u32 = self.heap.g32(node2.wrapping_add(8));
            let next: u32 = self.heap.g32(node2.wrapping_add(4));
            self.w32(prev.wrapping_add(4), next);
            self.w32(next.wrapping_add(8), prev);
            nu = nu + nu2;
            self.w16(node.wrapping_add(2), nu);
            fuel = fuel - 1;
        }
    }

    /// Joins neighbours along the chain.
    fn join_all(&mut self, first: u32, head: u32)
        requires
            old(self).inv(),
        ensures
            final(self).inv(),
            final(self)@ == old(self)@.all_joined(first, head, old(self)@.base.len()),
    {
        let mut n: u32 = first;
        let mut fuel: usize = self.heap.len();
        while n != head && !self.err
            invariant
                self.inv(),
                self@.all_joined(n, head, fuel as nat) == old(self)@.all_joined(
                    first,
                    head,
                    old(self)@.base.len(),
                ),
            decreases fuel,
        {
            if fuel == 0 {
                self.err = true;
                return;
            }
            self.need(n, 12);
            let nu: u32 = self.heap.g16(n.wrapping_add(2));
            self.join_block(n, nu);
            n = self.heap.g32(n.wrapping_add(4));
            fuel = fuel - 1;
        }
    }

    /// Puts a block in lists.
    fn relist_block(&mut self, block: u32, units: u32)
        requires
            old(self).inv(),
        ensures
            final(self).inv(),
            final(self)@ == old(self)@.relisted(block, units),
    {
        let mut node: u32 = block;
        let mut nu: u32 = units;
        while nu > 128
            invariant
                self.inv(),
                self@.relisted(node, nu) == old(self)@.relisted(block, units),
            decreases nu,
        {
            self.insert_node(node, 37);
            nu = nu - 128;
            node = node.wrapping_add(1536);
        }
        self.list_units(node, nu);
    }

    /// Puts the blocks of the chain in lists.
    fn relist_all(&mut self, first: u32, head: u32)
        requires
            old(self).inv(),
        ensures
            final(self).inv(),
            final(self)@ == old(self)@.all_relisted(first, head, old(self)@.base.len()),
    {
        let mut n: u32 = first;
        let mut fuel: usize = self.heap.len();
        while n != head && !self.err
            invariant
                self.inv(),
                self@.all_relisted(n, head, fuel as nat) == old(self)@.all_relisted(
                    first,
                    head,
                    old(self)@.base.len(),
                ),
            decreases fuel,
        {
            if fuel == 0 {
                self.err = true;
                return;
            }
            self.need(n, 12);
            let next: u32 = self.heap.g32(n.wrapping_add(4));
            let nu: u32 = self.heap.g16(n.wrapping_add(2));
            self.relist_block(n, nu);
            n = next;
            fuel = fuel - 1;
        }
    }

    /// Joins neighbouring free blocks.
    fn glue_free_blocks(&mut self)
        requires
            old(self).inv(),
        ensures
            final(self).inv(),
            final(self)@ == old(self)@.glued(),
    {
        let head: u32 = self.r.align_offset.wrapping_add(self.r.size);
        self.r.glue_count = 255;
        let n: u32 = self.chain_all(head);
        self.w16(head, 1);
        self.w32(head.wrapping_add(4), n);
        self.w32(n.wrapping_add(8), head);
        if self.r.lo_unit != self.r.hi_unit {
            self.w16(self.r.lo_unit, 1);
        }
        let first: u32 = self.heap.g32(head.wrapping_add(4));
        self.join_all(first, head);
        let first: u32 = self.heap.g32(head.wrapping_add(4));
        self.relist_all(first, head);
    }

    /// Takes a block from a list of longer ones, or from below the first block.
    fn alloc_from_longer(&mut self, i: u32) -> (block: u32)
        requires
            old(self).inv(),
        ensures
            final(self).inv(),
            (final(self)@, block) == old(self)@.from_longer(i),
    {
        let mut j: u32 = i.wrapping_add(1);
        while j < PPMD_NUM_INDEXES && self.free[j as usize] == 0
            invariant
                self.inv(),
                self@ == old(self)@,
                self@.filled_from(j) == self@.filled_from(i.wrapping_add(1)),
            decreases PPMD_NUM_INDEXES - j,
        {
            j = j + 1;
        }
        if j >= PPMD_NUM_INDEXES {
            let n: u32 = UNIT_SIZE.wrapping_mul(i2u(i));
            self.r.glue_count = self.r.glue_count.wrapping_sub(1);
            if self.r.units_start.wrapping_sub(self.r.text) > n {
                self.r.units_start = self.r.units_start.wrapping_sub(n);
                return self.r.units_start;
            }
            return 0;
        }
        let block: u32 = self.remove_node(j);
        self.split_block(block, j, i);
        block
    }

    pub fn alloc_units_rare(&mut self, i: u32) -> (block: u32)
        requires
            old(self).inv(),
        ensures
            final(self).inv(),
            (final(self)@, block) == old(self)@.allocated_rare(i),
    {
        if self.r.glue_count == 0 {
            self.glue_free_blocks();
            if self.head(i) != 0 {
                return self.remove_node(i);
            }
        }
        self.alloc_from_longer(i)
    }

    pub fn alloc_units(&mut self, i: u32) -> (block: u32)
        requires
            old(self).inv(),
        ensures
            final(self).inv(),
            (final(self)@, block) == old(self)@.allocated(i),
    {
        if self.head(i) != 0 {
            return self.remove_node(i);
        }
        let n: u32 = UNIT_SIZE.wrapping_mul(i2u(i));
        if n <= self.r.hi_unit.wrapping_sub(self.r.lo_unit) {
            let block: u32 = self.r.lo_unit;
            self.r.lo_unit = block.wrapping_add(n);
            return block;
        }
        self.alloc_units_rare(i)
    }

    /// Takes memory for a context.
    pub fn alloc_context(&mut self) -> (block: u32)
        requires
            old(self).inv(),
        ensures
            final(self).inv(),
            (final(self)@, block) == old(self)@.context_allocated(),
    {
        if self.r.hi_unit != self.r.lo_unit {
            self.r.hi_unit = self.r.hi_unit.wrapping_sub(UNIT_SIZE);
            self.r.hi_unit
        } else if self.head(0) != 0 {
            self.remove_node(0)
        } else {
            self.alloc_units_rare(0)
        }
    }

    pub fn copy_units(&mut self, dst: u32, src: u32, nu: u32)
        requires
            old(self).inv(),
        ensures
            final(self).inv(),
            final(self)@ == old(self)@.units_copied(dst, src, nu),
    {
        let n: u64 = 12 * nu as u64;
        self.need(dst, n);
        self.need(src, n);
        self.heap.copy(dst, src, n);
    }

    pub fn shrink_units(&mut self, ptr: u32, old_nu: u32, new_nu: u32) -> (block: u32)
        requires
            old(self).inv(),
        ensures
            final(self).inv(),
            (final(self)@, block) == old(self)@.shrunk(ptr, old_nu, new_nu),
    {
        let i0: u32 = u2i(old_nu);
        let i1: u32 = u2i(new_nu);
        if i0 == i1 {
            return ptr;
        }
        if self.free[i1 as usize] != 0 {
            let block: u32 = self.remove_node(i1);
            self.copy_units(block, ptr, new_nu);
            self.insert_node(ptr, i0);
            block
        } else {
            self.split_block(ptr, i0, i1);
            ptr
        }
    }
}

/// The tables of a model have their sizes.
pub open spec fn m_ok(m: M) -> bool {
    &&& m.base.len() <= 0x7FFF_FFFF
    &&& m.free.len() == PPMD_NUM_INDEXES
    &&& m.see.len() == 400
    &&& m.bins.len() == 8192
    &&& m.r.hi_bits_flag <= 8
    &&& forall|i: int| 0 <= i < m.see.len() ==> (#[trigger] m.see[i]).shift <= 7
}

} // verus!
