//! The context model of PPMd, variant H.
//!
//! A context holds, for the symbols that followed it, their states: symbol,
//! frequency and successor. A context with one symbol holds its state in place of
//! the sum of frequencies and the list of states. Each context knows the one that is
//! shorter by a symbol.
//!
//! A symbol that the context does not know is coded by an escape and looked for in
//! shorter ones, where the symbols of the longer ones are left out.
//!
//! A context takes twelve bytes: number of symbols (2), sum of frequencies (2),
//! states (4), shorter context (4). A state takes six: symbol (1), frequency (1),
//! successor (4).
use vstd::prelude::*;

use super::allocator::{Ppmd7, Regs, See, M};
use super::heap::{g16, g32, g8, within, Heap};
use super::range_dec::{Range, RangeDec};
use super::tables::{exp_escape, high_flag, index_of, init_bin_esc, row_of, suffix_class};
use super::tables::{hb2flag, k_exp_escape, k_init_bin_esc, ns2bsindx, ns2indx, u2i};
use super::tables::{PPMD_NUM_INDEXES, UNIT_SIZE};
use crate::error::Error;

verus! {

/// Above this frequency those of a context are halved.
pub const MAX_FREQ: u8 = 124;

/// The longest order.
pub const MAX_ORDER: usize = 64;

/// A condition as a number.
pub open spec fn one_if(b: bool) -> u32 {
    if b {
        1
    } else {
        0
    }
}

fn flag(b: bool) -> (v: u32)
    ensures
        v == one_if(b),
{
    if b {
        1
    } else {
        0
    }
}

/// Where the state of a context with one symbol stands.
pub open spec fn one_state(c: u32) -> u32 {
    c.wrapping_add(2)
}

/// What a walk to shorter contexts found.
pub enum Walk {
    /// A context that exists already.
    Ready {
        /// The context.
        c: u32,
    },
    /// Where to begin, and the states that want new contexts.
    Stop {
        /// The context to begin with.
        c: u32,
        /// The states.
        ps: Seq<u32>,
    },
    /// Too many.
    Fail,
}

impl M {
    /// The number of symbols of a context.
    pub open spec fn ns(self, c: u32) -> u32 {
        g16(self.base, c)
    }

    /// The sum of frequencies of a context.
    pub open spec fn sf(self, c: u32) -> u32 {
        g16(self.base, c.wrapping_add(2))
    }

    /// The states of a context.
    pub open spec fn stats(self, c: u32) -> u32 {
        g32(self.base, c.wrapping_add(4))
    }

    /// The shorter context.
    pub open spec fn suffix(self, c: u32) -> u32 {
        g32(self.base, c.wrapping_add(8))
    }

    /// The symbol of a state.
    pub open spec fn sym(self, s: u32) -> u8 {
        g8(self.base, s)
    }

    /// The frequency of a state.
    pub open spec fn freq(self, s: u32) -> u8 {
        g8(self.base, s.wrapping_add(1))
    }

    /// The successor of a state.
    pub open spec fn succ(self, s: u32) -> u32 {
        g32(self.base, s.wrapping_add(2))
    }

    /// The model with another sum of frequencies.
    pub open spec fn with_sf(self, c: u32, v: u32) -> M {
        self.w16(c.wrapping_add(2), v)
    }

    /// The model with more to a sum of frequencies.
    pub open spec fn more_sf(self, c: u32, d: u32) -> M {
        self.with_sf(c, self.sf(c).wrapping_add(d))
    }

    /// The model with another frequency.
    pub open spec fn with_freq(self, s: u32, v: u8) -> M {
        self.w8(s.wrapping_add(1), v)
    }

    /// The model with more to a frequency.
    pub open spec fn more_freq(self, s: u32, d: u8) -> M {
        self.with_freq(s, self.freq(s).wrapping_add(d))
    }

    /// The model with another successor.
    pub open spec fn with_succ(self, s: u32, v: u32) -> M {
        self.w32(s.wrapping_add(2), v)
    }

    /// The six bytes of a state: symbol and frequency, and successor.
    pub open spec fn state(self, s: u32) -> (u32, u32) {
        (g16(self.base, s), self.succ(s))
    }

    /// The model with another state.
    pub open spec fn with_state(self, s: u32, v: (u32, u32)) -> M {
        self.w16(s, v.0).with_succ(s, v.1)
    }

    /// The model with a state exchanged with the one before.
    pub open spec fn swapped(self, s: u32) -> M {
        let p = s.wrapping_sub(6);
        let m = self.need(s, 6).need(p, 6);
        m.with_state(s, m.state(p)).with_state(p, m.state(s))
    }

    /// The first state from `s` on that has the symbol.
    pub open spec fn found(self, s: u32, sym: u8) -> (M, u32)
        decreases self.base.len() - s,
    {
        if !within(self.base, s, 6) {
            (self.broken(), s)
        } else if self.sym(s) == sym {
            (self, s)
        } else if s > 0xFFFF_FFF0 {
            (self.broken(), s)
        } else {
            self.found((s + 6) as u32, sym)
        }
    }

    /// The model with the states of all symbols, from `i` on, at `s`.
    pub open spec fn with_alphabet(self, s: u32, i: u32) -> M
        decreases 256 - i,
    {
        if i >= 256 {
            self
        } else {
            self.w8(s, i as u8).with_freq(s, 1).with_succ(s, 0).with_alphabet(
                s.wrapping_add(6),
                (i + 1) as u32,
            )
        }
    }

    /// The model with nothing learned.
    #[verifier::opaque]
    pub open spec fn restarted(self) -> M {
        let end = self.r.align_offset.wrapping_add(self.r.size);
        let lo = end.wrapping_sub((self.r.size / 8 / 12 * 84) as u32);
        let mc = end.wrapping_sub(12);
        let mo = if self.r.max_order < 12 {
            self.r.max_order
        } else {
            12
        };
        let rl = (-1 - mo) as i32;
        let m = M {
            r: Regs {
                text: self.r.align_offset,
                lo_unit: lo.wrapping_add(1536),
                hi_unit: mc,
                units_start: lo,
                glue_count: 0,
                order_fall: self.r.max_order,
                run_length: rl,
                init_rl: rl,
                prev_success: 0,
                min_context: mc,
                max_context: mc,
                found_state: lo,
                ..self.r
            },
            free: Seq::new(PPMD_NUM_INDEXES as nat, |i: int| 0u32),
            see: Seq::new(
                400,
                |i: int| See { summ: ((5 * (i / 16) + 10) * 8) as u16, shift: 3, count: 4 },
            ),
            bins: Seq::new(
                8192,
                |i: int| (16384 - init_bin_esc(i % 8) / (i / 64 + 2)) as u16,
            ),
            ..self
        };
        m.w32(mc.wrapping_add(8), 0).w16(mc, 256).with_sf(mc, 257).w32(
            mc.wrapping_add(4),
            lo,
        ).with_alphabet(lo, 0)
    }

    /// The state of a symbol in a context.
    pub open spec fn state_in(self, c: u32, sym: u8) -> (M, u32) {
        let m = self.need(c, 12);
        if m.ns(c) != 1 {
            m.found(m.stats(c), sym)
        } else {
            (m, one_state(c))
        }
    }

    /// Goes to shorter contexts as long as the symbol leads to `up` there, and
    /// collects its states.
    pub open spec fn walked(self, c: u32, up: u32, sym: u8, ps: Seq<u32>) -> (M, Walk)
        decreases 65 - ps.len(),
    {
        let m = self.need(c, 12);
        let c2 = m.suffix(c);
        if c2 == 0 {
            (m, Walk::Stop { c, ps })
        } else {
            let (m, s) = m.state_in(c2, sym);
            let m = m.need(s, 6);
            let next = m.succ(s);
            if next != up {
                if ps.len() == 0 {
                    (m, Walk::Ready { c: next })
                } else {
                    (m, Walk::Stop { c: next, ps })
                }
            } else if ps.len() >= MAX_ORDER {
                (m.broken(), Walk::Fail)
            } else {
                m.walked(c2, up, sym, ps.push(s))
            }
        }
    }

    /// The frequency that the symbol gets in a new context: what it has in the
    /// shorter one `c`, in proportion.
    pub open spec fn inherited(self, c: u32, sym: u8) -> (M, u8) {
        let m = self.need(c, 12);
        if m.ns(c) == 1 {
            (m, m.freq(one_state(c)))
        } else {
            let (m, s) = m.found(m.stats(c), sym);
            let cf = (m.freq(s) as u32).wrapping_sub(1);
            let s0 = m.sf(c).wrapping_sub(m.ns(c)).wrapping_sub(cf);
            let twice = cf.wrapping_mul(2);
            if twice <= s0 {
                (m, (1 + one_if(cf.wrapping_mul(5) > s0)) as u8)
            } else {
                let d = s0.wrapping_mul(2);
                if d == 0 {
                    (m.broken(), 0)
                } else {
                    let q = twice.wrapping_add(s0.wrapping_mul(3)).wrapping_sub(1) / d;
                    (m, (q.wrapping_add(1) % 256) as u8)
                }
            }
        }
    }

    /// The model with new contexts of one symbol for the states, the shortest, which
    /// is the last, above `c`; and the longest of them.
    pub open spec fn built(self, c: u32, ps: Seq<u32>, sym: u8, freq: u8, succ: u32) -> (
        M,
        Option<u32>,
    )
        decreases ps.len(),
    {
        if ps.len() == 0 {
            (self, Some(c))
        } else {
            let (m, c1) = self.context_allocated();
            if c1 == 0 {
                (m, None)
            } else {
                let os = one_state(c1);
                m.w16(c1, 1).w8(os, sym).with_freq(os, freq).with_succ(os, succ).w32(
                    c1.wrapping_add(8),
                    c,
                ).with_succ(ps.last(), c1).built(c1, ps.drop_last(), sym, freq, succ)
            }
        }
    }

    /// The context that the last symbol leads to, made where it is not there yet;
    /// none where memory has run out.
    #[verifier::opaque]
    pub open spec fn successors(self, skip: bool) -> (M, Option<u32>) {
        let f = self.r.found_state;
        let m = self.need(f, 6);
        let up = m.succ(f);
        let (m, w) = m.walked(
            m.r.min_context,
            up,
            m.sym(f),
            if skip {
                Seq::empty()
            } else {
                seq![f]
            },
        );
        match w {
            Walk::Fail => (m, None),
            Walk::Ready { c } => (m, Some(c)),
            Walk::Stop { c, ps } => {
                let m = m.need(up, 1);
                let sym = m.sym(up);
                let (m, freq) = m.inherited(c, sym);
                m.built(c, ps, sym, freq, up.wrapping_add(1))
            },
        }
    }

    /// The model with the symbol more frequent in the context `c`, moved ahead of an
    /// equally frequent one.
    #[verifier::opaque]
    pub open spec fn bumped(self, c: u32, sym: u8) -> M {
        let m = self.need(c, 12);
        if m.ns(c) == 1 {
            let s = one_state(c);
            if m.freq(s) < 32 {
                m.more_freq(s, 1)
            } else {
                m
            }
        } else {
            let first = m.stats(c);
            let (m, s) = m.found(first, sym);
            let p = s.wrapping_sub(6);
            let m = if s != first {
                m.need(p, 6)
            } else {
                m
            };
            let (m, s) = if s != first && m.freq(s) >= m.freq(p) {
                (m.swapped(s), p)
            } else {
                (m, s)
            };
            if m.freq(s) < 115 {
                m.more_freq(s, 2).more_sf(c, 2)
            } else {
                m
            }
        }
    }

    /// The model with room for one more state in a context of several; whether there
    /// was memory.
    #[verifier::opaque]
    pub open spec fn widened(self, c: u32, ns1: u32, ns: u32) -> (M, bool) {
        let nu = ns1 / 2;
        let i = index_of(nu);
        let (m, ok) = if ns1 % 2 == 0 && i != index_of(nu.wrapping_add(1)) {
            let (m, ptr) = self.allocated(i.wrapping_add(1));
            if ptr == 0 {
                (m, false)
            } else {
                let old = m.stats(c);
                (m.units_copied(ptr, old, nu).inserted(old, i).w32(c.wrapping_add(4), ptr), true)
            }
        } else {
            (self, true)
        };
        let add = one_if(2 * ns1 < ns) + (if 4 * ns1 <= ns && m.sf(c) <= 8 * ns1 {
            2u32
        } else {
            0u32
        });
        (
            if ok {
                m.more_sf(c, add as u32)
            } else {
                m
            },
            ok,
        )
    }

    /// The model with the state of a context of one symbol in a list; whether there
    /// was memory.
    #[verifier::opaque]
    pub open spec fn unbound(self, c: u32, ns: u32) -> (M, bool) {
        let (m, s) = self.allocated(0);
        if s == 0 {
            (m, false)
        } else {
            let m = m.with_state(s, m.state(one_state(c))).w32(c.wrapping_add(4), s);
            let fr = m.freq(s);
            let fr: u8 = if fr < 30 {
                (2 * fr) as u8
            } else {
                120
            };
            (
                m.with_freq(s, fr).with_sf(
                    c,
                    (fr as u32).wrapping_add(m.r.init_esc).wrapping_add(one_if(ns > 3)),
                ),
                true,
            )
        }
    }
}

/// What a symbol that is added to contexts brings along.
pub struct News {
    /// The symbol.
    pub sym: u8,
    /// Its frequency where it was found.
    pub freq: u8,
    /// The successor.
    pub succ: u32,
    /// The number of symbols where it was found.
    pub ns: u32,
    /// The frequency of the other symbols there.
    pub s0: u32,
}

/// The frequency of an added symbol, and how much the sum grows.
pub open spec fn added_freq(w: News, sf0: u32) -> (u32, u32) {
    let cf = (2 * w.freq as u32 as int) as u32;
    let cf = cf.wrapping_mul(sf0.wrapping_add(6));
    let sf = w.s0.wrapping_add(sf0);
    if cf < sf.wrapping_mul(6) {
        ((1 + one_if(cf > sf) + one_if(cf >= sf.wrapping_mul(4))) as u32, 3)
    } else {
        let n = (4 + one_if(cf >= sf.wrapping_mul(9)) + one_if(cf >= sf.wrapping_mul(12)) + one_if(
            cf >= sf.wrapping_mul(15),
        )) as u32;
        (n, n)
    }
}

impl M {
    /// The model with a symbol added to the context `c`; whether there was memory.
    #[verifier::opaque]
    pub open spec fn extended(self, c: u32, w: News) -> (M, bool) {
        let m = self.need(c, 12);
        let ns1 = m.ns(c);
        let (m, ok) = if ns1 != 1 {
            m.widened(c, ns1, w.ns)
        } else {
            m.unbound(c, w.ns)
        };
        if !ok {
            (m, false)
        } else {
            let (freq, more) = added_freq(w, m.sf(c));
            let m = m.more_sf(c, more);
            let s = m.stats(c).wrapping_add(ns1.wrapping_mul(6));
            (
                m.with_succ(s, w.succ).w8(s, w.sym).with_freq(s, freq as u8).w16(
                    c,
                    ns1.wrapping_add(1),
                ),
                true,
            )
        }
    }

    /// The model with a symbol added to the contexts from `c` down to the one that is
    /// used; whether that came about.
    pub open spec fn all_extended(self, c: u32, w: News, fuel: nat) -> (M, bool)
        decreases fuel,
    {
        if c == self.r.min_context {
            (self, true)
        } else if fuel == 0 {
            (self.broken(), false)
        } else {
            let (m, ok) = self.extended(c, w);
            if !ok {
                (m.restarted(), false)
            } else if m.err {
                (m, false)
            } else {
                m.all_extended(m.suffix(c), w, (fuel - 1) as nat)
            }
        }
    }

    /// The model with the last symbol at the end of the text, and the contexts for
    /// what follows. `f` is the successor of the last symbol.
    #[verifier::opaque]
    pub open spec fn grown(self, sym: u8, freq: u8, f: u32) -> M {
        let m = self.w8(self.r.text, sym);
        let text = self.r.text.wrapping_add(1);
        let m = M { r: Regs { text, ..m.r }, ..m };
        if text >= m.r.units_start {
            m.restarted()
        } else {
            let (m, next, ok) = if f == 0 {
                (m.with_succ(m.r.found_state, text), m.r.min_context, true)
            } else if f <= text {
                let (m, o) = m.successors(false);
                match o {
                    Some(c) => (m, c, true),
                    None => (m.restarted(), 0u32, false),
                }
            } else {
                (m, f, true)
            };
            if !ok {
                m
            } else {
                let fall = if f == 0 {
                    m.r.order_fall
                } else {
                    m.r.order_fall.wrapping_sub(1)
                };
                let full = f != 0 && fall == 0;
                let m = M {
                    r: Regs {
                        order_fall: fall,
                        text: if full && m.r.max_context != m.r.min_context {
                            m.r.text.wrapping_sub(1)
                        } else {
                            m.r.text
                        },
                        ..m.r
                    },
                    ..m
                };
                let mc = m.r.min_context;
                let m = m.need(mc, 12);
                let ns = m.ns(mc);
                let w = News {
                    sym,
                    freq,
                    succ: if full {
                        next
                    } else {
                        text
                    },
                    ns,
                    s0: m.sf(mc).wrapping_sub(ns).wrapping_sub((freq as u32).wrapping_sub(1)),
                };
                let (m, ok) = m.all_extended(m.r.max_context, w, m.base.len());
                if ok {
                    M { r: Regs { min_context: next, max_context: next, ..m.r }, ..m }
                } else {
                    m
                }
            }
        }
    }

    /// The model after the last symbol: it counts in the shorter context too, and the
    /// contexts that did not know it learn it.
    #[verifier::opaque]
    pub open spec fn updated(self) -> M {
        let f = self.r.found_state;
        let m = self.need(f, 6);
        let next = m.succ(f);
        let sym = m.sym(f);
        let freq = m.freq(f);
        let m = m.need(m.r.min_context, 12);
        let suffix = m.suffix(m.r.min_context);
        let m = if freq < 31 && suffix != 0 {
            m.bumped(suffix, sym)
        } else {
            m
        };
        if m.r.order_fall == 0 {
            let (m, o) = m.successors(true);
            match o {
                Some(c) => M {
                    r: Regs { min_context: c, max_context: c, ..m.r },
                    ..m.with_succ(m.r.found_state, c)
                },
                None => m.restarted(),
            }
        } else {
            m.grown(sym, freq, next)
        }
    }

    /// The model in the context that follows.
    pub open spec fn followed(self) -> M {
        let f = self.r.found_state;
        let m = self.need(f, 6);
        let c = m.succ(f);
        if m.r.order_fall == 0 && c > m.r.text {
            M { r: Regs { min_context: c, max_context: c, ..m.r }, ..m }
        } else {
            m.updated()
        }
    }
}

impl Ppmd7 {
    fn ns(&self, c: u32) -> (n: u32)
        ensures
            n == self@.ns(c),
            n <= 0xFFFF,
    {
        self.heap.g16(c)
    }

    fn sf(&self, c: u32) -> (n: u32)
        ensures
            n == self@.sf(c),
            n <= 0xFFFF,
    {
        self.heap.g16(c.wrapping_add(2))
    }

    fn stats(&self, c: u32) -> (n: u32)
        ensures
            n == self@.stats(c),
    {
        self.heap.g32(c.wrapping_add(4))
    }

    fn suffix(&self, c: u32) -> (n: u32)
        ensures
            n == self@.suffix(c),
    {
        self.heap.g32(c.wrapping_add(8))
    }

    fn sym(&self, s: u32) -> (b: u8)
        ensures
            b == self@.sym(s),
    {
        self.heap.g8(s)
    }

    fn freq(&self, s: u32) -> (b: u8)
        ensures
            b == self@.freq(s),
    {
        self.heap.g8(s.wrapping_add(1))
    }

    fn succ(&self, s: u32) -> (n: u32)
        ensures
            n == self@.succ(s),
    {
        self.heap.g32(s.wrapping_add(2))
    }

    fn set_sf(&mut self, c: u32, v: u32)
        requires
            old(self).inv(),
        ensures
            final(self).inv(),
            final(self)@ == old(self)@.with_sf(c, v),
    {
        self.w16(c.wrapping_add(2), v);
    }

    fn add_sf(&mut self, c: u32, d: u32)
        requires
            old(self).inv(),
        ensures
            final(self).inv(),
            final(self)@ == old(self)@.more_sf(c, d),
    {
        let v: u32 = self.sf(c).wrapping_add(d);
        self.set_sf(c, v);
    }

    fn set_freq(&mut self, s: u32, v: u8)
        requires
            old(self).inv(),
        ensures
            final(self).inv(),
            final(self)@ == old(self)@.with_freq(s, v),
    {
        self.w8(s.wrapping_add(1), v);
    }

    fn add_freq(&mut self, s: u32, d: u8)
        requires
            old(self).inv(),
        ensures
            final(self).inv(),
            final(self)@ == old(self)@.more_freq(s, d),
    {
        let v: u8 = self.freq(s).wrapping_add(d);
        self.set_freq(s, v);
    }

    fn set_succ(&mut self, s: u32, v: u32)
        requires
            old(self).inv(),
        ensures
            final(self).inv(),
            final(self)@ == old(self)@.with_succ(s, v),
    {
        self.w32(s.wrapping_add(2), v);
    }

    fn state(&self, s: u32) -> (v: (u32, u32))
        ensures
            v == self@.state(s),
    {
        (self.heap.g16(s), self.succ(s))
    }

    fn set_state(&mut self, s: u32, v: (u32, u32))
        requires
            old(self).inv(),
        ensures
            final(self).inv(),
            final(self)@ == old(self)@.with_state(s, v),
    {
        self.w16(s, v.0);
        self.set_succ(s, v.1);
    }

    /// Exchanges a state with the one before.
    fn st_swap(&mut self, s: u32)
        requires
            old(self).inv(),
        ensures
            final(self).inv(),
            final(self)@ == old(self)@.swapped(s),
    {
        let p: u32 = s.wrapping_sub(6);
        self.need(s, 6);
        self.need(p, 6);
        let a: (u32, u32) = self.state(s);
        let b: (u32, u32) = self.state(p);
        self.set_state(s, b);
        self.set_state(p, a);
    }

    /// The first state from `from` on that has the symbol.
    fn find(&mut self, from: u32, sym: u8) -> (s: u32)
        requires
            old(self).inv(),
        ensures
            final(self).inv(),
            (final(self)@, s) == old(self)@.found(from, sym),
    {
        let mut s: u32 = from;
        loop
            invariant
                self.inv(),
                self@ == old(self)@,
                self@.found(s, sym) == old(self)@.found(from, sym),
            decreases self@.base.len() - s,
        {
            if !self.heap.has(s, 6) {
                self.err = true;
                return s;
            }
            if self.sym(s) == sym {
                return s;
            }
            s = s + 6;
        }
    }

    /// Forgets everything.
    fn restart_model(&mut self)
        requires
            old(self).inv(),
        ensures
            final(self).inv(),
            final(self)@ == old(self)@.restarted(),
    {
        reveal(M::restarted);
        let end: u32 = self.r.align_offset.wrapping_add(self.r.size);
        let lo: u32 = end.wrapping_sub(self.r.size / 8 / 12 * 84);
        let mc: u32 = end.wrapping_sub(12);
        let mo: u32 = if self.r.max_order < 12 {
            self.r.max_order
        } else {
            12
        };
        let rl: i32 = -1 - mo as i32;
        self.r.text = self.r.align_offset;
        self.r.lo_unit = lo.wrapping_add(1536);
        self.r.hi_unit = mc;
        self.r.units_start = lo;
        self.r.glue_count = 0;
        self.r.order_fall = self.r.max_order;
        self.r.run_length = rl;
        self.r.init_rl = rl;
        self.r.prev_success = 0;
        self.r.min_context = mc;
        self.r.max_context = mc;
        self.r.found_state = lo;
        self.free = vec![0u32;38];
        self.see = fresh_see();
        self.bins = fresh_bins();
        assert(self.free@ =~= Seq::new(PPMD_NUM_INDEXES as nat, |i: int| 0u32));
        self.w32(mc.wrapping_add(8), 0);
        self.w16(mc, 256);
        self.set_sf(mc, 257);
        self.w32(mc.wrapping_add(4), lo);
        let ghost begun = self@;
        let mut s: u32 = lo;
        let mut i: u32 = 0;
        while i < 256
            invariant
                self.inv(),
                i <= 256,
                self@.with_alphabet(s, i) == begun.with_alphabet(lo, 0),
            decreases 256 - i,
        {
            self.w8(s, i as u8);
            self.set_freq(s, 1);
            self.set_succ(s, 0);
            s = s.wrapping_add(6);
            i = i + 1;
        }
    }

    /// The state of a symbol in a context.
    fn find_in(&mut self, c: u32, sym: u8) -> (s: u32)
        requires
            old(self).inv(),
        ensures
            final(self).inv(),
            (final(self)@, s) == old(self)@.state_in(c, sym),
    {
        self.need(c, 12);
        if self.ns(c) != 1 {
            let first: u32 = self.stats(c);
            self.find(first, sym)
        } else {
            c.wrapping_add(2)
        }
    }

    /// The frequency that the symbol gets in a new context.
    fn inherited_freq(&mut self, c: u32, sym: u8) -> (f: u8)
        requires
            old(self).inv(),
        ensures
            final(self).inv(),
            (final(self)@, f) == old(self)@.inherited(c, sym),
    {
        self.need(c, 12);
        if self.ns(c) == 1 {
            return self.freq(c.wrapping_add(2));
        }
        let first: u32 = self.stats(c);
        let s: u32 = self.find(first, sym);
        let cf: u32 = (self.freq(s) as u32).wrapping_sub(1);
        let s0: u32 = self.sf(c).wrapping_sub(self.ns(c)).wrapping_sub(cf);
        let twice: u32 = cf.wrapping_mul(2);
        if twice <= s0 {
            return (1 + flag(cf.wrapping_mul(5) > s0)) as u8;
        }
        let d: u32 = s0.wrapping_mul(2);
        if d == 0 {
            self.err = true;
            return 0;
        }
        let q: u32 = twice.wrapping_add(s0.wrapping_mul(3)).wrapping_sub(1) / d;
        (q.wrapping_add(1) % 256) as u8
    }

    /// Makes the context that the last symbol leads to, where it is not there yet.
    fn create_successors(&mut self, skip: bool) -> (r: Option<u32>)
        requires
            old(self).inv(),
        ensures
            final(self).inv(),
            (final(self)@, r) == old(self)@.successors(skip),
    {
        reveal(M::successors);
        let f: u32 = self.r.found_state;
        self.need(f, 6);
        let up: u32 = self.succ(f);
        let sym: u8 = self.sym(f);
        let mut ps: Vec<u32> = Vec::new();
        if !skip {
            ps.push(f);
        }
        let ghost begun = self@;
        let ghost ps0 = ps@;
        let mut c: u32 = self.r.min_context;
        assert(ps0 =~= if skip {
            Seq::empty()
        } else {
            seq![f]
        });
        loop
            invariant_except_break
                ps@.len() <= MAX_ORDER,
                self@.walked(c, up, sym, ps@) == begun.walked(begun.r.min_context, up, sym, ps0),
            invariant
                self.inv(),
                old(self)@.successors(skip) == ({
                    let (m, w) = begun.walked(begun.r.min_context, up, sym, ps0);
                    match w {
                        Walk::Fail => (m, None),
                        Walk::Ready { c } => (m, Some(c)),
                        Walk::Stop { c, ps } => {
                            let m = m.need(up, 1);
                            let sym = m.sym(up);
                            let (m, freq) = m.inherited(c, sym);
                            m.built(c, ps, sym, freq, up.wrapping_add(1))
                        },
                    }
                }),
            ensures
                begun.walked(begun.r.min_context, up, sym, ps0) == (
                    self@,
                    Walk::Stop { c, ps: ps@ },
                ),
            decreases 65 - ps@.len(),
        {
            self.need(c, 12);
            let c2: u32 = self.suffix(c);
            if c2 == 0 {
                break;
            }
            let s: u32 = self.find_in(c2, sym);
            self.need(s, 6);
            let next: u32 = self.succ(s);
            if next != up {
                if ps.len() == 0 {
                    return Some(next);
                }
                c = next;
                break;
            }
            if ps.len() >= MAX_ORDER {
                self.err = true;
                return None;
            }
            ps.push(s);
            c = c2;
        }
        self.need(up, 1);
        let up_sym: u8 = self.sym(up);
        let freq: u8 = self.inherited_freq(c, up_sym);
        self.build(c, ps, up_sym, freq, up.wrapping_add(1))
    }

    /// Makes contexts of one symbol for the states.
    fn build(&mut self, above: u32, states: Vec<u32>, sym: u8, freq: u8, succ: u32) -> (r: Option<
        u32,
    >)
        requires
            old(self).inv(),
        ensures
            final(self).inv(),
            (final(self)@, r) == old(self)@.built(above, states@, sym, freq, succ),
    {
        let mut c: u32 = above;
        let mut n: usize = states.len();
        assert(states@.take(n as int) =~= states@);
        while n > 0
            invariant
                self.inv(),
                n <= states.len(),
                self@.built(c, states@.take(n as int), sym, freq, succ) == old(self)@.built(
                    above,
                    states@,
                    sym,
                    freq,
                    succ,
                ),
            decreases n,
        {
            let c1: u32 = self.alloc_context();
            if c1 == 0 {
                return None;
            }
            let os: u32 = c1.wrapping_add(2);
            self.w16(c1, 1);
            self.w8(os, sym);
            self.set_freq(os, freq);
            self.set_succ(os, succ);
            self.w32(c1.wrapping_add(8), c);
            n = n - 1;
            assert(states@.take(n + 1).drop_last() =~= states@.take(n as int));
            self.set_succ(states[n], c1);
            c = c1;
        }
        Some(c)
    }

    /// Makes the symbol more frequent in the context `c`.
    fn bump(&mut self, c: u32, sym: u8)
        requires
            old(self).inv(),
        ensures
            final(self).inv(),
            final(self)@ == old(self)@.bumped(c, sym),
    {
        reveal(M::bumped);
        self.need(c, 12);
        if self.ns(c) == 1 {
            let s: u32 = c.wrapping_add(2);
            if self.freq(s) < 32 {
                self.add_freq(s, 1);
            }
            return;
        }
        let first: u32 = self.stats(c);
        let mut s: u32 = self.find(first, sym);
        if s != first {
            let p: u32 = s.wrapping_sub(6);
            self.need(p, 6);
            if self.freq(s) >= self.freq(p) {
                self.st_swap(s);
                s = p;
            }
        }
        if self.freq(s) < 115 {
            self.add_freq(s, 2);
            self.add_sf(c, 2);
        }
    }

    /// Makes room for one more state in a context of several.
    fn widen(&mut self, c: u32, ns1: u32, ns: u32) -> (ok: bool)
        requires
            old(self).inv(),
            ns1 <= 0xFFFF,
            ns <= 0xFFFF,
        ensures
            final(self).inv(),
            (final(self)@, ok) == old(self)@.widened(c, ns1, ns),
    {
        reveal(M::widened);
        if ns1 % 2 == 0 {
            let nu: u32 = ns1 / 2;
            let i: u32 = u2i(nu);
            if i != u2i(nu.wrapping_add(1)) {
                let ptr: u32 = self.alloc_units(i.wrapping_add(1));
                if ptr == 0 {
                    return false;
                }
                let before: u32 = self.stats(c);
                self.copy_units(ptr, before, nu);
                self.insert_node(before, i);
                self.w32(c.wrapping_add(4), ptr);
            }
        }
        let mut add: u32 = flag(2 * ns1 < ns);
        if 4 * ns1 <= ns && self.sf(c) <= 8 * ns1 {
            add = add + 2;
        }
        self.add_sf(c, add);
        true
    }

    /// Moves the state of a context of one symbol to a list.
    fn unbind(&mut self, c: u32, ns: u32) -> (ok: bool)
        requires
            old(self).inv(),
        ensures
            final(self).inv(),
            (final(self)@, ok) == old(self)@.unbound(c, ns),
    {
        reveal(M::unbound);
        let s: u32 = self.alloc_units(0);
        if s == 0 {
            return false;
        }
        let only: (u32, u32) = self.state(c.wrapping_add(2));
        self.set_state(s, only);
        self.w32(c.wrapping_add(4), s);
        let fr: u8 = self.freq(s);
        let fr: u8 = if fr < 30 {
            2 * fr
        } else {
            120
        };
        self.set_freq(s, fr);
        let v: u32 = (fr as u32).wrapping_add(self.r.init_esc).wrapping_add(flag(ns > 3));
        self.set_sf(c, v);
        true
    }
}

/// Escape estimates at the start.
fn fresh_see() -> (v: Vec<See>)
    ensures
        v@ == Seq::new(
            400,
            |i: int| See { summ: ((5 * (i / 16) + 10) * 8) as u16, shift: 3, count: 4 },
        ),
{
    let mut v: Vec<See> = Vec::new();
    let mut i: u32 = 0;
    while i < 400
        invariant
            i <= 400,
            v@.len() == i,
            forall|k: int|
                0 <= k < i ==> #[trigger] v@[k] == (See {
                    summ: ((5 * (k / 16) + 10) * 8) as u16,
                    shift: 3,
                    count: 4,
                }),
        decreases 400 - i,
    {
        v.push(See { summ: ((5 * (i / 16) + 10) * 8) as u16, shift: 3, count: 4 });
        i = i + 1;
    }
    assert(v@ =~= Seq::new(
        400,
        |i: int| See { summ: ((5 * (i / 16) + 10) * 8) as u16, shift: 3, count: 4 },
    ));
    v
}

/// The chances of binary contexts at the start.
fn fresh_bins() -> (v: Vec<u16>)
    ensures
        v@ == Seq::new(8192, |i: int| (16384 - init_bin_esc(i % 8) / (i / 64 + 2)) as u16),
{
    let mut v: Vec<u16> = Vec::new();
    let mut i: u32 = 0;
    while i < 8192
        invariant
            i <= 8192,
            v@.len() == i,
            forall|k: int|
                0 <= k < i ==> #[trigger] v@[k] == (16384 - init_bin_esc(k % 8) / (k / 64
                    + 2)) as u16,
        decreases 8192 - i,
    {
        let e: u32 = k_init_bin_esc(i % 8);
        let d: u32 = i / 64 + 2;
        proof {
            assert(e / d <= e / 2) by (nonlinear_arith)
                requires
                    d >= 2,
                    e >= 0,
            ;
        }
        v.push((16384 - e / d) as u16);
        i = i + 1;
    }
    assert(v@ =~= Seq::new(8192, |i: int| (16384 - init_bin_esc(i % 8) / (i / 64 + 2)) as u16));
    v
}

impl Ppmd7 {
    /// Adds a symbol to the context `c`.
    fn extend(&mut self, c: u32, w: &News) -> (ok: bool)
        requires
            old(self).inv(),
            w.ns <= 0xFFFF,
        ensures
            final(self).inv(),
            (final(self)@, ok) == old(self)@.extended(c, *w),
    {
        reveal(M::extended);
        self.need(c, 12);
        let ns1: u32 = self.ns(c);
        let ok: bool = if ns1 != 1 {
            self.widen(c, ns1, w.ns)
        } else {
            self.unbind(c, w.ns)
        };
        if !ok {
            return false;
        }
        let sf0: u32 = self.sf(c);
        let cf: u32 = (2 * w.freq as u32).wrapping_mul(sf0.wrapping_add(6));
        let sf: u32 = w.s0.wrapping_add(sf0);
        let freq: u32;
        let more: u32;
        if cf < sf.wrapping_mul(6) {
            freq = 1 + flag(cf > sf) + flag(cf >= sf.wrapping_mul(4));
            more = 3;
        } else {
            freq = 4 + flag(cf >= sf.wrapping_mul(9)) + flag(cf >= sf.wrapping_mul(12)) + flag(
                cf >= sf.wrapping_mul(15),
            );
            more = freq;
        }
        assert((freq, more) == added_freq(*w, sf0));
        self.add_sf(c, more);
        let s: u32 = self.stats(c).wrapping_add(ns1.wrapping_mul(6));
        self.set_succ(s, w.succ);
        self.w8(s, w.sym);
        self.set_freq(s, freq as u8);
        self.w16(c, ns1.wrapping_add(1));
        true
    }

    /// Adds a symbol to the contexts from `first` down to the one that is used.
    fn extend_all(&mut self, first: u32, w: &News) -> (ok: bool)
        requires
            old(self).inv(),
            w.ns <= 0xFFFF,
        ensures
            final(self).inv(),
            (final(self)@, ok) == old(self)@.all_extended(first, *w, old(self)@.base.len()),
    {
        let mut c: u32 = first;
        let mut fuel: usize = self.heap.len();
        while c != self.r.min_context
            invariant
                self.inv(),
                w.ns <= 0xFFFF,
                self@.all_extended(c, *w, fuel as nat) == old(self)@.all_extended(
                    first,
                    *w,
                    old(self)@.base.len(),
                ),
            decreases fuel,
        {
            if fuel == 0 {
                self.err = true;
                return false;
            }
            if !self.extend(c, w) {
                self.restart_model();
                return false;
            }
            if self.err {
                return false;
            }
            c = self.suffix(c);
            fuel = fuel - 1;
        }
        true
    }

    /// Appends the last symbol to the text and makes the contexts for what follows.
    fn grow(&mut self, sym: u8, freq: u8, f: u32)
        requires
            old(self).inv(),
        ensures
            final(self).inv(),
            final(self)@ == old(self)@.grown(sym, freq, f),
    {
        reveal(M::grown);
        self.w8(self.r.text, sym);
        let text: u32 = self.r.text.wrapping_add(1);
        self.r.text = text;
        if text >= self.r.units_start {
            self.restart_model();
            return;
        }
        let mut next: u32 = f;
        let mut succ: u32 = text;
        if f != 0 {
            if f <= text {
                match self.create_successors(false) {
                    Some(c) => {
                        next = c;
                    },
                    None => {
                        self.restart_model();
                        return;
                    },
                }
            }
            self.r.order_fall = self.r.order_fall.wrapping_sub(1);
            if self.r.order_fall == 0 {
                succ = next;
                if self.r.max_context != self.r.min_context {
                    self.r.text = self.r.text.wrapping_sub(1);
                }
            }
        } else {
            self.set_succ(self.r.found_state, text);
            next = self.r.min_context;
        }
        let mc: u32 = self.r.min_context;
        self.need(mc, 12);
        let ns: u32 = self.ns(mc);
        let s0: u32 = self.sf(mc).wrapping_sub(ns).wrapping_sub((freq as u32).wrapping_sub(1));
        let w = News { sym, freq, succ, ns, s0 };
        if self.extend_all(self.r.max_context, &w) {
            self.r.max_context = next;
            self.r.min_context = next;
        }
    }

    /// Learns from the last symbol.
    fn update_model(&mut self)
        requires
            old(self).inv(),
        ensures
            final(self).inv(),
            final(self)@ == old(self)@.updated(),
    {
        reveal(M::updated);
        let f: u32 = self.r.found_state;
        self.need(f, 6);
        let next: u32 = self.succ(f);
        let sym: u8 = self.sym(f);
        let freq: u8 = self.freq(f);
        self.need(self.r.min_context, 12);
        let suffix: u32 = self.suffix(self.r.min_context);
        if freq < 31 && suffix != 0 {
            self.bump(suffix, sym);
        }
        if self.r.order_fall == 0 {
            match self.create_successors(true) {
                Some(c) => {
                    self.set_succ(self.r.found_state, c);
                    self.r.min_context = c;
                    self.r.max_context = c;
                },
                None => {
                    self.restart_model();
                },
            }
            return;
        }
        self.grow(sym, freq, next);
    }

    /// Goes to the context that follows.
    fn next_context(&mut self)
        requires
            old(self).inv(),
        ensures
            final(self).inv(),
            final(self)@ == old(self)@.followed(),
    {
        let f: u32 = self.r.found_state;
        self.need(f, 6);
        let c: u32 = self.succ(f);
        if self.r.order_fall == 0 && c > self.r.text {
            self.r.min_context = c;
            self.r.max_context = c;
        } else {
            self.update_model();
        }
    }
}

impl M {
    /// The model with the states before `s`, down to `first`, one place further, and
    /// the place that has become free.
    pub open spec fn shifted(self, s: u32, first: u32, fuel: nat) -> (M, u32)
        decreases fuel,
    {
        if s == first {
            (self, s)
        } else if fuel == 0 {
            (self.broken(), s)
        } else {
            let p = s.wrapping_sub(6);
            let m = self.need(p, 6);
            m.with_state(s, m.state(p)).shifted(p, first, (fuel - 1) as nat)
        }
    }

    /// The model with the states before `s` that are less frequent than `freq` one
    /// place further, and the place that has become free.
    pub open spec fn sunk(self, s: u32, first: u32, freq: u32, fuel: nat) -> (M, u32)
        decreases fuel,
    {
        let p = s.wrapping_sub(6);
        let m = self.need(p, 6);
        let m = m.with_state(s, m.state(p));
        if p == first || freq <= m.freq(p.wrapping_sub(6)) {
            (m, p)
        } else if fuel == 0 {
            (m.broken(), p)
        } else {
            m.sunk(p, first, freq, (fuel - 1) as nat)
        }
    }
}

/// Half of a frequency, rounded up where `adder` is one.
pub open spec fn halved(f: u8, adder: u32) -> u8 {
    ((f + adder) / 2) as u8
}

/// The sums while the frequencies of a context are halved: of what is left for
/// escapes, and of the new ones.
pub struct Sums {
    /// The state that was halved last.
    pub s: u32,
    /// What is left for escapes.
    pub esc: u32,
    /// The sum of the new frequencies.
    pub sum: u32,
}

impl M {
    /// The model with the frequency of the next state halved, the state moved to its
    /// place.
    #[verifier::opaque]
    pub open spec fn rescaled_one(self, first: u32, adder: u32, q: Sums) -> (M, Sums) {
        let s = q.s.wrapping_add(6);
        let m = self.need(s, 6);
        let f = m.freq(s);
        let nf = halved(f, adder);
        let m = m.with_freq(s, nf);
        let q = Sums {
            s,
            esc: q.esc.wrapping_sub(f as u32),
            sum: q.sum.wrapping_add(nf as u32),
        };
        if nf > m.freq(s.wrapping_sub(6)) {
            let v = m.state(s);
            let (m, to) = m.sunk(s, first, nf as u32, m.base.len());
            (m.with_state(to, v), q)
        } else {
            (m, q)
        }
    }

    /// The model with the frequencies of `n` more states halved.
    pub open spec fn rescaled_rest(self, first: u32, adder: u32, q: Sums, n: u32) -> (M, Sums)
        decreases n,
    {
        if n == 0 || self.err {
            (self, q)
        } else {
            let (m, q) = self.rescaled_one(first, adder, q);
            m.rescaled_rest(first, adder, q, (n - 1) as u32)
        }
    }

    /// How many states from `s` down have no frequency left.
    pub open spec fn zeros(self, s: u32, n: u32, fuel: nat) -> (M, u32)
        decreases fuel,
    {
        let p = s.wrapping_sub(6);
        let m = self.need(p, 6);
        if m.freq(p) != 0 {
            (m, n.wrapping_add(1))
        } else if fuel == 0 {
            (m.broken(), n.wrapping_add(1))
        } else {
            m.zeros(p, n.wrapping_add(1), (fuel - 1) as nat)
        }
    }
}

/// The frequency of the only symbol that is left, halved as often as what is left for
/// escapes has to be.
pub open spec fn decayed(f: u8, esc: u32) -> u8
    decreases esc,
{
    let nf = (f - f / 2) as u8;
    if esc / 2 <= 1 {
        nf
    } else {
        decayed(nf, esc / 2)
    }
}

impl M {
    /// The model with states without frequency dropped; whether one symbol is left.
    #[verifier::opaque]
    pub open spec fn trimmed(self, mc: u32, first: u32, q: Sums) -> (M, u32, bool) {
        let (m, n) = self.zeros(q.s, 0, self.base.len());
        let esc = q.esc.wrapping_add(n);
        let old_ns = m.ns(mc);
        let ns = old_ns.wrapping_sub(n);
        let m = m.w16(mc, ns);
        let n0 = old_ns.wrapping_add(1) / 2;
        let n1 = ns.wrapping_add(1) / 2;
        if ns == 1 {
            let m = m.need(first, 6);
            let v = m.state(first);
            let f = decayed((v.0 / 256 % 256) as u8, esc);
            let m = m.inserted(first, index_of(n0));
            let os = one_state(mc);
            let m = M { r: Regs { found_state: os, ..m.r }, ..m };
            (m.with_state(os, ((v.0 % 256 + 256 * f) as u32, v.1)), esc, true)
        } else if n0 != n1 {
            let (m, p) = m.shrunk(first, n0, n1);
            (m.w32(mc.wrapping_add(4), p), esc, false)
        } else {
            (m, esc, false)
        }
    }

    /// The model with the last symbol at the front of its context, and the
    /// frequencies there halved.
    #[verifier::opaque]
    pub open spec fn rescaled(self) -> M {
        let mc = self.r.min_context;
        let m = self.need(mc, 12);
        let first = m.stats(mc);
        let m = m.need(m.r.found_state, 6);
        let v = m.state(m.r.found_state);
        let (m, s) = m.shifted(m.r.found_state, first, m.base.len());
        let m = m.with_state(s, v);
        let esc = m.sf(mc).wrapping_sub(m.freq(s) as u32);
        let m = m.more_freq(s, 4);
        let adder = one_if(m.r.order_fall != 0);
        let nf = halved(m.freq(s), adder);
        let m = m.with_freq(s, nf);
        let (m, q) = m.rescaled_rest(
            first,
            adder,
            Sums { s, esc, sum: nf as u32 },
            m.ns(mc).wrapping_sub(1),
        );
        let (m, esc, one) = if m.freq(q.s) == 0 {
            m.trimmed(mc, first, q)
        } else {
            (m, q.esc, false)
        };
        if one {
            m
        } else {
            let m = m.with_sf(mc, q.sum.wrapping_add(esc).wrapping_sub(esc / 2));
            M { r: Regs { found_state: m.stats(mc), ..m.r }, ..m }
        }
    }
}

impl Ppmd7 {
    /// Moves the states before `from`, down to `first`, one place further.
    fn shift_states(&mut self, from: u32, first: u32) -> (s: u32)
        requires
            old(self).inv(),
        ensures
            final(self).inv(),
            (final(self)@, s) == old(self)@.shifted(from, first, old(self)@.base.len()),
    {
        let mut s: u32 = from;
        let mut fuel: usize = self.heap.len();
        while s != first
            invariant
                self.inv(),
                self@.shifted(s, first, fuel as nat) == old(self)@.shifted(
                    from,
                    first,
                    old(self)@.base.len(),
                ),
            decreases fuel,
        {
            if fuel == 0 {
                self.err = true;
                return s;
            }
            let p: u32 = s.wrapping_sub(6);
            self.need(p, 6);
            let v: (u32, u32) = self.state(p);
            self.set_state(s, v);
            s = p;
            fuel = fuel - 1;
        }
        s
    }

    /// Moves the states before `from` that are less frequent one place further.
    fn sink_state(&mut self, from: u32, first: u32, freq: u32) -> (s: u32)
        requires
            old(self).inv(),
        ensures
            final(self).inv(),
            (final(self)@, s) == old(self)@.sunk(from, first, freq, old(self)@.base.len()),
    {
        let mut s: u32 = from;
        let mut fuel: usize = self.heap.len();
        loop
            invariant
                self.inv(),
                self@.sunk(s, first, freq, fuel as nat) == old(self)@.sunk(
                    from,
                    first,
                    freq,
                    old(self)@.base.len(),
                ),
            decreases fuel,
        {
            let p: u32 = s.wrapping_sub(6);
            self.need(p, 6);
            let v: (u32, u32) = self.state(p);
            self.set_state(s, v);
            if p == first || freq <= self.freq(p.wrapping_sub(6)) as u32 {
                return p;
            }
            if fuel == 0 {
                self.err = true;
                return p;
            }
            s = p;
            fuel = fuel - 1;
        }
    }

    /// Halves the frequency of the next state and moves it to its place.
    fn rescale_one(&mut self, first: u32, adder: u32, q: Sums) -> (r: Sums)
        requires
            old(self).inv(),
            adder <= 1,
        ensures
            final(self).inv(),
            (final(self)@, r) == old(self)@.rescaled_one(first, adder, q),
    {
        reveal(M::rescaled_one);
        let s: u32 = q.s.wrapping_add(6);
        self.need(s, 6);
        let f: u8 = self.freq(s);
        let nf: u8 = ((f as u32 + adder) / 2) as u8;
        self.set_freq(s, nf);
        let r = Sums {
            s,
            esc: q.esc.wrapping_sub(f as u32),
            sum: q.sum.wrapping_add(nf as u32),
        };
        if nf > self.freq(s.wrapping_sub(6)) {
            let v: (u32, u32) = self.state(s);
            let to: u32 = self.sink_state(s, first, nf as u32);
            self.set_state(to, v);
        }
        r
    }

    /// Halves the frequencies of `count` more states.
    fn rescale_rest(&mut self, first: u32, adder: u32, start: Sums, count: u32) -> (r: Sums)
        requires
            old(self).inv(),
            adder <= 1,
        ensures
            final(self).inv(),
            (final(self)@, r) == old(self)@.rescaled_rest(first, adder, start, count),
    {
        let mut q = start;
        let mut n: u32 = count;
        while n > 0 && !self.err
            invariant
                self.inv(),
                adder <= 1,
                self@.rescaled_rest(first, adder, q, n) == old(self)@.rescaled_rest(
                    first,
                    adder,
                    start,
                    count,
                ),
            decreases n,
        {
            q = self.rescale_one(first, adder, q);
            n = n - 1;
        }
        q
    }

    /// Counts the states from `from` down that have no frequency left.
    fn count_zeros(&mut self, from: u32) -> (n: u32)
        requires
            old(self).inv(),
        ensures
            final(self).inv(),
            (final(self)@, n) == old(self)@.zeros(from, 0, old(self)@.base.len()),
    {
        let mut s: u32 = from;
        let mut n: u32 = 0;
        let mut fuel: usize = self.heap.len();
        loop
            invariant
                self.inv(),
                self@.zeros(s, n, fuel as nat) == old(self)@.zeros(
                    from,
                    0,
                    old(self)@.base.len(),
                ),
            decreases fuel,
        {
            s = s.wrapping_sub(6);
            self.need(s, 6);
            n = n.wrapping_add(1);
            if self.freq(s) != 0 {
                return n;
            }
            if fuel == 0 {
                self.err = true;
                return n;
            }
            fuel = fuel - 1;
        }
    }

    /// Drops states without frequency.
    fn trim(&mut self, mc: u32, first: u32, q: &Sums) -> (r: (u32, bool))
        requires
            old(self).inv(),
        ensures
            final(self).inv(),
            (final(self)@, r.0, r.1) == old(self)@.trimmed(mc, first, *q),
    {
        reveal(M::trimmed);
        let n: u32 = self.count_zeros(q.s);
        let esc: u32 = q.esc.wrapping_add(n);
        let old_ns: u32 = self.ns(mc);
        let ns: u32 = old_ns.wrapping_sub(n);
        self.w16(mc, ns);
        let n0: u32 = old_ns.wrapping_add(1) / 2;
        let n1: u32 = ns.wrapping_add(1) / 2;
        if ns == 1 {
            self.need(first, 6);
            let v: (u32, u32) = self.state(first);
            let mut f: u8 = (v.0 / 256 % 256) as u8;
            let ghost f0 = f;
            let mut e: u32 = esc;
            loop
                invariant_except_break
                    decayed(f, e) == decayed(f0, esc),
                ensures
                    f == decayed(f0, esc),
                decreases e,
            {
                f = f - f / 2;
                e = e / 2;
                if e <= 1 {
                    break;
                }
            }
            self.insert_node(first, u2i(n0));
            let os: u32 = mc.wrapping_add(2);
            self.r.found_state = os;
            self.set_state(os, (v.0 % 256 + 256 * f as u32, v.1));
            return (esc, true);
        }
        if n0 != n1 {
            let p: u32 = self.shrink_units(first, n0, n1);
            self.w32(mc.wrapping_add(4), p);
        }
        (esc, false)
    }

    /// Halves the frequencies of the context that is used.
    fn rescale(&mut self)
        requires
            old(self).inv(),
        ensures
            final(self).inv(),
            final(self)@ == old(self)@.rescaled(),
    {
        reveal(M::rescaled);
        let mc: u32 = self.r.min_context;
        self.need(mc, 12);
        let first: u32 = self.stats(mc);
        self.need(self.r.found_state, 6);
        let v: (u32, u32) = self.state(self.r.found_state);
        let s: u32 = self.shift_states(self.r.found_state, first);
        self.set_state(s, v);
        let esc: u32 = self.sf(mc).wrapping_sub(self.freq(s) as u32);
        self.add_freq(s, 4);
        let adder: u32 = flag(self.r.order_fall != 0);
        let nf: u8 = ((self.freq(s) as u32 + adder) / 2) as u8;
        self.set_freq(s, nf);
        let n: u32 = self.ns(mc).wrapping_sub(1);
        let q = self.rescale_rest(first, adder, Sums { s, esc, sum: nf as u32 }, n);
        let mut esc: u32 = q.esc;
        if self.freq(q.s) == 0 {
            let (left, one): (u32, bool) = self.trim(mc, first, &q);
            if one {
                return;
            }
            esc = left;
        }
        self.set_sf(mc, q.sum.wrapping_add(esc).wrapping_sub(esc / 2));
        self.r.found_state = self.stats(mc);
    }
}

/// An escape estimate after a use.
pub open spec fn see_updated(e: See) -> See {
    if e.shift < 7 {
        let count = e.count.wrapping_sub(1);
        if count == 0 {
            See {
                summ: e.summ.wrapping_shl(1),
                shift: (e.shift + 1) as u8,
                count: 3u8.wrapping_shl(e.shift as u32),
            }
        } else {
            See { count, ..e }
        }
    } else {
        e
    }
}

impl See {
    /// Counts a use, and scales anew where it is time.
    pub fn update(&mut self)
        requires
            old(self).shift <= 7,
        ensures
            *final(self) == see_updated(*old(self)),
            final(self).shift <= 7,
    {
        if self.shift < 7 {
            self.count = self.count.wrapping_sub(1);
            if self.count == 0 {
                self.summ = self.summ.wrapping_shl(1);
                self.count = 3u8.wrapping_shl(self.shift as u32);
                self.shift = self.shift + 1;
            }
        }
    }
}

/// The mean that a chance stands for.
pub open spec fn mean(summ: u32) -> u32 {
    ((summ + 32) / 128) as u32
}

/// The escape that is chosen: which estimate, and the frequency.
pub struct Escape {
    /// The estimate, where there is one.
    pub cell: Option<usize>,
    /// The frequency.
    pub freq: u32,
}

impl M {
    /// The model with an escape chosen, where `masked` symbols are left out.
    #[verifier::opaque]
    pub open spec fn escape(self, masked: u32) -> (M, Escape) {
        let mc = self.r.min_context;
        let m = self.need(mc, 12);
        let ns = m.ns(mc);
        if ns == 256 {
            (m, Escape { cell: None, freq: 1 })
        } else {
            let others = ns.wrapping_sub(masked);
            let suffix = m.suffix(mc);
            let m = m.need(suffix, 12);
            let row = row_of(others.wrapping_sub(1) as int);
            let col = (if others < m.ns(suffix) - ns {
                1int
            } else {
                0int
            }) + (if m.sf(mc) < 11 * ns {
                2int
            } else {
                0int
            }) + (if masked > others {
                4int
            } else {
                0int
            }) + m.r.hi_bits_flag;
            let cell = 16 * row + col;
            let e = m.see[cell];
            let v = e.summ >> e.shift;
            (
                M {
                    see: m.see.update(cell, See { summ: e.summ.wrapping_sub(v), ..e }),
                    ..m
                },
                Escape {
                    cell: Some(cell as usize),
                    freq: if v == 0 {
                        1
                    } else {
                        v as u32
                    },
                },
            )
        }
    }

    /// The model with a use of an escape counted.
    pub open spec fn escape_used(self, cell: Option<usize>) -> M {
        match cell {
            Some(i) => M {
                see: self.see.update(i as int, see_updated(self.see[i as int])),
                ..self
            },
            None => self,
        }
    }

    /// The model with an escape made likelier.
    pub open spec fn escape_raised(self, cell: Option<usize>, v: u32) -> M {
        match cell {
            Some(i) => {
                let e = self.see[i as int];
                M {
                    see: self.see.update(
                        i as int,
                        See { summ: e.summ.wrapping_add((v % 0x1_0000) as u16), ..e },
                    ),
                    ..self
                }
            },
            None => self,
        }
    }

    /// The model with the last symbol, which was not the first of its context,
    /// counted.
    #[verifier::opaque]
    pub open spec fn counted_later(self) -> M {
        let s = self.r.found_state;
        let mc = self.r.min_context;
        let m = self.need(s, 6).more_freq(s, 4).more_sf(mc, 4);
        let p = s.wrapping_sub(6);
        let m = m.need(p, 6);
        let m = if m.freq(s) > m.freq(p) {
            let m = m.swapped(s);
            let m = M { r: Regs { found_state: p, ..m.r }, ..m };
            if m.freq(p) > MAX_FREQ {
                m.rescaled()
            } else {
                m
            }
        } else {
            m
        };
        m.followed()
    }

    /// The model with the last symbol, the first of its context, counted.
    #[verifier::opaque]
    pub open spec fn counted_first(self) -> M {
        let s = self.r.found_state;
        let mc = self.r.min_context;
        let m = self.need(s, 6).need(mc, 12);
        let likely = one_if(2 * m.freq(s) > m.sf(mc));
        let m = M {
            r: Regs {
                prev_success: likely,
                run_length: m.r.run_length.wrapping_add(likely as i32),
                ..m.r
            },
            ..m
        };
        let m = m.more_sf(mc, 4).more_freq(s, 4);
        let m = if m.freq(s) > MAX_FREQ {
            m.rescaled()
        } else {
            m
        };
        m.followed()
    }

    /// The model with the only symbol of its context counted.
    #[verifier::opaque]
    pub open spec fn counted_only(self) -> M {
        let s = self.r.found_state;
        let m = self.need(s, 6);
        let f = m.freq(s);
        let m = m.with_freq(
            s,
            if f < 128 {
                (f + 1) as u8
            } else {
                f
            },
        );
        (M {
            r: Regs { prev_success: 1, run_length: m.r.run_length.wrapping_add(1), ..m.r },
            ..m
        }).followed()
    }

    /// The model with the last symbol, which was found behind an escape, counted.
    #[verifier::opaque]
    pub open spec fn counted_escaped(self) -> M {
        let s = self.r.found_state;
        let m = self.need(s, 6).more_sf(self.r.min_context, 4).more_freq(s, 4);
        let m = if m.freq(s) > MAX_FREQ {
            m.rescaled()
        } else {
            m
        };
        (M { r: Regs { run_length: m.r.init_rl, ..m.r }, ..m }).updated()
    }

    /// Which chance a binary context has.
    pub open spec fn bin_index(self) -> (M, int) {
        let mc = self.r.min_context;
        let os = one_state(mc);
        let m = self.need(mc, 12);
        let suffix = m.suffix(mc);
        let m = m.need(suffix, 12).need(m.r.found_state, 6);
        let high = high_flag(m.sym(m.r.found_state));
        let m = M { r: Regs { hi_bits_flag: high, ..m.r }, ..m };
        let row = m.freq(os).wrapping_sub(1);
        let col = m.r.prev_success + suffix_class(m.ns(suffix).wrapping_sub(1)) + high + 2
            * high_flag(m.sym(os)) + (if m.r.run_length < 0 {
            32int
        } else {
            0int
        });
        (
            m,
            64 * (if row > 127 {
                127int
            } else {
                row as int
            }) + (if col > 63 {
                63int
            } else {
                col
            }),
        )
    }
}

/// What a search among the states of a context found.
pub enum Search {
    /// The state, the frequencies before it, and its own.
    Hit {
        /// The state.
        s: u32,
        /// The frequencies before it.
        low: u32,
        /// Its frequency.
        f: u32,
    },
    /// The last state, and all frequencies.
    Miss {
        /// The last state.
        s: u32,
        /// All frequencies.
        hi: u32,
    },
}

impl M {
    /// Looks for the state that `count` falls on among `n` more behind `s`, before
    /// which and in which there are `hi`.
    pub open spec fn searched(self, s: u32, hi: u32, count: u32, n: u32) -> (M, Search)
        decreases n,
    {
        if n == 0 || self.err {
            (self, Search::Miss { s, hi })
        } else {
            let t = s.wrapping_add(6);
            let m = self.need(t, 6);
            let f = m.freq(t) as u32;
            let sum = hi.wrapping_add(f);
            if sum > count {
                (m, Search::Hit { s: t, low: hi, f })
            } else {
                m.searched(t, sum, count, (n - 1) as u32)
            }
        }
    }

    /// The symbols of the `n` states up to `s`, left out.
    pub open spec fn masked(self, mask: Seq<bool>, s: u32, n: u32) -> Seq<bool>
        decreases n,
    {
        if n == 0 {
            mask
        } else {
            self.masked(mask.update(self.sym(s) as int, true), s.wrapping_sub(6), (n - 1) as u32)
        }
    }

    /// Goes to the next shorter context that knows more than `known` symbols.
    pub open spec fn fallen(self, known: u32, fuel: nat) -> Option<M>
        decreases fuel,
    {
        let m = self.need(self.r.min_context, 12);
        let c = m.suffix(m.r.min_context);
        if c == 0 || fuel == 0 {
            None
        } else {
            let m = M {
                r: Regs { order_fall: m.r.order_fall.wrapping_add(1), min_context: c, ..m.r },
                ..m
            };
            let m = m.need(c, 12);
            if m.ns(c) != known {
                Some(m)
            } else {
                m.fallen(known, (fuel - 1) as nat)
            }
        }
    }

    /// Collects the states from `s` on whose symbols are not left out, until there are
    /// `n`, and sums their frequencies.
    pub open spec fn collected(
        self,
        mask: Seq<bool>,
        s: u32,
        n: u32,
        ps: Seq<u32>,
        hi: u32,
    ) -> Option<(Seq<u32>, u32)>
        decreases self.base.len() - s,
    {
        if !within(self.base, s, 6) || s > 0xFFFF_FFF0 || ps.len() >= 256 {
            None
        } else {
            let (ps, hi) = if mask[self.sym(s) as int] {
                (ps, hi)
            } else {
                (ps.push(s), hi.wrapping_add(self.freq(s) as u32))
            };
            if ps.len() == n {
                Some((ps, hi))
            } else {
                self.collected(mask, (s + 6) as u32, n, ps, hi)
            }
        }
    }

    /// The first of the states, from `i` on, behind which more than `count` lies: its
    /// place, and what lies before it.
    pub open spec fn picked(self, ps: Seq<u32>, i: int, low: u32, count: u32) -> Option<(int, u32)>
        decreases ps.len() - i,
    {
        if i < 0 || i >= ps.len() {
            None
        } else {
            let sum = low.wrapping_add(self.freq(ps[i]) as u32);
            if sum > count {
                Some((i, low))
            } else {
                self.picked(ps, i + 1, sum, count)
            }
        }
    }

    /// The symbols of the states, left out.
    pub open spec fn all_masked(self, mask: Seq<bool>, ps: Seq<u32>) -> Seq<bool>
        decreases ps.len(),
    {
        if ps.len() == 0 {
            mask
        } else {
            self.all_masked(mask.update(self.sym(ps.last()) as int, true), ps.drop_last())
        }
    }
}

/// What one try to decode a symbol gave.
pub enum Tried {
    /// The stream is wrong.
    Wrong,
    /// The symbol.
    Symbol {
        /// The model.
        m: M,
        /// The range decoder.
        rc: Range,
        /// The symbol.
        sym: u8,
    },
    /// An escape.
    Escaped {
        /// The model.
        m: M,
        /// The range decoder.
        rc: Range,
        /// The symbols that are left out.
        mask: Seq<bool>,
    },
}

/// The mask that leaves nothing out.
pub open spec fn no_mask() -> Seq<bool> {
    Seq::new(256, |i: int| false)
}

impl M {
    /// Decodes in a context of several symbols.
    #[verifier::opaque]
    pub open spec fn tried_several(self, input: Seq<u8>, rc: Range) -> Tried {
        let mc = self.r.min_context;
        let s = self.stats(mc);
        let sf = self.sf(mc);
        let ns = self.ns(mc);
        let (rc, count) = rc.threshold(sf);
        let m = self.need(s, 6);
        let hi = m.freq(s) as u32;
        if count < hi {
            let m = M { r: Regs { found_state: s, ..m.r }, ..m };
            Tried::Symbol { m: m.counted_first(), rc: rc.decoded(input, 0, hi), sym: m.sym(s) }
        } else {
            let m = M { r: Regs { prev_success: 0, ..m.r }, ..m };
            let (m, found) = m.searched(s, hi, count, ns.wrapping_sub(1));
            match found {
                Search::Hit { s, low, f } => {
                    let m = M { r: Regs { found_state: s, ..m.r }, ..m };
                    Tried::Symbol {
                        m: m.counted_later(),
                        rc: rc.decoded(input, low, f),
                        sym: m.sym(s),
                    }
                },
                Search::Miss { s, hi } => if count >= sf || m.err {
                    Tried::Wrong
                } else {
                    let m = m.need(m.r.found_state, 6);
                    let m = M {
                        r: Regs { hi_bits_flag: high_flag(m.sym(m.r.found_state)), ..m.r },
                        ..m
                    };
                    Tried::Escaped {
                        m,
                        rc: rc.decoded(input, hi, sf.wrapping_sub(hi)),
                        mask: m.masked(no_mask(), s, ns),
                    }
                },
            }
        }
    }

    /// Decodes in a context of one symbol.
    #[verifier::opaque]
    pub open spec fn tried_one(self, input: Seq<u8>, rc: Range) -> Tried {
        let (m, i) = self.bin_index();
        let p = m.bins[i] as u32;
        let (rc, other) = rc.bit(input, p);
        let os = one_state(m.r.min_context);
        if m.err || rc.err {
            Tried::Wrong
        } else if !other {
            let p = ((p + 128 - mean(p)) % 0x1_0000) as u16;
            let m = M {
                bins: m.bins.update(i, p),
                r: Regs { found_state: os, ..m.r },
                ..m
            };
            Tried::Symbol { m: m.counted_only(), rc, sym: m.sym(os) }
        } else {
            let p = p.wrapping_sub(mean(p));
            let m = M {
                bins: m.bins.update(i, (p % 0x1_0000) as u16),
                r: Regs {
                    init_esc: exp_escape(p / 1024 % 16),
                    prev_success: 0,
                    ..m.r
                },
                ..m
            };
            Tried::Escaped { m, rc, mask: no_mask().update(m.sym(os) as int, true) }
        }
    }

    /// Decodes one of the states `ps`, whose frequencies sum up to `hi`, or an
    /// escape.
    #[verifier::opaque]
    pub open spec fn tried_among(
        self,
        input: Seq<u8>,
        rc: Range,
        mask: Seq<bool>,
        known: u32,
        ps: Seq<u32>,
        hi: u32,
    ) -> Tried {
        let (m, e) = self.escape(known);
        let total = e.freq.wrapping_add(hi);
        let (rc, count) = rc.threshold(total);
        if count < hi {
            match m.picked(ps, 0, 0, count) {
                None => Tried::Wrong,
                Some((i, low)) => {
                    let s = ps[i];
                    let f = m.freq(s) as u32;
                    let m = m.escape_used(e.cell);
                    let m = M { r: Regs { found_state: s, ..m.r }, ..m };
                    Tried::Symbol {
                        m: m.counted_escaped(),
                        rc: rc.decoded(input, low, f),
                        sym: m.sym(s),
                    }
                },
            }
        } else if count >= total {
            Tried::Wrong
        } else {
            let m = m.escape_raised(e.cell, total);
            Tried::Escaped {
                m,
                rc: rc.decoded(input, hi, total.wrapping_sub(hi)),
                mask: m.all_masked(mask, ps),
            }
        }
    }

    /// Decodes in a shorter context.
    #[verifier::opaque]
    pub open spec fn tried_shorter(self, input: Seq<u8>, rc: Range, mask: Seq<bool>) -> Tried {
        if self.err || rc.err {
            Tried::Wrong
        } else {
            let known = self.ns(self.r.min_context);
            match self.fallen(known, self.base.len()) {
                None => Tried::Wrong,
                Some(m) => {
                    let mc = m.r.min_context;
                    match m.collected(
                        mask,
                        m.stats(mc),
                        m.ns(mc).wrapping_sub(known),
                        Seq::empty(),
                        0,
                    ) {
                        None => Tried::Wrong,
                        Some((ps, hi)) => m.tried_among(input, rc, mask, known, ps, hi),
                    }
                },
            }
        }
    }

    /// The symbol, once escapes are followed.
    pub open spec fn resolved(input: Seq<u8>, t: Tried, fuel: nat) -> Result<(M, Range, u8), Error>
        decreases fuel,
    {
        match t {
            Tried::Wrong => Err(Error::Corrupt),
            Tried::Symbol { m, rc, sym } => if m.err {
                Err(Error::Corrupt)
            } else {
                Ok((m, rc, sym))
            },
            Tried::Escaped { m, rc, mask } => if fuel == 0 {
                Err(Error::Corrupt)
            } else {
                M::resolved(input, m.tried_shorter(input, rc, mask), (fuel - 1) as nat)
            },
        }
    }

    /// Decodes a symbol: what the model and the range decoder become, and the symbol.
    pub open spec fn decoded(self, input: Seq<u8>, rc: Range) -> Result<(M, Range, u8), Error> {
        let m = self.need(self.r.min_context, 12);
        M::resolved(
            input,
            if m.ns(m.r.min_context) != 1 {
                m.tried_several(input, rc)
            } else {
                m.tried_one(input, rc)
            },
            m.base.len(),
        )
    }
}

/// What one try to decode a symbol gave, and the mask where it was an escape.
enum Try {
    Wrong,
    Symbol(u8),
    Escaped(Vec<bool>),
}

/// The try agrees with what it ought to give.
spec fn agrees(r: Try, p: Ppmd7, rc: Range, t: Tried) -> bool {
    match t {
        Tried::Wrong => r is Wrong,
        Tried::Symbol { m, rc: rc2, sym } => r == Try::Symbol(sym) && p.inv() && p@ == m && rc
            == rc2,
        Tried::Escaped { m, rc: rc2, mask } => (r matches Try::Escaped(v) && v@ == mask)
            && mask.len() == 256 && p.inv() && p@ == m && rc == rc2,
    }
}

impl Ppmd7 {
    /// Chooses an escape.
    fn make_esc_freq(&mut self, masked: u32) -> (e: Escape)
        requires
            old(self).inv(),
        ensures
            final(self).inv(),
            (final(self)@, e) == old(self)@.escape(masked),
            e.cell matches Some(i) ==> i < 400,
            e.freq <= 0xFFFF,
    {
        reveal(M::escape);
        let mc: u32 = self.r.min_context;
        self.need(mc, 12);
        let ns: u32 = self.ns(mc);
        if ns == 256 {
            return Escape { cell: None, freq: 1 };
        }
        let others: u32 = ns.wrapping_sub(masked);
        let suffix: u32 = self.suffix(mc);
        self.need(suffix, 12);
        let row: u32 = ns2indx(others.wrapping_sub(1));
        let suffix_ns: u32 = self.ns(suffix);
        let mut col: u32 = self.r.hi_bits_flag;
        if (others as i64) < suffix_ns as i64 - ns as i64 {
            col = col + 1;
        }
        if self.sf(mc) < 11 * ns {
            col = col + 2;
        }
        if masked > others {
            col = col + 4;
        }
        let cell: usize = (16 * row + col) as usize;
        let e: See = self.see[cell];
        let v: u16 = e.summ >> e.shift;
        self.see.set(
            cell,
            See { summ: e.summ.wrapping_sub(v), shift: e.shift, count: e.count },
        );
        Escape {
            cell: Some(cell),
            freq: if v == 0 {
                1
            } else {
                v as u32
            },
        }
    }

    fn see_update(&mut self, cell: Option<usize>)
        requires
            old(self).inv(),
            cell matches Some(i) ==> i < 400,
        ensures
            final(self).inv(),
            final(self)@ == old(self)@.escape_used(cell),
    {
        if let Some(i) = cell {
            let mut e: See = self.see[i];
            e.update();
            self.see.set(i, e);
        }
    }

    fn see_add_summ(&mut self, cell: Option<usize>, v: u32)
        requires
            old(self).inv(),
            cell matches Some(i) ==> i < 400,
        ensures
            final(self).inv(),
            final(self)@ == old(self)@.escape_raised(cell, v),
    {
        if let Some(i) = cell {
            let e: See = self.see[i];
            let summ: u16 = e.summ.wrapping_add((v % 0x1_0000) as u16);
            self.see.set(i, See { summ, shift: e.shift, count: e.count });
        }
    }

    fn update1(&mut self)
        requires
            old(self).inv(),
        ensures
            final(self).inv(),
            final(self)@ == old(self)@.counted_later(),
    {
        reveal(M::counted_later);
        let s: u32 = self.r.found_state;
        let mc: u32 = self.r.min_context;
        self.need(s, 6);
        self.add_freq(s, 4);
        self.add_sf(mc, 4);
        let p: u32 = s.wrapping_sub(6);
        self.need(p, 6);
        if self.freq(s) > self.freq(p) {
            self.st_swap(s);
            self.r.found_state = p;
            if self.freq(p) > MAX_FREQ {
                self.rescale();
            }
        }
        self.next_context();
    }

    fn update1_0(&mut self)
        requires
            old(self).inv(),
        ensures
            final(self).inv(),
            final(self)@ == old(self)@.counted_first(),
    {
        reveal(M::counted_first);
        let s: u32 = self.r.found_state;
        let mc: u32 = self.r.min_context;
        self.need(s, 6);
        self.need(mc, 12);
        let likely: u32 = flag(2 * self.freq(s) as u32 > self.sf(mc));
        self.r.prev_success = likely;
        self.r.run_length = self.r.run_length.wrapping_add(likely as i32);
        self.add_sf(mc, 4);
        self.add_freq(s, 4);
        if self.freq(s) > MAX_FREQ {
            self.rescale();
        }
        self.next_context();
    }

    fn update_bin(&mut self)
        requires
            old(self).inv(),
        ensures
            final(self).inv(),
            final(self)@ == old(self)@.counted_only(),
    {
        reveal(M::counted_only);
        let s: u32 = self.r.found_state;
        self.need(s, 6);
        let f: u8 = self.freq(s);
        self.set_freq(
            s,
            if f < 128 {
                f + 1
            } else {
                f
            },
        );
        self.r.prev_success = 1;
        self.r.run_length = self.r.run_length.wrapping_add(1);
        self.next_context();
    }

    fn update2(&mut self)
        requires
            old(self).inv(),
        ensures
            final(self).inv(),
            final(self)@ == old(self)@.counted_escaped(),
    {
        reveal(M::counted_escaped);
        let s: u32 = self.r.found_state;
        self.need(s, 6);
        self.add_sf(self.r.min_context, 4);
        self.add_freq(s, 4);
        if self.freq(s) > MAX_FREQ {
            self.rescale();
        }
        self.r.run_length = self.r.init_rl;
        self.update_model();
    }

    fn bin_summ_index(&mut self) -> (i: usize)
        requires
            old(self).inv(),
        ensures
            final(self).inv(),
            (final(self)@, i as int) == old(self)@.bin_index(),
            i < 8192,
    {
        let mc: u32 = self.r.min_context;
        let os: u32 = mc.wrapping_add(2);
        self.need(mc, 12);
        let suffix: u32 = self.suffix(mc);
        self.need(suffix, 12);
        self.need(self.r.found_state, 6);
        let high: u32 = hb2flag(self.sym(self.r.found_state));
        self.r.hi_bits_flag = high;
        let row: u8 = self.freq(os).wrapping_sub(1);
        let mut col: u64 = self.r.prev_success as u64 + ns2bsindx(
            self.ns(suffix).wrapping_sub(1),
        ) as u64 + high as u64 + 2 * hb2flag(self.sym(os)) as u64;
        if self.r.run_length < 0 {
            col = col + 32;
        }
        if col > 63 {
            col = 63;
        }
        64 * (if row > 127 {
            127
        } else {
            row as usize
        }) + col as usize
    }

    /// Looks for the state that `count` falls on.
    fn search(&mut self, first: u32, sum: u32, count: u32, others: u32) -> (r: Search)
        requires
            old(self).inv(),
        ensures
            final(self).inv(),
            (final(self)@, r) == old(self)@.searched(first, sum, count, others),
    {
        let mut s: u32 = first;
        let mut hi: u32 = sum;
        let mut n: u32 = others;
        while n > 0 && !self.err
            invariant
                self.inv(),
                self@.searched(s, hi, count, n) == old(self)@.searched(first, sum, count, others),
            decreases n,
        {
            s = s.wrapping_add(6);
            self.need(s, 6);
            let f: u32 = self.freq(s) as u32;
            let low: u32 = hi;
            hi = hi.wrapping_add(f);
            if hi > count {
                return Search::Hit { s, low, f };
            }
            n = n - 1;
        }
        Search::Miss { s, hi }
    }

    /// Leaves out the symbols of the states up to `last`.
    fn mask_states(&self, last: u32, count: u32) -> (mask: Vec<bool>)
        ensures
            mask@ == self@.masked(no_mask(), last, count),
            mask@.len() == 256,
    {
        let mut mask: Vec<bool> = vec![false;256];
        assert(mask@ =~= no_mask());
        let mut s: u32 = last;
        let mut n: u32 = count;
        while n > 0
            invariant
                mask@.len() == 256,
                self@.masked(mask@, s, n) == self@.masked(no_mask(), last, count),
            decreases n,
        {
            mask.set(self.sym(s) as usize, true);
            s = s.wrapping_sub(6);
            n = n - 1;
        }
        mask
    }

    /// Goes to the next shorter context that knows more symbols.
    fn fall(&mut self, known: u32) -> (ok: bool)
        requires
            old(self).inv(),
        ensures
            match old(self)@.fallen(known, old(self)@.base.len()) {
                Some(m) => ok && final(self).inv() && final(self)@ == m,
                None => !ok,
            },
    {
        let mut fuel: usize = self.heap.len();
        loop
            invariant
                self.inv(),
                self@.fallen(known, fuel as nat) == old(self)@.fallen(
                    known,
                    old(self)@.base.len(),
                ),
            decreases fuel,
        {
            self.need(self.r.min_context, 12);
            let c: u32 = self.suffix(self.r.min_context);
            if c == 0 || fuel == 0 {
                return false;
            }
            self.r.order_fall = self.r.order_fall.wrapping_add(1);
            self.r.min_context = c;
            self.need(c, 12);
            if self.ns(c) != known {
                return true;
            }
            fuel = fuel - 1;
        }
    }

    /// Collects the states whose symbols are not left out.
    fn collect(&self, mask: &Vec<bool>, first: u32, n: u32) -> (r: Option<(Vec<u32>, u32)>)
        requires
            self.inv(),
            mask@.len() == 256,
        ensures
            match self@.collected(mask@, first, n, Seq::empty(), 0) {
                Some((ps, hi)) => r matches Some((v, h)) && v@ == ps && h == hi,
                None => r is None,
            },
    {
        let mut ps: Vec<u32> = Vec::new();
        let mut hi: u32 = 0;
        let mut s: u32 = first;
        while self.heap.has(s, 6) && ps.len() < 256
            invariant
                self.inv(),
                mask@.len() == 256,
                self@.collected(mask@, s, n, ps@, hi) == self@.collected(
                    mask@,
                    first,
                    n,
                    Seq::empty(),
                    0,
                ),
            decreases self@.base.len() - s,
        {
            if !mask[self.sym(s) as usize] {
                hi = hi.wrapping_add(self.freq(s) as u32);
                ps.push(s);
            }
            if ps.len() as u64 == n as u64 {
                return Some((ps, hi));
            }
            s = s + 6;
        }
        None
    }

    /// The first of the states behind which more than `count` lies.
    fn pick(&self, ps: &Vec<u32>, count: u32) -> (r: Option<(usize, u32)>)
        ensures
            match self@.picked(ps@, 0, 0, count) {
                Some((i, low)) => {
                    &&& r matches Some((j, l))
                    &&& j == i
                    &&& l == low
                    &&& 0 <= i < ps@.len()
                },
                None => r is None,
            },
    {
        let mut i: usize = 0;
        let mut low: u32 = 0;
        while i < ps.len()
            invariant
                i <= ps.len(),
                self@.picked(ps@, i as int, low, count) == self@.picked(ps@, 0, 0, count),
            decreases ps.len() - i,
        {
            let sum: u32 = low.wrapping_add(self.freq(ps[i]) as u32);
            if sum > count {
                return Some((i, low));
            }
            low = sum;
            i = i + 1;
        }
        None
    }

    /// Leaves out the symbols of the states.
    fn mask_all(&self, mask: Vec<bool>, ps: &Vec<u32>) -> (r: Vec<bool>)
        requires
            mask@.len() == 256,
        ensures
            r@ == self@.all_masked(mask@, ps@),
            r@.len() == 256,
    {
        let mut r = mask;
        let mut n: usize = ps.len();
        assert(ps@.take(n as int) =~= ps@);
        while n > 0
            invariant
                n <= ps.len(),
                r@.len() == 256,
                self@.all_masked(r@, ps@.take(n as int)) == self@.all_masked(mask@, ps@),
            decreases n,
        {
            n = n - 1;
            assert(ps@.take(n + 1).drop_last() =~= ps@.take(n as int));
            r.set(self.sym(ps[n]) as usize, true);
        }
        r
    }

    /// Decodes in a context of several symbols.
    fn try_several(&mut self, rc: &mut RangeDec) -> (r: Try)
        requires
            old(self).inv(),
            old(rc).inv(),
        ensures
            final(rc).inv(),
            final(rc).source() == old(rc).source(),
            agrees(
                r,
                *final(self),
                final(rc)@,
                old(self)@.tried_several(old(rc).source(), old(rc)@),
            ),
    {
        reveal(M::tried_several);
        let mc: u32 = self.r.min_context;
        let first: u32 = self.stats(mc);
        let sf: u32 = self.sf(mc);
        let ns: u32 = self.ns(mc);
        let count: u32 = rc.get_threshold(sf);
        self.need(first, 6);
        let f: u32 = self.freq(first) as u32;
        if count < f {
            rc.decode(0, f);
            self.r.found_state = first;
            let sym: u8 = self.sym(first);
            self.update1_0();
            return Try::Symbol(sym);
        }
        self.r.prev_success = 0;
        match self.search(first, f, count, ns.wrapping_sub(1)) {
            Search::Hit { s, low, f } => {
                rc.decode(low, f);
                self.r.found_state = s;
                let sym: u8 = self.sym(s);
                self.update1();
                Try::Symbol(sym)
            },
            Search::Miss { s, hi } => {
                if count >= sf || self.err {
                    return Try::Wrong;
                }
                self.need(self.r.found_state, 6);
                self.r.hi_bits_flag = hb2flag(self.sym(self.r.found_state));
                rc.decode(hi, sf.wrapping_sub(hi));
                Try::Escaped(self.mask_states(s, ns))
            },
        }
    }

    /// Decodes in a context of one symbol.
    fn try_one(&mut self, rc: &mut RangeDec) -> (r: Try)
        requires
            old(self).inv(),
            old(rc).inv(),
        ensures
            final(rc).inv(),
            final(rc).source() == old(rc).source(),
            agrees(
                r,
                *final(self),
                final(rc)@,
                old(self)@.tried_one(old(rc).source(), old(rc)@),
            ),
    {
        reveal(M::tried_one);
        let i: usize = self.bin_summ_index();
        let p: u32 = self.bins[i] as u32;
        let other: bool = rc.decode_bit(p);
        if self.err || rc.err() {
            return Try::Wrong;
        }
        let os: u32 = self.r.min_context.wrapping_add(2);
        let mean: u32 = (p + 32) / 128;
        if !other {
            self.bins.set(i, ((p + 128 - mean) % 0x1_0000) as u16);
            self.r.found_state = os;
            let sym: u8 = self.sym(os);
            self.update_bin();
            return Try::Symbol(sym);
        }
        let p: u32 = p.wrapping_sub(mean);
        self.bins.set(i, (p % 0x1_0000) as u16);
        self.r.init_esc = k_exp_escape(p / 1024 % 16);
        self.r.prev_success = 0;
        let mut mask: Vec<bool> = vec![false;256];
        assert(mask@ =~= no_mask());
        mask.set(self.sym(os) as usize, true);
        Try::Escaped(mask)
    }

    /// Decodes one of the states `ps`, whose frequencies sum up to `hi`, or an
    /// escape.
    fn try_among(
        &mut self,
        rc: &mut RangeDec,
        mask: Vec<bool>,
        known: u32,
        ps: &Vec<u32>,
        hi: u32,
    ) -> (r: Try)
        requires
            old(self).inv(),
            old(rc).inv(),
            mask@.len() == 256,
        ensures
            final(rc).inv(),
            final(rc).source() == old(rc).source(),
            agrees(
                r,
                *final(self),
                final(rc)@,
                old(self)@.tried_among(old(rc).source(), old(rc)@, mask@, known, ps@, hi),
            ),
    {
        reveal(M::tried_among);
        let e = self.make_esc_freq(known);
        let total: u32 = e.freq.wrapping_add(hi);
        let count: u32 = rc.get_threshold(total);
        if count < hi {
            match self.pick(ps, count) {
                None => Try::Wrong,
                Some((i, low)) => {
                    let s: u32 = ps[i];
                    let f: u32 = self.freq(s) as u32;
                    rc.decode(low, f);
                    self.see_update(e.cell);
                    self.r.found_state = s;
                    let sym: u8 = self.sym(s);
                    self.update2();
                    Try::Symbol(sym)
                },
            }
        } else if count >= total {
            Try::Wrong
        } else {
            rc.decode(hi, total.wrapping_sub(hi));
            self.see_add_summ(e.cell, total);
            Try::Escaped(self.mask_all(mask, ps))
        }
    }

    /// Decodes in a shorter context.
    fn try_shorter(&mut self, rc: &mut RangeDec, mask: Vec<bool>) -> (r: Try)
        requires
            old(self).inv(),
            old(rc).inv(),
            mask@.len() == 256,
        ensures
            final(rc).inv(),
            final(rc).source() == old(rc).source(),
            agrees(
                r,
                *final(self),
                final(rc)@,
                old(self)@.tried_shorter(old(rc).source(), old(rc)@, mask@),
            ),
    {
        reveal(M::tried_shorter);
        if self.err || rc.err() {
            return Try::Wrong;
        }
        let known: u32 = self.ns(self.r.min_context);
        if !self.fall(known) {
            return Try::Wrong;
        }
        let mc: u32 = self.r.min_context;
        let (ps, hi): (Vec<u32>, u32) = match self.collect(
            &mask,
            self.stats(mc),
            self.ns(mc).wrapping_sub(known),
        ) {
            Some(x) => x,
            None => {
                return Try::Wrong;
            },
        };
        self.try_among(rc, mask, known, &ps, hi)
    }

    /// Decodes a symbol.
    pub fn decode_symbol(&mut self, rc: &mut RangeDec) -> (r: Result<u8, Error>)
        requires
            old(self).inv(),
            old(rc).inv(),
        ensures
            final(rc).inv(),
            final(rc).source() == old(rc).source(),
            match old(self)@.decoded(old(rc).source(), old(rc)@) {
                Ok((m, rc2, sym)) => {
                    &&& r == Ok::<u8, Error>(sym)
                    &&& final(self).inv()
                    &&& final(self)@ == m
                    &&& final(rc)@ == rc2
                },
                Err(e) => r == Err::<u8, Error>(e),
            },
    {
        let ghost input = rc.source();
        self.need(self.r.min_context, 12);
        let ghost t0 = if self@.ns(self@.r.min_context) != 1 {
            self@.tried_several(input, rc@)
        } else {
            self@.tried_one(input, rc@)
        };
        let mut fuel: usize = self.heap.len();
        let ghost goal = M::resolved(input, t0, fuel as nat);
        let ghost mut t = t0;
        let mut r = if self.ns(self.r.min_context) != 1 {
            self.try_several(rc)
        } else {
            self.try_one(rc)
        };
        loop
            invariant
                rc.inv(),
                rc.source() == input,
                input == old(rc).source(),
                goal == old(self)@.decoded(input, old(rc)@),
                agrees(r, *self, rc@, t),
                M::resolved(input, t, fuel as nat) == goal,
            decreases fuel,
        {
            match r {
                Try::Wrong => {
                    return Err(Error::Corrupt);
                },
                Try::Symbol(sym) => {
                    return if self.err {
                        Err(Error::Corrupt)
                    } else {
                        Ok(sym)
                    };
                },
                Try::Escaped(mask) => {
                    if fuel == 0 {
                        return Err(Error::Corrupt);
                    }
                    proof {
                        t = self@.tried_shorter(input, rc@, mask@);
                    }
                    r = self.try_shorter(rc, mask);
                    fuel = fuel - 1;
                },
            }
        }
    }

    /// A model with `mem_size` bytes of memory.
    pub fn new(mem_size: u32) -> (r: Result<Self, Error>)
        requires
            mem_size <= 0x7000_0000,
        ensures
            match r {
                Ok(p) => mem_size >= UNIT_SIZE && p.inv() && p@ == blank(mem_size),
                Err(e) => mem_size < UNIT_SIZE && e == Error::BadHeader,
            },
    {
        if mem_size < UNIT_SIZE {
            return Err(Error::BadHeader);
        }
        let align_offset: u32 = 4 - mem_size % 4;
        let total: u32 = align_offset + mem_size + UNIT_SIZE;
        let p = Ppmd7 {
            heap: Heap::new(total as usize),
            err: false,
            r: Regs {
                size: mem_size,
                align_offset,
                min_context: 0,
                max_context: 0,
                found_state: 0,
                text: 0,
                lo_unit: 0,
                hi_unit: 0,
                units_start: 0,
                glue_count: 0,
                order_fall: 0,
                init_esc: 0,
                prev_success: 0,
                max_order: 0,
                hi_bits_flag: 0,
                run_length: 0,
                init_rl: 0,
            },
            free: vec![0u32;38],
            see: vec![See { summ: 0, shift: 0, count: 0 };400],
            bins: vec![0u16;8192],
        };
        assert(p@ =~= blank(mem_size));
        Ok(p)
    }

    /// Begins with the given longest order.
    pub fn init(&mut self, max_order: u32)
        requires
            old(self).inv(),
        ensures
            final(self).inv(),
            final(self)@ == old(self)@.begun(max_order),
    {
        self.r.max_order = max_order;
        self.restart_model();
    }

    /// Sets the escape frequency that new contexts start with.
    pub fn set_init_esc(&mut self, v: u32)
        requires
            old(self).inv(),
        ensures
            final(self).inv(),
            final(self)@ == (M { r: Regs { init_esc: v, ..old(self)@.r }, ..old(self)@ }),
    {
        self.r.init_esc = v;
    }
}

/// A model with memory and nothing in it.
pub open spec fn blank(mem_size: u32) -> M {
    let align_offset = (4 - mem_size % 4) as u32;
    M {
        base: Seq::new((align_offset + mem_size + UNIT_SIZE) as nat, |i: int| 0u8),
        err: false,
        r: Regs {
            size: mem_size,
            align_offset,
            min_context: 0,
            max_context: 0,
            found_state: 0,
            text: 0,
            lo_unit: 0,
            hi_unit: 0,
            units_start: 0,
            glue_count: 0,
            order_fall: 0,
            init_esc: 0,
            prev_success: 0,
            max_order: 0,
            hi_bits_flag: 0,
            run_length: 0,
            init_rl: 0,
        },
        free: Seq::new(PPMD_NUM_INDEXES as nat, |i: int| 0u32),
        see: Seq::new(400, |i: int| See { summ: 0, shift: 0, count: 0 }),
        bins: Seq::new(8192, |i: int| 0u16),
    }
}

impl M {
    /// The model at the start of a stream.
    pub open spec fn begun(self, max_order: u32) -> M {
        (M { r: Regs { max_order, ..self.r }, ..self }).restarted()
    }
}

} // verus!
