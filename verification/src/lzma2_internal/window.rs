//! A sliding window over what was decoded.
use vstd::prelude::*;

verus! {

/// The latest bytes of a history, in a ring.
pub struct Window {
    ring: Vec<u8>,
    next: usize,
    filled: usize,
    history: Ghost<Seq<u8>>,
}

impl Window {
    /// The history.
    pub closed spec fn view(&self) -> Seq<u8> {
        self.history@
    }

    /// How many bytes the window holds at most.
    pub closed spec fn capacity(&self) -> nat {
        self.ring@.len()
    }

    /// The ring holds the end of the history.
    pub closed spec fn inv(&self) -> bool {
        &&& self.next < self.ring@.len()
        &&& self.filled <= self.ring@.len()
        &&& self.filled == if self.history@.len() <= self.ring@.len() {
            self.history@.len()
        } else {
            self.ring@.len()
        }
        &&& forall|d: int|
            1 <= d <= self.filled ==> #[trigger] self.history@[self.history@.len() - d]
                == self.ring@[index_back(self.next as int, self.ring@.len() as int, d)]
    }

    pub proof fn lemma_capacity(&self)
        ensures
            self.capacity() <= usize::MAX,
    {
        assert(self.ring.len() == self.ring@.len());
    }

    /// An empty window of the given size.
    pub fn new(capacity: usize) -> (w: Self)
        requires
            capacity > 0,
        ensures
            w.inv(),
            w@ == Seq::<u8>::empty(),
            w.capacity() == capacity,
    {
        Window { ring: vec![0u8;capacity], next: 0, filled: 0, history: Ghost(Seq::empty()) }
    }

    /// How many bytes the window holds at most.
    pub fn size(&self) -> (n: usize)
        requires
            self.inv(),
        ensures
            n == self.capacity(),
            n > 0,
    {
        self.ring.len()
    }

    /// Forgets the history.
    pub fn clear(&mut self)
        requires
            old(self).inv(),
        ensures
            final(self).inv(),
            final(self)@ == Seq::<u8>::empty(),
            final(self).capacity() == old(self).capacity(),
    {
        self.next = 0;
        self.filled = 0;
        self.history = Ghost(Seq::empty());
    }

    /// How far back the window reaches.
    pub fn reach(&self) -> (n: usize)
        requires
            self.inv(),
        ensures
            n == if self@.len() <= self.capacity() {
                self@.len()
            } else {
                self.capacity()
            },
            self.capacity() > 0,
    {
        self.filled
    }

    /// Appends a byte.
    pub fn push(&mut self, b: u8)
        requires
            old(self).inv(),
        ensures
            final(self).inv(),
            final(self)@ == old(self)@.push(b),
            final(self).capacity() == old(self).capacity(),
    {
        let n: usize = self.ring.len();
        self.ring.set(self.next, b);
        self.next = if self.next + 1 == n {
            0
        } else {
            self.next + 1
        };
        if self.filled < n {
            self.filled = self.filled + 1;
        }
        self.history = Ghost(self.history@.push(b));
        proof {
            let o = *old(self);
            assert forall|d: int| 1 <= d <= self.filled implies #[trigger] self.history@[
            self.history@.len() - d] == self.ring@[index_back(
                self.next as int,
                self.ring@.len() as int,
                d,
            )] by {
                if d > 1 {
                    assert(o.history@[o.history@.len() - (d - 1)] == o.ring@[index_back(
                        o.next as int,
                        o.ring@.len() as int,
                        d - 1,
                    )]);
                }
            }
        }
    }

    /// The byte `dist` bytes back.
    pub fn back(&self, dist: usize) -> (b: u8)
        requires
            self.inv(),
            1 <= dist,
            dist <= self@.len(),
            dist <= self.capacity(),
        ensures
            b == self@[self@.len() - dist],
    {
        let i: usize = if dist <= self.next {
            self.next - dist
        } else {
            self.ring.len() - (dist - self.next)
        };
        assert(self.history@[self.history@.len() - dist] == self.ring@[i as int]);
        self.ring[i]
    }
}

spec fn index_back(next: int, n: int, d: int) -> int {
    if d <= next {
        next - d
    } else {
        next + n - d
    }
}

} // verus!
