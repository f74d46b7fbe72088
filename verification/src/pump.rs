//! What an adapter between a codec and a stream does next.
//!
//! The calls on the stream, which may have to wait, are left to the adapter. It asks
//! here what to do, does it, and tells what came of it.
use vstd::prelude::*;

use crate::error::Error;
use crate::traits::Status;

verus! {

/// Coded bytes that are still to be written.
#[derive(Debug)]
pub struct Outbox {
    bytes: Vec<u8>,
    pos: usize,
}

impl Outbox {
    /// The bytes that are still to be written.
    pub closed spec fn view(&self) -> Seq<u8> {
        self.bytes@.skip(self.pos as int)
    }

    /// The position is in the buffer.
    pub closed spec fn inv(&self) -> bool {
        self.pos <= self.bytes@.len()
    }

    /// Nothing to write.
    pub fn new() -> (o: Self)
        ensures
            o.inv(),
            o@ == Seq::<u8>::empty(),
    {
        let o = Outbox { bytes: Vec::new(), pos: 0 };
        assert(o@ =~= Seq::empty());
        o
    }

    /// The bytes that are still to be written.
    pub fn pending(&self) -> (b: &[u8])
        requires
            self.inv(),
        ensures
            b@ == self@,
    {
        vstd::slice::slice_subrange(self.bytes.as_slice(), self.pos, self.bytes.len())
    }

    /// Adds bytes.
    pub fn stage(&mut self, b: &[u8])
        requires
            old(self).inv(),
        ensures
            final(self).inv(),
            final(self)@ == old(self)@ + b@,
    {
        self.bytes.extend_from_slice(b);
        assert(self@ =~= old(self)@ + b@);
    }

    /// Some bytes were written. A stream that takes none is broken: then nothing
    /// changes and the answer is no.
    pub fn wrote(&mut self, n: usize) -> (ok: bool)
        requires
            old(self).inv(),
            n <= old(self)@.len(),
        ensures
            final(self).inv(),
            ok == (n > 0),
            final(self)@ == old(self)@.skip(n as int),
    {
        if n == 0 {
            assert(self@ =~= old(self)@.skip(0));
            return false;
        }
        assert(self.bytes.len() <= usize::MAX);
        self.pos = self.pos + n;
        assert(self@ =~= old(self)@.skip(n as int));
        if self.pos == self.bytes.len() {
            self.bytes.clear();
            self.pos = 0;
            assert(self@ =~= old(self)@.skip(n as int));
        }
        true
    }
}

/// How a call that finishes a codec leaves the adapter.
#[derive(Debug, Clone, Copy, PartialEq, Eq, Structural)]
pub enum Tail {
    /// The codec is done.
    Done,
    /// The call has to be repeated.
    More,
    /// The codec makes no progress.
    Stalled,
}

/// Judges a call that finishes a codec.
pub fn tail(written: usize, status: Status) -> (t: Tail)
    ensures
        t == if status == Status::StreamEnd {
            Tail::Done
        } else if written > 0 {
            Tail::More
        } else {
            Tail::Stalled
        },
{
    if status == Status::StreamEnd {
        Tail::Done
    } else if written > 0 {
        Tail::More
    } else {
        Tail::Stalled
    }
}

/// What a reading adapter does next.
#[derive(Debug, Clone, Copy, PartialEq, Eq, Structural)]
pub enum Next {
    /// Hand back what was stored.
    Return,
    /// Feed the codec what is buffered.
    Feed,
    /// Read more from the stream.
    Read,
    /// Finish the codec.
    Finish,
}

/// The state of a reading adapter.
#[derive(Debug, Clone, Copy)]
pub struct Pump {
    /// How much of the buffer is filled.
    pub filled: usize,
    /// How much of that was fed to the codec.
    pub consumed: usize,
    /// The stream has ended.
    pub eof: bool,
    /// The codec is done.
    pub finished: bool,
}

impl Pump {
    /// No more was fed than there is.
    pub open spec fn inv(self) -> bool {
        self.consumed <= self.filled
    }

    /// What comes once the buffer is used up.
    pub open spec fn refill(self, room: usize) -> Next {
        if !self.eof {
            Next::Read
        } else if room == 0 {
            Next::Return
        } else {
            Next::Finish
        }
    }

    /// What comes first, with `room` in the caller's buffer.
    pub open spec fn first(self, room: usize) -> Next {
        if self.finished {
            Next::Return
        } else if self.consumed < self.filled {
            if room == 0 {
                Next::Return
            } else {
                Next::Feed
            }
        } else {
            self.refill(room)
        }
    }

    /// The state behind a feed. Only a decoder can find the end there.
    pub open spec fn after_feed(self, used: usize, status: Status, decodes: bool) -> Pump {
        Pump {
            consumed: (self.consumed + used) as usize,
            finished: self.finished || (decodes && status == Status::StreamEnd),
            ..self
        }
    }

    /// A fresh adapter.
    pub fn new() -> (p: Self)
        ensures
            p == (Pump { filled: 0, consumed: 0, eof: false, finished: false }),
    {
        Pump { filled: 0, consumed: 0, eof: false, finished: false }
    }

    fn then_refill(&self, room: usize) -> (n: Next)
        ensures
            n == self.refill(room),
    {
        if !self.eof {
            Next::Read
        } else if room == 0 {
            Next::Return
        } else {
            Next::Finish
        }
    }

    /// Says what to do first.
    pub fn start(&self, room: usize) -> (n: Next)
        ensures
            n == self.first(room),
    {
        if self.finished {
            Next::Return
        } else if self.consumed < self.filled {
            if room == 0 {
                Next::Return
            } else {
                Next::Feed
            }
        } else {
            self.then_refill(room)
        }
    }

    /// The codec was fed. With nothing stored and room left, more has to be read.
    pub fn fed(
        &mut self,
        used: usize,
        written: usize,
        status: Status,
        decodes: bool,
        room: usize,
    ) -> (n: Next)
        requires
            old(self).inv(),
            used <= old(self).filled - old(self).consumed,
        ensures
            final(self).inv(),
            *final(self) == old(self).after_feed(used, status, decodes),
            n == if written > 0 || status == Status::OutputFull || final(self).finished {
                Next::Return
            } else {
                final(self).refill(room)
            },
    {
        self.consumed = self.consumed + used;
        if decodes && status == Status::StreamEnd {
            self.finished = true;
        }
        if written > 0 || status == Status::OutputFull || self.finished {
            Next::Return
        } else {
            self.then_refill(room)
        }
    }

    /// So much was read into the buffer; nothing at the end of the stream.
    pub fn read(&mut self, n: usize)
        ensures
            *final(self) == if n == 0 {
                Pump { eof: true, ..*old(self) }
            } else {
                Pump { filled: n, consumed: 0, ..*old(self) }
            },
            old(self).inv() ==> final(self).inv(),
    {
        if n == 0 {
            self.eof = true;
        } else {
            self.consumed = 0;
            self.filled = n;
        }
    }

    /// The codec was finished. A decoder that then stores nothing, and is not done,
    /// has been cut short.
    pub fn drained(&mut self, written: usize, status: Status, decodes: bool) -> (r: Result<
        (),
        Error,
    >)
        ensures
            *final(self) == (Pump {
                finished: old(self).finished || status == Status::StreamEnd,
                ..*old(self)
            }),
            if decodes && written == 0 && !final(self).finished {
                r == Err::<(), Error>(Error::UnexpectedEnd)
            } else {
                r == Ok::<(), Error>(())
            },
    {
        if status == Status::StreamEnd {
            self.finished = true;
        }
        if decodes && written == 0 && !self.finished {
            return Err(Error::UnexpectedEnd);
        }
        Ok(())
    }
}

/// Once the codec is done, the adapter does nothing more with the stream or the
/// codec.
pub proof fn finished_stays_finished(
    p: Pump,
    room: usize,
    used: usize,
    status: Status,
    decodes: bool,
)
    requires
        p.finished,
    ensures
        p.first(room) == Next::Return,
        p.after_feed(used, status, decodes).finished,
{
}

/// The stream is not read again behind its end, and the codec is not finished before
/// everything that was read is fed.
pub proof fn the_end_is_respected(p: Pump, room: usize)
    ensures
        p.eof ==> p.first(room) != Next::Read,
        p.first(room) == Next::Finish ==> p.eof && p.consumed >= p.filled,
{
}

} // verus!
