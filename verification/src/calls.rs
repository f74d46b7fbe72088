//! Series of calls of a codec, and what they take and hand out together.
use vstd::prelude::*;

use crate::error::Error;
use crate::traits::{progress_ok, RawDecoder, RawEncoder, RawProgress};

verus! {

/// A call of a codec, and what it does.
pub struct Call<T> {
    /// It says that the input has ended.
    pub finishing: bool,
    /// The input that is offered.
    pub input: Seq<u8>,
    /// What the output slice holds before.
    pub room: Seq<u8>,
    /// The codec behind the call.
    pub after: T,
    /// What the output slice holds behind the call.
    pub output: Seq<u8>,
    /// What the call returns.
    pub r: Result<RawProgress, Error>,
}

impl<T> Call<T> {
    /// The input that is taken.
    pub open spec fn taken(self) -> Seq<u8> {
        match self.r {
            Ok(p) => self.input.take(p.consumed as int),
            Err(_) => Seq::empty(),
        }
    }

    /// The bytes that are handed out.
    pub open spec fn handed(self) -> Seq<u8> {
        match self.r {
            Ok(p) => self.output.take(p.written as int),
            Err(_) => Seq::empty(),
        }
    }

    /// The call reports the end of the stream.
    pub open spec fn is_done(self) -> bool {
        self.r matches Ok(p) && p.done
    }

    /// The slices are slices, and the counts lie within them.
    pub open spec fn ok(self) -> bool {
        &&& self.input.len() <= usize::MAX
        &&& self.room.len() <= usize::MAX
        &&& self.output.len() == self.room.len()
        &&& self.finishing ==> self.input.len() == 0
        &&& self.r matches Ok(p) ==> progress_ok(p, self.input, self.room, self.output)
    }

    /// The call is made with the same slices as another.
    pub open spec fn made_like(self, o: Self) -> bool {
        self.finishing == o.finishing && self.input == o.input && self.room == o.room
    }

    /// The call returns and stores the same as another.
    pub open spec fn answered_like(self, o: Self) -> bool {
        self.r == o.r && self.output == o.output
    }
}

/// The codec behind the calls.
pub open spec fn behind<T>(t: T, cs: Seq<Call<T>>) -> T {
    if cs.len() == 0 {
        t
    } else {
        cs.last().after
    }
}

/// All the input that is taken.
pub open spec fn all_taken<T>(cs: Seq<Call<T>>) -> Seq<u8>
    decreases cs.len(),
{
    if cs.len() == 0 {
        Seq::empty()
    } else {
        all_taken(cs.drop_last()) + cs.last().taken()
    }
}

/// All the bytes that are handed out.
pub open spec fn all_handed<T>(cs: Seq<Call<T>>) -> Seq<u8>
    decreases cs.len(),
{
    if cs.len() == 0 {
        Seq::empty()
    } else {
        all_handed(cs.drop_last()) + cs.last().handed()
    }
}

/// No input is offered once it was said to have ended.
pub open spec fn in_order<T>(cs: Seq<Call<T>>) -> bool {
    forall|i: int, j: int|
        0 <= i < j < cs.len() && (#[trigger] cs[i]).finishing ==> (#[trigger] cs[j]).finishing
}

/// The input is said to have ended.
pub open spec fn has_ended<T>(cs: Seq<Call<T>>) -> bool {
    cs.len() > 0 && cs.last().finishing
}

/// The calls are offered `s` piece by piece; what one does not take is offered again.
pub open spec fn offered<T>(s: Seq<u8>, cs: Seq<Call<T>>) -> bool
    decreases cs.len(),
{
    cs.len() > 0 ==> {
        let at = all_taken(cs.drop_last()).len();
        let input = cs.last().input;
        &&& offered(s, cs.drop_last())
        &&& at + input.len() <= s.len()
        &&& input == s.subrange(at as int, (at + input.len()) as int)
    }
}

/// No call says that the input has ended.
pub open spec fn unended<T>(cs: Seq<Call<T>>) -> bool {
    forall|i: int| 0 <= i < cs.len() ==> !(#[trigger] cs[i]).finishing
}

/// No call fails.
pub open spec fn all_ok<T>(cs: Seq<Call<T>>) -> bool {
    forall|i: int| 0 <= i < cs.len() ==> (#[trigger] cs[i]).r is Ok
}

/// What an encoder does when it is called.
pub open spec fn encode_call<T: RawEncoder>(e: T, c: Call<T>) -> bool {
    &&& c.ok()
    &&& e.inv()
    &&& c.after.inv()
    &&& if c.finishing {
        T::finish_post(e, c.room, c.after, c.output, c.r)
    } else {
        T::encode_post(e, c.input, c.room, c.after, c.output, c.r)
    }
}

/// What an encoder does when it is called again and again.
pub open spec fn encodes<T: RawEncoder>(e: T, cs: Seq<Call<T>>) -> bool
    decreases cs.len(),
{
    cs.len() > 0 ==> encodes(e, cs.drop_last()) && encode_call(
        behind(e, cs.drop_last()),
        cs.last(),
    )
}

/// What a decoder does when it is called.
pub open spec fn decode_call<T: RawDecoder>(d: T, c: Call<T>) -> bool {
    &&& c.ok()
    &&& d.inv()
    &&& c.after.inv()
    &&& if c.finishing {
        T::finish_post(d, c.room, c.after, c.output, c.r)
    } else {
        T::decode_post(d, c.input, c.room, c.after, c.output, c.r)
    }
}

/// What a decoder does when it is called again and again.
pub open spec fn decodes<T: RawDecoder>(d: T, cs: Seq<Call<T>>) -> bool
    decreases cs.len(),
{
    cs.len() > 0 ==> decodes(d, cs.drop_last()) && decode_call(
        behind(d, cs.drop_last()),
        cs.last(),
    )
}

/// The calls are made with the same slices.
pub open spec fn made_alike<T>(a: Seq<Call<T>>, b: Seq<Call<T>>) -> bool {
    a.len() == b.len() && forall|i: int| 0 <= i < a.len() ==> (#[trigger] a[i]).made_like(b[i])
}

/// The calls return and store the same.
pub open spec fn answered_alike<T>(a: Seq<Call<T>>, b: Seq<Call<T>>) -> bool {
    a.len() == b.len() && forall|i: int| 0 <= i < a.len() ==> (#[trigger] a[i]).answered_like(b[i])
}

pub proof fn lemma_in_order<T>(cs: Seq<Call<T>>)
    requires
        cs.len() > 0,
        in_order(cs),
    ensures
        in_order(cs.drop_last()),
        has_ended(cs.drop_last()) ==> cs.last().finishing,
{
    let a = cs.drop_last();
    assert forall|i: int, j: int|
        0 <= i < j < a.len() && (#[trigger] a[i]).finishing implies (#[trigger] a[j]).finishing by {
        assert(cs[i].finishing && cs[j] == a[j]);
    }
    if a.len() > 0 {
        assert(a.last() == cs[a.len() - 1]);
        assert(cs.last() == cs[cs.len() - 1]);
    }
}

pub proof fn lemma_alike<T>(a: Seq<Call<T>>, b: Seq<Call<T>>)
    requires
        a.len() > 0,
        made_alike(a, b),
    ensures
        made_alike(a.drop_last(), b.drop_last()),
        a.last().made_like(b.last()),
        answered_alike(a.drop_last(), b.drop_last()) && a.last().answered_like(b.last())
            ==> answered_alike(a, b),
{
    let (x, y) = (a.drop_last(), b.drop_last());
    assert forall|i: int| 0 <= i < x.len() implies (#[trigger] x[i]).made_like(y[i]) by {
        assert(a[i].made_like(b[i]));
    }
    assert(a[a.len() - 1].made_like(b[a.len() - 1]));
    if answered_alike(x, y) && a.last().answered_like(b.last()) {
        assert forall|i: int| 0 <= i < a.len() implies (#[trigger] a[i]).answered_like(b[i]) by {
            if i < x.len() {
                assert(x[i].answered_like(y[i]));
            }
        }
    }
}

} // verus!
