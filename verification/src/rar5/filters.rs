//! The filters of RAR 5.
//!
//! A filter rewrites a window of the unpacked stream. Delta and the two x86
//! filters are run; the ARM filter is recognised and refused.
use vstd::prelude::*;

use crate::error::Error;
use crate::rar_filters::{delta_decode, delta_decoded, x86_e8_decode, x86_from};

verus! {

/// What a filter does.
#[derive(Debug, Clone, Copy, PartialEq, Eq, Structural)]
pub enum FilterKind {
    /// Channels of differences.
    Delta { channels: u8 },
    /// Calls (`0xE8`).
    X86Call,
    /// Calls and jumps (`0xE8` and `0xE9`).
    X86CallJmp,
    /// ARM branches.
    Arm,
}

/// A filter and the window it applies to.
#[derive(Debug, Clone, Copy)]
pub struct Filter {
    /// The position of the window in the unpacked stream.
    pub start: u64,
    /// The length of the window.
    pub length: u32,
    /// What to do.
    pub kind: FilterKind,
}

/// The window after the filter.
pub open spec fn filtered(filter: Filter, region: Seq<u8>) -> Result<Seq<u8>, Error> {
    match filter.kind {
        FilterKind::X86Call => Ok(x86_from(filter.start as int, region, 0, false, true)),
        FilterKind::X86CallJmp => Ok(x86_from(filter.start as int, region, 0, true, true)),
        FilterKind::Delta { channels } => if channels == 0 {
            Err(Error::Corrupt)
        } else {
            Ok(delta_decoded(region, channels as nat))
        },
        FilterKind::Arm => Err(Error::Unsupported),
    }
}

/// Applies a filter to the start of `buf`, which holds the window and maybe
/// more.
pub fn apply(filter: &Filter, buf: &mut [u8]) -> (r: Result<(), Error>)
    requires
        (filter.kind is X86Call || filter.kind is X86CallJmp) && old(buf)@.len() >= filter.length
            ==> filter.start + filter.length <= u64::MAX,
    ensures
        final(buf)@.len() == old(buf)@.len(),
        match filtered(*filter, old(buf)@.take(filter.length as int)) {
            _ if old(buf)@.len() < filter.length => r == Err::<(), Error>(Error::Corrupt)
                && final(buf)@ == old(buf)@,
            Ok(region) => r == Ok::<(), Error>(()) && final(buf)@ == region + old(buf)@.skip(
                filter.length as int,
            ),
            Err(e) => r == Err::<(), Error>(e) && final(buf)@ == old(buf)@,
        },
{
    if (buf.len() as u64) < filter.length as u64 {
        return Err(Error::Corrupt);
    }
    let n: usize = filter.length as usize;
    let mut region = vstd::slice::slice_to_vec(vstd::slice::slice_subrange(buf, 0, n));
    assert(region@ =~= old(buf)@.take(n as int));
    match filter.kind {
        FilterKind::X86Call => {
            x86_e8_decode(filter.start, region.as_mut_slice(), false, true);
        },
        FilterKind::X86CallJmp => {
            x86_e8_decode(filter.start, region.as_mut_slice(), true, true);
        },
        FilterKind::Delta { channels } => {
            if channels == 0 {
                return Err(Error::Corrupt);
            }
            delta_decode(channels as usize, region.as_mut_slice());
        },
        FilterKind::Arm => {
            return Err(Error::Unsupported);
        },
    }
    let mut i: usize = 0;
    while i < n
        invariant
            i <= n,
            n == region@.len(),
            n <= buf@.len(),
            buf@.len() == old(buf)@.len(),
            forall|k: int| 0 <= k < i ==> buf@[k] == region@[k],
            forall|k: int| i <= k < buf@.len() ==> buf@[k] == old(buf)@[k],
        decreases n - i,
    {
        buf[i] = region[i];
        i = i + 1;
    }
    assert(buf@ =~= region@ + old(buf)@.skip(n as int));
    Ok(())
}

} // verus!
