//! The window of method 13, which is the output itself.
use vstd::prelude::*;

use crate::error::Error;
use crate::lz::{copy_back, lz_copy};

verus! {

/// How far a match may reach back.
pub const WINDOW_SIZE: usize = 0x1_0000;

/// Appends a byte.
pub fn emit_literal(out: &mut Vec<u8>, byte: u8)
    ensures
        final(out)@ == old(out)@.push(byte),
{
    out.push(byte);
}

/// Appends `length` bytes from `distance` bytes back. Bytes that the match itself
/// has appended can be copied again.
pub fn emit_match(out: &mut Vec<u8>, distance: usize, length: usize) -> (r: Result<(), Error>)
    ensures
        match r {
            Ok(_) => {
                &&& 0 < distance <= WINDOW_SIZE
                &&& distance <= old(out)@.len()
                &&& final(out)@ == lz_copy(old(out)@, distance as int, length as nat)
            },
            Err(e) => {
                &&& distance == 0 || distance > WINDOW_SIZE || distance > old(out)@.len()
                &&& e == Error::InvalidDistance
                &&& final(out)@ == old(out)@
            },
        },
{
    if distance == 0 || distance > WINDOW_SIZE || distance > out.len() {
        return Err(Error::InvalidDistance);
    }
    copy_back(out, distance, length);
    Ok(())
}

} // verus!
