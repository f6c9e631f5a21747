//! Code that runs on the console itself.

use vstd::prelude::*;

verus! {

/// Adds two words as the console does: modulo 2^32.
pub fn rust_add(left: u32, right: u32) -> (r: u32)
    ensures
        r == (left + right) % 0x1_0000_0000,
{
    left.wrapping_add(right)
}

} // verus!
