//! Single bits of flag words.

use vstd::prelude::*;

verus! {

/// Whether the bit `bit` of `x` is set.
pub open spec fn flag_set(x: u32, bit: u32) -> bool {
    (x / bit) as int % 2 == 1
}

/// Tests a bit.
pub fn has_bit(x: u32, bit: u32) -> (b: bool)
    requires
        bit > 0,
    ensures
        b == flag_set(x, bit),
{
    x / bit % 2 == 1
}

/// `bit` where `b` holds, nothing otherwise.
pub open spec fn on(b: bool, bit: u32) -> int {
    if b {
        bit as int
    } else {
        0
    }
}

} // verus!
