//! Nibble access on status bytes.

use vstd::prelude::*;

verus! {

/// The upper four bits of `value`, as a number in `0..16`.
pub fn high4(value: u8) -> (r: u8)
    ensures
        r == value / 16,
{
    assert(value >> 4 == value / 16) by (bit_vector);
    value >> 4
}

/// The lower four bits of `value`, as a number in `0..16`.
pub fn low4(value: u8) -> (r: u8)
    ensures
        r == value % 16,
{
    assert(value & 0xf == value % 16) by (bit_vector);
    value & 0xf
}

} // verus!
