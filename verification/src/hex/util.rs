//! Helper functions that either don't belong with a particular module, or are
//! easier to read and test as a standalone function

use vstd::prelude::*;

verus! {

/// Halves a value, rounding towards negative infinity; the offset and axial
/// systems shift every other row by this amount.
pub(crate) fn floor_half(v: isize) -> (h: isize)
    ensures
        h == (v as int) / 2,
{
    let t = v / 2;
    if v < 0 && v % 2 != 0 {
        t - 1
    } else {
        t
    }
}

} // verus!
