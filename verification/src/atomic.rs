//! Bit scanning on machine words.

use vstd::prelude::*;
use vstd::std_specs::bits::u64_trailing_zeros;

verus! {

/// The index of the lowest set bit of `x`, which must not be zero.
pub fn a_ctz_64(x: u64) -> (r: u64)
    requires
        x != 0,
    ensures
        r == u64_trailing_zeros(x),
        r < 64,
        (x >> r) & 1 == 1,
        forall|j: u64| j < r ==> #[trigger] ((x >> j) & 1) == 0,
{
    proof {
        vstd::std_specs::bits::axiom_u64_trailing_zeros(x);
    }
    x.trailing_zeros() as u64
}

} // verus!
