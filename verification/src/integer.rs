//! What the operations mean on mathematical integers, where that is more than
//! a built-in operator.
use core::cmp::Ordering;
use vstd::math::abs;
use vstd::prelude::*;

verus! {

/// The usual order of the integers.
pub open spec fn integer_order(a: int, b: int) -> Ordering {
    if a < b {
        Ordering::Less
    } else if a > b {
        Ordering::Greater
    } else {
        Ordering::Equal
    }
}

/// The quotient of `a` by `b` rounded toward zero: the quotient of the
/// magnitudes, negative when exactly one of the two is negative.
pub open spec fn truncated_quotient(a: int, b: int) -> int {
    if (a < 0) == (b < 0) {
        (abs(a) / abs(b)) as int
    } else {
        -(abs(a) / abs(b))
    }
}

} // verus!
