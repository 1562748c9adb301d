//! Counts and byte totals that stop at the largest value their type holds.

use vstd::prelude::*;

verus! {

/// `amount`, or the largest `u64` where it does not fit.
pub open spec fn capped_bytes(amount: int) -> u64 {
    if amount > u64::MAX {
        u64::MAX
    } else {
        amount as u64
    }
}

/// `amount`, or the largest `usize` where it does not fit.
pub open spec fn capped_count(amount: int) -> usize {
    if amount > usize::MAX {
        usize::MAX
    } else {
        amount as usize
    }
}

} // verus!
