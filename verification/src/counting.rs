//! Counting positions that satisfy a predicate.
//!
//! Most specifications in this crate are phrased as "the number of
//! indices below `n` at which something holds"; `count_upto` is that
//! number.  Each module derives its own facts about the specific counts
//! it defines, by induction on the bound.

use vstd::prelude::*;

verus! {

/// The number of indices `j` with `0 <= j < n` for which `p(j)` holds.
pub open spec fn count_upto(n: int, p: spec_fn(int) -> bool) -> nat
    decreases n,
{
    if n <= 0 {
        0
    } else {
        count_upto(n - 1, p) + if p(n - 1) {
            1nat
        } else {
            0nat
        }
    }
}

} // verus!
