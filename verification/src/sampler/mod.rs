//! Sampling layer: the parts of CPU, GPU and network sampling that decide
//! and compute, separated from the reads of `/proc`, `/sys` and drivers.

pub mod gpu;
pub mod net;

use vstd::prelude::*;

verus! {

/// `a + b`, saturating at `u64::MAX`.
pub open spec fn sat_add(a: u64, b: u64) -> u64 {
    if a + b > u64::MAX {
        u64::MAX
    } else {
        (a + b) as u64
    }
}

/// `a - b`, saturating at zero.
pub open spec fn sat_sub(a: u64, b: u64) -> u64 {
    if a >= b {
        (a - b) as u64
    } else {
        0
    }
}

/// The utilization inputs between two readings of a busy counter: the
/// time since the previous reading and the busy time added in it.
/// `None` when there is no earlier reading or no time has passed.
pub open spec fn busy_delta(prev: Option<(u64, u64)>, now: u64, busy: u64) -> Option<(u64, u64)> {
    match prev {
        Some((t, b)) => if sat_sub(now, t) == 0 {
            None
        } else {
            Some((sat_sub(now, t), sat_sub(busy, b)))
        },
        None => None,
    }
}

} // verus!
