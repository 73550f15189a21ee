//! Sparkline scaling modes.

use vstd::prelude::*;

verus! {

/// How sample values are normalized into the sparkline's vertical range.
#[derive(Clone, Copy, Debug, PartialEq, Eq, Structural)]
pub enum Scale {
    /// 0..=100 (percentages).
    Percent,
    /// Auto-scales to the largest value in the visible window.
    AutoMax,
}

} // verus!
