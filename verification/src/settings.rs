//! The choices the settings panel offers and which of them is selected.

use vstd::prelude::*;

verus! {

/// Refresh intervals offered, in milliseconds.
pub open spec fn refresh_options() -> Seq<u64> {
    seq![500u64, 1000, 2000, 5000]
}

/// History windows offered, in seconds.
pub open spec fn history_options() -> Seq<u64> {
    seq![15u64, 30, 60, 120]
}

/// The refresh interval offered at position `i`.
pub fn refresh_option(i: usize) -> (r: u64)
    requires
        i < 4,
    ensures
        r == refresh_options()[i as int],
{
    if i == 0 { 500 } else if i == 1 { 1000 } else if i == 2 { 2000 } else { 5000 }
}

/// The history window offered at position `i`.
pub fn history_option(i: usize) -> (r: u64)
    requires
        i < 4,
    ensures
        r == history_options()[i as int],
{
    if i == 0 { 15 } else if i == 1 { 30 } else if i == 2 { 60 } else { 120 }
}

/// The selected refresh choice: the configured interval's position, or
/// the first choice when the interval is not offered.
pub fn refresh_choice_index(refresh_ms: u64) -> (r: usize)
    ensures
        r < 4,
        (exists|k: int| 0 <= k < 4 && refresh_options()[k] == refresh_ms) ==> refresh_options()[r as int] == refresh_ms,
        (forall|k: int| 0 <= k < 4 ==> refresh_options()[k] != refresh_ms) ==> r == 0,
{
    proof {
        assert(refresh_options()[0] == 500 && refresh_options()[1] == 1000 && refresh_options()[2] == 2000
            && refresh_options()[3] == 5000);
    }
    if refresh_ms == 500 { 0 } else if refresh_ms == 1000 { 1 } else if refresh_ms == 2000 { 2 } else if refresh_ms == 5000 { 3 } else { 0 }
}

/// The selected history choice: the configured window's position, or the
/// second choice (30 s) when the window is not offered.
pub fn history_choice_index(history_seconds: u64) -> (r: usize)
    ensures
        r < 4,
        (exists|k: int| 0 <= k < 4 && history_options()[k] == history_seconds) ==> history_options()[r as int] == history_seconds,
        (forall|k: int| 0 <= k < 4 ==> history_options()[k] != history_seconds) ==> r == 1,
{
    proof {
        assert(history_options()[0] == 15 && history_options()[1] == 30 && history_options()[2] == 60
            && history_options()[3] == 120);
    }
    if history_seconds == 15 { 0 } else if history_seconds == 30 { 1 } else if history_seconds == 60 { 2 } else if history_seconds == 120 { 3 } else { 1 }
}

/// The selected GPU entry: the configured index, limited to the last of
/// `n_gpus` entries (0 when the list is empty).
pub fn gpu_choice_index(gpu_index: usize, n_gpus: usize) -> (r: usize)
    ensures
        n_gpus == 0 ==> r == 0,
        n_gpus > 0 ==> r == (if gpu_index < n_gpus { gpu_index } else { (n_gpus - 1) as usize }),
{
    if n_gpus == 0 {
        0
    } else if gpu_index < n_gpus {
        gpu_index
    } else {
        n_gpus - 1
    }
}

} // verus!
