//! The applet's persisted settings and the quantities derived from them.

use vstd::prelude::*;

verus! {

pub const CONFIG_ID: &'static str = "com.goldengod503.GalaxySysTrkr";

pub const CONFIG_VERSION: u64 = 2;

/// The applet's persisted settings.
#[derive(Clone, Debug)]
pub struct SystrkrConfig {
    pub refresh_ms: u64,
    pub history_seconds: u64,
    pub warn_threshold: u8,
    pub crit_threshold: u8,
    pub show_cpu: bool,
    pub show_gpu: bool,
    pub show_ram: bool,
    pub show_net: bool,
    pub show_disk: bool,
    pub gpu_index: usize,
    pub show_ollama: bool,
    pub ollama_host: String,
}

impl PartialEq for SystrkrConfig {
    fn eq(&self, other: &Self) -> (r: bool) {
        self.refresh_ms == other.refresh_ms && self.history_seconds == other.history_seconds
            && self.warn_threshold == other.warn_threshold && self.crit_threshold
            == other.crit_threshold && self.show_cpu == other.show_cpu && self.show_gpu
            == other.show_gpu && self.show_ram == other.show_ram && self.show_net == other.show_net
            && self.show_disk == other.show_disk && self.gpu_index == other.gpu_index
            && self.show_ollama == other.show_ollama && self.ollama_host == other.ollama_host
    }
}

impl vstd::std_specs::cmp::PartialEqSpecImpl for SystrkrConfig {
    open spec fn obeys_eq_spec() -> bool {
        true
    }

    open spec fn eq_spec(&self, other: &Self) -> bool {
        &&& self.refresh_ms == other.refresh_ms
        &&& self.history_seconds == other.history_seconds
        &&& self.warn_threshold == other.warn_threshold
        &&& self.crit_threshold == other.crit_threshold
        &&& self.show_cpu == other.show_cpu
        &&& self.show_gpu == other.show_gpu
        &&& self.show_ram == other.show_ram
        &&& self.show_net == other.show_net
        &&& self.show_disk == other.show_disk
        &&& self.gpu_index == other.gpu_index
        &&& self.show_ollama == other.show_ollama
        &&& self.ollama_host@ == other.ollama_host@
    }
}

impl Default for SystrkrConfig {
    fn default() -> (r: Self)
        ensures
            r.refresh_ms == 500,
            r.history_seconds == 30,
            r.warn_threshold == 60,
            r.crit_threshold == 85,
            r.show_cpu,
            r.show_gpu,
            !r.show_ram,
            !r.show_net,
            !r.show_disk,
            r.gpu_index == 0,
            !r.show_ollama,
            r.ollama_host@ == "http://localhost:11434"@,
    {
        Self {
            refresh_ms: 500,
            history_seconds: 30,
            warn_threshold: 60,
            crit_threshold: 85,
            show_cpu: true,
            show_gpu: true,
            show_ram: false,
            show_net: false,
            show_disk: false,
            gpu_index: 0,
            show_ollama: false,
            ollama_host: String::from_str("http://localhost:11434"),
        }
    }
}

/// How many samples the sparklines keep: the history window divided by
/// the refresh interval (an interval of 0 counts as 1 ms), at least 2.
pub open spec fn spec_history_capacity(history_seconds: u64, refresh_ms: u64) -> usize {
    let per = if refresh_ms == 0 { 1 } else { refresh_ms };
    let cap = ((history_seconds * 1000) / (per as int)) as usize;
    if cap < 2 { 2 } else { cap }
}

/// The tick interval in milliseconds: the configured one, at least 50.
pub open spec fn spec_refresh_ms(refresh_ms: u64) -> u64 {
    if refresh_ms < 50 { 50 } else { refresh_ms }
}

/// Interval law: the tick interval is the larger of the configured one
/// and 50 ms, so every configured interval of at least 50 ms is kept as is.
pub proof fn lemma_refresh_is_max_with_floor(refresh_ms: u64)
    ensures
        spec_refresh_ms(refresh_ms) >= 50,
        spec_refresh_ms(refresh_ms) >= refresh_ms,
        spec_refresh_ms(refresh_ms) == refresh_ms || spec_refresh_ms(refresh_ms) == 50,
        refresh_ms >= 50 ==> spec_refresh_ms(refresh_ms) == refresh_ms,
{
}

/// Capacity law: with a non-zero interval, the capacity is the number of
/// whole intervals in the history window, and 2 when the window holds
/// fewer than three.
pub proof fn lemma_capacity_counts_intervals(history_seconds: u64, refresh_ms: u64)
    requires
        history_seconds * 1000 <= u64::MAX,
        refresh_ms > 0,
        (history_seconds * 1000) / (refresh_ms as int) <= usize::MAX,
    ensures
        spec_history_capacity(history_seconds, refresh_ms) >= 2,
        spec_history_capacity(history_seconds, refresh_ms) > 2 ==> spec_history_capacity(history_seconds, refresh_ms)
            * refresh_ms <= history_seconds * 1000 < (spec_history_capacity(history_seconds, refresh_ms) + 1)
            * refresh_ms,
        spec_history_capacity(history_seconds, refresh_ms) == 2 ==> history_seconds * 1000 < 3 * refresh_ms,
{
    let w: int = history_seconds * 1000;
    let r: int = refresh_ms as int;
    let q: int = w / r;
    assert(q * r <= w < (q + 1) * r) by (nonlinear_arith)
        requires
            r > 0,
            w >= 0,
            q == w / r,
    ;
    assert(q >= 0) by (nonlinear_arith)
        requires
            r > 0,
            w >= 0,
            q == w / r,
    ;
    if q < 2 {
        assert(w < 3 * r) by (nonlinear_arith)
            requires
                w < (q + 1) * r,
                q < 2,
                r > 0,
        ;
    }
}

/// The `Duration` that `Duration::from_millis(ms)` makes.
pub uninterp spec fn duration_from_millis(ms: u64) -> std::time::Duration;

/// `Duration::from_millis`: a duration of `ms` milliseconds. Its result is
/// named, not described.
#[verifier::external_body]
fn millis(ms: u64) -> (r: std::time::Duration)
    ensures
        r == duration_from_millis(ms),
{
    std::time::Duration::from_millis(ms)
}

impl SystrkrConfig {
    /// How many samples each sparkline keeps.
    pub fn history_capacity(&self) -> (r: usize)
        requires
            self.history_seconds * 1000 <= u64::MAX,
        ensures
            r == spec_history_capacity(self.history_seconds, self.refresh_ms),
            r >= 2,
            self.refresh_ms > 0 && (self.history_seconds * 1000) / (self.refresh_ms as int) <= usize::MAX && r > 2
                ==> r * self.refresh_ms <= self.history_seconds * 1000 < (r + 1) * self.refresh_ms,
    {
        proof {
            if self.refresh_ms > 0 && (self.history_seconds * 1000) / (self.refresh_ms as int) <= usize::MAX {
                lemma_capacity_counts_intervals(self.history_seconds, self.refresh_ms);
            }
        }
        let per = if self.refresh_ms == 0 { 1 } else { self.refresh_ms };
        let cap = ((self.history_seconds * 1000) / per) as usize;
        if cap < 2 { 2 } else { cap }
    }

    /// The interval between two samples.
    pub fn refresh_duration(&self) -> (r: std::time::Duration)
        ensures
            r == duration_from_millis(spec_refresh_ms(self.refresh_ms)),
            self.refresh_ms >= 50 ==> r == duration_from_millis(self.refresh_ms),
            self.refresh_ms < 50 ==> r == duration_from_millis(50),
    {
        millis(if self.refresh_ms < 50 { 50 } else { self.refresh_ms })
    }
}

} // verus!
