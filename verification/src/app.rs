//! The applet's messages and the decisions its update loop makes on them.

use vstd::prelude::*;

use crate::config::{spec_history_capacity, SystrkrConfig};
use crate::text::{chars_of, find_char, find_char_in, lemma_find_char_bounds, string_of_range};

verus! {

/// A metric the panel can show.
#[derive(Clone, Copy, Debug, PartialEq, Eq, Structural)]
pub enum Metric {
    Cpu,
    Gpu,
    Ram,
    Net,
    Disk,
}

/// What the applet reacts to: timer ticks, window events, configuration
/// changes and settings edits.
#[derive(Clone, Debug)]
pub enum Message {
    Tick,
    TogglePopup,
    PopupClosed,
    OpenSystemMonitor,
    ConfigUpdated(SystrkrConfig),
    ToggleSettings,
    SetRefreshMs(u64),
    SetHistorySeconds(u64),
    SetWarnThreshold(u8),
    SetCritThreshold(u8),
    SetShowMetric(Metric, bool),
    SetGpuIndex(usize),
}

/// What the applet has to do after a message changed its state.
#[derive(Debug, PartialEq, Eq, Structural)]
pub enum Effect {
    /// Take a sample, record it in the histories and redraw.
    Sample,
    /// Open the popup, or close it when it is open.
    TogglePopup,
    /// Forget the popup window, which was closed.
    ForgetPopup,
    /// Launch the system monitor.
    LaunchSystemMonitor,
    /// Redraw with a new configuration; resize the histories to
    /// `resize_to` when given; rebuild the sampler when asked.
    Reconfigure { resize_to: Option<usize>, rebuild_sampler: bool },
    /// Write the configuration to disk.
    Persist,
    /// Write the configuration to disk and rebuild the sampler.
    PersistAndRebuildSampler,
    /// Nothing beyond the state change.
    Nothing,
}

/// `cfg` with the visibility of metric `m` set to `on`.
pub open spec fn with_metric(cfg: SystrkrConfig, m: Metric, on: bool) -> SystrkrConfig {
    match m {
        Metric::Cpu => SystrkrConfig { show_cpu: on, ..cfg },
        Metric::Gpu => SystrkrConfig { show_gpu: on, ..cfg },
        Metric::Ram => SystrkrConfig { show_ram: on, ..cfg },
        Metric::Net => SystrkrConfig { show_net: on, ..cfg },
        Metric::Disk => SystrkrConfig { show_disk: on, ..cfg },
    }
}

/// The configuration and settings-panel state after `message`, and the
/// effect it asks for; `capacity` is the current history capacity.
pub open spec fn updated(cfg: SystrkrConfig, settings_open: bool, message: Message, capacity: usize) -> (
    SystrkrConfig,
    bool,
    Effect,
) {
    match message {
        Message::Tick => (cfg, settings_open, Effect::Sample),
        Message::TogglePopup => (cfg, settings_open, Effect::TogglePopup),
        Message::PopupClosed => (cfg, settings_open, Effect::ForgetPopup),
        Message::OpenSystemMonitor => (cfg, settings_open, Effect::LaunchSystemMonitor),
        Message::ConfigUpdated(new_cfg) => {
            let cap = spec_history_capacity(new_cfg.history_seconds, new_cfg.refresh_ms);
            (
                new_cfg,
                settings_open,
                Effect::Reconfigure {
                    resize_to: if cap != capacity { Some(cap) } else { None },
                    rebuild_sampler: new_cfg.gpu_index != cfg.gpu_index,
                },
            )
        },
        Message::ToggleSettings => (cfg, !settings_open, Effect::Nothing),
        Message::SetRefreshMs(ms) => (SystrkrConfig { refresh_ms: ms, ..cfg }, settings_open, Effect::Persist),
        Message::SetHistorySeconds(sec) => (
            SystrkrConfig { history_seconds: sec, ..cfg },
            settings_open,
            Effect::Persist,
        ),
        Message::SetWarnThreshold(t) => (SystrkrConfig { warn_threshold: t, ..cfg }, settings_open, Effect::Persist),
        Message::SetCritThreshold(t) => (SystrkrConfig { crit_threshold: t, ..cfg }, settings_open, Effect::Persist),
        Message::SetShowMetric(m, on) => (with_metric(cfg, m, on), settings_open, Effect::Persist),
        Message::SetGpuIndex(i) => (
            SystrkrConfig { gpu_index: i, ..cfg },
            settings_open,
            Effect::PersistAndRebuildSampler,
        ),
    }
}

/// The numeric and text settings of `a` and `b` agree.
pub open spec fn same_settings(a: SystrkrConfig, b: SystrkrConfig) -> bool {
    &&& a.refresh_ms == b.refresh_ms
    &&& a.history_seconds == b.history_seconds
    &&& a.warn_threshold == b.warn_threshold
    &&& a.crit_threshold == b.crit_threshold
    &&& a.gpu_index == b.gpu_index
    &&& a.show_ollama == b.show_ollama
    &&& a.ollama_host@ == b.ollama_host@
}

/// Visibility law: `SetShowMetric(m, on)` sets the flag of `m` to `on`,
/// leaves the other four flags and every other setting as they were, keeps
/// the settings panel as it was and asks for the configuration to be saved.
pub proof fn lemma_show_metric_sets_only_its_flag(
    cfg: SystrkrConfig,
    settings_open: bool,
    m: Metric,
    on: bool,
    capacity: usize,
)
    ensures
        ({
            let (c, o, e) = updated(cfg, settings_open, Message::SetShowMetric(m, on), capacity);
            &&& c.show_cpu == (if m == Metric::Cpu { on } else { cfg.show_cpu })
            &&& c.show_gpu == (if m == Metric::Gpu { on } else { cfg.show_gpu })
            &&& c.show_ram == (if m == Metric::Ram { on } else { cfg.show_ram })
            &&& c.show_net == (if m == Metric::Net { on } else { cfg.show_net })
            &&& c.show_disk == (if m == Metric::Disk { on } else { cfg.show_disk })
            &&& same_settings(c, cfg)
            &&& o == settings_open
            &&& e == Effect::Persist
        }),
{
}

/// The five visibility flags of `a` and `b` agree.
pub open spec fn same_flags(a: SystrkrConfig, b: SystrkrConfig) -> bool {
    &&& a.show_cpu == b.show_cpu
    &&& a.show_gpu == b.show_gpu
    &&& a.show_ram == b.show_ram
    &&& a.show_net == b.show_net
    &&& a.show_disk == b.show_disk
}

/// Settings law: each settings message sets its own field to the given
/// value and leaves every other field, and the panel flag, as they were;
/// the GPU choice also asks for the sampler to be rebuilt.
pub proof fn lemma_setting_messages_set_one_field(cfg: SystrkrConfig, settings_open: bool, message: Message, capacity: usize)
    ensures
        ({
            let (c, o, e) = updated(cfg, settings_open, message, capacity);
            &&& message matches Message::SetRefreshMs(v) ==> c.refresh_ms == v && c.history_seconds
                == cfg.history_seconds && c.warn_threshold == cfg.warn_threshold && c.crit_threshold
                == cfg.crit_threshold && c.gpu_index == cfg.gpu_index && same_flags(c, cfg) && o == settings_open
                && e == Effect::Persist
            &&& message matches Message::SetHistorySeconds(v) ==> c.history_seconds == v && c.refresh_ms
                == cfg.refresh_ms && c.warn_threshold == cfg.warn_threshold && c.crit_threshold
                == cfg.crit_threshold && c.gpu_index == cfg.gpu_index && same_flags(c, cfg) && o == settings_open
                && e == Effect::Persist
            &&& message matches Message::SetWarnThreshold(v) ==> c.warn_threshold == v && c.refresh_ms
                == cfg.refresh_ms && c.history_seconds == cfg.history_seconds && c.crit_threshold
                == cfg.crit_threshold && c.gpu_index == cfg.gpu_index && same_flags(c, cfg) && o == settings_open
                && e == Effect::Persist
            &&& message matches Message::SetCritThreshold(v) ==> c.crit_threshold == v && c.refresh_ms
                == cfg.refresh_ms && c.history_seconds == cfg.history_seconds && c.warn_threshold
                == cfg.warn_threshold && c.gpu_index == cfg.gpu_index && same_flags(c, cfg) && o == settings_open
                && e == Effect::Persist
            &&& message matches Message::SetGpuIndex(v) ==> c.gpu_index == v && c.refresh_ms == cfg.refresh_ms
                && c.history_seconds == cfg.history_seconds && c.warn_threshold == cfg.warn_threshold
                && c.crit_threshold == cfg.crit_threshold && same_flags(c, cfg) && o == settings_open && e
                == Effect::PersistAndRebuildSampler
            &&& message matches Message::ToggleSettings ==> c == cfg && o == !settings_open && e == Effect::Nothing
            &&& (message is Tick || message is TogglePopup || message is PopupClosed || message is OpenSystemMonitor)
                ==> c == cfg && o == settings_open
            &&& message matches Message::ConfigUpdated(n) ==> c == n && o == settings_open && (e matches Effect::Reconfigure {
                resize_to,
                rebuild_sampler,
            } && (resize_to is Some <==> spec_history_capacity(n.history_seconds, n.refresh_ms) != capacity) && (
            resize_to matches Some(k) ==> k == spec_history_capacity(n.history_seconds, n.refresh_ms))
                && rebuild_sampler == (n.gpu_index != cfg.gpu_index))
        }),
{
}

/// Applies `message` to the configuration and the settings-panel flag and
/// says what the applet has to do about it.
pub fn update(config: &mut SystrkrConfig, settings_open: &mut bool, message: Message, capacity: usize) -> (r: Effect)
    requires
        message matches Message::ConfigUpdated(c) ==> c.history_seconds * 1000 <= u64::MAX,
    ensures
        (*final(config), *final(settings_open), r) == updated(*old(config), *old(settings_open), message, capacity),
{
    match message {
        Message::Tick => Effect::Sample,
        Message::TogglePopup => Effect::TogglePopup,
        Message::PopupClosed => Effect::ForgetPopup,
        Message::OpenSystemMonitor => Effect::LaunchSystemMonitor,
        Message::ConfigUpdated(new_cfg) => {
            let cap = new_cfg.history_capacity();
            let rebuild = new_cfg.gpu_index != config.gpu_index;
            *config = new_cfg;
            Effect::Reconfigure { resize_to: if cap != capacity { Some(cap) } else { None }, rebuild_sampler: rebuild }
        },
        Message::ToggleSettings => {
            *settings_open = !*settings_open;
            Effect::Nothing
        },
        Message::SetRefreshMs(ms) => {
            config.refresh_ms = ms;
            Effect::Persist
        },
        Message::SetHistorySeconds(sec) => {
            config.history_seconds = sec;
            Effect::Persist
        },
        Message::SetWarnThreshold(t) => {
            config.warn_threshold = t;
            Effect::Persist
        },
        Message::SetCritThreshold(t) => {
            config.crit_threshold = t;
            Effect::Persist
        },
        Message::SetShowMetric(m, on) => {
            match m {
                Metric::Cpu => config.show_cpu = on,
                Metric::Gpu => config.show_gpu = on,
                Metric::Ram => config.show_ram = on,
                Metric::Net => config.show_net = on,
                Metric::Disk => config.show_disk = on,
            }
            Effect::Persist
        },
        Message::SetGpuIndex(i) => {
            config.gpu_index = i;
            Effect::PersistAndRebuildSampler
        },
    }
}

/// The system monitor to launch: `cosmic-monitor` when installed, else
/// `gnome-system-monitor` when installed, else none.
pub fn detect_system_monitor(cosmic_monitor_installed: bool, gnome_monitor_installed: bool) -> (r: Option<&'static str>)
    ensures
        cosmic_monitor_installed ==> (r matches Some(b) && b@ == "cosmic-monitor"@),
        !cosmic_monitor_installed && gnome_monitor_installed ==> (r matches Some(b) && b@ == "gnome-system-monitor"@),
        !cosmic_monitor_installed && !gnome_monitor_installed ==> r is None,
{
    if cosmic_monitor_installed {
        Some("cosmic-monitor")
    } else if gnome_monitor_installed {
        Some("gnome-system-monitor")
    } else {
        None
    }
}

/// `str::split` with a character separator: the pieces between
/// separators, empty ones included.
pub open spec fn split_on(s: Seq<char>, c: char) -> Seq<Seq<char>>
    decreases s.len(),
{
    let i = find_char(s, c);
    if i >= s.len() {
        seq![s]
    } else {
        proof {
            lemma_find_char_bounds(s, c);
        }
        seq![s.subrange(0, i)] + split_on(s.subrange(i + 1, s.len() as int), c)
    }
}

/// The directories of a `PATH` value, in order.
pub fn path_dirs(path: &str) -> (r: Vec<String>)
    ensures
        r@.len() == split_on(path@, ':').len(),
        forall|k: int| 0 <= k < r@.len() ==> #[trigger] r@[k]@ == split_on(path@, ':')[k],
{
    let cs = chars_of(path);
    let s = cs.as_slice();
    let n = cs.len();
    let mut out: Vec<String> = Vec::new();
    let ghost mut done: Seq<Seq<char>> = Seq::empty();
    let mut pos: usize = 0;
    proof {
        assert(s@.subrange(0, n as int) =~= s@);
        assert(done + split_on(s@, ':') =~= split_on(s@, ':'));
    }
    loop
        invariant_except_break
            pos <= n,
            n == s@.len(),
            s@ == path@,
            split_on(s@, ':') == done + split_on(s@.subrange(pos as int, n as int), ':'),
            out@.len() == done.len(),
            forall|k: int| 0 <= k < out@.len() ==> #[trigger] out@[k]@ == done[k],
        ensures
            split_on(path@, ':') == done,
            out@.len() == done.len(),
            forall|k: int| 0 <= k < out@.len() ==> #[trigger] out@[k]@ == done[k],
        decreases n - pos,
    {
        let ghost t = s@.subrange(pos as int, n as int);
        let j = find_char_in(s, pos, n, ':');
        let piece = string_of_range(s, pos, j);
        let ghost old_done = done;
        let ghost old_out = out@;
        out.push(piece);
        proof {
            assert(t.subrange(0, j - pos) =~= s@.subrange(pos as int, j as int));
            done = done.push(s@.subrange(pos as int, j as int));
            assert forall|k: int| 0 <= k < out@.len() implies #[trigger] out@[k]@ == done[k] by {
                if k < old_done.len() {
                    assert(out@[k] == old_out[k]);
                }
            }
        }
        if j == n {
            proof {
                assert(split_on(t, ':') == seq![t]);
                assert(old_done + seq![t] =~= done);
            }
            break;
        }
        proof {
            assert(t.subrange(j - pos + 1, t.len() as int) =~= s@.subrange(j + 1, n as int));
            assert(old_done + (seq![s@.subrange(pos as int, j as int)] + split_on(s@.subrange(j + 1, n as int), ':'))
                =~= done + split_on(s@.subrange(j + 1, n as int), ':'));
        }
        pos = j + 1;
    }
    out
}

} // verus!
