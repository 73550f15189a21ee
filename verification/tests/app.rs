use galaxy_systrkr::app::{detect_system_monitor, path_dirs, update, Effect, Message, Metric};
use galaxy_systrkr::config::SystrkrConfig;

#[test]
fn tick_samples_and_popup_messages_pass_through() {
    let mut cfg = SystrkrConfig::default();
    let mut open = false;
    assert_eq!(update(&mut cfg, &mut open, Message::Tick, 60), Effect::Sample);
    assert_eq!(update(&mut cfg, &mut open, Message::TogglePopup, 60), Effect::TogglePopup);
    assert_eq!(update(&mut cfg, &mut open, Message::PopupClosed, 60), Effect::ForgetPopup);
    assert_eq!(update(&mut cfg, &mut open, Message::OpenSystemMonitor, 60), Effect::LaunchSystemMonitor);
    assert!(!open);
}

#[test]
fn settings_messages_change_config_and_persist() {
    let mut cfg = SystrkrConfig::default();
    let mut open = false;
    assert_eq!(update(&mut cfg, &mut open, Message::ToggleSettings, 60), Effect::Nothing);
    assert!(open);
    assert_eq!(update(&mut cfg, &mut open, Message::SetRefreshMs(2000), 60), Effect::Persist);
    assert_eq!(cfg.refresh_ms, 2000);
    assert_eq!(update(&mut cfg, &mut open, Message::SetHistorySeconds(120), 60), Effect::Persist);
    assert_eq!(cfg.history_seconds, 120);
    update(&mut cfg, &mut open, Message::SetWarnThreshold(50), 60);
    update(&mut cfg, &mut open, Message::SetCritThreshold(90), 60);
    assert_eq!((cfg.warn_threshold, cfg.crit_threshold), (50, 90));
    update(&mut cfg, &mut open, Message::SetShowMetric(Metric::Net, true), 60);
    update(&mut cfg, &mut open, Message::SetShowMetric(Metric::Cpu, false), 60);
    assert!(cfg.show_net && !cfg.show_cpu);
    assert_eq!(update(&mut cfg, &mut open, Message::SetGpuIndex(1), 60), Effect::PersistAndRebuildSampler);
    assert_eq!(cfg.gpu_index, 1);
}

#[test]
fn config_update_resizes_and_rebuilds_when_needed() {
    let mut cfg = SystrkrConfig::default();
    let mut open = false;
    let same = SystrkrConfig::default();
    assert_eq!(
        update(&mut cfg, &mut open, Message::ConfigUpdated(same), 60),
        Effect::Reconfigure { resize_to: None, rebuild_sampler: false }
    );
    let other = SystrkrConfig { refresh_ms: 1000, gpu_index: 2, ..SystrkrConfig::default() };
    assert_eq!(
        update(&mut cfg, &mut open, Message::ConfigUpdated(other), 60),
        Effect::Reconfigure { resize_to: Some(30), rebuild_sampler: true }
    );
    assert_eq!(cfg.refresh_ms, 1000);
    assert_eq!(cfg.gpu_index, 2);
}

#[test]
fn system_monitor_preference_order() {
    assert_eq!(detect_system_monitor(true, true), Some("cosmic-monitor"));
    assert_eq!(detect_system_monitor(false, true), Some("gnome-system-monitor"));
    assert_eq!(detect_system_monitor(false, false), None);
}

#[test]
fn path_dirs_split_on_colons() {
    assert_eq!(path_dirs("/usr/bin:/bin"), vec!["/usr/bin", "/bin"]);
    assert_eq!(path_dirs("a::b:"), vec!["a", "", "b", ""]);
    assert_eq!(path_dirs(""), vec![""]);
}
