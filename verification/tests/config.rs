use std::time::Duration;

use galaxy_systrkr::config::SystrkrConfig;

#[test]
fn history_capacity_30s_at_500ms_is_60() {
    let cfg = SystrkrConfig::default();

    assert_eq!(cfg.history_capacity(), 60);
}

#[test]
fn history_capacity_30s_at_5s_is_6() {
    let cfg = SystrkrConfig {
        refresh_ms: 5000,
        history_seconds: 30,
        ..SystrkrConfig::default()
    };

    assert_eq!(cfg.history_capacity(), 6);
}

#[test]
fn history_capacity_never_below_two() {
    let cfg = SystrkrConfig {
        refresh_ms: 60_000,
        history_seconds: 15,
        ..SystrkrConfig::default()
    };
    assert_eq!(cfg.history_capacity(), 2);
}

#[test]
fn history_capacity_treats_zero_refresh_as_one_ms() {
    let cfg = SystrkrConfig {
        refresh_ms: 0,
        history_seconds: 3,
        ..SystrkrConfig::default()
    };
    assert_eq!(cfg.history_capacity(), 3000);
}

#[test]
fn refresh_duration_is_configured_interval() {
    let cfg = SystrkrConfig::default();
    assert_eq!(cfg.refresh_duration(), Duration::from_millis(500));
}

#[test]
fn refresh_duration_is_at_least_50ms() {
    let cfg = SystrkrConfig {
        refresh_ms: 10,
        ..SystrkrConfig::default()
    };
    assert_eq!(cfg.refresh_duration(), Duration::from_millis(50));
}

#[test]
fn default_config_values() {
    let cfg = SystrkrConfig::default();
    assert_eq!(cfg.refresh_ms, 500);
    assert_eq!(cfg.history_seconds, 30);
    assert_eq!(cfg.warn_threshold, 60);
    assert_eq!(cfg.crit_threshold, 85);
    assert!(cfg.show_cpu && cfg.show_gpu);
    assert!(!cfg.show_ram && !cfg.show_net && !cfg.show_disk && !cfg.show_ollama);
    assert_eq!(cfg.gpu_index, 0);
    assert_eq!(cfg.ollama_host, "http://localhost:11434");
}

#[test]
fn configs_compare_field_by_field() {
    assert_eq!(SystrkrConfig::default(), SystrkrConfig::default());
    let other = SystrkrConfig { ollama_host: "http://gpu-box:11434".to_string(), ..SystrkrConfig::default() };
    assert_ne!(other, SystrkrConfig::default());
    let moved = SystrkrConfig { gpu_index: 1, ..SystrkrConfig::default() };
    assert_ne!(moved, SystrkrConfig::default());
}
