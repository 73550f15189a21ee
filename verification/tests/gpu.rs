use galaxy_systrkr::sampler::gpu::amd::{is_amdgpu, read_amdgpu_name, AmdSysfs};
use galaxy_systrkr::sampler::gpu::intel::{find_render_engine, is_intel, read_intel_name, IntelSysfs};
use galaxy_systrkr::sampler::gpu::none::NoGpu;
use galaxy_systrkr::sampler::gpu::{
    enumerate, is_card_dir, nvml_model_name, nvml_pci_address, resolve_card_by_pdev, sample_warning,
    select_gpu,
    DrmCard, GpuInfo, NvmlDevice,
};

fn card(name: &str, pdev: &str, uevent: Option<&str>, busy: bool, engines: &[&str]) -> DrmCard {
    DrmCard {
        name: name.to_string(),
        pdev: pdev.to_string(),
        uevent: uevent.map(|s| s.to_string()),
        has_gpu_busy_percent: busy,
        busy_engines: engines.iter().map(|s| s.to_string()).collect(),
    }
}

/// The `sysfs/amd` fixture: one amdgpu card with its connector entry.
fn amd_fixture() -> Vec<DrmCard> {
    vec![
        card("card0-DP-1", "", None, false, &[]),
        card(
            "card0",
            "0000:03:00.0",
            Some("DRIVER=amdgpu\nPCI_CLASS=30000\nPCI_ID=1002:73BF\nPCI_SUBSYS_ID=1002:0E3A\nPCI_SLOT_NAME=0000:03:00.0\n"),
            true,
            &[],
        ),
    ]
}

/// The `sysfs/intel` fixture: one i915 card with a render engine.
fn intel_fixture() -> Vec<DrmCard> {
    vec![card(
        "card0",
        "0000:00:02.0",
        Some("DRIVER=i915\nPCI_CLASS=30000\nPCI_ID=8086:9A49\nPCI_SUBSYS_ID=1028:0A38\n"),
        false,
        &["vcs0", "rcs0", "bcs0"],
    )]
}

#[test]
fn probe_finds_amd_card_in_fixture() {
    let backend = AmdSysfs::probe_in(&amd_fixture()).expect("should find card0");

    assert!(backend.name().starts_with("AMD GPU"));
    assert!(backend.name().contains("1002:73BF"));
}

#[test]
fn probe_returns_none_for_empty_root() {
    let result = AmdSysfs::probe_in(&[]);

    assert!(result.is_none());
}

#[test]
fn amd_probe_details() {
    let b = AmdSysfs::probe_in(&amd_fixture()).unwrap();
    assert_eq!(b.name(), "AMD GPU (1002:73BF)");
    assert_eq!(b.pdev(), "0000:03:00.0");
    assert_eq!(b.card(), "card0");
    // no gpu_busy_percent file: not served
    let mut cards = amd_fixture();
    cards[1].has_gpu_busy_percent = false;
    assert!(AmdSysfs::probe_in(&cards).is_none());
    // no PCI_ID: plain name
    let c = vec![card("card1", "p", Some("  DRIVER=amdgpu  \n"), true, &[])];
    assert_eq!(AmdSysfs::probe_in(&c).unwrap().name(), "AMD GPU");
}

#[test]
fn amd_uevent_checks() {
    assert!(is_amdgpu(&Some("\n DRIVER=amdgpu \nX=1".to_string())));
    assert!(!is_amdgpu(&Some("DRIVER=amdgpu2".to_string())));
    assert!(!is_amdgpu(&None));
    assert_eq!(read_amdgpu_name(&Some("PCI_ID=1\nPCI_ID=2".to_string())).as_deref(), Some("AMD GPU (1)"));
    assert_eq!(read_amdgpu_name(&Some("DRIVER=amdgpu".to_string())), None);
}

#[test]
fn probe_finds_intel_card_in_fixture() {
    let backend = IntelSysfs::probe_in(&intel_fixture()).expect("should find card0");

    assert!(backend.name().starts_with("Intel GPU"));
    assert!(backend.name().contains("8086:9A49"));
}

#[test]
fn intel_needs_a_busy_engine() {
    let mut cards = intel_fixture();
    cards[0].busy_engines.clear();
    assert!(IntelSysfs::probe_in(&cards).is_none());
    assert!(is_intel(&Some("DRIVER=xe\n".to_string())));
    assert!(!is_intel(&Some("DRIVER=amdgpu\n".to_string())));
    assert_eq!(read_intel_name(&Some("PCI_ID=\n".to_string())), "Intel GPU");
    assert_eq!(read_intel_name(&None), "Intel GPU");
    assert_eq!(read_intel_name(&Some("PCI_ID=8086:1\n".to_string())), "Intel GPU (8086:1)");
}

#[test]
fn render_engine_prefers_rcs0_then_first_by_name() {
    let names = |v: &[&str]| v.iter().map(|s| s.to_string()).collect::<Vec<String>>();
    assert_eq!(find_render_engine(&names(&["vcs0", "rcs0", "bcs0"])).as_deref(), Some("rcs0"));
    assert_eq!(find_render_engine(&names(&["vcs0", "ccs0", "bcs1", "bcs0"])).as_deref(), Some("bcs0"));
    assert_eq!(find_render_engine(&names(&["ab", "a"])).as_deref(), Some("a"));
    assert_eq!(find_render_engine(&[]), None);
}

#[test]
fn first_busy_reading_has_no_delta_then_constant_busy_gives_zero() {
    let mut backend = IntelSysfs::probe_in(&intel_fixture()).unwrap();
    assert_eq!(backend.observe_busy(1_000, 0), None);
    assert_eq!(backend.observe_busy(3_000, 0), Some((2_000, 0)));
    assert_eq!(backend.observe_busy(3_000, 7), None);
    assert_eq!(backend.observe_busy(4_000, 107), Some((1_000, 100)));
}

#[test]
fn intel_probe_by_pdev() {
    let cards = intel_fixture();
    let b = IntelSysfs::probe_pdev("0000:00:02.0", &cards).unwrap();
    assert_eq!(b.pdev(), "0000:00:02.0");
    assert!(IntelSysfs::probe_pdev("", &cards).is_none());
    assert!(AmdSysfs::probe_pdev("0000:00:02.0", &cards).is_none());
}

#[test]
fn card_dirs_exclude_connectors() {
    assert!(is_card_dir("card0"));
    assert!(is_card_dir("card12"));
    assert!(!is_card_dir("card0-DP-1"));
    assert!(!is_card_dir("renderD128"));
    assert!(!is_card_dir("version"));
}

#[test]
fn resolve_by_pdev_skips_connectors_and_empty() {
    let cards = vec![
        card("card0-HDMI-A-1", "0000:03:00.0", None, false, &[]),
        card("card1", "0000:03:00.0", None, false, &[]),
    ];
    assert_eq!(resolve_card_by_pdev("0000:03:00.0", &cards), Some(1));
    assert_eq!(resolve_card_by_pdev("", &cards), None);
    assert_eq!(resolve_card_by_pdev("0000:04:00.0", &cards), None);
}

#[test]
fn no_gpu_has_fixed_name_and_no_pdev() {
    let g = NoGpu::new();
    assert_eq!(g.name(), "No GPU detected");
    assert_eq!(g.pdev(), "");
    assert!(!g.is_nvidia());
    assert_eq!(NoGpu::default().name(), "No GPU detected");
}

#[test]
fn nvml_names_and_addresses() {
    assert_eq!(nvml_model_name(3, &None), "NVIDIA GPU 3");
    assert_eq!(nvml_model_name(0, &Some("RTX 4090".to_string())), "RTX 4090");
    assert_eq!(nvml_pci_address(&Some("00000000:2B:00.0".to_string())), "00000000:2b:00.0");
    assert_eq!(nvml_pci_address(&None), "");
}

#[test]
fn enumerate_lists_nvidia_first_then_new_sysfs_cards() {
    let nvml = vec![NvmlDevice { index: 0, model: Some("GeForce".to_string()), bus_id: Some("0000:2B:00.0".to_string()) }];
    let cards = vec![
        card("card0", "0000:2b:00.0", Some("DRIVER=nvidia\n"), false, &[]),
        card("card0-DP-1", "x", None, false, &[]),
        card("card1", "0000:03:00.0", Some("DRIVER=amdgpu\n"), false, &[]),
        card("card2", "0000:00:02.0", None, false, &[]),
    ];
    let infos = enumerate(&nvml, &cards);
    let names: Vec<&str> = infos.iter().map(|g| g.name.as_str()).collect();
    assert_eq!(names, vec!["NVIDIA GeForce", "amdgpu (card1)", "unknown (card2)"]);
    assert_eq!(infos.iter().map(|g| g.index).collect::<Vec<_>>(), vec![0, 1, 2]);
    assert!(infos[0].is_nvidia && !infos[1].is_nvidia);
    assert_eq!(infos[0].pdev, "0000:2b:00.0");
}

fn info(index: usize, pdev: &str, is_nvidia: bool) -> GpuInfo {
    GpuInfo { index, name: format!("gpu{index}"), pdev: pdev.to_string(), is_nvidia }
}

#[test]
fn select_gpu_falls_back_to_first_and_counts_nvidia() {
    let infos = vec![info(0, "a", true), info(1, "b", false), info(2, "c", true)];
    let t = select_gpu(&infos, 2).unwrap();
    assert_eq!((t.pdev.as_str(), t.is_nvidia, t.nvml_index), ("c", true, 1));
    let f = select_gpu(&infos, 9).unwrap();
    assert_eq!((f.pdev.as_str(), f.nvml_index), ("a", 0));
    assert!(select_gpu(&[], 0).is_none());
}

#[test]
fn failed_samples_warn_once_per_run() {
    assert_eq!(sample_warning(false, true), (false, false));
    assert_eq!(sample_warning(true, true), (false, false));
    assert_eq!(sample_warning(false, false), (true, true));
    assert_eq!(sample_warning(true, false), (false, true));
    let outcomes = [false, false, false, true, false, false, true, true, false];
    let mut warned = false;
    let mut warnings = 0;
    for ok in outcomes {
        let (now, after) = sample_warning(warned, ok);
        if now {
            warnings += 1;
        }
        warned = after;
    }
    assert_eq!(warnings, 3);
}
