use galaxy_systrkr::sampler::gpu::procs::fdinfo::{
    aggregate_fdinfo, fdinfo_reports_vram, is_drm_node, parse_fdinfo, parse_kib, pid_of,
    pid_reports_vram_in, FdRecord, FdinfoProcs, PidAggregate,
};

const SAMPLE_AMD: &str = "pos:\t0\nflags:\t02100002\nmnt_id:\t26\nino:\t1063\ndrm-driver:\tamdgpu\ndrm-client-id:\t14\ndrm-pdev:\t0000:03:00.0\npasid:\t32775\ndrm-memory-vram:\t524288 KiB\ndrm-memory-gtt: \t2048 KiB\ndrm-memory-cpu: \t0 KiB\namd-memory-visible-vram:\t0 KiB\namd-evicted-vram:\t0 KiB\ndrm-engine-gfx:\t1500000000 ns\ndrm-engine-compute:\t300000000 ns\ndrm-engine-render:\t0 ns\n";

#[test]
fn parser_extracts_pdev_engines_and_vram() {
    let content = SAMPLE_AMD.to_string();

    let parsed = parse_fdinfo(&content);

    assert_eq!(parsed.pdev.as_deref(), Some("0000:03:00.0"));
    // gfx (1.5e9) + compute (3e8) + render (0) = 1.8e9 ns
    assert_eq!(parsed.busy_ns, 1_800_000_000);
    // 524288 KiB = 512 MiB
    assert_eq!(parsed.vram_bytes, 524_288 * 1024);
}

#[test]
fn parser_ignores_non_drm_lines() {
    let parsed = parse_fdinfo("pos:\t0\nflags:\t02100002\nino:\t9\n");

    assert!(parsed.pdev.is_none());
    assert_eq!(parsed.busy_ns, 0);
    assert_eq!(parsed.vram_bytes, 0);
}

#[test]
fn parse_kib_handles_kib_and_kb_suffixes() {
    assert_eq!(parse_kib("1024 KiB"), Some(1_048_576));
    assert_eq!(parse_kib("2048 kB"), Some(2_097_152));
    assert_eq!(parse_kib("oops"), None);
}

#[test]
fn parse_kib_trims_and_rejects_bare_numbers() {
    assert_eq!(parse_kib("  7 KiB \n"), Some(7168));
    assert_eq!(parse_kib("7"), None);
    assert_eq!(parse_kib(" KiB"), None);
    assert_eq!(parse_kib("+3 kB"), Some(3072));
    assert_eq!(parse_kib("-3 kB"), None);
}

#[test]
fn parser_handles_crlf_and_bad_engine_values() {
    let parsed = parse_fdinfo(
        "drm-pdev: 0000:01:00.0\r\ndrm-engine-gfx: 10 ns\r\ndrm-engine-dec: oops ns\r\ndrm-engine-enc: 5 us\r\ndrm-engine-x: 7 ns",
    );
    assert_eq!(parsed.pdev.as_deref(), Some("0000:01:00.0"));
    assert_eq!(parsed.busy_ns, 17);
}

#[test]
fn parser_saturates_engine_sum() {
    let parsed = parse_fdinfo("drm-engine-a: 18446744073709551615 ns\ndrm-engine-b: 5 ns\n");
    assert_eq!(parsed.busy_ns, u64::MAX);
}

#[test]
fn parser_keeps_last_pdev_and_vram_and_zeroes_bad_vram() {
    let parsed = parse_fdinfo(
        "drm-pdev: a\ndrm-memory-vram: 1 KiB\ndrm-pdev: b\ndrm-memory-vram: 2 KiB\n",
    );
    assert_eq!(parsed.pdev.as_deref(), Some("b"));
    assert_eq!(parsed.vram_bytes, 2048);
    let bad = parse_fdinfo("drm-memory-vram: 4 KiB\ndrm-memory-vram: lots\n");
    assert_eq!(bad.vram_bytes, 0);
}

#[test]
fn pid_of_reads_numeric_proc_entries() {
    assert_eq!(pid_of("1234"), Some(1234));
    assert_eq!(pid_of("self"), None);
    assert_eq!(pid_of(""), None);
    assert_eq!(pid_of("4294967296"), None);
    assert_eq!(pid_of("4294967295"), Some(u32::MAX));
}

#[test]
fn drm_nodes_are_card_and_render_devices() {
    assert!(is_drm_node("/dev/dri/card1"));
    assert!(is_drm_node("/dev/dri/renderD128"));
    assert!(!is_drm_node("/dev/null"));
    assert!(!is_drm_node("socket:[123]"));
}

fn rec(pid: u32, fdinfo: &str) -> FdRecord {
    FdRecord { pid, fdinfo: fdinfo.to_string() }
}

#[test]
fn aggregate_sums_per_pid_on_target_card() {
    let records = vec![
        rec(10, "drm-pdev: p0\ndrm-engine-gfx: 100 ns\ndrm-memory-vram: 1 KiB\n"),
        rec(20, "drm-pdev: p1\ndrm-engine-gfx: 999 ns\n"),
        rec(30, "drm-pdev: p0\ndrm-engine-gfx: 5 ns\n"),
        rec(10, "drm-pdev: p0\ndrm-engine-gfx: 50 ns\ndrm-memory-vram: 2 KiB\n"),
        rec(40, "drm-engine-gfx: 50 ns\n"),
    ];
    let aggs = aggregate_fdinfo(&records, "p0");
    assert_eq!(aggs.len(), 2);
    assert_eq!((aggs[0].pid, aggs[0].busy_ns, aggs[0].vram_bytes), (10, 150, 3072));
    assert_eq!((aggs[1].pid, aggs[1].busy_ns, aggs[1].vram_bytes), (30, 5, 0));
}

#[test]
fn fdinfo_reader_refuses_empty_pdev() {
    assert!(FdinfoProcs::new(String::new()).is_none());
    let p = FdinfoProcs::new("0000:03:00.0".to_string()).unwrap();
    assert_eq!(p.target_pdev(), "0000:03:00.0");
}

fn agg(pid: u32, busy_ns: u64) -> PidAggregate {
    PidAggregate { pid, busy_ns, vram_bytes: 0 }
}

#[test]
fn observe_gives_deltas_from_second_reading_on() {
    let mut p = FdinfoProcs::new("0000:03:00.0".to_string()).unwrap();
    let first = p.observe(&[agg(1, 100), agg(2, 50)], 1_000);
    assert_eq!(first, vec![None, None]);
    let second = p.observe(&[agg(2, 80), agg(3, 10)], 1_500);
    assert_eq!(second, vec![Some((500, 30)), None]);
    // pid 1 left the scan and lost its baseline; pid 2 kept it.
    let third = p.observe(&[agg(1, 200), agg(2, 70)], 2_000);
    assert_eq!(third, vec![None, Some((500, 0))]);
}

#[test]
fn observe_without_elapsed_time_gives_none() {
    let mut p = FdinfoProcs::new("x".to_string()).unwrap();
    p.observe(&[agg(7, 1)], 42);
    assert_eq!(p.observe(&[agg(7, 9)], 42), vec![None]);
}

#[test]
fn inserted_non_drm_lines_change_nothing() {
    let plain = parse_fdinfo("drm-pdev: p\ndrm-engine-gfx: 3 ns\ndrm-memory-vram: 1 KiB\n");
    let noisy = parse_fdinfo(
        "drm-pdev: p\nflags:\t02\ndrm-engine-gfx: 3 ns\nno colon here\ndrm-memory-gtt: 9 KiB\ndrm-memory-vram: 1 KiB\n",
    );
    assert_eq!(plain.pdev, noisy.pdev);
    assert_eq!(plain.busy_ns, noisy.busy_ns);
    assert_eq!(plain.vram_bytes, noisy.vram_bytes);
}

#[test]
fn vram_key_presence_is_detected() {
    assert!(fdinfo_reports_vram("drm-pdev: p\ndrm-memory-vram:\t0 KiB\n"));
    assert!(fdinfo_reports_vram("  drm-memory-vram : oops\n"));
    assert!(!fdinfo_reports_vram("drm-pdev: p\ndrm-memory-gtt: 4 KiB\ndrm-engine-gfx: 1 ns\n"));
    assert!(!fdinfo_reports_vram("drm-memory-vram 4 KiB\n"));
    assert!(!fdinfo_reports_vram(""));
}

#[test]
fn processes_without_memory_keys_report_no_memory() {
    let records = vec![
        rec(10, "drm-pdev: p0\ndrm-engine-gfx: 100 ns\ndrm-memory-vram: 1 KiB\n"),
        rec(30, "drm-pdev: p0\ndrm-engine-gfx: 5 ns\n"),
        rec(30, "drm-pdev: p1\ndrm-memory-vram: 8 KiB\n"),
        rec(50, "drm-pdev: p0\ndrm-memory-vram: 0 KiB\n"),
    ];
    let aggs = aggregate_fdinfo(&records, "p0");
    assert_eq!(aggs.len(), 3);
    assert!(pid_reports_vram_in(&records, "p0", 10));
    // pid 30's only memory key is on another card: zero means "not reported".
    assert_eq!(aggs[1].vram_bytes, 0);
    assert!(!pid_reports_vram_in(&records, "p0", 30));
    assert!(pid_reports_vram_in(&records, "p1", 30));
    // pid 50 reports zero bytes, which is a real reading.
    assert_eq!(aggs[2].vram_bytes, 0);
    assert!(pid_reports_vram_in(&records, "p0", 50));
    assert!(!pid_reports_vram_in(&records, "p0", 99));
}

#[test]
fn process_missing_from_a_scan_restarts_and_truncation_keeps_baselines() {
    let mut p = FdinfoProcs::new("p0".to_string()).unwrap();
    p.observe(&[agg(1, 10), agg(2, 20), agg(3, 30)], 100);
    // A caller that keeps only the first result still leaves every baseline.
    let second = p.observe(&[agg(1, 15), agg(3, 90)], 200);
    let kept: Vec<_> = second.into_iter().take(1).collect();
    assert_eq!(kept, vec![Some((100, 5))]);
    let third = p.observe(&[agg(2, 40), agg(3, 100)], 300);
    assert_eq!(third, vec![None, Some((100, 10))]);
}
