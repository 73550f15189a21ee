use galaxy_systrkr::sampler::gpu::procs::nvml::{top_memory_processes, NvmlProcess};

fn p(pid: u32, mem: Option<u64>) -> NvmlProcess {
    NvmlProcess { pid, used_gpu_memory: mem }
}

#[test]
fn nvml_top_sorts_by_memory_and_skips_listed_graphics() {
    let compute = vec![p(1, Some(100)), p(2, None), p(3, Some(300))];
    let graphics = vec![p(3, Some(999)), p(4, Some(100)), p(5, Some(50)), p(4, Some(7))];
    let top = top_memory_processes(&compute, &graphics, 5);
    assert_eq!(top, vec![(3, 300), (1, 100), (4, 100), (5, 50), (2, 0)]);
    let top2 = top_memory_processes(&compute, &graphics, 2);
    assert_eq!(top2, vec![(3, 300), (1, 100)]);
    assert!(top_memory_processes(&[], &[], 5).is_empty());
}
