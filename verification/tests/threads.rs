//! Thread counts.
use adb_portscan::cli::ThreadArg;
use adb_portscan::threads::{auto_threads, stack_size_for, Machine, HARD_MAX_THREADS};

fn machine(cores: usize, avail_mem_mb: Option<u64>) -> Machine {
    Machine { cores, total_mem_mb: avail_mem_mb, avail_mem_mb }
}

#[test]
fn stack_size_thresholds() {
    assert_eq!(stack_size_for(1), 1024 * 1024);
    assert_eq!(stack_size_for(2000), 1024 * 1024);
    assert_eq!(stack_size_for(2001), 256 * 1024);
    assert_eq!(stack_size_for(65535), 256 * 1024);
}

#[test]
fn auto_threads_respects_work_items() {
    let d = auto_threads(10, &machine(8, None));
    assert!(d.chosen <= 10);
    assert!(d.chosen >= 1);
}

#[test]
fn auto_threads_within_hard_cap() {
    let d = auto_threads(65535, &machine(4096, None));
    assert!(d.chosen <= HARD_MAX_THREADS);
}

#[test]
fn auto_threads_formula() {
    let d = auto_threads(65535, &machine(8, None));
    assert_eq!((d.chosen, d.stack_bytes, d.cores), (800, 1024 * 1024, 8));
    assert_eq!((d.total_mem_mb, d.avail_mem_mb), (None, None));
    assert_eq!(auto_threads(0, &machine(8, None)).chosen, 1);
    assert_eq!(auto_threads(100, &machine(0, None)).chosen, 1);
    assert_eq!(auto_threads(usize::MAX, &machine(usize::MAX, None)).chosen, 65535);
    // 70 MB for stacks of 1 MB
    assert_eq!(auto_threads(65535, &machine(8, Some(100))).chosen, 70);
    // 7000 MB for stacks of 256 KB
    assert_eq!(auto_threads(65535, &machine(64, Some(10000))).chosen, 6400);
    assert_eq!(auto_threads(65535, &machine(64, Some(0))).chosen, 1);
    assert_eq!(auto_threads(65535, &machine(8, Some(u64::MAX))).chosen, 800);
}

#[test]
fn stacks_fit_into_memory() {
    // 2800 threads of 256 KB fit into 700 MB; so do 700 of 1 MB, but no 1500
    let d = auto_threads(65535, &machine(64, Some(1000)));
    assert_eq!((d.chosen, d.stack_bytes), (2800, 256 * 1024));
    let d = auto_threads(65535, &machine(64, Some(500)));
    assert_eq!((d.chosen, d.stack_bytes), (350, 1024 * 1024));
}

#[test]
fn thread_arguments_resolve() {
    let m = machine(2, None);
    assert_eq!(ThreadArg::Auto.resolve(1000, &m), 200);
    assert_eq!(ThreadArg::Auto.resolve(0, &m), 1);
    assert_eq!(ThreadArg::Max.resolve(1_000_000, &m), 65535);
    assert_eq!(ThreadArg::Max.resolve(10, &m), 10);
    assert_eq!(ThreadArg::Max.resolve(0, &m), 1);
    assert_eq!(ThreadArg::Fixed(50).resolve(1000, &m), 50);
    assert_eq!(ThreadArg::Fixed(50).resolve(10, &m), 10);
    assert_eq!(ThreadArg::Fixed(0).resolve(10, &m), 1);
}
