//! The course of a scan, with made-up answers of the network.
use std::sync::Arc;

use adb_portscan::detect::AdbKind;
use adb_portscan::ranking::sort_hits;
use adb_portscan::scan::{
    connect_outcome, count_items, is_adb, AfterConnect, ConnectError, ConnectOutcome, Finding,
    Hit, Job, PassSkipReason, Scan, ScanCfg, ScanEvent,
};
use adb_portscan::target::{parse_targets, SocketAddr, Target, Targets};
use adb_portscan::threads::Machine;

const MACHINE: Machine = Machine { cores: 4, total_mem_mb: None, avail_mem_mb: None };

fn targets(input: &str) -> Vec<Target> {
    match parse_targets(input).unwrap() {
        Targets::Ready(v) => v,
        Targets::Lookup(h) => panic!("{h} is a host name"),
    }
}

fn new_scan(input: &str, ports: Vec<u16>, verify: bool, first: bool) -> Scan {
    Scan::new(
        ScanCfg::builder(targets(input), Arc::new(ports))
            .verify_adb(verify)
            .stop_on_first(first)
            .build(&MACHINE),
    )
}

fn settle(scan: &mut Scan, job: Job, finding: Finding, cancelled: bool) -> Vec<ScanEvent> {
    assert!(scan.accepts(&job));
    scan.settle(job, finding, cancelled)
}

fn hit(display: &str, port: u16, kind: AdbKind) -> Hit {
    let mut t = targets("10.0.0.1").remove(0);
    t.display = display.to_string();
    Hit { target: t, port, kind }
}

#[test]
fn builder_defaults() {
    let cfg = ScanCfg::builder(targets("10.0.0.0/30"), Arc::new(vec![1, 2, 3])).build(&MACHINE);
    assert_eq!(cfg.targets.len(), 4);
    assert_eq!(*cfg.ports, vec![1, 2, 3]);
    assert_eq!(cfg.threads, 12);
    assert_eq!((cfg.fast_timeout, cfg.slow_timeout, cfg.verify_timeout), (100, 800, 800));
    assert!(cfg.verify_adb && cfg.stop_on_first);
    assert_eq!(cfg.stack_size, 1024 * 1024);
    let cfg = ScanCfg::builder(targets("10.0.0.1"), Arc::new(vec![1]))
        .threads(3000)
        .fast_timeout(1)
        .slow_timeout(2)
        .verify_timeout(3)
        .verify_adb(false)
        .stop_on_first(false)
        .build(&MACHINE);
    assert_eq!((cfg.threads, cfg.stack_size), (3000, 256 * 1024));
    assert_eq!((cfg.fast_timeout, cfg.slow_timeout, cfg.verify_timeout), (1, 2, 3));
    assert!(!cfg.verify_adb && !cfg.stop_on_first);
}

#[test]
fn work_items_are_counted_up_to_the_limit() {
    assert_eq!(count_items(3, 4), 12);
    assert_eq!(count_items(0, 4), 0);
    assert_eq!(count_items(usize::MAX, 2), usize::MAX);
}

#[test]
fn nothing_to_do() {
    let mut s = new_scan("10.0.0.1", vec![], true, true);
    assert!(s.begin().is_none());
    assert_eq!(s.threads(), 1);
    assert!(s.claim(false).is_none());
    assert!(s.finish().is_empty());
}

#[test]
fn jobs_come_target_by_target() {
    let mut s = new_scan("10.0.0.0/31", vec![7, 8], true, true);
    match s.begin() {
        Some(ScanEvent::PassStarted { pass, work_items, timeout }) => {
            assert_eq!((pass, work_items, timeout), (1, 4, 100));
        }
        e => panic!("unexpected {e:?}"),
    }
    let mut seen = Vec::new();
    while let Some(job) = s.claim(false) {
        assert_eq!(job.timeout, 100);
        match job.addr {
            SocketAddr::V4(a) => seen.push((a.ip.bits % 256, a.port, job.index)),
            SocketAddr::V6(_) => panic!("expected v4"),
        }
    }
    assert_eq!(seen, vec![(0, 7, 0), (0, 8, 1), (1, 7, 2), (1, 8, 3)]);
}

#[test]
fn outcomes_decide_what_comes_next() {
    let s = new_scan("10.0.0.1", vec![1], true, true);
    assert_eq!(
        s.after_connect(ConnectOutcome::Closed, false),
        AfterConnect::Settle(Finding::Nothing)
    );
    assert_eq!(
        s.after_connect(ConnectOutcome::Timeout, true),
        AfterConnect::Settle(Finding::TimedOut)
    );
    assert_eq!(s.after_connect(ConnectOutcome::Open, false), AfterConnect::Probe);
    assert_eq!(
        s.after_connect(ConnectOutcome::Open, true),
        AfterConnect::Settle(Finding::Nothing)
    );
    let s = new_scan("10.0.0.1", vec![1], false, true);
    assert_eq!(
        s.after_connect(ConnectOutcome::Open, false),
        AfterConnect::Settle(Finding::Open(AdbKind::Open))
    );
    assert!(s.should_stop(true) && !s.should_stop(false));
}

#[test]
fn connect_errors() {
    assert_eq!(connect_outcome(None), ConnectOutcome::Open);
    assert_eq!(connect_outcome(Some(ConnectError::TimedOut)), ConnectOutcome::Timeout);
    assert_eq!(connect_outcome(Some(ConnectError::WouldBlock)), ConnectOutcome::Timeout);
    assert_eq!(connect_outcome(Some(ConnectError::Other)), ConnectOutcome::Closed);
}

#[test]
fn first_adb_hit_ends_the_scan() {
    let mut s = new_scan("10.0.0.1", vec![1, 2, 3, 4], true, true);
    let a = s.claim(false).unwrap();
    let b = s.claim(false).unwrap();
    let c = s.claim(false).unwrap();
    assert!(settle(&mut s, a, Finding::TimedOut, false).is_empty());
    let events = settle(&mut s, b, Finding::Open(AdbKind::Tls), false);
    match &events[..] {
        [ScanEvent::PortHit(h)] => assert_eq!((h.port, h.kind), (2, AdbKind::Tls)),
        e => panic!("unexpected {e:?}"),
    }
    assert!(settle(&mut s, c, Finding::Open(AdbKind::Plain), false).is_empty());
    assert!(s.should_stop(false));
    assert!(s.claim(false).is_none());
    assert!(s.in_first_pass());
    match s.next_pass(false) {
        Some(ScanEvent::PassSkipped { pass, remaining, reason }) => {
            assert_eq!((pass, remaining, reason), (2, 1, PassSkipReason::HitFound));
        }
        e => panic!("unexpected {e:?}"),
    }
    let hits = s.finish();
    assert_eq!(hits.len(), 1);
    assert_eq!(hits[0].port, 2);
}

#[test]
fn open_ports_do_not_end_the_scan() {
    let mut s = new_scan("10.0.0.1", vec![1, 2], true, true);
    let a = s.claim(false).unwrap();
    assert_eq!(settle(&mut s, a, Finding::Open(AdbKind::Open), false).len(), 1);
    assert!(!s.should_stop(false));
    assert!(s.claim(false).is_some());
}

#[test]
fn full_scan_goes_on_after_a_hit() {
    let mut s = new_scan("10.0.0.1", vec![1, 2, 3], true, false);
    let a = s.claim(false).unwrap();
    let b = s.claim(false).unwrap();
    let c = s.claim(false).unwrap();
    assert_eq!(settle(&mut s, a, Finding::Open(AdbKind::Tls), false).len(), 1);
    assert_eq!(settle(&mut s, b, Finding::Open(AdbKind::Plain), false).len(), 1);
    assert!(settle(&mut s, c, Finding::TimedOut, false).is_empty());
    match s.next_pass(false) {
        Some(ScanEvent::PassStarted { pass, work_items, timeout }) => {
            assert_eq!((pass, work_items, timeout), (2, 1, 800));
        }
        e => panic!("unexpected {e:?}"),
    }
    let c = s.claim(false).unwrap();
    assert_eq!((c.work.port, c.timeout), (3, 800));
    assert!(settle(&mut s, c, Finding::TimedOut, false).is_empty());
    assert!(s.claim(false).is_none());
    assert!(!s.in_first_pass());
    let hits = s.finish();
    let order: Vec<u16> = hits.iter().map(|h| h.port).collect();
    assert_eq!(order, vec![2, 1]);
}

#[test]
fn cancelled_scan_records_nothing_more() {
    let mut s = new_scan("10.0.0.1", vec![1, 2, 3], true, true);
    let a = s.claim(false).unwrap();
    let b = s.claim(false).unwrap();
    assert!(settle(&mut s, a, Finding::Open(AdbKind::Tls), true).is_empty());
    assert!(settle(&mut s, b, Finding::TimedOut, true).is_empty());
    assert!(s.claim(true).is_none());
    match s.next_pass(true) {
        Some(ScanEvent::PassSkipped { remaining, reason, .. }) => {
            assert_eq!((remaining, reason), (1, PassSkipReason::Cancelled));
        }
        e => panic!("unexpected {e:?}"),
    }
    assert!(s.finish().is_empty());
}

#[test]
fn no_second_pass_without_timeouts() {
    let mut s = new_scan("10.0.0.1", vec![1], true, true);
    let a = s.claim(false).unwrap();
    assert!(settle(&mut s, a, Finding::Nothing, false).is_empty());
    assert!(s.next_pass(false).is_none());
}

#[test]
fn progress_every_five_thousand_items() {
    let ports: Vec<u16> = (1..=10001).collect();
    let mut s = new_scan("10.0.0.1", ports, true, true);
    let mut marks = Vec::new();
    while let Some(job) = s.claim(false) {
        for e in settle(&mut s, job, Finding::Nothing, false) {
            match e {
                ScanEvent::Progress { pass, done, total } => marks.push((pass, done, total)),
                e => panic!("unexpected {e:?}"),
            }
        }
    }
    assert_eq!(marks, vec![(1, 5000, 10001), (1, 10000, 10001)]);
}

#[test]
fn thread_counts_of_a_pass() {
    let cfg = |n: usize| {
        ScanCfg::builder(targets("10.0.0.1"), Arc::new(vec![1, 2, 3])).threads(n).build(&MACHINE)
    };
    assert_eq!(Scan::new(cfg(2)).threads(), 2);
    assert_eq!(Scan::new(cfg(9)).threads(), 3);
    assert_eq!(Scan::new(cfg(0)).threads(), 1);
    let s = Scan::new(cfg(9));
    assert!(s.spawned(9, false).is_none());
    match s.spawned(4, true) {
        Some(ScanEvent::ThreadsSpawned { pass, requested, actual }) => {
            assert_eq!((pass, requested, actual), (1, 9, 4));
        }
        e => panic!("unexpected {e:?}"),
    }
    assert_eq!(s.config().threads, 9);
}

#[test]
fn foreign_jobs_are_not_accepted() {
    let mut s = new_scan("10.0.0.1", vec![1, 2], true, true);
    let mut other = new_scan("10.0.0.1", vec![9], true, true);
    let job = other.claim(false).unwrap();
    assert!(!s.accepts(&job));
    let mine = s.claim(false).unwrap();
    assert!(!s.accepts(&job));
    assert!(s.accepts(&mine));
}

fn copy(job: &Job) -> Job {
    Job { pass: job.pass, index: job.index, work: job.work, addr: job.addr, timeout: job.timeout }
}

#[test]
fn jobs_are_settled_once() {
    let mut s = new_scan("10.0.0.1", vec![1, 2], true, true);
    let a = s.claim(false).unwrap();
    let b = s.claim(false).unwrap();
    let again = copy(&a);
    assert!(settle(&mut s, a, Finding::TimedOut, false).is_empty());
    assert!(!s.accepts(&again));
    assert!(s.accepts(&b));
    // the second pass begins while a worker still holds a job of the first
    assert!(matches!(s.next_pass(false), Some(ScanEvent::PassStarted { pass: 2, .. })));
    assert!(!s.accepts(&b));
    let retry = s.claim(false).unwrap();
    assert_eq!((retry.pass, retry.index, retry.work), (2, 0, again.work));
    assert!(!s.accepts(&again));
    assert!(s.accepts(&retry));
}

#[test]
fn two_passes_find_what_is_there() {
    // 1 and 5 are open, 2 and 4 time out, 3 is closed; in the second pass 4 is open
    let mut s = new_scan("10.0.0.0/31", vec![1, 2, 3, 4, 5], false, true);
    let answers = |s: &mut Scan, second: bool| {
        let mut jobs = Vec::new();
        while let Some(job) = s.claim(false) {
            jobs.push(job);
        }
        // the workers settle in the reverse order
        while let Some(job) = jobs.pop() {
            let outcome = match job.work.port {
                1 | 5 => ConnectOutcome::Open,
                4 if second => ConnectOutcome::Open,
                2 | 4 => ConnectOutcome::Timeout,
                _ => ConnectOutcome::Closed,
            };
            match s.after_connect(outcome, false) {
                AfterConnect::Settle(f) => settle(s, job, f, false),
                AfterConnect::Probe => panic!("nothing is probed"),
            };
        }
    };
    answers(&mut s, false);
    assert!(matches!(
        s.next_pass(false),
        Some(ScanEvent::PassStarted { pass: 2, work_items: 4, .. })
    ));
    answers(&mut s, true);
    let found: Vec<(String, u16)> =
        s.finish().into_iter().map(|h| (h.target.display, h.port)).collect();
    let want: Vec<(String, u16)> = ["10.0.0.0", "10.0.0.1"]
        .iter()
        .flat_map(|t| [1, 4, 5].map(|p| (t.to_string(), p)))
        .collect();
    assert_eq!(found, want);
}

#[test]
fn hits_in_order_of_presentation() {
    let hits = vec![
        hit("b", 1, AdbKind::Open),
        hit("b", 2, AdbKind::Tls),
        hit("a", 9, AdbKind::Tls),
        hit("c", 5, AdbKind::Plain),
        hit("a", 10, AdbKind::Tls),
        hit("a", 3, AdbKind::Open),
        hit("10.0.0.2", 1, AdbKind::Open),
        hit("10.0.0.10", 1, AdbKind::Open),
    ];
    let sorted = sort_hits(&hits);
    let keys: Vec<(&str, u16)> =
        sorted.iter().map(|h| (h.target.display.as_str(), h.port)).collect();
    assert_eq!(
        keys,
        vec![
            ("c", 5),
            ("a", 9),
            ("a", 10),
            ("b", 2),
            ("10.0.0.10", 1),
            ("10.0.0.2", 1),
            ("a", 3),
            ("b", 1)
        ]
    );
    assert!(sort_hits(&Vec::new()).is_empty());
}

#[test]
fn equal_hits_keep_their_order() {
    let mut a = hit("x", 1, AdbKind::Open);
    a.target.zone = Some(1);
    let mut b = hit("x", 1, AdbKind::Open);
    b.target.zone = Some(2);
    let sorted = sort_hits(&vec![a, hit("w", 1, AdbKind::Open), b]);
    let zones: Vec<Option<u32>> = sorted.iter().map(|h| h.target.zone).collect();
    assert_eq!(zones, vec![None, Some(1), Some(2)]);
}

#[test]
fn kinds_that_speak_adb() {
    assert!(is_adb(AdbKind::Plain) && is_adb(AdbKind::Tls) && !is_adb(AdbKind::Open));
}

#[test]
fn console_lines() {
    let cases = vec![
        (
            ScanEvent::PassStarted { pass: 1, work_items: 65535, timeout: 100 },
            "[Pass 1/2] 65535 工作项, 快速连接超时 100ms",
        ),
        (
            ScanEvent::PassStarted { pass: 2, work_items: 7, timeout: 800 },
            "[Pass 2/2] 对 7 个无响应端口用 800ms 超时复扫",
        ),
        (ScanEvent::Progress { pass: 1, done: 5000, total: 65535 }, "  进度 5000/65535"),
        (ScanEvent::PortHit(hit("h", 5555, AdbKind::Plain)), "  发现 h:5555 [ADB-Plain]"),
        (ScanEvent::PortHit(hit("h", 5555, AdbKind::Tls)), "  发现 h:5555 [ADB-TLS]"),
        (ScanEvent::PortHit(hit("h", 22, AdbKind::Open)), "  发现 h:22 [open]"),
        (
            ScanEvent::PassSkipped { pass: 2, remaining: 3, reason: PassSkipReason::HitFound },
            "[Pass 2/2] 跳过 (已命中或被中断, 剩余 3 个未复扫)",
        ),
        (
            ScanEvent::ThreadsSpawned { pass: 1, requested: 400, actual: 10 },
            "  注意: 申请 400 线程，实际起了 10 (系统资源限制)",
        ),
    ];
    for (e, line) in cases {
        assert_eq!(e.console_line(), line);
        assert_eq!(e.clone().console_line(), line);
    }
}
