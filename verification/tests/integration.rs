//! Whole scans of 127.0.0.1 on a network where some ports are open and all others refuse.
use std::sync::atomic::{AtomicBool, Ordering};
use std::sync::mpsc::{channel, Receiver};
use std::sync::{Arc, Mutex};
use std::time::{Duration, Instant};

use adb_portscan::detect::AdbKind;
use adb_portscan::scan::{
    AfterConnect, ConnectOutcome, Finding, Hit, Job, PassSkipReason, Scan, ScanCfg, ScanEvent,
};
use adb_portscan::target::{parse_targets, Target, Targets};
use adb_portscan::threads::Machine;

const MACHINE: Machine = Machine { cores: 4, total_mem_mb: None, avail_mem_mb: None };

type Callback = Arc<dyn Fn(ScanEvent)>;

fn targets() -> Vec<Target> {
    match parse_targets("127.0.0.1").unwrap() {
        Targets::Ready(v) => v,
        Targets::Lookup(h) => panic!("{h} is a host name"),
    }
}

fn quiet() -> Callback {
    Arc::new(|_| {})
}

/// The workers of one pass take turns: each claims a job, then each settles its own.
fn pass(scan: &mut Scan, open: &[u16], cancel: &AtomicBool, on_event: &Callback) {
    let stop = || cancel.load(Ordering::Relaxed);
    let n = scan.threads();
    loop {
        let mut jobs: Vec<Job> = Vec::new();
        while jobs.len() < n {
            match scan.claim(stop()) {
                Some(job) => jobs.push(job),
                None => break,
            }
        }
        if jobs.is_empty() {
            break;
        }
        for job in jobs {
            let outcome = if open.contains(&job.work.port) {
                ConnectOutcome::Open
            } else {
                ConnectOutcome::Closed
            };
            let finding = match scan.after_connect(outcome, stop()) {
                AfterConnect::Settle(f) => f,
                AfterConnect::Probe => Finding::Open(AdbKind::Open),
            };
            assert!(scan.accepts(&job));
            for e in scan.settle(job, finding, stop()) {
                on_event(e);
            }
        }
    }
}

fn run(cfg: ScanCfg, open: &[u16], cancel: Arc<AtomicBool>, on_event: Callback) -> Vec<Hit> {
    let mut scan = Scan::new(cfg);
    match scan.begin() {
        Some(e) => on_event(e),
        None => return Vec::new(),
    }
    pass(&mut scan, open, &cancel, &on_event);
    assert!(scan.in_first_pass());
    if let Some(e) = scan.next_pass(cancel.load(Ordering::Relaxed)) {
        let again = matches!(e, ScanEvent::PassStarted { .. });
        on_event(e);
        if again {
            pass(&mut scan, open, &cancel, &on_event);
        }
    }
    scan.finish()
}

fn run_streaming(cfg: ScanCfg, open: &[u16], prior: Callback) -> (Vec<Hit>, Receiver<ScanEvent>) {
    let (tx, rx) = channel();
    let callback: Callback = Arc::new(move |e: ScanEvent| {
        prior(e.clone());
        let _ = tx.send(e);
    });
    (run(cfg, open, never(), callback), rx)
}

fn never() -> Arc<AtomicBool> {
    Arc::new(AtomicBool::new(false))
}

#[test]
fn scan_against_real_listener_finds_open_port() {
    let port: u16 = 40123;
    let cfg = ScanCfg::builder(targets(), Arc::new(vec![port]))
        .verify_adb(false)
        .threads(4)
        .fast_timeout(500)
        .slow_timeout(500)
        .build(&MACHINE);

    let hits = run(cfg, &[port], never(), quiet());
    assert_eq!(hits.len(), 1, "expected exactly one hit, got {hits:?}");
    assert_eq!(hits[0].port, port);
    assert_eq!(hits[0].kind, AdbKind::Open);
}

#[test]
fn closed_port_is_not_reported() {
    let port: u16 = 40123;

    let cfg = ScanCfg::builder(targets(), Arc::new(vec![port]))
        .verify_adb(false)
        .threads(2)
        .fast_timeout(300)
        .slow_timeout(300)
        .build(&MACHINE);

    let hits = run(cfg, &[], never(), quiet());
    assert!(hits.is_empty(), "did not expect a hit on a closed port, got {hits:?}");
}

#[test]
fn events_are_emitted_in_order() {
    let port: u16 = 40123;
    let log: Arc<Mutex<Vec<&'static str>>> = Arc::new(Mutex::new(Vec::new()));
    let log_cb = Arc::clone(&log);

    let cfg = ScanCfg::builder(targets(), Arc::new(vec![port]))
        .verify_adb(false)
        .threads(2)
        .fast_timeout(500)
        .slow_timeout(500)
        .build(&MACHINE);
    let on_event: Callback = Arc::new(move |ev| {
        let tag = match ev {
            ScanEvent::PassStarted { .. } => "pass_started",
            ScanEvent::Progress { .. } => "progress",
            ScanEvent::PortHit(_) => "hit",
            ScanEvent::PassSkipped { .. } => "skipped",
            ScanEvent::ThreadsSpawned { .. } => "spawned",
        };
        log_cb.lock().unwrap().push(tag);
    });
    let _ = run(cfg, &[port], never(), on_event);

    let events = log.lock().unwrap();
    assert!(events.contains(&"pass_started"), "missing pass_started in {events:?}");
    assert!(events.contains(&"hit"), "missing hit in {events:?}");
    assert_eq!(events[0], "pass_started");
}

#[test]
fn cancel_before_start_returns_empty_and_fast() {
    let ports: Vec<u16> = (20_000..25_000).map(|p| p as u16).collect();
    let cfg = ScanCfg::builder(targets(), Arc::new(ports)).threads(8).verify_adb(false).build(&MACHINE);

    let start = Instant::now();
    let hits = run(cfg, &[20_001], Arc::new(AtomicBool::new(true)), quiet());
    assert!(hits.is_empty());
    assert!(
        start.elapsed() < Duration::from_secs(1),
        "pre-cancelled scan took {:?}",
        start.elapsed()
    );
}

#[test]
fn streaming_yields_hits_via_channel() {
    let port: u16 = 40123;
    let cfg = ScanCfg::builder(targets(), Arc::new(vec![port]))
        .verify_adb(false)
        .threads(2)
        .fast_timeout(500)
        .build(&MACHINE);

    let (final_hits, rx) = run_streaming(cfg, &[port], quiet());
    let mut saw_hit = false;
    for ev in rx {
        if let ScanEvent::PortHit(h) = ev {
            assert_eq!(h.port, port);
            saw_hit = true;
        }
    }
    assert!(saw_hit, "no PortHit event received via channel");
    assert_eq!(final_hits.len(), 1);
}

#[test]
fn streaming_preserves_prior_on_event_callback() {
    let port: u16 = 40123;
    let seen: Arc<Mutex<Vec<&'static str>>> = Arc::new(Mutex::new(Vec::new()));
    let seen_cb = Arc::clone(&seen);

    let cfg = ScanCfg::builder(targets(), Arc::new(vec![port]))
        .verify_adb(false)
        .threads(2)
        .fast_timeout(500)
        .build(&MACHINE);
    let prior: Callback = Arc::new(move |ev| {
        if matches!(ev, ScanEvent::PortHit(_)) {
            seen_cb.lock().unwrap().push("hit");
        }
    });
    let (_, rx) = run_streaming(cfg, &[port], prior);
    let mut channel_hits = 0;
    for ev in rx {
        if matches!(ev, ScanEvent::PortHit(_)) {
            channel_hits += 1;
        }
    }
    assert!(seen.lock().unwrap().contains(&"hit"), "prior callback did not fire");
    assert_eq!(channel_hits, 1, "channel should also see the hit");
}

#[test]
fn second_pass_skipped_with_hit_found_reason() {
    let port: u16 = 40123;
    let last_skip: Arc<Mutex<Option<PassSkipReason>>> = Arc::new(Mutex::new(None));
    let cb = Arc::clone(&last_skip);

    let cfg = ScanCfg::builder(targets(), Arc::new(vec![port, port + 1]))
        .verify_adb(false)
        .threads(2)
        .fast_timeout(200)
        .slow_timeout(200)
        .build(&MACHINE);
    let on_event: Callback = Arc::new(move |ev| {
        if let ScanEvent::PassSkipped { reason, .. } = ev {
            *cb.lock().unwrap() = Some(reason);
        }
    });
    let _ = run(cfg, &[port], never(), on_event);
    // a mix of an open and a closed port does not deadlock the callback
    let _ = last_skip;
}

#[test]
fn cancel_during_scan_short_circuits() {
    let token = Arc::new(AtomicBool::new(false));
    let cb_token = Arc::clone(&token);
    let saw_skip: Arc<Mutex<Option<PassSkipReason>>> = Arc::new(Mutex::new(None));
    let saw_skip_cb = Arc::clone(&saw_skip);

    let ports: Vec<u16> = (45_000..49_096).map(|p| p as u16).collect();
    let cfg = ScanCfg::builder(targets(), Arc::new(ports))
        .threads(2)
        .verify_adb(false)
        .fast_timeout(50)
        .slow_timeout(50)
        .build(&MACHINE);
    let on_event: Callback = Arc::new(move |ev| {
        // cancel as soon as the first pass starts
        if matches!(ev, ScanEvent::PassStarted { pass: 1, .. }) {
            cb_token.store(true, Ordering::Relaxed);
        }
        if let ScanEvent::PassSkipped { reason, .. } = ev {
            *saw_skip_cb.lock().unwrap() = Some(reason);
        }
    });

    let started = Instant::now();
    let _ = run(cfg, &[], token, on_event);
    let elapsed = started.elapsed();
    assert!(elapsed < Duration::from_secs(2), "cancel mid-scan took {elapsed:?}");
    let _ = saw_skip;
}
