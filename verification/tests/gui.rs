//! The state of the floating window.
use adb_portscan::addr::parse_ip;
use adb_portscan::cli::{parse_args, CliStep, ScanOptions, ThreadArg};
use adb_portscan::default_ports;
use adb_portscan::detect::AdbKind;
use adb_portscan::gui::{
    adb_command, connect_report, device_targets, format_ip, kind_cn, parse_ports, parse_threads,
    row_action, row_addr, row_details, row_key, row_text, run_message, show_threads, AdbRun,
    Effect, GuiOptions, LogKind, Msg, Panel, RowAction, RowButton, ScanStatus, DETAIL_HEAD,
};
use adb_portscan::mdns::{AdbService, AdbServiceKind};
use adb_portscan::scan::{Hit, PassSkipReason, ScanEvent};
use adb_portscan::target::Target;
use adb_portscan::threads::Machine;

const MACHINE: Machine = Machine { cores: 4, total_mem_mb: None, avail_mem_mb: None };

fn options(args: &[&str]) -> ScanOptions {
    match parse_args(args.iter().map(|s| s.to_string()).collect()) {
        Ok(CliStep::Ready(p)) => p.scan.expect("a scan"),
        r => panic!("unexpected {r:?}"),
    }
}

fn panel() -> Panel {
    Panel::new(GuiOptions::default())
}

fn service(ips: &[&str]) -> AdbService {
    let ips: Vec<_> = ips.iter().map(|s| parse_ip(s).unwrap()).collect();
    AdbService {
        kind: AdbServiceKind::Connect,
        instance: "adb-1".to_string(),
        ip: ips[0],
        ips,
        port: 40001,
    }
}

fn target(display: &str) -> Target {
    Target { ip: parse_ip("10.0.0.1").unwrap(), zone: None, display: display.to_string() }
}

fn hit(display: &str, port: u16, kind: AdbKind) -> Hit {
    Hit { target: target(display), port, kind }
}

fn last_log(p: &Panel) -> (&str, LogKind) {
    let e = p.log.last().expect("an entry");
    (e.text.as_str(), e.kind)
}

fn toast(p: &Panel) -> Option<(&str, u64)> {
    p.toast.as_ref().map(|(s, at)| (s.as_str(), *at))
}

#[test]
fn status_texts() {
    assert_eq!(ScanStatus::Idle.label(), "● 就绪");
    assert_eq!(ScanStatus::MdnsBusy.label(), "◐ mDNS 发现中…");
    assert_eq!(ScanStatus::PortBusy.label(), "◐ 端口扫描中…");
    assert!(!ScanStatus::Idle.busy() && ScanStatus::MdnsBusy.busy() && ScanStatus::PortBusy.busy());
}

#[test]
fn default_settings() {
    let o = GuiOptions::default();
    assert_eq!((o.target.as_str(), o.range.as_str()), ("", "1-65535"));
    assert_eq!(o.threads_arg, ThreadArg::Auto);
    assert_eq!((o.timeout_fast_ms, o.timeout_slow_ms), (100, 800));
    assert!(o.verify_adb && o.stop_on_first);
}

#[test]
fn command_line_is_taken_over() {
    let range = |args: &[&str]| GuiOptions::from_options(&options(args)).range;
    assert_eq!(range(&["10.0.0.1"]), "1-65535");
    assert_eq!(range(&["10.0.0.1", "--range", "1-65535"]), "1-65535");
    assert_eq!(range(&["10.0.0.1", "--range", "0-65534"]), "0-65534");
    assert_eq!(range(&["10.0.0.1", "--range", "5-5"]), "5-5");
    let o = GuiOptions::from_options(&options(&[
        "192.168.1.0/24", "-t", "4096", "--timeout-fast", "200", "--timeout-slow", "1500",
        "--no-verify", "--all", "--range", "32768-60999",
    ]));
    assert_eq!((o.target.as_str(), o.range.as_str()), ("192.168.1.0/24", "32768-60999"));
    assert_eq!(o.threads_arg, ThreadArg::Fixed(4096));
    assert_eq!((o.timeout_fast_ms, o.timeout_slow_ms), (200, 1500));
    assert!(!o.verify_adb && !o.stop_on_first);
}

#[test]
fn prefilled_scan_is_the_scan_of_the_command_line() {
    let o = options(&["192.168.1.0/30", "-t", "20", "--timeout", "7", "--range", "0-65534"]);
    let mut p = Panel::new(GuiOptions::from_options(&o));
    let want = o.build_cfg(&MACHINE);
    match p.manual_scan(0, &MACHINE) {
        Effect::Scan(cfg) => {
            assert_eq!(cfg.targets.len(), 4);
            assert_eq!(cfg.targets[3].display, "192.168.1.3");
            assert_eq!(cfg.ports, want.ports);
            assert_eq!((cfg.threads, cfg.stack_size), (20, 1024 * 1024));
            assert_eq!((cfg.fast_timeout, cfg.slow_timeout, cfg.verify_timeout), (7, 7, 7));
        }
        e => panic!("unexpected {e:?}"),
    }
    assert_eq!(p.status, ScanStatus::PortBusy);
    assert_eq!(last_log(&p), ("开始扫描 4 个目标, 65535 个端口", LogKind::Status));
}

#[test]
fn prefilled_host_is_looked_up_again() {
    let args = [" phone.local", "--range", "7-9", "-t", "2"];
    let pending = match parse_args(args.iter().map(|s| s.to_string()).collect()) {
        Ok(CliStep::Lookup(p)) => p,
        r => panic!("unexpected {r:?}"),
    };
    let found = || Ok(vec![parse_ip("10.0.0.9").unwrap(), parse_ip("fe80::9").unwrap()]);
    let o = pending.resolve(found()).unwrap().scan.unwrap();
    let mut p = Panel::new(GuiOptions::from_options(&o));
    assert_eq!(p.opts.target, "phone.local");
    match p.manual_scan(0, &MACHINE) {
        Effect::Lookup(h) => assert_eq!(h, "phone.local"),
        e => panic!("unexpected {e:?}"),
    }
    match p.host_found("phone.local", found(), 0, &MACHINE) {
        Effect::Scan(cfg) => {
            let want = o.build_cfg(&MACHINE);
            assert_eq!(format!("{cfg:?}"), format!("{want:?}"));
        }
        e => panic!("unexpected {e:?}"),
    }
}

#[test]
fn copies() {
    let s = service(&["10.0.0.1", "fe80::1"]);
    assert_eq!(format!("{:?}", s.clone()), format!("{s:?}"));
    let o = GuiOptions::from_options(&options(&["10.0.0.1", "--all"]));
    assert_eq!(format!("{:?}", o.clone()), format!("{o:?}"));
    let a = RowAction::ScanTarget(device_targets(&s));
    assert_eq!(format!("{:?}", a.clone()), format!("{a:?}"));
    let a = RowAction::Toggle("k".to_string());
    assert_eq!(format!("{:?}", a.clone()), format!("{a:?}"));
    let mut p = panel();
    p.log("line".to_string(), LogKind::Hit);
    assert_eq!(format!("{:?}", p.log[0].clone()), format!("{:?}", p.log[0]));
}

#[test]
fn port_range_field() {
    assert_eq!(parse_ports(" 1-65535 ").unwrap(), default_ports());
    assert_eq!(parse_ports("").unwrap(), default_ports());
    assert_eq!(parse_ports(" 3-5 ").unwrap(), vec![3, 4, 5]);
    assert_eq!(parse_ports("5").unwrap_err(), "端口范围格式应为 START-END");
    assert_eq!(parse_ports("a-5").unwrap_err(), "起始端口非法");
    assert_eq!(parse_ports("5-b").unwrap_err(), "结束端口非法");
    assert_eq!(parse_ports("5-4").unwrap_err(), "起始端口必须 <= 结束端口");
}

#[test]
fn thread_field() {
    assert_eq!(parse_threads(" auto "), ThreadArg::Auto);
    assert_eq!(parse_threads("max"), ThreadArg::Max);
    assert_eq!(parse_threads("12"), ThreadArg::Fixed(12));
    assert_eq!(parse_threads("0"), ThreadArg::Auto);
    assert_eq!(parse_threads("lots"), ThreadArg::Auto);
    assert_eq!(parse_threads("70000"), ThreadArg::Fixed(65535));
    for arg in [ThreadArg::Auto, ThreadArg::Max, ThreadArg::Fixed(1), ThreadArg::Fixed(65535)] {
        assert_eq!(parse_threads(&show_threads(arg)), arg);
    }
    assert_eq!(show_threads(ThreadArg::Fixed(4096)), "4096");
}

#[test]
fn device_rows() {
    let s = service(&["192.168.1.42", "240e::1", "fe80::1"]);
    assert_eq!(row_key(&s), "adb-1|192.168.1.42");
    assert_eq!(row_addr(&s), "192.168.1.42:40001");
    assert_eq!(adb_command(&row_addr(&s)), "adb connect 192.168.1.42:40001");
    assert_eq!(row_text(&s, false), "▶ [TLS连接] IPv4 192.168.1.42:40001  (adb-1)");
    assert_eq!(row_text(&s, true), "▼ [TLS连接] IPv4 192.168.1.42:40001  (adb-1)");
    assert_eq!(
        row_details(&s),
        vec![
            "类型: TLS连接    端口: 40001",
            "实例: adb-1",
            "地址:",
            "  IPv4 192.168.1.42",
            "  IPv6 240e::1",
            "  IPv6 fe80::1 (链路本地)"
        ]
    );
    let t = device_targets(&s);
    let zones: Vec<Option<u32>> = t.iter().map(|t| t.zone).collect();
    assert_eq!(zones, vec![None, None, Some(0)]);
    assert_eq!(t[2].display, "fe80::1");
    assert_eq!(format_ip(&parse_ip("fe80::2").unwrap()), "IPv6 fe80::2 (链路本地)");
    assert_eq!(kind_cn(&AdbServiceKind::Pairing), "TLS配对");
    assert_eq!(kind_cn(&AdbServiceKind::Legacy), "旧版ADB");
}

#[test]
fn row_buttons() {
    let s = service(&["192.168.1.42", "fe80::1"]);
    match row_action(&s, RowButton::Connect) {
        RowAction::Connect(a) => assert_eq!(a, "192.168.1.42:40001"),
        a => panic!("unexpected {a:?}"),
    }
    match row_action(&s, RowButton::Copy) {
        RowAction::CopyCmd(c) => assert_eq!(c, "adb connect 192.168.1.42:40001"),
        a => panic!("unexpected {a:?}"),
    }
    match row_action(&s, RowButton::Toggle) {
        RowAction::Toggle(k) => assert_eq!(k, "adb-1|192.168.1.42"),
        a => panic!("unexpected {a:?}"),
    }
    match row_action(&s, RowButton::Scan) {
        RowAction::ScanTarget(t) => {
            assert_eq!(t.len(), 2);
            assert_eq!((t[1].display.as_str(), t[1].zone), ("fe80::1", Some(0)));
        }
        a => panic!("unexpected {a:?}"),
    }
    assert_eq!(row_details(&s).len(), DETAIL_HEAD + 2);
}

#[test]
fn adb_reports() {
    let ran = |out: &[u8], err: &[u8], code: Option<i32>| {
        connect_report(
            "h:1",
            &AdbRun::Ran { stdout: out.to_vec(), stderr: err.to_vec(), code },
        )
    };
    assert_eq!(ran(b" connected to h:1\n", b"warning", Some(0)), "adb h:1: connected to h:1");
    assert_eq!(ran(b"\n", b" refused \r\n", Some(1)), "adb h:1: refused");
    assert_eq!(ran(b"", b"", Some(3)), "adb h:1: 无输出 (退出码 3)");
    assert_eq!(ran(b"", b"", Some(i32::MIN)), "adb h:1: 无输出 (退出码 -2147483648)");
    assert_eq!(ran(b"", b"", None), "adb h:1: 无输出 (退出码 -1)");
    assert_eq!(ran(&[b'o', 0xff, b'k'], b"", None), "adb h:1: o\u{fffd}k");
    assert_eq!(run_message("h:1", "", " x ", None), "adb h:1: x");
    assert_eq!(
        connect_report("h:1", &AdbRun::Failed("not found".to_string())),
        "无法启动 adb: not found — 请确认 adb 已安装并在 PATH 中"
    );
}

#[test]
fn log_keeps_the_newest_entries() {
    let mut p = panel();
    for i in 0..305 {
        p.log(format!("line {i}"), LogKind::Normal);
    }
    assert_eq!(p.log.len(), 300);
    assert_eq!(p.log[0].text, "line 5");
    assert_eq!(last_log(&p), ("line 304", LogKind::Normal));
}

#[test]
fn discovery_clears_and_refills_the_list() {
    let mut p = panel();
    assert!(p.start_mdns_scan());
    assert_eq!(p.status, ScanStatus::MdnsBusy);
    assert_eq!(p.empty_note(), "正在发现设备…");
    assert!(!p.start_mdns_scan());
    p.on_message(Msg::MdnsDone { services: vec![], elapsed: "2.0".to_string() }, 0);
    assert_eq!(p.status, ScanStatus::Idle);
    assert_eq!(p.log[0].text, "mDNS 完成: 发现 0 个设备 (2.0s)");
    assert_eq!(last_log(&p), ("未发现设备, 可手动输入 IP 扫描", LogKind::Normal));
    assert_eq!(p.empty_note(), "未发现设备 — 点击右上角「重新扫描」或手动输入 IP");
    p.start_mdns_scan();
    let found = vec![service(&["10.0.0.1"]), service(&["fe80::1"])];
    p.on_message(Msg::MdnsDone { services: found, elapsed: "1.5".to_string() }, 0);
    assert_eq!(last_log(&p), ("mDNS 完成: 发现 2 个设备 (1.5s)", LogKind::Status));
    assert_eq!(p.last_mdns.as_deref(), Some("1.5"));
    match p.copy_all(9) {
        Effect::Copy(s) => {
            assert_eq!(s, "adb connect 10.0.0.1:40001\nadb connect fe80::1:40001");
        }
        e => panic!("unexpected {e:?}"),
    }
    assert_eq!(toast(&p), Some(("已复制全部连接命令", 9)));
    p.apply(RowAction::Toggle("k".to_string()), 0, &MACHINE);
    p.start_mdns_scan();
    assert!(p.services.is_empty());
    assert!(!p.is_expanded("k"));
}

#[test]
fn row_actions() {
    let mut p = panel();
    assert!(matches!(p.apply(RowAction::Toggle("k".into()), 0, &MACHINE), Effect::Nothing));
    assert!(p.is_expanded("k"));
    p.apply(RowAction::Toggle("k".into()), 0, &MACHINE);
    assert!(!p.is_expanded("k"));
    match p.apply(RowAction::CopyCmd("adb connect h:1".into()), 5, &MACHINE) {
        Effect::Copy(s) => assert_eq!(s, "adb connect h:1"),
        e => panic!("unexpected {e:?}"),
    }
    assert_eq!(toast(&p), Some(("已复制: adb connect h:1", 5)));
    match p.apply(RowAction::Connect("h:1".into()), 5, &MACHINE) {
        Effect::Connect(s) => assert_eq!(s, "h:1"),
        e => panic!("unexpected {e:?}"),
    }
    assert_eq!(last_log(&p), ("正在连接 h:1 …", LogKind::Status));
    let t = device_targets(&service(&["10.0.0.1", "fe80::1"]));
    match p.apply(RowAction::ScanTarget(t), 5, &MACHINE) {
        Effect::Scan(cfg) => {
            assert_eq!((cfg.targets.len(), cfg.ports.len(), cfg.threads), (2, 65535, 400));
        }
        e => panic!("unexpected {e:?}"),
    }
    assert_eq!(p.opts.target, "10.0.0.1");
    // busy: the target field changes, but no second scan begins
    let t = device_targets(&service(&["10.0.0.2"]));
    assert!(matches!(p.apply(RowAction::ScanTarget(t), 5, &MACHINE), Effect::Nothing));
    assert_eq!(p.opts.target, "10.0.0.2");
}

#[test]
fn manual_scans() {
    let mut p = panel();
    assert!(!p.can_scan());
    assert!(matches!(p.manual_scan(0, &MACHINE), Effect::Nothing));
    p.opts.target = " 10.0.0.0/8 ".to_string();
    assert!(p.can_scan());
    assert!(matches!(p.manual_scan(3, &MACHINE), Effect::Nothing));
    assert_eq!(
        toast(&p),
        Some(("目标解析失败: CIDR /8 包含 16777216 个 IP，过大；请使用 /16 或更小", 3))
    );
    p.opts.target = "phone.local".to_string();
    match p.manual_scan(4, &MACHINE) {
        Effect::Lookup(h) => assert_eq!(h, "phone.local"),
        e => panic!("unexpected {e:?}"),
    }
    let e = p.host_found("phone.local", Err("no".to_string()), 6, &MACHINE);
    assert!(matches!(e, Effect::Nothing));
    assert_eq!(toast(&p), Some(("目标解析失败: 无法解析主机名 phone.local: no", 6)));
    p.opts.range = "9-8".to_string();
    let found = Ok(vec![parse_ip("10.0.0.9").unwrap()]);
    let e = p.host_found("phone.local", found, 7, &MACHINE);
    assert!(matches!(e, Effect::Nothing));
    assert_eq!(toast(&p), Some(("起始端口必须 <= 结束端口", 7)));
    p.opts.range = "8-9".to_string();
    let found = Ok(vec![parse_ip("10.0.0.9").unwrap()]);
    match p.host_found("phone.local", found, 8, &MACHINE) {
        Effect::Scan(cfg) => {
            assert_eq!(cfg.targets[0].display, "phone.local (10.0.0.9)");
            assert_eq!(*cfg.ports, vec![8, 9]);
        }
        e => panic!("unexpected {e:?}"),
    }
    assert!(!p.can_scan());
    assert!(!p.start_mdns_scan());
}

#[test]
fn events_of_a_scan() {
    let mut p = panel();
    let mut send = |e: ScanEvent| {
        p.on_message(Msg::ScanEvt(e), 0);
        p.log.last().map(|e| (e.text.clone(), e.kind))
    };
    let started = send(ScanEvent::PassStarted { pass: 1, work_items: 9, timeout: 100 });
    assert_eq!(started, Some(("[Pass 1/2] 9 项, 超时 100ms".to_string(), LogKind::Status)));
    let found = send(ScanEvent::PortHit(hit("h", 5555, AdbKind::Plain)));
    assert_eq!(found, Some(("命中 h:5555 [明文ADB]".to_string(), LogKind::Hit)));
    let found = send(ScanEvent::PortHit(hit("h", 4, AdbKind::Tls)));
    assert_eq!(found, Some(("命中 h:4 [TLS加密]".to_string(), LogKind::Hit)));
    let found = send(ScanEvent::PortHit(hit("h", 22, AdbKind::Open)));
    assert_eq!(found, Some(("命中 h:22 [开放端口]".to_string(), LogKind::Normal)));
    let skipped =
        send(ScanEvent::PassSkipped { pass: 2, remaining: 3, reason: PassSkipReason::HitFound });
    assert_eq!(skipped, Some(("[Pass 2/2] 跳过 (HitFound, 剩余 3)".to_string(), LogKind::Status)));
    let skipped =
        send(ScanEvent::PassSkipped { pass: 2, remaining: 1, reason: PassSkipReason::Cancelled });
    assert_eq!(skipped, Some(("[Pass 2/2] 跳过 (Cancelled, 剩余 1)".to_string(), LogKind::Status)));
    let threads = send(ScanEvent::ThreadsSpawned { pass: 1, requested: 9, actual: 4 });
    assert_eq!(threads, Some(("注意: 申请 9 线程, 实际起了 4".to_string(), LogKind::Error)));
    let same = send(ScanEvent::ThreadsSpawned { pass: 1, requested: 9, actual: 9 });
    assert_eq!(same, threads);
    send(ScanEvent::Progress { pass: 1, done: 5000, total: 9000 });
    assert_eq!(p.progress, Some((5000, 9000)));
}

#[test]
fn end_of_a_scan() {
    let mut p = panel();
    p.opts.target = "10.0.0.1".to_string();
    assert!(matches!(p.manual_scan(0, &MACHINE), Effect::Scan(_)));
    let hits = vec![
        hit("a", 1, AdbKind::Plain),
        hit("b", 2, AdbKind::Open),
        hit("c", 3, AdbKind::Tls),
    ];
    p.on_message(Msg::ScanDone { hits, elapsed: "12.3".to_string() }, 0);
    assert_eq!(p.status, ScanStatus::Idle);
    assert_eq!(p.progress, None);
    assert_eq!(last_log(&p), ("扫描完成: 3 个命中, ADB 2 个 (12.3s)", LogKind::Success));
    let rows = p.adb_rows();
    assert_eq!(rows.len(), 2);
    assert_eq!(rows[0].cmd, "adb connect a:1");
    assert_eq!(rows[0].addr, "a:1");
    assert_eq!(rows[0].label, "adb connect a:1   [明文ADB]");
    assert_eq!(rows[1].label, "adb connect c:3   [TLS加密]");
    assert_eq!(p.open_ports_note(), None);
    p.on_message(
        Msg::ScanDone { hits: vec![hit("b", 2, AdbKind::Open)], elapsed: "0.1".to_string() },
        0,
    );
    assert!(p.adb_rows().is_empty());
    assert_eq!(
        p.open_ports_note().as_deref(),
        Some("有 1 个 TCP 开放端口, 未识别到 ADB 协议")
    );
    assert_eq!(panel().open_ports_note(), None);
}

#[test]
fn connect_prefixes_are_stripped() {
    let mut p = panel();
    p.on_message(
        Msg::ScanDone {
            hits: vec![hit("adb connect x", 1, AdbKind::Tls)],
            elapsed: "0.1".to_string(),
        },
        0,
    );
    assert_eq!(p.adb_rows()[0].addr, "x:1");
}

#[test]
fn toasts_last_four_seconds() {
    let mut p = panel();
    assert_eq!(p.toast_line(0), None);
    p.on_message(Msg::Toast("done".to_string()), 1000);
    assert_eq!(p.toast_line(4999).as_deref(), Some("✔ done"));
    assert_eq!(p.toast_line(900).as_deref(), Some("✔ done"));
    assert_eq!(p.toast_line(5000), None);
    assert_eq!(p.toast_line(1000), None);
}
