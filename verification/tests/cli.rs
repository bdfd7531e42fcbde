//! The command line.
use adb_portscan::addr::parse_ip;
use adb_portscan::cli::{
    parse_args, read_range, CliStep, ParsedArgs, RangeRead, ScanOptions, ThreadArg, USAGE,
};
use adb_portscan::default_ports;
use adb_portscan::threads::Machine;

const MACHINE: Machine = Machine { cores: 4, total_mem_mb: None, avail_mem_mb: None };

fn step(args: &[&str]) -> Result<CliStep, String> {
    parse_args(args.iter().map(|s| s.to_string()).collect())
}

fn parsed(args: &[&str]) -> ParsedArgs {
    match step(args) {
        Ok(CliStep::Ready(p)) => p,
        r => panic!("unexpected {r:?}"),
    }
}

fn options(args: &[&str]) -> ScanOptions {
    parsed(args).scan.expect("a scan")
}

fn error(args: &[&str]) -> String {
    match step(args) {
        Err(e) => e,
        r => panic!("unexpected {r:?}"),
    }
}

#[test]
fn no_arguments() {
    let p = parsed(&[]);
    assert!(!p.gui);
    assert!(p.scan.is_none());
    assert!(parsed(&["--gui"]).gui);
}

#[test]
fn default_options() {
    let o = options(&["192.168.1.42"]);
    assert_eq!(o.target, "192.168.1.42");
    assert_eq!(o.targets.len(), 1);
    assert_eq!(o.ports, default_ports());
    assert_eq!(o.threads_arg, ThreadArg::Auto);
    assert_eq!((o.timeout_fast_ms, o.timeout_slow_ms), (100, 800));
    assert!(o.verify_adb && o.stop_on_first);
    assert_eq!(o.work_items(), 65535);
}

#[test]
fn all_options() {
    let o = options(&[
        "--range", "32768-60999", "-t", "4096", "10.0.0.0/30", "--timeout-fast", "200",
        "--timeout-slow", "1500", "--no-verify", "--all",
    ]);
    assert_eq!(o.target, "10.0.0.0/30");
    assert_eq!(o.targets.len(), 4);
    assert_eq!((o.ports.len(), o.ports[0], o.ports[28231]), (28232, 32768, 60999));
    assert_eq!(o.threads_arg, ThreadArg::Fixed(4096));
    assert_eq!((o.timeout_fast_ms, o.timeout_slow_ms), (200, 1500));
    assert!(!o.verify_adb && !o.stop_on_first);
    assert_eq!(o.work_items(), 4 * 28232);
    let cfg = o.build_cfg(&MACHINE);
    assert_eq!((cfg.threads, cfg.stack_size), (4096, 256 * 1024));
    assert_eq!((cfg.fast_timeout, cfg.slow_timeout, cfg.verify_timeout), (200, 1500, 1500));
    assert_eq!(cfg.targets.len(), 4);
    assert_eq!(cfg.ports.len(), 28232);
    assert!(!cfg.verify_adb && !cfg.stop_on_first);
}

#[test]
fn later_arguments_win() {
    let o = options(&["::1", "--all", "--first", "--no-verify", "--verify", "--timeout", "5"]);
    assert!(o.verify_adb && o.stop_on_first);
    assert_eq!((o.timeout_fast_ms, o.timeout_slow_ms), (5, 5));
    let o = options(&["::1", "--timeout", "5", "--timeout-slow", "9", "--threads", "max"]);
    assert_eq!((o.timeout_fast_ms, o.timeout_slow_ms), (5, 9));
    assert_eq!(o.threads_arg, ThreadArg::Max);
    assert_eq!(options(&["::1", "-t", "max", "-t", "auto"]).threads_arg, ThreadArg::Auto);
    assert_eq!(options(&["::1", "-t", "+7"]).threads_arg, ThreadArg::Fixed(7));
}

#[test]
fn help_ends_the_reading() {
    assert!(matches!(step(&["-h"]), Ok(CliStep::Help)));
    assert!(matches!(step(&["--gui", "--help", "--nonsense"]), Ok(CliStep::Help)));
    assert_eq!(error(&["--nonsense", "--help"]), "未知参数 --nonsense");
    assert!(USAGE.starts_with("用法:\nadb_portScan  "));
    assert!(USAGE.ends_with("\n-h, --help          显示帮助"));
}

#[test]
fn wrong_arguments() {
    assert_eq!(error(&["--range"]), "--range 缺少参数");
    assert_eq!(error(&["-t"]), "--threads 缺少参数");
    assert_eq!(error(&["--threads"]), "--threads 缺少参数");
    assert_eq!(error(&["--timeout-fast"]), "--timeout-fast 缺少参数");
    assert_eq!(error(&["--timeout-slow"]), "--timeout-slow 缺少参数");
    assert_eq!(error(&["--timeout"]), "--timeout 缺少参数");
    assert_eq!(error(&["--range", "5"]), "--range 格式应为 START-END");
    assert_eq!(error(&["--range", "x-5"]), "start port 非法");
    assert_eq!(error(&["--range", "5-65536"]), "end port 非法");
    assert_eq!(error(&["--range", "-5-6"]), "start port 非法");
    assert_eq!(error(&["--range", "6-5"]), "start 必须 <= end");
    assert_eq!(error(&["-t", "many"]), "threads 非法");
    assert_eq!(error(&["-t", "0"]), "threads 必须 > 0");
    assert_eq!(error(&["-t", "65536"]), "threads 不能超过 65535");
    assert_eq!(error(&["--timeout", "-1"]), "非法");
    assert_eq!(error(&["--timeout-fast", "1.5"]), "非法");
    assert_eq!(error(&["--timeout-slow", "18446744073709551616"]), "非法");
    assert_eq!(error(&["-x"]), "未知参数 -x");
    assert_eq!(error(&["::1", "::2"]), "多余的位置参数 ::2");
    assert_eq!(error(&["--range", "1-2"]), "--range 需要配合目标使用");
    assert_eq!(error(&["-t", "5"]), "-t/--threads 需要配合目标使用");
    assert_eq!(error(&[""]), "空输入");
    assert_eq!(error(&["10.0.0.0/8"]), "CIDR /8 包含 16777216 个 IP，过大；请使用 /16 或更小");
    assert!(parsed(&["-t", "auto", "--timeout", "3"]).scan.is_none());
}

#[test]
fn host_names_are_looked_up() {
    let pending = match step(&["phone.local", "--range", "1-2", "--gui"]) {
        Ok(CliStep::Lookup(p)) => p,
        r => panic!("unexpected {r:?}"),
    };
    assert_eq!(pending.host, "phone.local");
    let p = pending.resolve(Ok(vec![parse_ip("10.0.0.7").unwrap()])).unwrap();
    assert!(p.gui);
    let o = p.scan.unwrap();
    assert_eq!(o.target, "phone.local");
    assert_eq!(o.targets[0].display, "phone.local (10.0.0.7)");
    assert_eq!(o.ports, vec![1, 2]);
    let pending = match step(&["phone.local"]) {
        Ok(CliStep::Lookup(p)) => p,
        r => panic!("unexpected {r:?}"),
    };
    assert_eq!(
        pending.resolve(Err("nope".to_string())).unwrap_err(),
        "无法解析主机名 phone.local: nope"
    );
}

#[test]
fn blanks_around_the_target() {
    let o = options(&[" 10.0.0.5 "]);
    assert_eq!(o.target, "10.0.0.5");
    assert_eq!(o.targets[0].display, "10.0.0.5");
    let o = options(&["\t10.0.0.0/30"]);
    assert_eq!((o.target.as_str(), o.targets.len()), ("10.0.0.0/30", 4));
    match step(&[" phone.local "]) {
        Ok(CliStep::Lookup(p)) => {
            assert_eq!((p.host.as_str(), p.scan.target.as_str()), ("phone.local", "phone.local"));
        }
        r => panic!("unexpected {r:?}"),
    }
}

#[test]
fn options_are_cloned() {
    let o = options(&["10.0.0.0/30", "--range", "5-9", "-t", "7", "--all"]);
    let c = o.clone();
    assert_eq!(format!("{o:?}"), format!("{c:?}"));
}

#[test]
fn range_texts() {
    assert!(matches!(read_range("1-65535"), RangeRead::Ports(1, 65535)));
    assert!(matches!(read_range("0-0"), RangeRead::Ports(0, 0)));
    assert!(matches!(read_range("12"), RangeRead::NoDash));
    assert!(matches!(read_range("-1"), RangeRead::BadStart));
    assert!(matches!(read_range("1-"), RangeRead::BadEnd));
    assert!(matches!(read_range("1-2-3"), RangeRead::BadEnd));
    assert!(matches!(read_range("2-1"), RangeRead::Reversed));
}
