//! The command line: which scan the user asks for, and how.
use std::sync::Arc;
use vstd::prelude::*;

use crate::addr::IpAddr;
use crate::ports;
use crate::ports::{default_ports, port_range};
use crate::scan;
use crate::scan::{count_items, ScanCfg, ScanCfgBuilder};
use crate::target;
use crate::target::{host_targets, parse_targets, Target, TargetModel, Targets, TargetsModel};
use crate::text;
use crate::threads;
use crate::threads::{auto_threads, Machine, HARD_MAX_THREADS};

verus! {

/// The help text.
pub const USAGE: &'static str = "用法:\n\
adb_portScan                         启动悬浮窗 GUI (默认)\n\
adb_portScan <目标> [选项]           启动 GUI 并预填目标\n\
\n\
目标可以是:\n\
IPv4              192.168.1.42\n\
IPv6              fe80::1\n\
IPv6 + zone       fe80::1%2\n\
主机名             phone.local\n\
CIDR 子网          192.168.1.0/24  (最大 /16)\n\
\n\
默认行为:\n\
扫 1-65535 全端口，按命中概率排序。两遍扫描 (100ms / 800ms)，\n\
命中第一个 ADB 端口即停。\n\
\n\
选项:\n\
--range S-E         只扫指定端口范围\n\
-t, --threads N     线程数: auto (默认) / max (65535) / 具体数字\n\
--timeout-fast MS   第一遍超时 默认 100\n\
--timeout-slow MS   第二遍超时 默认 800\n\
--timeout MS        同时设置 fast/slow\n\
--no-verify         不做 ADB/TLS 校验, 仅检测 TCP 开放\n\
--all               扫完全部端口 (不在命中后停止)\n\
-h, --help          显示帮助";

/// How the user wants to pick the number of scanner threads.
#[derive(Debug, Clone, Copy, PartialEq, Eq, Structural)]
pub enum ThreadArg {
    Auto,
    Max,
    Fixed(usize),
}

/// The number of threads that `arg` means for `work_items` items on `machine`.
pub open spec fn resolved(arg: ThreadArg, work_items: int, machine: Machine) -> int {
    let items = threads::greatest(work_items, 1);
    match arg {
        ThreadArg::Auto => threads::auto_count(machine, items),
        ThreadArg::Max => threads::least(HARD_MAX_THREADS as int, items),
        ThreadArg::Fixed(n) => threads::greatest(threads::least(n as int, items), 1),
    }
}

impl ThreadArg {
    /// The number of threads for `work_items` items on `machine`.
    pub fn resolve(self, work_items: usize, machine: &Machine) -> (r: usize)
        ensures
            r == resolved(self, work_items as int, *machine),
    {
        let items: usize = if work_items < 1 {
            1
        } else {
            work_items
        };
        match self {
            ThreadArg::Auto => auto_threads(items, machine).chosen,
            ThreadArg::Max => if HARD_MAX_THREADS < items {
                HARD_MAX_THREADS
            } else {
                items
            },
            ThreadArg::Fixed(n) => {
                let m: usize = if n < items {
                    n
                } else {
                    items
                };
                if m < 1 {
                    1
                } else {
                    m
                }
            },
        }
    }
}

/// There is always at least one thread and never more than there are work items, or one.
/// `Max` and `Auto` also stay within the upper bound.
pub proof fn law_resolved_bounds(arg: ThreadArg, work_items: int, machine: Machine)
    requires
        work_items >= 0,
    ensures
        1 <= resolved(arg, work_items, machine) <= threads::greatest(work_items, 1),
        !(arg is Fixed) ==> resolved(arg, work_items, machine) <= HARD_MAX_THREADS,
{
    threads::law_auto_count_bounds(machine, threads::greatest(work_items, 1));
}

/// Everything that a scan needs, as the command line gives it.
#[derive(Debug)]
pub struct ScanOptions {
    /// The target as it was written, without the white space around it.
    pub target: String,
    pub targets: Vec<Target>,
    pub ports: Vec<u16>,
    pub threads_arg: ThreadArg,
    pub timeout_fast_ms: u64,
    pub timeout_slow_ms: u64,
    pub verify_adb: bool,
    pub stop_on_first: bool,
}

/// The model of `ScanOptions`.
#[verifier::ext_equal]
pub struct OptionsModel {
    pub target: Seq<char>,
    pub targets: Seq<TargetModel>,
    pub ports: Seq<u16>,
    pub threads_arg: ThreadArg,
    pub timeout_fast_ms: u64,
    pub timeout_slow_ms: u64,
    pub verify_adb: bool,
    pub stop_on_first: bool,
}

impl View for ScanOptions {
    type V = OptionsModel;

    open spec fn view(&self) -> OptionsModel {
        OptionsModel {
            target: self.target@,
            targets: target::target_models(self.targets@),
            ports: self.ports@,
            threads_arg: self.threads_arg,
            timeout_fast_ms: self.timeout_fast_ms,
            timeout_slow_ms: self.timeout_slow_ms,
            verify_adb: self.verify_adb,
            stop_on_first: self.stop_on_first,
        }
    }
}

pub(crate) fn copy_targets(v: &Vec<Target>) -> (r: Vec<Target>)
    ensures
        r@ == v@,
{
    let mut out: Vec<Target> = Vec::new();
    let mut i: usize = 0;
    while i < v.len()
        invariant
            i <= v@.len(),
            out@ == v@.take(i as int),
        decreases v@.len() - i,
    {
        out.push(v[i].clone());
        assert(out@ =~= v@.take(i + 1));
        i = i + 1;
    }
    assert(v@.take(i as int) =~= v@);
    out
}

fn copy_ports(v: &Vec<u16>) -> (r: Vec<u16>)
    ensures
        r@ == v@,
{
    let mut out: Vec<u16> = Vec::new();
    let mut i: usize = 0;
    while i < v.len()
        invariant
            i <= v@.len(),
            out@ == v@.take(i as int),
        decreases v@.len() - i,
    {
        out.push(v[i]);
        assert(out@ =~= v@.take(i + 1));
        i = i + 1;
    }
    assert(v@.take(i as int) =~= v@);
    out
}

impl Clone for ScanOptions {
    fn clone(&self) -> (r: ScanOptions)
        ensures
            r@ == self@,
    {
        let targets: Vec<Target> = copy_targets(&self.targets);
        let ports: Vec<u16> = copy_ports(&self.ports);
        ScanOptions {
            target: self.target.clone(),
            targets,
            ports,
            threads_arg: self.threads_arg,
            timeout_fast_ms: self.timeout_fast_ms,
            timeout_slow_ms: self.timeout_slow_ms,
            verify_adb: self.verify_adb,
            stop_on_first: self.stop_on_first,
        }
    }
}

/// The number of threads that the options mean on `machine`.
pub open spec fn options_threads(o: OptionsModel, machine: Machine) -> int {
    resolved(
        o.threads_arg,
        scan::item_count(o.targets.len() as int, o.ports.len() as int),
        machine,
    )
}

/// The scan configuration that the options mean on `machine`.
pub open spec fn options_cfg(o: OptionsModel, machine: Machine) -> scan::CfgModel {
    scan::CfgModel {
        targets: o.targets,
        ports: o.ports,
        threads: options_threads(o, machine) as usize,
        fast_timeout: o.timeout_fast_ms,
        slow_timeout: o.timeout_slow_ms,
        verify_timeout: o.timeout_slow_ms,
        verify_adb: o.verify_adb,
        stop_on_first: o.stop_on_first,
        stack_size: threads::stack_size(options_threads(o, machine)) as usize,
    }
}

impl ScanOptions {
    /// The number of work items: targets times ports.
    pub fn work_items(&self) -> (r: usize)
        ensures
            r == scan::item_count(self.targets@.len() as int, self.ports@.len() as int),
    {
        count_items(self.targets.len(), self.ports.len())
    }

    /// Starts a scan configuration from the options.
    pub fn cfg_builder(&self, machine: &Machine) -> (r: ScanCfgBuilder)
        ensures
            r.targets@ == self.targets@,
            r.ports@ == self.ports@,
            r.threads == Some(options_threads(self@, *machine) as usize),
            r.fast_timeout == self.timeout_fast_ms,
            r.slow_timeout == self.timeout_slow_ms,
            r.verify_timeout == self.timeout_slow_ms,
            r.verify_adb == self.verify_adb,
            r.stop_on_first == self.stop_on_first,
    {
        let ports: Arc<Vec<u16>> = Arc::new(copy_ports(&self.ports));
        let threads: usize = self.threads_arg.resolve(self.work_items(), machine);
        ScanCfg::builder(copy_targets(&self.targets), ports)
            .threads(threads)
            .fast_timeout(self.timeout_fast_ms)
            .slow_timeout(self.timeout_slow_ms)
            .verify_timeout(self.timeout_slow_ms)
            .verify_adb(self.verify_adb)
            .stop_on_first(self.stop_on_first)
    }

    /// The scan configuration that the options mean on `machine`.
    pub fn build_cfg(&self, machine: &Machine) -> (r: ScanCfg)
        ensures
            r@ == options_cfg(self@, *machine),
    {
        let r: ScanCfg = self.cfg_builder(machine).build(machine);
        proof {
            law_resolved_bounds(
                self.threads_arg,
                scan::item_count(self.targets@.len() as int, self.ports@.len() as int),
                *machine,
            );
        }
        r
    }
}

/// How a port range was read.
pub enum RangeRead {
    Ports(u16, u16),
    NoDash,
    BadStart,
    BadEnd,
    Reversed,
}

/// Reads `START-END`: two port numbers around the first dash, in ascending order.
pub open spec fn range_read(s: Seq<char>) -> RangeRead {
    match text::cut_first(s, '-') {
        None => RangeRead::NoDash,
        Some((a, b)) => match (text::unsigned(a, 65535), text::unsigned(b, 65535)) {
            (None, _) => RangeRead::BadStart,
            (_, None) => RangeRead::BadEnd,
            (Some(x), Some(y)) => if x > y {
                RangeRead::Reversed
            } else {
                RangeRead::Ports(x as u16, y as u16)
            },
        },
    }
}

/// Reads `START-END`.
pub fn read_range(s: &str) -> (r: RangeRead)
    ensures
        r == range_read(s@),
{
    match text::split_once(s, '-') {
        None => RangeRead::NoDash,
        Some((a, b)) => {
            let x: u16 = match text::parse_unsigned(&a, 65535) {
                Some(x) => x as u16,
                None => {
                    return RangeRead::BadStart;
                },
            };
            let y: u16 = match text::parse_unsigned(&b, 65535) {
                Some(y) => y as u16,
                None => {
                    return RangeRead::BadEnd;
                },
            };
            if x > y {
                RangeRead::Reversed
            } else {
                RangeRead::Ports(x, y)
            }
        },
    }
}

/// What the arguments have set so far.
#[derive(Debug)]
pub struct Flags {
    pub target: Option<String>,
    pub range: Option<(u16, u16)>,
    pub threads_arg: ThreadArg,
    pub timeout_fast: u64,
    pub timeout_slow: u64,
    pub verify_adb: bool,
    pub stop_on_first: bool,
    pub gui: bool,
}

/// The model of `Flags`.
#[verifier::ext_equal]
pub struct FlagsModel {
    pub target: Option<Seq<char>>,
    pub range: Option<(u16, u16)>,
    pub threads_arg: ThreadArg,
    pub timeout_fast: u64,
    pub timeout_slow: u64,
    pub verify_adb: bool,
    pub stop_on_first: bool,
    pub gui: bool,
}

impl View for Flags {
    type V = FlagsModel;

    open spec fn view(&self) -> FlagsModel {
        FlagsModel {
            target: match self.target {
                Some(s) => Some(s@),
                None => None,
            },
            range: self.range,
            threads_arg: self.threads_arg,
            timeout_fast: self.timeout_fast,
            timeout_slow: self.timeout_slow,
            verify_adb: self.verify_adb,
            stop_on_first: self.stop_on_first,
            gui: self.gui,
        }
    }
}

/// The settings without any argument.
pub open spec fn default_flags() -> FlagsModel {
    FlagsModel {
        target: None,
        range: None,
        threads_arg: ThreadArg::Auto,
        timeout_fast: 100,
        timeout_slow: 800,
        verify_adb: true,
        stop_on_first: true,
        gui: false,
    }
}

/// What reading the arguments comes to.
#[verifier::ext_equal]
pub enum ArgsModel {
    /// Help was asked for.
    Help,
    Flags(FlagsModel),
    Error(Seq<char>),
}

/// The ports that the value of `--range` names.
pub open spec fn range_arg(v: Seq<char>) -> Result<(u16, u16), Seq<char>> {
    match range_read(v) {
        RangeRead::Ports(a, b) => Ok((a, b)),
        RangeRead::NoDash => Err("--range 格式应为 START-END"@),
        RangeRead::BadStart => Err("start port 非法"@),
        RangeRead::BadEnd => Err("end port 非法"@),
        RangeRead::Reversed => Err("start 必须 <= end"@),
    }
}

/// The thread count that the value of `--threads` names.
pub open spec fn threads_arg(v: Seq<char>) -> Result<ThreadArg, Seq<char>> {
    if v == "auto"@ {
        Ok(ThreadArg::Auto)
    } else if v == "max"@ {
        Ok(ThreadArg::Max)
    } else {
        match text::unsigned(v, usize::MAX as nat) {
            None => Err("threads 非法"@),
            Some(n) => if n == 0 {
                Err("threads 必须 > 0"@)
            } else if n > HARD_MAX_THREADS {
                Err("threads 不能超过 "@ + text::decimal_text(HARD_MAX_THREADS as nat))
            } else {
                Ok(ThreadArg::Fixed(n as usize))
            },
        }
    }
}

/// The milliseconds that the value of a timeout option names.
pub open spec fn millis_arg(v: Seq<char>) -> Result<u64, Seq<char>> {
    match text::unsigned(v, u64::MAX as nat) {
        Some(n) => Ok(n as u64),
        None => Err("非法"@),
    }
}

/// The settings after a switch without a value; none if `a` is no such switch.
pub open spec fn switched(a: Seq<char>, f: FlagsModel) -> Option<FlagsModel> {
    if a == "--gui"@ {
        Some(FlagsModel { gui: true, ..f })
    } else if a == "--no-verify"@ {
        Some(FlagsModel { verify_adb: false, ..f })
    } else if a == "--verify"@ {
        Some(FlagsModel { verify_adb: true, ..f })
    } else if a == "--all"@ {
        Some(FlagsModel { stop_on_first: false, ..f })
    } else if a == "--first"@ {
        Some(FlagsModel { stop_on_first: true, ..f })
    } else {
        None
    }
}

/// Whether `a` is an option that takes a value.
pub open spec fn takes_value(a: Seq<char>) -> bool {
    ||| a == "--range"@
    ||| a == "-t"@
    ||| a == "--threads"@
    ||| a == "--timeout-fast"@
    ||| a == "--timeout-slow"@
    ||| a == "--timeout"@
}

/// What is said when the option `a` has no value.
pub open spec fn value_missing(a: Seq<char>) -> Seq<char> {
    if a == "--range"@ {
        "--range 缺少参数"@
    } else if a == "-t"@ || a == "--threads"@ {
        "--threads 缺少参数"@
    } else if a == "--timeout-fast"@ {
        "--timeout-fast 缺少参数"@
    } else if a == "--timeout-slow"@ {
        "--timeout-slow 缺少参数"@
    } else {
        "--timeout 缺少参数"@
    }
}

/// The settings after the option `a` with the value `v`.
pub open spec fn option_set(a: Seq<char>, v: Seq<char>, f: FlagsModel) -> Result<
    FlagsModel,
    Seq<char>,
> {
    if a == "--range"@ {
        match range_arg(v) {
            Ok(r) => Ok(FlagsModel { range: Some(r), ..f }),
            Err(e) => Err(e),
        }
    } else if a == "-t"@ || a == "--threads"@ {
        match threads_arg(v) {
            Ok(t) => Ok(FlagsModel { threads_arg: t, ..f }),
            Err(e) => Err(e),
        }
    } else {
        match millis_arg(v) {
            Ok(ms) => if a == "--timeout-fast"@ {
                Ok(FlagsModel { timeout_fast: ms, ..f })
            } else if a == "--timeout-slow"@ {
                Ok(FlagsModel { timeout_slow: ms, ..f })
            } else {
                Ok(FlagsModel { timeout_fast: ms, timeout_slow: ms, ..f })
            },
            Err(e) => Err(e),
        }
    }
}

/// Reads the arguments from left to right, starting from the settings `f`. The first error, or
/// a request for help, ends the reading.
pub open spec fn read_args(args: Seq<Seq<char>>, f: FlagsModel) -> ArgsModel
    decreases args.len(),
{
    if args.len() == 0 {
        ArgsModel::Flags(f)
    } else if args[0] == "-h"@ || args[0] == "--help"@ {
        ArgsModel::Help
    } else if switched(args[0], f) is Some {
        read_args(args.skip(1), switched(args[0], f)->0)
    } else if takes_value(args[0]) {
        if args.len() < 2 {
            ArgsModel::Error(value_missing(args[0]))
        } else {
            match option_set(args[0], args[1], f) {
                Ok(g) => read_args(args.skip(2), g),
                Err(e) => ArgsModel::Error(e),
            }
        }
    } else if args[0].len() > 0 && args[0][0] == '-' {
        ArgsModel::Error("未知参数 "@ + args[0])
    } else if f.target is Some {
        ArgsModel::Error("多余的位置参数 "@ + args[0])
    } else {
        read_args(args.skip(1), FlagsModel { target: Some(args[0]), ..f })
    }
}

/// The arguments as texts.
pub open spec fn arg_texts(v: Seq<String>) -> Seq<Seq<char>> {
    v.map_values(|s: String| s@)
}

fn read_threads(v: &str) -> (r: Result<ThreadArg, String>)
    ensures
        match r {
            Ok(t) => threads_arg(v@) == Ok::<ThreadArg, Seq<char>>(t),
            Err(e) => threads_arg(v@) == Err::<ThreadArg, Seq<char>>(e@),
        },
{
    if text::same(v, "auto") {
        return Ok(ThreadArg::Auto);
    }
    if text::same(v, "max") {
        return Ok(ThreadArg::Max);
    }
    match text::parse_unsigned(v, usize::MAX as u64) {
        None => Err("threads 非法".to_owned()),
        Some(n) => if n == 0 {
            Err("threads 必须 > 0".to_owned())
        } else if n > HARD_MAX_THREADS as u64 {
            Err(text::join2("threads 不能超过 ", &text::decimal(HARD_MAX_THREADS as u64)))
        } else {
            Ok(ThreadArg::Fixed(n as usize))
        },
    }
}

fn set_switch(a: &str, f: &mut Flags) -> (r: bool)
    ensures
        match switched(a@, old(f)@) {
            Some(g) => r && final(f)@ == g,
            None => !r && *final(f) == *old(f),
        },
{
    if text::same(a, "--gui") {
        f.gui = true;
        true
    } else if text::same(a, "--no-verify") {
        f.verify_adb = false;
        true
    } else if text::same(a, "--verify") {
        f.verify_adb = true;
        true
    } else if text::same(a, "--all") {
        f.stop_on_first = false;
        true
    } else if text::same(a, "--first") {
        f.stop_on_first = true;
        true
    } else {
        false
    }
}

fn has_value(a: &str) -> (r: bool)
    ensures
        r == takes_value(a@),
{
    text::same(a, "--range") || text::same(a, "-t") || text::same(a, "--threads") || text::same(
        a,
        "--timeout-fast",
    ) || text::same(a, "--timeout-slow") || text::same(a, "--timeout")
}

fn missing_value(a: &str) -> (r: String)
    ensures
        r@ == value_missing(a@),
{
    if text::same(a, "--range") {
        "--range 缺少参数".to_owned()
    } else if text::same(a, "-t") || text::same(a, "--threads") {
        "--threads 缺少参数".to_owned()
    } else if text::same(a, "--timeout-fast") {
        "--timeout-fast 缺少参数".to_owned()
    } else if text::same(a, "--timeout-slow") {
        "--timeout-slow 缺少参数".to_owned()
    } else {
        "--timeout 缺少参数".to_owned()
    }
}

fn set_option(a: &str, v: &str, f: &mut Flags) -> (r: Result<(), String>)
    ensures
        match r {
            Ok(_) => option_set(a@, v@, old(f)@) == Ok::<FlagsModel, Seq<char>>(final(f)@),
            Err(e) => option_set(a@, v@, old(f)@) == Err::<FlagsModel, Seq<char>>(e@),
        },
{
    if text::same(a, "--range") {
        match read_range(v) {
            RangeRead::Ports(x, y) => {
                f.range = Some((x, y));
                Ok(())
            },
            RangeRead::NoDash => Err("--range 格式应为 START-END".to_owned()),
            RangeRead::BadStart => Err("start port 非法".to_owned()),
            RangeRead::BadEnd => Err("end port 非法".to_owned()),
            RangeRead::Reversed => Err("start 必须 <= end".to_owned()),
        }
    } else if text::same(a, "-t") || text::same(a, "--threads") {
        match read_threads(v) {
            Ok(t) => {
                f.threads_arg = t;
                Ok(())
            },
            Err(e) => Err(e),
        }
    } else {
        match text::parse_unsigned(v, u64::MAX) {
            Some(ms) => {
                if text::same(a, "--timeout-fast") {
                    f.timeout_fast = ms;
                } else if text::same(a, "--timeout-slow") {
                    f.timeout_slow = ms;
                } else {
                    f.timeout_fast = ms;
                    f.timeout_slow = ms;
                }
                Ok(())
            },
            None => Err("非法".to_owned()),
        }
    }
}

/// Reads the arguments: the settings, or `None` where help was asked for.
pub fn read_flags(args: &Vec<String>) -> (r: Result<Option<Flags>, String>)
    ensures
        match r {
            Ok(Some(f)) => read_args(arg_texts(args@), default_flags()) == ArgsModel::Flags(f@),
            Ok(None) => read_args(arg_texts(args@), default_flags()) == ArgsModel::Help,
            Err(e) => read_args(arg_texts(args@), default_flags()) == ArgsModel::Error(e@),
        },
{
    let mut f: Flags = Flags {
        target: None,
        range: None,
        threads_arg: ThreadArg::Auto,
        timeout_fast: 100,
        timeout_slow: 800,
        verify_adb: true,
        stop_on_first: true,
        gui: false,
    };
    let ghost all = arg_texts(args@);
    let ghost want = read_args(all, default_flags());
    let mut i: usize = 0;
    assert(all.skip(0) =~= all);
    while i < args.len()
        invariant
            i <= args@.len(),
            all == arg_texts(args@),
            want == read_args(all, default_flags()),
            want == read_args(all.skip(i as int), f@),
        decreases args@.len() - i,
    {
        let ghost rest = all.skip(i as int);
        assert(rest[0] == args@[i as int]@);
        assert(rest.skip(1) =~= all.skip(i + 1));
        let a: &str = args[i].as_str();
        if text::same(a, "-h") || text::same(a, "--help") {
            return Ok(None);
        }
        if set_switch(a, &mut f) {
            i = i + 1;
            continue;
        }
        if has_value(a) {
            if args.len() - i < 2 {
                return Err(missing_value(a));
            }
            assert(rest[1] == args@[i + 1]@);
            assert(rest.skip(2) =~= all.skip(i + 2));
            if let Err(e) = set_option(a, args[i + 1].as_str(), &mut f) {
                return Err(e);
            }
            i = i + 2;
            continue;
        }
        if text::starts_with(a, '-') {
            return Err(text::join2("未知参数 ", a));
        }
        if f.target.is_some() {
            return Err(text::join2("多余的位置参数 ", a));
        }
        f.target = Some(args[i].clone());
        i = i + 1;
    }
    assert(all.skip(i as int).len() == 0);
    Ok(Some(f))
}

/// A command line that was read.
#[derive(Debug)]
pub struct ParsedArgs {
    /// Whether `--gui` was given.
    pub gui: bool,
    /// The scan to prepare, if a target was given.
    pub scan: Option<ScanOptions>,
}

/// The model of `ParsedArgs`.
#[verifier::ext_equal]
pub struct ParsedModel {
    pub gui: bool,
    pub scan: Option<OptionsModel>,
}

impl View for ParsedArgs {
    type V = ParsedModel;

    open spec fn view(&self) -> ParsedModel {
        ParsedModel {
            gui: self.gui,
            scan: match self.scan {
                Some(o) => Some(o@),
                None => None,
            },
        }
    }
}

/// A command line whose target is a host name that is still to be looked up.
#[derive(Debug)]
pub struct PendingArgs {
    pub gui: bool,
    /// The host name.
    pub host: String,
    /// The scan to prepare, without its targets.
    pub scan: ScanOptions,
}

/// What a command line asks for.
#[derive(Debug)]
pub enum CliStep {
    Help,
    Ready(ParsedArgs),
    Lookup(PendingArgs),
}

/// The model of a `CliStep`.
#[verifier::ext_equal]
pub enum StepModel {
    Help,
    Ready(ParsedModel),
    Lookup { gui: bool, host: Seq<char>, scan: OptionsModel },
}

impl View for CliStep {
    type V = StepModel;

    open spec fn view(&self) -> StepModel {
        match *self {
            CliStep::Help => StepModel::Help,
            CliStep::Ready(p) => StepModel::Ready(p@),
            CliStep::Lookup(p) => StepModel::Lookup { gui: p.gui, host: p.host@, scan: p.scan@ },
        }
    }
}

/// The scan options that the settings `f` mean for the target text `target`, which is kept
/// without the white space around it, and its targets.
pub open spec fn flag_options(
    f: FlagsModel,
    target: Seq<char>,
    targets: Seq<TargetModel>,
) -> OptionsModel {
    OptionsModel {
        target: text::trimmed(target),
        targets,
        ports: match f.range {
            Some((a, b)) => ports::span(a as int, b as int),
            None => ports::default_order(),
        },
        threads_arg: f.threads_arg,
        timeout_fast_ms: f.timeout_fast,
        timeout_slow_ms: f.timeout_slow,
        verify_adb: f.verify_adb,
        stop_on_first: f.stop_on_first,
    }
}

/// What the settings `f` ask for. Without a target there is no scan, and a port range or a
/// thread count has no place.
pub open spec fn flags_step(f: FlagsModel) -> Result<StepModel, Seq<char>> {
    match f.target {
        Some(t) => match target::targets_of(t) {
            Err(e) => Err(e),
            Ok(TargetsModel::Ready(targets)) => Ok(
                StepModel::Ready(
                    ParsedModel { gui: f.gui, scan: Some(flag_options(f, t, targets)) },
                ),
            ),
            Ok(TargetsModel::Lookup(host)) => Ok(
                StepModel::Lookup { gui: f.gui, host, scan: flag_options(f, t, Seq::empty()) },
            ),
        },
        None => if f.range is Some {
            Err("--range 需要配合目标使用"@)
        } else if f.threads_arg != ThreadArg::Auto {
            Err("-t/--threads 需要配合目标使用"@)
        } else {
            Ok(StepModel::Ready(ParsedModel { gui: f.gui, scan: None }))
        },
    }
}

/// What the command line `args` asks for, or what is wrong with it.
pub open spec fn args_step(args: Seq<Seq<char>>) -> Result<StepModel, Seq<char>> {
    match read_args(args, default_flags()) {
        ArgsModel::Help => Ok(StepModel::Help),
        ArgsModel::Error(e) => Err(e),
        ArgsModel::Flags(f) => flags_step(f),
    }
}

fn to_options(f: &Flags, target: &str, targets: Vec<Target>) -> (r: ScanOptions)
    ensures
        r@ == flag_options(f@, target@, target::target_models(targets@)),
{
    ScanOptions {
        target: text::trim(target),
        targets,
        ports: match f.range {
            Some((a, b)) => port_range(a, b),
            None => default_ports(),
        },
        threads_arg: f.threads_arg,
        timeout_fast_ms: f.timeout_fast,
        timeout_slow_ms: f.timeout_slow,
        verify_adb: f.verify_adb,
        stop_on_first: f.stop_on_first,
    }
}

/// Reads a command line.
pub fn parse_args(args: Vec<String>) -> (r: Result<CliStep, String>)
    ensures
        match r {
            Ok(s) => args_step(arg_texts(args@)) == Ok::<StepModel, Seq<char>>(s@),
            Err(e) => args_step(arg_texts(args@)) == Err::<StepModel, Seq<char>>(e@),
        },
{
    let f: Flags = match read_flags(&args) {
        Ok(Some(f)) => f,
        Ok(None) => {
            return Ok(CliStep::Help);
        },
        Err(e) => {
            return Err(e);
        },
    };
    match &f.target {
        Some(t) => {
            match parse_targets(t) {
                Err(e) => Err(e),
                Ok(Targets::Ready(targets)) => {
                    let scan: ScanOptions = to_options(&f, t, targets);
                    Ok(CliStep::Ready(ParsedArgs { gui: f.gui, scan: Some(scan) }))
                },
                Ok(Targets::Lookup(host)) => {
                    let none: Vec<Target> = Vec::new();
                    assert(target::target_models(none@) =~= Seq::<TargetModel>::empty());
                    let scan: ScanOptions = to_options(&f, t, none);
                    Ok(CliStep::Lookup(PendingArgs { gui: f.gui, host, scan }))
                },
            }
        },
        None => {
            if f.range.is_some() {
                return Err("--range 需要配合目标使用".to_owned());
            }
            if f.threads_arg != ThreadArg::Auto {
                return Err("-t/--threads 需要配合目标使用".to_owned());
            }
            Ok(CliStep::Ready(ParsedArgs { gui: f.gui, scan: None }))
        },
    }
}

/// The command line whose target `host` was looked up with the answer `answer`.
pub open spec fn completed(
    gui: bool,
    host: Seq<char>,
    scan: OptionsModel,
    answer: Result<Seq<IpAddr>, Seq<char>>,
) -> Result<ParsedModel, Seq<char>> {
    match target::looked_up(host, answer) {
        Ok(targets) => Ok(ParsedModel { gui, scan: Some(OptionsModel { targets, ..scan }) }),
        Err(e) => Err(e),
    }
}

impl PendingArgs {
    /// Completes the command line with the answer of the lookup.
    pub fn resolve(self, answer: Result<Vec<IpAddr>, String>) -> (r: Result<ParsedArgs, String>)
        ensures
            ({
                let done = completed(
                    self.gui,
                    self.host@,
                    self.scan@,
                    match answer {
                        Ok(v) => Ok(v@),
                        Err(e) => Err(e@),
                    },
                );
                match r {
                    Ok(p) => done == Ok::<ParsedModel, Seq<char>>(p@),
                    Err(e) => done == Err::<ParsedModel, Seq<char>>(e@),
                }
            }),
    {
        match host_targets(&self.host, answer) {
            Ok(targets) => {
                let scan: ScanOptions = ScanOptions { targets, ..self.scan };
                Ok(ParsedArgs { gui: self.gui, scan: Some(scan) })
            },
            Err(e) => Err(e),
        }
    }
}

proof fn lemma_read_keeps_limits(args: Seq<Seq<char>>, f: FlagsModel)
    requires
        flags_within(f),
    ensures
        read_args(args, f) is Flags ==> flags_within(read_args(args, f)->Flags_0),
    decreases args.len(),
{
    if args.len() > 0 && !(args[0] == "-h"@ || args[0] == "--help"@) {
        if switched(args[0], f) is Some {
            lemma_read_keeps_limits(args.skip(1), switched(args[0], f)->0);
        } else if takes_value(args[0]) {
            if args.len() >= 2 && option_set(args[0], args[1], f) is Ok {
                lemma_read_keeps_limits(args.skip(2), option_set(args[0], args[1], f)->Ok_0);
            }
        } else if f.target is None {
            lemma_read_keeps_limits(args.skip(1), FlagsModel { target: Some(args[0]), ..f });
        }
    }
}

/// Whether the range ascends and the thread count is between one and the upper bound.
pub open spec fn flags_within(f: FlagsModel) -> bool {
    &&& f.range matches Some((a, b)) ==> a <= b
    &&& f.threads_arg matches ThreadArg::Fixed(n) ==> 1 <= n <= HARD_MAX_THREADS
}

/// A command line that is accepted asks for a range that ascends and for at least one thread
/// and at most the upper bound; a scan has at least one port.
pub proof fn law_accepted_args_within_limits(args: Seq<Seq<char>>)
    ensures
        read_args(args, default_flags()) is Flags ==> flags_within(
            read_args(args, default_flags())->Flags_0,
        ),
        args_step(args) matches Ok(StepModel::Ready(ParsedModel { scan: Some(o), .. })) ==> {
            &&& o.ports.len() >= 1
            &&& o.threads_arg matches ThreadArg::Fixed(n) ==> 1 <= n <= HARD_MAX_THREADS
        },
{
    lemma_read_keeps_limits(args, default_flags());
    ports::law_every_port_once(1);
}

/// The switches differ from each other and from the requests for help.
proof fn lemma_switches_differ()
    ensures
        "--all"@ != "--gui"@ && "--all"@ != "--no-verify"@ && "--all"@ != "--verify"@,
        "--first"@ != "--gui"@ && "--first"@ != "--no-verify"@ && "--first"@ != "--verify"@
            && "--first"@ != "--all"@,
        "--no-verify"@ != "--gui"@,
        "--verify"@ != "--gui"@ && "--verify"@ != "--no-verify"@,
        "--all"@ != "-h"@ && "--all"@ != "--help"@,
        "--first"@ != "-h"@ && "--first"@ != "--help"@,
        "--verify"@ != "-h"@ && "--verify"@ != "--help"@,
        "--no-verify"@ != "-h"@ && "--no-verify"@ != "--help"@,
{
    reveal_strlit("--all");
    reveal_strlit("--first");
    reveal_strlit("--no-verify");
    reveal_strlit("--verify");
    reveal_strlit("--gui");
    reveal_strlit("-h");
    reveal_strlit("--help");
    assert("--all"@.len() == 5 && "--gui"@.len() == 5 && "--all"@[2] == 'a' && "--gui"@[2] == 'g');
    assert("--first"@.len() == 7 && "--verify"@.len() == 8 && "--no-verify"@.len() == 11);
    assert("-h"@.len() == 2 && "--help"@.len() == 6);
}

/// The later of two opposite switches wins: `--first` after `--all`, `--all` after `--first`,
/// `--verify` after `--no-verify` and `--no-verify` after `--verify`.
pub proof fn law_later_switch_wins(rest: Seq<Seq<char>>, f: FlagsModel)
    ensures
        read_args(seq!["--all"@, "--first"@] + rest, f) == read_args(seq!["--first"@] + rest, f),
        read_args(seq!["--first"@, "--all"@] + rest, f) == read_args(seq!["--all"@] + rest, f),
        read_args(seq!["--no-verify"@, "--verify"@] + rest, f) == read_args(
            seq!["--verify"@] + rest,
            f,
        ),
        read_args(seq!["--verify"@, "--no-verify"@] + rest, f) == read_args(
            seq!["--no-verify"@] + rest,
            f,
        ),
{
    lemma_switches_differ();
    lemma_switch_overridden("--all"@, "--first"@, rest, f);
    lemma_switch_overridden("--first"@, "--all"@, rest, f);
    lemma_switch_overridden("--no-verify"@, "--verify"@, rest, f);
    lemma_switch_overridden("--verify"@, "--no-verify"@, rest, f);
}

proof fn lemma_switch_overridden(a: Seq<char>, b: Seq<char>, rest: Seq<Seq<char>>, f: FlagsModel)
    requires
        a != "-h"@ && a != "--help"@,
        b != "-h"@ && b != "--help"@,
        switched(a, f) is Some,
        switched(b, f) is Some,
        switched(b, switched(a, f)->0) == switched(b, f),
    ensures
        read_args(seq![a, b] + rest, f) == read_args(seq![b] + rest, f),
{
    let both = seq![a, b] + rest;
    let last = seq![b] + rest;
    let g = switched(a, f)->0;
    assert(both[0] == a && last[0] == b);
    assert(both.skip(1) =~= last);
    assert(read_args(both, f) == read_args(last, g));
    assert(read_args(last, g) == read_args(last.skip(1), switched(b, g)->0));
    assert(read_args(last, f) == read_args(last.skip(1), switched(b, f)->0));
}

/// The words that the command line knows differ from each other.
proof fn lemma_words_differ()
    ensures
        "--gui"@.len() == 5 && "--gui"@[2] == 'g' && "--gui"@[0] == '-',
        "--all"@.len() == 5 && "--all"@[2] == 'a' && "--all"@[0] == '-',
        "--help"@.len() == 6 && "--help"@[0] == '-',
        "--first"@.len() == 7 && "--first"@[2] == 'f' && "--first"@[0] == '-',
        "--range"@.len() == 7 && "--range"@[2] == 'r' && "--range"@[0] == '-',
        "--verify"@.len() == 8 && "--verify"@[0] == '-',
        "--threads"@.len() == 9 && "--threads"@[3] == 'h' && "--threads"@[0] == '-',
        "--timeout"@.len() == 9 && "--timeout"@[3] == 'i' && "--timeout"@[0] == '-',
        "--no-verify"@.len() == 11 && "--no-verify"@[0] == '-',
        "--timeout-fast"@.len() == 14 && "--timeout-fast"@[10] == 'f' && "--timeout-fast"@[0]
            == '-',
        "--timeout-slow"@.len() == 14 && "--timeout-slow"@[10] == 's' && "--timeout-slow"@[0]
            == '-',
        "-h"@.len() == 2 && "-h"@[1] == 'h' && "-h"@[0] == '-',
        "-t"@.len() == 2 && "-t"@[1] == 't' && "-t"@[0] == '-',
{
    reveal_strlit("--gui");
    reveal_strlit("--all");
    reveal_strlit("--help");
    reveal_strlit("--first");
    reveal_strlit("--range");
    reveal_strlit("--verify");
    reveal_strlit("--threads");
    reveal_strlit("--timeout");
    reveal_strlit("--no-verify");
    reveal_strlit("--timeout-fast");
    reveal_strlit("--timeout-slow");
    reveal_strlit("-h");
    reveal_strlit("-t");
}

/// What each switch does, wherever it stands and whatever was set before: it turns its one
/// setting on or off and leaves the others; a request for help ends the reading.
pub proof fn law_switches(rest: Seq<Seq<char>>, f: FlagsModel)
    ensures
        read_args(seq!["--gui"@] + rest, f) == read_args(rest, FlagsModel { gui: true, ..f }),
        read_args(seq!["--no-verify"@] + rest, f) == read_args(
            rest,
            FlagsModel { verify_adb: false, ..f },
        ),
        read_args(seq!["--verify"@] + rest, f) == read_args(
            rest,
            FlagsModel { verify_adb: true, ..f },
        ),
        read_args(seq!["--all"@] + rest, f) == read_args(
            rest,
            FlagsModel { stop_on_first: false, ..f },
        ),
        read_args(seq!["--first"@] + rest, f) == read_args(
            rest,
            FlagsModel { stop_on_first: true, ..f },
        ),
        read_args(seq!["-h"@] + rest, f) == ArgsModel::Help,
        read_args(seq!["--help"@] + rest, f) == ArgsModel::Help,
        read_args(Seq::empty(), f) == ArgsModel::Flags(f),
{
    lemma_words_differ();
    assert((seq!["--gui"@] + rest).skip(1) =~= rest);
    assert((seq!["--no-verify"@] + rest).skip(1) =~= rest);
    assert((seq!["--verify"@] + rest).skip(1) =~= rest);
    assert((seq!["--all"@] + rest).skip(1) =~= rest);
    assert((seq!["--first"@] + rest).skip(1) =~= rest);
}

proof fn lemma_value_option(a: Seq<char>, v: Seq<char>, rest: Seq<Seq<char>>, f: FlagsModel)
    requires
        takes_value(a),
    ensures
        option_set(a, v, f) is Ok ==> read_args(seq![a, v] + rest, f) == read_args(
            rest,
            option_set(a, v, f)->Ok_0,
        ),
        option_set(a, v, f) is Err ==> read_args(seq![a, v] + rest, f) == ArgsModel::Error(
            option_set(a, v, f)->Err_0,
        ),
        read_args(seq![a], f) == ArgsModel::Error(value_missing(a)),
{
    lemma_words_differ();
    let all = seq![a, v] + rest;
    assert(all[0] == a && all[1] == v);
    assert(all.skip(2) =~= rest);
    assert(switched(a, f) is None);
    assert(seq![a][0] == a);
}

/// What the thread options do, wherever they stand: a number from 1 to 65535 is set as it is;
/// zero, a larger number and what is no number are refused, each with its own message.
pub proof fn law_thread_options(
    v: Seq<char>,
    rest: Seq<Seq<char>>,
    f: FlagsModel,
    long: bool,
)
    ensures
        ({
            let opt = if long {
                "--threads"@
            } else {
                "-t"@
            };
            let read = read_args(seq![opt, v] + rest, f);
            let n = text::unsigned(v, usize::MAX as nat);
            &&& n is Some && 1 <= n->0 <= 65535 ==> read == read_args(
                rest,
                FlagsModel { threads_arg: ThreadArg::Fixed(n->0 as usize), ..f },
            )
            &&& n is Some && n->0 == 0 ==> read == ArgsModel::Error("threads 必须 > 0"@)
            &&& n is Some && n->0 > 65535 ==> read == ArgsModel::Error(
                "threads 不能超过 "@ + text::decimal_text(65535),
            )
            &&& v == "auto"@ ==> read == read_args(
                rest,
                FlagsModel { threads_arg: ThreadArg::Auto, ..f },
            )
            &&& v == "max"@ ==> read == read_args(
                rest,
                FlagsModel { threads_arg: ThreadArg::Max, ..f },
            )
            &&& v != "auto"@ && v != "max"@ && n is None ==> read == ArgsModel::Error(
                "threads 非法"@,
            )
            &&& read_args(seq![opt], f) == ArgsModel::Error("--threads 缺少参数"@)
        }),
{
    let opt = if long {
        "--threads"@
    } else {
        "-t"@
    };
    lemma_words_differ();
    lemma_value_option(opt, v, rest, f);
    reveal_strlit("auto");
    reveal_strlit("max");
    assert("auto"@.len() == 4 && "auto"@[0] == 'a' && "max"@.len() == 3 && "max"@[0] == 'm');
    if v == "auto"@ || v == "max"@ {
        text::law_unsigned_is_refused(v, 0, usize::MAX as nat);
    }
}

/// What the timeout options do: any number of milliseconds is set as it is, for the one pass,
/// for the other, or for both; what is no number is refused.
pub proof fn law_timeout_options(
    v: Seq<char>,
    ms: u64,
    bad: Seq<char>,
    rest: Seq<Seq<char>>,
    f: FlagsModel,
)
    requires
        text::unsigned(v, u64::MAX as nat) == Some(ms as nat),
        text::unsigned(bad, u64::MAX as nat) is None,
    ensures
        ({
            &&& read_args(seq!["--timeout-fast"@, v] + rest, f) == read_args(
                rest,
                FlagsModel { timeout_fast: ms, ..f },
            )
            &&& read_args(seq!["--timeout-slow"@, v] + rest, f) == read_args(
                rest,
                FlagsModel { timeout_slow: ms, ..f },
            )
            &&& read_args(seq!["--timeout"@, v] + rest, f) == read_args(
                rest,
                FlagsModel { timeout_fast: ms, timeout_slow: ms, ..f },
            )
        }),
        read_args(seq!["--timeout-fast"@, bad] + rest, f) == ArgsModel::Error("非法"@),
        read_args(seq!["--timeout-slow"@, bad] + rest, f) == ArgsModel::Error("非法"@),
        read_args(seq!["--timeout"@, bad] + rest, f) == ArgsModel::Error("非法"@),
        read_args(seq!["--timeout-fast"@], f) == ArgsModel::Error("--timeout-fast 缺少参数"@),
        read_args(seq!["--timeout-slow"@], f) == ArgsModel::Error("--timeout-slow 缺少参数"@),
        read_args(seq!["--timeout"@], f) == ArgsModel::Error("--timeout 缺少参数"@),
{
    lemma_words_differ();
    lemma_value_option("--timeout-fast"@, v, rest, f);
    lemma_value_option("--timeout-slow"@, v, rest, f);
    lemma_value_option("--timeout"@, v, rest, f);
    lemma_value_option("--timeout-fast"@, bad, rest, f);
    lemma_value_option("--timeout-slow"@, bad, rest, f);
    lemma_value_option("--timeout"@, bad, rest, f);
}

/// How a range of ports is read: the numbers before and after the first dash, if both are port
/// numbers and the first is not the larger.
pub proof fn law_range_is_read(a: Seq<char>, b: Seq<char>)
    requires
        !a.contains('-'),
    ensures
        ({
            let r = range_read(a + seq!['-'] + b);
            let (x, y) = (text::unsigned(a, 65535), text::unsigned(b, 65535));
            &&& x is None ==> r is BadStart
            &&& x is Some && y is None ==> r is BadEnd
            &&& x is Some && y is Some && x->0 > y->0 ==> r is Reversed
            &&& x is Some && y is Some && x->0 <= y->0 ==> r is Ports && r->Ports_0 == x->0
                && r->Ports_1 == y->0
            &&& range_read(a) is NoDash
        }),
{
    text::law_cut(a, '-', b);
}

/// What `--range` does: a range from one port number to one that is not smaller is set, and
/// becomes those ports in ascending order; anything else is refused, and the part that is wrong
/// is told.
pub proof fn law_range_option(
    a: u16,
    b: u16,
    other: Seq<char>,
    rest: Seq<Seq<char>>,
    f: FlagsModel,
)
    ensures
        ({
            let v = text::decimal_text(a as nat) + seq!['-'] + text::decimal_text(b as nat);
            let read = read_args(seq!["--range"@, v] + rest, f);
            &&& a <= b ==> read == read_args(rest, FlagsModel { range: Some((a, b)), ..f })
            &&& a > b ==> read == ArgsModel::Error("start 必须 <= end"@)
        }),
        ({
            let read = read_args(seq!["--range"@, other] + rest, f);
            &&& range_read(other) == RangeRead::Ports(a, b) ==> read == read_args(
                rest,
                FlagsModel { range: Some((a, b)), ..f },
            )
            &&& range_read(other) is Reversed ==> read == ArgsModel::Error("start 必须 <= end"@)
            &&& range_read(other) is NoDash ==> read == ArgsModel::Error("--range 格式应为 START-END"@)
            &&& range_read(other) is BadStart ==> read == ArgsModel::Error("start port 非法"@)
            &&& range_read(other) is BadEnd ==> read == ArgsModel::Error("end port 非法"@)
        }),
        read_args(seq!["--range"@], f) == ArgsModel::Error("--range 缺少参数"@),
{
    let (x, y) = (text::decimal_text(a as nat), text::decimal_text(b as nat));
    let v = x + seq!['-'] + y;
    lemma_words_differ();
    lemma_value_option("--range"@, v, rest, f);
    lemma_value_option("--range"@, other, rest, f);
    text::lemma_digits_spell(a as nat, 10);
    text::lemma_digits_lack(x, 10, '-');
    assert(!x.contains('-'));
    text::lemma_decimal_reads_back(a as nat, 65535);
    text::lemma_decimal_reads_back(b as nat, 65535);
    law_range_is_read(x, y);
}

/// What a word that is no option is: the target, if there is none yet, else one too many; one
/// that begins with a dash is unknown.
pub proof fn law_other_words(w: Seq<char>, rest: Seq<Seq<char>>, f: FlagsModel)
    ensures
        (w.len() == 0 || w[0] != '-') && f.target is None ==> read_args(seq![w] + rest, f)
            == read_args(rest, FlagsModel { target: Some(w), ..f }),
        (w.len() == 0 || w[0] != '-') && f.target is Some ==> read_args(seq![w] + rest, f)
            == ArgsModel::Error("多余的位置参数 "@ + w),
        w.len() > 0 && w[0] == '-' && !known_words().contains(w) ==> read_args(seq![w] + rest, f)
            == ArgsModel::Error("未知参数 "@ + w),
{
    lemma_words_differ();
    let all = seq![w] + rest;
    assert(all[0] == w);
    assert(all.skip(1) =~= rest);
    let k = known_words();
    assert(k[0] == "-h"@ && k[1] == "--help"@ && k[2] == "--gui"@ && k[3] == "--no-verify"@ && k[4]
        == "--verify"@ && k[5] == "--all"@ && k[6] == "--first"@ && k[7] == "--range"@ && k[8]
        == "-t"@ && k[9] == "--threads"@ && k[10] == "--timeout-fast"@ && k[11]
        == "--timeout-slow"@ && k[12] == "--timeout"@);
    if !k.contains(w) {
        assert(w != k[0] && w != k[1] && w != k[2] && w != k[3] && w != k[4] && w != k[5] && w
            != k[6] && w != k[7] && w != k[8] && w != k[9] && w != k[10] && w != k[11] && w
            != k[12]);
    }
}

/// The options that the command line knows.
pub open spec fn known_words() -> Seq<Seq<char>> {
    seq![
        "-h"@,
        "--help"@,
        "--gui"@,
        "--no-verify"@,
        "--verify"@,
        "--all"@,
        "--first"@,
        "--range"@,
        "-t"@,
        "--threads"@,
        "--timeout-fast"@,
        "--timeout-slow"@,
        "--timeout"@,
    ]
}

/// Without any argument: no window by request, no scan, and the settings are automatic threads,
/// 100 and 800 milliseconds, ports verified, stop at the first ADB port.
pub proof fn law_no_arguments()
    ensures
        args_step(Seq::empty()) == Ok::<StepModel, Seq<char>>(
            StepModel::Ready(ParsedModel { gui: false, scan: None }),
        ),
        ({
            let d = default_flags();
            &&& d.target is None && d.range is None && d.threads_arg == ThreadArg::Auto
            &&& d.timeout_fast == 100 && d.timeout_slow == 800
            &&& d.verify_adb && d.stop_on_first && !d.gui
        }),
{
}

/// What the settings come to: with a target that is known, a scan of just those targets, of the
/// range or all ports, with the settings as they were read; with a host name, the same without
/// targets, and the name to look up; a target that cannot be read is refused with its own
/// message. Without a target there is no scan, and a range or a thread count is refused.
pub proof fn law_settings_come_to(f: FlagsModel, a: u16, b: u16)
    ensures
        f.target is Some ==> {
            let t = target::targets_of(f.target->0);
            let o = if t is Ok && t->Ok_0 is Ready {
                flags_step(f)->Ok_0->Ready_0.scan->0
            } else {
                flags_step(f)->Ok_0->Lookup_scan
            };
            &&& t is Err ==> flags_step(f) == Err::<StepModel, Seq<char>>(t->Err_0)
            &&& t is Ok ==> {
                &&& flags_step(f) is Ok
                &&& o.target == text::trimmed(f.target->0)
                &&& o.threads_arg == f.threads_arg
                &&& o.timeout_fast_ms == f.timeout_fast
                &&& o.timeout_slow_ms == f.timeout_slow
                &&& o.verify_adb == f.verify_adb
                &&& o.stop_on_first == f.stop_on_first
                &&& f.range is None ==> o.ports == ports::default_order()
                &&& f.range == Some((a, b)) ==> o.ports == ports::span(a as int, b as int)
            }
            &&& t is Ok && t->Ok_0 is Ready ==> {
                &&& flags_step(f)->Ok_0 is Ready
                &&& flags_step(f)->Ok_0->Ready_0.gui == f.gui
                &&& flags_step(f)->Ok_0->Ready_0.scan is Some
                &&& o.targets == t->Ok_0->Ready_0
            }
            &&& t is Ok && t->Ok_0 is Lookup ==> {
                &&& flags_step(f)->Ok_0 is Lookup
                &&& flags_step(f)->Ok_0->Lookup_gui == f.gui
                &&& flags_step(f)->Ok_0->Lookup_host == t->Ok_0->Lookup_0
                &&& o.targets.len() == 0
            }
        },
        f.target is None ==> {
            &&& f.range is Some ==> flags_step(f) == Err::<StepModel, Seq<char>>(
                "--range 需要配合目标使用"@,
            )
            &&& f.range is None && f.threads_arg != ThreadArg::Auto ==> flags_step(f) == Err::<
                StepModel,
                Seq<char>,
            >("-t/--threads 需要配合目标使用"@)
            &&& f.range is None && f.threads_arg == ThreadArg::Auto ==> flags_step(f) == Ok::<
                StepModel,
                Seq<char>,
            >(StepModel::Ready(ParsedModel { gui: f.gui, scan: None }))
        },
{
}

/// A host name that was looked up: its scan gets the targets that were found, and keeps all
/// else; a lookup that found none is refused with its own message.
pub proof fn law_lookup_completes(
    gui: bool,
    host: Seq<char>,
    scan: OptionsModel,
    answer: Result<Seq<IpAddr>, Seq<char>>,
)
    ensures
        ({
            let found = target::looked_up(host, answer);
            let done = completed(gui, host, scan, answer);
            let o = done->Ok_0.scan->0;
            &&& found is Ok ==> {
                &&& done is Ok && done->Ok_0.gui == gui && done->Ok_0.scan is Some
                &&& o.targets == found->Ok_0
                &&& o.target == scan.target && o.ports == scan.ports
                &&& o.threads_arg == scan.threads_arg
                &&& o.timeout_fast_ms == scan.timeout_fast_ms
                &&& o.timeout_slow_ms == scan.timeout_slow_ms
                &&& o.verify_adb == scan.verify_adb && o.stop_on_first == scan.stop_on_first
            }
            &&& found is Err ==> done == Err::<ParsedModel, Seq<char>>(found->Err_0)
        }),
{
}

/// A command line goes as it was read: help is help, an error is that error, and else it is
/// what the settings come to.
pub proof fn law_command_line(args: Seq<Seq<char>>)
    ensures
        ({
            let read = read_args(args, default_flags());
            &&& read is Help <==> args_step(args) == Ok::<StepModel, Seq<char>>(StepModel::Help)
            &&& read is Error ==> args_step(args) == Err::<StepModel, Seq<char>>(read->Error_0)
            &&& read is Flags ==> args_step(args) == flags_step(read->Flags_0)
        }),
{
}

/// How many threads a scan gets: automatic ones as for that many items; all that are allowed,
/// or as many as there are items; the number that was set, or as many as there are items. There
/// is always one.
pub proof fn law_resolved_values(n: usize, items: int, machine: Machine)
    requires
        items >= 1,
    ensures
        resolved(ThreadArg::Auto, items, machine) == threads::auto_count(machine, items),
        items <= 65535 ==> resolved(ThreadArg::Max, items, machine) == items,
        items > 65535 ==> resolved(ThreadArg::Max, items, machine) == 65535,
        n == 0 ==> resolved(ThreadArg::Fixed(n), items, machine) == 1,
        1 <= n <= items ==> resolved(ThreadArg::Fixed(n), items, machine) == n,
        n > items ==> resolved(ThreadArg::Fixed(n), items, machine) == items,
        forall|arg: ThreadArg| #[trigger]
            resolved(arg, 0, machine) == resolved(arg, 1, machine),
{
}

/// The scan of a command line has its targets, its ports and its settings; the handshakes have
/// the time of a connection of the second pass; the stacks fit the number of threads.
pub proof fn law_scan_of_options(o: OptionsModel, machine: Machine)
    ensures
        ({
            let c = options_cfg(o, machine);
            let n = resolved(
                o.threads_arg,
                scan::item_count(o.targets.len() as int, o.ports.len() as int),
                machine,
            );
            &&& c.targets == o.targets
            &&& c.ports == o.ports
            &&& c.fast_timeout == o.timeout_fast_ms
            &&& c.slow_timeout == o.timeout_slow_ms
            &&& c.verify_timeout == o.timeout_slow_ms
            &&& c.verify_adb == o.verify_adb
            &&& c.stop_on_first == o.stop_on_first
            &&& c.threads == n
            &&& c.stack_size == (if c.threads > 2000 {
                262144int
            } else {
                1048576int
            })
        }),
{
    law_resolved_bounds(
        o.threads_arg,
        scan::item_count(o.targets.len() as int, o.ports.len() as int),
        machine,
    );
}

} // verus!
