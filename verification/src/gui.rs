//! What the floating window shows and does: its state, the texts of its rows and log, and how
//! messages from the background and clicks of the user change it. Drawing is left to others.
use std::sync::Arc;
use vstd::hash_set::StringHashSet;
use vstd::prelude::*;

use crate::addr;
use crate::addr::{is_link_local, IpAddr};
use crate::cli;
use crate::cli::{copy_targets, read_range, RangeRead, ScanOptions, ThreadArg};
use crate::detect::AdbKind;
use crate::mdns;
use crate::mdns::{AdbService, AdbServiceKind, ServiceModel};
use crate::ports;
use crate::ports::{default_ports, port_range};
use crate::scan;
use crate::scan::{
    count_items, is_adb, EventModel, Hit, HitModel, PassSkipReason, ScanCfg, ScanEvent,
};
use crate::target;
use crate::target::{host_targets, parse_targets, Target, TargetModel, Targets, TargetsModel};
use crate::text;
use crate::threads::{Machine, HARD_MAX_THREADS};

verus! {

/// What the window is busy with.
#[derive(Debug, Clone, Copy, PartialEq, Eq, Structural)]
pub enum ScanStatus {
    Idle,
    MdnsBusy,
    PortBusy,
}

/// The text of the status bar.
pub open spec fn status_text(status: ScanStatus) -> Seq<char> {
    match status {
        ScanStatus::Idle => "● 就绪"@,
        ScanStatus::MdnsBusy => "◐ mDNS 发现中…"@,
        ScanStatus::PortBusy => "◐ 端口扫描中…"@,
    }
}

impl ScanStatus {
    /// The text of the status bar.
    pub fn label(self) -> (r: &'static str)
        ensures
            r@ == status_text(self),
    {
        match self {
            ScanStatus::Idle => "● 就绪",
            ScanStatus::MdnsBusy => "◐ mDNS 发现中…",
            ScanStatus::PortBusy => "◐ 端口扫描中…",
        }
    }

    /// Whether a discovery or a scan is running.
    pub fn busy(self) -> (r: bool)
        ensures
            r == (self != ScanStatus::Idle),
    {
        match self {
            ScanStatus::Idle => false,
            _ => true,
        }
    }
}

/// How a log entry is coloured.
#[derive(Debug, Clone, Copy, PartialEq, Eq, Structural)]
pub enum LogKind {
    Normal,
    Hit,
    Error,
    Success,
    Status,
}

/// One line of the log.
#[derive(Debug)]
pub struct LogEntry {
    pub text: String,
    pub kind: LogKind,
}

/// The model of a `LogEntry`.
#[verifier::ext_equal]
pub struct EntryModel {
    pub text: Seq<char>,
    pub kind: LogKind,
}

impl View for LogEntry {
    type V = EntryModel;

    open spec fn view(&self) -> EntryModel {
        EntryModel { text: self.text@, kind: self.kind }
    }
}

impl Clone for LogEntry {
    fn clone(&self) -> (r: LogEntry)
        ensures
            r == *self,
    {
        LogEntry { text: self.text.clone(), kind: self.kind }
    }
}

/// The number of entries that the log keeps.
pub const LOG_LIMIT: usize = 300;

/// The log after another entry: the oldest entries give way once there are too many.
pub open spec fn logged(log: Seq<EntryModel>, text: Seq<char>, kind: LogKind) -> Seq<EntryModel> {
    let all = log.push(EntryModel { text, kind });
    if all.len() > LOG_LIMIT {
        all.skip(all.len() - LOG_LIMIT)
    } else {
        all
    }
}

/// The scan settings of the window.
#[derive(Debug)]
pub struct GuiOptions {
    pub target: String,
    pub range: String,
    pub threads_arg: ThreadArg,
    pub timeout_fast_ms: u64,
    pub timeout_slow_ms: u64,
    pub verify_adb: bool,
    pub stop_on_first: bool,
}

/// The model of `GuiOptions`.
#[verifier::ext_equal]
pub struct SettingsModel {
    pub target: Seq<char>,
    pub range: Seq<char>,
    pub threads_arg: ThreadArg,
    pub timeout_fast_ms: u64,
    pub timeout_slow_ms: u64,
    pub verify_adb: bool,
    pub stop_on_first: bool,
}

impl View for GuiOptions {
    type V = SettingsModel;

    open spec fn view(&self) -> SettingsModel {
        SettingsModel {
            target: self.target@,
            range: self.range@,
            threads_arg: self.threads_arg,
            timeout_fast_ms: self.timeout_fast_ms,
            timeout_slow_ms: self.timeout_slow_ms,
            verify_adb: self.verify_adb,
            stop_on_first: self.stop_on_first,
        }
    }
}

impl Clone for GuiOptions {
    fn clone(&self) -> (r: GuiOptions)
        ensures
            r == *self,
    {
        GuiOptions {
            target: self.target.clone(),
            range: self.range.clone(),
            threads_arg: self.threads_arg,
            timeout_fast_ms: self.timeout_fast_ms,
            timeout_slow_ms: self.timeout_slow_ms,
            verify_adb: self.verify_adb,
            stop_on_first: self.stop_on_first,
        }
    }
}

/// The settings of a window that was started without a target.
pub open spec fn default_settings() -> SettingsModel {
    SettingsModel {
        target: Seq::empty(),
        range: "1-65535"@,
        threads_arg: ThreadArg::Auto,
        timeout_fast_ms: 100,
        timeout_slow_ms: 800,
        verify_adb: true,
        stop_on_first: true,
    }
}

impl Default for GuiOptions {
    fn default() -> (r: GuiOptions)
        ensures
            r@ == default_settings(),
    {
        GuiOptions {
            target: String::new(),
            range: "1-65535".to_owned(),
            threads_arg: ThreadArg::Auto,
            timeout_fast_ms: 100,
            timeout_slow_ms: 800,
            verify_adb: true,
            stop_on_first: true,
        }
    }
}

/// How a list of ports is written in the range field: as all ports if it has as many and does
/// not begin at port 0, else from its first to its last.
pub open spec fn range_text(ports: Seq<u16>) -> Seq<char> {
    if ports.len() == 0 || (ports.len() == 65535 && ports[0] != 0) {
        "1-65535"@
    } else {
        text::decimal_text(ports[0] as nat) + "-"@ + text::decimal_text(ports.last() as nat)
    }
}

/// The settings of a window that was started with the options `o`.
pub open spec fn settings_from(o: cli::OptionsModel) -> SettingsModel {
    SettingsModel {
        target: o.target,
        range: range_text(o.ports),
        threads_arg: o.threads_arg,
        timeout_fast_ms: o.timeout_fast_ms,
        timeout_slow_ms: o.timeout_slow_ms,
        verify_adb: o.verify_adb,
        stop_on_first: o.stop_on_first,
    }
}

impl GuiOptions {
    /// Takes over the options of the command line.
    pub fn from_options(o: &ScanOptions) -> (r: GuiOptions)
        ensures
            r@ == settings_from(o@),
    {
        let n: usize = o.ports.len();
        let range: String = if n == 0 || (n == 65535 && o.ports[0] != 0) {
            "1-65535".to_owned()
        } else {
            text::join3(
                &text::decimal(o.ports[0] as u64),
                "-",
                &text::decimal(o.ports[n - 1] as u64),
            )
        };
        GuiOptions {
            target: o.target.clone(),
            range,
            threads_arg: o.threads_arg,
            timeout_fast_ms: o.timeout_fast_ms,
            timeout_slow_ms: o.timeout_slow_ms,
            verify_adb: o.verify_adb,
            stop_on_first: o.stop_on_first,
        }
    }
}

/// The ports that the range field names, or what is wrong with it. An empty field means all
/// ports.
pub open spec fn ports_read(range: Seq<char>) -> Result<Seq<u16>, Seq<char>> {
    let s = text::trimmed(range);
    if s.len() == 0 || s == "1-65535"@ {
        Ok(ports::default_order())
    } else {
        match cli::range_read(s) {
            RangeRead::Ports(a, b) => Ok(ports::span(a as int, b as int)),
            RangeRead::NoDash => Err("端口范围格式应为 START-END"@),
            RangeRead::BadStart => Err("起始端口非法"@),
            RangeRead::BadEnd => Err("结束端口非法"@),
            RangeRead::Reversed => Err("起始端口必须 <= 结束端口"@),
        }
    }
}

/// Reads the range field.
pub fn parse_ports(range: &str) -> (r: Result<Vec<u16>, String>)
    ensures
        match r {
            Ok(v) => ports_read(range@) == Ok::<Seq<u16>, Seq<char>>(v@),
            Err(e) => ports_read(range@) == Err::<Seq<u16>, Seq<char>>(e@),
        },
{
    let s: String = text::trim(range);
    if s.as_str().is_empty() || text::same(&s, "1-65535") {
        return Ok(default_ports());
    }
    match read_range(&s) {
        RangeRead::Ports(a, b) => Ok(port_range(a, b)),
        RangeRead::NoDash => Err("端口范围格式应为 START-END".to_owned()),
        RangeRead::BadStart => Err("起始端口非法".to_owned()),
        RangeRead::BadEnd => Err("结束端口非法".to_owned()),
        RangeRead::Reversed => Err("起始端口必须 <= 结束端口".to_owned()),
    }
}

/// How a thread setting is written in its field.
pub open spec fn threads_text(arg: ThreadArg) -> Seq<char> {
    match arg {
        ThreadArg::Auto => "auto"@,
        ThreadArg::Max => "max"@,
        ThreadArg::Fixed(n) => text::decimal_text(n as nat),
    }
}

/// How a thread setting is written in its field.
pub fn show_threads(arg: ThreadArg) -> (r: String)
    ensures
        r@ == threads_text(arg),
{
    match arg {
        ThreadArg::Auto => "auto".to_owned(),
        ThreadArg::Max => "max".to_owned(),
        ThreadArg::Fixed(n) => text::decimal(n as u64),
    }
}

/// The thread setting that the text of the field means: what is no positive number means
/// automatic, and a number above the upper bound means the bound.
pub open spec fn threads_setting(field: Seq<char>) -> ThreadArg {
    let s = text::trimmed(field);
    if s == "auto"@ {
        ThreadArg::Auto
    } else if s == "max"@ {
        ThreadArg::Max
    } else {
        match text::unsigned(s, usize::MAX as nat) {
            Some(n) => if n == 0 {
                ThreadArg::Auto
            } else if n > HARD_MAX_THREADS {
                ThreadArg::Fixed(HARD_MAX_THREADS)
            } else {
                ThreadArg::Fixed(n as usize)
            },
            None => ThreadArg::Auto,
        }
    }
}

/// Reads the thread field.
pub fn parse_threads(field: &str) -> (r: ThreadArg)
    ensures
        r == threads_setting(field@),
{
    let s: String = text::trim(field);
    if text::same(&s, "auto") {
        return ThreadArg::Auto;
    }
    if text::same(&s, "max") {
        return ThreadArg::Max;
    }
    match text::parse_unsigned(&s, usize::MAX as u64) {
        Some(n) => if n == 0 {
            ThreadArg::Auto
        } else if n > HARD_MAX_THREADS as u64 {
            ThreadArg::Fixed(HARD_MAX_THREADS)
        } else {
            ThreadArg::Fixed(n as usize)
        },
        None => ThreadArg::Auto,
    }
}

/// The name of a service type on screen.
pub open spec fn kind_name(k: AdbServiceKind) -> Seq<char> {
    match k {
        AdbServiceKind::Connect => "TLS连接"@,
        AdbServiceKind::Pairing => "TLS配对"@,
        AdbServiceKind::Legacy => "旧版ADB"@,
    }
}

/// The name of a service type on screen.
pub fn kind_cn(k: &AdbServiceKind) -> (r: &'static str)
    ensures
        r@ == kind_name(*k),
{
    match k {
        AdbServiceKind::Connect => "TLS连接",
        AdbServiceKind::Pairing => "TLS配对",
        AdbServiceKind::Legacy => "旧版ADB",
    }
}

/// An address on screen, with its family and a note if it is link-local.
pub open spec fn shown_ip(ip: IpAddr) -> Seq<char> {
    match ip {
        IpAddr::V4(_) => "IPv4 "@ + addr::ip_text(ip),
        IpAddr::V6(v6) => if addr::link_local(v6) {
            "IPv6 "@ + addr::ip_text(ip) + " (链路本地)"@
        } else {
            "IPv6 "@ + addr::ip_text(ip)
        },
    }
}

/// An address on screen.
pub fn format_ip(ip: &IpAddr) -> (r: String)
    ensures
        r@ == shown_ip(*ip),
{
    match ip {
        IpAddr::V4(_) => text::join2("IPv4 ", &ip.to_text()),
        IpAddr::V6(v6) => {
            let mut s: String = text::join2("IPv6 ", &ip.to_text());
            if is_link_local(*v6) {
                s.append(" (链路本地)");
            }
            s
        },
    }
}

/// What identifies the row of a device.
pub open spec fn row_key_text(s: ServiceModel) -> Seq<char> {
    s.instance + "|"@ + addr::ip_text(s.ip)
}

/// What `adb connect` takes for a device.
pub open spec fn row_addr_text(s: ServiceModel) -> Seq<char> {
    addr::ip_text(s.ip) + ":"@ + text::decimal_text(s.port as nat)
}

/// The command that connects to `addr`.
pub open spec fn connect_command(addr: Seq<char>) -> Seq<char> {
    "adb connect "@ + addr
}

/// The text of the row of a device.
pub open spec fn row_line(s: ServiceModel, expanded: bool) -> Seq<char> {
    (if expanded {
        "▼ "@
    } else {
        "▶ "@
    }) + "["@ + kind_name(s.kind) + "] "@ + shown_ip(s.ip) + ":"@ + text::decimal_text(
        s.port as nat,
    ) + "  ("@ + s.instance + ")"@
}

/// The number of lines below an expanded row that come before the addresses.
pub const DETAIL_HEAD: usize = 3;

/// The lines below an expanded row: type and port, instance, and all addresses.
pub open spec fn detail_lines(s: ServiceModel) -> Seq<Seq<char>> {
    seq![
        "类型: "@ + kind_name(s.kind) + "    端口: "@ + text::decimal_text(s.port as nat),
        "实例: "@ + s.instance,
        "地址:"@,
    ] + s.ips.map_values(|ip: IpAddr| "  "@ + shown_ip(ip))
}

/// The target of one address of a device; a link-local address has zone 0.
pub open spec fn device_target(ip: IpAddr) -> TargetModel {
    TargetModel {
        ip,
        zone: match ip {
            IpAddr::V4(_) => None,
            IpAddr::V6(v6) => if addr::link_local(v6) {
                Some(0)
            } else {
                None
            },
        },
        display: addr::ip_text(ip),
    }
}

pub fn row_key(s: &AdbService) -> (r: String)
    ensures
        r@ == row_key_text(s@),
{
    text::join3(&s.instance, "|", &s.ip.to_text())
}

pub fn row_addr(s: &AdbService) -> (r: String)
    ensures
        r@ == row_addr_text(s@),
{
    text::join3(&s.ip.to_text(), ":", &text::decimal(s.port as u64))
}

/// The command that connects to `addr`.
pub fn adb_command(addr: &str) -> (r: String)
    ensures
        r@ == connect_command(addr@),
{
    text::join2("adb connect ", addr)
}

pub fn row_text(s: &AdbService, expanded: bool) -> (r: String)
    ensures
        r@ == row_line(s@, expanded),
{
    let arrow: &str = if expanded {
        "▼ "
    } else {
        "▶ "
    };
    let mut r: String = text::join3(arrow, "[", kind_cn(&s.kind));
    r.append("] ");
    r.append(&format_ip(&s.ip));
    r.append(":");
    r.append(&text::decimal(s.port as u64));
    r.append("  (");
    r.append(&s.instance);
    r.append(")");
    r
}

pub fn row_details(s: &AdbService) -> (r: Vec<String>)
    ensures
        cli::arg_texts(r@) == detail_lines(s@),
{
    let ghost want = detail_lines(s@);
    let mut out: Vec<String> = Vec::new();
    let mut first: String = text::join3("类型: ", kind_cn(&s.kind), "    端口: ");
    first.append(&text::decimal(s.port as u64));
    out.push(first);
    out.push(text::join2("实例: ", &s.instance));
    out.push("地址:".to_owned());
    let mut i: usize = 0;
    assert(cli::arg_texts(out@) =~= want.take(3));
    while i < s.ips.len()
        invariant
            i <= s.ips@.len(),
            want == detail_lines(s@),
            cli::arg_texts(out@) == want.take(3 + i),
        decreases s.ips@.len() - i,
    {
        let ghost before = out@;
        out.push(text::join2("  ", &format_ip(&s.ips[i])));
        assert(want[3 + i] == "  "@ + shown_ip(s.ips@[i as int]));
        assert(cli::arg_texts(out@) =~= cli::arg_texts(before).push(out@.last()@));
        assert(want.take(3 + i + 1) =~= want.take(3 + i).push(want[3 + i]));
        i = i + 1;
    }
    assert(want.take(3 + i) =~= want);
    out
}

/// The targets of "scan this device": all its addresses.
pub fn device_targets(s: &AdbService) -> (r: Vec<Target>)
    ensures
        target::target_models(r@) == s.ips@.map_values(|ip: IpAddr| device_target(ip)),
        r@.len() == s.ips@.len(),
        forall|i: int|
            0 <= i < r@.len() ==> (#[trigger] r@[i]).ip == s.ips@[i] && r@[i].display@
                == addr::ip_text(s.ips@[i]),
{
    let ghost want = s.ips@.map_values(|ip: IpAddr| device_target(ip));
    let mut out: Vec<Target> = Vec::new();
    let mut i: usize = 0;
    assert(target::target_models(out@) =~= want.take(0));
    while i < s.ips.len()
        invariant
            i <= s.ips@.len() == want.len(),
            forall|k: int| 0 <= k < want.len() ==> #[trigger] want[k] == device_target(s.ips@[k]),
            target::target_models(out@) == want.take(i as int),
        decreases s.ips@.len() - i,
    {
        let ip: IpAddr = s.ips[i];
        let zone: Option<u32> = match ip {
            IpAddr::V4(_) => None,
            IpAddr::V6(v6) => if is_link_local(v6) {
                Some(0)
            } else {
                None
            },
        };
        let ghost before = out@;
        out.push(Target { ip, zone, display: ip.to_text() });
        assert(out@.last()@ == want[i as int]);
        assert(target::target_models(out@) =~= target::target_models(before).push(out@.last()@));
        assert(want.take(i + 1) =~= want.take(i as int).push(want[i as int]));
        i = i + 1;
    }
    assert(want.take(i as int) =~= want);
    proof {
        let models = target::target_models(out@);
        assert forall|k: int| 0 <= k < out@.len() implies (#[trigger] out@[k]).ip == s.ips@[k]
            && out@[k].display@ == addr::ip_text(s.ips@[k]) by {
            assert(models[k] == out@[k]@);
            assert(want[k] == device_target(s.ips@[k]));
        }
        assert(models.len() == out@.len());
    }
    out
}

/// The buttons of the row of a device.
#[derive(Debug, Clone, Copy, PartialEq, Eq, Structural)]
pub enum RowButton {
    /// Connect to the device.
    Connect,
    /// Copy the connect command.
    Copy,
    /// Scan the device.
    Scan,
    /// Expand or collapse the row.
    Toggle,
}

/// What a button of the row of the device `s` does: connect to its address, copy the command
/// for that, scan all its addresses, or toggle the row with its key.
pub open spec fn button_action(s: ServiceModel, b: RowButton) -> ActionModel {
    match b {
        RowButton::Connect => ActionModel::Connect(row_addr_text(s)),
        RowButton::Copy => ActionModel::CopyCmd(connect_command(row_addr_text(s))),
        RowButton::Scan => ActionModel::ScanTarget(
            s.ips.map_values(|ip: IpAddr| device_target(ip)),
        ),
        RowButton::Toggle => ActionModel::Toggle(row_key_text(s)),
    }
}

/// The action of a button of the row of the device `s`.
pub fn row_action(s: &AdbService, b: RowButton) -> (r: RowAction)
    ensures
        r@ == button_action(s@, b),
{
    match b {
        RowButton::Connect => RowAction::Connect(row_addr(s)),
        RowButton::Copy => RowAction::CopyCmd(adb_command(&row_addr(s))),
        RowButton::Scan => RowAction::ScanTarget(device_targets(s)),
        RowButton::Toggle => RowAction::Toggle(row_key(s)),
    }
}

/// The text of bytes that should be UTF-8.
pub uninterp spec fn lossy_text(bytes: Seq<u8>) -> Seq<char>;

/// `String::from_utf8_lossy`: the decoded characters when the bytes are valid UTF-8. What it
/// puts in place of invalid bytes depends on the bytes alone and is not stated here.
#[verifier::external_body]
fn lossy(bytes: &[u8]) -> (r: String)
    ensures
        r@ == lossy_text(bytes@),
        vstd::utf8::valid_utf8(bytes@) ==> r@ == vstd::utf8::decode_utf8(bytes@),
{
    String::from_utf8_lossy(bytes).into_owned()
}

/// How a run of `adb connect` ended.
#[derive(Debug)]
pub enum AdbRun {
    /// It ran: its two outputs and its exit code, if it has one.
    Ran { stdout: Vec<u8>, stderr: Vec<u8>, code: Option<i32> },
    /// It could not be started.
    Failed(String),
}

/// A signed number in decimal.
pub open spec fn signed_text(n: int) -> Seq<char> {
    if n < 0 {
        "-"@ + text::decimal_text((-n) as nat)
    } else {
        text::decimal_text(n as nat)
    }
}

/// What is reported of a run: what it printed, else what it printed as errors, else its exit
/// code.
pub open spec fn run_text(
    addr: Seq<char>,
    stdout: Seq<char>,
    stderr: Seq<char>,
    code: Option<i32>,
) -> Seq<char> {
    let out = text::trimmed(stdout);
    let err = text::trimmed(stderr);
    "adb "@ + addr + ": "@ + (if out.len() > 0 {
        out
    } else if err.len() > 0 {
        err
    } else {
        "无输出 (退出码 "@ + signed_text(
            match code {
                Some(c) => c as int,
                None => -1,
            },
        ) + ")"@
    })
}

/// What is reported of a run of `adb connect` with the outputs as texts.
pub fn run_message(addr: &str, stdout: &str, stderr: &str, code: Option<i32>) -> (r: String)
    ensures
        r@ == run_text(addr@, stdout@, stderr@, code),
{
    let mut m: String = text::join3("adb ", addr, ": ");
    let out: String = text::trim(stdout);
    let err: String = text::trim(stderr);
    if !out.as_str().is_empty() {
        m.append(&out);
    } else if !err.as_str().is_empty() {
        m.append(&err);
    } else {
        let c: i64 = match code {
            Some(c) => c as i64,
            None => -1,
        };
        let mut tail: String = "无输出 (退出码 ".to_owned();
        if c < 0 {
            let mut n: String = "-".to_owned();
            n.append(&text::decimal((-c) as u64));
            tail.append(&n);
        } else {
            tail.append(&text::decimal(c as u64));
        }
        tail.append(")");
        m.append(&tail);
    }
    m
}

/// What is reported of a run of `adb connect`, or of an attempt to start it.
pub open spec fn report_text(addr: Seq<char>, run: AdbRun) -> Seq<char> {
    match run {
        AdbRun::Ran { stdout, stderr, code } => run_text(
            addr,
            lossy_text(stdout@),
            lossy_text(stderr@),
            code,
        ),
        AdbRun::Failed(e) => "无法启动 adb: "@ + e@ + " — 请确认 adb 已安装并在 PATH 中"@,
    }
}

/// What is reported of a run of `adb connect`.
pub fn connect_report(addr: &str, run: &AdbRun) -> (r: String)
    ensures
        r@ == report_text(addr@, *run),
{
    match run {
        AdbRun::Ran { stdout, stderr, code } => run_message(
            addr,
            &lossy(stdout.as_slice()),
            &lossy(stderr.as_slice()),
            *code,
        ),
        AdbRun::Failed(e) => text::join3("无法启动 adb: ", e, " — 请确认 adb 已安装并在 PATH 中"),
    }
}

/// How long a discovery takes, in milliseconds.
pub const DISCOVERY_MS: u64 = 2000;

/// How long a toast is shown, in milliseconds.
pub const TOAST_MS: u64 = 4000;

/// The state of the window. Times are milliseconds on a clock of the caller's choice.
pub struct Panel {
    pub services: Vec<AdbService>,
    pub hits: Vec<Hit>,
    pub progress: Option<(usize, usize)>,
    pub status: ScanStatus,
    /// The seconds that the last discovery took, as a text.
    pub last_mdns: Option<String>,
    /// The seconds that the last port scan took, as a text.
    pub last_scan: Option<String>,
    pub opts: GuiOptions,
    /// A short notice and when it came up.
    pub toast: Option<(String, u64)>,
    pub log: Vec<LogEntry>,
    /// The keys of the expanded rows.
    pub expanded: StringHashSet,
}

/// The model of a `Panel`.
#[verifier::ext_equal]
pub struct PanelModel {
    pub services: Seq<ServiceModel>,
    pub hits: Seq<HitModel>,
    pub progress: Option<(usize, usize)>,
    pub status: ScanStatus,
    pub last_mdns: Option<Seq<char>>,
    pub last_scan: Option<Seq<char>>,
    pub opts: SettingsModel,
    pub toast: Option<(Seq<char>, u64)>,
    pub log: Seq<EntryModel>,
    pub expanded: Set<Seq<char>>,
}

/// The model of an optional text.
pub open spec fn text_model(t: Option<String>) -> Option<Seq<char>> {
    match t {
        Some(s) => Some(s@),
        None => None,
    }
}

/// The models of a log.
pub open spec fn entry_models(v: Seq<LogEntry>) -> Seq<EntryModel> {
    v.map_values(|e: LogEntry| e@)
}

impl View for Panel {
    type V = PanelModel;

    open spec fn view(&self) -> PanelModel {
        PanelModel {
            services: mdns::service_models(self.services@),
            hits: scan::hit_models(self.hits@),
            progress: self.progress,
            status: self.status,
            last_mdns: text_model(self.last_mdns),
            last_scan: text_model(self.last_scan),
            opts: self.opts@,
            toast: match self.toast {
                Some((s, at)) => Some((s@, at)),
                None => None,
            },
            log: entry_models(self.log@),
            expanded: self.expanded@,
        }
    }
}

/// A window with the settings `opts` in which nothing has happened yet.
pub open spec fn fresh(opts: SettingsModel) -> PanelModel {
    PanelModel {
        services: Seq::empty(),
        hits: Seq::empty(),
        progress: None,
        status: ScanStatus::Idle,
        last_mdns: None,
        last_scan: None,
        opts,
        toast: None,
        log: Seq::empty(),
        expanded: Set::empty(),
    }
}

/// The window after a line was logged.
pub open spec fn noted(p: PanelModel, text: Seq<char>, kind: LogKind) -> PanelModel {
    PanelModel { log: logged(p.log, text, kind), ..p }
}

/// The window after a toast came up.
pub open spec fn toasted(p: PanelModel, text: Seq<char>, now: u64) -> PanelModel {
    PanelModel { toast: Some((text, now)), ..p }
}

/// The window after a discovery was begun: the devices found before are gone.
pub open spec fn mdns_begun(p: PanelModel) -> PanelModel {
    PanelModel {
        status: ScanStatus::MdnsBusy,
        services: Seq::empty(),
        expanded: Set::empty(),
        ..p
    }
}

/// The window after a discovery was asked for, and whether it begins: not while the window is
/// busy.
pub open spec fn mdns_asked(p: PanelModel) -> (PanelModel, bool) {
    if p.status != ScanStatus::Idle {
        (p, false)
    } else {
        (mdns_begun(p), true)
    }
}

/// The options of a scan of `targets` on `ports` with the settings of the window.
pub open spec fn scan_options(
    p: PanelModel,
    targets: Seq<TargetModel>,
    ports: Seq<u16>,
) -> cli::OptionsModel {
    cli::OptionsModel {
        target: p.opts.target,
        targets,
        ports,
        threads_arg: p.opts.threads_arg,
        timeout_fast_ms: p.opts.timeout_fast_ms,
        timeout_slow_ms: p.opts.timeout_slow_ms,
        verify_adb: p.opts.verify_adb,
        stop_on_first: p.opts.stop_on_first,
    }
}

/// The window after a port scan of `targets` was asked for, and the scan to start. Nothing
/// happens while the window is busy; a range that cannot be read is shown as a toast.
pub open spec fn scan_begun(
    p: PanelModel,
    targets: Seq<TargetModel>,
    now: u64,
    machine: Machine,
) -> (PanelModel, Option<scan::CfgModel>) {
    if p.status != ScanStatus::Idle {
        (p, None)
    } else {
        match ports_read(p.opts.range) {
            Err(e) => (toasted(p, e, now), None),
            Ok(ports) => (
                noted(
                    PanelModel {
                        status: ScanStatus::PortBusy,
                        hits: Seq::empty(),
                        progress: None,
                        ..p
                    },
                    "开始扫描 "@ + text::decimal_text(targets.len()) + " 个目标, "@ + text::decimal_text(
                        ports.len(),
                    ) + " 个端口"@,
                    LogKind::Status,
                ),
                Some(cli::options_cfg(scan_options(p, targets, ports), machine)),
            ),
        }
    }
}

/// The tag of an open port on screen.
pub open spec fn port_tag(kind: AdbKind) -> Seq<char> {
    match kind {
        AdbKind::Plain => "明文ADB"@,
        AdbKind::Tls => "TLS加密"@,
        AdbKind::Open => "开放端口"@,
    }
}

/// A reason for leaving out the second pass, by its name.
pub open spec fn reason_name(reason: PassSkipReason) -> Seq<char> {
    match reason {
        PassSkipReason::HitFound => "HitFound"@,
        PassSkipReason::Cancelled => "Cancelled"@,
    }
}

/// The window after an event of the running scan.
pub open spec fn after_event(p: PanelModel, e: EventModel) -> PanelModel {
    match e {
        EventModel::Progress { pass, done, total } => PanelModel {
            progress: Some((done, total)),
            ..p
        },
        EventModel::PortHit(h) => noted(
            p,
            "命中 "@ + h.target.display + ":"@ + text::decimal_text(h.port as nat) + " ["@
                + port_tag(h.kind) + "]"@,
            if scan::speaks_adb(h.kind) {
                LogKind::Hit
            } else {
                LogKind::Normal
            },
        ),
        EventModel::PassStarted { pass, work_items, timeout } => noted(
            p,
            "[Pass "@ + text::decimal_text(pass as nat) + "/2] "@ + text::decimal_text(
                work_items as nat,
            ) + " 项, 超时 "@ + text::decimal_text(timeout as nat) + "ms"@,
            LogKind::Status,
        ),
        EventModel::PassSkipped { pass, remaining, reason } => noted(
            p,
            "[Pass 2/2] 跳过 ("@ + reason_name(reason) + ", 剩余 "@ + text::decimal_text(
                remaining as nat,
            ) + ")"@,
            LogKind::Status,
        ),
        EventModel::ThreadsSpawned { pass, requested, actual } => if requested != actual {
            noted(
                p,
                "注意: 申请 "@ + text::decimal_text(requested as nat) + " 线程, 实际起了 "@
                    + text::decimal_text(actual as nat),
                LogKind::Error,
            )
        } else {
            p
        },
    }
}

/// The number of hits that speak ADB.
pub open spec fn adb_count(hits: Seq<HitModel>) -> nat
    decreases hits.len(),
{
    if hits.len() == 0 {
        0
    } else {
        adb_count(hits.drop_last()) + if scan::speaks_adb(hits.last().kind) {
            1nat
        } else {
            0nat
        }
    }
}

/// What the background reports to the window. The seconds that something took come as a text.
#[derive(Debug)]
pub enum Msg {
    MdnsDone { services: Vec<AdbService>, elapsed: String },
    ScanEvt(ScanEvent),
    ScanDone { hits: Vec<Hit>, elapsed: String },
    Toast(String),
}

/// The model of a `Msg`.
#[verifier::ext_equal]
pub enum MsgModel {
    MdnsDone { services: Seq<ServiceModel>, elapsed: Seq<char> },
    ScanEvt(EventModel),
    ScanDone { hits: Seq<HitModel>, elapsed: Seq<char> },
    Toast(Seq<char>),
}

impl View for Msg {
    type V = MsgModel;

    open spec fn view(&self) -> MsgModel {
        match *self {
            Msg::MdnsDone { services, elapsed } => MsgModel::MdnsDone {
                services: mdns::service_models(services@),
                elapsed: elapsed@,
            },
            Msg::ScanEvt(e) => MsgModel::ScanEvt(e@),
            Msg::ScanDone { hits, elapsed } => MsgModel::ScanDone {
                hits: scan::hit_models(hits@),
                elapsed: elapsed@,
            },
            Msg::Toast(s) => MsgModel::Toast(s@),
        }
    }
}

/// The window after the discovery ended with `services`.
pub open spec fn mdns_ended(
    p: PanelModel,
    services: Seq<ServiceModel>,
    elapsed: Seq<char>,
) -> PanelModel {
    let done = noted(
        PanelModel { services, status: ScanStatus::Idle, last_mdns: Some(elapsed), ..p },
        "mDNS 完成: 发现 "@ + text::decimal_text(services.len()) + " 个设备 ("@ + elapsed + "s)"@,
        LogKind::Status,
    );
    if services.len() == 0 {
        noted(done, "未发现设备, 可手动输入 IP 扫描"@, LogKind::Normal)
    } else {
        done
    }
}

/// The window after the port scan ended with `hits`.
pub open spec fn scan_ended(p: PanelModel, hits: Seq<HitModel>, elapsed: Seq<char>) -> PanelModel {
    noted(
        PanelModel {
            hits,
            progress: None,
            status: ScanStatus::Idle,
            last_scan: Some(elapsed),
            ..p
        },
        "扫描完成: "@ + text::decimal_text(hits.len()) + " 个命中, ADB "@ + text::decimal_text(
            adb_count(hits),
        ) + " 个 ("@ + elapsed + "s)"@,
        LogKind::Success,
    )
}

/// The window after a message from the background.
pub open spec fn after_msg(p: PanelModel, msg: MsgModel, now: u64) -> PanelModel {
    match msg {
        MsgModel::MdnsDone { services, elapsed } => mdns_ended(p, services, elapsed),
        MsgModel::ScanEvt(e) => after_event(p, e),
        MsgModel::ScanDone { hits, elapsed } => scan_ended(p, hits, elapsed),
        MsgModel::Toast(s) => toasted(p, s, now),
    }
}

fn count_adb(hits: &Vec<Hit>) -> (r: usize)
    ensures
        r == adb_count(scan::hit_models(hits@)),
{
    let ghost all = scan::hit_models(hits@);
    let mut n: usize = 0;
    let mut i: usize = 0;
    assert(all.take(0) =~= Seq::<HitModel>::empty());
    while i < hits.len()
        invariant
            i <= hits@.len(),
            all == scan::hit_models(hits@),
            n == adb_count(all.take(i as int)),
            n <= i,
        decreases hits@.len() - i,
    {
        assert(all.take(i + 1).drop_last() =~= all.take(i as int));
        assert(all.take(i + 1).last() == hits@[i as int]@);
        if is_adb(hits[i].kind) {
            n = n + 1;
        }
        i = i + 1;
    }
    assert(all.take(i as int) =~= all);
    n
}

impl Panel {
    /// A window with the settings `opts`.
    pub fn new(opts: GuiOptions) -> (r: Panel)
        ensures
            r@ == fresh(opts@),
    {
        let services: Vec<AdbService> = Vec::new();
        let hits: Vec<Hit> = Vec::new();
        let log: Vec<LogEntry> = Vec::new();
        let r: Panel = Panel {
            services,
            hits,
            progress: None,
            status: ScanStatus::Idle,
            last_mdns: None,
            last_scan: None,
            opts,
            toast: None,
            log,
            expanded: StringHashSet::new(),
        };
        assert(r@ =~= fresh(opts@));
        r
    }

    /// Logs a line.
    pub fn log(&mut self, text: String, kind: LogKind)
        ensures
            final(self)@ == noted(old(self)@, text@, kind),
    {
        let ghost before = self@;
        self.log.push(LogEntry { text, kind });
        let ghost all = before.log.push(EntryModel { text: text@, kind });
        assert(entry_models(self.log@) =~= all);
        if self.log.len() > LOG_LIMIT {
            let cut: usize = self.log.len() - LOG_LIMIT;
            let kept: Vec<LogEntry> = self.log.split_off(cut);
            self.log = kept;
            assert(entry_models(self.log@) =~= all.skip(cut as int));
        }
        assert(self@ =~= noted(before, text@, kind));
    }

    /// Shows a toast.
    pub fn show_toast(&mut self, text: String, now: u64)
        ensures
            final(self)@ == toasted(old(self)@, text@, now),
    {
        let ghost before = self@;
        self.toast = Some((text, now));
        assert(self@ =~= toasted(before, text@, now));
    }

    /// Begins a discovery, unless the window is busy; says whether it did.
    pub fn start_mdns_scan(&mut self) -> (r: bool)
        ensures
            (final(self)@, r) == mdns_asked(old(self)@),
    {
        let ghost before = self@;
        if self.status.busy() {
            return false;
        }
        self.status = ScanStatus::MdnsBusy;
        self.services = Vec::new();
        self.expanded.clear();
        assert(self@ =~= mdns_begun(before));
        true
    }

    /// Begins a port scan of `targets`, unless the window is busy or the range cannot be read;
    /// gives the scan to start.
    pub fn start_port_scan(&mut self, targets: Vec<Target>, now: u64, machine: &Machine) -> (r:
        Option<ScanCfg>)
        ensures
            ({
                let (panel, cfg) = scan_begun(
                    old(self)@,
                    target::target_models(targets@),
                    now,
                    *machine,
                );
                &&& final(self)@ == panel
                &&& match r {
                    Some(c) => cfg == Some(c@),
                    None => cfg is None,
                }
            }),
    {
        let ghost before = self@;
        if self.status.busy() {
            return None;
        }
        let ports: Vec<u16> = match parse_ports(&self.opts.range) {
            Ok(v) => v,
            Err(e) => {
                self.show_toast(e, now);
                return None;
            },
        };
        self.status = ScanStatus::PortBusy;
        self.hits = Vec::new();
        self.progress = None;
        assert(self@ =~= (PanelModel {
            status: ScanStatus::PortBusy,
            hits: Seq::empty(),
            progress: None,
            ..before
        }));
        let mut line: String = text::join3(
            "开始扫描 ",
            &text::decimal(targets.len() as u64),
            " 个目标, ",
        );
        line.append(&text::decimal(ports.len() as u64));
        line.append(" 个端口");
        self.log(line, LogKind::Status);
        let threads: usize = self.opts.threads_arg.resolve(
            count_items(targets.len(), ports.len()),
            machine,
        );
        proof {
            cli::law_resolved_bounds(
                before.opts.threads_arg,
                scan::item_count(targets@.len() as int, ports@.len() as int),
                *machine,
            );
        }
        let cfg: ScanCfg = ScanCfg::builder(targets, Arc::new(ports))
            .threads(threads)
            .fast_timeout(self.opts.timeout_fast_ms)
            .slow_timeout(self.opts.timeout_slow_ms)
            .verify_timeout(self.opts.timeout_slow_ms)
            .verify_adb(self.opts.verify_adb)
            .stop_on_first(self.opts.stop_on_first)
            .build(machine);
        Some(cfg)
    }

    fn on_event(&mut self, e: ScanEvent)
        ensures
            final(self)@ == after_event(old(self)@, e@),
    {
        let ghost before = self@;
        match e {
            ScanEvent::Progress { done, total, .. } => {
                self.progress = Some((done, total));
                assert(self@ =~= after_event(before, e@));
            },
            ScanEvent::PortHit(h) => {
                let mut line: String = text::join3("命中 ", &h.target.display, ":");
                line.append(&text::decimal(h.port as u64));
                line.append(" [");
                line.append(
                    match h.kind {
                        AdbKind::Plain => "明文ADB",
                        AdbKind::Tls => "TLS加密",
                        AdbKind::Open => "开放端口",
                    },
                );
                line.append("]");
                let kind: LogKind = if is_adb(h.kind) {
                    LogKind::Hit
                } else {
                    LogKind::Normal
                };
                self.log(line, kind);
            },
            ScanEvent::PassStarted { pass, work_items, timeout } => {
                let mut line: String = text::join3("[Pass ", &text::decimal(pass as u64), "/2] ");
                line.append(&text::decimal(work_items as u64));
                line.append(" 项, 超时 ");
                line.append(&text::decimal(timeout));
                line.append("ms");
                self.log(line, LogKind::Status);
            },
            ScanEvent::PassSkipped { remaining, reason, .. } => {
                let name: &str = match reason {
                    PassSkipReason::HitFound => "HitFound",
                    PassSkipReason::Cancelled => "Cancelled",
                };
                let mut line: String = text::join3("[Pass 2/2] 跳过 (", name, ", 剩余 ");
                line.append(&text::decimal(remaining as u64));
                line.append(")");
                self.log(line, LogKind::Status);
            },
            ScanEvent::ThreadsSpawned { requested, actual, .. } => {
                if requested != actual {
                    let mut line: String = text::join3(
                        "注意: 申请 ",
                        &text::decimal(requested as u64),
                        " 线程, 实际起了 ",
                    );
                    line.append(&text::decimal(actual as u64));
                    self.log(line, LogKind::Error);
                }
            },
        }
    }

    /// Takes in a message from the background.
    pub fn on_message(&mut self, msg: Msg, now: u64)
        ensures
            final(self)@ == after_msg(old(self)@, msg@, now),
    {
        let ghost before = self@;
        match msg {
            Msg::MdnsDone { services, elapsed } => {
                let n: usize = services.len();
                let mut line: String = text::join3(
                    "mDNS 完成: 发现 ",
                    &text::decimal(n as u64),
                    " 个设备 (",
                );
                line.append(&elapsed);
                line.append("s)");
                let ghost models = mdns::service_models(services@);
                let ghost seconds = elapsed@;
                self.services = services;
                self.status = ScanStatus::Idle;
                self.last_mdns = Some(elapsed);
                assert(self@ =~= (PanelModel {
                    services: models,
                    status: ScanStatus::Idle,
                    last_mdns: Some(seconds),
                    ..before
                }));
                self.log(line, LogKind::Status);
                if n == 0 {
                    self.log("未发现设备, 可手动输入 IP 扫描".to_owned(), LogKind::Normal);
                }
            },
            Msg::ScanEvt(e) => {
                self.on_event(e);
            },
            Msg::ScanDone { hits, elapsed } => {
                let mut line: String = text::join3(
                    "扫描完成: ",
                    &text::decimal(hits.len() as u64),
                    " 个命中, ADB ",
                );
                line.append(&text::decimal(count_adb(&hits) as u64));
                line.append(" 个 (");
                line.append(&elapsed);
                line.append("s)");
                let ghost models = scan::hit_models(hits@);
                let ghost seconds = elapsed@;
                self.hits = hits;
                self.progress = None;
                self.status = ScanStatus::Idle;
                self.last_scan = Some(elapsed);
                assert(self@ =~= (PanelModel {
                    hits: models,
                    progress: None,
                    status: ScanStatus::Idle,
                    last_scan: Some(seconds),
                    ..before
                }));
                self.log(line, LogKind::Success);
            },
            Msg::Toast(s) => {
                self.show_toast(s, now);
            },
        }
    }
}

/// What the user does with the row of a device.
#[derive(Debug)]
pub enum RowAction {
    /// Copy a command to the clipboard.
    CopyCmd(String),
    /// Connect to an address.
    Connect(String),
    /// Expand or collapse the row with this key.
    Toggle(String),
    /// Scan these targets.
    ScanTarget(Vec<Target>),
}

/// What is left to do outside the window's state.
#[derive(Debug)]
pub enum Effect {
    Nothing,
    /// Put this text on the clipboard.
    Copy(String),
    /// Run `adb connect` with this address.
    Connect(String),
    /// Start this scan.
    Scan(ScanCfg),
    /// Look up this host name.
    Lookup(String),
}

/// The model of a `RowAction`.
#[verifier::ext_equal]
pub enum ActionModel {
    CopyCmd(Seq<char>),
    Connect(Seq<char>),
    Toggle(Seq<char>),
    ScanTarget(Seq<TargetModel>),
}

impl View for RowAction {
    type V = ActionModel;

    open spec fn view(&self) -> ActionModel {
        match *self {
            RowAction::CopyCmd(s) => ActionModel::CopyCmd(s@),
            RowAction::Connect(s) => ActionModel::Connect(s@),
            RowAction::Toggle(s) => ActionModel::Toggle(s@),
            RowAction::ScanTarget(t) => ActionModel::ScanTarget(target::target_models(t@)),
        }
    }
}

impl Clone for RowAction {
    fn clone(&self) -> (r: RowAction)
        ensures
            r@ == self@,
    {
        match self {
            RowAction::CopyCmd(s) => RowAction::CopyCmd(s.clone()),
            RowAction::Connect(s) => RowAction::Connect(s.clone()),
            RowAction::Toggle(s) => RowAction::Toggle(s.clone()),
            RowAction::ScanTarget(t) => RowAction::ScanTarget(copy_targets(t)),
        }
    }
}

/// The model of an `Effect`.
#[verifier::ext_equal]
pub enum EffectModel {
    Nothing,
    Copy(Seq<char>),
    Connect(Seq<char>),
    Scan(scan::CfgModel),
    Lookup(Seq<char>),
}

impl View for Effect {
    type V = EffectModel;

    open spec fn view(&self) -> EffectModel {
        match *self {
            Effect::Nothing => EffectModel::Nothing,
            Effect::Copy(s) => EffectModel::Copy(s@),
            Effect::Connect(s) => EffectModel::Connect(s@),
            Effect::Scan(c) => EffectModel::Scan(c@),
            Effect::Lookup(s) => EffectModel::Lookup(s@),
        }
    }
}

/// The effect of a scan that was asked for.
pub open spec fn scan_effect(cfg: Option<scan::CfgModel>) -> EffectModel {
    match cfg {
        Some(c) => EffectModel::Scan(c),
        None => EffectModel::Nothing,
    }
}

/// The window after a command was copied.
pub open spec fn copied(p: PanelModel, cmd: Seq<char>, now: u64) -> PanelModel {
    toasted(p, "已复制: "@ + cmd, now)
}

/// The window after a connection to `addr` was asked for.
pub open spec fn connecting(p: PanelModel, addr: Seq<char>) -> PanelModel {
    noted(p, "正在连接 "@ + addr + " …"@, LogKind::Status)
}

/// The window after the row with the key `key` was expanded or collapsed.
pub open spec fn toggled(p: PanelModel, key: Seq<char>) -> PanelModel {
    PanelModel {
        expanded: if p.expanded.contains(key) {
            p.expanded.remove(key)
        } else {
            p.expanded.insert(key)
        },
        ..p
    }
}

/// The window and the effect after an action on the row of a device.
pub open spec fn after_action(
    p: PanelModel,
    action: ActionModel,
    now: u64,
    machine: Machine,
) -> (PanelModel, EffectModel) {
    match action {
        ActionModel::CopyCmd(cmd) => (copied(p, cmd, now), EffectModel::Copy(cmd)),
        ActionModel::Connect(addr) => (connecting(p, addr), EffectModel::Connect(addr)),
        ActionModel::Toggle(key) => (toggled(p, key), EffectModel::Nothing),
        ActionModel::ScanTarget(targets) => {
            let named = if targets.len() > 0 {
                PanelModel {
                    opts: SettingsModel { target: targets[0].display, ..p.opts },
                    ..p
                }
            } else {
                p
            };
            let (panel, cfg) = scan_begun(named, targets, now, machine);
            (panel, scan_effect(cfg))
        },
    }
}

/// Whether the button of the manual scan can be pressed.
pub open spec fn can_scan(p: PanelModel) -> bool {
    text::trimmed(p.opts.target).len() > 0 && p.status == ScanStatus::Idle
}

/// The window and the effect after the button of the manual scan was pressed.
pub open spec fn after_manual(p: PanelModel, now: u64, machine: Machine) -> (
    PanelModel,
    EffectModel,
) {
    if !can_scan(p) {
        (p, EffectModel::Nothing)
    } else {
        match target::targets_of(p.opts.target) {
            Err(e) => (toasted(p, "目标解析失败: "@ + e, now), EffectModel::Nothing),
            Ok(TargetsModel::Lookup(host)) => (p, EffectModel::Lookup(host)),
            Ok(TargetsModel::Ready(targets)) => {
                let (panel, cfg) = scan_begun(p, targets, now, machine);
                (panel, scan_effect(cfg))
            },
        }
    }
}

/// The window and the effect after the lookup of the manual scan's host name was answered.
pub open spec fn after_lookup(
    p: PanelModel,
    host: Seq<char>,
    answer: Result<Seq<IpAddr>, Seq<char>>,
    now: u64,
    machine: Machine,
) -> (PanelModel, EffectModel) {
    match target::looked_up(host, answer) {
        Err(e) => (toasted(p, "目标解析失败: "@ + e, now), EffectModel::Nothing),
        Ok(targets) => {
            let (panel, cfg) = scan_begun(p, targets, now, machine);
            (panel, scan_effect(cfg))
        },
    }
}

/// The connect commands of all devices, one per line.
pub open spec fn all_commands(services: Seq<ServiceModel>) -> Seq<char>
    decreases services.len(),
{
    if services.len() == 0 {
        Seq::empty()
    } else if services.len() == 1 {
        connect_command(row_addr_text(services[0]))
    } else {
        all_commands(services.drop_last()) + "\n"@ + connect_command(
            row_addr_text(services.last()),
        )
    }
}

/// The window and the effect after the commands of all devices were copied.
pub open spec fn all_copied(p: PanelModel, now: u64) -> (PanelModel, EffectModel) {
    (toasted(p, "已复制全部连接命令"@, now), EffectModel::Copy(all_commands(p.services)))
}

/// The note below the manual scan when there are hits but none speaks ADB.
pub open spec fn ports_note(hits: Seq<HitModel>) -> Option<Seq<char>> {
    if hits.len() > 0 && adb_count(hits) == 0 {
        Some("有 "@ + text::decimal_text(hits.len()) + " 个 TCP 开放端口, 未识别到 ADB 协议"@)
    } else {
        None
    }
}

/// The note in place of the device list when it is empty.
pub open spec fn no_devices_text(status: ScanStatus) -> Seq<char> {
    if status != ScanStatus::Idle {
        "正在发现设备…"@
    } else {
        "未发现设备 — 点击右上角「重新扫描」或手动输入 IP"@
    }
}

/// The window after its toast was looked at, and the line of the toast; a toast that was shown
/// long enough is gone.
pub open spec fn toast_shown(p: PanelModel, now: u64) -> (PanelModel, Option<Seq<char>>) {
    match p.toast {
        Some((text, at)) => if now - at < TOAST_MS {
            (p, Some("✔ "@ + text))
        } else {
            (PanelModel { toast: None, ..p }, None)
        },
        None => (p, None),
    }
}

/// The connect command of a hit.
pub open spec fn hit_command(h: HitModel) -> Seq<char> {
    "adb connect "@ + h.target.display + ":"@ + text::decimal_text(h.port as nat)
}

/// `s` without the texts `p` in front.
pub open spec fn without_prefixes(s: Seq<char>, p: Seq<char>) -> Seq<char>
    decreases s.len(),
{
    if p.len() > 0 && s.len() >= p.len() && s.take(p.len() as int) == p {
        without_prefixes(s.skip(p.len() as int), p)
    } else {
        s
    }
}

/// A hit that speaks ADB, as the window lists it.
#[derive(Debug)]
pub struct AdbRow {
    /// The connect command.
    pub cmd: String,
    /// What it connects to.
    pub addr: String,
    /// The text of the row.
    pub label: String,
}

/// The model of an `AdbRow`.
#[verifier::ext_equal]
pub struct AdbRowModel {
    pub cmd: Seq<char>,
    pub addr: Seq<char>,
    pub label: Seq<char>,
}

impl View for AdbRow {
    type V = AdbRowModel;

    open spec fn view(&self) -> AdbRowModel {
        AdbRowModel { cmd: self.cmd@, addr: self.addr@, label: self.label@ }
    }
}

/// The row of a hit that speaks ADB.
pub open spec fn adb_row(h: HitModel) -> AdbRowModel {
    AdbRowModel {
        cmd: hit_command(h),
        addr: without_prefixes(hit_command(h), "adb connect "@),
        label: hit_command(h) + "   ["@ + port_tag(h.kind) + "]"@,
    }
}

/// The rows of the hits that speak ADB, in their order.
pub open spec fn adb_row_list(hits: Seq<HitModel>) -> Seq<AdbRowModel>
    decreases hits.len(),
{
    if hits.len() == 0 {
        Seq::empty()
    } else if scan::speaks_adb(hits.last().kind) {
        adb_row_list(hits.drop_last()).push(adb_row(hits.last()))
    } else {
        adb_row_list(hits.drop_last())
    }
}

/// The models of a list of rows.
pub open spec fn adb_row_models(v: Seq<AdbRow>) -> Seq<AdbRowModel> {
    v.map_values(|r: AdbRow| r@)
}

fn strip_prefixes(s: &str, p: &str) -> (r: String)
    ensures
        r@ == without_prefixes(s@, p@),
{
    let v: Vec<char> = text::to_chars(s);
    let q: Vec<char> = text::to_chars(p);
    let mut i: usize = 0;
    assert(v@.skip(0) =~= v@);
    while q.len() > 0 && v.len() - i >= q.len()
        invariant_except_break
            i <= v@.len(),
            q@ == p@,
            without_prefixes(s@, p@) == without_prefixes(v@.skip(i as int), p@),
        ensures
            i <= v@.len(),
            without_prefixes(s@, p@) == v@.skip(i as int),
        decreases v@.len() - i,
    {
        let part: String = text::text_of(&v, i, i + q.len());
        assert(v@.skip(i as int).take(q@.len() as int) =~= v@.subrange(i as int, i + q@.len()));
        if !text::same(&part, p) {
            break;
        }
        assert(v@.skip(i as int).skip(q@.len() as int) =~= v@.skip(i + q@.len()));
        i = i + q.len();
    }
    assert(v@.subrange(i as int, v@.len() as int) =~= v@.skip(i as int));
    text::text_of(&v, i, v.len())
}

impl Panel {
    fn scanned(cfg: Option<ScanCfg>) -> (r: Effect)
        ensures
            r@ == scan_effect(
                match cfg {
                    Some(c) => Some(c@),
                    None => None,
                },
            ),
    {
        match cfg {
            Some(c) => Effect::Scan(c),
            None => Effect::Nothing,
        }
    }

    /// Copies a command: gives the text for the clipboard and says so in a toast.
    pub fn copy_cmd(&mut self, cmd: String, now: u64) -> (r: Effect)
        ensures
            final(self)@ == copied(old(self)@, cmd@, now),
            r@ == EffectModel::Copy(cmd@),
    {
        self.show_toast(text::join2("已复制: ", &cmd), now);
        Effect::Copy(cmd)
    }

    /// Asks for a connection.
    pub fn adb_connect(&mut self, addr: String) -> (r: Effect)
        ensures
            final(self)@ == connecting(old(self)@, addr@),
            r@ == EffectModel::Connect(addr@),
    {
        self.log(text::join3("正在连接 ", &addr, " …"), LogKind::Status);
        Effect::Connect(addr)
    }

    /// Performs an action on the row of a device.
    pub fn apply(&mut self, action: RowAction, now: u64, machine: &Machine) -> (r: Effect)
        ensures
            (final(self)@, r@) == after_action(old(self)@, action@, now, *machine),
    {
        let ghost before = self@;
        match action {
            RowAction::CopyCmd(cmd) => self.copy_cmd(cmd, now),
            RowAction::Connect(addr) => self.adb_connect(addr),
            RowAction::Toggle(key) => {
                let ghost k = key@;
                if self.expanded.contains(key.as_str()) {
                    self.expanded.remove(key.as_str());
                } else {
                    self.expanded.insert(key);
                }
                assert(self@ =~= toggled(before, k));
                Effect::Nothing
            },
            RowAction::ScanTarget(targets) => {
                if targets.len() > 0 {
                    self.opts.target = targets[0].display.clone();
                    assert(target::target_models(targets@)[0] == targets@[0]@);
                    assert(self@ =~= (PanelModel {
                        opts: SettingsModel { target: targets@[0].display@, ..before.opts },
                        ..before
                    }));
                }
                let cfg: Option<ScanCfg> = self.start_port_scan(targets, now, machine);
                Panel::scanned(cfg)
            },
        }
    }

    /// Whether the button of the manual scan can be pressed.
    pub fn can_scan(&self) -> (r: bool)
        ensures
            r == can_scan(self@),
    {
        !text::trim(&self.opts.target).as_str().is_empty() && !self.status.busy()
    }

    /// Presses the button of the manual scan.
    pub fn manual_scan(&mut self, now: u64, machine: &Machine) -> (r: Effect)
        ensures
            (final(self)@, r@) == after_manual(old(self)@, now, *machine),
    {
        if !self.can_scan() {
            return Effect::Nothing;
        }
        match parse_targets(&self.opts.target) {
            Err(e) => {
                self.show_toast(text::join2("目标解析失败: ", &e), now);
                Effect::Nothing
            },
            Ok(Targets::Lookup(host)) => Effect::Lookup(host),
            Ok(Targets::Ready(targets)) => {
                let cfg: Option<ScanCfg> = self.start_port_scan(targets, now, machine);
                Panel::scanned(cfg)
            },
        }
    }

    /// Takes in the answer of the lookup of the manual scan's host name.
    pub fn host_found(
        &mut self,
        host: &str,
        answer: Result<Vec<IpAddr>, String>,
        now: u64,
        machine: &Machine,
    ) -> (r: Effect)
        ensures
            (final(self)@, r@) == after_lookup(
                old(self)@,
                host@,
                match answer {
                    Ok(v) => Ok(v@),
                    Err(e) => Err(e@),
                },
                now,
                *machine,
            ),
    {
        match host_targets(host, answer) {
            Err(e) => {
                self.show_toast(text::join2("目标解析失败: ", &e), now);
                Effect::Nothing
            },
            Ok(targets) => {
                let cfg: Option<ScanCfg> = self.start_port_scan(targets, now, machine);
                Panel::scanned(cfg)
            },
        }
    }

    /// Copies the connect commands of all devices.
    pub fn copy_all(&mut self, now: u64) -> (r: Effect)
        ensures
            (final(self)@, r@) == all_copied(old(self)@, now),
    {
        let ghost all = self@.services;
        let mut out: String = String::new();
        let mut i: usize = 0;
        assert(out@ =~= all_commands(all.take(0)));
        while i < self.services.len()
            invariant
                i <= self.services@.len(),
                all == mdns::service_models(self.services@),
                out@ == all_commands(all.take(i as int)),
            decreases self.services@.len() - i,
        {
            assert(all.take(i + 1).drop_last() =~= all.take(i as int));
            assert(all.take(i + 1).last() == self.services@[i as int]@);
            if i > 0 {
                out.append("\n");
            }
            out.append(&adb_command(&row_addr(&self.services[i])));
            assert(out@ =~= all_commands(all.take(i + 1)));
            i = i + 1;
        }
        assert(all.take(i as int) =~= all);
        self.show_toast("已复制全部连接命令".to_owned(), now);
        Effect::Copy(out)
    }

    /// Whether the row with the key `key` is expanded.
    pub fn is_expanded(&self, key: &str) -> (r: bool)
        ensures
            r == self@.expanded.contains(key@),
    {
        self.expanded.contains(key)
    }

    /// The rows of the hits that speak ADB.
    pub fn adb_rows(&self) -> (r: Vec<AdbRow>)
        ensures
            adb_row_models(r@) == adb_row_list(self@.hits),
    {
        let ghost all = self@.hits;
        let mut out: Vec<AdbRow> = Vec::new();
        let mut i: usize = 0;
        assert(adb_row_models(out@) =~= adb_row_list(all.take(0)));
        while i < self.hits.len()
            invariant
                i <= self.hits@.len(),
                all == scan::hit_models(self.hits@),
                adb_row_models(out@) == adb_row_list(all.take(i as int)),
            decreases self.hits@.len() - i,
        {
            assert(all.take(i + 1).drop_last() =~= all.take(i as int));
            assert(all.take(i + 1).last() == self.hits@[i as int]@);
            let h: &Hit = &self.hits[i];
            if is_adb(h.kind) {
                let ghost before = out@;
                let mut cmd: String = text::join3("adb connect ", &h.target.display, ":");
                cmd.append(&text::decimal(h.port as u64));
                let addr: String = strip_prefixes(&cmd, "adb connect ");
                let tag: &str = match h.kind {
                    AdbKind::Plain => "明文ADB",
                    AdbKind::Tls => "TLS加密",
                    AdbKind::Open => "开放端口",
                };
                let mut label: String = text::join3(&cmd, "   [", tag);
                label.append("]");
                out.push(AdbRow { cmd, addr, label });
                assert(out@.last()@ == adb_row(h@));
                assert(adb_row_models(out@) =~= adb_row_models(before).push(out@.last()@));
            }
            i = i + 1;
        }
        assert(all.take(i as int) =~= all);
        out
    }

    /// The note below the manual scan when there are hits but none speaks ADB.
    pub fn open_ports_note(&self) -> (r: Option<String>)
        ensures
            text_model(r) == ports_note(self@.hits),
    {
        if self.hits.len() > 0 && count_adb(&self.hits) == 0 {
            Some(
                text::join3(
                    "有 ",
                    &text::decimal(self.hits.len() as u64),
                    " 个 TCP 开放端口, 未识别到 ADB 协议",
                ),
            )
        } else {
            None
        }
    }

    /// The note in place of the device list when it is empty.
    pub fn empty_note(&self) -> (r: &'static str)
        ensures
            r@ == no_devices_text(self@.status),
    {
        if self.status.busy() {
            "正在发现设备…"
        } else {
            "未发现设备 — 点击右上角「重新扫描」或手动输入 IP"
        }
    }

    /// The line of the toast; a toast that was shown long enough is gone.
    pub fn toast_line(&mut self, now: u64) -> (r: Option<String>)
        ensures
            (final(self)@, text_model(r)) == toast_shown(old(self)@, now),
    {
        let ghost before = self@;
        let line: Option<String> = match &self.toast {
            Some((text, at)) => if now < *at || now - *at < TOAST_MS {
                Some(text::join2("✔ ", text))
            } else {
                None
            },
            None => None,
        };
        if line.is_none() {
            self.toast = None;
            assert(self@ =~= (PanelModel { toast: None, ..before }));
        }
        line
    }
}

/// The log never grows beyond its limit, and its last entry is the newest.
pub proof fn law_log_is_bounded(log: Seq<EntryModel>, text: Seq<char>, kind: LogKind)
    ensures
        1 <= logged(log, text, kind).len() <= LOG_LIMIT,
        logged(log, text, kind).last() == (EntryModel { text, kind }),
{
}

/// Up to the limit, the log keeps every entry in its order.
pub proof fn law_log_keeps_entries(log: Seq<EntryModel>, text: Seq<char>, kind: LogKind)
    requires
        log.len() < LOG_LIMIT,
    ensures
        logged(log, text, kind) == log.push(EntryModel { text, kind }),
{
}

/// A row that is toggled twice is as before.
pub proof fn law_toggle_twice(p: PanelModel, key: Seq<char>)
    ensures
        toggled(toggled(p, key), key) == p,
{
    let once = toggled(p, key);
    assert(toggled(once, key).expanded =~= p.expanded);
    assert(toggled(once, key) =~= p);
}

/// While the window is busy, neither a scan nor a discovery begins, and nothing changes; what
/// begins makes it busy, and the end of either makes it idle again.
pub proof fn law_one_thing_at_a_time(
    p: PanelModel,
    targets: Seq<TargetModel>,
    services: Seq<ServiceModel>,
    hits: Seq<HitModel>,
    elapsed: Seq<char>,
    now: u64,
    machine: Machine,
)
    ensures
        p.status != ScanStatus::Idle ==> scan_begun(p, targets, now, machine) == (
            p,
            None::<scan::CfgModel>,
        ),
        p.status != ScanStatus::Idle ==> after_manual(p, now, machine) == (
            p,
            EffectModel::Nothing,
        ),
        p.status != ScanStatus::Idle ==> mdns_asked(p) == (p, false),
        mdns_asked(p).1 ==> mdns_asked(p).0.status == ScanStatus::MdnsBusy,
        scan_begun(p, targets, now, machine).1 is Some ==> scan_begun(
            p,
            targets,
            now,
            machine,
        ).0.status == ScanStatus::PortBusy,
        after_msg(p, MsgModel::MdnsDone { services, elapsed }, now).status == ScanStatus::Idle,
        after_msg(p, MsgModel::ScanDone { hits, elapsed }, now).status == ScanStatus::Idle,
        after_msg(p, MsgModel::ScanDone { hits, elapsed }, now).hits == hits,
{
}

proof fn lemma_digits_not_trimmed(s: Seq<char>)
    requires
        s.len() > 0,
        text::digit_value(s[0]) < 16,
        text::digit_value(s.last()) < 16,
    ensures
        text::trimmed(s) == s,
{
}

proof fn lemma_range_reads_back(a: u16, b: u16)
    requires
        a <= b,
    ensures
        ({
            let s = text::decimal_text(a as nat) + "-"@ + text::decimal_text(b as nat);
            &&& text::trimmed(s) == s
            &&& s.len() > 0
            &&& cli::range_read(s) == RangeRead::Ports(a, b)
        }),
{
    reveal_strlit("-");
    let x = text::decimal_text(a as nat);
    let y = text::decimal_text(b as nat);
    let s = x + "-"@ + y;
    assert("-"@ =~= seq!['-']);
    text::lemma_digits_spell(a as nat, 10);
    text::lemma_digits_spell(b as nat, 10);
    text::lemma_digits_lack(x, 10, '-');
    text::lemma_split_front(x, '-', y);
    assert(s.take(x.len() as int) =~= x);
    assert(s.skip(x.len() as int + 1) =~= y);
    text::lemma_decimal_reads_back(a as nat, 65535);
    text::lemma_decimal_reads_back(b as nat, 65535);
    assert(s[0] == x[0]);
    assert(s.last() == y[y.len() - 1]);
    assert(text::digit_value(x[0]) < 10 && text::digit_value(y[y.len() - 1]) < 10);
    lemma_digits_not_trimmed(s);
}

proof fn lemma_all_ports_text()
    ensures
        "1-65535"@ == text::decimal_text(1) + "-"@ + text::decimal_text(65535),
{
    reveal_strlit("1-65535");
    reveal_strlit("-");
    reveal_with_fuel(text::digits_of, 6);
    assert(text::decimal_text(1) =~= seq!['1']);
    assert(text::decimal_text(65535) =~= seq!['6', '5', '5', '3', '5']);
    assert("1-65535"@ =~= seq!['1'] + seq!['-'] + seq!['6', '5', '5', '3', '5']);
    assert("-"@ =~= seq!['-']);
}

/// The range field that is filled in for a list of ports reads back as those ports: for all
/// ports in the default order, and for any range, but for 1-65535, which reads back as all
/// ports in the default order.
pub proof fn law_range_field_reads_back(a: u16, b: u16)
    requires
        a <= b,
    ensures
        ports_read(range_text(ports::default_order())) == Ok::<Seq<u16>, Seq<char>>(
            ports::default_order(),
        ),
        ports_read(range_text(ports::span(a as int, b as int))) == Ok::<Seq<u16>, Seq<char>>(
            if a == 1 && b == 65535 {
                ports::default_order()
            } else {
                ports::span(a as int, b as int)
            },
        ),
{
    ports::law_every_port_once(5555);
    assert(ports::default_order()[0] == 5555);
    lemma_all_ports_text();
    lemma_range_reads_back(1, 65535);
    lemma_range_reads_back(a, b);
    let s = text::decimal_text(a as nat) + "-"@ + text::decimal_text(b as nat);
    let v = ports::span(a as int, b as int);
    assert(v.len() == b - a + 1 && v[0] == a && v.last() == b);
    if !(a == 1 && b == 65535) {
        assert(range_text(v) == s);
        if s == "1-65535"@ {
            assert(cli::range_read(s) == RangeRead::Ports(1, 65535));
        }
    }
}

/// The thread field reads back: what it shows for a setting means that setting.
pub proof fn law_thread_field_reads_back(arg: ThreadArg)
    requires
        arg matches ThreadArg::Fixed(n) ==> 1 <= n <= HARD_MAX_THREADS,
    ensures
        threads_setting(threads_text(arg)) == arg,
{
    reveal_strlit("auto");
    reveal_strlit("max");
    match arg {
        ThreadArg::Auto => {
            assert("auto"@[0] == 'a' && "auto"@.last() == 'o');
            assert(text::trimmed("auto"@) == "auto"@);
        },
        ThreadArg::Max => {
            assert("max"@[0] == 'm' && "max"@.last() == 'x');
            assert(text::trimmed("max"@) == "max"@);
            assert("max"@.len() == 3 && "auto"@.len() == 4);
        },
        ThreadArg::Fixed(n) => {
            let s = text::decimal_text(n as nat);
            text::lemma_digits_spell(n as nat, 10);
            text::lemma_decimal_reads_back(n as nat, usize::MAX as nat);
            assert(text::digit_value(s[0]) < 10);
            assert(text::digit_value(s[s.len() - 1]) < 10);
            lemma_digits_not_trimmed(s);
            assert("auto"@[0] == 'a' && "max"@[0] == 'm');
            assert(text::digit_value('a') == 10 && text::digit_value('m') == 16);
        },
    }
}

/// The options `o` as the window reads them back from its fields: the range 1-65535 means all
/// ports in the default order.
pub open spec fn read_back(o: cli::OptionsModel) -> cli::OptionsModel {
    cli::OptionsModel {
        ports: if o.ports == ports::span(1, 65535) {
            ports::default_order()
        } else {
            o.ports
        },
        ..o
    }
}

proof fn lemma_ports_read_back(f: cli::FlagsModel, o: cli::OptionsModel)
    requires
        cli::flags_within(f),
        o.ports == cli::flag_options(f, o.target, o.targets).ports,
    ensures
        ports_read(range_text(o.ports)) == Ok::<Seq<u16>, Seq<char>>(read_back(o).ports),
{
    let d = ports::default_order();
    let s = ports::span(1, 65535);
    ports::law_every_port_once(5555);
    match f.range {
        Some((a, b)) => {
            law_range_field_reads_back(a, b);
            let v = ports::span(a as int, b as int);
            assert(v.len() == b - a + 1 && v[0] == a);
            assert(s.len() == 65535 && s[0] == 1);
            if v == s {
                assert(a == 1 && b == 65535);
            }
        },
        None => {
            law_range_field_reads_back(1, 1);
            assert(d[0] == 5555 && s[0] == 1);
        },
    }
}

/// The command line is applied directly: in a window that was started with a command line, the
/// button of the manual scan starts the scan that the command line means.
pub proof fn law_prefilled_scan(args: Seq<Seq<char>>, now: u64, machine: Machine)
    requires
        cli::args_step(args) matches Ok(cli::StepModel::Ready(p)) && p.scan is Some,
    ensures
        ({
            let o = cli::args_step(args)->Ok_0->Ready_0.scan->0;
            after_manual(fresh(settings_from(o)), now, machine).1 == EffectModel::Scan(
                cli::options_cfg(read_back(o), machine),
            )
        }),
{
    let o = cli::args_step(args)->Ok_0->Ready_0.scan->0;
    let p = fresh(settings_from(o));
    cli::law_accepted_args_within_limits(args);
    let f = cli::read_args(args, cli::default_flags())->Flags_0;
    text::lemma_trimmed_twice(f.target->0);
    assert(target::targets_of(o.target) == Ok::<TargetsModel, Seq<char>>(
        TargetsModel::Ready(o.targets),
    ));
    assert(can_scan(p));
    lemma_ports_read_back(f, o);
    assert(scan_options(p, o.targets, read_back(o).ports) == read_back(o));
}

/// So is a command line with a host name: in a window that was started with it, once the name
/// was looked up, the button of the manual scan has the same name looked up, and the same
/// answer starts the scan that the command line means.
pub proof fn law_prefilled_host_scan(
    args: Seq<Seq<char>>,
    answer: Result<Seq<IpAddr>, Seq<char>>,
    now: u64,
    machine: Machine,
)
    requires
        cli::args_step(args) matches Ok(cli::StepModel::Lookup { host, .. })
            && target::looked_up(host, answer) is Ok,
    ensures
        ({
            let pending = cli::args_step(args)->Ok_0;
            let host = pending->Lookup_host;
            let o = cli::OptionsModel {
                targets: target::looked_up(host, answer)->Ok_0,
                ..pending->Lookup_scan
            };
            let p = fresh(settings_from(o));
            &&& after_manual(p, now, machine) == (p, EffectModel::Lookup(host))
            &&& after_lookup(p, host, answer, now, machine).1 == EffectModel::Scan(
                cli::options_cfg(read_back(o), machine),
            )
        }),
{
    let pending = cli::args_step(args)->Ok_0;
    let host = pending->Lookup_host;
    let found = target::looked_up(host, answer)->Ok_0;
    let o = cli::OptionsModel { targets: found, ..pending->Lookup_scan };
    let p = fresh(settings_from(o));
    cli::law_accepted_args_within_limits(args);
    let f = cli::read_args(args, cli::default_flags())->Flags_0;
    text::lemma_trimmed_twice(f.target->0);
    assert(target::targets_of(o.target) == Ok::<TargetsModel, Seq<char>>(
        TargetsModel::Lookup(host),
    ));
    assert(can_scan(p));
    lemma_ports_read_back(f, o);
    assert(scan_options(p, found, read_back(o).ports) == read_back(o));
}

/// "Scan this device" scans each of its addresses, in their order: the target at a place has
/// the address at that place, is shown as the textual form of that same address, and has zone 0
/// if the address is link-local, else none. Given as an input, what is shown of it means that
/// address again.
pub proof fn law_device_targets(s: ServiceModel, i: int)
    requires
        0 <= i < s.ips.len(),
    ensures
        ({
            let action = button_action(s, RowButton::Scan);
            let t = action->ScanTarget_0;
            &&& action is ScanTarget
            &&& t.len() == s.ips.len()
            &&& t[i].ip == s.ips[i]
            &&& t[i].display == addr::ip_text(s.ips[i])
            &&& target::targets_of(t[i].display) == Ok::<TargetsModel, Seq<char>>(
                TargetsModel::Ready(
                    seq![TargetModel { ip: s.ips[i], zone: None, display: t[i].display }],
                ),
            )
            &&& t[i].zone == (if s.ips[i] is V6 && 0xfe80 <= addr::segments(s.ips[i]->V6_0)[0]
                <= 0xfebf {
                Some(0u32)
            } else {
                None
            })
        }),
{
    target::law_address_is_a_target(s.ips[i]);
    addr::law_preference(s.ips[i]);
}

/// The same of the target of any one address.
pub proof fn law_device_target(ip: IpAddr)
    ensures
        device_target(ip).ip == ip,
        device_target(ip).display == addr::ip_text(ip),
        addr::ip_value(device_target(ip).display) == Some(device_target(ip).ip),
        device_target(ip).zone is Some <==> addr::priority(ip) == 2,
        device_target(ip).zone is Some ==> device_target(ip).zone->0 == 0,
{
    addr::law_address_text_reads_back(ip);
}

/// What a device is connected by: its address, a colon and its port. Cut at the last colon it
/// gives back the address to connect to and the port; the connect command is this behind
/// `adb connect`, and is what the buttons connect to and copy.
pub proof fn law_connect_address(s: ServiceModel)
    ensures
        ({
            let a = row_addr_text(s);
            let cut = text::cut_last(a, ':');
            &&& a == addr::ip_text(s.ip) + ":"@ + text::decimal_text(s.port as nat)
            &&& match cut {
                Some((ip, port)) => addr::ip_value(ip) == Some(s.ip) && text::unsigned(port, 65535)
                    == Some(s.port as nat),
                None => false,
            }
            &&& connect_command(a) == "adb connect "@ + a
            &&& button_action(s, RowButton::Connect) == ActionModel::Connect(a)
            &&& button_action(s, RowButton::Copy) == ActionModel::CopyCmd("adb connect "@ + a)
        }),
{
    reveal_strlit(":");
    assert(":"@ =~= seq![':']);
    let port = text::decimal_text(s.port as nat);
    text::lemma_digits_spell(s.port as nat, 10);
    text::lemma_digits_lack(port, 10, ':');
    assert(!port.contains(':'));
    text::law_cut(addr::ip_text(s.ip), ':', port);
    addr::law_address_text_reads_back(s.ip);
    text::lemma_decimal_reads_back(s.port as nat, 65535);
}

/// A row is known by its instance and its address: rows that differ in either have different
/// keys, and the key is what toggling takes.
pub proof fn law_row_keys(a: ServiceModel, b: ServiceModel)
    ensures
        row_key_text(a) == a.instance + "|"@ + addr::ip_text(a.ip),
        row_key_text(a) == row_key_text(b) <==> a.instance == b.instance && a.ip == b.ip,
        button_action(a, RowButton::Toggle) == ActionModel::Toggle(row_key_text(a)),
{
    reveal_strlit("|");
    assert("|"@ =~= seq!['|']);
    lemma_no_bar(a.ip);
    lemma_no_bar(b.ip);
    text::law_cut(a.instance, '|', addr::ip_text(a.ip));
    text::law_cut(b.instance, '|', addr::ip_text(b.ip));
    addr::law_address_text_reads_back(a.ip);
    addr::law_address_text_reads_back(b.ip);
}

proof fn lemma_no_bar(ip: IpAddr)
    ensures
        !addr::ip_text(ip).contains('|'),
{
    let s = addr::ip_text(ip);
    addr::lemma_address_text_chars(ip);
    assert forall|i: int| 0 <= i < s.len() implies s[i] != '|' by {
        assert(text::digit_value(s[i]) < 16 || s[i] == '.' || s[i] == ':');
    }
}

/// How an address is shown: its family, its textual form, and a note if it is link-local.
pub proof fn law_shown_address(a: addr::Ipv4Addr, b: addr::Ipv6Addr)
    ensures
        shown_ip(IpAddr::V4(a)) == "IPv4 "@ + addr::ip_text(IpAddr::V4(a)),
        addr::priority(IpAddr::V6(b)) == 1 ==> shown_ip(IpAddr::V6(b)) == "IPv6 "@ + addr::ip_text(
            IpAddr::V6(b),
        ),
        addr::priority(IpAddr::V6(b)) == 2 ==> shown_ip(IpAddr::V6(b)) == "IPv6 "@ + addr::ip_text(
            IpAddr::V6(b),
        ) + " (链路本地)"@,
{
}

/// What a row and its details say of a device: its type, the address to connect to, its port
/// and its name; and all its addresses, one to a line, in their order.
pub proof fn law_rows_tell_the_device(s: ServiceModel, expanded: bool, i: int)
    ensures
        ({
            let kind = if s.kind == AdbServiceKind::Connect {
                "TLS连接"@
            } else if s.kind == AdbServiceKind::Pairing {
                "TLS配对"@
            } else {
                "旧版ADB"@
            };
            let port = text::decimal_text(s.port as nat);
            let arrow = if expanded {
                "▼ "@
            } else {
                "▶ "@
            };
            &&& row_line(s, expanded) == arrow + "["@ + kind + "] "@ + shown_ip(s.ip) + ":"@ + port
                + "  ("@ + s.instance + ")"@
            &&& detail_lines(s).len() == 3 + s.ips.len()
            &&& detail_lines(s)[0] == "类型: "@ + kind + "    端口: "@ + port
            &&& detail_lines(s)[1] == "实例: "@ + s.instance
            &&& detail_lines(s)[2] == "地址:"@
            &&& 0 <= i < s.ips.len() ==> detail_lines(s)[3 + i] == "  "@ + shown_ip(s.ips[i])
        }),
{
}

/// A full log drops its oldest entry for a new one, and only that.
pub proof fn law_log_drops_the_oldest(log: Seq<EntryModel>, text: Seq<char>, kind: LogKind)
    requires
        log.len() == 300,
    ensures
        logged(log, text, kind) == log.drop_first().push(EntryModel { text, kind }),
        LOG_LIMIT == 300,
{
    assert(logged(log, text, kind) =~= log.drop_first().push(EntryModel { text, kind }));
}

/// A window takes over the options of the command line one by one; the ports as a range from
/// the first to the last, all ports as 1-65535.
pub proof fn law_settings_taken_over(o: cli::OptionsModel)
    ensures
        ({
            let s = settings_from(o);
            &&& s.target == o.target
            &&& s.threads_arg == o.threads_arg
            &&& s.timeout_fast_ms == o.timeout_fast_ms
            &&& s.timeout_slow_ms == o.timeout_slow_ms
            &&& s.verify_adb == o.verify_adb
            &&& s.stop_on_first == o.stop_on_first
            &&& o.ports.len() > 0 && (o.ports.len() != 65535 || o.ports[0] == 0) ==> s.range
                == text::decimal_text(o.ports[0] as nat) + "-"@ + text::decimal_text(
                o.ports.last() as nat,
            )
            &&& o.ports.len() == 0 || (o.ports.len() == 65535 && o.ports[0] != 0) ==> s.range
                == "1-65535"@
            &&& o.ports == ports::default_order() ==> s.range == "1-65535"@
        }),
{
    ports::law_every_port_once(5555);
    assert(ports::default_order()[0] == 5555);
}

/// A range field: white space around it is ignored; empty it means all ports in the default
/// order, as 1-65535 does; another range means its ports in ascending order; anything else is
/// refused, and the part that is wrong is told.
pub proof fn law_range_field(pre: Seq<char>, s: Seq<char>, post: Seq<char>)
    requires
        forall|i: int| 0 <= i < pre.len() ==> text::is_space(#[trigger] pre[i]),
        forall|i: int| 0 <= i < post.len() ==> text::is_space(#[trigger] post[i]),
        s.len() == 0 || target::bare(s),
    ensures
        ({
            let read = ports_read(pre + s + post);
            let r = cli::range_read(s);
            &&& s.len() == 0 || s == "1-65535"@ ==> read == Ok::<Seq<u16>, Seq<char>>(
                ports::default_order(),
            )
            &&& s.len() > 0 && s != "1-65535"@ ==> {
                &&& r is Ports ==> read == Ok::<Seq<u16>, Seq<char>>(
                    ports::span(r->Ports_0 as int, r->Ports_1 as int),
                )
                &&& r is NoDash ==> read == Err::<Seq<u16>, Seq<char>>(
                    "端口范围格式应为 START-END"@,
                )
                &&& r is BadStart ==> read == Err::<Seq<u16>, Seq<char>>("起始端口非法"@)
                &&& r is BadEnd ==> read == Err::<Seq<u16>, Seq<char>>("结束端口非法"@)
                &&& r is Reversed ==> read == Err::<Seq<u16>, Seq<char>>(
                    "起始端口必须 <= 结束端口"@,
                )
            }
        }),
{
    text::law_trim(pre, s, post);
}

/// A thread field: a number from 1 to 65535 means itself, a larger one the upper bound; zero
/// and what is no number and neither `auto` nor `max` mean automatic. White space around it is
/// ignored.
pub proof fn law_thread_field(pre: Seq<char>, s: Seq<char>, post: Seq<char>)
    requires
        forall|i: int| 0 <= i < pre.len() ==> text::is_space(#[trigger] pre[i]),
        forall|i: int| 0 <= i < post.len() ==> text::is_space(#[trigger] post[i]),
        s.len() == 0 || target::bare(s),
    ensures
        ({
            let arg = threads_setting(pre + s + post);
            let n = text::unsigned(s, usize::MAX as nat);
            &&& s == "max"@ ==> arg == ThreadArg::Max
            &&& s == "auto"@ ==> arg == ThreadArg::Auto
            &&& s != "max"@ && n is None ==> arg == ThreadArg::Auto
            &&& n is Some && n->0 == 0 ==> arg == ThreadArg::Auto
            &&& n is Some && 1 <= n->0 <= 65535 ==> arg == ThreadArg::Fixed(n->0 as usize)
            &&& n is Some && n->0 > 65535 ==> arg == ThreadArg::Fixed(65535)
        }),
{
    text::law_trim(pre, s, post);
    reveal_strlit("auto");
    reveal_strlit("max");
    assert("auto"@[0] == 'a' && "max"@[0] == 'm' && "auto"@.len() == 4 && "max"@.len() == 3);
    assert(text::digit_value('a') == 10 && text::digit_value('m') == 16);
    if s == "auto"@ {
        text::law_unsigned_is_refused(s, 0, usize::MAX as nat);
    }
    if s == "max"@ {
        text::law_unsigned_is_refused(s, 0, usize::MAX as nat);
    }
}

/// A port scan that is asked for in an idle window with a readable range begins: it has those
/// targets, those ports, and the settings of the window; the hits of the last one are gone, the
/// devices stay, and one line of the log tells how many targets and ports there are.
pub proof fn law_port_scan_begins(
    p: PanelModel,
    targets: Seq<TargetModel>,
    now: u64,
    machine: Machine,
)
    requires
        p.status == ScanStatus::Idle,
    ensures
        ({
            let (n, cfg) = scan_begun(p, targets, now, machine);
            let read = ports_read(p.opts.range);
            &&& read is Ok ==> {
                &&& cfg is Some
                &&& cfg->0.targets == targets
                &&& cfg->0.ports == read->Ok_0
                &&& cfg->0.fast_timeout == p.opts.timeout_fast_ms
                &&& cfg->0.slow_timeout == p.opts.timeout_slow_ms
                &&& cfg->0.verify_timeout == p.opts.timeout_slow_ms
                &&& cfg->0.verify_adb == p.opts.verify_adb
                &&& cfg->0.stop_on_first == p.opts.stop_on_first
                &&& cfg->0.threads == cli::resolved(
                    p.opts.threads_arg,
                    scan::item_count(targets.len() as int, read->Ok_0.len() as int),
                    machine,
                )
                &&& n.status == ScanStatus::PortBusy
                &&& n.hits.len() == 0
                &&& n.progress is None
                &&& n.services == p.services && n.expanded == p.expanded && n.opts == p.opts
                &&& n.toast == p.toast && n.last_mdns == p.last_mdns && n.last_scan == p.last_scan
                &&& n.log.last() == (EntryModel {
                    text: "开始扫描 "@ + text::decimal_text(targets.len()) + " 个目标, "@
                        + text::decimal_text(read->Ok_0.len()) + " 个端口"@,
                    kind: LogKind::Status,
                })
                &&& p.log.len() < 300 ==> n.log.drop_last() == p.log
            }
            &&& read is Err ==> cfg is None && n == (PanelModel {
                toast: Some((read->Err_0, now)),
                ..p
            })
        }),
{
    let (n, cfg) = scan_begun(p, targets, now, machine);
    let read = ports_read(p.opts.range);
    if read is Ok {
        cli::law_scan_of_options(scan_options(p, targets, read->Ok_0), machine);
        if p.log.len() < 300 {
            assert(n.log.drop_last() =~= p.log);
        }
    }
}

/// A discovery that is asked for in an idle window begins: the devices of the last one are
/// gone and no row is expanded; everything else stays.
pub proof fn law_discovery_begins(p: PanelModel)
    requires
        p.status == ScanStatus::Idle,
    ensures
        ({
            let (n, begun) = mdns_asked(p);
            &&& begun
            &&& n.status == ScanStatus::MdnsBusy
            &&& n.services.len() == 0
            &&& n.expanded == Set::<Seq<char>>::empty()
            &&& n.hits == p.hits && n.progress == p.progress && n.opts == p.opts && n.log == p.log
            &&& n.toast == p.toast && n.last_mdns == p.last_mdns && n.last_scan == p.last_scan
        }),
{
}

/// Whether `n` is `p` with one more line in the log and nothing else changed.
pub open spec fn one_line(p: PanelModel, n: PanelModel, text: Seq<char>, kind: LogKind) -> bool {
    &&& n.log.last() == (EntryModel { text, kind })
    &&& p.log.len() < 300 ==> n.log == p.log.push(EntryModel { text, kind })
    &&& p.log.len() == 300 ==> n.log == p.log.drop_first().push(EntryModel { text, kind })
    &&& n == (PanelModel { log: n.log, ..p })
}

/// What the events of a scan change in the window: progress is shown, and each of the others
/// is one line of the log, that of an ADB port marked as a hit, that of missing threads as an
/// error.
pub proof fn law_events_in_the_window(
    p: PanelModel,
    pass: u8,
    a: usize,
    b: usize,
    timeout: u64,
    h: HitModel,
)
    requires
        p.log.len() <= 300,
    ensures
        ({
            let (x, y) = (text::decimal_text(a as nat), text::decimal_text(b as nat));
            &&& after_event(p, EventModel::Progress { pass, done: a, total: b }) == (PanelModel {
                progress: Some((a, b)),
                ..p
            })
            &&& one_line(
                p,
                after_event(p, EventModel::PortHit(h)),
                "命中 "@ + h.target.display + ":"@ + text::decimal_text(h.port as nat) + " ["@ + (
                if h.kind == AdbKind::Plain {
                    "明文ADB"@
                } else if h.kind == AdbKind::Tls {
                    "TLS加密"@
                } else {
                    "开放端口"@
                }) + "]"@,
                if h.kind == AdbKind::Open {
                    LogKind::Normal
                } else {
                    LogKind::Hit
                },
            )
            &&& one_line(
                p,
                after_event(p, EventModel::PassStarted { pass, work_items: a, timeout }),
                "[Pass "@ + text::decimal_text(pass as nat) + "/2] "@ + x + " 项, 超时 "@
                    + text::decimal_text(timeout as nat) + "ms"@,
                LogKind::Status,
            )
            &&& one_line(
                p,
                after_event(
                    p,
                    EventModel::PassSkipped {
                        pass,
                        remaining: a,
                        reason: PassSkipReason::HitFound,
                    },
                ),
                "[Pass 2/2] 跳过 ("@ + "HitFound"@ + ", 剩余 "@ + x + ")"@,
                LogKind::Status,
            )
            &&& one_line(
                p,
                after_event(
                    p,
                    EventModel::PassSkipped {
                        pass,
                        remaining: a,
                        reason: PassSkipReason::Cancelled,
                    },
                ),
                "[Pass 2/2] 跳过 ("@ + "Cancelled"@ + ", 剩余 "@ + x + ")"@,
                LogKind::Status,
            )
            &&& a != b ==> one_line(
                p,
                after_event(p, EventModel::ThreadsSpawned { pass, requested: a, actual: b }),
                "注意: 申请 "@ + x + " 线程, 实际起了 "@ + y,
                LogKind::Error,
            )
            &&& after_event(p, EventModel::ThreadsSpawned { pass, requested: a, actual: a }) == p
        }),
{
    assert forall|text: Seq<char>, kind: LogKind| p.log.len() == 300 implies #[trigger] logged(
        p.log,
        text,
        kind,
    ) == p.log.drop_first().push(EntryModel { text, kind }) by {
        law_log_drops_the_oldest(p.log, text, kind);
    }
}

/// What the end of a scan and of a discovery change in the window: the results are those that
/// came in, the window is idle, the time that it took is kept, and a line of the log tells how
/// many results there are, of a scan also how many of them speak ADB.
pub proof fn law_results_in_the_window(
    p: PanelModel,
    hits: Seq<HitModel>,
    services: Seq<ServiceModel>,
    elapsed: Seq<char>,
    s: Seq<char>,
    now: u64,
)
    ensures
        ({
            let n = after_msg(p, MsgModel::ScanDone { hits, elapsed }, now);
            &&& n.hits == hits && n.status == ScanStatus::Idle && n.progress is None
            &&& n.last_scan == Some(elapsed)
            &&& n.log.last() == (EntryModel {
                text: "扫描完成: "@ + text::decimal_text(hits.len()) + " 个命中, ADB "@
                    + text::decimal_text(adb_count(hits)) + " 个 ("@ + elapsed + "s)"@,
                kind: LogKind::Success,
            })
            &&& n.services == p.services && n.last_mdns == p.last_mdns && n.opts == p.opts
            &&& n.toast == p.toast && n.expanded == p.expanded
        }),
        ({
            let n = after_msg(p, MsgModel::MdnsDone { services, elapsed }, now);
            let line = EntryModel {
                text: "mDNS 完成: 发现 "@ + text::decimal_text(services.len()) + " 个设备 ("@
                    + elapsed + "s)"@,
                kind: LogKind::Status,
            };
            &&& n.services == services && n.status == ScanStatus::Idle
            &&& n.last_mdns == Some(elapsed)
            &&& services.len() > 0 ==> n.log.last() == line
            &&& services.len() == 0 ==> {
                &&& n.log.len() >= 2
                &&& n.log[n.log.len() - 2] == line
                &&& n.log.last() == (EntryModel {
                    text: "未发现设备, 可手动输入 IP 扫描"@,
                    kind: LogKind::Normal,
                })
            }
            &&& n.hits == p.hits && n.progress == p.progress && n.last_scan == p.last_scan
            &&& n.opts == p.opts && n.toast == p.toast && n.expanded == p.expanded
        }),
        after_msg(p, MsgModel::Toast(s), now) == (PanelModel { toast: Some((s, now)), ..p }),
{
}

/// What the buttons of a row do: copying gives the command itself, connecting the address
/// itself, and each says so; toggling turns one row and leaves the others; scanning takes the
/// first target over into the target field and begins a scan of the targets.
pub proof fn law_row_actions(
    p: PanelModel,
    s: Seq<char>,
    other: Seq<char>,
    targets: Seq<TargetModel>,
    now: u64,
    machine: Machine,
)
    requires
        p.log.len() <= 300,
    ensures
        after_action(p, ActionModel::CopyCmd(s), now, machine) == (
            PanelModel { toast: Some(("已复制: "@ + s, now)), ..p },
            EffectModel::Copy(s),
        ),
        ({
            let (n, effect) = after_action(p, ActionModel::Connect(s), now, machine);
            one_line(p, n, "正在连接 "@ + s + " …"@, LogKind::Status) && effect
                == EffectModel::Connect(s)
        }),
        ({
            let (n, effect) = after_action(p, ActionModel::Toggle(s), now, machine);
            &&& effect == EffectModel::Nothing
            &&& n.expanded.contains(s) == !p.expanded.contains(s)
            &&& other != s ==> n.expanded.contains(other) == p.expanded.contains(other)
            &&& n == (PanelModel { expanded: n.expanded, ..p })
        }),
        ({
            let (n, effect) = after_action(p, ActionModel::ScanTarget(targets), now, machine);
            let q = PanelModel {
                opts: SettingsModel { target: targets[0].display, ..p.opts },
                ..p
            };
            let begun = scan_begun(
                if targets.len() > 0 {
                    q
                } else {
                    p
                },
                targets,
                now,
                machine,
            );
            &&& n == begun.0
            &&& begun.1 is Some ==> effect == EffectModel::Scan(begun.1->0)
            &&& begun.1 is None ==> effect == EffectModel::Nothing
        }),
{
    if p.log.len() == 300 {
        law_log_drops_the_oldest(p.log, "正在连接 "@ + s + " …"@, LogKind::Status);
    }
}

/// The manual scan: with an empty target field or a busy window nothing happens; a target that
/// cannot be read is refused in a toast; a host name is handed out to be looked up; targets
/// that are known begin a scan of them, and so does the answer to a lookup.
pub proof fn law_manual_scan(
    p: PanelModel,
    host: Seq<char>,
    answer: Result<Seq<IpAddr>, Seq<char>>,
    now: u64,
    machine: Machine,
)
    ensures
        ({
            let (n, effect) = after_manual(p, now, machine);
            let t = target::targets_of(p.opts.target);
            let idle = p.status == ScanStatus::Idle && text::trimmed(p.opts.target).len() > 0;
            &&& can_scan(p) == idle
            &&& !idle ==> n == p && effect == EffectModel::Nothing
            &&& idle && t is Err ==> effect == EffectModel::Nothing && n == (PanelModel {
                toast: Some(("目标解析失败: "@ + t->Err_0, now)),
                ..p
            })
            &&& idle && t is Ok && t->Ok_0 is Lookup ==> n == p && effect == EffectModel::Lookup(
                t->Ok_0->Lookup_0,
            )
            &&& idle && t is Ok && t->Ok_0 is Ready ==> {
                let begun = scan_begun(p, t->Ok_0->Ready_0, now, machine);
                &&& n == begun.0
                &&& begun.1 is Some ==> effect == EffectModel::Scan(begun.1->0)
                &&& begun.1 is None ==> effect == EffectModel::Nothing
            }
        }),
        ({
            let (n, effect) = after_lookup(p, host, answer, now, machine);
            let t = target::looked_up(host, answer);
            &&& t is Err ==> effect == EffectModel::Nothing && n == (PanelModel {
                toast: Some(("目标解析失败: "@ + t->Err_0, now)),
                ..p
            })
            &&& t is Ok ==> {
                let begun = scan_begun(p, t->Ok_0, now, machine);
                &&& n == begun.0
                &&& begun.1 is Some ==> effect == EffectModel::Scan(begun.1->0)
                &&& begun.1 is None ==> effect == EffectModel::Nothing
            }
        }),
{
}

/// The commands of all devices: one line for each, in their order, each the connect command of
/// its device.
pub proof fn law_all_commands(services: Seq<ServiceModel>, s: ServiceModel)
    ensures
        ({
            let one = "adb connect "@ + addr::ip_text(s.ip) + ":"@ + text::decimal_text(
                s.port as nat,
            );
            &&& all_commands(Seq::empty()) == Seq::<char>::empty()
            &&& all_commands(seq![s]) == one
            &&& services.len() > 0 ==> all_commands(services.push(s)) == all_commands(services)
                + "\n"@ + one
        }),
{
    assert(services.push(s).drop_last() =~= services);
    assert(connect_command(row_addr_text(s)) =~= "adb connect "@ + addr::ip_text(s.ip) + ":"@
        + text::decimal_text(s.port as nat));
}

/// The rows of the ADB hits: a hit that speaks ADB has a row behind those of the hits before
/// it, with its connect command, its tag, and the address that the command connects to; any
/// other hit has none. As many rows are there as the hits are counted.
pub proof fn law_adb_rows(hits: Seq<HitModel>, h: HitModel)
    ensures
        ({
            let addr = h.target.display + ":"@ + text::decimal_text(h.port as nat);
            let rows = adb_row_list(hits.push(h));
            &&& adb_row_list(Seq::empty()).len() == 0
            &&& h.kind == AdbKind::Open ==> rows == adb_row_list(hits)
            &&& h.kind != AdbKind::Open ==> {
                &&& rows.len() == adb_row_list(hits).len() + 1
                &&& rows.drop_last() == adb_row_list(hits)
                &&& rows.last().cmd == "adb connect "@ + addr
                &&& rows.last().label == "adb connect "@ + addr + "   ["@ + (if h.kind
                    == AdbKind::Plain {
                    "明文ADB"@
                } else {
                    "TLS加密"@
                }) + "]"@
                &&& addr.len() < 12 || addr.take(12) != "adb connect "@ ==> rows.last().addr
                    == addr
            }
        }),
        adb_row_list(hits).len() == adb_count(hits),
        adb_count(Seq::empty()) == 0,
        adb_count(hits.push(h)) == adb_count(hits) + (if h.kind == AdbKind::Open {
            0int
        } else {
            1int
        }),
{
    assert(hits.push(h).drop_last() =~= hits);
    lemma_rows_counted(hits);
    reveal_strlit("adb connect ");
    let addr = h.target.display + ":"@ + text::decimal_text(h.port as nat);
    let rows = adb_row_list(hits.push(h));
    assert(hit_command(h) =~= "adb connect "@ + addr);
    if h.kind != AdbKind::Open {
        assert(rows.drop_last() =~= adb_row_list(hits));
        let cmd = hit_command(h);
        assert(cmd.take(12) =~= "adb connect "@);
        assert(cmd.skip(12) =~= addr);
        assert(without_prefixes(cmd, "adb connect "@) == without_prefixes(addr, "adb connect "@));
    }
}

proof fn lemma_rows_counted(hits: Seq<HitModel>)
    ensures
        adb_row_list(hits).len() == adb_count(hits),
    decreases hits.len(),
{
    if hits.len() > 0 {
        lemma_rows_counted(hits.drop_last());
    }
}

/// The prefixes go one by one, and a text without one stays as it is.
pub proof fn law_prefixes_go(s: Seq<char>, p: Seq<char>)
    requires
        p.len() > 0,
    ensures
        without_prefixes(p + s, p) == without_prefixes(s, p),
        !p.is_prefix_of(s) ==> without_prefixes(s, p) == s,
{
    let n = p.len() as int;
    assert((p + s).take(n) =~= p);
    assert((p + s).skip(n) =~= s);
    if s.len() >= n && s.take(n) == p {
        assert(p.is_prefix_of(s)) by {
            assert(s.subrange(0, n) =~= p);
        }
    }
}

/// What is told of a run of `adb connect`: the first of its outputs that is not blank, without
/// the white space around it; if both are blank, its exit code, -1 for none.
pub proof fn law_run_report(addr: Seq<char>, out: Seq<char>, err: Seq<char>, n: nat)
    ensures
        ({
            let front = "adb "@ + addr + ": "@;
            let (o, e) = (text::trimmed(out), text::trimmed(err));
            &&& forall|code: Option<i32>|
                o.len() > 0 ==> #[trigger] run_text(addr, out, err, code) == front + o
            &&& forall|code: Option<i32>|
                o.len() == 0 && e.len() > 0 ==> #[trigger] run_text(addr, out, err, code) == front
                    + e
            &&& o.len() == 0 && e.len() == 0 ==> {
                &&& run_text(addr, out, err, None) == front + ("无输出 (退出码 "@ + ("-"@
                    + text::decimal_text(1)) + ")"@)
                &&& n <= i32::MAX ==> run_text(addr, out, err, Some(n as i32)) == front
                    + ("无输出 (退出码 "@ + text::decimal_text(n) + ")"@)
                &&& 0 < n <= i32::MAX ==> run_text(addr, out, err, Some((-n) as i32)) == front
                    + ("无输出 (退出码 "@ + ("-"@ + text::decimal_text(n)) + ")"@)
            }
        }),
{
}

/// A window in which nothing has happened: idle and empty, with the settings that it was given;
/// without any, all ports, automatic threads, 100 and 800 milliseconds, ports verified, stop at
/// the first ADB port.
pub proof fn law_fresh_window(o: SettingsModel)
    ensures
        ({
            let p = fresh(o);
            &&& p.opts == o && p.status == ScanStatus::Idle && p.log.len() == 0
            &&& p.services.len() == 0 && p.hits.len() == 0 && p.progress is None && p.toast is None
            &&& p.last_mdns is None && p.last_scan is None
            &&& p.expanded == Set::<Seq<char>>::empty()
        }),
        ({
            let d = default_settings();
            &&& d.target.len() == 0 && ports_read(d.range) == Ok::<Seq<u16>, Seq<char>>(
                ports::default_order(),
            )
            &&& d.threads_arg == ThreadArg::Auto && d.timeout_fast_ms == 100 && d.timeout_slow_ms
                == 800 && d.verify_adb && d.stop_on_first
        }),
{
    ports::law_every_port_once(5555);
    assert(ports::default_order()[0] == 5555);
    law_range_field_reads_back(1, 1);
}

/// A toast is shown for four seconds from when it came up, as it was worded, and is gone after
/// that; looking at it changes nothing else.
pub proof fn law_toast_is_shown(p: PanelModel, text: Seq<char>, at: u64, now: u64)
    ensures
        p.toast == Some((text, at)) && now < at + 4000 ==> toast_shown(p, now) == (
            p,
            Some("✔ "@ + text),
        ),
        p.toast == Some((text, at)) && now >= at + 4000 ==> toast_shown(p, now) == (
            PanelModel { toast: None, ..p },
            None::<Seq<char>>,
        ),
        p.toast is None ==> toast_shown(p, now) == (p, None::<Seq<char>>),
{
}

/// The note on open ports comes exactly when there are hits and all of them are plain open
/// ports, and tells how many.
pub proof fn law_ports_note(hits: Seq<HitModel>)
    ensures
        ports_note(hits) is Some <==> hits.len() > 0 && forall|i: int|
            0 <= i < hits.len() ==> (#[trigger] hits[i]).kind == AdbKind::Open,
        ports_note(hits) is Some ==> ports_note(hits)->0 == "有 "@ + text::decimal_text(hits.len())
            + " 个 TCP 开放端口, 未识别到 ADB 协议"@,
{
    lemma_none_counted(hits);
}

proof fn lemma_none_counted(hits: Seq<HitModel>)
    ensures
        adb_count(hits) == 0 <==> forall|i: int|
            0 <= i < hits.len() ==> (#[trigger] hits[i]).kind == AdbKind::Open,
    decreases hits.len(),
{
    if hits.len() > 0 {
        let init = hits.drop_last();
        lemma_none_counted(init);
        assert(hits[hits.len() - 1] == hits.last());
        assert forall|i: int| 0 <= i < init.len() implies #[trigger] init[i] == hits[i] by {}
        if adb_count(init) > 0 {
            let i = choose|i: int| 0 <= i < init.len() && (#[trigger] init[i]).kind
                != AdbKind::Open;
            assert(hits[i].kind != AdbKind::Open);
        } else if hits.last().kind == AdbKind::Open {
            assert forall|i: int| 0 <= i < hits.len() implies (#[trigger] hits[i]).kind
                == AdbKind::Open by {
                if i < init.len() {
                    assert(init[i].kind == AdbKind::Open);
                }
            }
        }
    }
}

/// What the window says of its state, and of an empty list of devices; copying all commands
/// puts them on the clipboard and says so.
pub proof fn law_window_notes(p: PanelModel, now: u64)
    ensures
        status_text(ScanStatus::Idle) == "● 就绪"@,
        status_text(ScanStatus::MdnsBusy) == "◐ mDNS 发现中…"@,
        status_text(ScanStatus::PortBusy) == "◐ 端口扫描中…"@,
        no_devices_text(ScanStatus::Idle) == "未发现设备 — 点击右上角「重新扫描」或手动输入 IP"@,
        no_devices_text(ScanStatus::MdnsBusy) == "正在发现设备…"@,
        no_devices_text(ScanStatus::PortBusy) == "正在发现设备…"@,
        all_copied(p, now) == (
            PanelModel { toast: Some(("已复制全部连接命令"@, now)), ..p },
            EffectModel::Copy(all_commands(p.services)),
        ),
{
}

/// What is told when `adb` could not be started, and that the outputs of a run are taken for
/// what they are: the one for the other is not.
pub proof fn law_connect_report(addr: Seq<char>, run: AdbRun)
    ensures
        run is Failed ==> report_text(addr, run) == "无法启动 adb: "@ + run->Failed_0@
            + " — 请确认 adb 已安装并在 PATH 中"@,
        run is Ran ==> {
            let (out, err) = (
                text::trimmed(lossy_text(run->stdout@)),
                text::trimmed(lossy_text(run->stderr@)),
            );
            &&& out.len() > 0 ==> report_text(addr, run) == "adb "@ + addr + ": "@ + out
            &&& out.len() == 0 && err.len() > 0 ==> report_text(addr, run) == "adb "@ + addr
                + ": "@ + err
            &&& out.len() == 0 && err.len() == 0 ==> report_text(addr, run) == run_text(
                addr,
                Seq::empty(),
                Seq::empty(),
                run->code,
            )
        },
{
    let none = Seq::<char>::empty();
    text::law_trim(none, none, none);
}

} // verus!
