//! The scan: every target with every port, in two passes with a short and a long connect
//! timeout. Worker threads claim work items, connect and probe on their own, and report what
//! they found; all decisions on the shared state are taken here.
use std::collections::HashSet;
use std::sync::Arc;
use vstd::prelude::*;

use crate::addr::IpAddr;
use crate::detect::AdbKind;
use crate::ranking;
use crate::ranking::sort_hits;
use crate::target;
use crate::target::{SocketAddr, Target, TargetModel};
use crate::text;
use crate::threads;
use crate::threads::{auto_threads, stack_size_for, Machine};

verus! {

/// An open port that was found.
#[derive(Debug)]
pub struct Hit {
    pub target: Target,
    pub port: u16,
    pub kind: AdbKind,
}

/// The model of a `Hit`.
#[verifier::ext_equal]
pub struct HitModel {
    pub target: TargetModel,
    pub port: u16,
    pub kind: AdbKind,
}

impl View for Hit {
    type V = HitModel;

    open spec fn view(&self) -> HitModel {
        HitModel { target: self.target@, port: self.port, kind: self.kind }
    }
}

impl Clone for Hit {
    fn clone(&self) -> (r: Hit)
        ensures
            r == *self,
    {
        Hit { target: self.target.clone(), port: self.port, kind: self.kind }
    }
}

/// The models of a list of hits.
pub open spec fn hit_models(v: Seq<Hit>) -> Seq<HitModel> {
    v.map_values(|h: Hit| h@)
}

/// Whether the port speaks ADB, in the clear or over TLS.
pub open spec fn speaks_adb(kind: AdbKind) -> bool {
    kind is Plain || kind is Tls
}

/// Whether the port speaks ADB, in the clear or over TLS.
pub fn is_adb(kind: AdbKind) -> (r: bool)
    ensures
        r == speaks_adb(kind),
{
    match kind {
        AdbKind::Plain | AdbKind::Tls => true,
        AdbKind::Open => false,
    }
}

/// Whether one of the hits speaks ADB.
pub open spec fn any_adb(hits: Seq<HitModel>) -> bool {
    exists|i: int| 0 <= i < hits.len() && speaks_adb((#[trigger] hits[i]).kind)
}

/// What to scan and how. Timeouts are in milliseconds.
#[derive(Debug)]
pub struct ScanCfg {
    pub targets: Vec<Target>,
    pub ports: Arc<Vec<u16>>,
    pub threads: usize,
    pub fast_timeout: u64,
    pub slow_timeout: u64,
    pub verify_timeout: u64,
    pub verify_adb: bool,
    pub stop_on_first: bool,
    pub stack_size: usize,
}

/// The model of a `ScanCfg`.
#[verifier::ext_equal]
pub struct CfgModel {
    pub targets: Seq<TargetModel>,
    pub ports: Seq<u16>,
    pub threads: usize,
    pub fast_timeout: u64,
    pub slow_timeout: u64,
    pub verify_timeout: u64,
    pub verify_adb: bool,
    pub stop_on_first: bool,
    pub stack_size: usize,
}

impl View for ScanCfg {
    type V = CfgModel;

    open spec fn view(&self) -> CfgModel {
        CfgModel {
            targets: target::target_models(self.targets@),
            ports: self.ports@,
            threads: self.threads,
            fast_timeout: self.fast_timeout,
            slow_timeout: self.slow_timeout,
            verify_timeout: self.verify_timeout,
            verify_adb: self.verify_adb,
            stop_on_first: self.stop_on_first,
            stack_size: self.stack_size,
        }
    }
}

/// A `ScanCfg` in the making. Without a thread count of its own it gets one that fits the
/// machine.
#[derive(Debug)]
pub struct ScanCfgBuilder {
    pub targets: Vec<Target>,
    pub ports: Arc<Vec<u16>>,
    pub threads: Option<usize>,
    pub fast_timeout: u64,
    pub slow_timeout: u64,
    pub verify_timeout: u64,
    pub verify_adb: bool,
    pub stop_on_first: bool,
}

/// The number of work items of `targets` times `ports`, as far as it can be counted.
pub open spec fn item_count(targets: int, ports: int) -> int {
    threads::least(targets * ports, usize::MAX as int)
}

/// Counts the work items of `targets` times `ports`, up to the largest number there is.
pub fn count_items(targets: usize, ports: usize) -> (r: usize)
    ensures
        r == item_count(targets as int, ports as int),
{
    match targets.checked_mul(ports) {
        Some(n) => n,
        None => usize::MAX,
    }
}

/// A configuration of `targets` and `ports` with the defaults.
pub open spec fn started(targets: Vec<Target>, ports: Arc<Vec<u16>>) -> ScanCfgBuilder {
    ScanCfgBuilder {
        targets,
        ports,
        threads: None,
        fast_timeout: 100,
        slow_timeout: 800,
        verify_timeout: 800,
        verify_adb: true,
        stop_on_first: true,
    }
}

/// The configuration that `b` completes to on `machine`.
pub open spec fn built(b: ScanCfgBuilder, machine: Machine) -> ScanCfg {
    ScanCfg {
        targets: b.targets,
        ports: b.ports,
        threads: b.thread_count(machine) as usize,
        fast_timeout: b.fast_timeout,
        slow_timeout: b.slow_timeout,
        verify_timeout: b.verify_timeout,
        verify_adb: b.verify_adb,
        stop_on_first: b.stop_on_first,
        stack_size: threads::stack_size(b.thread_count(machine)) as usize,
    }
}

impl ScanCfg {
    /// Starts a configuration with the defaults: 100 ms and 800 ms, ports verified, stop at
    /// the first ADB port.
    pub fn builder(targets: Vec<Target>, ports: Arc<Vec<u16>>) -> (r: ScanCfgBuilder)
        ensures
            r == started(targets, ports),
    {
        ScanCfgBuilder {
            targets,
            ports,
            threads: None,
            fast_timeout: 100,
            slow_timeout: 800,
            verify_timeout: 800,
            verify_adb: true,
            stop_on_first: true,
        }
    }
}

impl ScanCfgBuilder {
    pub fn threads(self, n: usize) -> (r: ScanCfgBuilder)
        ensures
            r == (ScanCfgBuilder { threads: Some(n), ..self }),
    {
        ScanCfgBuilder { threads: Some(n), ..self }
    }

    pub fn fast_timeout(self, ms: u64) -> (r: ScanCfgBuilder)
        ensures
            r == (ScanCfgBuilder { fast_timeout: ms, ..self }),
    {
        ScanCfgBuilder { fast_timeout: ms, ..self }
    }

    pub fn slow_timeout(self, ms: u64) -> (r: ScanCfgBuilder)
        ensures
            r == (ScanCfgBuilder { slow_timeout: ms, ..self }),
    {
        ScanCfgBuilder { slow_timeout: ms, ..self }
    }

    pub fn verify_timeout(self, ms: u64) -> (r: ScanCfgBuilder)
        ensures
            r == (ScanCfgBuilder { verify_timeout: ms, ..self }),
    {
        ScanCfgBuilder { verify_timeout: ms, ..self }
    }

    pub fn verify_adb(self, on: bool) -> (r: ScanCfgBuilder)
        ensures
            r == (ScanCfgBuilder { verify_adb: on, ..self }),
    {
        ScanCfgBuilder { verify_adb: on, ..self }
    }

    pub fn stop_on_first(self, on: bool) -> (r: ScanCfgBuilder)
        ensures
            r == (ScanCfgBuilder { stop_on_first: on, ..self }),
    {
        ScanCfgBuilder { stop_on_first: on, ..self }
    }

    /// The number of threads that the scan gets on `machine`.
    pub open spec fn thread_count(self, machine: Machine) -> int {
        match self.threads {
            Some(n) => n as int,
            None => threads::auto_count(
                machine,
                item_count(self.targets@.len() as int, self.ports@.len() as int),
            ),
        }
    }

    /// Completes the configuration for `machine`; the stacks are sized for the thread count.
    pub fn build(self, machine: &Machine) -> (r: ScanCfg)
        ensures
            r == built(self, *machine),
    {
        let threads: usize = match self.threads {
            Some(n) => n,
            None => auto_threads(count_items(self.targets.len(), self.ports.len()), machine).chosen,
        };
        ScanCfg {
            targets: self.targets,
            ports: self.ports,
            threads,
            fast_timeout: self.fast_timeout,
            slow_timeout: self.slow_timeout,
            verify_timeout: self.verify_timeout,
            verify_adb: self.verify_adb,
            stop_on_first: self.stop_on_first,
            stack_size: stack_size_for(threads),
        }
    }
}

/// Why the second pass was left out.
#[derive(Debug, Clone, Copy, PartialEq, Eq, Structural)]
pub enum PassSkipReason {
    /// The scan stops at the first ADB port, and there is one.
    HitFound,
    /// The scan was cancelled.
    Cancelled,
}

/// What happens during a scan.
#[derive(Debug)]
pub enum ScanEvent {
    /// A pass begins; the connect timeout is in milliseconds.
    PassStarted { pass: u8, work_items: usize, timeout: u64 },
    /// Another five thousand items of the pass are done.
    Progress { pass: u8, done: usize, total: usize },
    /// An open port was found.
    PortHit(Hit),
    /// The second pass is left out, though items timed out in the first.
    PassSkipped { pass: u8, remaining: usize, reason: PassSkipReason },
    /// The system did not grant all threads.
    ThreadsSpawned { pass: u8, requested: usize, actual: usize },
}

/// The model of a `ScanEvent`.
#[verifier::ext_equal]
pub enum EventModel {
    PassStarted { pass: u8, work_items: usize, timeout: u64 },
    Progress { pass: u8, done: usize, total: usize },
    PortHit(HitModel),
    PassSkipped { pass: u8, remaining: usize, reason: PassSkipReason },
    ThreadsSpawned { pass: u8, requested: usize, actual: usize },
}

impl View for ScanEvent {
    type V = EventModel;

    open spec fn view(&self) -> EventModel {
        match *self {
            ScanEvent::PassStarted { pass, work_items, timeout } => EventModel::PassStarted {
                pass,
                work_items,
                timeout,
            },
            ScanEvent::Progress { pass, done, total } => EventModel::Progress { pass, done, total },
            ScanEvent::PortHit(h) => EventModel::PortHit(h@),
            ScanEvent::PassSkipped { pass, remaining, reason } => EventModel::PassSkipped {
                pass,
                remaining,
                reason,
            },
            ScanEvent::ThreadsSpawned { pass, requested, actual } => EventModel::ThreadsSpawned {
                pass,
                requested,
                actual,
            },
        }
    }
}

impl Clone for ScanEvent {
    fn clone(&self) -> (r: ScanEvent)
        ensures
            r == *self,
    {
        match self {
            ScanEvent::PassStarted { pass, work_items, timeout } => ScanEvent::PassStarted {
                pass: *pass,
                work_items: *work_items,
                timeout: *timeout,
            },
            ScanEvent::Progress { pass, done, total } => ScanEvent::Progress {
                pass: *pass,
                done: *done,
                total: *total,
            },
            ScanEvent::PortHit(h) => ScanEvent::PortHit(h.clone()),
            ScanEvent::PassSkipped { pass, remaining, reason } => ScanEvent::PassSkipped {
                pass: *pass,
                remaining: *remaining,
                reason: *reason,
            },
            ScanEvent::ThreadsSpawned { pass, requested, actual } => ScanEvent::ThreadsSpawned {
                pass: *pass,
                requested: *requested,
                actual: *actual,
            },
        }
    }
}

/// The models of a list of events.
pub open spec fn event_models(v: Seq<ScanEvent>) -> Seq<EventModel> {
    v.map_values(|e: ScanEvent| e@)
}

/// The tag of a port of kind `kind` on the console.
pub open spec fn kind_tag(kind: AdbKind) -> Seq<char> {
    match kind {
        AdbKind::Plain => "[ADB-Plain]"@,
        AdbKind::Tls => "[ADB-TLS]"@,
        AdbKind::Open => "[open]"@,
    }
}

/// The console line for an event.
pub open spec fn event_line(e: EventModel) -> Seq<char> {
    match e {
        EventModel::PassStarted { pass, work_items, timeout } => if pass == 1 {
            "[Pass 1/2] "@ + text::decimal_text(work_items as nat) + " 工作项, 快速连接超时 "@
                + text::decimal_text(timeout as nat) + "ms"@
        } else {
            "[Pass 2/2] 对 "@ + text::decimal_text(work_items as nat) + " 个无响应端口用 "@
                + text::decimal_text(timeout as nat) + "ms 超时复扫"@
        },
        EventModel::Progress { pass, done, total } => "  进度 "@ + text::decimal_text(done as nat)
            + "/"@ + text::decimal_text(total as nat),
        EventModel::PortHit(h) => "  发现 "@ + h.target.display + ":"@ + text::decimal_text(
            h.port as nat,
        ) + " "@ + kind_tag(h.kind),
        EventModel::PassSkipped { pass, remaining, reason } => "[Pass 2/2] 跳过 (已命中或被中断, 剩余 "@
            + text::decimal_text(remaining as nat) + " 个未复扫)"@,
        EventModel::ThreadsSpawned { pass, requested, actual } => "  注意: 申请 "@
            + text::decimal_text(requested as nat) + " 线程，实际起了 "@ + text::decimal_text(
            actual as nat,
        ) + " (系统资源限制)"@,
    }
}

impl ScanEvent {
    /// The console line for the event.
    pub fn console_line(&self) -> (r: String)
        ensures
            r@ == event_line(self@),
    {
        match self {
            ScanEvent::PassStarted { pass, work_items, timeout } => {
                if *pass == 1 {
                    let mut s: String = text::join3(
                        "[Pass 1/2] ",
                        &text::decimal(*work_items as u64),
                        " 工作项, 快速连接超时 ",
                    );
                    s.append(&text::decimal(*timeout));
                    s.append("ms");
                    s
                } else {
                    let mut s: String = text::join3(
                        "[Pass 2/2] 对 ",
                        &text::decimal(*work_items as u64),
                        " 个无响应端口用 ",
                    );
                    s.append(&text::decimal(*timeout));
                    s.append("ms 超时复扫");
                    s
                }
            },
            ScanEvent::Progress { done, total, .. } => {
                let mut s: String = text::join3("  进度 ", &text::decimal(*done as u64), "/");
                s.append(&text::decimal(*total as u64));
                s
            },
            ScanEvent::PortHit(h) => {
                let mut s: String = text::join3("  发现 ", &h.target.display, ":");
                s.append(&text::decimal(h.port as u64));
                s.append(" ");
                s.append(
                    match h.kind {
                        AdbKind::Plain => "[ADB-Plain]",
                        AdbKind::Tls => "[ADB-TLS]",
                        AdbKind::Open => "[open]",
                    },
                );
                s
            },
            ScanEvent::PassSkipped { remaining, .. } => text::join3(
                "[Pass 2/2] 跳过 (已命中或被中断, 剩余 ",
                &text::decimal(*remaining as u64),
                " 个未复扫)",
            ),
            ScanEvent::ThreadsSpawned { requested, actual, .. } => {
                let mut s: String = text::join3(
                    "  注意: 申请 ",
                    &text::decimal(*requested as u64),
                    " 线程，实际起了 ",
                );
                s.append(&text::decimal(*actual as u64));
                s.append(" (系统资源限制)");
                s
            },
        }
    }
}

/// One connection to try: a port of a target.
#[derive(Debug, Clone, Copy, PartialEq, Eq, Structural)]
pub struct Work {
    pub target_idx: usize,
    pub port: u16,
}

/// How an attempt to connect ended.
#[derive(Debug, Clone, Copy, PartialEq, Eq, Structural)]
pub enum ConnectOutcome {
    Open,
    Closed,
    Timeout,
}

/// Why an attempt to connect failed.
#[derive(Debug, Clone, Copy, PartialEq, Eq, Structural)]
pub enum ConnectError {
    TimedOut,
    WouldBlock,
    Other,
}

/// How an attempt to connect ended, from what the system said.
pub open spec fn outcome_of(error: Option<ConnectError>) -> ConnectOutcome {
    match error {
        None => ConnectOutcome::Open,
        Some(ConnectError::Other) => ConnectOutcome::Closed,
        Some(_) => ConnectOutcome::Timeout,
    }
}

/// How an attempt to connect ended, from what the system said: without an error the port is
/// open, with any error but a timeout it is closed. Some systems call a timeout "would block".
pub fn connect_outcome(error: Option<ConnectError>) -> (r: ConnectOutcome)
    ensures
        r == outcome_of(error),
        error is None <==> r is Open,
        error == Some(ConnectError::Other) <==> r is Closed,
{
    match error {
        None => ConnectOutcome::Open,
        Some(ConnectError::TimedOut) => ConnectOutcome::Timeout,
        Some(ConnectError::WouldBlock) => ConnectOutcome::Timeout,
        Some(ConnectError::Other) => ConnectOutcome::Closed,
    }
}

/// What a worker found out about a work item.
#[derive(Debug, Clone, Copy, PartialEq, Eq, Structural)]
pub enum Finding {
    Nothing,
    TimedOut,
    Open(AdbKind),
}

/// What a worker does next with a work item.
#[derive(Debug, Clone, Copy, PartialEq, Eq, Structural)]
pub enum AfterConnect {
    /// The open port is to be probed.
    Probe,
    /// The item is to be settled with this finding.
    Settle(Finding),
}

/// A claimed work item: its pass and its place there, where to connect, and how long to try.
#[derive(Debug, PartialEq, Eq, Structural)]
pub struct Job {
    pub pass: u8,
    pub index: usize,
    pub work: Work,
    pub addr: SocketAddr,
    pub timeout: u64,
}

/// The state of a scan.
#[derive(Debug)]
pub struct Scan {
    cfg: ScanCfg,
    work: Vec<Work>,
    pass: u8,
    next: usize,
    held: HashSet<usize>,
    done: usize,
    stopped: bool,
    hits: Vec<Hit>,
    pending: Vec<Work>,
}

/// The model of a `Scan`: the work items of the current pass, how many of them are claimed,
/// the places of those that a worker holds, how many are done, whether an ADB hit has ended the
/// scan, the hits in the order they came, and the items that timed out in the first pass.
#[verifier::ext_equal]
pub struct ScanModel {
    pub cfg: CfgModel,
    pub work: Seq<Work>,
    pub pass: u8,
    pub next: int,
    pub held: Set<usize>,
    pub done: int,
    pub stopped: bool,
    pub hits: Seq<HitModel>,
    pub pending: Seq<Work>,
}

impl View for Scan {
    type V = ScanModel;

    closed spec fn view(&self) -> ScanModel {
        ScanModel {
            cfg: self.cfg@,
            work: self.work@,
            pass: self.pass,
            next: self.next as int,
            held: self.held@,
            done: self.done as int,
            stopped: self.stopped,
            hits: hit_models(self.hits@),
            pending: self.pending@,
        }
    }
}

/// The work items of one target.
pub open spec fn items_of(target_idx: int, ports: Seq<u16>) -> Seq<Work> {
    ports.map_values(|p: u16| Work { target_idx: target_idx as usize, port: p })
}

/// The work items of the first `n` targets, target by target.
pub open spec fn all_items(n: int, ports: Seq<u16>) -> Seq<Work>
    decreases n,
{
    if n <= 0 {
        Seq::empty()
    } else {
        all_items(n - 1, ports) + items_of(n - 1, ports)
    }
}

/// Whether the items name targets of the configuration and ports of it.
pub open spec fn items_within(cfg: CfgModel, items: Seq<Work>) -> bool {
    forall|i: int|
        0 <= i < items.len() ==> (#[trigger] items[i]).target_idx < cfg.targets.len()
            && cfg.ports.contains(items[i].port)
}

/// Whether the hits are on targets and ports of the configuration.
pub open spec fn hits_within(cfg: CfgModel, hits: Seq<HitModel>) -> bool {
    forall|i: int|
        0 <= i < hits.len() ==> cfg.targets.contains((#[trigger] hits[i]).target)
            && cfg.ports.contains(hits[i].port)
}

/// Whether no hit before the last speaks ADB.
pub open spec fn adb_only_last(hits: Seq<HitModel>) -> bool {
    forall|i: int| 0 <= i < hits.len() - 1 ==> !speaks_adb((#[trigger] hits[i]).kind)
}

/// What holds of every state of a scan: the counts are in range, each claimed item is held by
/// a worker or done, items and hits belong to the configuration, only the first pass leaves items for later, no more of them than are done,
/// and the scan has stopped exactly when it stops at the first ADB port and has one, which is
/// then the last hit.
pub open spec fn sound(m: ScanModel) -> bool {
    &&& m.pass == 1 || m.pass == 2
    &&& 0 <= m.done <= m.next <= m.work.len()
    &&& m.held.finite()
    &&& m.done + m.held.len() == m.next
    &&& forall|i: usize| #[trigger] m.held.contains(i) ==> i < m.next
    &&& m.work.len() <= usize::MAX
    &&& items_within(m.cfg, m.work)
    &&& items_within(m.cfg, m.pending)
    &&& m.pending.len() <= m.done
    &&& m.pass == 2 ==> m.pending.len() == 0
    &&& hits_within(m.cfg, m.hits)
    &&& m.stopped == (m.cfg.stop_on_first && any_adb(m.hits))
    &&& m.cfg.stop_on_first ==> adb_only_last(m.hits)
}

/// The state in which a scan begins.
pub open spec fn initial(cfg: CfgModel) -> ScanModel {
    ScanModel {
        cfg,
        work: all_items(cfg.targets.len() as int, cfg.ports),
        pass: 1,
        next: 0,
        held: Set::empty(),
        done: 0,
        stopped: false,
        hits: Seq::empty(),
        pending: Seq::empty(),
    }
}

/// The event with which a scan begins; none if there is nothing to do.
pub open spec fn first_event(m: ScanModel) -> Option<EventModel> {
    if m.work.len() == 0 {
        None
    } else {
        Some(
            EventModel::PassStarted {
                pass: 1,
                work_items: m.work.len() as usize,
                timeout: m.cfg.fast_timeout,
            },
        )
    }
}

/// The event when `actual` threads were started; none unless the next one `failed` to.
pub open spec fn spawn_event(m: ScanModel, actual: usize, failed: bool) -> Option<EventModel> {
    if failed {
        Some(
            EventModel::ThreadsSpawned { pass: m.pass, requested: m.cfg.threads, actual },
        )
    } else {
        None
    }
}

/// The connect timeout of the current pass.
pub open spec fn pass_timeout(m: ScanModel) -> u64 {
    if m.pass == 1 {
        m.cfg.fast_timeout
    } else {
        m.cfg.slow_timeout
    }
}

/// The number of threads for the current pass: as configured, but no more than there are work
/// items, and at least one.
pub open spec fn pass_threads(m: ScanModel) -> int {
    threads::greatest(threads::least(m.cfg.threads as int, m.work.len() as int), 1)
}

/// The job that a worker gets next: the next item of the pass, none once the scan has stopped
/// or was cancelled.
pub open spec fn next_job(m: ScanModel, cancelled: bool) -> Option<Job> {
    if m.stopped || cancelled || m.next >= m.work.len() {
        None
    } else {
        let work = m.work[m.next];
        let t = m.cfg.targets[work.target_idx as int];
        Some(
            Job {
                pass: m.pass,
                index: m.next as usize,
                work,
                addr: target::endpoint(t.ip, t.zone, work.port),
                timeout: pass_timeout(m),
            },
        )
    }
}

/// Whether `job` is an item of the current pass that was claimed and not settled yet.
pub open spec fn may_settle(m: ScanModel, job: Job) -> bool {
    job.pass == m.pass && m.held.contains(job.index) && m.work[job.index as int] == job.work
}

/// What becomes of an item whose connect attempt ended in `outcome`. An open port is left alone
/// once the scan is to stop; else it is probed, if ports are verified.
pub open spec fn after(m: ScanModel, outcome: ConnectOutcome, cancelled: bool) -> AfterConnect {
    match outcome {
        ConnectOutcome::Closed => AfterConnect::Settle(Finding::Nothing),
        ConnectOutcome::Timeout => AfterConnect::Settle(Finding::TimedOut),
        ConnectOutcome::Open => if m.stopped || cancelled {
            AfterConnect::Settle(Finding::Nothing)
        } else if m.cfg.verify_adb {
            AfterConnect::Probe
        } else {
            AfterConnect::Settle(Finding::Open(AdbKind::Open))
        },
    }
}

/// The hit that an item with an open port of kind `kind` becomes.
pub open spec fn hit_on(m: ScanModel, work: Work, kind: AdbKind) -> HitModel {
    HitModel { target: m.cfg.targets[work.target_idx as int], port: work.port, kind }
}

/// The state after `job` was settled with `finding`. A timeout in the first pass leaves the
/// item for the second. An open port becomes a hit unless the scan is to stop; an ADB port
/// stops the scan if it stops at the first.
pub open spec fn settled(m: ScanModel, job: Job, finding: Finding, cancelled: bool) -> ScanModel {
    let counted = ScanModel { held: m.held.remove(job.index), done: m.done + 1, ..m };
    match finding {
        Finding::Nothing => counted,
        Finding::TimedOut => if m.pass == 1 {
            ScanModel { pending: m.pending.push(job.work), ..counted }
        } else {
            counted
        },
        Finding::Open(kind) => if m.stopped || cancelled {
            counted
        } else {
            ScanModel {
                hits: m.hits.push(hit_on(m, job.work, kind)),
                stopped: m.cfg.stop_on_first && speaks_adb(kind),
                ..counted
            }
        },
    }
}

/// The events that settling `job` with `finding` causes: the hit, then the progress after
/// every five thousandth item.
pub open spec fn settle_events(
    m: ScanModel,
    job: Job,
    finding: Finding,
    cancelled: bool,
) -> Seq<EventModel> {
    let hit = match finding {
        Finding::Open(kind) => if m.stopped || cancelled {
            Seq::empty()
        } else {
            seq![EventModel::PortHit(hit_on(m, job.work, kind))]
        },
        _ => Seq::empty(),
    };
    let progress = if (m.done + 1) % 5000 == 0 {
        seq![
            EventModel::Progress {
                pass: m.pass,
                done: (m.done + 1) as usize,
                total: m.work.len() as usize,
            },
        ]
    } else {
        Seq::empty()
    };
    hit + progress
}

/// Whether the items that timed out get a second pass.
pub open spec fn second_pass_due(m: ScanModel, cancelled: bool) -> bool {
    m.pending.len() > 0 && !cancelled && !(m.cfg.stop_on_first && any_adb(m.hits))
}

/// The state after the first pass: the items that timed out are the work of the second pass,
/// if it is due.
pub open spec fn after_first_pass(m: ScanModel, cancelled: bool) -> ScanModel {
    if second_pass_due(m, cancelled) {
        ScanModel {
            work: m.pending,
            pass: 2,
            next: 0,
            held: Set::empty(),
            done: 0,
            pending: Seq::empty(),
            ..m
        }
    } else {
        m
    }
}

/// The event after the first pass: the second pass begins, or is left out though items timed
/// out, or nothing is left to do.
pub open spec fn after_first_pass_event(m: ScanModel, cancelled: bool) -> Option<EventModel> {
    if second_pass_due(m, cancelled) {
        Some(
            EventModel::PassStarted {
                pass: 2,
                work_items: m.pending.len() as usize,
                timeout: m.cfg.slow_timeout,
            },
        )
    } else if m.pending.len() > 0 {
        Some(
            EventModel::PassSkipped {
                pass: 2,
                remaining: m.pending.len() as usize,
                reason: if m.cfg.stop_on_first && any_adb(m.hits) {
                    PassSkipReason::HitFound
                } else {
                    PassSkipReason::Cancelled
                },
            },
        )
    } else {
        None
    }
}

fn list_items(targets: usize, ports: &Vec<u16>) -> (r: Vec<Work>)
    ensures
        r@ == all_items(targets as int, ports@),
{
    let mut out: Vec<Work> = Vec::new();
    let mut t: usize = 0;
    while t < targets
        invariant
            t <= targets,
            out@ == all_items(t as int, ports@),
        decreases targets - t,
    {
        let ghost before = out@;
        let mut i: usize = 0;
        while i < ports.len()
            invariant
                i <= ports@.len(),
                out@ == before + items_of(t as int, ports@).take(i as int),
            decreases ports@.len() - i,
        {
            out.push(Work { target_idx: t, port: ports[i] });
            assert(items_of(t as int, ports@).take(i + 1) =~= items_of(t as int, ports@).take(
                i as int,
            ).push(items_of(t as int, ports@)[i as int]));
            i = i + 1;
        }
        assert(items_of(t as int, ports@).take(ports@.len() as int) =~= items_of(t as int, ports@));
        t = t + 1;
    }
    out
}

proof fn lemma_items_within(cfg: CfgModel, n: int)
    requires
        0 <= n <= cfg.targets.len() <= usize::MAX,
    ensures
        items_within(cfg, all_items(n, cfg.ports)),
    decreases n,
{
    if n > 0 {
        lemma_items_within(cfg, n - 1);
        let a = all_items(n - 1, cfg.ports);
        let b = items_of(n - 1, cfg.ports);
        assert forall|i: int| 0 <= i < (a + b).len() implies (#[trigger] (a + b)[i]).target_idx
            < cfg.targets.len() && cfg.ports.contains((a + b)[i].port) by {
            if i < a.len() {
                assert((a + b)[i] == a[i]);
            } else {
                assert((a + b)[i] == b[i - a.len()]);
                assert(b[i - a.len()].port == cfg.ports[i - a.len()]);
            }
        }
    }
}

impl Scan {
    /// Prepares a scan: every port of every target, target by target.
    pub fn new(cfg: ScanCfg) -> (r: Scan)
        ensures
            r@ == initial(cfg@),
            sound(r@),
    {
        let work: Vec<Work> = list_items(cfg.targets.len(), &cfg.ports);
        let hits: Vec<Hit> = Vec::new();
        let pending: Vec<Work> = Vec::new();
        let n: usize = cfg.targets.len();
        proof {
            lemma_items_within(cfg@, n as int);
            assert(work.len() <= usize::MAX);
            assert(hit_models(hits@) =~= Seq::<HitModel>::empty());
        }
        Scan {
            cfg,
            work,
            pass: 1,
            next: 0,
            held: HashSet::new(),
            done: 0,
            stopped: false,
            hits,
            pending,
        }
    }

    /// The configuration of the scan.
    pub fn config(&self) -> (r: &ScanCfg)
        ensures
            r@ == self@.cfg,
    {
        &self.cfg
    }

    /// The event with which the scan begins; none if there is nothing to do.
    pub fn begin(&self) -> (r: Option<ScanEvent>)
        ensures
            match r {
                Some(e) => first_event(self@) == Some(e@),
                None => first_event(self@) is None,
            },
    {
        if self.work.len() == 0 {
            None
        } else {
            Some(
                ScanEvent::PassStarted {
                    pass: 1,
                    work_items: self.work.len(),
                    timeout: self.cfg.fast_timeout,
                },
            )
        }
    }

    /// The number of threads to start for the current pass.
    pub fn threads(&self) -> (r: usize)
        ensures
            r == pass_threads(self@),
    {
        let n: usize = if self.cfg.threads < self.work.len() {
            self.cfg.threads
        } else {
            self.work.len()
        };
        if n < 1 {
            1
        } else {
            n
        }
    }

    /// The event to report when `actual` threads were started and the next one `failed` to.
    pub fn spawned(&self, actual: usize, failed: bool) -> (r: Option<ScanEvent>)
        ensures
            match r {
                Some(e) => spawn_event(self@, actual, failed) == Some(e@),
                None => spawn_event(self@, actual, failed) is None,
            },
    {
        if failed {
            Some(
                ScanEvent::ThreadsSpawned {
                    pass: self.pass,
                    requested: self.cfg.threads,
                    actual,
                },
            )
        } else {
            None
        }
    }

    /// Whether the scan is to stop: an ADB hit ended it, or it was cancelled.
    pub fn should_stop(&self, cancelled: bool) -> (r: bool)
        ensures
            r == (self@.stopped || cancelled),
    {
        self.stopped || cancelled
    }

    /// Hands out the next work item.
    pub fn claim(&mut self, cancelled: bool) -> (r: Option<Job>)
        requires
            sound(old(self)@),
        ensures
            r == next_job(old(self)@, cancelled),
            final(self)@ == stepped(old(self)@, Step::Claim(cancelled)),
            sound(final(self)@),
            r matches Some(job) ==> may_settle(final(self)@, job),
    {
        broadcast use vstd::std_specs::hash::group_hash_axioms;

        if self.should_stop(cancelled) || self.next >= self.work.len() {
            return None;
        }
        let index: usize = self.next;
        let work: Work = self.work[index];
        let addr: SocketAddr = self.cfg.targets[work.target_idx].socket(work.port);
        let timeout: u64 = if self.pass == 1 {
            self.cfg.fast_timeout
        } else {
            self.cfg.slow_timeout
        };
        self.held.insert(index);
        self.next = self.next + 1;
        Some(Job { pass: self.pass, index, work, addr, timeout })
    }

    /// Decides what becomes of an item after the attempt to connect.
    pub fn after_connect(&self, outcome: ConnectOutcome, cancelled: bool) -> (r: AfterConnect)
        ensures
            r == after(self@, outcome, cancelled),
    {
        match outcome {
            ConnectOutcome::Closed => AfterConnect::Settle(Finding::Nothing),
            ConnectOutcome::Timeout => AfterConnect::Settle(Finding::TimedOut),
            ConnectOutcome::Open => if self.should_stop(cancelled) {
                AfterConnect::Settle(Finding::Nothing)
            } else if self.cfg.verify_adb {
                AfterConnect::Probe
            } else {
                AfterConnect::Settle(Finding::Open(AdbKind::Open))
            },
        }
    }

    /// Whether `job` is an item of the current pass that was claimed and not settled yet.
    pub fn accepts(&self, job: &Job) -> (r: bool)
        requires
            sound(self@),
        ensures
            r == may_settle(self@, *job),
    {
        broadcast use vstd::std_specs::hash::group_hash_axioms;

        job.pass == self.pass && self.held.contains(&job.index) && self.work[job.index] == job.work
    }

    /// Settles a claimed item; gives the events to report.
    pub fn settle(&mut self, job: Job, finding: Finding, cancelled: bool) -> (r: Vec<ScanEvent>)
        requires
            sound(old(self)@),
            may_settle(old(self)@, job),
        ensures
            final(self)@ == settled(old(self)@, job, finding, cancelled),
            event_models(r@) == settle_events(old(self)@, job, finding, cancelled),
            sound(final(self)@),
    {
        broadcast use vstd::std_specs::hash::group_hash_axioms;

        let ghost before = self@;
        let mut events: Vec<ScanEvent> = Vec::new();
        assert(before.work[job.index as int] == job.work);
        assert(before.held.len() > 0);
        match finding {
            Finding::Nothing => {},
            Finding::TimedOut => {
                if self.pass == 1 {
                    self.pending.push(job.work);
                    assert(items_within(self.cfg@, self.pending@)) by {
                        assert forall|i: int| 0 <= i < self.pending@.len() implies (
                        #[trigger] self.pending@[i]).target_idx < self.cfg@.targets.len()
                            && self.cfg@.ports.contains(self.pending@[i].port) by {
                            if i < before.pending.len() {
                                assert(self.pending@[i] == before.pending[i]);
                            }
                        }
                    }
                }
            },
            Finding::Open(kind) => {
                if !self.should_stop(cancelled) {
                    let hit: Hit = Hit {
                        target: self.cfg.targets[job.work.target_idx].clone(),
                        port: job.work.port,
                        kind,
                    };
                    events.push(ScanEvent::PortHit(hit.clone()));
                    self.hits.push(hit);
                    if self.cfg.stop_on_first && is_adb(kind) {
                        self.stopped = true;
                    }
                    proof {
                        let hits = hit_models(self.hits@);
                        assert(hits =~= before.hits.push(hit_on(before, job.work, kind)));
                        lemma_hit_added(before, job, kind);
                    }
                }
            },
        }
        self.held.remove(&job.index);
        self.done = self.done + 1;
        if self.done % 5000 == 0 {
            events.push(
                ScanEvent::Progress { pass: self.pass, done: self.done, total: self.work.len() },
            );
        }
        assert(event_models(events@) =~= settle_events(before, job, finding, cancelled));
        assert(self@ =~= settled(before, job, finding, cancelled));
        events
    }

    /// Ends the first pass and sets up the second, if it is due; gives the event to report. Once
    /// the second pass is set up, an item of the first that a worker still holds is lost.
    pub fn next_pass(&mut self, cancelled: bool) -> (r: Option<ScanEvent>)
        requires
            sound(old(self)@),
            old(self)@.pass == 1,
        ensures
            final(self)@ == after_first_pass(old(self)@, cancelled),
            match r {
                Some(e) => after_first_pass_event(old(self)@, cancelled) == Some(e@),
                None => after_first_pass_event(old(self)@, cancelled) is None,
            },
            sound(final(self)@),
    {
        let remaining: usize = self.pending.len();
        if remaining == 0 {
            return None;
        }
        if self.stopped {
            return Some(
                ScanEvent::PassSkipped { pass: 2, remaining, reason: PassSkipReason::HitFound },
            );
        }
        if cancelled {
            return Some(
                ScanEvent::PassSkipped { pass: 2, remaining, reason: PassSkipReason::Cancelled },
            );
        }
        let mut work: Vec<Work> = Vec::new();
        work.append(&mut self.pending);
        self.work = work;
        self.pass = 2;
        self.next = 0;
        self.held.clear();
        self.done = 0;
        assert(self@ =~= after_first_pass(old(self)@, cancelled));
        Some(
            ScanEvent::PassStarted {
                pass: 2,
                work_items: remaining,
                timeout: self.cfg.slow_timeout,
            },
        )
    }

    /// Whether the scan is in its first pass.
    pub fn in_first_pass(&self) -> (r: bool)
        ensures
            r == (self@.pass == 1),
    {
        self.pass == 1
    }

    /// The hits of the scan in the order of presentation.
    pub fn finish(self) -> (r: Vec<Hit>)
        ensures
            ranking::sorted_from(hit_models(r@), self@.hits),
    {
        sort_hits(&self.hits)
    }
}

proof fn lemma_hit_added(m: ScanModel, job: Job, kind: AdbKind)
    requires
        sound(m),
        may_settle(m, job),
        !m.stopped,
    ensures
        ({
            let hits = m.hits.push(hit_on(m, job.work, kind));
            &&& hits_within(m.cfg, hits)
            &&& (m.cfg.stop_on_first && speaks_adb(kind)) == (m.cfg.stop_on_first && any_adb(hits))
            &&& m.cfg.stop_on_first ==> adb_only_last(hits)
        }),
{
    let h = hit_on(m, job.work, kind);
    let hits = m.hits.push(h);
    assert(m.work[job.index as int] == job.work);
    assert(h.target == m.cfg.targets[job.work.target_idx as int]);
    assert forall|i: int| 0 <= i < hits.len() implies m.cfg.targets.contains(
        (#[trigger] hits[i]).target,
    ) && m.cfg.ports.contains(hits[i].port) by {
        if i < m.hits.len() {
            assert(hits[i] == m.hits[i]);
        }
    }
    assert(hits[m.hits.len() as int] == h);
    if m.cfg.stop_on_first {
        assert(!any_adb(m.hits));
        assert forall|i: int| 0 <= i < m.hits.len() implies !speaks_adb(
            (#[trigger] hits[i]).kind,
        ) by {
            assert(hits[i] == m.hits[i]);
        }
    }
}

/// A scan tries every port of every target: the items are as many as targets times ports, and
/// the `i`-th port of target `t` stands at its own place among them.
pub proof fn law_every_pair_listed(n: int, ports: Seq<u16>, t: int, i: int)
    requires
        0 <= n <= usize::MAX,
        0 <= t < n,
        0 <= i < ports.len(),
    ensures
        all_items(n, ports).len() == n * ports.len(),
        0 <= t * ports.len() + i < n * ports.len(),
        all_items(n, ports)[t * ports.len() + i] == (Work {
            target_idx: t as usize,
            port: ports[i],
        }),
    decreases n,
{
    let k = ports.len() as int;
    lemma_item_count(n, ports);
    lemma_item_count(n - 1, ports);
    assert(t * k + i < (t + 1) * k) by (nonlinear_arith)
        requires
            i < k,
    ;
    assert((t + 1) * k <= n * k) by (nonlinear_arith)
        requires
            t + 1 <= n,
            k >= 0,
    ;
    assert(0 <= t * k) by (nonlinear_arith)
        requires
            t >= 0,
            k >= 0,
    ;
    if t < n - 1 {
        law_every_pair_listed(n - 1, ports, t, i);
    } else {
        assert(t * k == (n - 1) * k);
    }
}

proof fn lemma_item_count(n: int, ports: Seq<u16>)
    requires
        0 <= n,
    ensures
        all_items(n, ports).len() == n * ports.len(),
    decreases n,
{
    let k = ports.len() as int;
    if n > 0 {
        lemma_item_count(n - 1, ports);
        assert((n - 1) * k + k == n * k) by (nonlinear_arith);
    } else {
        assert(n * k == 0) by (nonlinear_arith)
            requires
                n == 0,
        ;
    }
}

/// Once the scan has stopped or was cancelled, no item is handed out, no port is probed, and
/// no hit is added.
pub proof fn law_nothing_after_stop(m: ScanModel, job: Job, finding: Finding, cancelled: bool)
    requires
        m.stopped || cancelled,
    ensures
        next_job(m, cancelled) is None,
        forall|outcome: ConnectOutcome| #[trigger] after(m, outcome, cancelled) is Settle,
        settled(m, job, finding, cancelled).hits == m.hits,
        settled(m, job, finding, cancelled).stopped == m.stopped,
{
}

/// A scan that stops at the first ADB port does so: after the hit nothing is handed out, and
/// no second pass begins.
pub proof fn law_first_adb_hit_ends_scan(m: ScanModel, job: Job, kind: AdbKind, cancelled: bool)
    requires
        sound(m),
        may_settle(m, job),
        m.cfg.stop_on_first,
        speaks_adb(kind),
        !m.stopped && !cancelled,
    ensures
        ({
            let after_hit = settled(m, job, Finding::Open(kind), cancelled);
            &&& after_hit.hits.last() == hit_on(m, job.work, kind)
            &&& forall|c: bool| #[trigger] next_job(after_hit, c) is None
            &&& forall|c: bool| !#[trigger] second_pass_due(after_hit, c)
        }),
{
    let after_hit = settled(m, job, Finding::Open(kind), cancelled);
    assert(after_hit.hits[m.hits.len() as int].kind == kind);
}

/// A scan that stops at the first ADB port never has more than one hit that speaks ADB.
pub proof fn law_at_most_one_adb_hit(m: ScanModel, i: int, j: int)
    requires
        sound(m),
        m.cfg.stop_on_first,
        0 <= i < m.hits.len(),
        0 <= j < m.hits.len(),
        speaks_adb(m.hits[i].kind),
        speaks_adb(m.hits[j].kind),
    ensures
        i == j,
{
}

/// Without the stop at the first ADB port, no hit ends the scan: every item is handed out and
/// what timed out is tried again, unless the scan is cancelled.
pub proof fn law_full_scan_is_complete(m: ScanModel)
    requires
        sound(m),
        !m.cfg.stop_on_first,
    ensures
        m.next < m.work.len() ==> next_job(m, false) is Some,
        m.pending.len() > 0 ==> second_pass_due(m, false),
{
}

/// The second pass tries exactly the items that timed out, in that order, and leaves nothing
/// for a third.
pub proof fn law_second_pass_work(m: ScanModel, cancelled: bool, job: Job, finding: Finding)
    requires
        sound(m),
        second_pass_due(m, cancelled),
    ensures
        ({
            let second = after_first_pass(m, cancelled);
            &&& second.work == m.pending
            &&& second.hits == m.hits
            &&& settled(second, job, finding, cancelled).pending.len() == 0
        }),
{
}

/// The state after the jobs of `log` were settled with their findings, one after the other.
/// When they were claimed is left out: it changes neither the hits nor what timed out.
pub open spec fn replay(m: ScanModel, log: Seq<(Job, Finding)>) -> ScanModel
    decreases log.len(),
{
    if log.len() == 0 {
        m
    } else {
        settled(replay(m, log.drop_last()), log.last().0, log.last().1, false)
    }
}

/// The hits that the open ports of `log` are.
pub open spec fn open_ports(m: ScanModel, log: Seq<(Job, Finding)>) -> Seq<HitModel>
    decreases log.len(),
{
    if log.len() == 0 {
        Seq::empty()
    } else {
        match log.last().1 {
            Finding::Open(kind) => open_ports(m, log.drop_last()).push(
                hit_on(m, log.last().0.work, kind),
            ),
            _ => open_ports(m, log.drop_last()),
        }
    }
}

/// The items of `log` that timed out.
pub open spec fn timeouts(log: Seq<(Job, Finding)>) -> Seq<Work>
    decreases log.len(),
{
    if log.len() == 0 {
        Seq::empty()
    } else if log.last().1 is TimedOut {
        timeouts(log.drop_last()).push(log.last().0.work)
    } else {
        timeouts(log.drop_last())
    }
}

/// Whether `finding` is a port that speaks ADB.
pub open spec fn finds_adb(finding: Finding) -> bool {
    finding is Open && speaks_adb(finding->Open_0)
}

/// No open port is lost and none is made up, in whatever order the workers report: the hits
/// are the open ports of what was reported, up to the first ADB port where the scan stops
/// there. In the first pass, what timed out is kept for the second.
pub proof fn law_hits_are_the_open_ports(m: ScanModel, log: Seq<(Job, Finding)>)
    requires
        !m.stopped,
        m.cfg.stop_on_first ==> forall|i: int|
            0 <= i < log.len() - 1 ==> !finds_adb((#[trigger] log[i]).1),
    ensures
        replay(m, log).hits == m.hits + open_ports(m, log),
        m.pass == 1 ==> replay(m, log).pending == m.pending + timeouts(log),
        replay(m, log).done == m.done + log.len(),
        replay(m, log).cfg == m.cfg && replay(m, log).pass == m.pass,
        replay(m, log).stopped == (m.cfg.stop_on_first && log.len() > 0 && finds_adb(
            log.last().1,
        )),
    decreases log.len(),
{
    if log.len() == 0 {
        assert(m.hits + open_ports(m, log) =~= m.hits);
        assert(m.pending + timeouts(log) =~= m.pending);
    } else {
        let prefix = log.drop_last();
        assert(m.cfg.stop_on_first ==> forall|i: int|
            0 <= i < prefix.len() ==> !finds_adb((#[trigger] prefix[i]).1)) by {
            assert forall|i: int| m.cfg.stop_on_first && 0 <= i < prefix.len() implies !finds_adb(
                (#[trigger] prefix[i]).1,
            ) by {
                assert(prefix[i] == log[i]);
            }
        }
        law_hits_are_the_open_ports(m, prefix);
        assert(!replay(m, prefix).stopped) by {
            if prefix.len() > 0 {
                assert(prefix[prefix.len() - 1] == prefix.last());
            }
        }
        assert(replay(m, log).hits =~= m.hits + open_ports(m, log));
        assert(m.pass == 1 ==> replay(m, log).pending =~= m.pending + timeouts(log));
    }
}

/// Every item of a pass is handed out, in its turn, unless the scan is to stop: as the item it
/// is, with the endpoint of its target and the timeout of the pass.
pub proof fn law_every_item_handed_out(m: ScanModel, i: int)
    requires
        sound(m),
        !m.stopped,
        m.next == i < m.work.len(),
    ensures
        ({
            let t = m.cfg.targets[m.work[i].target_idx as int];
            next_job(m, false) == Some(
                Job {
                    pass: m.pass,
                    index: i as usize,
                    work: m.work[i],
                    addr: target::endpoint(t.ip, t.zone, m.work[i].port),
                    timeout: if m.pass == 1 {
                        m.cfg.fast_timeout
                    } else {
                        m.cfg.slow_timeout
                    },
                },
            )
        }),
{
}

proof fn lemma_open_ports_hold(m: ScanModel, log: Seq<(Job, Finding)>, j: int)
    requires
        0 <= j < log.len(),
        log[j].1 is Open,
    ensures
        open_ports(m, log).contains(hit_on(m, log[j].0.work, log[j].1->Open_0)),
    decreases log.len(),
{
    let prefix = log.drop_last();
    let all = open_ports(m, log);
    let h = hit_on(m, log[j].0.work, log[j].1->Open_0);
    if j < prefix.len() {
        assert(prefix[j] == log[j]);
        lemma_open_ports_hold(m, prefix, j);
        let q = open_ports(m, prefix);
        let k = choose|k: int| 0 <= k < q.len() && q[k] == h;
        assert(all[k] == h);
    } else {
        assert(all[all.len() - 1] == h);
    }
}

/// An open port that a worker of an undisturbed scan finds is among the hits, with its target,
/// port and kind.
pub proof fn law_open_port_is_reported(m: ScanModel, log: Seq<(Job, Finding)>, j: int)
    requires
        !m.stopped,
        m.cfg.stop_on_first ==> forall|i: int|
            0 <= i < log.len() - 1 ==> !finds_adb((#[trigger] log[i]).1),
        0 <= j < log.len(),
        log[j].1 is Open,
    ensures
        replay(m, log).hits.contains(hit_on(m, log[j].0.work, log[j].1->Open_0)),
{
    law_hits_are_the_open_ports(m, log);
    lemma_open_ports_hold(m, log, j);
    let h = hit_on(m, log[j].0.work, log[j].1->Open_0);
    let q = open_ports(m, log);
    let k = choose|k: int| 0 <= k < q.len() && q[k] == h;
    assert(replay(m, log).hits[m.hits.len() + k] == h);
}

/// An item is settled once: a job that was settled is not accepted again, nor is one of the
/// first pass once the second has begun; settling one job leaves all others as they are.
pub proof fn law_settled_once(
    m: ScanModel,
    job: Job,
    finding: Finding,
    cancelled: bool,
    other: Job,
)
    ensures
        !may_settle(settled(m, job, finding, cancelled), job),
        other.index != job.index ==> may_settle(settled(m, job, finding, cancelled), other)
            == may_settle(m, other),
        m.pass == 1 && may_settle(m, other) && second_pass_due(m, cancelled) ==> !may_settle(
            after_first_pass(m, cancelled),
            other,
        ),
{
}

/// What an unverified scan makes of a connect attempt.
pub open spec fn plain_finding(outcome: ConnectOutcome) -> Finding {
    match outcome {
        ConnectOutcome::Open => Finding::Open(AdbKind::Open),
        ConnectOutcome::Closed => Finding::Nothing,
        ConnectOutcome::Timeout => Finding::TimedOut,
    }
}

/// Without verification no port is probed: an open port is a hit of its own, and none speaks
/// ADB.
pub proof fn law_no_probe_without_verification(m: ScanModel, outcome: ConnectOutcome)
    requires
        !m.cfg.verify_adb,
        !m.stopped,
    ensures
        after(m, outcome, false) == AfterConnect::Settle(plain_finding(outcome)),
        !finds_adb(plain_finding(outcome)),
{
}

/// The items of `log`.
pub open spec fn logged_items(log: Seq<(Job, Finding)>) -> Seq<Work> {
    log.map_values(|e: (Job, Finding)| e.0.work)
}

/// Whether `log` tells of a whole pass in which the network answers by `answer`: each item of
/// the pass is settled once, in whatever order, with the finding that it meets.
pub open spec fn whole_pass(
    m: ScanModel,
    answer: spec_fn(Work) -> Finding,
    log: Seq<(Job, Finding)>,
) -> bool {
    &&& logged_items(log).to_multiset() == m.work.to_multiset()
    &&& forall|j: int| 0 <= j < log.len() ==> (#[trigger] log[j]).1 == answer(log[j].0.work)
}

/// What one item comes to over two passes: the hit that it is if it is open in the first, or
/// times out there and is open in the second.
pub open spec fn item_hits(
    m: ScanModel,
    w: Work,
    first: spec_fn(Work) -> Finding,
    second: spec_fn(Work) -> Finding,
) -> Seq<HitModel> {
    match first(w) {
        Finding::Open(kind) => seq![hit_on(m, w, kind)],
        Finding::TimedOut => match second(w) {
            Finding::Open(kind) => seq![hit_on(m, w, kind)],
            _ => Seq::empty(),
        },
        Finding::Nothing => Seq::empty(),
    }
}

/// What `items` come to over two passes, item by item.
pub open spec fn all_hits(
    m: ScanModel,
    items: Seq<Work>,
    first: spec_fn(Work) -> Finding,
    second: spec_fn(Work) -> Finding,
) -> Seq<HitModel>
    decreases items.len(),
{
    if items.len() == 0 {
        Seq::empty()
    } else {
        all_hits(m, items.drop_last(), first, second) + item_hits(m, items.last(), first, second)
    }
}

/// An answer for passes that do not take place.
spec fn no_answer() -> spec_fn(Work) -> Finding {
    |w: Work| Finding::Nothing
}

proof fn lemma_multiset_concat(a: Seq<HitModel>, b: Seq<HitModel>)
    ensures
        (a + b).to_multiset() == a.to_multiset().add(b.to_multiset()),
{
    vstd::seq_lib::lemma_multiset_commutative(a, b);
}

proof fn lemma_all_hits_remove(
    m: ScanModel,
    items: Seq<Work>,
    k: int,
    first: spec_fn(Work) -> Finding,
    second: spec_fn(Work) -> Finding,
)
    requires
        0 <= k < items.len(),
    ensures
        all_hits(m, items, first, second).to_multiset() == all_hits(
            m,
            items.remove(k),
            first,
            second,
        ).to_multiset().add(item_hits(m, items[k], first, second).to_multiset()),
    decreases items.len(),
{
    let front = items.drop_last();
    let last = item_hits(m, items.last(), first, second);
    lemma_multiset_concat(all_hits(m, front, first, second), last);
    if k == items.len() - 1 {
        assert(items.remove(k) =~= front);
    } else {
        lemma_all_hits_remove(m, front, k, first, second);
        let rest = items.remove(k);
        assert(rest.drop_last() =~= front.remove(k));
        assert(rest.last() == items.last());
        lemma_multiset_concat(all_hits(m, front.remove(k), first, second), last);
        let x = all_hits(m, front.remove(k), first, second).to_multiset();
        let y = item_hits(m, items[k], first, second).to_multiset();
        let z = last.to_multiset();
        assert(x.add(y).add(z) =~= x.add(z).add(y));
    }
}

/// What items come to does not depend on their order.
proof fn lemma_all_hits_any_order(
    m: ScanModel,
    a: Seq<Work>,
    b: Seq<Work>,
    first: spec_fn(Work) -> Finding,
    second: spec_fn(Work) -> Finding,
)
    requires
        a.to_multiset() == b.to_multiset(),
    ensures
        all_hits(m, a, first, second).to_multiset() == all_hits(
            m,
            b,
            first,
            second,
        ).to_multiset(),
    decreases a.len(),
{
    broadcast use vstd::seq_lib::group_to_multiset_ensures;

    assert(a.to_multiset().len() == a.len() && b.to_multiset().len() == b.len());
    if a.len() > 0 {
        let x = a.last();
        let front = a.drop_last();
        assert(a =~= front.push(x));
        assert(a.to_multiset().count(x) > 0);
        assert(b.contains(x));
        let k = choose|k: int| 0 <= k < b.len() && b[k] == x;
        assert(b.remove(k).to_multiset() =~= b.to_multiset().remove(x));
        assert(front.to_multiset() =~= a.to_multiset().remove(x));
        lemma_all_hits_any_order(m, front, b.remove(k), first, second);
        lemma_all_hits_remove(m, b, k, first, second);
        lemma_multiset_concat(
            all_hits(m, front, first, second),
            item_hits(m, x, first, second),
        );
    }
}

/// The hits of one pass are what its items come to, were there no second.
proof fn lemma_pass_hits(
    m: ScanModel,
    answer: spec_fn(Work) -> Finding,
    log: Seq<(Job, Finding)>,
)
    requires
        forall|j: int| 0 <= j < log.len() ==> (#[trigger] log[j]).1 == answer(log[j].0.work),
    ensures
        open_ports(m, log) == all_hits(m, logged_items(log), answer, no_answer()),
    decreases log.len(),
{
    if log.len() > 0 {
        let prefix = log.drop_last();
        assert forall|j: int| 0 <= j < prefix.len() implies (#[trigger] prefix[j]).1 == answer(
            prefix[j].0.work,
        ) by {
            assert(prefix[j] == log[j]);
        }
        lemma_pass_hits(m, answer, prefix);
        assert(logged_items(log).drop_last() =~= logged_items(prefix));
        assert(log[log.len() - 1].1 == answer(log[log.len() - 1].0.work));
        let h = item_hits(m, log.last().0.work, answer, no_answer());
        assert(open_ports(m, log) =~= open_ports(m, prefix) + h);
    }
}

/// Two passes together: the hits of the first and those of the second over what timed out.
proof fn lemma_passes_add_up(
    m: ScanModel,
    log: Seq<(Job, Finding)>,
    first: spec_fn(Work) -> Finding,
    second: spec_fn(Work) -> Finding,
)
    requires
        forall|j: int| 0 <= j < log.len() ==> (#[trigger] log[j]).1 == first(log[j].0.work),
    ensures
        all_hits(m, logged_items(log), first, second).to_multiset() == all_hits(
            m,
            logged_items(log),
            first,
            no_answer(),
        ).to_multiset().add(all_hits(m, timeouts(log), second, no_answer()).to_multiset()),
    decreases log.len(),
{
    let items = logged_items(log);
    if log.len() == 0 {
        assert(Seq::<HitModel>::empty().to_multiset().add(
            Seq::<HitModel>::empty().to_multiset(),
        ) =~= Seq::<HitModel>::empty().to_multiset()) by {
            broadcast use vstd::seq_lib::group_to_multiset_ensures;

            assert(Seq::<HitModel>::empty().to_multiset().len() == 0);
        }
    } else {
        let prefix = log.drop_last();
        assert forall|j: int| 0 <= j < prefix.len() implies (#[trigger] prefix[j]).1 == first(
            prefix[j].0.work,
        ) by {
            assert(prefix[j] == log[j]);
        }
        lemma_passes_add_up(m, prefix, first, second);
        assert(items.drop_last() =~= logged_items(prefix));
        let w = log.last().0.work;
        assert(log[log.len() - 1].1 == first(w));
        let (a, b) = (logged_items(prefix), timeouts(prefix));
        let both = item_hits(m, w, first, second);
        let one = item_hits(m, w, first, no_answer());
        let two = item_hits(m, w, second, no_answer());
        lemma_multiset_concat(all_hits(m, a, first, second), both);
        lemma_multiset_concat(all_hits(m, a, first, no_answer()), one);
        let x = all_hits(m, a, first, no_answer()).to_multiset();
        let y = all_hits(m, b, second, no_answer()).to_multiset();
        let none = Seq::<HitModel>::empty();
        if first(w) is TimedOut {
            assert(timeouts(log).drop_last() =~= b);
            lemma_multiset_concat(all_hits(m, b, second, no_answer()), two);
            assert(one =~= none && both =~= two);
            lemma_multiset_concat(all_hits(m, a, first, no_answer()), none);
            assert(all_hits(m, a, first, no_answer()) + none =~= all_hits(
                m,
                a,
                first,
                no_answer(),
            ));
            assert(x.add(y).add(two.to_multiset()) =~= x.add(y.add(two.to_multiset())));
        } else {
            assert(one =~= both);
            assert(x.add(y).add(one.to_multiset()) =~= x.add(one.to_multiset()).add(y));
        }
    }
}

/// The two passes of an undisturbed scan find exactly what is there to find, in whatever order
/// the workers settle the items: the hits are the items that are open in the first pass, or
/// time out there and are open in the second, each once. Undisturbed means that the scan is
/// not cancelled, and that it does not stop at the first ADB port or meets none.
pub proof fn law_two_passes(
    cfg: CfgModel,
    first: spec_fn(Work) -> Finding,
    second: spec_fn(Work) -> Finding,
    log1: Seq<(Job, Finding)>,
    log2: Seq<(Job, Finding)>,
)
    requires
        cfg.stop_on_first ==> forall|w: Work| !finds_adb(#[trigger] first(w)),
        cfg.stop_on_first ==> forall|w: Work| !finds_adb(#[trigger] second(w)),
        whole_pass(initial(cfg), first, log1),
        ({
            let middle = replay(initial(cfg), log1);
            if second_pass_due(middle, false) {
                whole_pass(after_first_pass(middle, false), second, log2)
            } else {
                log2.len() == 0
            }
        }),
    ensures
        ({
            let end = replay(after_first_pass(replay(initial(cfg), log1), false), log2);
            &&& end.hits.to_multiset() == all_hits(
                initial(cfg),
                all_items(cfg.targets.len() as int, cfg.ports),
                first,
                second,
            ).to_multiset()
            &&& !end.stopped
        }),
{
    let start = initial(cfg);
    let middle = replay(start, log1);
    let between = after_first_pass(middle, false);
    let end = replay(between, log2);
    let items = all_items(cfg.targets.len() as int, cfg.ports);
    assert forall|i: int| cfg.stop_on_first && 0 <= i < log1.len() implies !finds_adb(
        (#[trigger] log1[i]).1,
    ) by {
        assert(log1[i].1 == first(log1[i].0.work));
    }
    law_hits_are_the_open_ports(start, log1);
    assert(!middle.stopped) by {
        if log1.len() > 0 {
            assert(log1[log1.len() - 1] == log1.last());
        }
    }
    assert(middle.hits =~= open_ports(start, log1));
    assert(middle.pending =~= timeouts(log1));
    lemma_pass_hits(start, first, log1);
    lemma_passes_add_up(start, log1, first, second);
    lemma_all_hits_any_order(start, logged_items(log1), items, first, second);
    assert(cfg.stop_on_first ==> !any_adb(middle.hits)) by {
        if cfg.stop_on_first {
            lemma_no_adb(start, log1);
        }
    }
    if second_pass_due(middle, false) {
        assert forall|i: int| cfg.stop_on_first && 0 <= i < log2.len() implies !finds_adb(
            (#[trigger] log2[i]).1,
        ) by {
            assert(log2[i].1 == second(log2[i].0.work));
        }
        law_hits_are_the_open_ports(between, log2);
        assert(!end.stopped) by {
            if log2.len() > 0 {
                assert(log2[log2.len() - 1] == log2.last());
            }
        }
        lemma_open_ports_cfg(start, between, log2);
        lemma_pass_hits(start, second, log2);
        lemma_all_hits_any_order(
            start,
            logged_items(log2),
            timeouts(log1),
            second,
            no_answer(),
        );
        lemma_multiset_concat(open_ports(start, log1), open_ports(start, log2));
    } else {
        assert(timeouts(log1).len() == 0);
        assert(end == middle);
        let none = all_hits(start, timeouts(log1), second, no_answer());
        assert(none =~= Seq::<HitModel>::empty());
        lemma_multiset_concat(open_ports(start, log1), none);
        assert(open_ports(start, log1) + none =~= open_ports(start, log1));
    }
}

/// What a hit on an item is depends on the configuration alone.
proof fn lemma_open_ports_cfg(a: ScanModel, b: ScanModel, log: Seq<(Job, Finding)>)
    requires
        a.cfg == b.cfg,
    ensures
        open_ports(a, log) == open_ports(b, log),
    decreases log.len(),
{
    if log.len() > 0 {
        lemma_open_ports_cfg(a, b, log.drop_last());
    }
}

proof fn lemma_no_adb(m: ScanModel, log: Seq<(Job, Finding)>)
    requires
        forall|i: int| 0 <= i < log.len() ==> !finds_adb((#[trigger] log[i]).1),
    ensures
        !any_adb(open_ports(m, log)),
    decreases log.len(),
{
    if log.len() > 0 {
        let prefix = log.drop_last();
        assert forall|i: int| 0 <= i < prefix.len() implies !finds_adb((#[trigger] prefix[i]).1) by {
            assert(prefix[i] == log[i]);
        }
        lemma_no_adb(m, prefix);
        assert(!finds_adb(log[log.len() - 1].1));
        let all = open_ports(m, log);
        let q = open_ports(m, prefix);
        assert forall|i: int| 0 <= i < all.len() implies !speaks_adb((#[trigger] all[i]).kind) by {
            if i < q.len() {
                assert(all[i] == q[i]);
            }
        }
    }
}

/// The same of a scan without verification, over what the network answers: the hits are the
/// items that are open in the first pass, or time out there and are open in the second,
/// whether or not the scan would stop at an ADB port.
pub proof fn law_two_passes_unverified(
    cfg: CfgModel,
    first: spec_fn(Work) -> ConnectOutcome,
    second: spec_fn(Work) -> ConnectOutcome,
    log1: Seq<(Job, Finding)>,
    log2: Seq<(Job, Finding)>,
)
    requires
        !cfg.verify_adb,
        whole_pass(initial(cfg), |w: Work| plain_finding(first(w)), log1),
        ({
            let middle = replay(initial(cfg), log1);
            if second_pass_due(middle, false) {
                whole_pass(
                    after_first_pass(middle, false),
                    |w: Work| plain_finding(second(w)),
                    log2,
                )
            } else {
                log2.len() == 0
            }
        }),
    ensures
        ({
            let hits = replay(after_first_pass(replay(initial(cfg), log1), false), log2).hits;
            let items = all_items(cfg.targets.len() as int, cfg.ports);
            forall|h: HitModel| #[trigger]
                hits.contains(h) <==> exists|i: int|
                    {
                        &&& 0 <= i < items.len()
                        &&& h == hit_on(initial(cfg), #[trigger] items[i], AdbKind::Open)
                        &&& first(items[i]) is Open || (first(items[i]) is Timeout && second(
                            items[i],
                        ) is Open)
                    }
        }),
{
    broadcast use vstd::seq_lib::group_to_multiset_ensures;

    let a = |w: Work| plain_finding(first(w));
    let b = |w: Work| plain_finding(second(w));
    law_two_passes(cfg, a, b, log1, log2);
    let hits = replay(after_first_pass(replay(initial(cfg), log1), false), log2).hits;
    let items = all_items(cfg.targets.len() as int, cfg.ports);
    let all = all_hits(initial(cfg), items, a, b);
    assert forall|h: HitModel| #[trigger] hits.contains(h) == all.contains(h) by {
        assert(hits.contains(h) == (hits.to_multiset().count(h) > 0));
        assert(all.contains(h) == (all.to_multiset().count(h) > 0));
    }
    assert forall|h: HitModel| #[trigger] hits.contains(h) <==> exists|i: int|
        {
            &&& 0 <= i < items.len()
            &&& h == hit_on(initial(cfg), #[trigger] items[i], AdbKind::Open)
            &&& first(items[i]) is Open || (first(items[i]) is Timeout && second(items[i]) is Open)
        } by {
        lemma_all_hits_contain(initial(cfg), items, a, b, h);
        if hits.contains(h) {
            let i = choose|i: int|
                0 <= i < items.len() && item_hits(
                    initial(cfg),
                    #[trigger] items[i],
                    a,
                    b,
                ).contains(h);
            assert(h == hit_on(initial(cfg), items[i], AdbKind::Open));
        }
        if exists|i: int|
            {
                &&& 0 <= i < items.len()
                &&& h == hit_on(initial(cfg), #[trigger] items[i], AdbKind::Open)
                &&& first(items[i]) is Open || (first(items[i]) is Timeout && second(
                    items[i],
                ) is Open)
            } {
            let i = choose|i: int|
                {
                    &&& 0 <= i < items.len()
                    &&& h == hit_on(initial(cfg), #[trigger] items[i], AdbKind::Open)
                    &&& first(items[i]) is Open || (first(items[i]) is Timeout && second(
                        items[i],
                    ) is Open)
                };
            let own = item_hits(initial(cfg), items[i], a, b);
            assert(own == seq![h]);
            assert(own[0] == h);
        }
    }
}

proof fn lemma_all_hits_contain(
    m: ScanModel,
    items: Seq<Work>,
    first: spec_fn(Work) -> Finding,
    second: spec_fn(Work) -> Finding,
    h: HitModel,
)
    ensures
        all_hits(m, items, first, second).contains(h) <==> exists|i: int|
            0 <= i < items.len() && item_hits(m, #[trigger] items[i], first, second).contains(h),
    decreases items.len(),
{
    if items.len() > 0 {
        let front = items.drop_last();
        lemma_all_hits_contain(m, front, first, second, h);
        let q = all_hits(m, front, first, second);
        let own = item_hits(m, items.last(), first, second);
        let all = all_hits(m, items, first, second);
        assert(all == q + own);
        assert(items[items.len() - 1] == items.last());
        if all.contains(h) {
            let k = choose|k: int| 0 <= k < all.len() && all[k] == h;
            if k < q.len() {
                assert(q[k] == h);
                let i = choose|i: int|
                    0 <= i < front.len() && item_hits(
                        m,
                        #[trigger] front[i],
                        first,
                        second,
                    ).contains(h);
                assert(items[i] == front[i]);
            } else {
                assert(own[k - q.len()] == h);
            }
        }
        if exists|i: int|
            0 <= i < items.len() && item_hits(m, #[trigger] items[i], first, second).contains(h) {
            let i = choose|i: int|
                0 <= i < items.len() && item_hits(
                    m,
                    #[trigger] items[i],
                    first,
                    second,
                ).contains(h);
            if i < front.len() {
                assert(front[i] == items[i]);
                let k = choose|k: int| 0 <= k < q.len() && q[k] == h;
                assert(all[k] == h);
            } else {
                let k = choose|k: int| 0 <= k < own.len() && own[k] == h;
                assert(all[q.len() + k] == h);
            }
        }
    }
}

/// One step of a worker: it asks for a job, or settles the one it holds. The flag tells whether
/// the scan was cancelled by then.
pub enum Step {
    Claim(bool),
    Settle(Job, Finding, bool),
}

/// The state after a step.
pub open spec fn stepped(m: ScanModel, step: Step) -> ScanModel {
    match step {
        Step::Claim(cancelled) => if next_job(m, cancelled) is Some {
            ScanModel { next: m.next + 1, held: m.held.insert(m.next as usize), ..m }
        } else {
            m
        },
        Step::Settle(job, finding, cancelled) => settled(m, job, finding, cancelled),
    }
}

/// Whether a step is accepted: a worker settles only a job that was claimed and not settled
/// yet.
pub open spec fn accepted(m: ScanModel, step: Step) -> bool {
    step matches Step::Settle(job, _, _) ==> may_settle(m, job)
}

/// The state after the steps of all workers, in the order they were taken.
pub open spec fn traced(m: ScanModel, steps: Seq<Step>) -> ScanModel
    decreases steps.len(),
{
    if steps.len() == 0 {
        m
    } else {
        stepped(traced(m, steps.drop_last()), steps.last())
    }
}

/// Whether every step was accepted when it was taken.
pub open spec fn all_accepted(m: ScanModel, steps: Seq<Step>) -> bool
    decreases steps.len(),
{
    steps.len() > 0 ==> {
        &&& all_accepted(m, steps.drop_last())
        &&& accepted(traced(m, steps.drop_last()), steps.last())
    }
}

/// The jobs that were settled, with their findings.
pub open spec fn settlements(steps: Seq<Step>) -> Seq<(Job, Finding)>
    decreases steps.len(),
{
    if steps.len() == 0 {
        Seq::empty()
    } else {
        match steps.last() {
            Step::Settle(job, finding, _) => settlements(steps.drop_last()).push((job, finding)),
            Step::Claim(_) => settlements(steps.drop_last()),
        }
    }
}

/// Whether a pass begins: nothing is claimed yet.
pub open spec fn pass_begins(m: ScanModel) -> bool {
    sound(m) && m.next == 0 && m.held =~= Set::<usize>::empty()
}

/// Whether a pass is over: every item was claimed, and no worker holds one.
pub open spec fn pass_over(m: ScanModel) -> bool {
    m.next == m.work.len() && m.held =~= Set::<usize>::empty()
}

/// Every accepted step of a worker, and the passage to the second pass, keep a scan sound.
pub proof fn law_steps_keep_sound(m: ScanModel, step: Step, cancelled: bool)
    requires
        sound(m),
        accepted(m, step),
    ensures
        sound(stepped(m, step)),
        m.pass == 1 ==> sound(after_first_pass(m, cancelled)),
{
    match step {
        Step::Claim(_) => {},
        Step::Settle(job, finding, cancelled) => {
            let n = stepped(m, step);
            assert(m.work[job.index as int] == job.work);
            assert(m.held.len() > 0);
            match finding {
                Finding::Nothing => {},
                Finding::TimedOut => {
                    assert forall|i: int| 0 <= i < n.pending.len() implies (
                    #[trigger] n.pending[i]).target_idx < n.cfg.targets.len()
                        && n.cfg.ports.contains(n.pending[i].port) by {
                        if i < m.pending.len() {
                            assert(n.pending[i] == m.pending[i]);
                        }
                    }
                },
                Finding::Open(kind) => {
                    if !m.stopped {
                        lemma_hit_added(m, job, kind);
                    }
                },
            }
        },
    }
}

proof fn lemma_trace_sound(m: ScanModel, steps: Seq<Step>)
    requires
        sound(m),
        all_accepted(m, steps),
    ensures
        sound(traced(m, steps)),
    decreases steps.len(),
{
    if steps.len() > 0 {
        lemma_trace_sound(m, steps.drop_last());
        law_steps_keep_sound(traced(m, steps.drop_last()), steps.last(), false);
    }
}

/// Each claimed item is held or settled, none is both, and none is settled twice.
spec fn accounted(m: ScanModel, log: Seq<(Job, Finding)>) -> bool {
    &&& 0 <= m.next <= m.work.len() <= usize::MAX
    &&& forall|i: usize| #[trigger] m.held.contains(i) ==> i < m.next
    &&& forall|j: int|
        0 <= j < log.len() ==> {
            &&& (#[trigger] log[j]).0.index < m.next
            &&& !m.held.contains(log[j].0.index)
            &&& log[j].0.work == m.work[log[j].0.index as int]
        }
    &&& forall|j: int, k: int|
        0 <= j < k < log.len() ==> (#[trigger] log[j]).0.index != (#[trigger] log[k]).0.index
    &&& forall|i: usize| i < m.next && !#[trigger] m.held.contains(i) ==> settled_in(log, i)
}

spec fn settled_in(log: Seq<(Job, Finding)>, i: usize) -> bool {
    exists|j: int| 0 <= j < log.len() && (#[trigger] log[j]).0.index == i
}

proof fn lemma_accounted(m: ScanModel, steps: Seq<Step>)
    requires
        pass_begins(m),
        all_accepted(m, steps),
    ensures
        accounted(traced(m, steps), settlements(steps)),
        traced(m, steps).work == m.work,
    decreases steps.len(),
{
    if steps.len() > 0 {
        let front = steps.drop_last();
        lemma_accounted(m, front);
        let a = traced(m, front);
        let b = traced(m, steps);
        let p = settlements(front);
        let log = settlements(steps);
        assert(b == stepped(a, steps.last()));
        match steps.last() {
            Step::Claim(cancelled) => {
                if next_job(a, cancelled) is Some {
                    let n = a.next as usize;
                    assert forall|i: usize| i < b.next && !#[trigger] b.held.contains(
                        i,
                    ) implies settled_in(log, i) by {
                        assert(i != n);
                        assert(!a.held.contains(i));
                    }
                    assert forall|j: int| 0 <= j < log.len() implies {
                        &&& (#[trigger] log[j]).0.index < b.next
                        &&& !b.held.contains(log[j].0.index)
                        &&& log[j].0.work == b.work[log[j].0.index as int]
                    } by {
                        assert(log[j].0.index < a.next);
                    }
                }
            },
            Step::Settle(job, finding, cancelled) => {
                assert(a.held.contains(job.index));
                assert(log == p.push((job, finding)));
                assert(b.held == a.held.remove(job.index));
                assert(b.next == a.next && b.work == a.work);
                assert forall|j: int| 0 <= j < log.len() implies {
                    &&& (#[trigger] log[j]).0.index < b.next
                    &&& !b.held.contains(log[j].0.index)
                    &&& log[j].0.work == b.work[log[j].0.index as int]
                } by {
                    if j < p.len() {
                        assert(log[j] == p[j]);
                    }
                }
                assert forall|j: int, k: int| 0 <= j < k < log.len() implies (
                #[trigger] log[j]).0.index != (#[trigger] log[k]).0.index by {
                    assert(log[j] == p[j]);
                    if k < p.len() {
                        assert(log[k] == p[k]);
                    }
                }
                assert forall|i: usize| i < b.next && !#[trigger] b.held.contains(
                    i,
                ) implies settled_in(log, i) by {
                    if i == job.index {
                        assert(log[p.len() as int].0.index == i);
                    } else {
                        assert(!a.held.contains(i));
                        let j = choose|j: int| 0 <= j < p.len() && (#[trigger] p[j]).0.index == i;
                        assert(log[j].0.index == i);
                    }
                }
            },
        }
    }
}

/// Whether `log` names each of the first `n` items of `work` once.
spec fn names_each(work: Seq<Work>, log: Seq<(Job, Finding)>, n: int) -> bool {
    &&& 0 <= n <= work.len() <= usize::MAX
    &&& forall|j: int|
        0 <= j < log.len() ==> (#[trigger] log[j]).0.index < n && log[j].0.work
            == work[log[j].0.index as int]
    &&& forall|j: int, k: int|
        0 <= j < k < log.len() ==> (#[trigger] log[j]).0.index != (#[trigger] log[k]).0.index
    &&& forall|i: usize| i < n ==> #[trigger] settled_in(log, i)
}

proof fn lemma_each_once(work: Seq<Work>, log: Seq<(Job, Finding)>, n: int)
    requires
        names_each(work, log, n),
    ensures
        logged_items(log).to_multiset() == work.take(n).to_multiset(),
    decreases n,
{
    broadcast use vstd::seq_lib::group_to_multiset_ensures;

    let items = logged_items(log);
    if n == 0 {
        assert(log.len() == 0) by {
            if log.len() > 0 {
                assert(log[0].0.index < n);
            }
        }
        assert(items =~= Seq::<Work>::empty());
        assert(work.take(0) =~= Seq::<Work>::empty());
    } else {
        let last = (n - 1) as usize;
        assert(settled_in(log, last));
        let k = choose|k: int| 0 <= k < log.len() && (#[trigger] log[k]).0.index == last;
        let rest = log.remove(k);
        assert forall|j: int| 0 <= j < rest.len() implies (#[trigger] rest[j]).0.index < n - 1
            && rest[j].0.work == work[rest[j].0.index as int] by {
            let at = if j < k {
                j
            } else {
                j + 1
            };
            assert(rest[j] == log[at]);
            if at < k {
                assert(log[at].0.index != log[k].0.index);
            } else {
                assert(log[k].0.index != log[at].0.index);
            }
        }
        assert forall|i: int, j: int| 0 <= i < j < rest.len() implies (#[trigger] rest[i]).0.index
            != (#[trigger] rest[j]).0.index by {
            let x = if i < k {
                i
            } else {
                i + 1
            };
            let y = if j < k {
                j
            } else {
                j + 1
            };
            assert(rest[i] == log[x] && rest[j] == log[y]);
        }
        assert forall|i: usize| i < n - 1 implies #[trigger] settled_in(rest, i) by {
            assert(settled_in(log, i));
            let j = choose|j: int| 0 <= j < log.len() && (#[trigger] log[j]).0.index == i;
            assert(j != k);
            if j < k {
                assert(rest[j] == log[j]);
            } else {
                assert(rest[j - 1] == log[j]);
            }
        }
        lemma_each_once(work, rest, n - 1);
        assert(logged_items(rest) =~= items.remove(k));
        assert(items[k] == work[n - 1]);
        assert(items.remove(k).to_multiset() =~= items.to_multiset().remove(items[k]));
        assert(items.to_multiset().count(items[k]) > 0);
        assert(work.take(n) =~= work.take(n - 1).push(work[n - 1]));
        assert(items.to_multiset() =~= items.remove(k).to_multiset().insert(items[k]));
    }
}

/// Each work item is tried exactly once: in a pass that is over, whatever the workers did in
/// whatever order, the settled items are the items of the pass, each as often as it stands
/// there.
pub proof fn law_each_item_tried_once(m: ScanModel, steps: Seq<Step>)
    requires
        pass_begins(m),
        all_accepted(m, steps),
        pass_over(traced(m, steps)),
    ensures
        logged_items(settlements(steps)).to_multiset() == m.work.to_multiset(),
        settlements(steps).len() == m.work.len(),
{
    broadcast use vstd::seq_lib::group_to_multiset_ensures;

    let end = traced(m, steps);
    let log = settlements(steps);
    lemma_accounted(m, steps);
    assert forall|i: usize| i < m.work.len() implies #[trigger] settled_in(log, i) by {
        assert(!end.held.contains(i));
    }
    lemma_each_once(m.work, log, m.work.len() as int);
    assert(m.work.take(m.work.len() as int) =~= m.work);
    assert(logged_items(log).to_multiset().len() == logged_items(log).len());
    assert(m.work.to_multiset().len() == m.work.len());
}

/// Whether the scan was not cancelled, and every settled item met what `answer` says.
pub open spec fn undisturbed(steps: Seq<Step>, answer: spec_fn(Work) -> Finding) -> bool {
    forall|i: int|
        0 <= i < steps.len() ==> match #[trigger] steps[i] {
            Step::Claim(cancelled) => !cancelled,
            Step::Settle(job, finding, cancelled) => !cancelled && finding == answer(job.work),
        }
}

/// Claims change neither the hits nor what timed out.
proof fn lemma_trace_replays(
    m: ScanModel,
    steps: Seq<Step>,
    answer: spec_fn(Work) -> Finding,
)
    requires
        undisturbed(steps, answer),
    ensures
        ({
            let a = traced(m, steps);
            let b = replay(m, settlements(steps));
            &&& a.cfg == b.cfg && a.work == b.work && a.pass == b.pass && a.done == b.done
            &&& a.cfg == m.cfg
            &&& a.hits == b.hits && a.pending == b.pending && a.stopped == b.stopped
        }),
        forall|j: int|
            0 <= j < settlements(steps).len() ==> (#[trigger] settlements(steps)[j]).1 == answer(
                settlements(steps)[j].0.work,
            ),
    decreases steps.len(),
{
    if steps.len() > 0 {
        let front = steps.drop_last();
        assert forall|i: int| 0 <= i < front.len() implies match #[trigger] front[i] {
            Step::Claim(cancelled) => !cancelled,
            Step::Settle(job, finding, cancelled) => !cancelled && finding == answer(job.work),
        } by {
            assert(front[i] == steps[i]);
        }
        lemma_trace_replays(m, front, answer);
        let last = steps[steps.len() - 1];
        assert(last == steps.last());
        let p = settlements(front);
        let log = settlements(steps);
        match last {
            Step::Claim(_) => {},
            Step::Settle(job, finding, _) => {
                assert(log == p.push((job, finding)));
                assert(log.drop_last() =~= p);
                assert(log.last() == (job, finding));
                assert forall|j: int| 0 <= j < log.len() implies (#[trigger] log[j]).1 == answer(
                    log[j].0.work,
                ) by {
                    if j < p.len() {
                        assert(log[j] == p[j]);
                    }
                }
            },
        }
    }
}

/// Whether the workers are through with a pass: there is no job left to hand out, and nobody
/// holds one.
pub open spec fn workers_through(m: ScanModel) -> bool {
    next_job(m, false) is None && m.held =~= Set::<usize>::empty()
}

proof fn lemma_pass_is_whole(
    m: ScanModel,
    answer: spec_fn(Work) -> Finding,
    steps: Seq<Step>,
)
    requires
        pass_begins(m),
        !m.stopped,
        m.cfg.stop_on_first ==> forall|w: Work| !finds_adb(#[trigger] answer(w)),
        all_accepted(m, steps),
        undisturbed(steps, answer),
        workers_through(traced(m, steps)),
    ensures
        whole_pass(m, answer, settlements(steps)),
{
    let log = settlements(steps);
    let end = traced(m, steps);
    lemma_trace_replays(m, steps, answer);
    assert forall|i: int| m.cfg.stop_on_first && 0 <= i < log.len() implies !finds_adb(
        (#[trigger] log[i]).1,
    ) by {
        assert(log[i].1 == answer(log[i].0.work));
    }
    law_hits_are_the_open_ports(m, log);
    assert(!end.stopped) by {
        if log.len() > 0 {
            assert(log[log.len() - 1] == log.last());
        }
    }
    lemma_trace_sound(m, steps);
    law_each_item_tried_once(m, steps);
}

/// A whole scan, from its first claim to its end: where it is not cancelled, and does not stop
/// at the first ADB port or meets none, its hits are exactly the items that are open in the
/// first pass, or time out there and are open in the second, each once. Nothing is asked of the
/// workers but that they settle what they claim until no job is left.
pub proof fn law_whole_scan(
    cfg: CfgModel,
    first: spec_fn(Work) -> Finding,
    second: spec_fn(Work) -> Finding,
    steps1: Seq<Step>,
    steps2: Seq<Step>,
)
    requires
        sound(initial(cfg)),
        cfg.stop_on_first ==> forall|w: Work| !finds_adb(#[trigger] first(w)),
        cfg.stop_on_first ==> forall|w: Work| !finds_adb(#[trigger] second(w)),
        all_accepted(initial(cfg), steps1),
        undisturbed(steps1, first),
        workers_through(traced(initial(cfg), steps1)),
        ({
            let middle = traced(initial(cfg), steps1);
            let between = after_first_pass(middle, false);
            if second_pass_due(middle, false) {
                &&& all_accepted(between, steps2)
                &&& undisturbed(steps2, second)
                &&& workers_through(traced(between, steps2))
            } else {
                steps2.len() == 0
            }
        }),
    ensures
        traced(
            after_first_pass(traced(initial(cfg), steps1), false),
            steps2,
        ).hits.to_multiset() == all_hits(
            initial(cfg),
            all_items(cfg.targets.len() as int, cfg.ports),
            first,
            second,
        ).to_multiset(),
{
    let start = initial(cfg);
    let middle = traced(start, steps1);
    let between = after_first_pass(middle, false);
    let log1 = settlements(steps1);
    let log2 = settlements(steps2);
    lemma_pass_is_whole(start, first, steps1);
    lemma_trace_replays(start, steps1, first);
    lemma_trace_sound(start, steps1);
    law_steps_keep_sound(middle, Step::Claim(false), false);
    let replayed = replay(start, log1);
    assert(second_pass_due(middle, false) == second_pass_due(replayed, false));
    if second_pass_due(middle, false) {
        assert(between =~= after_first_pass(replayed, false));
        lemma_pass_is_whole(between, second, steps2);
        lemma_trace_replays(between, steps2, second);
    } else {
        assert(log2.len() == 0);
    }
    law_two_passes(cfg, first, second, log1, log2);
}

/// What an attempt to connect comes to: it is open exactly when there was no error, and timed
/// out exactly when the error is one of the two that mean so.
pub proof fn law_connect_outcome(error: Option<ConnectError>)
    ensures
        outcome_of(error) is Open <==> error is None,
        outcome_of(error) is Timeout <==> error == Some(ConnectError::TimedOut) || error == Some(
            ConnectError::WouldBlock,
        ),
        outcome_of(error) is Closed <==> error == Some(ConnectError::Other),
{
}

/// Ports are verified in every pass: an open port that a running scan meets is probed if ports
/// are verified, whatever the pass and whatever was found before; else it is a plain hit. Once
/// the scan is to stop, an open port is passed over. A closed port comes to nothing and a
/// timeout to a timeout at any time.
pub proof fn law_open_ports_are_probed(m: ScanModel, cancelled: bool)
    ensures
        m.cfg.verify_adb && !m.stopped && !cancelled ==> after(m, ConnectOutcome::Open, cancelled)
            == AfterConnect::Probe,
        !m.cfg.verify_adb && !m.stopped && !cancelled ==> after(m, ConnectOutcome::Open, cancelled)
            == AfterConnect::Settle(Finding::Open(AdbKind::Open)),
        m.stopped || cancelled ==> after(m, ConnectOutcome::Open, cancelled)
            == AfterConnect::Settle(Finding::Nothing),
        after(m, ConnectOutcome::Closed, cancelled) == AfterConnect::Settle(Finding::Nothing),
        after(m, ConnectOutcome::Timeout, cancelled) == AfterConnect::Settle(Finding::TimedOut),
{
}

/// The decision on an open port does not depend on the course of the scan: two scans with the
/// same verification setting, of which neither is to stop, decide alike, in whatever pass they
/// are and whatever they have found.
pub proof fn law_passes_decide_alike(a: ScanModel, b: ScanModel, outcome: ConnectOutcome)
    requires
        a.cfg.verify_adb == b.cfg.verify_adb,
        a.stopped == b.stopped,
    ensures
        after(a, outcome, false) == after(b, outcome, false),
        after(a, outcome, true) == after(b, outcome, true),
{
}

/// What settling an item changes: it is no longer held and counts as done, and nothing else of
/// the pass changes. An open port that a running scan meets is a hit on the item's target and
/// port, of the kind that was found, behind those that came before; it stops the scan if the
/// scan stops at the first ADB port and this is one. A timeout in the first pass is kept for
/// the second.
pub proof fn law_settling(m: ScanModel, job: Job, finding: Finding, cancelled: bool)
    ensures
        ({
            let n = settled(m, job, finding, cancelled);
            let t = job.work.target_idx as int;
            &&& n.cfg == m.cfg && n.work == m.work && n.pass == m.pass && n.next == m.next
            &&& n.held == m.held.remove(job.index)
            &&& n.done == m.done + 1
            &&& finding is TimedOut && m.pass == 1 ==> n.pending == m.pending.push(job.work)
            &&& !(finding is TimedOut) || m.pass != 1 ==> n.pending == m.pending
            &&& finding is Open && !m.stopped && !cancelled ==> {
                &&& n.hits.len() == m.hits.len() + 1
                &&& n.hits.drop_last() == m.hits
                &&& n.hits.last().target == m.cfg.targets[t]
                &&& n.hits.last().port == job.work.port
                &&& n.hits.last().kind == finding->Open_0
                &&& n.stopped <==> m.cfg.stop_on_first && finding->Open_0 != AdbKind::Open
            }
            &&& !(finding is Open) || m.stopped || cancelled ==> n.hits == m.hits && n.stopped
                == m.stopped
        }),
{
    let n = settled(m, job, finding, cancelled);
    if finding is Open && !m.stopped && !cancelled {
        assert(n.hits.drop_last() =~= m.hits);
    }
}

/// What settling an item reports: a hit exactly when there is a new one, and that one; and the
/// progress of the pass exactly when the number of items done is a multiple of five thousand.
pub proof fn law_settling_reports(m: ScanModel, job: Job, finding: Finding, cancelled: bool)
    requires
        sound(m),
        may_settle(m, job),
    ensures
        ({
            let n = settled(m, job, finding, cancelled);
            let events = settle_events(m, job, finding, cancelled);
            let found = n.hits.len() > m.hits.len();
            let due = n.done % 5000 == 0;
            let hit = EventModel::PortHit(n.hits.last());
            let progress = EventModel::Progress {
                pass: m.pass,
                done: n.done as usize,
                total: m.work.len() as usize,
            };
            &&& found && due ==> events == seq![hit, progress]
            &&& found && !due ==> events == seq![hit]
            &&& !found && due ==> events == seq![progress]
            &&& !found && !due ==> events.len() == 0
        }),
{
    let n = settled(m, job, finding, cancelled);
    let events = settle_events(m, job, finding, cancelled);
    let hit = EventModel::PortHit(n.hits.last());
    let progress = EventModel::Progress {
        pass: m.pass,
        done: n.done as usize,
        total: m.work.len() as usize,
    };
    assert(events =~= (if n.hits.len() > m.hits.len() {
        seq![hit]
    } else {
        Seq::empty()
    }) + (if n.done % 5000 == 0 {
        seq![progress]
    } else {
        Seq::empty()
    }));
    assert(seq![hit] + seq![progress] =~= seq![hit, progress]);
    assert(seq![hit] + Seq::empty() =~= seq![hit]);
    assert(Seq::empty() + seq![progress] =~= seq![progress]);
}

/// When there is a second pass: some items timed out in the first, the scan was not cancelled,
/// and it does not stop at the first ADB port with one found. It begins with those items, none
/// of them claimed, keeps the hits, and is announced with their number and the long timeout.
/// When it is left out though items timed out, their number is reported and the reason: an ADB
/// port, if that ended the scan, else that it was cancelled.
pub proof fn law_between_passes(m: ScanModel, cancelled: bool)
    ensures
        ({
            let n = after_first_pass(m, cancelled);
            let e = after_first_pass_event(m, cancelled);
            let ended = m.cfg.stop_on_first && exists|i: int|
                0 <= i < m.hits.len() && (#[trigger] m.hits[i]).kind != AdbKind::Open;
            let count = m.pending.len() as usize;
            &&& m.pending.len() == 0 ==> n == m && e is None
            &&& m.pending.len() > 0 && !cancelled && !ended ==> {
                &&& n.pass == 2 && n.work == m.pending && n.next == 0 && n.done == 0
                &&& n.held == Set::<usize>::empty() && n.pending.len() == 0
                &&& n.cfg == m.cfg && n.hits == m.hits && n.stopped == m.stopped
                &&& e == Some(
                    EventModel::PassStarted {
                        pass: 2,
                        work_items: count,
                        timeout: m.cfg.slow_timeout,
                    },
                )
            }
            &&& m.pending.len() > 0 && ended ==> n == m && e == Some(
                EventModel::PassSkipped {
                    pass: 2,
                    remaining: count,
                    reason: PassSkipReason::HitFound,
                },
            )
            &&& m.pending.len() > 0 && cancelled && !ended ==> n == m && e == Some(
                EventModel::PassSkipped {
                    pass: 2,
                    remaining: count,
                    reason: PassSkipReason::Cancelled,
                },
            )
        }),
{
    let ended = exists|i: int|
        0 <= i < m.hits.len() && (#[trigger] m.hits[i]).kind != AdbKind::Open;
    if ended {
        let i = choose|i: int| 0 <= i < m.hits.len() && (#[trigger] m.hits[i]).kind
            != AdbKind::Open;
        assert(speaks_adb(m.hits[i].kind));
    } else if any_adb(m.hits) {
        let i = choose|i: int| 0 <= i < m.hits.len() && speaks_adb((#[trigger] m.hits[i]).kind);
        assert(m.hits[i].kind != AdbKind::Open);
    }
}

/// How a scan begins: in the first pass, with every port of every target before it, nothing
/// claimed, done or found.
pub proof fn law_scan_begins(cfg: CfgModel, t: int, i: int)
    requires
        cfg.targets.len() <= usize::MAX,
        0 <= t < cfg.targets.len(),
        0 <= i < cfg.ports.len(),
    ensures
        ({
            let m = initial(cfg);
            &&& m.cfg == cfg && m.pass == 1 && m.next == 0 && m.done == 0 && !m.stopped
            &&& m.held == Set::<usize>::empty() && m.hits.len() == 0 && m.pending.len() == 0
            &&& m.work.len() == cfg.targets.len() * cfg.ports.len()
            &&& m.work[t * cfg.ports.len() + i] == (Work {
                target_idx: t as usize,
                port: cfg.ports[i],
            })
        }),
{
    law_every_pair_listed(cfg.targets.len() as int, cfg.ports, t, i);
}

/// What a claim hands out and changes: the next item in turn becomes held, with the address of
/// its target, its port, and the timeout of the pass, short in the first and long in the
/// second; nothing is handed out, and nothing changes, once the items are used up or the scan
/// is to stop.
pub proof fn law_claiming(m: ScanModel, cancelled: bool)
    requires
        sound(m),
    ensures
        ({
            let n = stepped(m, Step::Claim(cancelled));
            let job = next_job(m, cancelled);
            &&& m.stopped || cancelled || m.next == m.work.len() ==> job is None && n == m
            &&& !m.stopped && !cancelled && m.next < m.work.len() ==> {
                let w = m.work[m.next];
                let t = m.cfg.targets[w.target_idx as int];
                &&& job is Some
                &&& job->0.pass == m.pass
                &&& job->0.index == m.next
                &&& job->0.work == w
                &&& t.ip is V4 ==> job->0.addr is V4 && IpAddr::V4(job->0.addr->V4_0.ip) == t.ip
                    && job->0.addr->V4_0.port == w.port
                &&& t.ip is V6 ==> job->0.addr is V6 && IpAddr::V6(job->0.addr->V6_0.ip) == t.ip
                    && job->0.addr->V6_0.port == w.port && (t.zone is Some
                    ==> job->0.addr->V6_0.scope_id == t.zone->0)
                &&& m.pass == 1 ==> job->0.timeout == m.cfg.fast_timeout
                &&& m.pass == 2 ==> job->0.timeout == m.cfg.slow_timeout
                &&& n.next == m.next + 1
                &&& n.held == m.held.insert(m.next as usize)
                &&& n.cfg == m.cfg && n.work == m.work && n.pass == m.pass && n.done == m.done
                &&& n.stopped == m.stopped && n.hits == m.hits && n.pending == m.pending
            }
        }),
{
}

/// Which jobs may be settled: those of the current pass that are held, for the item at their
/// place.
pub proof fn law_who_may_settle(m: ScanModel, job: Job)
    ensures
        may_settle(m, job) <==> {
            &&& job.pass == m.pass
            &&& m.held.contains(job.index)
            &&& m.work[job.index as int] == job.work
        },
{
}

/// How many threads a pass gets: the configured number where there are as many items, else one
/// for each item; but never none.
pub proof fn law_pass_threads(m: ScanModel)
    ensures
        m.cfg.threads >= 1 && m.work.len() >= m.cfg.threads ==> pass_threads(m) == m.cfg.threads,
        m.work.len() >= 1 && m.cfg.threads >= m.work.len() ==> pass_threads(m) == m.work.len(),
        m.cfg.threads == 0 || m.work.len() == 0 ==> pass_threads(m) == 1,
{
}

/// The number of items is exact where it can be held, and the largest number there is where it
/// cannot.
pub proof fn law_item_count(targets: int, ports: int)
    requires
        0 <= targets,
        0 <= ports,
    ensures
        targets * ports <= usize::MAX ==> item_count(targets, ports) == targets * ports,
        targets * ports > usize::MAX ==> item_count(targets, ports) == usize::MAX,
{
}

/// The console lines: each holds the numbers of its event in decimal, a hit also the target as
/// it is shown and a tag for its kind.
pub proof fn law_console_lines(
    pass: u8,
    a: usize,
    b: usize,
    timeout: u64,
    h: HitModel,
    reason: PassSkipReason,
)
    ensures
        ({
            let (x, y) = (text::decimal_text(a as nat), text::decimal_text(b as nat));
            let (t, p) = (text::decimal_text(timeout as nat), text::decimal_text(h.port as nat));
            &&& event_line(EventModel::PassStarted { pass: 1, work_items: a, timeout })
                == "[Pass 1/2] "@ + x + " 工作项, 快速连接超时 "@ + t + "ms"@
            &&& event_line(EventModel::PassStarted { pass: 2, work_items: a, timeout })
                == "[Pass 2/2] 对 "@ + x + " 个无响应端口用 "@ + t + "ms 超时复扫"@
            &&& event_line(EventModel::Progress { pass, done: a, total: b }) == "  进度 "@ + x
                + "/"@ + y
            &&& event_line(EventModel::PortHit(h)) == "  发现 "@ + h.target.display + ":"@ + p
                + " "@ + (if h.kind == AdbKind::Plain {
                "[ADB-Plain]"@
            } else if h.kind == AdbKind::Tls {
                "[ADB-TLS]"@
            } else {
                "[open]"@
            })
            &&& event_line(EventModel::PassSkipped { pass, remaining: a, reason })
                == "[Pass 2/2] 跳过 (已命中或被中断, 剩余 "@ + x + " 个未复扫)"@
            &&& event_line(EventModel::ThreadsSpawned { pass, requested: a, actual: b })
                == "  注意: 申请 "@ + x + " 线程，实际起了 "@ + y + " (系统资源限制)"@
        }),
{
}

/// What a configuration starts with: no thread count of its own, 100 ms for the first pass,
/// 800 ms for the second and for the handshakes, ports verified, stop at the first ADB port.
/// Completing it keeps everything that was set, and sizes the stacks for the thread count.
pub proof fn law_configuration(
    targets: Vec<Target>,
    ports: Arc<Vec<u16>>,
    b: ScanCfgBuilder,
    machine: Machine,
)
    ensures
        ({
            let s = started(targets, ports);
            &&& s.targets == targets && s.ports == ports && s.threads is None
            &&& s.fast_timeout == 100 && s.slow_timeout == 800 && s.verify_timeout == 800
            &&& s.verify_adb && s.stop_on_first
        }),
        ({
            let c = built(b, machine);
            &&& c.targets == b.targets && c.ports == b.ports
            &&& c.fast_timeout == b.fast_timeout && c.slow_timeout == b.slow_timeout
            &&& c.verify_timeout == b.verify_timeout && c.verify_adb == b.verify_adb
            &&& c.stop_on_first == b.stop_on_first
            &&& b.threads is Some ==> c.threads == b.threads->0
            &&& b.threads is None ==> 1 <= c.threads <= 65535
            &&& c.stack_size == (if c.threads > 2000 {
                262144int
            } else {
                1048576int
            })
        }),
{
    assert(b.targets@.len() * b.ports@.len() >= 0) by (nonlinear_arith);
    threads::law_auto_count_bounds(
        machine,
        item_count(b.targets@.len() as int, b.ports@.len() as int),
    );
}

/// What is announced: the first pass with the number of its items and the short timeout, unless
/// there are none; and the number of threads that were asked for and that were started, exactly
/// when one could not be started.
pub proof fn law_announcements(m: ScanModel, actual: usize)
    ensures
        m.work.len() == 0 <==> first_event(m) is None,
        m.work.len() > 0 ==> first_event(m) == Some(
            EventModel::PassStarted {
                pass: 1,
                work_items: m.work.len() as usize,
                timeout: m.cfg.fast_timeout,
            },
        ),
        spawn_event(m, actual, true) == Some(
            EventModel::ThreadsSpawned { pass: m.pass, requested: m.cfg.threads, actual },
        ),
        spawn_event(m, actual, false) is None,
{
}

/// The thread count of a configuration: the one that was set, or the automatic one for all its
/// items.
pub proof fn law_thread_count(b: ScanCfgBuilder, machine: Machine, n: usize)
    ensures
        b.threads == Some(n) ==> b.thread_count(machine) == n,
        b.threads is None && b.targets@.len() * b.ports@.len() <= usize::MAX ==> b.thread_count(
            machine,
        ) == threads::auto_count(machine, (b.targets@.len() * b.ports@.len()) as int),
{
}

} // verus!
