//! Finds the ADB wireless-debugging port of an Android device on the local network.
//!
//! The library holds what is decided and computed: the targets and ports to scan, the course
//! of a scan, the two handshakes that tell an ADB port from another, discovery by multicast
//! DNS, the command line and the state of the floating window. It opens no socket, starts no
//! thread and draws nothing: its callers do, and hand in what they got.
//!
//! A scan goes as follows. `Scan::new` takes a configuration, `begin` gives the first event.
//! Workers `claim` jobs, try to connect, ask `after_connect` what to do, probe if so told,
//! and `settle` the job. When none is left, `next_pass` sets up the second pass, and `finish`
//! gives the hits.
pub mod addr;
pub mod cli;
pub mod detect;
pub mod error;
pub mod gui;
pub mod mdns;
pub mod ports;
pub mod ranking;
pub mod scan;
pub mod target;
pub mod text;
pub mod threads;

pub use crate::cli::{parse_args as parse_cli_args, ParsedArgs, ScanOptions, ThreadArg};
pub use crate::detect::{probe, AdbKind};
pub use crate::error::TargetError;
pub use crate::mdns::{AdbService, AdbServiceKind};
pub use crate::ports::default_ports;
pub use crate::scan::{Hit, PassSkipReason, Scan, ScanCfg, ScanCfgBuilder, ScanEvent};
pub use crate::target::{parse_targets, Target, CIDR_MAX_ADDRESSES};
pub use crate::threads::{auto_threads, stack_size_for, ThreadDecision, HARD_MAX_THREADS};
