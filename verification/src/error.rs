//! What can be wrong with a scan target, and how to say it.
use vstd::prelude::*;

use crate::text;

verus! {

/// What is wrong with a scan target.
#[derive(Debug, PartialEq, Eq)]
pub enum TargetError {
    Empty,
    InvalidIp(String),
    InvalidCidrHost(String),
    CidrMaskOutOfRange { max: u8, got: u8 },
    CidrTooLarge { count: u64 },
    InvalidIpv6Zone(String),
    Ipv6CidrUnsupported,
    HostResolveFailed { host: String, source: String },
    HostNoResults(String),
}

impl Clone for TargetError {
    fn clone(&self) -> (r: TargetError)
        ensures
            r == *self,
    {
        match self {
            TargetError::Empty => TargetError::Empty,
            TargetError::InvalidIp(s) => TargetError::InvalidIp(s.clone()),
            TargetError::InvalidCidrHost(s) => TargetError::InvalidCidrHost(s.clone()),
            TargetError::CidrMaskOutOfRange { max, got } => TargetError::CidrMaskOutOfRange {
                max: *max,
                got: *got,
            },
            TargetError::CidrTooLarge { count } => TargetError::CidrTooLarge { count: *count },
            TargetError::InvalidIpv6Zone(s) => TargetError::InvalidIpv6Zone(s.clone()),
            TargetError::Ipv6CidrUnsupported => TargetError::Ipv6CidrUnsupported,
            TargetError::HostResolveFailed { host, source } => TargetError::HostResolveFailed {
                host: host.clone(),
                source: source.clone(),
            },
            TargetError::HostNoResults(s) => TargetError::HostNoResults(s.clone()),
        }
    }
}

/// `s` between double quotes, with what cannot be printed escaped.
pub uninterp spec fn quoted_text(s: Seq<char>) -> Seq<char>;

/// Writes a text by the standard library's `Debug` for `str`. Which characters it escapes
/// depends on its tables of printable characters alone, so the result is a function of the
/// text; what it looks like is not stated here.
#[verifier::external_body]
fn quoted(s: &str) -> (r: String)
    ensures
        r@ == quoted_text(s@),
{
    format!("{:?}", s)
}

/// The message for the error `e`.
pub open spec fn message_text(e: TargetError) -> Seq<char> {
    match e {
        TargetError::Empty => "empty input"@,
        TargetError::InvalidIp(s) => "invalid IP literal: "@ + s@,
        TargetError::InvalidCidrHost(s) => cidr_host_text(quoted_text(s@)),
        TargetError::CidrMaskOutOfRange { max, got } => "CIDR mask /"@ + text::decimal_text(
            got as nat,
        ) + " out of range (max /"@ + text::decimal_text(max as nat) + ")"@,
        TargetError::CidrTooLarge { count } => "CIDR contains "@ + text::decimal_text(count as nat)
            + " addresses, exceeds /16 limit (65536)"@,
        TargetError::InvalidIpv6Zone(s) => "IPv6 zone id must be numeric: %"@ + s@,
        TargetError::Ipv6CidrUnsupported => "IPv6 CIDR not supported"@,
        TargetError::HostResolveFailed { host, source } => "hostname "@ + host@
            + " resolve failed: "@ + source@,
        TargetError::HostNoResults(s) => "hostname "@ + s@ + " resolved to no addresses"@,
    }
}

/// The message for a subnet whose host, already quoted, is no address.
pub open spec fn cidr_host_text(quoted: Seq<char>) -> Seq<char> {
    "invalid CIDR host part: "@ + quoted
}

/// The message for a subnet whose host, already quoted, is no address.
pub fn cidr_host_message(quoted: &str) -> (r: String)
    ensures
        r@ == cidr_host_text(quoted@),
{
    text::join2("invalid CIDR host part: ", quoted)
}

impl TargetError {
    /// The error in words.
    pub fn message(&self) -> (r: String)
        ensures
            r@ == message_text(*self),
    {
        match self {
            TargetError::Empty => "empty input".to_owned(),
            TargetError::InvalidIp(s) => text::join2("invalid IP literal: ", s),
            TargetError::InvalidCidrHost(s) => cidr_host_message(&quoted(s)),
            TargetError::CidrMaskOutOfRange { max, got } => {
                let mut m: String = text::join3(
                    "CIDR mask /",
                    &text::decimal(*got as u64),
                    " out of range (max /",
                );
                m.append(&text::decimal(*max as u64));
                m.append(")");
                m
            },
            TargetError::CidrTooLarge { count } => text::join3(
                "CIDR contains ",
                &text::decimal(*count),
                " addresses, exceeds /16 limit (65536)",
            ),
            TargetError::InvalidIpv6Zone(s) => text::join2("IPv6 zone id must be numeric: %", s),
            TargetError::Ipv6CidrUnsupported => "IPv6 CIDR not supported".to_owned(),
            TargetError::HostResolveFailed { host, source } => {
                let mut m: String = text::join3("hostname ", host, " resolve failed: ");
                m.append(source);
                m
            },
            TargetError::HostNoResults(s) => text::join3(
                "hostname ",
                s,
                " resolved to no addresses",
            ),
        }
    }
}

/// The messages name what they are about: each holds the text or the numbers of its error,
/// unchanged, behind what is wrong with them.
pub proof fn law_messages(s: String, t: String, max: u8, got: u8, count: u64)
    ensures
        message_text(TargetError::Empty) == "empty input"@,
        message_text(TargetError::InvalidIp(s)) == "invalid IP literal: "@ + s@,
        message_text(TargetError::InvalidCidrHost(s)) == "invalid CIDR host part: "@ + quoted_text(
            s@,
        ),
        message_text(TargetError::CidrMaskOutOfRange { max, got }) == "CIDR mask /"@
            + text::decimal_text(got as nat) + " out of range (max /"@ + text::decimal_text(
            max as nat,
        ) + ")"@,
        message_text(TargetError::CidrTooLarge { count }) == "CIDR contains "@
            + text::decimal_text(count as nat) + " addresses, exceeds /16 limit (65536)"@,
        message_text(TargetError::InvalidIpv6Zone(s)) == "IPv6 zone id must be numeric: %"@ + s@,
        message_text(TargetError::Ipv6CidrUnsupported) == "IPv6 CIDR not supported"@,
        message_text(TargetError::HostResolveFailed { host: s, source: t }) == "hostname "@ + s@
            + " resolve failed: "@ + t@,
        message_text(TargetError::HostNoResults(s)) == "hostname "@ + s@
            + " resolved to no addresses"@,
{
}

} // verus!
