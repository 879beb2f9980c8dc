//! The "why" layer: system conditions that explain stalls the numbers cannot.
//!
//! Attribution answers *who*. This answers *why*: a cgroup can be stalling on
//! IO because the filesystem allocator is exhausted, because the drive is
//! throttling, or because the kernel is chewing through background TRIM — three
//! different problems that look identical in PSI.
//!
//! # The rule these checks are built around
//!
//! **Do not claim causation from a correlated observation.** Report what is
//! observed, name the command that would confirm or refute it, and let the
//! human draw the conclusion.

use vstd::prelude::*;

pub mod btrfs;
pub mod thermal;

use crate::pathology::btrfs::Filesystem;
use crate::pathology::thermal::Monitor;

verus! {

/// How much attention a finding deserves.
#[derive(Clone, Copy, Debug, PartialEq, Eq, Structural)]
pub enum Severity {
    /// Worth knowing; explicitly not a diagnosis.
    Note,
    /// Likely relevant to a stall being investigated.
    Warn,
    /// A condition that is degrading the system now.
    Critical,
}

impl Severity {
    /// The name on the wire.
    pub open spec fn name(&self) -> Seq<char> {
        match self {
            Severity::Note => "note"@,
            Severity::Warn => "warn"@,
            Severity::Critical => "critical"@,
        }
    }

    /// See [`Severity::name`].
    pub fn as_str(&self) -> (r: &'static str)
        ensures
            r@ == self.name(),
    {
        match self {
            Severity::Note => "note",
            Severity::Warn => "warn",
            Severity::Critical => "critical",
        }
    }
}

/// One explanatory finding about system state.
#[derive(Debug, PartialEq)]
pub struct Warning {
    /// Subsystem it came from: `btrfs`, `nvme`.
    pub source: String,
    pub severity: Severity,
    /// True when the condition clears on its own. Distinguishing "this will
    /// stop by itself in three minutes" from "this needs you to act" is most
    /// of the value of an explanation.
    pub transient: bool,
    /// Plain prose. Written to be read by someone who is annoyed and in a
    /// hurry, not by a monitoring system.
    pub message: String,
}

impl Warning {
    pub fn copy(&self) -> (r: Warning)
        ensures
            r == *self,
    {
        Warning {
            source: self.source.clone(),
            severity: self.severity,
            transient: self.transient,
            message: self.message.clone(),
        }
    }
}

/// A finding as a value to compare with.
pub struct Finding {
    pub source: Seq<char>,
    pub severity: Severity,
    pub transient: bool,
    pub message: Seq<char>,
}

impl View for Warning {
    type V = Finding;

    open spec fn view(&self) -> Finding {
        Finding {
            source: self.source@,
            severity: self.severity,
            transient: self.transient,
            message: self.message@,
        }
    }
}

/// What findings say.
pub open spec fn findings(w: Seq<Warning>) -> Seq<Finding> {
    Seq::new(w.len(), |i: int| w[i]@)
}

/// Run every pathology check on what was read from the system.
///
/// Ordered deliberately: storage conditions first, because they explain the
/// overwhelming majority of desktop IO stalls, and thermal last, because it is
/// the one most likely to be a red herring.
pub fn scan(filesystems: &Vec<Filesystem>, monitors: &Vec<Monitor>) -> (r: Vec<Warning>)
    ensures
        findings(r@) == btrfs::all_findings(filesystems@) + thermal::all_findings(monitors@),
{
    let mut out: Vec<Warning> = btrfs::check(filesystems);
    let mut heat: Vec<Warning> = thermal::check(monitors);
    let ghost a = out@;
    let ghost b = heat@;
    out.append(&mut heat);
    assert(findings(out@) =~= findings(a) + findings(b));
    out
}

} // verus!
