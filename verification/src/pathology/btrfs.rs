//! btrfs conditions that stall IO while `df` reports plenty of free space.

use vstd::prelude::*;

use crate::decimal::fixed;
use crate::float::{Double, at_most, product, quotient, whole};
use crate::path::{file_name, last_name};
use crate::pathology::thermal;
use crate::pathology::{Finding, Severity, Warning, findings};
use crate::text::{copy_text, decimal, decimal_text, from_chars, parse_u64, to_chars, trim, trimmed};
use crate::text;

verus! {

/// Warn below this share of the device left unallocated.
pub const UNALLOCATED_FLOOR_PCT: u64 = 1;

/// Discard backlog large enough to be worth explaining. Below this the queue
/// drains before anyone notices.
pub const DISCARD_EXTENT_FLOOR: u64 = 10_000;

/// The number that a file holds, if it could be read and holds one.
pub open spec fn number_in(body: Option<String>) -> Option<nat> {
    match body {
        Some(b) => parse_u64(trim(b@)),
        None => None,
    }
}

/// See [`number_in`].
pub fn read_u64(body: &Option<String>) -> (r: Option<u64>)
    ensures
        r is Some == number_in(*body) is Some,
        r matches Some(n) ==> n == number_in(*body)->0,
{
    match body {
        Some(b) => text::read_u64(trimmed(&to_chars(b.as_str()))),
        None => None,
    }
}

/// A btrfs filesystem, as its files under `/sys/fs/btrfs/<fsid>` read.
#[derive(Debug)]
pub struct Filesystem {
    pub path: String,
    /// Is there an `allocation` directory? The listing also holds a `features`
    /// directory that is no filesystem, and this tells them apart.
    pub has_allocation: bool,
    pub discardable_extents: Option<String>,
    pub discardable_bytes: Option<String>,
    pub iops_limit: Option<String>,
    pub data_total: Option<String>,
    pub metadata_total: Option<String>,
    pub system_total: Option<String>,
    /// The size of each device, in sectors of 512 bytes.
    pub device_sectors: Vec<Option<String>>,
}

/// A number that a file holds, zero where there is none.
pub open spec fn number_or_zero(body: Option<String>) -> nat {
    match number_in(body) {
        Some(n) => n,
        None => 0,
    }
}

/// A sum that stops at the largest `u64`.
pub open spec fn capped(n: nat) -> nat {
    if n <= u64::MAX {
        n
    } else {
        u64::MAX as nat
    }
}

/// The bytes on some devices.
pub open spec fn device_bytes(sectors: Seq<Option<String>>) -> nat
    decreases sectors.len(),
{
    if sectors.len() == 0 {
        0
    } else {
        capped(device_bytes(sectors.drop_last()) + capped(number_or_zero(sectors.last()) * 512))
    }
}

/// How long a discard backlog will take, where there is a limit to go by.
pub open spec fn eta_text(extents: nat, iops: nat) -> Seq<char> {
    if iops == 0 {
        ""@
    } else {
        " At the "@ + decimal(iops) + " IOPS limit that is roughly "@ + decimal(
            extents / iops / 60 + 1,
        ) + " min."@
    }
}

/// What is said of a discard backlog.
pub open spec fn discard_message(label: Seq<char>, extents: nat, bytes: nat, iops: nat) -> Seq<
    char,
> {
    label + " is working through an async discard (TRIM) backlog: "@ + decimal(extents)
        + " extents / "@ + fixed(quotient(whole(bytes as int), whole(1_073_741_824)), 1)
        + " GiB still queued after a large delete. This runs in the kernel, so the disk looks busy while no process shows IO delay. It clears on its own — do not go hunting for a runaway program."@
        + eta_text(extents, iops)
}

/// The share that is left, in percent.
pub open spec fn share_left(left: nat, size: nat) -> Double {
    product(quotient(whole(left as int), whole(size as int)), whole(100))
}

/// What is said of a device that is all but allocated.
pub open spec fn allocation_message(label: Seq<char>, left: nat, size: nat) -> Seq<char> {
    label + ": only "@ + fixed(quotient(whole(left as int), whole(1_048_576)), 1) + " MiB of "@
        + fixed(quotient(whole(size as int), whole(1_073_741_824)), 0)
        + " GiB is unallocated ("@ + fixed(share_left(left, size), 2)
        + "%). Every block group is claimed, so writes stall searching fragmented chunks even though df shows free space. Deleting files alone will not fix this — freeing data inside a chunk does not release the chunk. Reclaim space first, then: sudo btrfs balance start -dusage=50 -musage=50 <mountpoint>"@
}

impl Filesystem {
    /// The name it goes by.
    pub open spec fn label(&self) -> Seq<char> {
        match file_name(self.path@) {
            Some(n) => n,
            None => "btrfs"@,
        }
    }

    /// Bytes claimed by block groups, where all three figures are there.
    /// The figures are adjusted for the replication profile already.
    pub open spec fn allocated(&self) -> Option<nat> {
        if number_in(self.data_total) is Some && number_in(self.metadata_total) is Some
            && number_in(self.system_total) is Some {
            Some(
                capped(
                    capped(number_in(self.data_total)->0 + number_in(self.metadata_total)->0)
                        + number_in(self.system_total)->0,
                ),
            )
        } else {
            None
        }
    }

    /// What there is to report of its discard backlog. It is transient, which
    /// is the most important thing to tell someone staring at a busy disk.
    pub open spec fn discard_finding(&self, label: Seq<char>) -> Option<Finding> {
        match number_in(self.discardable_extents) {
            None => None,
            Some(extents) => if extents < DISCARD_EXTENT_FLOOR {
                None
            } else {
                Some(
                    Finding {
                        source: "btrfs"@,
                        severity: Severity::Note,
                        transient: true,
                        message: discard_message(
                            label,
                            extents,
                            number_or_zero(self.discardable_bytes),
                            number_or_zero(self.iops_limit),
                        ),
                    },
                )
            },
        }
    }

    /// What there is to report of its allocation.
    pub open spec fn allocation_finding(&self, label: Seq<char>) -> Option<Finding> {
        match self.allocated() {
            None => None,
            Some(allocated) => {
                let size = device_bytes(self.device_sectors@);
                if size == 0 || allocated > size {
                    None
                } else {
                    let left = (size - allocated) as nat;
                    if at_most(whole(UNALLOCATED_FLOOR_PCT as int), share_left(left, size)) {
                        None
                    } else {
                        Some(
                            Finding {
                                source: "btrfs"@,
                                severity: Severity::Warn,
                                transient: false,
                                message: allocation_message(label, left, size),
                            },
                        )
                    }
                }
            },
        }
    }

    /// What there is to report of it.
    pub open spec fn findings(&self) -> Seq<Finding> {
        if !self.has_allocation {
            seq![]
        } else {
            as_list(self.discard_finding(self.label())) + as_list(
                self.allocation_finding(self.label()),
            )
        }
    }

    /// Async discard (TRIM) backlog.
    ///
    /// After a large delete btrfs hands the freed extents to a rate-limited
    /// background worker. That worker runs in the kernel, so the disk shows
    /// heavy utilisation while no userspace process has any IO delay at all.
    pub fn check_discard(&self, label: &str) -> (r: Option<Warning>)
        ensures
            thermal::found(r) == self.discard_finding(label@),
    {
        let extents: u64 = match read_u64(&self.discardable_extents) {
            None => return None,
            Some(n) => n,
        };
        if extents < DISCARD_EXTENT_FLOOR {
            return None;
        }
        let bytes: u64 = or_zero(&self.discardable_bytes);
        let iops: u64 = or_zero(&self.iops_limit);
        let mut eta: String = copy_text("");
        if iops > 0 {
            let minutes: u64 = extents / iops / 60;
            proof {
                assert(extents / iops / 60 <= u64::MAX / 60) by (nonlinear_arith)
                    requires
                        iops > 0,
                        extents <= u64::MAX,
                ;
            }
            eta = copy_text(" At the ");
            eta.push_str(decimal_text(iops).as_str());
            eta.push_str(" IOPS limit that is roughly ");
            eta.push_str(decimal_text(minutes + 1).as_str());
            eta.push_str(" min.");
        }
        let gib: Double = Double::from_u64(bytes).over(&Double::from_u64(1_073_741_824));
        let mut m: String = copy_text(label);
        m.push_str(" is working through an async discard (TRIM) backlog: ");
        m.push_str(decimal_text(extents).as_str());
        m.push_str(" extents / ");
        m.push_str(gib.to_fixed(1).as_str());
        m.push_str(
            " GiB still queued after a large delete. This runs in the kernel, so the disk looks busy while no process shows IO delay. It clears on its own — do not go hunting for a runaway program.",
        );
        m.push_str(eta.as_str());
        Some(
            Warning {
                source: copy_text("btrfs"),
                severity: Severity::Note,
                transient: true,
                message: m,
            },
        )
    }

    /// See [`Filesystem::allocated`].
    pub fn sum_allocated(&self) -> (r: Option<u64>)
        ensures
            r is Some == self.allocated() is Some,
            r matches Some(n) ==> n == self.allocated()->0,
    {
        let data: u64 = match read_u64(&self.data_total) {
            None => return None,
            Some(n) => n,
        };
        let metadata: u64 = match read_u64(&self.metadata_total) {
            None => return None,
            Some(n) => n,
        };
        let system: u64 = match read_u64(&self.system_total) {
            None => return None,
            Some(n) => n,
        };
        Some(data.saturating_add(metadata).saturating_add(system))
    }

    /// Block-group allocation exhaustion.
    ///
    /// btrfs carves the device into block groups up front. Once every byte is
    /// claimed, writes stall searching for room inside fragmented existing
    /// groups even though `df` still reports free space.
    pub fn check_allocation(&self, label: &str) -> (r: Option<Warning>)
        ensures
            thermal::found(r) == self.allocation_finding(label@),
    {
        let allocated: u64 = match self.sum_allocated() {
            None => return None,
            Some(n) => n,
        };
        let size: u64 = sum_devices(&self.device_sectors);
        if size == 0 || allocated > size {
            return None;
        }
        let left: u64 = size - allocated;
        let pct: Double = Double::from_u64(left).over(&Double::from_u64(size)).times(
            &Double::from_u64(100),
        );
        if pct.at_least(UNALLOCATED_FLOOR_PCT) {
            return None;
        }
        let mib: Double = Double::from_u64(left).over(&Double::from_u64(1_048_576));
        let gib: Double = Double::from_u64(size).over(&Double::from_u64(1_073_741_824));
        let mut m: String = copy_text(label);
        m.push_str(": only ");
        m.push_str(mib.to_fixed(1).as_str());
        m.push_str(" MiB of ");
        m.push_str(gib.to_fixed(0).as_str());
        m.push_str(" GiB is unallocated (");
        m.push_str(pct.to_fixed(2).as_str());
        m.push_str(
            "%). Every block group is claimed, so writes stall searching fragmented chunks even though df shows free space. Deleting files alone will not fix this — freeing data inside a chunk does not release the chunk. Reclaim space first, then: sudo btrfs balance start -dusage=50 -musage=50 <mountpoint>",
        );
        Some(
            Warning {
                source: copy_text("btrfs"),
                severity: Severity::Warn,
                transient: false,
                message: m,
            },
        )
    }
}

/// What there is, as a list.
pub open spec fn as_list(f: Option<Finding>) -> Seq<Finding> {
    match f {
        Some(f) => seq![f],
        None => seq![],
    }
}

/// What there is to report of all filesystems.
pub open spec fn all_findings(fs: Seq<Filesystem>) -> Seq<Finding>
    decreases fs.len(),
{
    if fs.len() == 0 {
        seq![]
    } else {
        all_findings(fs.drop_last()) + fs.last().findings()
    }
}

fn or_zero(body: &Option<String>) -> (r: u64)
    ensures
        r == number_or_zero(*body),
{
    match read_u64(body) {
        Some(n) => n,
        None => 0,
    }
}

/// See [`device_bytes`].
pub fn sum_devices(sectors: &Vec<Option<String>>) -> (r: u64)
    ensures
        r == device_bytes(sectors@),
{
    let mut total: u64 = 0;
    let mut i: usize = 0;
    assert(sectors@.take(0) =~= seq![]);
    while i < sectors.len()
        invariant
            i <= sectors@.len(),
            total == device_bytes(sectors@.take(i as int)),
        decreases sectors@.len() - i,
    {
        let n: u64 = or_zero(&sectors[i]);
        let bytes: u64 = if n <= u64::MAX / 512 {
            n * 512
        } else {
            u64::MAX
        };
        total = total.saturating_add(bytes);
        proof {
            let t = sectors@.take(i + 1);
            assert(t.drop_last() =~= sectors@.take(i as int));
        }
        i += 1;
    }
    assert(sectors@.take(i as int) =~= sectors@);
    total
}

fn push_found(out: &mut Vec<Warning>, w: Option<Warning>)
    ensures
        findings(final(out)@) == findings(old(out)@) + as_list(thermal::found(w)),
{
    let ghost before = out@;
    match w {
        Some(w) => {
            out.push(w);
            assert(findings(out@) =~= findings(before) + seq![w@]);
        },
        None => {
            assert(findings(out@) =~= findings(before) + seq![]);
        },
    }
}

/// The btrfs conditions worth reporting.
pub fn check(filesystems: &Vec<Filesystem>) -> (r: Vec<Warning>)
    ensures
        findings(r@) == all_findings(filesystems@),
{
    let mut out: Vec<Warning> = Vec::new();
    let mut i: usize = 0;
    assert(filesystems@.take(0) =~= seq![]);
    assert(findings(out@) =~= seq![]);
    while i < filesystems.len()
        invariant
            i <= filesystems@.len(),
            findings(out@) == all_findings(filesystems@.take(i as int)),
        decreases filesystems@.len() - i,
    {
        let fs: &Filesystem = &filesystems[i];
        let ghost before = findings(out@);
        let ghost t = filesystems@.take(i + 1);
        assert(t.drop_last() =~= filesystems@.take(i as int));
        if fs.has_allocation {
            let label: String = match last_name(&to_chars(fs.path.as_str())) {
                Some(n) => from_chars(&n),
                None => copy_text("btrfs"),
            };
            push_found(&mut out, fs.check_discard(label.as_str()));
            push_found(&mut out, fs.check_allocation(label.as_str()));
        }
        assert(findings(out@) =~= before + fs.findings());
        i += 1;
    }
    assert(filesystems@.take(i as int) =~= filesystems@);
    out
}

} // verus!
