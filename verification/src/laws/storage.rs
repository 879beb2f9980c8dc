//! When a condition of the storage is reported, told from the figures read.

use vstd::arithmetic::power2::lemma_pow2_pos;
use vstd::prelude::*;

use crate::float::{at_most, lemma_whole_one, one, quotient, whole};
use crate::laws::numbers::{
    is_about, lemma_percent_is_true, lemma_quotient_is_true, lemma_shows, percent_of, shows,
};
use crate::pathology::btrfs::{
    self, Filesystem, device_bytes, number_in, number_or_zero, share_left,
};
use crate::pathology::{Finding, Severity};
use crate::text::decimal;

verus! {

// ── how much of a filesystem is claimed ────────────────────────────────

/// The bytes on some devices, of 512 in each sector; unreadable ones count
/// nothing.
pub open spec fn bytes_on(sectors: Seq<Option<String>>) -> nat {
    sectors.fold_left(0nat, |n: nat, s: Option<String>| n + 512 * number_or_zero(s))
}

proof fn lemma_bytes_on(sectors: Seq<Option<String>>)
    ensures
        bytes_on(sectors) <= u64::MAX ==> device_bytes(sectors) == bytes_on(sectors),
        bytes_on(sectors) > u64::MAX ==> device_bytes(sectors) == u64::MAX,
    decreases sectors.len(),
{
    reveal_with_fuel(Seq::fold_left, 2);
    if sectors.len() > 0 {
        lemma_bytes_on(sectors.drop_last());
    }
}

/// The bytes that block groups have claimed, if all three figures are there.
pub open spec fn claimed(f: Filesystem) -> Option<nat> {
    match (number_in(f.data_total), number_in(f.metadata_total), number_in(f.system_total)) {
        (Some(d), Some(m), Some(s)) => Some((d + m + s) as nat),
        _ => None,
    }
}

proof fn lemma_share_left(left: nat, size: nat)
    requires
        0 < size <= u64::MAX,
        left <= size,
    ensures
        is_about(share_left(left, size), 100 * left, size),
        10_000_000 * left >= 100_001 * size ==> at_most(whole(1), share_left(left, size)),
        at_most(whole(1), share_left(left, size)) ==> 10_000_100 * left >= 100_000 * size,
{
    let v = share_left(left, size);
    assert(v == percent_of(left as int, size as int));
    lemma_percent_is_true(left, size);
    lemma_whole_one();
    lemma_pow2_pos(1074);
    let o = one() as int;
    let x = v.value();
    let w = size as int;
    let n = 100 * left as int;
    if 100_000 * n >= 100_001 * w {
        assert(x >= o) by (nonlinear_arith)
            requires
                100_001 * (x * w) >= 100_000 * (n * o),
                100_000 * n >= 100_001 * w,
                w > 0,
                o >= 0,
        ;
    }
    if x >= o {
        assert(100_001 * n >= 100_000 * w) by (nonlinear_arith)
            requires
                100_000 * (x * w) <= 100_001 * (n * o),
                x >= o,
                w > 0,
                o > 0,
        ;
    }
}

/// **A filesystem that is all but claimed is reported, whatever its size.** What
/// counts is the share that is left: below one percent there is a warning with
/// the figures, above one percent there is none. Nothing is said where a figure
/// is missing, where no device has a size, or where more is claimed than there
/// is.
#[verifier::rlimit(50)]
pub proof fn lemma_a_claimed_filesystem_is_reported(f: Filesystem, label: Seq<char>)
    requires
        bytes_on(f.device_sectors@) <= u64::MAX,
        claimed(f) is Some ==> claimed(f)->0 <= u64::MAX,
    ensures
        ({
            let size = bytes_on(f.device_sectors@);
            let found = f.allocation_finding(label);
            &&& claimed(f) is None ==> found is None
            &&& size == 0 ==> found is None
            &&& claimed(f) is Some && claimed(f)->0 > size ==> found is None
            &&& claimed(f) is Some && size > 0 && claimed(f)->0 <= size ==> {
                let left = (size - claimed(f)->0) as nat;
                &&& 10_000_100 * left < 100_000 * size ==> found is Some
                &&& 10_000_000 * left >= 100_001 * size ==> found is None
                &&& found matches Some(w) ==> {
                    &&& w.source == "btrfs"@
                    &&& w.severity == Severity::Warn
                    &&& !w.transient
                    &&& exists|mib: Seq<char>, gib: Seq<char>, pct: Seq<char>| #[trigger]
                        shows(mib, left, 1_048_576, 1) && #[trigger] shows(
                            gib,
                            size,
                            1_073_741_824,
                            0,
                        ) && #[trigger] shows(pct, 100 * left, size, 2) && w.message == label
                            + ": only "@ + mib + " MiB of "@ + gib + " GiB is unallocated ("@ + pct
                            + "%). Every block group is claimed, so writes stall searching fragmented chunks even though df shows free space. Deleting files alone will not fix this — freeing data inside a chunk does not release the chunk. Reclaim space first, then: sudo btrfs balance start -dusage=50 -musage=50 <mountpoint>"@
                }
            }
        }),
{
    lemma_bytes_on(f.device_sectors@);
    let size = bytes_on(f.device_sectors@);
    if claimed(f) is Some && size > 0 && claimed(f)->0 <= size {
        let left = (size - claimed(f)->0) as nat;
        lemma_share_left(left, size);
        lemma_quotient_is_true(left, 1_048_576);
        lemma_quotient_is_true(size, 1_073_741_824);
        let a = quotient(whole(left as int), whole(1_048_576));
        let b = quotient(whole(size as int), whole(1_073_741_824));
        let c = share_left(left, size);
        lemma_shows(a, left, 1_048_576, 1);
        lemma_shows(b, size, 1_073_741_824, 0);
        lemma_shows(c, 100 * left, size, 2);
        assert(shows(crate::decimal::fixed(a, 1), left, 1_048_576, 1));
        assert(shows(crate::decimal::fixed(b, 0), size, 1_073_741_824, 0));
        assert(shows(crate::decimal::fixed(c, 2), 100 * left, size, 2));
    }
}

/// **A discard backlog of ten thousand extents is reported**, as a note that
/// passes, with the bytes queued and, where there is a limit, the minutes it
/// takes. A smaller one is not.
pub proof fn lemma_a_discard_backlog_is_reported(f: Filesystem, label: Seq<char>)
    requires
        number_or_zero(f.discardable_bytes) <= u64::MAX,
    ensures
        ({
            let found = f.discard_finding(label);
            &&& found is Some <==> number_in(f.discardable_extents) is Some && number_in(
                f.discardable_extents,
            )->0 >= 10_000
            &&& found matches Some(w) ==> {
                let extents = number_in(f.discardable_extents)->0;
                let iops = number_or_zero(f.iops_limit);
                &&& w.source == "btrfs"@
                &&& w.severity == Severity::Note
                &&& w.transient
                &&& exists|gib: Seq<char>| #[trigger]
                    shows(gib, number_or_zero(f.discardable_bytes), 1_073_741_824, 1) && w.message
                        == label + " is working through an async discard (TRIM) backlog: "@
                        + decimal(extents) + " extents / "@ + gib
                        + " GiB still queued after a large delete. This runs in the kernel, so the disk looks busy while no process shows IO delay. It clears on its own — do not go hunting for a runaway program."@
                        + if iops == 0 {
                        ""@
                    } else {
                        " At the "@ + decimal(iops) + " IOPS limit that is roughly "@ + decimal(
                            extents / iops / 60 + 1,
                        ) + " min."@
                    }
            }
        }),
{
    let bytes = number_or_zero(f.discardable_bytes);
    lemma_quotient_is_true(bytes, 1_073_741_824);
    let v = quotient(whole(bytes as int), whole(1_073_741_824));
    lemma_shows(v, bytes, 1_073_741_824, 1);
    assert(shows(crate::decimal::fixed(v, 1), bytes, 1_073_741_824, 1));
}

/// **Every filesystem is looked at, and nothing else.** What has no allocation
/// directory is no filesystem.
pub proof fn lemma_every_filesystem_is_looked_at(fs: Seq<Filesystem>, i: int)
    requires
        0 <= i < fs.len(),
        fs[i].has_allocation,
    ensures
        fs[i].discard_finding(fs[i].label()) is Some ==> btrfs::all_findings(fs).contains(
            fs[i].discard_finding(fs[i].label())->0,
        ),
        fs[i].allocation_finding(fs[i].label()) is Some ==> btrfs::all_findings(fs).contains(
            fs[i].allocation_finding(fs[i].label())->0,
        ),
    decreases fs.len(),
{
    let rest = btrfs::all_findings(fs.drop_last());
    let last = fs.last().findings();
    let d = fs[i].discard_finding(fs[i].label());
    let a = fs[i].allocation_finding(fs[i].label());
    if i < fs.len() - 1 {
        lemma_every_filesystem_is_looked_at(fs.drop_last(), i);
        assert(fs.drop_last()[i] == fs[i]);
        if d is Some {
            lemma_in_either(rest, last, d->0);
        }
        if a is Some {
            lemma_in_either(rest, last, a->0);
        }
    } else {
        lemma_in_its_own(fs[i]);
        assert(fs.last() == fs[i]);
        if d is Some {
            lemma_in_either(rest, last, d->0);
        }
        if a is Some {
            lemma_in_either(rest, last, a->0);
        }
    }
}

proof fn lemma_in_either(a: Seq<Finding>, b: Seq<Finding>, w: Finding)
    ensures
        a.contains(w) || b.contains(w) ==> (a + b).contains(w),
{
    if a.contains(w) {
        let k = choose|k: int| 0 <= k < a.len() && a[k] == w;
        assert((a + b)[k] == w);
    }
    if b.contains(w) {
        let k = choose|k: int| 0 <= k < b.len() && b[k] == w;
        assert((a + b)[a.len() + k] == w);
    }
}

proof fn lemma_in_its_own(f: Filesystem)
    requires
        f.has_allocation,
    ensures
        f.discard_finding(f.label()) is Some ==> f.findings().contains(
            f.discard_finding(f.label())->0,
        ),
        f.allocation_finding(f.label()) is Some ==> f.findings().contains(
            f.allocation_finding(f.label())->0,
        ),
{
    let d = f.discard_finding(f.label());
    let a = f.allocation_finding(f.label());
    let x = btrfs::as_list(d);
    let y = btrfs::as_list(a);
    if d is Some {
        assert(x[0] == d->0);
        lemma_in_either(x, y, d->0);
    }
    if a is Some {
        assert(y[0] == a->0);
        lemma_in_either(x, y, a->0);
    }
}

} // verus!
