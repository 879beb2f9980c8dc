//! Prometheus exposition, aligned with the cAdvisor/Kubernetes vocabulary.
//!
//! # Counters, not deltas
//!
//! PSI's `total=` field is already exactly the counter Prometheus wants:
//! monotonic microseconds since boot. So this module reads raw PSI totals
//! rather than reusing [`crate::report::Report`], which is why it does not
//! share the attribution path.
//!
//! # Naming
//!
//! cAdvisor and Kubernetes settled on
//! `container_pressure_{cpu,memory,io}_{waiting,stalled}_seconds_total`, where
//! `waiting` is PSI `some` and `stalled` is PSI `full`. Systemd units are
//! reported here rather than containers, so the prefix differs, but the shape
//! and the vocabulary are deliberately identical.
//!
//! # Cardinality
//!
//! Two defences, both on by default: skip cgroups with zero accumulated
//! pressure, and cap the number of series emitted. `stallwatch_series_dropped`
//! reports what was withheld, because a silent cap is a lie.

use vstd::prelude::*;

use crate::attribution::{sample_paths, sampled_paths};
use crate::cgroup::{Bodies, Sampled, figures, friendly, friendly_name, sample, sampled};
use crate::decimal::fixed;
use crate::float::Double;
use crate::index::{PathIndex, last_places, lemma_last_places};
use crate::oneline::{
    lemma_decimal_ends, lemma_decimal_is_unbroken, lemma_fixed_ends, lemma_fixed_is_unbroken,
    lemma_lines_behind, lemma_single_line, lemma_unbroken_both, unbroken,
};
use crate::path::{
    file_name, in_path_order, last_name, lemma_path_order, lemma_route_one_way, names, normal,
    normalized, order_paths, path_order, path_placed, route_before,
};
use crate::pathology::btrfs::{Filesystem, device_bytes, number_in, read_u64, sum_devices};
use crate::pathology::thermal::{Monitor, Sensor, degrees, is_drive, watches_drive};
use crate::psi::{Psi, PsiKind, Resource, Snapshot};
use crate::report::{seconds, to_seconds};
use crate::span::Span;
use crate::text::{
    copy_text, decimal, from_chars, lines, push_text, push_u128, push_u64, starts_with, texts,
    to_chars, trim, trimmed,
};

verus! {

/// Default ceiling on exported series per resource. Chosen to be comfortable
/// on a desktop and to force a deliberate decision on a dense node.
pub const DEFAULT_MAX_SERIES: usize = 500;

// ── labels ─────────────────────────────────────────────────────────────

/// A character inside a label value: only the backslash, the double quote and
/// the newline are special.
pub open spec fn label_char(c: char) -> Seq<char> {
    if c == '\\' {
        seq!['\\', '\\']
    } else if c == '"' {
        seq!['\\', '"']
    } else if c == '\n' {
        seq!['\\', 'n']
    } else {
        seq![c]
    }
}

/// A label value.
pub open spec fn label_value(v: Seq<char>) -> Seq<char>
    decreases v.len(),
{
    if v.len() == 0 {
        seq![]
    } else {
        label_value(v.drop_last()) + label_char(v.last())
    }
}

/// Escape a Prometheus label value.
pub fn esc(v: &str) -> (r: String)
    ensures
        r@ == label_value(v@),
{
    let chars: Vec<char> = to_chars(v);
    let mut o: String = String::new();
    let mut i: usize = 0;
    assert(o@ =~= label_value(chars@.take(0)));
    while i < chars.len()
        invariant
            i <= chars@.len(),
            o@ == label_value(chars@.take(i as int)),
        decreases chars@.len() - i,
    {
        let c: char = chars[i];
        let ghost before = o@;
        if c == '\\' {
            o.push('\\');
            o.push('\\');
        } else if c == '"' {
            o.push('\\');
            o.push('"');
        } else if c == '\n' {
            o.push('\\');
            o.push('n');
        } else {
            o.push(c);
        }
        proof {
            assert(o@ =~= before + label_char(c));
            assert(chars@.take(i + 1).drop_last() =~= chars@.take(i as int));
        }
        i += 1;
    }
    assert(chars@.take(i as int) =~= v@);
    o
}

// ── pressure ───────────────────────────────────────────────────────────

/// The labels of a series.
pub open spec fn labels(cgroup: Seq<char>, res: Resource) -> Seq<char> {
    "unit=\""@ + label_value(friendly(cgroup)) + "\",cgroup=\""@ + label_value(cgroup)
        + "\",resource=\""@ + res.name() + "\""@
}

/// A line of a family of counters.
pub open spec fn counter_line(family: Seq<char>, labels: Seq<char>, usec: u64) -> Seq<char> {
    family + "{"@ + labels + "} "@ + fixed(seconds(usec), 6) + "\n"@
}

/// The two families of counters, and how many series went into them.
pub struct Series {
    pub waiting: Seq<char>,
    pub stalled: Seq<char>,
    pub emitted: nat,
    pub dropped: nat,
}

/// Whether a resource was ever contended for. If not, emitting it is pure
/// cardinality cost.
pub open spec fn contended(p: Psi) -> bool {
    p.some_total_us != 0 || p.full_total_us != 0
}

/// The series with those of one resource of one cgroup.
///
/// CPU has no 'full' line by construction: a task waiting for CPU implies
/// another is running on it, so total starvation is impossible. A constant zero
/// would invite false alarms.
pub open spec fn with_resource(
    s: Series,
    cgroup: Seq<char>,
    snap: Snapshot,
    res: Resource,
    max: nat,
) -> Series {
    let p = snap.of(res);
    if !contended(p) {
        s
    } else if s.emitted >= max {
        Series { dropped: s.dropped + 1, ..s }
    } else {
        let l = labels(cgroup, res);
        Series {
            waiting: s.waiting + counter_line(
                "stallwatch_pressure_waiting_seconds_total"@,
                l,
                p.some_total_us,
            ),
            stalled: if res == Resource::Cpu {
                s.stalled
            } else {
                s.stalled + counter_line(
                    "stallwatch_pressure_stalled_seconds_total"@,
                    l,
                    p.full_total_us,
                )
            },
            emitted: s.emitted + 1,
            dropped: s.dropped,
        }
    }
}

/// The series with those of one cgroup.
pub open spec fn with_cgroup(s: Series, cgroup: Seq<char>, snap: Snapshot, max: nat) -> Series {
    let a = with_resource(s, cgroup, snap, Resource::Cpu, max);
    let b = with_resource(a, cgroup, snap, Resource::Memory, max);
    with_resource(b, cgroup, snap, Resource::Io, max)
}

pub open spec fn paths_of(f: Seq<(Seq<char>, Snapshot)>) -> Seq<Seq<char>> {
    Seq::new(f.len(), |i: int| f[i].0)
}

/// Whether a later entry is for the same path: of several entries for one path
/// the last one counts.
pub open spec fn superseded(f: Seq<(Seq<char>, Snapshot)>, i: int) -> bool {
    exists|j: int| i < j < f.len() && normal((#[trigger] f[j]).0) == normal(f[i].0)
}

/// The series of the first `n` cgroups in this order.
pub open spec fn series(
    f: Seq<(Seq<char>, Snapshot)>,
    order: Seq<usize>,
    n: nat,
    max: nat,
) -> Series
    decreases n,
{
    if n == 0 {
        Series { waiting: seq![], stalled: seq![], emitted: 0, dropped: 0 }
    } else {
        let s = series(f, order, (n - 1) as nat, max);
        if superseded(f, order[n - 1] as int) {
            s
        } else {
            let (cgroup, snap) = f[order[n - 1] as int];
            with_cgroup(s, cgroup, snap, max)
        }
    }
}

/// The series of all cgroups. The order is that of the paths: an unstable one
/// makes diffs unreadable and makes textfile-collector writes churn needlessly.
pub open spec fn all_series(f: Seq<(Seq<char>, Snapshot)>, max: nat) -> Series {
    series(f, path_order(paths_of(f)), f.len(), max)
}

/// The two families while they are being written.
struct Written {
    waiting: String,
    stalled: String,
    emitted: usize,
    dropped: u128,
}

impl View for Written {
    type V = Series;

    closed spec fn view(&self) -> Series {
        Series {
            waiting: self.waiting@,
            stalled: self.stalled@,
            emitted: self.emitted as nat,
            dropped: self.dropped as nat,
        }
    }
}

fn write_labels(cgroup: &str, res: Resource) -> (r: String)
    ensures
        r@ == labels(cgroup@, res),
{
    let mut l: String = copy_text("unit=\"");
    l.push_str(esc(friendly_name(cgroup).as_str()).as_str());
    l.push_str("\",cgroup=\"");
    l.push_str(esc(cgroup).as_str());
    l.push_str("\",resource=\"");
    l.push_str(res.as_str());
    l.push_str("\"");
    l
}

fn write_counter(family: &str, labels: &str, usec: u64) -> (r: String)
    ensures
        r@ == counter_line(family@, labels@, usec),
{
    let mut o: String = copy_text(family);
    o.push_str("{");
    o.push_str(labels);
    o.push_str("} ");
    o.push_str(to_seconds(usec).to_fixed(6).as_str());
    o.push_str("\n");
    o
}

impl Written {
    fn add_resource(&mut self, s: &Sampled, res: Resource, max: usize)
        requires
            old(self).dropped < u128::MAX,
        ensures
            final(self)@ == with_resource(old(self)@, s.cgroup@, s.snapshot, res, max as nat),
            final(self).dropped <= old(self).dropped + 1,
    {
        let p: Psi = s.snapshot.get(res);
        if p.some_total_us == 0 && p.full_total_us == 0 {
            return;
        }
        if self.emitted >= max {
            self.dropped += 1;
            return;
        }
        let l: String = write_labels(s.cgroup.as_str(), res);
        self.waiting.push_str(
            write_counter(
                "stallwatch_pressure_waiting_seconds_total",
                l.as_str(),
                p.total_for(PsiKind::SomeTasks),
            ).as_str(),
        );
        if res != Resource::Cpu {
            self.stalled.push_str(
                write_counter(
                    "stallwatch_pressure_stalled_seconds_total",
                    l.as_str(),
                    p.total_for(PsiKind::Full),
                ).as_str(),
            );
        }
        self.emitted += 1;
    }
}

/// Whether a later entry is for the same path, by an index of all paths.
fn is_superseded(index: &PathIndex, sample: &Vec<Sampled>, at: usize) -> (r: bool)
    requires
        index.sound(),
        index.paths() == sample_paths(sample@),
        at < sample@.len(),
    ensures
        r == superseded(figures(sample@), at as int),
{
    let ghost f = figures(sample@);
    let ghost paths = sample_paths(sample@);
    let path: Vec<char> = normalized(&to_chars(sample[at].cgroup.as_str()));
    proof {
        assert(paths[at as int] == path@);
        lemma_last_places(paths, path@);
        assert forall|j: int| 0 <= j < f.len() implies normal((#[trigger] f[j]).0) == paths[j] by {}
    }
    match index.find(&path) {
        Some(k) => {
            let last: usize = index.place(k);
            proof {
                let key = index.keys()[k as int]@;
                assert(last_places(paths)[key] == last);
                if last != at {
                    assert(normal(f[last as int].0) == normal(f[at as int].0));
                }
            }
            last != at
        },
        None => false,
    }
}

fn write_series(sample: &Vec<Sampled>, max: usize) -> (r: Written)
    ensures
        r@ == all_series(figures(sample@), max as nat),
{
    let ghost f = figures(sample@);
    let mut paths: Vec<String> = Vec::new();
    let mut i: usize = 0;
    assert(texts(paths@) =~= paths_of(f).take(0));
    while i < sample.len()
        invariant
            i <= sample@.len(),
            f == figures(sample@),
            texts(paths@) == paths_of(f).take(i as int),
        decreases sample@.len() - i,
    {
        push_text(&mut paths, copy_text(sample[i].cgroup.as_str()));
        assert(paths_of(f).take(i + 1) =~= paths_of(f).take(i as int).push(paths_of(f)[i as int]));
        i += 1;
    }
    assert(texts(paths@) =~= paths_of(f));
    let order: Vec<usize> = order_paths(&paths);
    let index: PathIndex = PathIndex::new(&sampled_paths(sample));
    let mut w: Written = Written {
        waiting: String::new(),
        stalled: String::new(),
        emitted: 0,
        dropped: 0,
    };
    proof {
        assert(w.waiting@ =~= seq![]);
        assert(w.stalled@ =~= seq![]);
    }
    let n: usize = order.len();
    let mut k: usize = 0;
    while k < n
        invariant
            k <= n == order@.len(),
            n == sample@.len(),
            f == figures(sample@),
            index.sound(),
            index.paths() == sample_paths(sample@),
            in_path_order(paths_of(f), order@),
            w.dropped <= 3 * k,
            w@ == series(f, order@, k as nat, max as nat),
        decreases n - k,
    {
        let at: usize = order[k];
        assert(f[at as int] == (sample@[at as int].cgroup@, sample@[at as int].snapshot));
        if !is_superseded(&index, sample, at) {
            w.add_resource(&sample[at], Resource::Cpu, max);
            w.add_resource(&sample[at], Resource::Memory, max);
            w.add_resource(&sample[at], Resource::Io, max);
        }
        k += 1;
    }
    w
}

// ── conditions ─────────────────────────────────────────────────────────

/// The name a filesystem goes by.
pub open spec fn filesystem_label(f: Filesystem) -> Seq<char> {
    match file_name(f.path@) {
        Some(n) => n,
        None => "unknown"@,
    }
}

pub open spec fn filesystem_line(family: Seq<char>, f: Filesystem, n: nat) -> Seq<char> {
    family + "{fsid=\""@ + label_value(filesystem_label(f)) + "\"} "@ + decimal(n) + "\n"@
}

/// The space that no block group has claimed, where it is known.
pub open spec fn unclaimed(f: Filesystem) -> Option<nat> {
    match f.allocated() {
        Some(a) => if device_bytes(f.device_sectors@) >= a {
            Some((device_bytes(f.device_sectors@) - a) as nat)
        } else {
            None
        },
        None => None,
    }
}

/// What a filesystem adds to the unallocated bytes.
pub open spec fn unallocated_line(f: Filesystem) -> Seq<char> {
    if !f.has_allocation {
        seq![]
    } else {
        match unclaimed(f) {
            Some(n) => filesystem_line("stallwatch_btrfs_unallocated_bytes"@, f, n),
            None => seq![],
        }
    }
}

/// What a filesystem adds to the queued extents.
pub open spec fn discard_line(f: Filesystem) -> Seq<char> {
    if !f.has_allocation {
        seq![]
    } else {
        match number_in(f.discardable_extents) {
            Some(n) => filesystem_line("stallwatch_btrfs_discard_queued_extents"@, f, n),
            None => seq![],
        }
    }
}

/// The labels of a sensor.
pub open spec fn sensor_labels(name: Seq<char>, s: Sensor) -> Seq<char> {
    "device=\""@ + label_value(name) + "\",sensor=\""@ + label_value(s.title()) + "\""@
}

pub open spec fn sensor_line(family: Seq<char>, labels: Seq<char>, millideg: nat) -> Seq<char> {
    family + "{"@ + labels + "} "@ + fixed(degrees(millideg), 1) + "\n"@
}

/// The reading of a sensor and the limit it publishes. A sensor without one is
/// not one the drive manages against: exporting it would hand operators a
/// metric that alerts on healthy hardware.
pub open spec fn managed(s: Sensor) -> Option<(nat, nat)> {
    match (number_in(s.input), number_in(s.crit)) {
        (Some(t), Some(c)) => Some((t, c)),
        _ => None,
    }
}

/// What sensors add to the temperatures and to the limits.
pub open spec fn sensor_lines(name: Seq<char>, s: Seq<Sensor>) -> (Seq<char>, Seq<char>)
    decreases s.len(),
{
    if s.len() == 0 {
        (seq![], seq![])
    } else {
        let (t, l) = sensor_lines(name, s.drop_last());
        match managed(s.last()) {
            None => (t, l),
            Some((temp, crit)) => {
                let labels = sensor_labels(name, s.last());
                (
                    t + sensor_line("stallwatch_drive_temperature_celsius"@, labels, temp),
                    l + sensor_line("stallwatch_drive_temperature_limit_celsius"@, labels, crit),
                )
            },
        }
    }
}

/// What a monitor adds to the temperatures and to the limits.
pub open spec fn monitor_lines(m: Monitor) -> (Seq<char>, Seq<char>) {
    if watches_drive(m.name) {
        sensor_lines(trim(m.name->0@), m.sensors@)
    } else {
        (seq![], seq![])
    }
}

pub open spec fn filesystem_paths(f: Seq<Filesystem>) -> Seq<Seq<char>> {
    Seq::new(f.len(), |i: int| f[i].path@)
}

pub open spec fn monitor_paths(m: Seq<Monitor>) -> Seq<Seq<char>> {
    Seq::new(m.len(), |i: int| m[i].path@)
}

/// The unallocated bytes and the queued extents of the first `n` filesystems
/// in this order.
pub open spec fn filesystem_gauges(f: Seq<Filesystem>, order: Seq<usize>, n: nat) -> (
    Seq<char>,
    Seq<char>,
)
    decreases n,
{
    if n == 0 {
        (seq![], seq![])
    } else {
        let (u, d) = filesystem_gauges(f, order, (n - 1) as nat);
        let one = f[order[n - 1] as int];
        (u + unallocated_line(one), d + discard_line(one))
    }
}

/// The temperatures and the limits of the first `n` monitors in this order.
pub open spec fn monitor_gauges(m: Seq<Monitor>, order: Seq<usize>, n: nat) -> (
    Seq<char>,
    Seq<char>,
)
    decreases n,
{
    if n == 0 {
        (seq![], seq![])
    } else {
        let (t, l) = monitor_gauges(m, order, (n - 1) as nat);
        let (t1, l1) = monitor_lines(m[order[n - 1] as int]);
        (t + t1, l + l1)
    }
}

/// A family with what is said of it, left out where it has no samples.
pub open spec fn family(help: Seq<char>, name: Seq<char>, body: Seq<char>) -> Seq<char> {
    if body.len() == 0 {
        seq![]
    } else {
        "# HELP "@ + name + " "@ + help + "\n# TYPE "@ + name + " gauge\n"@ + body
    }
}

/// The families of conditions, each whole behind its own declaration.
pub open spec fn condition_families(f: Seq<Filesystem>, m: Seq<Monitor>) -> Seq<char> {
    let (u, d) = filesystem_gauges(f, path_order(filesystem_paths(f)), f.len());
    let (t, l) = monitor_gauges(m, path_order(monitor_paths(m)), m.len());
    family(
        "Device space not yet claimed by any block group. Near zero means writes stall hunting fragmented chunks even though df shows free space."@,
        "stallwatch_btrfs_unallocated_bytes"@,
        u,
    ) + family(
        "Extents awaiting async TRIM. Kernel-side work: the disk looks busy while no process shows IO delay. Transient."@,
        "stallwatch_btrfs_discard_queued_extents"@,
        d,
    ) + family(
        "Drive temperature. Only sensors publishing their own critical threshold are exported; auxiliary sensors read high on healthy hardware."@,
        "stallwatch_drive_temperature_celsius"@,
        t,
    ) + family(
        "The drive's own published critical threshold."@,
        "stallwatch_drive_temperature_limit_celsius"@,
        l,
    )
}

fn write_filesystem_line(family: &str, f: &Filesystem, n: u64) -> (r: String)
    ensures
        r@ == filesystem_line(family@, *f, n as nat),
{
    let label: String = match last_name(&to_chars(f.path.as_str())) {
        Some(n) => from_chars(&n),
        None => copy_text("unknown"),
    };
    let mut o: String = copy_text(family);
    o.push_str("{fsid=\"");
    o.push_str(esc(label.as_str()).as_str());
    o.push_str("\"} ");
    push_u64(&mut o, n);
    o.push_str("\n");
    o
}

fn write_unallocated(f: &Filesystem) -> (r: String)
    ensures
        r@ == unallocated_line(*f),
{
    let none: String = String::new();
    assert(none@ =~= seq![]);
    if !f.has_allocation {
        return none;
    }
    match f.sum_allocated() {
        Some(a) => {
            let size: u64 = sum_devices(&f.device_sectors);
            if size >= a {
                write_filesystem_line("stallwatch_btrfs_unallocated_bytes", f, size - a)
            } else {
                none
            }
        },
        None => none,
    }
}

fn write_discard(f: &Filesystem) -> (r: String)
    ensures
        r@ == discard_line(*f),
{
    let none: String = String::new();
    assert(none@ =~= seq![]);
    if !f.has_allocation {
        return none;
    }
    match read_u64(&f.discardable_extents) {
        Some(n) => write_filesystem_line("stallwatch_btrfs_discard_queued_extents", f, n),
        None => none,
    }
}

fn write_sensor_line(family: &str, labels: &str, millideg: u64) -> (r: String)
    ensures
        r@ == sensor_line(family@, labels@, millideg as nat),
{
    let mut o: String = copy_text(family);
    o.push_str("{");
    o.push_str(labels);
    o.push_str("} ");
    o.push_str(Double::from_u64(millideg).over(&Double::from_u64(1000)).to_fixed(1).as_str());
    o.push_str("\n");
    o
}

fn write_sensors(name: &str, sensors: &Vec<Sensor>) -> (r: (String, String))
    ensures
        (r.0@, r.1@) == sensor_lines(name@, sensors@),
{
    let mut temps: String = String::new();
    let mut limits: String = String::new();
    let mut i: usize = 0;
    proof {
        assert(temps@ =~= seq![]);
        assert(limits@ =~= seq![]);
        assert(sensors@.take(0) =~= seq![]);
    }
    while i < sensors.len()
        invariant
            i <= sensors@.len(),
            (temps@, limits@) == sensor_lines(name@, sensors@.take(i as int)),
        decreases sensors@.len() - i,
    {
        let s: &Sensor = &sensors[i];
        proof {
            assert(sensors@.take(i + 1).drop_last() =~= sensors@.take(i as int));
            assert(sensors@.take(i + 1).last() == sensors@[i as int]);
        }
        match (read_u64(&s.input), read_u64(&s.crit)) {
            (Some(t), Some(c)) => {
                let mut l: String = copy_text("device=\"");
                l.push_str(esc(name).as_str());
                l.push_str("\",sensor=\"");
                l.push_str(esc(s.label_text().as_str()).as_str());
                l.push_str("\"");
                temps.push_str(
                    write_sensor_line("stallwatch_drive_temperature_celsius", l.as_str(), t).as_str(),
                );
                limits.push_str(
                    write_sensor_line(
                        "stallwatch_drive_temperature_limit_celsius",
                        l.as_str(),
                        c,
                    ).as_str(),
                );
            },
            _ => {},
        }
        i += 1;
    }
    assert(sensors@.take(i as int) =~= sensors@);
    (temps, limits)
}

fn write_monitor(m: &Monitor) -> (r: (String, String))
    ensures
        (r.0@, r.1@) == monitor_lines(*m),
{
    match &m.name {
        Some(n) => {
            if is_drive(&m.name) {
                let name: String = from_chars(trimmed(&to_chars(n.as_str())));
                return write_sensors(name.as_str(), &m.sensors);
            }
        },
        None => {},
    }
    let r: (String, String) = (String::new(), String::new());
    assert(r.0@ =~= seq![]);
    assert(r.1@ =~= seq![]);
    r
}

fn write_family(help: &str, name: &str, body: &str) -> (r: String)
    ensures
        r@ == family(help@, name@, body@),
{
    if body.is_empty() {
        let none: String = String::new();
        assert(none@ =~= seq![]);
        return none;
    }
    let mut o: String = copy_text("# HELP ");
    o.push_str(name);
    o.push_str(" ");
    o.push_str(help);
    o.push_str("\n# TYPE ");
    o.push_str(name);
    o.push_str(" gauge\n");
    o.push_str(body);
    o
}

fn write_filesystems(f: &Vec<Filesystem>) -> (r: (String, String))
    ensures
        (r.0@, r.1@) == filesystem_gauges(f@, path_order(filesystem_paths(f@)), f@.len()),
{
    let ghost all = filesystem_paths(f@);
    let mut paths: Vec<String> = Vec::new();
    let mut i: usize = 0;
    assert(texts(paths@) =~= all.take(0));
    while i < f.len()
        invariant
            i <= f@.len(),
            all == filesystem_paths(f@),
            texts(paths@) == all.take(i as int),
        decreases f@.len() - i,
    {
        push_text(&mut paths, copy_text(f[i].path.as_str()));
        assert(all.take(i + 1) =~= all.take(i as int).push(all[i as int]));
        i += 1;
    }
    assert(texts(paths@) =~= all);
    let order: Vec<usize> = order_paths(&paths);
    let mut u: String = String::new();
    let mut d: String = String::new();
    proof {
        assert(u@ =~= seq![]);
        assert(d@ =~= seq![]);
    }
    let mut k: usize = 0;
    while k < order.len()
        invariant
            k <= order@.len() == f@.len(),
            in_path_order(filesystem_paths(f@), order@),
            (u@, d@) == filesystem_gauges(f@, order@, k as nat),
        decreases order@.len() - k,
    {
        let one: &Filesystem = &f[order[k]];
        u.push_str(write_unallocated(one).as_str());
        d.push_str(write_discard(one).as_str());
        k += 1;
    }
    (u, d)
}

fn write_monitors(m: &Vec<Monitor>) -> (r: (String, String))
    ensures
        (r.0@, r.1@) == monitor_gauges(m@, path_order(monitor_paths(m@)), m@.len()),
{
    let ghost all = monitor_paths(m@);
    let mut paths: Vec<String> = Vec::new();
    let mut i: usize = 0;
    assert(texts(paths@) =~= all.take(0));
    while i < m.len()
        invariant
            i <= m@.len(),
            all == monitor_paths(m@),
            texts(paths@) == all.take(i as int),
        decreases m@.len() - i,
    {
        push_text(&mut paths, copy_text(m[i].path.as_str()));
        assert(all.take(i + 1) =~= all.take(i as int).push(all[i as int]));
        i += 1;
    }
    assert(texts(paths@) =~= all);
    let order: Vec<usize> = order_paths(&paths);
    let mut t: String = String::new();
    let mut l: String = String::new();
    proof {
        assert(t@ =~= seq![]);
        assert(l@ =~= seq![]);
    }
    let mut k: usize = 0;
    while k < order.len()
        invariant
            k <= order@.len() == m@.len(),
            in_path_order(monitor_paths(m@), order@),
            (t@, l@) == monitor_gauges(m@, order@, k as nat),
        decreases order@.len() - k,
    {
        let (t1, l1): (String, String) = write_monitor(&m[order[k]]);
        t.push_str(t1.as_str());
        l.push_str(l1.as_str());
        k += 1;
    }
    (t, l)
}

/// Pathology gauges: the conditions that explain stalls the counters cannot.
///
/// Each family is emitted with its own declaration immediately preceding its
/// samples. Batching the declarations looks tidier and is wrong: a `TYPE` line
/// closes the previous family, so the earlier ones would end up with no samples
/// and the actual series would arrive orphaned.
pub fn pathology_series(filesystems: &Vec<Filesystem>, monitors: &Vec<Monitor>) -> (r: String)
    ensures
        r@ == condition_families(filesystems@, monitors@),
{
    let (u, d): (String, String) = write_filesystems(filesystems);
    let (t, l): (String, String) = write_monitors(monitors);
    let mut o: String = write_family(
        "Device space not yet claimed by any block group. Near zero means writes stall hunting fragmented chunks even though df shows free space.",
        "stallwatch_btrfs_unallocated_bytes",
        u.as_str(),
    );
    o.push_str(
        write_family(
            "Extents awaiting async TRIM. Kernel-side work: the disk looks busy while no process shows IO delay. Transient.",
            "stallwatch_btrfs_discard_queued_extents",
            d.as_str(),
        ).as_str(),
    );
    o.push_str(
        write_family(
            "Drive temperature. Only sensors publishing their own critical threshold are exported; auxiliary sensors read high on healthy hardware.",
            "stallwatch_drive_temperature_celsius",
            t.as_str(),
        ).as_str(),
    );
    o.push_str(
        write_family(
            "The drive's own published critical threshold.",
            "stallwatch_drive_temperature_limit_celsius",
            l.as_str(),
        ).as_str(),
    );
    o
}

// ── the document ───────────────────────────────────────────────────────

/// The whole document.
///
/// The format requires every sample of a family to be contiguous, immediately
/// after its declaration, so each family is emitted whole.
pub open spec fn exposition(
    bodies: Seq<Bodies>,
    filesystems: Seq<Filesystem>,
    monitors: Seq<Monitor>,
    max: nat,
    elapsed: Span,
) -> Seq<char> {
    families(bodies, filesystems, monitors, max) + duration_family(elapsed)
}

/// All families of the document but the last.
pub open spec fn families(
    bodies: Seq<Bodies>,
    filesystems: Seq<Filesystem>,
    monitors: Seq<Monitor>,
    max: nat,
) -> Seq<char> {
    let s = all_series(sampled(bodies), max);
    "# HELP stallwatch_pressure_waiting_seconds_total Time at least one task in this cgroup was stalled (PSI 'some').\n# TYPE stallwatch_pressure_waiting_seconds_total counter\n"@
        + s.waiting
        + "# HELP stallwatch_pressure_stalled_seconds_total Time every non-idle task in this cgroup was stalled at once (PSI 'full').\n# TYPE stallwatch_pressure_stalled_seconds_total counter\n"@
        + s.stalled + condition_families(filesystems, monitors)
        + "# HELP stallwatch_series_emitted Series emitted this scrape.\n# TYPE stallwatch_series_emitted gauge\nstallwatch_series_emitted "@
        + decimal(s.emitted)
        + "\n# HELP stallwatch_series_dropped Series withheld by the cardinality cap. Non-zero means the export is incomplete.\n# TYPE stallwatch_series_dropped gauge\nstallwatch_series_dropped "@
        + decimal(s.dropped)
        + "\n# HELP stallwatch_cgroups_scanned Cgroups walked this scrape.\n# TYPE stallwatch_cgroups_scanned gauge\nstallwatch_cgroups_scanned "@
        + decimal(bodies.len()) + "\n"@
}

/// The last family: how long it took.
pub open spec fn duration_family(elapsed: Span) -> Seq<char> {
    "# HELP stallwatch_scrape_duration_seconds Time spent building this response.\n# TYPE stallwatch_scrape_duration_seconds gauge\nstallwatch_scrape_duration_seconds "@
        + fixed(elapsed.seconds(), 6) + "\n"@
}

/// Render the full exposition document from what was read of the cgroups, the
/// filesystems and the hardware monitors, which took `elapsed`.
pub fn render(
    bodies: &Vec<Bodies>,
    filesystems: &Vec<Filesystem>,
    monitors: &Vec<Monitor>,
    max_series: usize,
    elapsed: Span,
) -> (r: String)
    ensures
        r@ == exposition(bodies@, filesystems@, monitors@, max_series as nat, elapsed),
{
    let mut out: String = render_families(bodies, filesystems, monitors, max_series);
    push_duration(&mut out, elapsed);
    out
}

/// Add how long it took, so that the time to render can be counted in.
pub fn push_duration(document: &mut String, elapsed: Span)
    ensures
        final(document)@ == old(document)@ + duration_family(elapsed),
{
    let mut last: String = copy_text(
        "# HELP stallwatch_scrape_duration_seconds Time spent building this response.\n# TYPE stallwatch_scrape_duration_seconds gauge\nstallwatch_scrape_duration_seconds ",
    );
    last.push_str(elapsed.to_seconds().to_fixed(6).as_str());
    last.push_str("\n");
    document.push_str(last.as_str());
}

/// See [`families`].
pub fn render_families(
    bodies: &Vec<Bodies>,
    filesystems: &Vec<Filesystem>,
    monitors: &Vec<Monitor>,
    max_series: usize,
) -> (r: String)
    ensures
        r@ == families(bodies@, filesystems@, monitors@, max_series as nat),
{
    let snapshot: Vec<Sampled> = sample(bodies);
    let w: Written = write_series(&snapshot, max_series);
    let mut out: String = copy_text(
        "# HELP stallwatch_pressure_waiting_seconds_total Time at least one task in this cgroup was stalled (PSI 'some').\n# TYPE stallwatch_pressure_waiting_seconds_total counter\n",
    );
    out.push_str(w.waiting.as_str());
    out.push_str(
        "# HELP stallwatch_pressure_stalled_seconds_total Time every non-idle task in this cgroup was stalled at once (PSI 'full').\n# TYPE stallwatch_pressure_stalled_seconds_total counter\n",
    );
    out.push_str(w.stalled.as_str());
    out.push_str(pathology_series(filesystems, monitors).as_str());
    out.push_str(
        "# HELP stallwatch_series_emitted Series emitted this scrape.\n# TYPE stallwatch_series_emitted gauge\nstallwatch_series_emitted ",
    );
    push_u64(&mut out, w.emitted as u64);
    out.push_str(
        "\n# HELP stallwatch_series_dropped Series withheld by the cardinality cap. Non-zero means the export is incomplete.\n# TYPE stallwatch_series_dropped gauge\nstallwatch_series_dropped ",
    );
    push_u128(&mut out, w.dropped);
    out.push_str(
        "\n# HELP stallwatch_cgroups_scanned Cgroups walked this scrape.\n# TYPE stallwatch_cgroups_scanned gauge\nstallwatch_cgroups_scanned ",
    );
    push_u64(&mut out, bodies.len() as u64);
    out.push_str("\n");
    out
}

// ── laws ───────────────────────────────────────────────────────────────

/// A label value never ends the line it stands on.
pub proof fn lemma_label_value_stays_on_its_line(v: Seq<char>)
    ensures
        !label_value(v).contains('\n'),
    decreases v.len(),
{
    if v.len() > 0 {
        lemma_label_value_stays_on_its_line(v.drop_last());
        let before = label_value(v.drop_last());
        let c = label_char(v.last());
        assert forall|i: int| 0 <= i < (before + c).len() implies (before + c)[i] != '\n' by {
            if i < before.len() {
                assert(before.contains(before[i]));
            }
        }
    }
}

/// There is no stalled series of the CPU: nothing that is said of it changes
/// that family.
pub proof fn lemma_cpu_has_no_stalled_series(
    s: Series,
    cgroup: Seq<char>,
    snap: Snapshot,
    max: nat,
)
    ensures
        with_resource(s, cgroup, snap, Resource::Cpu, max).stalled == s.stalled,
{
}

/// How many of three resources were ever contended for.
pub open spec fn contended_in(snap: Snapshot) -> nat {
    (if contended(snap.cpu) {
        1nat
    } else {
        0
    }) + (if contended(snap.memory) {
        1nat
    } else {
        0
    }) + (if contended(snap.io) {
        1nat
    } else {
        0
    })
}

/// How many series there are to emit among the first `n` cgroups.
pub open spec fn contended_among(f: Seq<(Seq<char>, Snapshot)>, order: Seq<usize>, n: nat) -> nat
    decreases n,
{
    if n == 0 {
        0
    } else {
        contended_among(f, order, (n - 1) as nat) + (if superseded(f, order[n - 1] as int) {
            0
        } else {
            contended_in(f[order[n - 1] as int].1)
        })
    }
}

proof fn lemma_series_are_counted(
    f: Seq<(Seq<char>, Snapshot)>,
    order: Seq<usize>,
    n: nat,
    max: nat,
)
    ensures
        series(f, order, n, max).emitted <= max,
        series(f, order, n, max).emitted + series(f, order, n, max).dropped == contended_among(
            f,
            order,
            n,
        ),
        series(f, order, n, max).dropped > 0 ==> series(f, order, n, max).emitted == max,
    decreases n,
{
    if n > 0 {
        lemma_series_are_counted(f, order, (n - 1) as nat, max);
    }
}

/// The cap is kept and nothing is withheld in silence: no more series are
/// emitted than the cap, every contended resource is counted as emitted or as
/// dropped, and none is dropped before the cap is reached.
pub proof fn lemma_cap_is_enforced_and_reported(f: Seq<(Seq<char>, Snapshot)>, max: nat)
    ensures
        all_series(f, max).emitted <= max,
        all_series(f, max).emitted + all_series(f, max).dropped == contended_among(
            f,
            path_order(paths_of(f)),
            f.len(),
        ),
        all_series(f, max).dropped > 0 ==> all_series(f, max).emitted == max,
{
    lemma_series_are_counted(f, path_order(paths_of(f)), f.len(), max);
}

// ── families ───────────────────────────────────────────────────────────

/// Is every line of a body a sample of this family?
pub open spec fn samples_of(body: Seq<char>, name: Seq<char>) -> bool {
    &&& body.len() == 0 || body.last() == '\n'
    &&& forall|k: int|
        0 <= k < lines(body).len() ==> starts_with(#[trigger] lines(body)[k], name + "{"@)
}

proof fn lemma_no_samples(name: Seq<char>)
    ensures
        samples_of(seq![], name),
{
}

proof fn lemma_sample_added(body: Seq<char>, name: Seq<char>, line: Seq<char>)
    requires
        samples_of(body, name),
        unbroken(line),
        line.len() > 0,
        line.last() != '\r',
        starts_with(line, name + "{"@),
    ensures
        samples_of(body + (line + "\n"@), name),
{
    reveal_strlit("\n");
    let all = body + (line + "\n"@);
    lemma_lines_behind(body, line + "\n"@);
    lemma_single_line(line);
    assert(all.last() == (line + "\n"@).last());
    assert forall|k: int| 0 <= k < lines(all).len() implies starts_with(
        #[trigger] lines(all)[k],
        name + "{"@,
    ) by {
        if k < lines(body).len() {
            assert(lines(all)[k] == lines(body)[k]);
        } else {
            assert(lines(all)[k] == line);
        }
    }
}

proof fn lemma_families_are_unbroken()
    ensures
        unbroken("stallwatch_pressure_waiting_seconds_total"@),
        unbroken("stallwatch_pressure_stalled_seconds_total"@),
        unbroken("stallwatch_btrfs_unallocated_bytes"@),
        unbroken("stallwatch_btrfs_discard_queued_extents"@),
        unbroken("stallwatch_drive_temperature_celsius"@),
        unbroken("stallwatch_drive_temperature_limit_celsius"@),
{
    assert(unbroken("stallwatch_pressure_waiting_seconds_total"@)) by {
        reveal_strlit("stallwatch_pressure_waiting_seconds_total");
        reveal(unbroken);
    }
    assert(unbroken("stallwatch_pressure_stalled_seconds_total"@)) by {
        reveal_strlit("stallwatch_pressure_stalled_seconds_total");
        reveal(unbroken);
    }
    assert(unbroken("stallwatch_btrfs_unallocated_bytes"@)) by {
        reveal_strlit("stallwatch_btrfs_unallocated_bytes");
        reveal(unbroken);
    }
    assert(unbroken("stallwatch_btrfs_discard_queued_extents"@)) by {
        reveal_strlit("stallwatch_btrfs_discard_queued_extents");
        reveal(unbroken);
    }
    assert(unbroken("stallwatch_drive_temperature_celsius"@)) by {
        reveal_strlit("stallwatch_drive_temperature_celsius");
        reveal(unbroken);
    }
    assert(unbroken("stallwatch_drive_temperature_limit_celsius"@)) by {
        reveal_strlit("stallwatch_drive_temperature_limit_celsius");
        reveal(unbroken);
    }
}

proof fn lemma_label_is_unbroken(v: Seq<char>)
    ensures
        unbroken(label_value(v)),
{
    lemma_label_value_stays_on_its_line(v);
    reveal(unbroken);
}

proof fn lemma_labels_are_unbroken(cgroup: Seq<char>, res: Resource)
    ensures
        unbroken(labels(cgroup, res)),
{
    assert({
        &&& unbroken("unit=\""@)
        &&& unbroken("\",cgroup=\""@)
        &&& unbroken("\",resource=\""@)
        &&& unbroken("\""@)
        &&& unbroken(res.name())
    }) by {
        reveal_strlit("unit=\"");
        reveal_strlit("\",cgroup=\"");
        reveal_strlit("\",resource=\"");
        reveal_strlit("\"");
        reveal_strlit("cpu");
        reveal_strlit("memory");
        reveal_strlit("io");
        reveal(unbroken);
    }
    let unit = label_value(friendly(cgroup));
    lemma_label_is_unbroken(friendly(cgroup));
    lemma_label_is_unbroken(cgroup);
    let a = "unit=\""@ + unit;
    lemma_unbroken_both("unit=\""@, unit);
    lemma_unbroken_both(a, "\",cgroup=\""@);
    let b = a + "\",cgroup=\""@;
    lemma_unbroken_both(b, label_value(cgroup));
    let c = b + label_value(cgroup);
    lemma_unbroken_both(c, "\",resource=\""@);
    let d = c + "\",resource=\""@;
    lemma_unbroken_both(d, res.name());
    lemma_unbroken_both(d + res.name(), "\""@);
}

/// A sample: the name of its family, labels in braces, and a number.
proof fn lemma_sample(body: Seq<char>, name: Seq<char>, labels: Seq<char>, number: Seq<char>)
    requires
        samples_of(body, name),
        unbroken(name),
        unbroken(labels),
        unbroken(number),
        number.len() > 0,
        number.last() != '\r',
    ensures
        samples_of(body + (name + "{"@ + labels + "} "@ + number + "\n"@), name),
{
    assert(unbroken("{"@) && unbroken("} "@)) by {
        reveal_strlit("{");
        reveal_strlit("} ");
        reveal(unbroken);
    }
    let a = name + "{"@;
    lemma_unbroken_both(name, "{"@);
    lemma_unbroken_both(a, labels);
    lemma_unbroken_both(a + labels, "} "@);
    lemma_unbroken_both(a + labels + "} "@, number);
    let line = a + labels + "} "@ + number;
    assert(line.last() == number.last());
    assert(line.take(a.len() as int) =~= a);
    lemma_sample_added(body, name, line);
}

proof fn lemma_resource_samples(
    s: Series,
    cgroup: Seq<char>,
    snap: Snapshot,
    res: Resource,
    max: nat,
)
    requires
        samples_of(s.waiting, "stallwatch_pressure_waiting_seconds_total"@),
        samples_of(s.stalled, "stallwatch_pressure_stalled_seconds_total"@),
    ensures
        samples_of(
            with_resource(s, cgroup, snap, res, max).waiting,
            "stallwatch_pressure_waiting_seconds_total"@,
        ),
        samples_of(
            with_resource(s, cgroup, snap, res, max).stalled,
            "stallwatch_pressure_stalled_seconds_total"@,
        ),
{
    let p = snap.of(res);
    let l = labels(cgroup, res);
    lemma_families_are_unbroken();
    lemma_labels_are_unbroken(cgroup, res);
    let some = fixed(seconds(p.some_total_us), 6);
    let full = fixed(seconds(p.full_total_us), 6);
    lemma_fixed_is_unbroken(seconds(p.some_total_us), 6);
    lemma_fixed_is_unbroken(seconds(p.full_total_us), 6);
    lemma_fixed_ends(seconds(p.some_total_us), 6);
    lemma_fixed_ends(seconds(p.full_total_us), 6);
    lemma_sample(s.waiting, "stallwatch_pressure_waiting_seconds_total"@, l, some);
    lemma_sample(s.stalled, "stallwatch_pressure_stalled_seconds_total"@, l, full);
}

proof fn lemma_series_samples(f: Seq<(Seq<char>, Snapshot)>, order: Seq<usize>, n: nat, max: nat)
    ensures
        samples_of(
            series(f, order, n, max).waiting,
            "stallwatch_pressure_waiting_seconds_total"@,
        ),
        samples_of(
            series(f, order, n, max).stalled,
            "stallwatch_pressure_stalled_seconds_total"@,
        ),
    decreases n,
{
    if n == 0 {
        lemma_no_samples("stallwatch_pressure_waiting_seconds_total"@);
        lemma_no_samples("stallwatch_pressure_stalled_seconds_total"@);
    } else {
        lemma_series_samples(f, order, (n - 1) as nat, max);
        let s = series(f, order, (n - 1) as nat, max);
        let (cgroup, snap) = f[order[n - 1] as int];
        lemma_resource_samples(s, cgroup, snap, Resource::Cpu, max);
        let a = with_resource(s, cgroup, snap, Resource::Cpu, max);
        lemma_resource_samples(a, cgroup, snap, Resource::Memory, max);
        let b = with_resource(a, cgroup, snap, Resource::Memory, max);
        lemma_resource_samples(b, cgroup, snap, Resource::Io, max);
    }
}

proof fn lemma_filesystem_sample(body: Seq<char>, name: Seq<char>, f: Filesystem, n: nat)
    requires
        samples_of(body, name),
        unbroken(name),
    ensures
        samples_of(body + filesystem_line(name, f, n), name),
{
    let v = label_value(filesystem_label(f));
    lemma_label_is_unbroken(filesystem_label(f));
    lemma_decimal_is_unbroken(n);
    lemma_decimal_ends(n);
    assert(unbroken("fsid=\""@) && unbroken("\""@)) by {
        reveal_strlit("fsid=\"");
        reveal_strlit("\"");
        reveal(unbroken);
    }
    lemma_unbroken_both("fsid=\""@, v);
    lemma_unbroken_both("fsid=\""@ + v, "\""@);
    let l = "fsid=\""@ + v + "\""@;
    lemma_sample(body, name, l, decimal(n));
    assert(name + "{"@ + l + "} "@ + decimal(n) + "\n"@ =~= filesystem_line(name, f, n)) by {
        reveal_strlit("{");
        reveal_strlit("{fsid=\"");
        reveal_strlit("fsid=\"");
        reveal_strlit("\"");
        reveal_strlit("} ");
        reveal_strlit("\"} ");
        assert("{fsid=\""@ =~= "{"@ + "fsid=\""@);
        assert("\"} "@ =~= "\""@ + "} "@);
    }
}

proof fn lemma_filesystem_samples(f: Seq<Filesystem>, order: Seq<usize>, n: nat)
    ensures
        samples_of(filesystem_gauges(f, order, n).0, "stallwatch_btrfs_unallocated_bytes"@),
        samples_of(filesystem_gauges(f, order, n).1, "stallwatch_btrfs_discard_queued_extents"@),
    decreases n,
{
    if n == 0 {
        lemma_no_samples("stallwatch_btrfs_unallocated_bytes"@);
        lemma_no_samples("stallwatch_btrfs_discard_queued_extents"@);
    } else {
        lemma_filesystem_samples(f, order, (n - 1) as nat);
        lemma_families_are_unbroken();
        let (u, d) = filesystem_gauges(f, order, (n - 1) as nat);
        let one = f[order[n - 1] as int];
        assert(u + Seq::<char>::empty() =~= u);
        assert(d + Seq::<char>::empty() =~= d);
        if one.has_allocation {
            if let Some(k) = unclaimed(one) {
                lemma_filesystem_sample(u, "stallwatch_btrfs_unallocated_bytes"@, one, k);
            }
            if let Some(k) = number_in(one.discardable_extents) {
                lemma_filesystem_sample(d, "stallwatch_btrfs_discard_queued_extents"@, one, k);
            }
        }
    }
}

proof fn lemma_sensor_sample(
    body: Seq<char>,
    family: Seq<char>,
    name: Seq<char>,
    s: Sensor,
    millideg: nat,
)
    requires
        samples_of(body, family),
        unbroken(family),
    ensures
        samples_of(body + sensor_line(family, sensor_labels(name, s), millideg), family),
{
    lemma_label_is_unbroken(name);
    lemma_label_is_unbroken(s.title());
    lemma_fixed_is_unbroken(degrees(millideg), 1);
    lemma_fixed_ends(degrees(millideg), 1);
    assert(unbroken("device=\""@) && unbroken("\",sensor=\""@) && unbroken("\""@)) by {
        reveal_strlit("device=\"");
        reveal_strlit("\",sensor=\"");
        reveal_strlit("\"");
        reveal(unbroken);
    }
    let a = "device=\""@ + label_value(name);
    lemma_unbroken_both("device=\""@, label_value(name));
    lemma_unbroken_both(a, "\",sensor=\""@);
    lemma_unbroken_both(a + "\",sensor=\""@, label_value(s.title()));
    lemma_unbroken_both(a + "\",sensor=\""@ + label_value(s.title()), "\""@);
    lemma_sample(body, family, sensor_labels(name, s), fixed(degrees(millideg), 1));
}

/// Samples of one family behind others of it.
proof fn lemma_sensor_samples(t: Seq<char>, l: Seq<char>, name: Seq<char>, s: Seq<Sensor>)
    requires
        samples_of(t, "stallwatch_drive_temperature_celsius"@),
        samples_of(l, "stallwatch_drive_temperature_limit_celsius"@),
    ensures
        samples_of(t + sensor_lines(name, s).0, "stallwatch_drive_temperature_celsius"@),
        samples_of(l + sensor_lines(name, s).1, "stallwatch_drive_temperature_limit_celsius"@),
    decreases s.len(),
{
    if s.len() == 0 {
        assert(t + Seq::<char>::empty() =~= t);
        assert(l + Seq::<char>::empty() =~= l);
    } else {
        lemma_sensor_samples(t, l, name, s.drop_last());
        lemma_families_are_unbroken();
        let (t1, l1) = sensor_lines(name, s.drop_last());
        if let Some((temp, crit)) = managed(s.last()) {
            let labels = sensor_labels(name, s.last());
            let a = sensor_line("stallwatch_drive_temperature_celsius"@, labels, temp);
            let b = sensor_line("stallwatch_drive_temperature_limit_celsius"@, labels, crit);
            lemma_sensor_sample(
                t + t1,
                "stallwatch_drive_temperature_celsius"@,
                name,
                s.last(),
                temp,
            );
            lemma_sensor_sample(
                l + l1,
                "stallwatch_drive_temperature_limit_celsius"@,
                name,
                s.last(),
                crit,
            );
            assert(t + (t1 + a) =~= t + t1 + a);
            assert(l + (l1 + b) =~= l + l1 + b);
        }
    }
}

proof fn lemma_monitor_samples(m: Seq<Monitor>, order: Seq<usize>, n: nat)
    ensures
        samples_of(monitor_gauges(m, order, n).0, "stallwatch_drive_temperature_celsius"@),
        samples_of(monitor_gauges(m, order, n).1, "stallwatch_drive_temperature_limit_celsius"@),
    decreases n,
{
    if n == 0 {
        lemma_no_samples("stallwatch_drive_temperature_celsius"@);
        lemma_no_samples("stallwatch_drive_temperature_limit_celsius"@);
    } else {
        lemma_monitor_samples(m, order, (n - 1) as nat);
        let (t, l) = monitor_gauges(m, order, (n - 1) as nat);
        let one = m[order[n - 1] as int];
        if watches_drive(one.name) {
            lemma_sensor_samples(t, l, trim(one.name->0@), one.sensors@);
        } else {
            assert(t + Seq::<char>::empty() =~= t);
            assert(l + Seq::<char>::empty() =~= l);
        }
    }
}

/// Each family is whole: every line between its declaration and the next one is
/// a sample of that family and of no other, whatever units, filesystems and
/// sensors are called.
pub proof fn lemma_each_family_is_whole(
    bodies: Seq<Bodies>,
    f: Seq<Filesystem>,
    m: Seq<Monitor>,
    max: nat,
)
    ensures
        ({
            let s = all_series(sampled(bodies), max);
            let (u, d) = filesystem_gauges(f, path_order(filesystem_paths(f)), f.len());
            let (t, l) = monitor_gauges(m, path_order(monitor_paths(m)), m.len());
            &&& samples_of(s.waiting, "stallwatch_pressure_waiting_seconds_total"@)
            &&& samples_of(s.stalled, "stallwatch_pressure_stalled_seconds_total"@)
            &&& samples_of(u, "stallwatch_btrfs_unallocated_bytes"@)
            &&& samples_of(d, "stallwatch_btrfs_discard_queued_extents"@)
            &&& samples_of(t, "stallwatch_drive_temperature_celsius"@)
            &&& samples_of(l, "stallwatch_drive_temperature_limit_celsius"@)
        }),
{
    let all = sampled(bodies);
    lemma_series_samples(all, path_order(paths_of(all)), all.len(), max);
    lemma_filesystem_samples(f, path_order(filesystem_paths(f)), f.len());
    lemma_monitor_samples(m, path_order(monitor_paths(m)), m.len());
}

/// Series come in the order of their paths: what stands earlier is not behind,
/// so that two scrapes of one machine do not differ in their order.
pub proof fn lemma_series_follow_their_paths(f: Seq<(Seq<char>, Snapshot)>, a: int, b: int)
    requires
        f.len() <= usize::MAX,
        0 <= a < b < f.len(),
    ensures
        ({
            let order = path_order(paths_of(f));
            &&& order.len() == f.len()
            &&& order[a] < f.len() && order[b] < f.len()
            &&& !route_before(names(f[order[b] as int].0), names(f[order[a] as int].0))
        }),
{
    lemma_path_order(paths_of(f));
    let order = path_order(paths_of(f));
    let (i, j) = (order[a] as int, order[b] as int);
    assert(path_placed(paths_of(f), i, j));
    lemma_route_one_way(names(f[i].0), names(f[j].0));
}

} // verus!
