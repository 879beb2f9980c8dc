//! Per-cgroup block-layer byte counters, from `io.stat`.
//!
//! Pressure answers "who was *blocked*". It cannot answer "who was doing the
//! work", because that is not what the kernel measures there — a process
//! saturating a queue is not itself waiting on it. `io.stat` sits in the same
//! cgroup directory as `io.pressure`, is world-readable, and carries the
//! block-layer bytes that the cgroup moved. Pairing the two separates a cause
//! from a victim.

use vstd::prelude::*;
use vstd::slice::slice_subrange;

use crate::oneline::lemma_lines_behind;
use crate::text::{
    find, is_text, lines, parse_u64, position, read_u64, runs, split_lines, split_words, to_chars,
    words,
};

verus! {

/// Block-layer bytes a cgroup moved, summed across every backing device.
#[derive(Clone, Copy, Debug, PartialEq, Eq, Structural)]
pub struct IoBytes {
    pub read: u64,
    pub write: u64,
    /// Discard (TRIM) bytes. Tracked separately because discard is queued by
    /// the filesystem and drained by the kernel.
    pub discard: u64,
}

/// A sum held to the range of a `u64`.
pub open spec fn plus(a: u64, b: u64) -> u64 {
    if a + b <= u64::MAX {
        (a + b) as u64
    } else {
        u64::MAX
    }
}

/// A difference held to the range of a `u64`.
pub open spec fn minus(a: u64, b: u64) -> u64 {
    if a >= b {
        (a - b) as u64
    } else {
        0
    }
}

impl Default for IoBytes {
    fn default() -> (r: IoBytes)
        ensures
            r == IoBytes::zero(),
    {
        IoBytes { read: 0, write: 0, discard: 0 }
    }
}

impl IoBytes {
    pub open spec fn zero() -> IoBytes {
        IoBytes { read: 0, write: 0, discard: 0 }
    }

    /// Read plus write. Discard is excluded: it is kernel-side cleanup, and
    /// counting it would blame a cgroup for a deletion it already finished.
    pub open spec fn moved(&self) -> u64 {
        plus(self.read, self.write)
    }

    /// What was added since another reading.
    pub open spec fn since(&self, before: IoBytes) -> IoBytes {
        IoBytes {
            read: minus(self.read, before.read),
            write: minus(self.write, before.write),
            discard: minus(self.discard, before.discard),
        }
    }

    /// See [`IoBytes::moved`].
    pub fn total(self) -> (r: u64)
        ensures
            r == self.moved(),
    {
        self.read.saturating_add(self.write)
    }

    /// Difference between two readings, saturating.
    ///
    /// Counters restart when a cgroup is destroyed and its path reused, which
    /// would otherwise underflow into an enormous fabricated delta.
    pub fn delta(self, before: IoBytes) -> (r: IoBytes)
        ensures
            r == self.since(before),
    {
        IoBytes {
            read: self.read.saturating_sub(before.read),
            write: self.write.saturating_sub(before.write),
            discard: self.discard.saturating_sub(before.discard),
        }
    }
}

/// What one field of an `io.stat` line adds: a key, an equals sign and a
/// number. Other keys add nothing, so that a newer kernel still parses.
pub open spec fn after_field(io: IoBytes, field: Seq<char>) -> IoBytes {
    let at = find(field, '=') as int;
    if at >= field.len() {
        io
    } else {
        let key = field.take(at);
        match parse_u64(field.skip(at + 1)) {
            None => io,
            Some(n) => if key == "rbytes"@ {
                IoBytes { read: plus(io.read, n as u64), ..io }
            } else if key == "wbytes"@ {
                IoBytes { write: plus(io.write, n as u64), ..io }
            } else if key == "dbytes"@ {
                IoBytes { discard: plus(io.discard, n as u64), ..io }
            } else {
                io
            },
        }
    }
}

/// What the fields of a line add, one after another.
pub open spec fn after_fields(io: IoBytes, fields: Seq<Seq<char>>) -> IoBytes
    decreases fields.len(),
{
    if fields.len() == 0 {
        io
    } else {
        after_field(after_fields(io, fields.drop_last()), fields.last())
    }
}

/// What lines add, one device each.
pub open spec fn after_lines(lines: Seq<Seq<char>>) -> IoBytes
    decreases lines.len(),
{
    if lines.len() == 0 {
        IoBytes::zero()
    } else {
        after_fields(after_lines(lines.drop_last()), words(lines.last()))
    }
}

/// What the body of an `io.stat` file reports.
pub open spec fn parsed(body: Seq<char>) -> IoBytes {
    after_lines(lines(body))
}

fn add_field(io: IoBytes, field: &[char]) -> (r: IoBytes)
    ensures
        r == after_field(io, field@),
{
    let at: usize = position(field, '=');
    if at >= field.len() {
        return io;
    }
    let key: &[char] = slice_subrange(field, 0, at);
    assert(key@ =~= field@.take(at as int));
    let digits: &[char] = slice_subrange(field, at + 1, field.len());
    assert(digits@ =~= field@.skip(at + 1));
    match read_u64(digits) {
        None => io,
        Some(n) => if is_text(key, "rbytes") {
            IoBytes { read: io.read.saturating_add(n), ..io }
        } else if is_text(key, "wbytes") {
            IoBytes { write: io.write.saturating_add(n), ..io }
        } else if is_text(key, "dbytes") {
            IoBytes { discard: io.discard.saturating_add(n), ..io }
        } else {
            io
        },
    }
}

fn add_line(io: IoBytes, line: &[char]) -> (r: IoBytes)
    ensures
        r == after_fields(io, words(line@)),
{
    let fields: Vec<Vec<char>> = split_words(line);
    let ghost fs = runs(fields@);
    let mut out: IoBytes = io;
    let mut i: usize = 0;
    assert(fs.take(0) =~= seq![]);
    while i < fields.len()
        invariant
            i <= fields@.len(),
            fs == runs(fields@),
            out == after_fields(io, fs.take(i as int)),
        decreases fields@.len() - i,
    {
        out = add_field(out, &fields[i]);
        proof {
            let t = fs.take(i + 1);
            assert(t.drop_last() =~= fs.take(i as int));
            assert(t.last() == fields@[i as int]@);
        }
        i += 1;
    }
    assert(fs.take(i as int) =~= fs);
    out
}

/// Parse an `io.stat` body.
///
/// One line per device:
/// ```text
/// 259:0 rbytes=6101106688 wbytes=39976960 rios=52385 wios=1364 dbytes=0 dios=0
/// ```
pub fn parse(body: &str) -> (r: IoBytes)
    ensures
        r == parsed(body@),
{
    let all: Vec<Vec<char>> = split_lines(&to_chars(body));
    let ghost ls = runs(all@);
    let mut out: IoBytes = IoBytes::default();
    let mut i: usize = 0;
    assert(ls.take(0) =~= seq![]);
    while i < all.len()
        invariant
            i <= all@.len(),
            ls == runs(all@),
            out == after_lines(ls.take(i as int)),
        decreases all@.len() - i,
    {
        out = add_line(out, &all[i]);
        proof {
            let t = ls.take(i + 1);
            assert(t.drop_last() =~= ls.take(i as int));
            assert(t.last() == all@[i as int]@);
        }
        i += 1;
    }
    assert(ls.take(i as int) =~= ls);
    out
}

/// What the body of one cgroup's `io.stat` reports, if there is one.
///
/// None is normal: cgroups without block IO controllers have no `io.stat` at
/// all, and that is not an error to report.
pub open spec fn reported(body: Option<String>) -> Option<IoBytes> {
    match body {
        Some(b) => Some(parsed(b@)),
        None => None,
    }
}

/// See [`reported`].
pub fn read(body: &Option<String>) -> (r: Option<IoBytes>)
    ensures
        r == reported(*body),
{
    match body {
        Some(b) => Some(parse(b.as_str())),
        None => None,
    }
}

/// One cgroup's `io.stat`, if it could be read.
#[derive(Debug)]
pub struct StatBody {
    pub cgroup: String,
    pub body: Option<String>,
}

/// The bytes of one cgroup.
#[derive(Debug)]
pub struct Moved {
    pub cgroup: String,
    pub bytes: IoBytes,
}

/// What a sample shows.
pub open spec fn shown(m: Seq<Moved>) -> Seq<(Seq<char>, IoBytes)> {
    Seq::new(m.len(), |i: int| (m[i].cgroup@, m[i].bytes))
}

/// The cgroups that have an `io.stat`, each with its bytes.
pub open spec fn sampled(bodies: Seq<StatBody>) -> Seq<(Seq<char>, IoBytes)>
    decreases bodies.len(),
{
    if bodies.len() == 0 {
        seq![]
    } else {
        let rest = sampled(bodies.drop_last());
        match reported(bodies.last().body) {
            Some(b) => rest.push((bodies.last().cgroup@, b)),
            None => rest,
        }
    }
}

/// The bytes of every cgroup that has an `io.stat`.
///
/// Cgroups without the file are left out rather than recorded as zero: a cgroup
/// that appears between two samples is absent from the first one and gets
/// skipped when diffing, instead of showing up as a huge bogus delta.
pub fn sample(bodies: &Vec<StatBody>) -> (r: Vec<Moved>)
    ensures
        shown(r@) == sampled(bodies@),
{
    let mut out: Vec<Moved> = Vec::new();
    let mut i: usize = 0;
    assert(bodies@.take(0) =~= seq![]);
    assert(shown(out@) =~= seq![]);
    while i < bodies.len()
        invariant
            i <= bodies@.len(),
            shown(out@) == sampled(bodies@.take(i as int)),
        decreases bodies@.len() - i,
    {
        let ghost before = out@;
        let ghost t = bodies@.take(i + 1);
        assert(t.drop_last() =~= bodies@.take(i as int));
        if let Some(bytes) = read(&bodies[i].body) {
            out.push(Moved { cgroup: bodies[i].cgroup.clone(), bytes });
            assert(shown(out@) =~= shown(before).push((bodies@[i as int].cgroup@, bytes)));
        }
        i += 1;
    }
    assert(bodies@.take(i as int) =~= bodies@);
    out
}

/// The bytes of two readings together.
pub open spec fn together(a: IoBytes, b: IoBytes) -> IoBytes {
    IoBytes {
        read: plus(a.read, b.read),
        write: plus(a.write, b.write),
        discard: plus(a.discard, b.discard),
    }
}

proof fn lemma_fields_add_up(io: IoBytes, fields: Seq<Seq<char>>)
    ensures
        after_fields(io, fields) == together(io, after_fields(IoBytes::zero(), fields)),
    decreases fields.len(),
{
    if fields.len() > 0 {
        lemma_fields_add_up(io, fields.drop_last());
    }
}

proof fn lemma_lines_add_up(a: Seq<Seq<char>>, b: Seq<Seq<char>>)
    ensures
        after_lines(a + b) == together(after_lines(a), after_lines(b)),
    decreases b.len(),
{
    if b.len() == 0 {
        assert(a + b =~= a);
    } else {
        let w = words(b.last());
        assert((a + b).drop_last() =~= a + b.drop_last());
        lemma_lines_add_up(a, b.drop_last());
        lemma_fields_add_up(after_lines((a + b).drop_last()), w);
        lemma_fields_add_up(after_lines(b.drop_last()), w);
    }
}

/// Devices add up: a body behind another, whose lines are complete, reports what
/// the two report together.
pub proof fn lemma_bodies_add_up(a: Seq<char>, b: Seq<char>)
    requires
        a.len() == 0 || a.last() == '\n',
    ensures
        parsed(a + b) == together(parsed(a), parsed(b)),
{
    lemma_lines_behind(a, b);
    lemma_lines_add_up(lines(a), lines(b));
}

/// Discards never count toward what a cgroup moved.
pub proof fn lemma_discard_is_excluded_from_total(io: IoBytes, discard: u64)
    ensures
        (IoBytes { discard, ..io }).moved() == io.moved(),
{
}

/// Where a counter went back, nothing was added.
pub proof fn lemma_delta_saturates(before: IoBytes, after: IoBytes)
    requires
        after.read <= before.read,
        after.write <= before.write,
        after.discard <= before.discard,
    ensures
        after.since(before) == IoBytes::zero(),
{
}

} // verus!
