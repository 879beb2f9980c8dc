//! Parsing kernel Pressure Stall Information.
//!
//! Every PSI file — `/proc/pressure/{cpu,memory,io}` and the per-cgroup
//! `{cpu,memory,io}.pressure` — has the same shape:
//!
//! ```text
//! some avg10=77.92 avg60=81.60 avg300=86.31 total=61110128878
//! full avg10=61.09 avg60=68.36 avg300=71.82 total=57620142644
//! ```
//!
//! Only `total` is taken. The averages decay over a window that nobody asked
//! about; a difference of totals covers exactly the window that was observed.

use vstd::prelude::*;

use crate::text::{
    after_prefix, is_text, lines, parse_u64, read_u64, runs, split_lines, split_words, strip_prefix,
    to_chars, words,
};

verus! {

/// Which resource tasks are blocked on.
#[derive(Clone, Copy, Debug, PartialEq, Eq, Structural, Hash)]
pub enum Resource {
    Cpu,
    Memory,
    Io,
}

impl Resource {
    /// All resources, in the order they are reported in.
    pub open spec fn spec_all() -> Seq<Resource> {
        seq![Resource::Cpu, Resource::Memory, Resource::Io]
    }

    /// See [`Resource::spec_all`].
    pub fn all() -> (r: Vec<Resource>)
        ensures
            r@ == Resource::spec_all(),
    {
        let mut v: Vec<Resource> = Vec::new();
        v.push(Resource::Cpu);
        v.push(Resource::Memory);
        v.push(Resource::Io);
        assert(v@ =~= Resource::spec_all());
        v
    }

    /// The name on the wire.
    pub open spec fn name(&self) -> Seq<char> {
        match self {
            Resource::Cpu => "cpu"@,
            Resource::Memory => "memory"@,
            Resource::Io => "io"@,
        }
    }

    /// See [`Resource::name`].
    pub fn as_str(&self) -> (r: &'static str)
        ensures
            r@ == self.name(),
    {
        match self {
            Resource::Cpu => "cpu",
            Resource::Memory => "memory",
            Resource::Io => "io",
        }
    }

    /// The pressure file of this resource in a cgroup's directory.
    pub open spec fn file_name(&self) -> Seq<char> {
        match self {
            Resource::Cpu => "cpu.pressure"@,
            Resource::Memory => "memory.pressure"@,
            Resource::Io => "io.pressure"@,
        }
    }

    /// See [`Resource::file_name`].
    pub fn file(&self) -> (r: &'static str)
        ensures
            r@ == self.file_name(),
    {
        match self {
            Resource::Cpu => "cpu.pressure",
            Resource::Memory => "memory.pressure",
            Resource::Io => "io.pressure",
        }
    }

    /// Which line carries the meaningful signal for this resource.
    ///
    /// `full` — every non-idle task blocked simultaneously — is the honest
    /// measure of "the machine stopped". But CPU pressure has no `full` line:
    /// if a task is waiting for CPU then by definition another task is running
    /// on it. For CPU it has to be `some`.
    pub open spec fn primary(&self) -> PsiKind {
        match self {
            Resource::Cpu => PsiKind::SomeTasks,
            _ => PsiKind::Full,
        }
    }

    /// See [`Resource::primary`].
    pub fn primary_kind(self) -> (r: PsiKind)
        ensures
            r == self.primary(),
    {
        match self {
            Resource::Cpu => PsiKind::SomeTasks,
            _ => PsiKind::Full,
        }
    }
}

/// Which PSI line a figure came from.
///
/// Named to match the Kubernetes/cAdvisor vocabulary, where `some` is surfaced
/// as "waiting" and `full` as "stalled".
#[derive(Clone, Copy, Debug, PartialEq, Eq, Structural, Hash)]
pub enum PsiKind {
    /// At least one task was blocked.
    SomeTasks,
    /// Every non-idle task was blocked at once.
    Full,
}

impl PsiKind {
    /// The name on the wire.
    pub open spec fn name(&self) -> Seq<char> {
        match self {
            PsiKind::SomeTasks => "some"@,
            PsiKind::Full => "full"@,
        }
    }

    /// See [`PsiKind::name`].
    pub fn as_str(&self) -> (r: &'static str)
        ensures
            r@ == self.name(),
    {
        match self {
            PsiKind::SomeTasks => "some",
            PsiKind::Full => "full",
        }
    }
}

/// Cumulative microseconds stalled, as reported by one PSI file.
#[derive(Clone, Copy, Debug, PartialEq, Eq, Structural)]
pub struct Psi {
    pub some_total_us: u64,
    pub full_total_us: u64,
}

impl Default for Psi {
    fn default() -> (r: Psi)
        ensures
            r == (Psi { some_total_us: 0, full_total_us: 0 }),
    {
        Psi { some_total_us: 0, full_total_us: 0 }
    }
}

impl Psi {
    /// The total of one line.
    pub open spec fn total(&self, kind: PsiKind) -> u64 {
        match kind {
            PsiKind::SomeTasks => self.some_total_us,
            PsiKind::Full => self.full_total_us,
        }
    }

    /// See [`Psi::total`].
    pub fn total_for(&self, kind: PsiKind) -> (r: u64)
        ensures
            r == self.total(kind),
    {
        match kind {
            PsiKind::SomeTasks => self.some_total_us,
            PsiKind::Full => self.full_total_us,
        }
    }
}

/// All three resources for one cgroup at one instant.
#[derive(Clone, Copy, Debug, PartialEq, Eq, Structural)]
pub struct Snapshot {
    pub cpu: Psi,
    pub memory: Psi,
    pub io: Psi,
}

impl Default for Snapshot {
    fn default() -> (r: Snapshot)
        ensures
            r == Snapshot::zero(),
    {
        Snapshot { cpu: Psi::default(), memory: Psi::default(), io: Psi::default() }
    }
}

impl Snapshot {
    /// Nothing stalled yet.
    pub open spec fn zero() -> Snapshot {
        let none = Psi { some_total_us: 0, full_total_us: 0 };
        Snapshot { cpu: none, memory: none, io: none }
    }

    /// The figures of one resource.
    pub open spec fn of(&self, r: Resource) -> Psi {
        match r {
            Resource::Cpu => self.cpu,
            Resource::Memory => self.memory,
            Resource::Io => self.io,
        }
    }

    /// The snapshot with the figures of one resource replaced.
    pub open spec fn with(&self, r: Resource, p: Psi) -> Snapshot {
        match r {
            Resource::Cpu => Snapshot { cpu: p, ..*self },
            Resource::Memory => Snapshot { memory: p, ..*self },
            Resource::Io => Snapshot { io: p, ..*self },
        }
    }

    /// See [`Snapshot::of`].
    pub fn get(&self, r: Resource) -> (p: Psi)
        ensures
            p == self.of(r),
    {
        match r {
            Resource::Cpu => self.cpu,
            Resource::Memory => self.memory,
            Resource::Io => self.io,
        }
    }

    /// See [`Snapshot::with`].
    pub fn set(&mut self, r: Resource, p: Psi)
        ensures
            *final(self) == old(self).with(r, p),
    {
        match r {
            Resource::Cpu => self.cpu = p,
            Resource::Memory => self.memory = p,
            Resource::Io => self.io = p,
        }
    }
}

/// The first `total=` field with a number in it, zero where there is none.
pub open spec fn total_field(fields: Seq<Seq<char>>) -> nat
    decreases fields.len(),
{
    if fields.len() == 0 {
        0
    } else {
        match field_total(fields[0]) {
            Some(n) => n,
            None => total_field(fields.drop_first()),
        }
    }
}

/// The number in a `total=` field.
pub open spec fn field_total(field: Seq<char>) -> Option<nat> {
    match after_prefix(field, "total="@) {
        Some(digits) => parse_u64(digits),
        None => None,
    }
}

/// What one line of a PSI file changes. A line that is neither `some` nor
/// `full` changes nothing.
pub open spec fn after_line(psi: Psi, line: Seq<char>) -> Psi {
    let fields = words(line);
    if fields.len() == 0 {
        psi
    } else if fields[0] == "some"@ {
        Psi { some_total_us: total_field(fields.drop_first()) as u64, ..psi }
    } else if fields[0] == "full"@ {
        Psi { full_total_us: total_field(fields.drop_first()) as u64, ..psi }
    } else {
        psi
    }
}

/// What the lines of a PSI file report, one after another.
pub open spec fn after_lines(lines: Seq<Seq<char>>) -> Psi
    decreases lines.len(),
{
    if lines.len() == 0 {
        Psi { some_total_us: 0, full_total_us: 0 }
    } else {
        after_line(after_lines(lines.drop_last()), lines.last())
    }
}

/// What the body of a PSI file reports.
pub open spec fn parsed(body: Seq<char>) -> Psi {
    after_lines(lines(body))
}

proof fn lemma_total_fits(fields: Seq<Seq<char>>)
    ensures
        total_field(fields) <= u64::MAX,
    decreases fields.len(),
{
    if fields.len() > 0 {
        lemma_total_fits(fields.drop_first());
    }
}

/// See [`total_field`]; the first field is the line's name.
fn find_total(fields: &Vec<Vec<char>>) -> (r: u64)
    requires
        fields@.len() > 0,
    ensures
        r == total_field(runs(fields@).drop_first()),
{
    let ghost all = runs(fields@);
    let mut i: usize = 1;
    assert(all.skip(1) =~= all.drop_first());
    while i < fields.len()
        invariant
            1 <= i <= fields@.len(),
            all == runs(fields@),
            total_field(all.skip(i as int)) == total_field(all.drop_first()),
        decreases fields@.len() - i,
    {
        let ghost rest = all.skip(i as int);
        assert(rest[0] == fields@[i as int]@);
        assert(rest.drop_first() =~= all.skip(i + 1));
        if let Some(digits) = strip_prefix(&fields[i], "total=") {
            if let Some(n) = read_u64(digits) {
                return n;
            }
        }
        i += 1;
    }
    0
}

/// Parse a PSI file body.
///
/// Tolerant by design: a missing `full` line is normal for CPU and on older
/// kernels, and a malformed line should not take down a diagnostic tool.
pub fn parse(body: &str) -> (r: Psi)
    ensures
        r == parsed(body@),
{
    let all: Vec<Vec<char>> = split_lines(&to_chars(body));
    let ghost ls = runs(all@);
    let mut psi: Psi = Psi::default();
    let mut i: usize = 0;
    assert(ls.take(0) =~= seq![]);
    while i < all.len()
        invariant
            i <= all@.len(),
            ls == runs(all@),
            psi == after_lines(ls.take(i as int)),
        decreases all@.len() - i,
    {
        proof {
            let t = ls.take(i + 1);
            assert(t.drop_last() =~= ls.take(i as int));
            assert(t.last() == all@[i as int]@);
        }
        let fields: Vec<Vec<char>> = split_words(&all[i]);
        assert(runs(fields@).len() == fields@.len());
        if fields.len() > 0 {
            assert(runs(fields@)[0] == fields@[0]@);
            let total: u64 = find_total(&fields);
            if is_text(&fields[0], "some") {
                psi.some_total_us = total;
            } else if is_text(&fields[0], "full") {
                psi.full_total_us = total;
            }
        }
        i += 1;
    }
    assert(ls.take(i as int) =~= ls);
    psi
}

/// A line with neither name reports nothing, wherever it stands: a malformed
/// line costs only itself.
pub proof fn lemma_foreign_line_changes_nothing(before: Seq<Seq<char>>, line: Seq<char>)
    requires
        words(line).len() == 0 || (words(line)[0] != "some"@ && words(line)[0] != "full"@),
    ensures
        after_lines(before.push(line)) == after_lines(before),
{
    assert(before.push(line).drop_last() =~= before);
}

/// A body without a `full` line reports no time fully stalled.
pub proof fn lemma_missing_full_line_is_zero(lines: Seq<Seq<char>>)
    requires
        forall|i: int|
            0 <= i < lines.len() ==> words(#[trigger] lines[i]).len() == 0 || words(lines[i])[0]
                != "full"@,
    ensures
        after_lines(lines).full_total_us == 0,
    decreases lines.len(),
{
    if lines.len() > 0 {
        assert forall|i: int| 0 <= i < lines.drop_last().len() implies words(
            #[trigger] lines.drop_last()[i],
        ).len() == 0 || words(lines.drop_last()[i])[0] != "full"@ by {
            assert(lines.drop_last()[i] == lines[i]);
        }
        lemma_missing_full_line_is_zero(lines.drop_last());
    }
}

} // verus!
