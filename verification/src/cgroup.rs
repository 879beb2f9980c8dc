//! The cgroup v2 tree, and turning kernel paths into human names.

use vstd::prelude::*;
use vstd::slice::slice_subrange;
use vstd::utf8::encode_utf8;

use crate::path::{file_name, last_name, normal, same_path};
use crate::psi::{Psi, Resource, Snapshot};
use crate::psi;
use crate::text::{
    after_prefix, before_suffix, copy_text, find_last, from_chars, is_text, parse_nat,
    position_last, push_chars, read_nat, strip_prefix, strip_suffix, texts, to_chars,
};

verus! {

pub const ROOT: &'static str = "/sys/fs/cgroup";

/// One entry of a directory listing.
#[derive(Debug)]
pub struct Entry {
    pub path: String,
    /// A directory itself, not a link to one: following a link could loop.
    pub is_dir: bool,
}

/// The paths of the directories among some entries.
pub open spec fn directories(entries: Seq<Entry>) -> Seq<Seq<char>>
    decreases entries.len(),
{
    if entries.len() == 0 {
        seq![]
    } else if entries.last().is_dir {
        directories(entries.drop_last()).push(entries.last().path@)
    } else {
        directories(entries.drop_last())
    }
}

/// What of a listing is a cgroup to record and to list next: the directories,
/// in the order they are listed in.
pub fn walk(entries: &Vec<Entry>, out: &mut Vec<String>)
    ensures
        texts(final(out)@) == texts(old(out)@) + directories(entries@),
{
    let ghost o = texts(out@);
    let mut i: usize = 0;
    assert(entries@.take(0) =~= seq![]);
    assert(texts(out@) =~= o + directories(entries@.take(0)));
    while i < entries.len()
        invariant
            i <= entries@.len(),
            texts(out@) == o + directories(entries@.take(i as int)),
        decreases entries@.len() - i,
    {
        let ghost before = out@;
        let ghost t = entries@.take(i + 1);
        assert(t.drop_last() =~= entries@.take(i as int));
        if entries[i].is_dir {
            out.push(entries[i].path.clone());
            assert(texts(out@) =~= texts(before).push(entries@[i as int].path@));
        }
        assert(texts(out@) =~= o + directories(t));
        i += 1;
    }
    assert(entries@.take(i as int) =~= entries@);
}

/// Every cgroup on the system: the root, then what lies below it.
pub fn all(below: Vec<String>) -> (r: Vec<String>)
    ensures
        texts(r@) == seq![ROOT@] + texts(below@),
{
    let mut v: Vec<String> = Vec::new();
    let mut rest: Vec<String> = below;
    v.push(copy_text(ROOT));
    v.append(&mut rest);
    assert(texts(v@) =~= seq![ROOT@] + texts(below@));
    v
}

/// The pressure files of one cgroup, those that could be read.
#[derive(Debug)]
pub struct Bodies {
    pub cgroup: String,
    pub cpu: Option<String>,
    pub memory: Option<String>,
    pub io: Option<String>,
}

impl Bodies {
    /// The body of one resource's file.
    pub open spec fn of(&self, r: Resource) -> Option<String> {
        match r {
            Resource::Cpu => self.cpu,
            Resource::Memory => self.memory,
            Resource::Io => self.io,
        }
    }

    /// Could any of the files be read?
    pub open spec fn any(&self) -> bool {
        self.cpu is Some || self.memory is Some || self.io is Some
    }

    /// What the files report; an absent one counts as nothing stalled.
    pub open spec fn snapshot(&self) -> Snapshot {
        Snapshot {
            cpu: reported(self.cpu),
            memory: reported(self.memory),
            io: reported(self.io),
        }
    }

    fn read(&self) -> (r: Snapshot)
        ensures
            r == self.snapshot(),
    {
        let mut snap: Snapshot = Snapshot::default();
        if let Some(body) = &self.cpu {
            snap.set(Resource::Cpu, psi::parse(body.as_str()));
        }
        if let Some(body) = &self.memory {
            snap.set(Resource::Memory, psi::parse(body.as_str()));
        }
        if let Some(body) = &self.io {
            snap.set(Resource::Io, psi::parse(body.as_str()));
        }
        snap
    }
}

/// What one file reports.
pub open spec fn reported(body: Option<String>) -> Psi {
    match body {
        Some(b) => psi::parsed(b@),
        None => Psi { some_total_us: 0, full_total_us: 0 },
    }
}

/// The figures of one cgroup.
#[derive(Debug)]
pub struct Sampled {
    pub cgroup: String,
    pub snapshot: Snapshot,
}

/// The cgroups with a readable pressure file, each with its figures.
pub open spec fn sampled(bodies: Seq<Bodies>) -> Seq<(Seq<char>, Snapshot)>
    decreases bodies.len(),
{
    if bodies.len() == 0 {
        seq![]
    } else if bodies.last().any() {
        sampled(bodies.drop_last()).push((bodies.last().cgroup@, bodies.last().snapshot()))
    } else {
        sampled(bodies.drop_last())
    }
}

/// A sample by the paths and figures in it.
pub open spec fn figures(sample: Seq<Sampled>) -> Seq<(Seq<char>, Snapshot)> {
    Seq::new(sample.len(), |i: int| (sample[i].cgroup@, sample[i].snapshot))
}

/// The PSI of every cgroup that exposes it.
///
/// Cgroups without pressure files are left out rather than recorded as zero, so
/// a cgroup created between two samples is absent from the first one and gets
/// skipped when diffing instead of appearing as a huge bogus delta.
pub fn sample(bodies: &Vec<Bodies>) -> (r: Vec<Sampled>)
    ensures
        figures(r@) == sampled(bodies@),
{
    let mut out: Vec<Sampled> = Vec::new();
    let mut i: usize = 0;
    assert(bodies@.take(0) =~= seq![]);
    assert(figures(out@) =~= sampled(bodies@.take(0)));
    while i < bodies.len()
        invariant
            i <= bodies@.len(),
            figures(out@) == sampled(bodies@.take(i as int)),
        decreases bodies@.len() - i,
    {
        let b: &Bodies = &bodies[i];
        let ghost before = out@;
        let ghost t = bodies@.take(i + 1);
        assert(t.drop_last() =~= bodies@.take(i as int));
        if b.cpu.is_some() || b.memory.is_some() || b.io.is_some() {
            out.push(Sampled { cgroup: b.cgroup.clone(), snapshot: b.read() });
            assert(figures(out@) =~= figures(before).push((b.cgroup@, b.snapshot())));
        }
        assert(figures(out@) =~= sampled(t));
        i += 1;
    }
    assert(bodies@.take(i as int) =~= bodies@);
    out
}

/// A byte as the character with that number.
pub open spec fn latin1(b: u8) -> char {
    b as char
}

/// The byte that an escape at the start stands for: `\x` and two characters
/// that read as a hexadecimal number.
pub open spec fn escape(b: Seq<u8>) -> Option<nat> {
    if b.len() >= 4 && b[0] == 0x5c && b[1] == 0x78 {
        parse_nat(seq![latin1(b[2]), latin1(b[3])], 16, 255)
    } else {
        None
    }
}

/// The name with its escapes decoded. It is read byte by byte: each byte that is
/// no part of an escape is the character with its number, as one that an escape
/// gives is.
pub open spec fn unescaped(b: Seq<u8>) -> Seq<char>
    decreases b.len(),
{
    if b.len() == 0 {
        seq![]
    } else {
        match escape(b) {
            Some(v) => seq![latin1(v as u8)] + unescaped(b.skip(4)),
            None => seq![latin1(b[0])] + unescaped(b.drop_first()),
        }
    }
}

/// Decode systemd's cgroup name escaping: `\x2d` -> `-`.
pub fn unescape_systemd(name: &str) -> (r: String)
    ensures
        r@ == unescaped(encode_utf8(name@)),
{
    let bytes: &[u8] = name.as_bytes();
    let ghost all = bytes@;
    let mut out: String = String::new();
    let mut i: usize = 0;
    assert(all.skip(0) =~= all);
    assert(out@ + unescaped(all) =~= unescaped(all));
    while i < bytes.len()
        invariant
            i <= bytes@.len(),
            bytes@ == all,
            out@ + unescaped(all.skip(i as int)) == unescaped(all),
        decreases bytes@.len() - i,
    {
        let ghost rest = all.skip(i as int);
        let ghost out0 = out@;
        let mut code: Option<u64> = None;
        if bytes.len() - i >= 4 && bytes[i] == 0x5c && bytes[i + 1] == 0x78 {
            let mut digits: Vec<char> = Vec::new();
            digits.push(bytes[i + 2] as char);
            digits.push(bytes[i + 3] as char);
            assert(digits@ =~= seq![latin1(rest[2]), latin1(rest[3])]);
            code = read_nat(&digits, 16, 255);
        }
        assert(code is Some == escape(rest) is Some);
        match code {
            Some(v) => {
                out.push(v as u8 as char);
                i += 4;
                assert(rest.skip(4) =~= all.skip(i as int));
                assert(out@ + unescaped(rest.skip(4)) =~= out0 + unescaped(rest));
            },
            None => {
                out.push(bytes[i] as char);
                i += 1;
                assert(rest.drop_first() =~= all.skip(i as int));
                assert(out@ + unescaped(rest.drop_first()) =~= out0 + unescaped(rest));
            },
        }
    }
    assert(out@ =~= unescaped(all));
    out
}

// ── names ──────────────────────────────────────────────────────────────

/// Slices are aggregates, not programs, and are named as such.
pub open spec fn slice_name(slice: Seq<char>) -> Seq<char> {
    if slice == "app"@ {
        "all user apps"@
    } else if slice == "system"@ {
        "all system services"@
    } else if slice == "user"@ {
        "all user sessions"@
    } else if slice == "background"@ {
        "background tasks"@
    } else if slice == "session"@ {
        "desktop session"@
    } else if slice == "machine"@ {
        "VMs and containers"@
    } else {
        slice + " (group)"@
    }
}

/// A unit's name without the ending of its kind.
pub open spec fn unit_stem(name: Seq<char>) -> Seq<char> {
    match before_suffix(name, ".service"@) {
        Some(s) => s,
        None => match before_suffix(name, ".scope"@) {
            Some(s) => s,
            None => name,
        },
    }
}

/// A unit's stem without its instance number.
pub open spec fn without_instance(stem: Seq<char>) -> Seq<char> {
    let at = find_last(stem, '@') as int;
    if at > 1 && all_ascii_digits(stem.skip(at)) {
        stem.take(at - 1)
    } else {
        stem
    }
}

pub open spec fn is_ascii_digit(c: char) -> bool {
    '0' <= c <= '9'
}

pub open spec fn all_ascii_digits(s: Seq<char>) -> bool {
    forall|i: int| 0 <= i < s.len() ==> is_ascii_digit(#[trigger] s[i])
}

/// What stands before the last dash, all of it where there is none.
pub open spec fn before_last_dash(s: Seq<char>) -> Seq<char> {
    let at = find_last(s, '-') as int;
    if at > 0 {
        s.take(at - 1)
    } else {
        s
    }
}

/// What stands after the last dot, all of it where there is none.
pub open spec fn after_last_dot(s: Seq<char>) -> Seq<char> {
    s.skip(find_last(s, '.') as int)
}

/// The name of a unit that is no slice and no user session.
pub open spec fn stem_name(stem: Seq<char>) -> Seq<char> {
    match after_prefix(stem, "app-flatpak-"@) {
        Some(rest) => after_last_dot(before_last_dash(rest)) + " (flatpak)"@,
        None => match after_prefix(stem, "app-"@) {
            Some(rest) => before_last_dash(rest),
            None => if stem.len() == 0 {
                "whole system (root cgroup)"@
            } else {
                stem
            },
        },
    }
}

/// The name of a unit. A user session is told apart before instance numbers
/// are dropped, which would leave a bare "user" of it.
pub open spec fn unit_name(name: Seq<char>) -> Seq<char> {
    match before_suffix(name, ".slice"@) {
        Some(slice) => slice_name(slice),
        None => match after_prefix(unit_stem(name), "user@"@) {
            Some(uid) => "user session "@ + uid,
            None => stem_name(without_instance(unit_stem(name))),
        },
    }
}

/// The name that a human recognises a cgroup by.
pub open spec fn friendly(path: Seq<char>) -> Seq<char> {
    if normal(path) == normal(ROOT@) {
        "whole system (root cgroup)"@
    } else {
        let raw = match file_name(path) {
            Some(n) => n,
            None => "<unknown>"@,
        };
        unit_name(unescaped(encode_utf8(raw)))
    }
}

fn name_slice(slice: &[char]) -> (r: String)
    ensures
        r@ == slice_name(slice@),
{
    if is_text(slice, "app") {
        copy_text("all user apps")
    } else if is_text(slice, "system") {
        copy_text("all system services")
    } else if is_text(slice, "user") {
        copy_text("all user sessions")
    } else if is_text(slice, "background") {
        copy_text("background tasks")
    } else if is_text(slice, "session") {
        copy_text("desktop session")
    } else if is_text(slice, "machine") {
        copy_text("VMs and containers")
    } else {
        let mut out: String = from_chars(slice);
        out.push_str(" (group)");
        out
    }
}

fn drop_last_dash(s: &[char]) -> (r: &[char])
    ensures
        r@ == before_last_dash(s@),
{
    let at: usize = position_last(s, '-');
    if at > 0 {
        assert(s@.take(at - 1) =~= s@.subrange(0, at - 1));
        slice_subrange(s, 0, at - 1)
    } else {
        s
    }
}

fn drop_instance(s: &[char]) -> (r: &[char])
    ensures
        r@ == without_instance(s@),
{
    let at: usize = position_last(s, '@');
    if at > 1 {
        let mut i: usize = at;
        let ghost tail = s@.skip(at as int);
        while i < s.len()
            invariant
                at <= i <= s@.len(),
                tail == s@.skip(at as int),
                at == find_last(s@, '@'),
                forall|k: int| 0 <= k < i - at ==> is_ascii_digit(#[trigger] tail[k]),
            decreases s@.len() - i,
        {
            if !('0' <= s[i] && s[i] <= '9') {
                assert(!is_ascii_digit(tail[i - at]));
                return s;
            }
            assert(tail[i - at] == s@[i as int]);
            i += 1;
        }
        assert(s@.take(at - 1) =~= s@.subrange(0, at - 1));
        slice_subrange(s, 0, at - 1)
    } else {
        s
    }
}

fn name_stem(stem: &[char]) -> (r: String)
    ensures
        r@ == stem_name(stem@),
{
    if let Some(rest) = strip_prefix(stem, "app-flatpak-") {
        let app: &[char] = drop_last_dash(rest);
        let dot: usize = position_last(app, '.');
        assert(app@.skip(dot as int) =~= app@.subrange(dot as int, app@.len() as int));
        let mut out: String = from_chars(slice_subrange(app, dot, app.len()));
        out.push_str(" (flatpak)");
        return out;
    }
    if let Some(rest) = strip_prefix(stem, "app-") {
        return from_chars(drop_last_dash(rest));
    }
    if stem.len() == 0 {
        return copy_text("whole system (root cgroup)");
    }
    from_chars(stem)
}

fn name_unit(name: &[char]) -> (r: String)
    ensures
        r@ == unit_name(name@),
{
    if let Some(slice) = strip_suffix(name, ".slice") {
        return name_slice(slice);
    }
    let stem: &[char] = match strip_suffix(name, ".service") {
        Some(s) => s,
        None => match strip_suffix(name, ".scope") {
            Some(s) => s,
            None => name,
        },
    };
    assert(stem@ == unit_stem(name@));
    if let Some(uid) = strip_prefix(stem, "user@") {
        let mut out: String = copy_text("user session ");
        push_chars(&mut out, uid);
        return out;
    }
    name_stem(drop_instance(stem))
}

/// Turn a cgroup path into something a human recognises.
///
/// ```text
/// app-flatpak-org.mozilla.firefox-1234.scope -> firefox (flatpak)
/// app-com.mitchellh.ghostty.service          -> com.mitchellh.ghostty
/// user@1000.service                          -> user session 1000
/// app.slice                                  -> all user apps
/// ```
pub fn friendly_name(cgroup: &str) -> (r: String)
    ensures
        r@ == friendly(cgroup@),
{
    let path: Vec<char> = to_chars(cgroup);
    if same_path(&path, &to_chars(ROOT)) {
        return copy_text("whole system (root cgroup)");
    }
    let raw: String = match last_name(&path) {
        Some(n) => from_chars(&n),
        None => copy_text("<unknown>"),
    };
    let name: String = unescape_systemd(raw.as_str());
    name_unit(&to_chars(name.as_str()))
}

} // verus!
