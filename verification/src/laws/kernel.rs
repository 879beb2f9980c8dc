//! What the kernel's files say, told line by line, and what is asked of it.

use vstd::prelude::*;

use crate::cgroup::{Bodies, Entry, directories, sampled};
use crate::iostat::{self, IoBytes, StatBody, after_field, after_fields};
use crate::process::{after_io_lines, stat_in};
use crate::psi::{Psi, PsiKind, Resource, Snapshot, after_lines, field_total, total_field};
use crate::span::Span;
use crate::text::{decimal, find_last, lemma_find_last, lines, parse_u64, starts_with, trim, words};
use crate::trigger::{
    Answer, Wake, accepted_threshold, accepted_window, answer, registration, request,
};

verus! {

// ── pressure files ─────────────────────────────────────────────────────

/// Is this the first of the words behind a line's name that gives a total?
pub open spec fn first_total(line: Seq<char>, f: int) -> bool {
    let w = words(line);
    &&& 1 <= f < w.len()
    &&& field_total(w[f]) is Some
    &&& forall|k: int| 1 <= k < f ==> field_total(#[trigger] w[k]) is None
}

/// Is this the last of some lines that begins with this word?
pub open spec fn last_line_of(l: Seq<Seq<char>>, name: Seq<char>, k: int) -> bool {
    &&& 0 <= k < l.len()
    &&& words(l[k]).len() > 0
    &&& words(l[k])[0] == name
    &&& forall|m: int|
        k < m < l.len() ==> words(#[trigger] l[m]).len() == 0 || words(l[m])[0] != name
}

proof fn lemma_total_field(fields: Seq<Seq<char>>, f: int)
    requires
        0 <= f < fields.len(),
        field_total(fields[f]) is Some,
        forall|k: int| 0 <= k < f ==> field_total(#[trigger] fields[k]) is None,
    ensures
        total_field(fields) == field_total(fields[f])->0,
    decreases fields.len(),
{
    if f > 0 {
        let t = fields.drop_first();
        assert(field_total(fields[0]) is None);
        assert forall|k: int| 0 <= k < f - 1 implies field_total(#[trigger] t[k]) is None by {
            assert(t[k] == fields[k + 1]);
        }
        lemma_total_field(t, f - 1);
    }
}

proof fn lemma_no_total_field(fields: Seq<Seq<char>>)
    requires
        forall|k: int| 0 <= k < fields.len() ==> field_total(#[trigger] fields[k]) is None,
    ensures
        total_field(fields) == 0,
    decreases fields.len(),
{
    if fields.len() > 0 {
        let t = fields.drop_first();
        assert(field_total(fields[0]) is None);
        assert forall|k: int| 0 <= k < t.len() implies field_total(#[trigger] t[k]) is None by {
            assert(t[k] == fields[k + 1]);
        }
        lemma_no_total_field(t);
    }
}

proof fn lemma_words_of_line(line: Seq<char>, f: int)
    requires
        words(line).len() > 0,
    ensures
        first_total(line, f) ==> total_field(words(line).drop_first()) == field_total(
            words(line)[f],
        )->0,
        (forall|k: int| 1 <= k < words(line).len() ==> field_total(#[trigger] words(line)[k]) is None)
            ==> total_field(words(line).drop_first()) == 0,
{
    let w = words(line);
    let t = w.drop_first();
    if first_total(line, f) {
        assert(t[f - 1] == w[f]);
        assert forall|k: int| 0 <= k < f - 1 implies field_total(#[trigger] t[k]) is None by {
            assert(t[k] == w[k + 1]);
        }
        lemma_total_field(t, f - 1);
    }
    if forall|k: int| 1 <= k < w.len() ==> field_total(#[trigger] w[k]) is None {
        assert forall|k: int| 0 <= k < t.len() implies field_total(#[trigger] t[k]) is None by {
            assert(t[k] == w[k + 1]);
        }
        lemma_no_total_field(t);
    }
}

proof fn lemma_names_differ()
    ensures
        "some"@ != "full"@,
{
    reveal_strlit("some");
    reveal_strlit("full");
    assert("some"@[0] != "full"@[0]);
}

/// **A total is the one on the last line of its name**: of the line `some` for
/// the time in which some tasks waited, of the line `full` for that in which all
/// did.
pub proof fn lemma_a_total_is_on_the_line_of_its_name(l: Seq<Seq<char>>, k: int, f: int)
    requires
        0 <= k < l.len(),
        first_total(l[k], f),
        field_total(words(l[k])[f])->0 <= u64::MAX,
    ensures
        last_line_of(l, "some"@, k) ==> after_lines(l).some_total_us == field_total(
            words(l[k])[f],
        )->0,
        last_line_of(l, "full"@, k) ==> after_lines(l).full_total_us == field_total(
            words(l[k])[f],
        )->0,
    decreases l.len(),
{
    lemma_names_differ();
    lemma_words_of_line(l[k], f);
    let t = l.drop_last();
    if k < l.len() - 1 {
        assert(t[k] == l[k]);
        lemma_a_total_is_on_the_line_of_its_name(t, k, f);
        let n = l.len() - 1;
        if last_line_of(l, "some"@, k) {
            assert(words(l[n]).len() == 0 || words(l[n])[0] != "some"@);
            assert forall|m: int| k < m < t.len() implies words(#[trigger] t[m]).len() == 0
                || words(t[m])[0] != "some"@ by {
                assert(t[m] == l[m]);
            }
        }
        if last_line_of(l, "full"@, k) {
            assert(words(l[n]).len() == 0 || words(l[n])[0] != "full"@);
            assert forall|m: int| k < m < t.len() implies words(#[trigger] t[m]).len() == 0
                || words(t[m])[0] != "full"@ by {
                assert(t[m] == l[m]);
            }
        }
    }
}

/// **A line that is not there counts nothing.**
pub proof fn lemma_a_missing_line_counts_nothing(l: Seq<Seq<char>>)
    ensures
        (forall|m: int|
            0 <= m < l.len() ==> words(#[trigger] l[m]).len() == 0 || words(l[m])[0] != "some"@)
            ==> after_lines(l).some_total_us == 0,
        (forall|m: int|
            0 <= m < l.len() ==> words(#[trigger] l[m]).len() == 0 || words(l[m])[0] != "full"@)
            ==> after_lines(l).full_total_us == 0,
    decreases l.len(),
{
    lemma_names_differ();
    if l.len() > 0 {
        let t = l.drop_last();
        lemma_a_missing_line_counts_nothing(t);
        let n = l.len() - 1;
        if forall|m: int|
            0 <= m < l.len() ==> words(#[trigger] l[m]).len() == 0 || words(l[m])[0] != "some"@ {
            assert(words(l[n]).len() == 0 || words(l[n])[0] != "some"@);
            assert forall|m: int| 0 <= m < t.len() implies words(#[trigger] t[m]).len() == 0
                || words(t[m])[0] != "some"@ by {
                assert(t[m] == l[m]);
            }
        }
        if forall|m: int|
            0 <= m < l.len() ==> words(#[trigger] l[m]).len() == 0 || words(l[m])[0] != "full"@ {
            assert(words(l[n]).len() == 0 || words(l[n])[0] != "full"@);
            assert forall|m: int| 0 <= m < t.len() implies words(#[trigger] t[m]).len() == 0
                || words(t[m])[0] != "full"@ by {
                assert(t[m] == l[m]);
            }
        }
    }
}

/// **A total is the number behind `total=`.**
pub proof fn lemma_a_total_is_the_number(digits: Seq<char>, other: Seq<char>)
    ensures
        field_total("total="@ + digits) == parse_u64(digits),
        !starts_with(other, "total="@) ==> field_total(other) is None,
{
    let s = "total="@ + digits;
    assert(s.take("total="@.len() as int) =~= "total="@);
    assert(s.skip("total="@.len() as int) =~= digits);
}

// ── sampling ───────────────────────────────────────────────────────────

/// What one file says; nothing, where it could not be read.
pub open spec fn pressure_in(body: Option<String>) -> Psi {
    match body {
        Some(b) => after_lines(lines(b@)),
        None => Psi { some_total_us: 0, full_total_us: 0 },
    }
}

/// Is this what the three files of a cgroup say, each of its own resource?
pub open spec fn says(b: Bodies, s: Snapshot) -> bool {
    s.cpu == pressure_in(b.cpu) && s.memory == pressure_in(b.memory) && s.io == pressure_in(b.io)
}

/// Could any of the three files be read?
pub open spec fn readable(b: Bodies) -> bool {
    b.cpu is Some || b.memory is Some || b.io is Some
}

/// **A sample has every cgroup of which a file could be read**, with what each
/// file says.
pub proof fn lemma_what_could_be_read_is_sampled(bodies: Seq<Bodies>, i: int) -> (k: int)
    requires
        0 <= i < bodies.len(),
        readable(bodies[i]),
    ensures
        0 <= k < sampled(bodies).len(),
        sampled(bodies)[k].0 == bodies[i].cgroup@,
        says(bodies[i], sampled(bodies)[k].1),
    decreases bodies.len(),
{
    let t = bodies.drop_last();
    if i < t.len() {
        assert(t[i] == bodies[i]);
        lemma_what_could_be_read_is_sampled(t, i)
    } else {
        sampled(t).len() as int
    }
}

/// **And it has no other cgroup.**
pub proof fn lemma_what_is_sampled_could_be_read(bodies: Seq<Bodies>, k: int) -> (i: int)
    requires
        0 <= k < sampled(bodies).len(),
    ensures
        0 <= i < bodies.len(),
        readable(bodies[i]),
        sampled(bodies)[k].0 == bodies[i].cgroup@,
        says(bodies[i], sampled(bodies)[k].1),
    decreases bodies.len(),
{
    let t = bodies.drop_last();
    if k < sampled(t).len() {
        let i = lemma_what_is_sampled_could_be_read(t, k);
        assert(t[i] == bodies[i]);
        i
    } else {
        bodies.len() - 1
    }
}

/// **Every directory is gone into.**
pub proof fn lemma_every_directory_is_gone_into(entries: Seq<Entry>, i: int) -> (k: int)
    requires
        0 <= i < entries.len(),
        entries[i].is_dir,
    ensures
        0 <= k < directories(entries).len(),
        directories(entries)[k] == entries[i].path@,
    decreases entries.len(),
{
    let t = entries.drop_last();
    if i < t.len() {
        assert(t[i] == entries[i]);
        lemma_every_directory_is_gone_into(t, i)
    } else {
        directories(t).len() as int
    }
}

/// **Nothing but a directory is gone into.**
pub proof fn lemma_only_directories_are_gone_into(entries: Seq<Entry>, k: int) -> (i: int)
    requires
        0 <= k < directories(entries).len(),
    ensures
        0 <= i < entries.len(),
        entries[i].is_dir,
        directories(entries)[k] == entries[i].path@,
    decreases entries.len(),
{
    let t = entries.drop_last();
    if k < directories(t).len() {
        let i = lemma_only_directories_are_gone_into(t, k);
        assert(t[i] == entries[i]);
        i
    } else {
        entries.len() - 1
    }
}

// ── the files of a process ─────────────────────────────────────────────

/// Is this the last of some lines that begins so?
pub open spec fn last_with(l: Seq<Seq<char>>, front: Seq<char>, k: int) -> bool {
    &&& 0 <= k < l.len()
    &&& starts_with(l[k], front)
    &&& forall|m: int| k < m < l.len() ==> !starts_with(#[trigger] l[m], front)
}

/// The number on a line behind its front; zero where there is none.
pub open spec fn number_behind(line: Seq<char>, front: Seq<char>) -> int {
    match parse_u64(trim(line.skip(front.len() as int))) {
        Some(n) => n as int,
        None => 0,
    }
}

proof fn lemma_fronts_differ(line: Seq<char>)
    ensures
        !(starts_with(line, "read_bytes:"@) && starts_with(line, "write_bytes:"@)),
{
    reveal_strlit("read_bytes:");
    reveal_strlit("write_bytes:");
    if starts_with(line, "read_bytes:"@) && starts_with(line, "write_bytes:"@) {
        assert(line.take(11)[0] == 'r');
        assert(line.take(12)[0] == 'w');
    }
}

/// **Bytes read are on the line `read_bytes:`, bytes written on the line
/// `write_bytes:`**, and no other line changes them.
pub proof fn lemma_bytes_are_on_their_lines(l: Seq<Seq<char>>, k: int)
    requires
        0 <= k < l.len(),
        number_behind(l[k], "read_bytes:"@) <= u64::MAX,
        number_behind(l[k], "write_bytes:"@) <= u64::MAX,
    ensures
        last_with(l, "read_bytes:"@, k) ==> after_io_lines(l).0 == number_behind(
            l[k],
            "read_bytes:"@,
        ),
        last_with(l, "write_bytes:"@, k) ==> after_io_lines(l).1 == number_behind(
            l[k],
            "write_bytes:"@,
        ),
    decreases l.len(),
{
    let n = l.len() - 1;
    let t = l.drop_last();
    lemma_fronts_differ(l[n]);
    if k < n {
        assert(t[k] == l[k]);
        lemma_bytes_are_on_their_lines(t, k);
        if last_with(l, "read_bytes:"@, k) {
            assert(!starts_with(l[n], "read_bytes:"@));
            assert forall|m: int| k < m < t.len() implies !starts_with(
                #[trigger] t[m],
                "read_bytes:"@,
            ) by {
                assert(t[m] == l[m]);
            }
        }
        if last_with(l, "write_bytes:"@, k) {
            assert(!starts_with(l[n], "write_bytes:"@));
            assert forall|m: int| k < m < t.len() implies !starts_with(
                #[trigger] t[m],
                "write_bytes:"@,
            ) by {
                assert(t[m] == l[m]);
            }
        }
    }
}

/// **The state is the first letter behind the last parenthesis, the delay the
/// fortieth word**, whatever the name in the parentheses is.
pub proof fn lemma_state_and_delay(name: Seq<char>, rest: Seq<char>)
    requires
        forall|i: int| 0 <= i < rest.len() ==> #[trigger] rest[i] != ')',
        words(rest).len() > 0,
        words(rest)[0].len() > 0,
    ensures
        stat_in(name + seq![')'] + rest) matches Some(r) && r.0 == words(rest)[0][0],
        words(rest).len() >= 40 && parse_u64(words(rest)[39]) is Some && parse_u64(
            words(rest)[39],
        )->0 <= u64::MAX ==> (stat_in(name + seq![')'] + rest)->0).1 == parse_u64(words(rest)[39])->0,
        words(rest).len() < 40 ==> (stat_in(name + seq![')'] + rest)->0).1 == 0,
{
    let s = name + seq![')'] + rest;
    lemma_find_last(s, ')');
    let at = find_last(s, ')') as int;
    let k = name.len() as int;
    assert(s[k] == ')');
    if at > k + 1 {
        assert(s[at - 1] == rest[at - 1 - k - 1]);
    }
    assert(at == k + 1);
    assert(s.skip(at) =~= rest);
}

/// **Without a parenthesis there is no state.**
pub proof fn lemma_no_state_without_a_parenthesis(body: Seq<char>)
    requires
        forall|i: int| 0 <= i < body.len() ==> #[trigger] body[i] != ')',
    ensures
        stat_in(body) is None,
{
    lemma_find_last(body, ')');
}

// ── what is asked of the kernel ────────────────────────────────────────

/// **A window is the next multiple of two seconds**, two at least and ten at
/// most.
pub proof fn lemma_a_window_is_the_next_two_seconds(micros: nat)
    ensures
        accepted_window(micros) % 2_000_000 == 0,
        0 < micros <= 10_000_000 ==> micros <= accepted_window(micros) < micros + 2_000_000,
        micros <= 2_000_000 ==> accepted_window(micros) == 2_000_000,
        micros > 10_000_000 ==> accepted_window(micros) == 10_000_000,
{
}

/// **A threshold is what was asked for**, held between a millisecond and half of
/// the window.
pub proof fn lemma_a_threshold_is_what_was_asked_for(nanos: nat, window: nat)
    requires
        window >= 2_000_000,
    ensures
        1_000_000 <= nanos <= window / 2 ==> accepted_threshold(nanos, window) == nanos,
        nanos < 1_000_000 ==> accepted_threshold(nanos, window) == 1_000_000,
        nanos > window / 2 ==> accepted_threshold(nanos, window) == window / 2,
{
}

/// **The request is in microseconds**, the threshold before the window.
pub proof fn lemma_the_request_is_in_microseconds(
    path: Seq<char>,
    resource: Resource,
    kind: PsiKind,
    threshold: Span,
    window: Span,
)
    requires
        1_000_000 <= threshold.total_nanos() <= 1_000_000_000,
        window.total_nanos() == 2_000_000_000 || window.total_nanos() == 4_000_000_000
            || window.total_nanos() == 10_000_000_000,
    ensures
        ({
            let r = registration(path, resource, kind, threshold, window);
            &&& r.path == path
            &&& r.resource == resource
            &&& r.kind == kind
            &&& request(r) == (if kind == PsiKind::Full {
                "full"@
            } else {
                "some"@
            }) + " "@ + decimal(threshold.total_nanos() / 1000) + " "@ + decimal(
                window.total_nanos() / 1000,
            ) + "\n"@
        }),
{
}

/// **What a wait came back with.** Interrupted is no answer, nothing within the
/// time is quiet, an error condition means that the file is gone, and anything
/// else is a stall.
pub proof fn lemma_what_a_wait_came_back_with(ret: i64, error_set: bool)
    ensures
        ret == -4 ==> answer(ret, error_set) == Answer::Again,
        ret == 0 ==> answer(ret, error_set) == Answer::Woke(Wake::Quiet),
        ret > 0 && error_set ==> answer(ret, error_set) == Answer::Gone,
        ret > 0 && !error_set ==> answer(ret, error_set) == Answer::Woke(Wake::Stalled),
        -2_147_483_647 <= ret < 0 && ret != -4 ==> answer(ret, error_set) == Answer::Failed(
            (-ret) as i32,
        ),
{
}

// ── the file io.stat ───────────────────────────────────────────────────

/// **Every word of every line counts once.**
pub proof fn lemma_every_word_of_every_line_counts(
    l: Seq<Seq<char>>,
    line: Seq<char>,
    io: IoBytes,
    fields: Seq<Seq<char>>,
    field: Seq<char>,
)
    ensures
        iostat::after_lines(l.push(line)) == after_fields(iostat::after_lines(l), words(line)),
        after_fields(io, fields.push(field)) == after_field(after_fields(io, fields), field),
        after_fields(io, seq![]) == io,
        iostat::after_lines(seq![]) == (IoBytes { read: 0, write: 0, discard: 0 }),
{
    assert(l.push(line).drop_last() =~= l);
    assert(fields.push(field).drop_last() =~= fields);
}

/// **A cgroup whose file could be read is sampled.**
pub proof fn lemma_a_readable_file_is_sampled(bodies: Seq<StatBody>, i: int) -> (k: int)
    requires
        0 <= i < bodies.len(),
        bodies[i].body is Some,
    ensures
        0 <= k < iostat::sampled(bodies).len(),
        iostat::sampled(bodies)[k] == (
            bodies[i].cgroup@,
            iostat::after_lines(lines((bodies[i].body->0)@)),
        ),
    decreases bodies.len(),
{
    let t = bodies.drop_last();
    if i < t.len() {
        assert(t[i] == bodies[i]);
        lemma_a_readable_file_is_sampled(t, i)
    } else {
        iostat::sampled(t).len() as int
    }
}

/// **And no other cgroup is.**
pub proof fn lemma_only_readable_files_are_sampled(bodies: Seq<StatBody>, k: int) -> (i: int)
    requires
        0 <= k < iostat::sampled(bodies).len(),
    ensures
        0 <= i < bodies.len(),
        bodies[i].body is Some,
        iostat::sampled(bodies)[k].0 == bodies[i].cgroup@,
    decreases bodies.len(),
{
    let t = bodies.drop_last();
    if k < iostat::sampled(t).len() {
        let i = lemma_only_readable_files_are_sampled(t, k);
        assert(t[i] == bodies[i]);
        i
    } else {
        bodies.len() - 1
    }
}

} // verus!
