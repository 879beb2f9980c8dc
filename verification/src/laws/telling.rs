//! What is told to a person, told from the figures.

use vstd::arithmetic::power2::lemma_pow2_pos;
use vstd::prelude::*;

use crate::decimal::fixed;
use crate::filter::{Expr, holds};
use crate::float::{
    Double, at_most, lemma_whole_exact, lemma_whole_one, lemma_whole_zero, one, product, quotient,
    rounded, units, whole,
};
use crate::incident::{
    Culprit, Incident, ago_text, bystanders, bytes_said, duration_text, first_cause, opening,
    process_bytes, process_role, since, spelled, stop_at,
};
use crate::laws::numbers::{
    is_about, lemma_one_is_large, lemma_percent_is_true, lemma_quotient_is_true,
    lemma_rounded_is_tight, lemma_rounded_zero, lemma_shows, lemma_whole_is_tight, percent_of,
    shows, tight,
};
use crate::laws::work::held;
use crate::cli::{delay_part, io_part};
use crate::logfile::{is_full, older};
use crate::notify::{first_transient, subject_of, unactionable};
use crate::pathology::Warning;
use crate::process::{ProcCulprit, sample_share};
use crate::report::{
    Cause, Role, Stall, bytes_text, first_nameable, first_root, milliseconds, other_movers,
    peak_text, root_part, seconds, stall_text, stall_texts, stalls_part,
};
use crate::text::{decimal, join, pad_left, pad_right, trim, words};
use crate::why::{answered, any_asked_for, asked_for, entry, told};
use vstd::arithmetic::power2::pow2;

verus! {

// ── processes ──────────────────────────────────────────────────────────

/// **The share of samples spent blocked**, in percent; none of none.
pub proof fn lemma_share_of_samples(blocked: u32, total: u32)
    ensures
        total > 0 ==> is_about(sample_share(blocked, total), (100 * blocked) as nat, total as nat),
        total == 0 ==> sample_share(blocked, total).value() == 0 && sample_share(
            blocked,
            total,
        ).is_finite(),
{
    if total > 0 {
        lemma_percent_is_true(blocked as nat, total as nat);
        assert(sample_share(blocked, total) == percent_of(blocked as int, total as int));
    }
    assert(units(0) == 0);
}

/// **A process that moved a mebibyte and waited less than half of the time is a
/// cause; one that moved less and waited longer is a victim**; any other is
/// active. What it read and what it wrote count together.
pub proof fn lemma_roles_of_processes(p: ProcCulprit, bytes: u64, pct: Double)
    requires
        !pct.is_nan(),
    ensures
        process_role(bytes, pct) == Role::Cause <==> bytes >= 1_048_576 && pct.value() < 50 * one(),
        process_role(bytes, pct) == Role::Victim <==> bytes < 1_048_576 && pct.value() >= 50
            * one(),
        process_role(bytes, pct) == Role::Active <==> (bytes >= 1_048_576) == (pct.value() >= 50
            * one()),
        process_bytes(p) == held(p.read_bytes + p.write_bytes),
{
    lemma_whole_exact(50);
}

/// **The cause that is named is the first one.**
pub proof fn lemma_the_first_cause_is_named(c: Seq<Culprit>)
    ensures
        first_cause(c) is None <==> forall|k: int|
            0 <= k < c.len() ==> (#[trigger] c[k]).role != Role::Cause,
        first_cause(c) is Some ==> exists|k: int|
            0 <= k < c.len() && #[trigger] c[k] == first_cause(c)->0 && c[k].role == Role::Cause
                && forall|j: int| 0 <= j < k ==> (#[trigger] c[j]).role != Role::Cause,
    decreases c.len(),
{
    if c.len() > 0 {
        let t = c.drop_first();
        lemma_the_first_cause_is_named(t);
        if c[0].role == Role::Cause {
            assert(c[0] == first_cause(c)->0);
        } else {
            if first_cause(t) is Some {
                let k = choose|k: int|
                    0 <= k < t.len() && #[trigger] t[k] == first_cause(t)->0 && t[k].role
                        == Role::Cause && forall|j: int|
                        0 <= j < k ==> (#[trigger] t[j]).role != Role::Cause;
                assert(c[k + 1] == t[k]);
                assert forall|j: int| 0 <= j < k + 1 implies (#[trigger] c[j]).role
                    != Role::Cause by {
                    if j > 0 {
                        assert(c[j] == t[j - 1]);
                    }
                }
            } else {
                assert forall|k: int| 0 <= k < c.len() implies (#[trigger] c[k]).role
                    != Role::Cause by {
                    if k > 0 {
                        assert(c[k] == t[k - 1]);
                    }
                }
            }
        }
    }
}

/// **The mover that is named is the first that is not the root.**
pub proof fn lemma_the_first_nameable_mover_is_named(c: Seq<Cause>)
    ensures
        first_nameable(c) is None <==> forall|k: int|
            0 <= k < c.len() ==> (#[trigger] c[k]).cgroup@ == "/sys/fs/cgroup"@,
        first_nameable(c) is Some ==> exists|k: int|
            0 <= k < c.len() && #[trigger] c[k] == first_nameable(c)->0 && c[k].cgroup@
                != "/sys/fs/cgroup"@ && forall|j: int|
                0 <= j < k ==> (#[trigger] c[j]).cgroup@ == "/sys/fs/cgroup"@,
    decreases c.len(),
{
    if c.len() > 0 {
        let t = c.drop_first();
        lemma_the_first_nameable_mover_is_named(t);
        if c[0].cgroup@ != "/sys/fs/cgroup"@ {
            assert(c[0] == first_nameable(c)->0);
        } else {
            if first_nameable(t) is Some {
                let k = choose|k: int|
                    0 <= k < t.len() && #[trigger] t[k] == first_nameable(t)->0 && t[k].cgroup@
                        != "/sys/fs/cgroup"@ && forall|j: int|
                        0 <= j < k ==> (#[trigger] t[j]).cgroup@ == "/sys/fs/cgroup"@;
                assert(c[k + 1] == t[k]);
                assert forall|j: int| 0 <= j < k + 1 implies (#[trigger] c[j]).cgroup@
                    == "/sys/fs/cgroup"@ by {
                    if j > 0 {
                        assert(c[j] == t[j - 1]);
                    }
                }
            } else {
                assert forall|k: int| 0 <= k < c.len() implies (#[trigger] c[k]).cgroup@
                    == "/sys/fs/cgroup"@ by {
                    if k > 0 {
                        assert(c[k] == t[k - 1]);
                    }
                }
            }
        }
    }
}

// ── amounts ────────────────────────────────────────────────────────────

/// Is a whole number at least a limit, as doubles?
proof fn lemma_reaches(n: nat, limit: nat)
    requires
        n <= u64::MAX,
        0 < limit < 0x20_0000_0000_0000,
    ensures
        at_most(whole(limit as int), whole(n as int)) <==> n >= limit,
{
    lemma_whole_exact(limit);
    let o = one();
    lemma_pow2_pos(1074);
    if n < 0x20_0000_0000_0000 {
        lemma_whole_exact(n);
        let a = units(whole(n as int).magnitude());
        let b = units(whole(limit as int).magnitude());
        assert(n >= limit <==> a >= b) by (nonlinear_arith)
            requires
                a == n * o,
                b == limit * o,
                o > 0,
        ;
    } else {
        lemma_whole_is_tight(n);
        let u = units(whole(n as int).magnitude());
        let no = n * o;
        let lo = limit * o;
        assert(no >= 0x20_0000_0000_0000 * o && lo <= 0x1f_ffff_ffff_ffff * o) by (nonlinear_arith)
            requires
                no == n * o,
                lo == limit * o,
                n >= 0x20_0000_0000_0000,
                limit <= 0x1f_ffff_ffff_ffff,
                o > 0,
        ;
        assert(u * 1 == u);
        assert(u >= lo);
    }
}

/// **An amount is told in the largest unit that it fills**: GiB with a place
/// after the point, MiB and KiB without, and bytes below that.
pub proof fn lemma_an_amount_is_told_in_the_largest_unit(bytes: nat)
    requires
        bytes <= u64::MAX,
    ensures
        bytes >= 1_073_741_824 ==> exists|t: Seq<char>| #[trigger]
            shows(t, bytes, 1_073_741_824, 1) && bytes_text(bytes) == t + " GiB"@,
        1_048_576 <= bytes < 1_073_741_824 ==> exists|t: Seq<char>| #[trigger]
            shows(t, bytes, 1_048_576, 0) && bytes_text(bytes) == t + " MiB"@,
        1024 <= bytes < 1_048_576 ==> exists|t: Seq<char>| #[trigger]
            shows(t, bytes, 1024, 0) && bytes_text(bytes) == t + " KiB"@,
        bytes < 1024 ==> bytes_text(bytes) == decimal(bytes) + " B"@,
        bytes >= 1024 ==> bytes_said(bytes) == bytes_text(bytes),
        bytes < 1024 ==> bytes_said(bytes) == decimal(bytes) + " bytes"@,
{
    lemma_reaches(bytes, 1_073_741_824);
    lemma_reaches(bytes, 1_048_576);
    lemma_reaches(bytes, 1024);
    let g = quotient(whole(bytes as int), whole(1_073_741_824));
    let m = quotient(whole(bytes as int), whole(1_048_576));
    let k = quotient(whole(bytes as int), whole(1024));
    lemma_quotient_is_true(bytes, 1_073_741_824);
    lemma_quotient_is_true(bytes, 1_048_576);
    lemma_quotient_is_true(bytes, 1024);
    lemma_shows(g, bytes, 1_073_741_824, 1);
    lemma_shows(m, bytes, 1_048_576, 0);
    lemma_shows(k, bytes, 1024, 0);
    assert(shows(fixed(g, 1), bytes, 1_073_741_824, 1));
    assert(shows(fixed(m, 0), bytes, 1_048_576, 0));
    assert(shows(fixed(k, 0), bytes, 1024, 0));
}

/// **Microseconds in seconds and in milliseconds.**
pub proof fn lemma_times_are_true(usec: u64)
    ensures
        is_about(seconds(usec), usec as nat, 1_000_000),
        is_about(milliseconds(usec), usec as nat, 1000),
{
    lemma_quotient_is_true(usec as nat, 1_000_000);
    lemma_quotient_is_true(usec as nat, 1000);
}

/// Milliseconds in seconds.
#[verifier::rlimit(50)]
proof fn lemma_seconds_of_milliseconds(usec: u64)
    ensures
        is_about(quotient(milliseconds(usec), whole(1000)), usec as nat, 1_000_000),
        is_about(
            product(quotient(milliseconds(usec), whole(1000)), whole(1000)),
            usec as nat,
            1000,
        ),
{
    let o = one();
    lemma_one_is_large();
    lemma_whole_exact(1000);
    let d = units(whole(1000).magnitude());
    assert(d == 1000 * o);
    let ms = milliseconds(usec);
    let s = quotient(ms, whole(1000));
    let back = product(s, whole(1000));
    if usec == 0 {
        lemma_whole_zero();
        lemma_rounded_zero(d);
        lemma_rounded_zero(o);
        assert(0 * o == 0) by (nonlinear_arith);
        assert(0 * d == 0) by (nonlinear_arith);
        assert(units(0) == 0);
        assert(ms.magnitude() == 0);
        assert(s.magnitude() == 0);
        assert(back.magnitude() == 0);
    } else {
        lemma_whole_is_tight(usec as nat);
        let ua = units(whole(usec as int).magnitude());
        assert(ua * 1 == ua);
        let k = pow2(1138);
        let t = pow2(2000);
        assert(k == o * 0x1_0000_0000_0000_0000);
        // The milliseconds.
        assert(d * 0x10_0000_0000_0000 <= ua * o && ua * o <= t * d) by (nonlinear_arith)
            requires
                d == 1000 * o,
                o <= ua <= k,
                k <= t,
                o >= 0x1_0000_0000_0000_0000 * 0x1_0000_0000_0000_0000,
        ;
        lemma_rounded_is_tight(ua * o, d);
        let u1 = units(ms.magnitude());
        assert(ms.magnitude() == rounded(ua * o, d));
        lemma_over_thousand(u1, ua, d, o);
        // The seconds.
        assert(2000 * u1 >= o);
        assert(d * 0x10_0000_0000_0000 <= u1 * o && u1 * o <= t * d) by (nonlinear_arith)
            requires
                d == 1000 * o,
                2000 * u1 >= o,
                u1 <= k,
                k <= t,
                o >= 0x1_0000_0000_0000_0000 * 0x1_0000_0000_0000_0000,
        ;
        lemma_rounded_is_tight(u1 * o, d);
        let u2 = units(s.magnitude());
        assert(s.magnitude() == rounded(u1 * o, d));
        lemma_over_thousand(u2, u1, d, o);
        // And back.
        assert(4_000_000 * u2 >= o);
        assert(o * 0x10_0000_0000_0000 <= u2 * d && u2 * d <= t * o) by (nonlinear_arith)
            requires
                d == 1000 * o,
                4_000_000 * u2 >= o,
                u2 <= k,
                1000 * k <= t,
                o >= 0x1_0000_0000_0000_0000 * 0x1_0000_0000_0000_0000,
        ;
        lemma_rounded_is_tight(u2 * d, o);
        let u3 = units(back.magnitude());
        assert(back.magnitude() == rounded(u2 * d, o));
        let e: nat = 0x20_0000_0000_0000;
        assert(e * u3 <= (e + 1) * (1000 * u2) && e * u3 >= (e - 1) * (1000 * u2))
            by (nonlinear_arith)
            requires
                e * (u3 * o) <= (e + 1) * (u2 * d),
                e * (u3 * o) >= (e - 1) * (u2 * d),
                d == 1000 * o,
                o > 0,
                e == 0x20_0000_0000_0000,
        ;
        let z = usec * o;
        assert(0x20_0000_0000_0000 * ua <= 0x20_0000_0000_0001 * z);
        assert(0x20_0000_0000_0000 * ua >= 0x1f_ffff_ffff_ffff * z);
        assert(100_000 * (u2 * 1_000_000) <= 100_001 * z);
        assert(100_001 * (u2 * 1_000_000) >= 100_000 * z);
        assert(100_000 * (u3 * 1000) <= 100_001 * z);
        assert(100_001 * (u3 * 1000) >= 100_000 * z);
    }
}

proof fn lemma_over_thousand(u: nat, v: nat, d: nat, o: nat)
    requires
        o > 0,
        d == 1000 * o,
        tight(u, v * o, d),
    ensures
        0x20_0000_0000_0000 * (1000 * u) <= 0x20_0000_0000_0001 * v,
        0x20_0000_0000_0000 * (1000 * u) >= 0x1f_ffff_ffff_ffff * v,
{
    let e: nat = 0x20_0000_0000_0000;
    assert(e * (1000 * u) <= (e + 1) * v && e * (1000 * u) >= (e - 1) * v) by (nonlinear_arith)
        requires
            e * (u * d) <= (e + 1) * (v * o),
            e * (u * d) >= (e - 1) * (v * o),
            d == 1000 * o,
            o > 0,
            e == 0x20_0000_0000_0000,
    ;
}

/// **How long a freeze took is told in milliseconds below a second, and in
/// seconds with a place after the point above.**
pub proof fn lemma_a_freeze_is_told_in_seconds(usec: u64)
    ensures
        usec < 999_980 ==> exists|t: Seq<char>| #[trigger]
            shows(t, usec as nat, 1000, 0) && duration_text(
                quotient(milliseconds(usec), whole(1000)),
            ) == t + " milliseconds"@,
        usec >= 1_000_020 ==> exists|t: Seq<char>| #[trigger]
            shows(t, usec as nat, 1_000_000, 1) && duration_text(
                quotient(milliseconds(usec), whole(1000)),
            ) == t + " seconds"@,
{
    let s = quotient(milliseconds(usec), whole(1000));
    let m = product(s, whole(1000));
    lemma_seconds_of_milliseconds(usec);
    lemma_whole_one();
    lemma_pow2_pos(1074);
    let o = one() as int;
    let x = s.value();
    let w = usec as int;
    let z = w * o;
    if usec < 999_980 {
        assert(100_001 * z < 100_000 * (1_000_000 * o)) by (nonlinear_arith)
            requires
                z == w * o,
                w < 999_980,
                o > 0,
        ;
        assert(x < o);
        lemma_shows(m, usec as nat, 1000, 0);
        assert(shows(fixed(m, 0), usec as nat, 1000, 0));
    }
    if usec >= 1_000_020 {
        assert(100_000 * z >= 100_001 * (1_000_000 * o)) by (nonlinear_arith)
            requires
                z == w * o,
                w >= 1_000_020,
                o > 0,
        ;
        assert(x >= o);
        lemma_shows(s, usec as nat, 1_000_000, 1);
        assert(shows(fixed(s, 1), usec as nat, 1_000_000, 1));
    }
}

// ── when ───────────────────────────────────────────────────────────────

/// **How long ago is told to the nearest minute or hour, and in full days.**
pub proof fn lemma_how_long_ago(delta: nat)
    ensures
        delta <= 20 ==> ago_text(delta) == "just now"@,
        20 < delta <= 90 ==> ago_text(delta) == "a minute ago"@,
        90 < delta < 3600 ==> exists|n: nat|
            60 * n <= delta + 30 && delta <= 60 * n + 30 && ago_text(delta) == "about "@
                + #[trigger] spelled(n) + " minutes ago"@,
        3600 <= delta < 5400 ==> ago_text(delta) == "about an hour ago"@,
        5400 <= delta < 86_400 ==> exists|n: nat|
            3600 * n <= delta + 1800 && delta <= 3600 * n + 1800 && ago_text(delta) == "about "@
                + #[trigger] spelled(n) + " hours ago"@,
        86_400 <= delta < 172_800 ==> ago_text(delta) == "yesterday"@,
        172_800 <= delta ==> exists|n: nat|
            86_400 * n <= delta < 86_400 * n + 86_400 && ago_text(delta) == #[trigger] decimal(n)
                + " days ago"@,
{
    let m = crate::incident::nearest_of(delta, 60);
    let h = crate::incident::nearest_of(delta, 3600);
    let d = delta / 86_400;
    assert(m == (2 * delta + 60) / 120);
    assert(h == (2 * delta + 3600) / 7200);
    assert(60 * m <= delta + 30 && delta <= 60 * m + 30);
    assert(3600 * h <= delta + 1800 && delta <= 3600 * h + 1800);
    if 90 < delta < 3600 {
        assert(ago_text(delta) == "about "@ + spelled(m) + " minutes ago"@);
    }
    if 5400 <= delta < 86_400 {
        assert(h != 1);
        assert(ago_text(delta) == "about "@ + spelled(h) + " hours ago"@);
    }
    if 172_800 <= delta {
        assert(ago_text(delta) == decimal(d) + " days ago"@);
    }
}

/// **Small numbers are told in words.**
pub proof fn lemma_small_numbers_are_words(n: nat)
    ensures
        spelled(0) == "zero"@,
        spelled(1) == "one"@,
        spelled(2) == "two"@,
        spelled(3) == "three"@,
        spelled(4) == "four"@,
        spelled(5) == "five"@,
        spelled(6) == "six"@,
        spelled(7) == "seven"@,
        spelled(8) == "eight"@,
        spelled(9) == "nine"@,
        spelled(10) == "ten"@,
        spelled(11) == "eleven"@,
        spelled(12) == "twelve"@,
        n > 12 ==> spelled(n) == decimal(n),
{
}

/// **The clock counts from what happened to now**, and from nothing where it was
/// turned back.
pub proof fn lemma_time_since(now: u64, at: u64)
    ensures
        now >= at ==> since(now, at) + at == now,
        now < at ==> since(now, at) == 0,
{
}

// ── the first sentence ─────────────────────────────────────────────────

/// Does a sentence end at this place?
pub open spec fn ends_sentence(s: Seq<char>, k: int) -> bool {
    0 <= k && k + 1 < s.len() && s[k] == '.' && s[k + 1] == ' '
}

proof fn lemma_stop(s: Seq<char>)
    ensures
        stop_at(s) <= s.len(),
        stop_at(s) < s.len() ==> ends_sentence(s, stop_at(s) as int),
        forall|k: int| 0 <= k < stop_at(s) ==> !#[trigger] ends_sentence(s, k),
    decreases s.len(),
{
    if s.len() > 0 && !(s.len() >= 2 && s[0] == '.' && s[1] == ' ') {
        let t = s.drop_first();
        lemma_stop(t);
        assert forall|k: int| 0 <= k < stop_at(s) implies !#[trigger] ends_sentence(s, k) by {
            if k > 0 {
                assert(!ends_sentence(t, k - 1));
            }
        }
    }
}

/// **The opening of a message is its first sentence**, with its full stop, on
/// one line; all of it, where there is only one.
pub proof fn lemma_the_opening_is_the_first_sentence(msg: Seq<char>, k: int)
    ensures
        ({
            let flat = join(words(msg), " "@);
            &&& ends_sentence(flat, k) && (forall|j: int|
                0 <= j < k ==> !#[trigger] ends_sentence(flat, j)) ==> opening(msg) == trim(
                flat.take(k + 1),
            )
            &&& (forall|j: int| !#[trigger] ends_sentence(flat, j)) ==> opening(msg) == flat
        }),
{
    let flat = join(words(msg), " "@);
    lemma_stop(flat);
    let s = stop_at(flat) as int;
    if ends_sentence(flat, k) && (forall|j: int| 0 <= j < k ==> !#[trigger] ends_sentence(flat, j)) {
        if s < k {
            assert(!ends_sentence(flat, s));
        }
        if s > k {
            assert(!ends_sentence(flat, k));
        }
    }
    if forall|j: int| !#[trigger] ends_sentence(flat, j) {
        if s < flat.len() {
            assert(!ends_sentence(flat, s));
        }
    }
}

// ── the record ─────────────────────────────────────────────────────────

/// Is there an incident here with a stall that the filter asks for?
#[verifier::opaque]
pub open spec fn is_wanted(filter: Option<Expr>, i: Option<Incident>) -> bool {
    i is Some && (filter is None || exists|k: int|
        0 <= k < (i->0).stalls@.len() && holds(filter->0, #[trigger] (i->0).stalls@[k]))
}

/// See [`is_wanted`].
pub open spec fn wanted(filter: Option<Expr>) -> spec_fn(Option<Incident>) -> bool {
    |i: Option<Incident>| is_wanted(filter, i)
}

/// The paragraph on an incident.
#[verifier::opaque]
pub open spec fn paragraph_on(i: Option<Incident>, now: u64) -> Seq<char> {
    (i->0).paragraph(now)
}

/// The paragraphs on some incidents, the last of them first.
pub open spec fn newest_first(all: Seq<Option<Incident>>, now: u64) -> Seq<Seq<char>> {
    Seq::new(all.len(), |k: int| paragraph_on(all[all.len() - 1 - k], now))
}

#[verifier::opaque]
spec fn story(
    all: Seq<Option<Incident>>,
    n: nat,
    before: nat,
    count: nat,
    filter: Option<Expr>,
    now: u64,
) -> Seq<char> {
    told(all, n, before, count, filter, now)
}

proof fn lemma_asked_for(filter: Option<Expr>, i: Option<Incident>)
    ensures
        is_wanted(filter, i) == (i is Some && asked_for(i->0, filter)),
{
    reveal(is_wanted);
}

#[verifier::rlimit(50)]
proof fn lemma_story(
    all: Seq<Option<Incident>>,
    n: nat,
    before: nat,
    count: nat,
    filter: Option<Expr>,
    now: u64,
)
    requires
        n <= all.len(),
    ensures
        n == 0 ==> story(all, n, before, count, filter, now) == Seq::<char>::empty(),
        n > 0 && !is_wanted(filter, all[n - 1]) ==> story(all, n, before, count, filter, now)
            == story(all, (n - 1) as nat, before, count, filter, now),
        n > 0 && is_wanted(filter, all[n - 1]) ==> story(all, n, before, count, filter, now) == (
        if before == 0 {
            ""@
        } else {
            "\n"@
        }) + paragraph_on(all[n - 1], now) + (if before + 1 >= count {
            Seq::<char>::empty()
        } else {
            story(all, (n - 1) as nat, before + 1, count, filter, now)
        }),
{
    reveal(story);
    reveal(paragraph_on);
    reveal(entry);
    if n > 0 {
        lemma_asked_for(filter, all[n - 1]);
        if is_wanted(filter, all[n - 1]) {
            let head = entry(all[n - 1]->0, before == 0, now);
            assert(head + Seq::<char>::empty() =~= head);
            let body = paragraph_on(all[n - 1], now);
            assert(body == (all[n - 1]->0).paragraph(now));
            if before == 0 {
                assert(head == ""@ + body);
            } else {
                assert(head == "\n"@ + body);
            }
            if before + 1 >= count {
                assert(told(all, n, before, count, filter, now) == head);
            } else {
                assert(told(all, n, before, count, filter, now) == head + told(
                    all,
                    (n - 1) as nat,
                    before + 1,
                    count,
                    filter,
                    now,
                ));
            }
        }
    }
}

#[verifier::rlimit(50)]
proof fn lemma_told(
    all: Seq<Option<Incident>>,
    n: nat,
    before: nat,
    count: nat,
    filter: Option<Expr>,
    now: u64,
)
    requires
        n <= all.len(),
        before < count,
    ensures
        ({
            let l = newest_first(all.take(n as int).filter(wanted(filter)), now);
            let some = if l.len() <= count - before {
                l
            } else {
                l.take(count - before)
            };
            story(all, n, before, count, filter, now) == (if before > 0 && some.len() > 0 {
                "\n"@
            } else {
                ""@
            }) + join(some, "\n"@)
        }),
    decreases n, 1nat,
{
    reveal(Seq::filter);
    let p = wanted(filter);
    let t = all.take(n as int);
    let kept = t.filter(p);
    let l = newest_first(kept, now);
    reveal_strlit("");
    lemma_story(all, n, before, count, filter, now);
    if n == 0 {
        assert(t =~= seq![]);
        assert(l =~= seq![]);
        assert(join(l, "\n"@) =~= seq![]);
    } else {
        let m = (n - 1) as nat;
        let rest = all.take(m as int).filter(p);
        assert(t.drop_last() =~= all.take(m as int));
        assert(t.last() == all[m as int]);
        let lr = newest_first(rest, now);
        if p(all[m as int]) {
            assert(kept =~= rest.push(all[m as int]));
            let one = paragraph_on(all[m as int], now);
            assert(l =~= seq![one] + lr);
            lemma_told_one(all, n, before, count, filter, now, one, lr);
        } else {
            assert(kept =~= rest);
            lemma_told(all, m, before, count, filter, now);
        }
    }
}

#[verifier::rlimit(50)]
proof fn lemma_told_one(
    all: Seq<Option<Incident>>,
    n: nat,
    before: nat,
    count: nat,
    filter: Option<Expr>,
    now: u64,
    one: Seq<char>,
    lr: Seq<Seq<char>>,
)
    requires
        0 < n <= all.len(),
        before < count,
        is_wanted(filter, all[n - 1]),
        one == paragraph_on(all[n - 1], now),
        lr == newest_first(all.take(n - 1).filter(wanted(filter)), now),
    ensures
        ({
            let l = seq![one] + lr;
            let some = if l.len() <= count - before {
                l
            } else {
                l.take(count - before)
            };
            story(all, n, before, count, filter, now) == (if before > 0 {
                "\n"@
            } else {
                ""@
            }) + join(some, "\n"@)
        }),
    decreases n, 0nat,
{
    let m = (n - 1) as nat;
    let l = seq![one] + lr;
    let room = (count - before) as int;
    let head = if before > 0 {
        "\n"@
    } else {
        ""@
    };
    let some = if l.len() <= room {
        l
    } else {
        l.take(room)
    };
    lemma_story(all, n, before, count, filter, now);
    if before + 1 >= count {
        assert(some =~= seq![one]);
        lemma_join_one(one);
        assert(head + one + Seq::<char>::empty() =~= head + one);
    } else {
        lemma_told(all, m, before + 1, count, filter, now);
        let few = if lr.len() <= room - 1 {
            lr
        } else {
            lr.take(room - 1)
        };
        assert(some =~= seq![one] + few);
        lemma_join_more(one, few);
        let tail = (if few.len() > 0 {
            "\n"@
        } else {
            ""@
        }) + join(few, "\n"@);
        assert(story(all, n, before, count, filter, now) == head + one + tail);
        assert(head + one + tail =~= head + (one + tail));
    }
}

proof fn lemma_join_one(one: Seq<char>)
    ensures
        join(seq![one], "\n"@) == one,
{
    reveal_with_fuel(join, 2);
    assert(seq![one].drop_last() =~= seq![]);
}

proof fn lemma_join_more(one: Seq<char>, few: Seq<Seq<char>>)
    ensures
        join(seq![one] + few, "\n"@) == one + ((if few.len() > 0 {
            "\n"@
        } else {
            ""@
        }) + join(few, "\n"@)),
    decreases few.len(),
{
    reveal_with_fuel(join, 2);
    reveal_strlit("");
    if few.len() == 0 {
        assert(seq![one] + few =~= seq![one]);
        lemma_join_one(one);
        assert(join(few, "\n"@) =~= seq![]);
        assert(one + (""@ + join(few, "\n"@)) =~= one);
    } else {
        let t = few.drop_last();
        lemma_join_more(one, t);
        assert((seq![one] + few).drop_last() =~= seq![one] + t);
        assert((seq![one] + few).last() == few.last());
        if t.len() == 0 {
            assert(t =~= seq![]);
            assert(seq![one] + t =~= seq![one]);
            lemma_join_one(one);
            assert(join(few, "\n"@) =~= few.last());
            assert(join(seq![one] + few, "\n"@) =~= one + ("\n"@ + few.last()));
        } else {
            assert(join(few, "\n"@) =~= join(t, "\n"@) + "\n"@ + few.last());
            assert(join(seq![one] + few, "\n"@) =~= one + ("\n"@ + join(few, "\n"@)));
        }
    }
}

/// **The record is told from the newest incident back**: those that a stall of
/// theirs matches the filter, as many as were asked for, with an empty line in
/// between.
pub proof fn lemma_the_record_is_told_from_the_newest_back(
    all: Seq<Option<Incident>>,
    count: nat,
    filter: Option<Expr>,
    now: u64,
)
    requires
        count > 0,
    ensures
        ({
            let l = newest_first(all.filter(wanted(filter)), now);
            let some = if l.len() <= count {
                l
            } else {
                l.take(count as int)
            };
            (exists|k: int| 0 <= k < all.len() && #[trigger] wanted(filter)(all[k]))
                ==> answered(all, count, filter, now) == join(some, "\n"@)
        }),
        (forall|k: int| 0 <= k < all.len() ==> !#[trigger] wanted(filter)(all[k])) ==> answered(
            all,
            count,
            filter,
            now,
        )
            == "Nothing recorded that matches. The machine has not stalled, or the filter excluded everything.\n"@,
{
    lemma_told(all, all.len(), 0, count, filter, now);
    assert(all.take(all.len() as int) =~= all);
    reveal_strlit("");
    let l = newest_first(all.filter(wanted(filter)), now);
    let some = if l.len() <= count {
        l
    } else {
        l.take(count as int)
    };
    assert(""@ + join(some, "\n"@) =~= join(some, "\n"@));
    lemma_answer(all, count, filter, now);
}

proof fn lemma_answer(all: Seq<Option<Incident>>, count: nat, filter: Option<Expr>, now: u64)
    ensures
        (exists|k: int| 0 <= k < all.len() && #[trigger] wanted(filter)(all[k])) ==> answered(
            all,
            count,
            filter,
            now,
        ) == story(all, all.len(), 0, count, filter, now),
        (forall|k: int| 0 <= k < all.len() ==> !#[trigger] wanted(filter)(all[k])) ==> answered(
            all,
            count,
            filter,
            now,
        )
            == "Nothing recorded that matches. The machine has not stalled, or the filter excluded everything.\n"@,
{
    reveal(story);
    assert forall|k: int| 0 <= k < all.len() implies #[trigger] wanted(filter)(all[k]) == (
    all[k] is Some && asked_for(all[k]->0, filter)) by {
        lemma_asked_for(filter, all[k]);
    }
    if any_asked_for(all, filter) {
        let k = choose|k: int|
            0 <= k < all.len() && (#[trigger] all[k]) is Some && asked_for(all[k]->0, filter);
        assert(wanted(filter)(all[k]));
    }
}

/// **A log is turned over when it has reached its limit**, and never without
/// one. What was there is kept under the same name with `.1` behind it.
pub proof fn lemma_a_log_is_turned_over_at_its_limit(path: Seq<char>, size: u64, limit: u64)
    ensures
        is_full(Some(size), limit) <==> 0 < limit <= size,
        !is_full(None, limit),
        older(path) == path + seq!['.', '1'],
{
    reveal_strlit(".1");
    assert(".1"@ =~= seq!['.', '1']);
}

// ── the report ─────────────────────────────────────────────────────────

/// **A line of the report states the milliseconds lost**, to the nearest one.
pub proof fn lemma_a_line_states_the_milliseconds(s: Stall) -> (ms: Seq<char>)
    ensures
        shows(ms, s.delta_usec as nat, 1000, 0),
        stall_text(s) == "  "@ + pad_left(fixed(s.pressure_pct, 1), 6) + "%  "@ + pad_right(
            s.resource.name(),
            7,
        ) + " "@ + s.unit@ + "  — frozen "@ + ms + "ms waiting on "@ + s.resource.name()
            + peak_text(s) + "\n"@,
{
    let v = milliseconds(s.delta_usec);
    lemma_times_are_true(s.delta_usec);
    lemma_shows(v, s.delta_usec as nat, 1000, 0);
    fixed(v, 0)
}

/// **The report says over how many seconds it looked.**
pub proof fn lemma_the_report_says_over_how_long(window_usec: u64) -> (secs: Seq<char>)
    ensures
        shows(secs, window_usec as nat, 1_000_000, 1),
        stalls_part(window_usec, seq![]) == "No significant stalls in the last "@ + secs
            + "s. System is responsive.\n"@,
        forall|stalls: Seq<Stall>| #[trigger]
            stalls.len() > 0 ==> stalls_part(window_usec, stalls) == "Over the last "@ + secs
                + "s, these units stalled the system:\n\n"@ + join(stall_texts(stalls), ""@)
                + "\n  worst cgroup: "@ + stalls[0].cgroup@ + "\n"@,
{
    let v = seconds(window_usec);
    lemma_times_are_true(window_usec);
    lemma_shows(v, window_usec as nat, 1_000_000, 1);
    fixed(v, 1)
}

/// **What the kernel moved is told when it is more than twice what the biggest
/// unit did.**
pub proof fn lemma_when_the_kernel_did_most(causes: Seq<Cause>, top: Cause, root: Cause)
    requires
        first_root(causes) == Some(root),
        2 * top.moved() <= u64::MAX,
    ensures
        root.moved() <= 2 * top.moved() ==> root_part(causes, top) == ""@,
        root.moved() > 2 * top.moved() ==> root_part(causes, top) == "  system-wide total was "@
            + bytes_text(root.moved() as nat)
            + ", so most of this is kernel-side or in\n                       cgroups with no io.stat — not attributable to a unit.\n"@,
{
}

/// **Two others at most are named beside the biggest**: units other than it that
/// can be named, the first of them.
pub proof fn lemma_two_others_are_named(causes: Seq<Cause>, top: Seq<char>, last: Cause)
    ensures
        other_movers(causes, top).len() <= 2,
        last.cgroup@ != top && last.cgroup@ != "/sys/fs/cgroup"@ && other_movers(causes, top).len()
            < 2 ==> other_movers(causes.push(last), top) == other_movers(causes, top).push(
            last.unit@ + " ("@ + bytes_text(last.moved() as nat) + ")"@,
        ),
        last.cgroup@ == top || last.cgroup@ == "/sys/fs/cgroup"@ || other_movers(causes, top).len()
            == 2 ==> other_movers(causes.push(last), top) == other_movers(causes, top),
        other_movers(seq![], top).len() == 0,
    decreases causes.len(),
{
    if causes.len() > 0 {
        lemma_two_others_are_named(causes.drop_last(), top, causes.last());
        assert(causes.drop_last().push(causes.last()) =~= causes);
    }
    assert(causes.push(last).drop_last() =~= causes);
}

/// **Two others at most are told to have stalled as well**, the next ones.
pub proof fn lemma_the_next_two_are_told(stalls: Seq<Stall>)
    ensures
        stalls.len() <= 1 ==> bystanders(stalls).len() == 0,
        stalls.len() == 2 ==> bystanders(stalls).len() == 1,
        stalls.len() > 2 ==> bystanders(stalls).len() == 2,
        forall|i: int|
            0 <= i < bystanders(stalls).len() ==> #[trigger] bystanders(stalls)[i] == stalls[i
                + 1].unit@ + " ("@ + fixed(stalls[i + 1].pressure_pct, 0) + "%)"@,
{
}

/// **The condition that clears itself is the first that does.**
pub proof fn lemma_the_first_transient_condition(w: Seq<Warning>)
    ensures
        first_transient(w) is None <==> forall|k: int|
            0 <= k < w.len() ==> !(#[trigger] w[k]).transient,
        first_transient(w) is Some ==> exists|k: int|
            0 <= k < w.len() && #[trigger] w[k] == first_transient(w)->0 && w[k].transient
                && forall|j: int| 0 <= j < k ==> !(#[trigger] w[j]).transient,
    decreases w.len(),
{
    if w.len() > 0 {
        let t = w.drop_first();
        lemma_the_first_transient_condition(t);
        if w[0].transient {
            assert(w[0] == first_transient(w)->0);
        } else {
            if first_transient(t) is Some {
                let k = choose|k: int|
                    0 <= k < t.len() && #[trigger] t[k] == first_transient(t)->0 && t[k].transient
                        && forall|j: int| 0 <= j < k ==> !(#[trigger] t[j]).transient;
                assert(w[k + 1] == t[k]);
                assert forall|j: int| 0 <= j < k + 1 implies !(#[trigger] w[j]).transient by {
                    if j > 0 {
                        assert(w[j] == t[j - 1]);
                    }
                }
            } else {
                assert forall|k: int| 0 <= k < w.len() implies !(#[trigger] w[k]).transient by {
                    if k > 0 {
                        assert(w[k] == t[k - 1]);
                    }
                }
            }
        }
    }
}

/// **What nobody can do anything about**: conditions that all clear themselves,
/// with no process and no unit to name.
pub proof fn lemma_what_nobody_can_do_anything_about(i: Incident)
    ensures
        unactionable(i) <==> {
            &&& i.warnings@.len() > 0
            &&& forall|k: int| 0 <= k < i.warnings@.len() ==> (#[trigger] i.warnings@[k]).transient
            &&& forall|k: int|
                0 <= k < i.culprits@.len() ==> (#[trigger] i.culprits@[k]).role != Role::Cause
            &&& forall|k: int|
                0 <= k < i.causes@.len() ==> (#[trigger] i.causes@[k]).cgroup@ == "/sys/fs/cgroup"@
        },
{
    lemma_the_first_cause_is_named(i.culprits@);
    lemma_the_first_nameable_mover_is_named(i.causes@);
}

/// **A notice names the unit that moved most, else the one that stalled most.**
pub proof fn lemma_whom_a_notice_names(i: Incident)
    requires
        i.stalls@.len() > 0,
    ensures
        first_nameable(i.causes@) is Some ==> subject_of(i) == (first_nameable(
            i.causes@,
        )->0).unit@,
        first_nameable(i.causes@) is None ==> subject_of(i) == i.stalls@[0].unit@,
{
}

/// **The bytes of a process are told from a tenth of a mebibyte on**, its delay
/// where there is some.
pub proof fn lemma_the_bytes_of_a_process(bytes: u64, ms: u64)
    ensures
        bytes <= 104_850 ==> io_part(bytes) == ""@,
        bytes >= 104_870 ==> exists|t: Seq<char>| #[trigger]
            shows(t, bytes as nat, 1_048_576, 0) && io_part(bytes) == "  ·  "@ + t
                + " MiB of disk IO"@,
        delay_part(None) == ""@,
        delay_part(Some(0)) == ""@,
        ms > 0 ==> delay_part(Some(ms)) == "  ·  "@ + decimal(ms as nat) + "ms blocked"@,
{
    let o = one();
    lemma_one_is_large();
    lemma_quotient_is_true(1, 10);
    lemma_quotient_is_true(bytes as nat, 1_048_576);
    let a = quotient(whole(1), whole(10));
    let b = quotient(whole(bytes as int), whole(1_048_576));
    let x = a.value();
    let y = b.value();
    let z = bytes * o;
    assert(1 * o == o);
    assert(100_000 * (x * 10) <= 100_001 * o && 100_001 * (x * 10) >= 100_000 * o);
    assert(100_000 * (y * 1_048_576) <= 100_001 * z && 100_001 * (y * 1_048_576) >= 100_000 * z);
    if bytes <= 104_850 {
        assert(z <= 104_850 * o) by (nonlinear_arith)
            requires
                z == bytes * o,
                bytes <= 104_850,
                o > 0,
        ;
        assert(y < x);
    }
    if bytes >= 104_870 {
        assert(z >= 104_870 * o) by (nonlinear_arith)
            requires
                z == bytes * o,
                bytes >= 104_870,
                o > 0,
        ;
        assert(y >= x);
        lemma_shows(b, bytes as nat, 1_048_576, 0);
        assert(shows(fixed(b, 0), bytes as nat, 1_048_576, 0));
    }
}

} // verus!
