//! Who is named for the work, told from the byte counters alone.

use vstd::arithmetic::power2::lemma_pow2_pos;
use vstd::prelude::*;

use crate::attribution::{dominates, pair_map, responsible, sample_paths, share};
use crate::causes::{
    CauseView, Sweep, all_movers, byte_keys, moved_paths, movers, own_stall, totals, window_cause,
    window_work, working,
};
use crate::cgroup::{Sampled, friendly};
use crate::float::{Double, lemma_whole_exact, one};
use crate::index::{last_places, lemma_last_places};
use crate::iostat::{IoBytes, Moved, after_field};
use crate::laws::blame::{counter, same_cgroup};
use crate::laws::numbers::{is_about, lemma_percent_is_true, percent_of};
use crate::laws::processes::lemma_order_has_all;
use crate::path::{normal, strictly_below};
use crate::psi::Resource;
use crate::report::{Role, role_of};
use crate::sort::{Ranked, order_of};
use crate::text::{find, lemma_find, parse_u64};

verus! {

// ── the counters of one file ───────────────────────────────────────────

/// The larger of a difference and zero.
pub open spec fn gain(before: u64, after: u64) -> int {
    if after > before {
        after - before
    } else {
        0
    }
}

/// A sum, as far as it can be held.
pub open spec fn held(n: int) -> int {
    if n > u64::MAX {
        u64::MAX as int
    } else {
        n
    }
}

/// **A field adds to the counter it names**, and to no other: `rbytes` to what
/// was read, `wbytes` to what was written, `dbytes` to what was discarded.
pub proof fn lemma_a_field_adds_to_what_it_names(io: IoBytes, t: Seq<char>)
    requires
        parse_u64(t) is Some,
        parse_u64(t)->0 <= u64::MAX,
    ensures
        ({
            let n = parse_u64(t)->0;
            let r = after_field(io, "rbytes="@ + t);
            let w = after_field(io, "wbytes="@ + t);
            let d = after_field(io, "dbytes="@ + t);
            &&& r.read == held(io.read + n) && r.write == io.write && r.discard == io.discard
            &&& w.write == held(io.write + n) && w.read == io.read && w.discard == io.discard
            &&& d.discard == held(io.discard + n) && d.read == io.read && d.write == io.write
        }),
{
    reveal_strlit("rbytes=");
    reveal_strlit("wbytes=");
    reveal_strlit("dbytes=");
    reveal_strlit("rbytes");
    reveal_strlit("wbytes");
    reveal_strlit("dbytes");
    lemma_key("rbytes"@, "rbytes="@, t);
    lemma_key("wbytes"@, "wbytes="@, t);
    lemma_key("dbytes"@, "dbytes="@, t);
    assert("rbytes"@[0] != "wbytes"@[0]);
    assert("rbytes"@[0] != "dbytes"@[0]);
    assert("wbytes"@[0] != "dbytes"@[0]);
}

proof fn lemma_key(key: Seq<char>, front: Seq<char>, t: Seq<char>)
    requires
        key.len() == 6,
        front.len() == 7,
        forall|i: int| 0 <= i < 6 ==> #[trigger] key[i] == front[i] && key[i] != '=',
        front[6] == '=',
    ensures
        find(front + t, '=') == 6,
        (front + t).take(6) == key,
        (front + t).skip(7) == t,
{
    let s = front + t;
    lemma_find(s, '=');
    let k = find(s, '=') as int;
    if k < 6 {
        assert(s[k] == key[k]);
    }
    if k > 6 {
        assert(s[6] == '=');
    }
    assert(s.take(6) =~= key);
    assert(s.skip(7) =~= t);
}

/// **Other fields change nothing**, nor does one without a number.
pub proof fn lemma_other_fields_change_nothing(io: IoBytes, field: Seq<char>, at: int)
    requires
        0 <= at < field.len(),
        field[at] == '=',
        forall|i: int| 0 <= i < at ==> #[trigger] field[i] != '=',
        parse_u64(field.skip(at + 1)) is None || (field.take(at) != "rbytes"@ && field.take(at)
            != "wbytes"@ && field.take(at) != "dbytes"@),
    ensures
        after_field(io, field) == io,
{
    lemma_find(field, '=');
    let k = find(field, '=') as int;
    if k < at {
        assert(field[k] != '=');
    }
}

// ── what was moved in a window ─────────────────────────────────────────

/// Is the entry at `i` what a sample says of its path?
pub open spec fn current_work(s: Seq<Moved>, i: int) -> bool {
    &&& 0 <= i < s.len()
    &&& forall|k: int| i < k < s.len() ==> normal(#[trigger] s[k].cgroup@) != normal(s[i].cgroup@)
}

/// Do two entries speak of the same cgroup?
pub open spec fn same_worker(first: Seq<Moved>, second: Seq<Moved>, i: int, j: int) -> bool {
    &&& current_work(first, i)
    &&& current_work(second, j)
    &&& normal(first[i].cgroup@) == normal(second[j].cgroup@)
}

/// The bytes read and written between two entries. What was discarded is not
/// counted.
pub open spec fn worked(first: Seq<Moved>, second: Seq<Moved>, i: int, j: int) -> int {
    held(
        gain(first[i].bytes.read, second[j].bytes.read) + gain(
            first[i].bytes.write,
            second[j].bytes.write,
        ),
    )
}

/// Does a cgroup below own at least eighty percent of the work?
pub open spec fn has_worker_below(first: Seq<Moved>, second: Seq<Moved>, i: int, j: int) -> bool {
    exists|a: int, b: int| #[trigger]
        same_worker(first, second, a, b) && strictly_below(
            normal(second[b].cgroup@),
            normal(second[j].cgroup@),
        ) && worked(first, second, a, b) * 100 >= worked(first, second, i, j) * 80
}

/// Is this the time for which the cgroup at a path itself waited for I/O? None,
/// where it is missing from either sample.
pub open spec fn waited(
    first: Seq<Sampled>,
    second: Seq<Sampled>,
    p: Seq<char>,
    usec: u64,
) -> bool {
    ||| exists|a: int, b: int| #[trigger]
        same_cgroup(first, second, a, b) && normal(second[b].cgroup@) == p && usec == gain(
            counter(first[a].snapshot, Resource::Io),
            counter(second[b].snapshot, Resource::Io),
        )
    ||| usec == 0 && !exists|a: int, b: int| #[trigger]
        same_cgroup(first, second, a, b) && normal(second[b].cgroup@) == p
}

/// Does a cause say what the counters say of one cgroup?
pub open spec fn credits(
    c: CauseView,
    first: Sweep,
    second: Sweep,
    window: u64,
    i: int,
    j: int,
    usec: u64,
) -> bool {
    let before = first.moved@[i].bytes;
    let after = second.moved@[j].bytes;
    &&& c.cgroup == second.moved@[j].cgroup@
    &&& c.unit == friendly(second.moved@[j].cgroup@)
    &&& c.bytes.read == gain(before.read, after.read)
    &&& c.bytes.write == gain(before.write, after.write)
    &&& c.bytes.discard == gain(before.discard, after.discard)
    &&& waited(first.pressure@, second.pressure@, normal(c.cgroup), usec)
    &&& is_about(c.pressure_pct, (100 * usec) as nat, window as nat)
    &&& c.role == role_of(held(c.bytes.read + c.bytes.write) as u64, c.pressure_pct)
}

proof fn lemma_current_work(s: Seq<Moved>, i: int)
    requires
        0 <= i < s.len(),
    ensures
        current_work(s, i) == (last_places(moved_paths(s))[normal(s[i].cgroup@)] == i),
        last_places(moved_paths(s)).contains_key(normal(s[i].cgroup@)),
{
    let p = normal(s[i].cgroup@);
    let paths = moved_paths(s);
    lemma_last_places(paths, p);
    assert(paths[i] == p);
    assert(paths.contains(p));
    let l = last_places(paths)[p];
    if current_work(s, i) {
        if i < l {
            assert(normal(s[l].cgroup@) == paths[l]);
        }
    }
    if l == i {
        assert forall|k: int| i < k < s.len() implies normal(#[trigger] s[k].cgroup@) != p by {
            assert(paths[k] != p);
        }
    }
}

spec fn done(first: Seq<Moved>, second: Seq<Moved>, i: int, j: int) -> (Seq<char>, IoBytes) {
    (second[j].cgroup@, second[j].bytes.since(first[i].bytes))
}

proof fn lemma_work_is_listed(
    first: Seq<Moved>,
    second: Seq<Moved>,
    n: nat,
    i: int,
    j: int,
) -> (k: int)
    requires
        same_worker(first, second, i, j),
        j < n <= second.len(),
    ensures
        0 <= k < window_work(first, second, n).len(),
        window_work(first, second, n)[k] == done(first, second, i, j),
    decreases n,
{
    let m = (n - 1) as nat;
    let rest = window_work(first, second, m);
    if j < m {
        lemma_work_is_listed(first, second, m, i, j)
    } else {
        lemma_current_work(first, i);
        lemma_current_work(second, j);
        rest.len() as int
    }
}

proof fn lemma_listed_is_work(
    first: Seq<Moved>,
    second: Seq<Moved>,
    n: nat,
    k: int,
) -> (ij: (int, int))
    requires
        n <= second.len(),
        0 <= k < window_work(first, second, n).len(),
    ensures
        same_worker(first, second, ij.0, ij.1),
        window_work(first, second, n)[k] == done(first, second, ij.0, ij.1),
        ij.1 < n,
    decreases n,
{
    let m = (n - 1) as nat;
    let rest = window_work(first, second, m);
    if k < rest.len() {
        lemma_listed_is_work(first, second, m, k)
    } else {
        let p = normal(second[m as int].cgroup@);
        let i = last_places(moved_paths(first))[p];
        lemma_last_places(moved_paths(first), p);
        assert(moved_paths(first)[i] == normal(first[i].cgroup@));
        lemma_current_work(first, i);
        lemma_current_work(second, m as int);
        (i, m as int)
    }
}

spec fn all_apart(d: Seq<(Seq<char>, u64)>) -> bool {
    forall|a: int, b: int|
        0 <= a < b < d.len() ==> normal(#[trigger] d[a].0) != normal(#[trigger] d[b].0)
}

proof fn lemma_work_differs(first: Seq<Moved>, second: Seq<Moved>, n: nat)
    requires
        n <= second.len(),
    ensures
        forall|a: int, b: int|
            0 <= a < b < window_work(first, second, n).len() ==> normal(
                (#[trigger] window_work(first, second, n)[a]).0,
            ) != normal((#[trigger] window_work(first, second, n)[b]).0),
    decreases n,
{
    if n > 0 {
        let m = (n - 1) as nat;
        let rest = window_work(first, second, m);
        let d = window_work(first, second, n);
        lemma_work_differs(first, second, m);
        assert forall|a: int, b: int| 0 <= a < b < d.len() implies normal((#[trigger] d[a]).0)
            != normal((#[trigger] d[b]).0) by {
            assert(d[a] == rest[a]);
            if b < rest.len() {
                assert(d[b] == rest[b]);
            } else {
                let (i, j) = lemma_listed_is_work(first, second, m, a);
                assert(d[b].0 == second[m as int].cgroup@);
            }
        }
    }
}

proof fn lemma_map_holds(d: Seq<(Seq<char>, u64)>, k: int)
    requires
        all_apart(d),
        0 <= k < d.len(),
    ensures
        pair_map(d).contains_key(normal(d[k].0)),
        pair_map(d)[normal(d[k].0)] == d[k].1,
    decreases d.len(),
{
    if k < d.len() - 1 {
        let t = d.drop_last();
        assert forall|a: int, b: int| 0 <= a < b < t.len() implies normal(#[trigger] t[a].0)
            != normal(#[trigger] t[b].0) by {
            assert(t[a] == d[a] && t[b] == d[b]);
        }
        lemma_map_holds(t, k);
        assert(t[k] == d[k]);
        assert(d.last() == d[d.len() - 1]);
    }
}

proof fn lemma_map_has(d: Seq<(Seq<char>, u64)>, q: Seq<char>) -> (k: int)
    requires
        pair_map(d).contains_key(q),
    ensures
        0 <= k < d.len(),
        normal(d[k].0) == q,
    decreases d.len(),
{
    if d.len() == 0 {
        0
    } else if normal(d.last().0) == q {
        d.len() - 1
    } else {
        lemma_map_has(d.drop_last(), q)
    }
}

#[verifier::rlimit(50)]
proof fn lemma_responsible_for_work(first: Seq<Moved>, second: Seq<Moved>, i: int, j: int)
    requires
        same_worker(first, second, i, j),
    ensures
        ({
            let d = totals(window_work(first, second, second.len()));
            let g = done(first, second, i, j);
            &&& g.1.moved() == worked(first, second, i, j)
            &&& responsible(pair_map(d), normal(g.0), g.1.moved()) <==> (worked(
                first,
                second,
                i,
                j,
            ) > 0 && !has_worker_below(first, second, i, j))
        }),
{
    let n = second.len();
    let w = window_work(first, second, n);
    let d = totals(w);
    let m = pair_map(d);
    let g = done(first, second, i, j);
    let p = normal(g.0);
    lemma_work_differs(first, second, n);
    assert(all_apart(d)) by {
        assert forall|a: int, b: int| 0 <= a < b < d.len() implies normal(#[trigger] d[a].0)
            != normal(#[trigger] d[b].0) by {
            assert(d[a].0 == w[a].0 && d[b].0 == w[b].0);
        }
    }
    if worked(first, second, i, j) > 0 {
        if has_worker_below(first, second, i, j) {
            let (a, b) = choose|a: int, b: int| #[trigger]
                same_worker(first, second, a, b) && strictly_below(
                    normal(second[b].cgroup@),
                    normal(second[j].cgroup@),
                ) && worked(first, second, a, b) * 100 >= worked(first, second, i, j) * 80;
            let k = lemma_work_is_listed(first, second, n, a, b);
            lemma_map_holds(d, k);
            assert(d[k] == (w[k].0, w[k].1.moved()));
            let q = normal(d[k].0);
            assert(m.contains_key(q) && strictly_below(q, p) && dominates(m[q], g.1.moved()));
        } else {
            assert forall|q: Seq<char>| #[trigger] m.contains_key(q) implies !(strictly_below(q, p)
                && dominates(m[q], g.1.moved())) by {
                let k = lemma_map_has(d, q);
                lemma_map_holds(d, k);
                assert(d[k] == (w[k].0, w[k].1.moved()));
                let (a, b) = lemma_listed_is_work(first, second, n, k);
                assert(same_worker(first, second, a, b));
            }
        }
    }
}

proof fn lemma_waited(first: Seq<Sampled>, second: Seq<Sampled>, p: Seq<char>)
    ensures
        waited(first, second, p, own_stall(first, second, p)),
{
    let before = last_places(sample_paths(first));
    let after = last_places(sample_paths(second));
    lemma_last_places(sample_paths(first), p);
    lemma_last_places(sample_paths(second), p);
    if before.contains_key(p) && after.contains_key(p) {
        let a = before[p];
        let b = after[p];
        assert(sample_paths(first)[a] == normal(first[a].cgroup@));
        assert(sample_paths(second)[b] == normal(second[b].cgroup@));
        assert forall|k: int| a < k < first.len() implies normal(#[trigger] first[k].cgroup@)
            != p by {
            assert(sample_paths(first)[k] != p);
        }
        assert forall|k: int| b < k < second.len() implies normal(#[trigger] second[k].cgroup@)
            != p by {
            assert(sample_paths(second)[k] != p);
        }
        assert(same_cgroup(first, second, a, b));
    } else {
        assert forall|a: int, b: int| #[trigger] same_cgroup(first, second, a, b) implies normal(
            second[b].cgroup@,
        ) != p by {
            if normal(second[b].cgroup@) == p {
                assert(sample_paths(first)[a] == p);
                assert(sample_paths(second)[b] == p);
                assert(sample_paths(first).contains(p));
                assert(sample_paths(second).contains(p));
            }
        }
    }
}

proof fn lemma_mover_is_listed(
    first: Sweep,
    second: Sweep,
    w: Seq<(Seq<char>, IoBytes)>,
    window: u64,
    n: nat,
    k: int,
) -> (m: int)
    requires
        0 <= k < n <= w.len(),
        responsible(pair_map(totals(w)), normal(w[k].0), w[k].1.moved()),
    ensures
        0 <= m < movers(first, second, w, window, n).len(),
        movers(first, second, w, window, n)[m] == window_cause(
            w[k].0,
            w[k].1,
            share(own_stall(first.pressure@, second.pressure@, normal(w[k].0)), window),
        ),
    decreases n,
{
    let rest = movers(first, second, w, window, (n - 1) as nat);
    if k < n - 1 {
        lemma_mover_is_listed(first, second, w, window, (n - 1) as nat, k)
    } else {
        rest.len() as int
    }
}

proof fn lemma_listed_is_mover(
    first: Sweep,
    second: Sweep,
    w: Seq<(Seq<char>, IoBytes)>,
    window: u64,
    n: nat,
    m: int,
) -> (k: int)
    requires
        n <= w.len(),
        0 <= m < movers(first, second, w, window, n).len(),
    ensures
        0 <= k < n,
        responsible(pair_map(totals(w)), normal(w[k].0), w[k].1.moved()),
        movers(first, second, w, window, n)[m] == window_cause(
            w[k].0,
            w[k].1,
            share(own_stall(first.pressure@, second.pressure@, normal(w[k].0)), window),
        ),
    decreases n,
{
    let rest = movers(first, second, w, window, (n - 1) as nat);
    if m < rest.len() {
        lemma_listed_is_mover(first, second, w, window, (n - 1) as nat, m)
    } else {
        n - 1
    }
}

proof fn lemma_credit(first: Sweep, second: Sweep, window: u64, i: int, j: int) -> (c: CauseView)
    requires
        window > 0,
        same_worker(first.moved@, second.moved@, i, j),
    ensures
        c == window_cause(
            done(first.moved@, second.moved@, i, j).0,
            done(first.moved@, second.moved@, i, j).1,
            share(
                own_stall(
                    first.pressure@,
                    second.pressure@,
                    normal(second.moved@[j].cgroup@),
                ),
                window,
            ),
        ),
        credits(
            c,
            first,
            second,
            window,
            i,
            j,
            own_stall(first.pressure@, second.pressure@, normal(second.moved@[j].cgroup@)),
        ),
{
    let p = normal(second.moved@[j].cgroup@);
    let usec = own_stall(first.pressure@, second.pressure@, p);
    lemma_waited(first.pressure@, second.pressure@, p);
    lemma_percent_is_true(usec as nat, window as nat);
    assert(share(usec, window) == percent_of(usec as int, window as int));
    let g = done(first.moved@, second.moved@, i, j);
    window_cause(g.0, g.1, share(usec, window))
}

/// **No worker is missed.** A cgroup of both samples that read or wrote in the
/// window, and below which nothing did eighty percent of it, is among the
/// movers with what its counters gained, its own waiting and its role; and it is
/// reported, or ten others are that moved at least as much.
pub proof fn lemma_every_responsible_worker_is_found(
    first: Sweep,
    second: Sweep,
    window: u64,
    i: int,
    j: int,
) -> (r: (CauseView, u64))
    requires
        window > 0,
        second.moved@.len() <= usize::MAX,
        same_worker(first.moved@, second.moved@, i, j),
        worked(first.moved@, second.moved@, i, j) > 0,
        !has_worker_below(first.moved@, second.moved@, i, j),
    ensures
        credits(r.0, first, second, window, i, j, r.1),
        all_movers(first, second, window).contains(r.0),
        ({
            let l = working(first, second, window);
            l.contains(r.0) || (l.len() == 10 && forall|k: int|
                0 <= k < l.len() ==> (#[trigger] l[k]).bytes.moved() >= r.0.bytes.moved())
        }),
{
    let n = second.moved@.len();
    let w = window_work(first.moved@, second.moved@, n);
    let k = lemma_work_is_listed(first.moved@, second.moved@, n, i, j);
    lemma_responsible_for_work(first.moved@, second.moved@, i, j);
    let m = lemma_mover_is_listed(first, second, w, window, w.len(), k);
    let c = lemma_credit(first, second, window, i, j);
    let usec = own_stall(first.pressure@, second.pressure@, normal(second.moved@[j].cgroup@));
    let all = all_movers(first, second, window);
    assert(all[m] == c);
    lemma_few_movers(first, second, window);
    let keys = byte_keys(all);
    lemma_order_has_all(keys);
    let p = order_of(keys);
    let l = working(first, second, window);
    assert(p.contains(m as usize));
    let x = choose|x: int| 0 <= x < p.len() && p[x] == m as usize;
    if x < l.len() {
        assert(l[x] == c);
    } else {
        assert forall|k: int| 0 <= k < l.len() implies (#[trigger] l[k]).bytes.moved()
            >= c.bytes.moved() by {
            assert(!keys[p[x] as int].ahead(&keys[p[k] as int]));
        }
    }
    (c, usec)
}

proof fn lemma_little_work(first: Seq<Moved>, second: Seq<Moved>, n: nat)
    ensures
        window_work(first, second, n).len() <= n,
    decreases n,
{
    if n > 0 {
        lemma_little_work(first, second, (n - 1) as nat);
    }
}

proof fn lemma_fewer_movers(
    first: Sweep,
    second: Sweep,
    w: Seq<(Seq<char>, IoBytes)>,
    window: u64,
    n: nat,
)
    ensures
        movers(first, second, w, window, n).len() <= n,
    decreases n,
{
    if n > 0 {
        lemma_fewer_movers(first, second, w, window, (n - 1) as nat);
    }
}

proof fn lemma_few_movers(first: Sweep, second: Sweep, window: u64)
    ensures
        all_movers(first, second, window).len() <= second.moved@.len(),
{
    let n = second.moved@.len();
    let w = window_work(first.moved@, second.moved@, n);
    lemma_little_work(first.moved@, second.moved@, n);
    lemma_fewer_movers(first, second, w, window, w.len());
}

/// **Everyone named has worked.** Each reported cause is what the counters say
/// of a cgroup of both samples that read or wrote, below which nothing did
/// eighty percent of it. At most ten are named, the biggest first.
#[verifier::rlimit(50)]
pub proof fn lemma_everyone_named_has_worked(
    first: Sweep,
    second: Sweep,
    window: u64,
    a: int,
) -> (r: (int, int, u64))
    requires
        second.moved@.len() <= usize::MAX,
        0 <= a < working(first, second, window).len(),
    ensures
        window > 0,
        working(first, second, window).len() <= 10,
        credits(working(first, second, window)[a], first, second, window, r.0, r.1, r.2),
        same_worker(first.moved@, second.moved@, r.0, r.1),
        worked(first.moved@, second.moved@, r.0, r.1) > 0,
        !has_worker_below(first.moved@, second.moved@, r.0, r.1),
        forall|b: int|
            a < b < working(first, second, window).len() ==> (#[trigger] working(
                first,
                second,
                window,
            )[b]).bytes.moved() <= working(first, second, window)[a].bytes.moved(),
{
    let n = second.moved@.len();
    let w = window_work(first.moved@, second.moved@, n);
    let all = all_movers(first, second, window);
    lemma_few_movers(first, second, window);
    let keys = byte_keys(all);
    lemma_order_has_all(keys);
    let p = order_of(keys);
    let l = working(first, second, window);
    let m = p[a] as int;
    assert(m < all.len());
    let k = lemma_listed_is_mover(first, second, w, window, w.len(), m);
    let (i, j) = lemma_listed_is_work(first.moved@, second.moved@, n, k);
    lemma_responsible_for_work(first.moved@, second.moved@, i, j);
    let c = lemma_credit(first, second, window, i, j);
    assert(l[a] == c);
    assert forall|b: int| a < b < l.len() implies (#[trigger] l[b]).bytes.moved()
        <= l[a].bytes.moved() by {
        assert(!keys[p[b] as int].ahead(&keys[p[a] as int]));
    }
    (i, j, own_stall(first.pressure@, second.pressure@, normal(second.moved@[j].cgroup@)))
}

// ── roles ──────────────────────────────────────────────────────────────

/// **Who did the work and who waited for it.** A cause moved a mebibyte at least
/// and waited less than half of the time. A victim moved less than that and
/// waited half of the time at least. Whoever did both or neither is merely
/// active.
pub proof fn lemma_roles(bytes: u64, pct: Double)
    requires
        !pct.is_nan(),
    ensures
        role_of(bytes, pct) == Role::Cause <==> bytes >= 1_048_576 && pct.value() < 50 * one(),
        role_of(bytes, pct) == Role::Victim <==> bytes < 1_048_576 && pct.value() >= 50 * one(),
        role_of(bytes, pct) == Role::Active <==> (bytes >= 1_048_576) == (pct.value() >= 50
            * one()),
{
    lemma_whole_exact(50);
}

} // verus!
