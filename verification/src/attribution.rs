//! Deciding which cgroup is *responsible* for a stall.
//!
//! Reading PSI is easy. Saying which unit to blame is the work, because the
//! kernel's accounting is hierarchical: a stall inside `firefox.scope` is also
//! counted against `app.slice`, `user@1000.service`, `user-1000.slice`,
//! `user.slice` and the root. Report those naively and the answer is always
//! "user.slice", which tells nobody anything.

use vstd::arithmetic::power2::lemma_pow2_pos;
use vstd::prelude::*;

use crate::causes::{Sweep, cause_views, find_causes, working};
use crate::cgroup::{Sampled, friendly, friendly_name};
use crate::float::{
    Double, at_most, below, larger, lemma_magnitude_order, lemma_nearest_exact, lemma_nearest_grows,
    lemma_quotient_falls, lemma_units_grow, lemma_whole_one, lemma_whole_positive,
    lemma_whole_quotient_positive, one, product, quotient, units, whole,
};
use crate::index::{PathIndex, ascending, last_places, lemma_last_places};
use crate::path::{
    begins_with, lemma_between_continues, lemma_prefix_carries, lemma_prefix_sorts_before,
    lemma_prefixes_nest, lemma_sorts_one_way, normal, normalized, sorts_before, strictly_below,
};
use crate::psi::{PsiKind, Resource, Snapshot};
use crate::ranking::{StallView, rank_stalls, views, worst_first};
use crate::report::{Cause, MAX_STALLS, MIN_REPORTABLE_PCT, Stall};
use crate::span::{Span, rounded_nanos};
use crate::text::{push_chars_run, runs, same_chars, to_chars};

verus! {

/// Share of a parent's stall, in percent, that a single child must own before
/// the parent stops being considered responsible.
///
/// Too low and deep leaves get blamed for pressure that is genuinely spread
/// across siblings; too high and parents hog the report. 80% means "one child
/// clearly dominates" while leaving a parent responsible when its stall is the
/// diffuse sum of many children.
pub const CHILD_DOMINANCE: u64 = 80;

/// What one cgroup's counter gained during a window: the time that it stalled,
/// or the bytes that it moved.
#[derive(Debug)]
pub struct Delta {
    pub cgroup: String,
    pub gained: u64,
}

/// Gains by path; a later entry replaces an earlier one for the same path.
pub open spec fn delta_map(deltas: Seq<Delta>) -> Map<Seq<char>, u64>
    decreases deltas.len(),
{
    if deltas.len() == 0 {
        Map::empty()
    } else {
        delta_map(deltas.drop_last()).insert(normal(deltas.last().cgroup@), deltas.last().gained)
    }
}

/// Is a stall of `d` large enough to take the blame for one of `delta`?
pub open spec fn dominates(d: u64, delta: u64) -> bool {
    d * 100 >= delta * CHILD_DOMINANCE
}

fn takes_blame(d: u64, delta: u64) -> (r: bool)
    ensures
        r == dominates(d, delta),
{
    assert(CHILD_DOMINANCE == 80);
    d as u128 * 100 >= delta as u128 * 80
}

/// Is the cgroup at `p` the one to blame for a stall, or is a child
/// responsible? It is to blame where it stalled at all and nothing below it
/// accounts for [`CHILD_DOMINANCE`] percent or more of its stall.
pub open spec fn responsible(m: Map<Seq<char>, u64>, p: Seq<char>, delta: u64) -> bool {
    delta > 0 && !(exists|q: Seq<char>|
        #[trigger] m.contains_key(q) && strictly_below(q, p) && dominates(m[q], delta))
}

/// The normal forms of the paths in some entries.
pub open spec fn delta_paths(deltas: Seq<Delta>) -> Seq<Seq<char>> {
    Seq::new(deltas.len(), |i: int| normal(deltas[i].cgroup@))
}

proof fn lemma_delta_map(deltas: Seq<Delta>, p: Seq<char>)
    ensures
        delta_map(deltas).contains_key(p) == last_places(delta_paths(deltas)).contains_key(p),
        delta_map(deltas).contains_key(p) ==> {
            let i = last_places(delta_paths(deltas))[p];
            0 <= i < deltas.len() && delta_map(deltas)[p] == deltas[i].gained
        },
    decreases deltas.len(),
{
    if deltas.len() > 0 {
        let t = deltas.drop_last();
        lemma_delta_map(t, p);
        assert(delta_paths(deltas).drop_last() =~= delta_paths(t));
        assert(delta_paths(deltas).last() == normal(deltas.last().cgroup@));
    }
}

fn normal_paths(deltas: &Vec<Delta>) -> (r: Vec<Vec<char>>)
    ensures
        runs(r@) == delta_paths(deltas@),
{
    let mut out: Vec<Vec<char>> = Vec::new();
    let mut i: usize = 0;
    while i < deltas.len()
        invariant
            i <= deltas@.len(),
            runs(out@) == delta_paths(deltas@).take(i as int),
        decreases deltas@.len() - i,
    {
        push_chars_run(&mut out, normalized(&to_chars(deltas[i].cgroup.as_str())));
        proof {
            let all = delta_paths(deltas@);
            assert(all.take(i + 1) =~= all.take(i as int).push(all[i as int]));
        }
        i += 1;
    }
    assert(runs(out@) =~= delta_paths(deltas@));
    out
}

/// The plain reading of the dominance rule: look at every entry.
pub fn is_responsible(cg: &str, delta: u64, deltas: &Vec<Delta>) -> (r: bool)
    ensures
        r == responsible(delta_map(deltas@), normal(cg@), delta),
{
    if delta == 0 {
        return false;
    }
    let p: Vec<char> = normalized(&to_chars(cg));
    let index: PathIndex = PathIndex::new(&normal_paths(deltas));
    let ghost m = delta_map(deltas@);
    let mut k: usize = 0;
    while k < index.len()
        invariant
            k <= index.keys().len(),
            index.sound(),
            index.paths() == delta_paths(deltas@),
            p@ == normal(cg@),
            m == delta_map(deltas@),
            forall|j: int|
                0 <= j < k ==> !(strictly_below(#[trigger] index.keys()[j]@, p@) && dominates(
                    m[index.keys()[j]@],
                    delta,
                )),
        decreases index.keys().len() - k,
    {
        let q: &Vec<char> = index.key(k);
        proof {
            lemma_delta_map(deltas@, q@);
        }
        let d: u64 = deltas[index.place(k)].gained;
        if begins_with(q, &p) && !same_chars(q, &p) && takes_blame(d, delta) {
            proof {
                assert(m.contains_key(q@) && strictly_below(q@, p@) && dominates(m[q@], delta));
            }
            return false;
        }
        k += 1;
    }
    proof {
        assert forall|q: Seq<char>| #[trigger] m.contains_key(q) implies !(strictly_below(q, p@)
            && dominates(m[q], delta)) by {
            lemma_delta_map(deltas@, q);
            let j = choose|j: int| 0 <= j < index.keys().len() && #[trigger] index.keys()[j]@ == q;
            assert(index.keys()[j]@ == q);
        }
    }
    true
}

// ── the same rule in one pass ──────────────────────────────────────────

/// Does the path at `d` lie below the path at `j`?
spec fn under(keys: Seq<Vec<char>>, d: int, j: int) -> bool {
    strictly_below(keys[d]@, keys[j]@)
}

proof fn lemma_under_is_after(keys: Seq<Vec<char>>, d: int, j: int)
    requires
        ascending(keys),
        0 <= d < keys.len(),
        0 <= j < keys.len(),
        under(keys, d, j),
    ensures
        j < d,
{
    lemma_prefix_sorts_before(keys[j]@, keys[d]@);
    if d < j {
        assert(sorts_before(keys[d]@, keys[j]@));
        lemma_sorts_one_way(keys[d]@, keys[j]@);
    }
    if d == j {
        lemma_sorts_one_way(keys[d]@, keys[d]@);
    }
}

proof fn lemma_under_carries(keys: Seq<Vec<char>>, a: int, b: int, c: int)
    requires
        under(keys, a, b),
        under(keys, b, c),
    ensures
        under(keys, a, c),
{
    lemma_prefix_carries(keys[a]@, keys[b]@, keys[c]@);
    if keys[a]@ == keys[c]@ {
        let x = keys[a]@;
        let y = keys[b]@;
        assert(x.len() == y.len());
        assert(x.take(y.len() as int) =~= x);
    }
}

/// Of two paths above the same path, one is above the other.
proof fn lemma_above_nest(keys: Seq<Vec<char>>, d: int, a: int, b: int)
    requires
        ascending(keys),
        0 <= a < keys.len(),
        0 <= b < keys.len(),
        under(keys, d, a),
        under(keys, d, b),
    ensures
        a == b || under(keys, a, b) || under(keys, b, a),
{
    if keys[a]@.len() <= keys[b]@.len() {
        lemma_prefixes_nest(keys[d]@, keys[a]@, keys[b]@);
    } else {
        lemma_prefixes_nest(keys[d]@, keys[b]@, keys[a]@);
    }
    if keys[a]@ == keys[b]@ {
        lemma_sorts_one_way(keys[a]@, keys[a]@);
        if a < b {
            assert(sorts_before(keys[a]@, keys[b]@));
        } else if b < a {
            assert(sorts_before(keys[b]@, keys[a]@));
        }
    }
}

/// Is `p` the nearest path above `i`? The number of paths stands for none.
spec fn is_parent(keys: Seq<Vec<char>>, i: int, p: int) -> bool {
    if p == keys.len() {
        forall|m: int| 0 <= m < keys.len() ==> !#[trigger] under(keys, i, m)
    } else {
        &&& 0 <= p < i
        &&& under(keys, i, p)
        &&& forall|m: int|
            0 <= m < keys.len() && #[trigger] under(keys, i, m) ==> m == p || under(keys, p, m)
    }
}

/// The nearest path above each one.
fn find_parents(index: &PathIndex) -> (r: Vec<usize>)
    requires
        index.sound(),
    ensures
        r@.len() == index.keys().len(),
        forall|i: int| 0 <= i < r@.len() ==> is_parent(index.keys(), i, #[trigger] r@[i] as int),
{
    let ghost keys = index.keys();
    let n: usize = index.len();
    let mut parents: Vec<usize> = Vec::new();
    let mut i: usize = 0;
    while i < n
        invariant
            i <= n,
            n == keys.len(),
            keys == index.keys(),
            index.sound(),
            ascending(keys),
            parents@.len() == i,
            forall|a: int| 0 <= a < i ==> is_parent(keys, a, #[trigger] parents@[a] as int),
        decreases n - i,
    {
        // Whatever is above `i` is `i - 1` or above it.
        let mut q: usize = if i == 0 {
            n
        } else {
            i - 1
        };
        proof {
            assert forall|m: int| 0 <= m < n && #[trigger] under(keys, i as int, m) implies q < n
                && (m == q || under(keys, q as int, m)) by {
                lemma_under_is_after(keys, i as int, m);
                if m < i - 1 {
                    let a = keys[m]@;
                    let b = keys[i - 1]@;
                    let c = keys[i as int]@;
                    assert(sorts_before(keys[m]@, keys[i - 1]@));
                    assert(sorts_before(keys[i - 1]@, keys[i as int]@));
                    lemma_sorts_one_way(a, b);
                    lemma_sorts_one_way(b, c);
                    lemma_between_continues(a, b, c);
                }
            }
        }
        let mut found: bool = false;
        while q < n && !found
            invariant
                i < n,
                n == keys.len(),
                keys == index.keys(),
                index.sound(),
                ascending(keys),
                parents@.len() == i,
                forall|a: int| 0 <= a < i ==> is_parent(keys, a, #[trigger] parents@[a] as int),
                q < i || q == n,
                found ==> q < n && under(keys, i as int, q as int),
                forall|m: int|
                    0 <= m < n && #[trigger] under(keys, i as int, m) ==> q < n && (m == q
                        || under(keys, q as int, m)),
            decreases (if q < n { q as int + 2 } else { 0 }), (if found { 0int } else { 1 }),
        {
            if begins_with(index.key(i), index.key(q)) && !same_chars(
                index.key(i),
                index.key(q),
            ) {
                found = true;
            } else {
                let ghost q0 = q as int;
                let next: usize = parents[q];
                proof {
                    assert(is_parent(keys, q0, parents@[q0] as int));
                    assert(!under(keys, i as int, q0));
                    assert forall|m: int| 0 <= m < n && #[trigger] under(keys, i as int, m) implies
                        next < n && (m == next || under(keys, next as int, m)) by {
                        assert(under(keys, q0, m));
                    }
                }
                q = next;
            }
        }
        proof {
            assert(is_parent(keys, i as int, q as int));
        }
        parents.push(q);
        i += 1;
    }
    parents
}

/// What has come up to `j` once everything from `i` on has been passed up: the
/// stalls below `j` with nothing earlier than `i` in between.
spec fn came_up(keys: Seq<Vec<char>>, d: int, j: int, i: int) -> bool {
    &&& i <= d < keys.len()
    &&& under(keys, d, j)
    &&& forall|m: int|
        0 <= m < keys.len() && #[trigger] under(keys, d, m) && under(keys, m, j) ==> m >= i
}

/// Is `best` the largest stall that has come up to `j`?
spec fn is_best(keys: Seq<Vec<char>>, own: Seq<u64>, best: u64, j: int, i: int) -> bool {
    &&& forall|d: int| #[trigger] came_up(keys, d, j, i) ==> own[d] <= best
    &&& best == 0 || exists|d: int| #[trigger] came_up(keys, d, j, i) && own[d] == best
}

/// Everything below `x` has come up to it when its turn is next.
proof fn lemma_all_came_up(keys: Seq<Vec<char>>, d: int, x: int)
    requires
        ascending(keys),
        0 <= d < keys.len(),
        0 <= x < keys.len(),
        under(keys, d, x),
    ensures
        came_up(keys, d, x, x + 1),
{
    lemma_under_is_after(keys, d, x);
    assert forall|m: int|
        0 <= m < keys.len() && #[trigger] under(keys, d, m) && under(keys, m, x) implies m >= x
        + 1 by {
        lemma_under_is_after(keys, m, x);
    }
}

/// Passing `x` up changes nothing for a path other than its parent.
proof fn lemma_others_keep(keys: Seq<Vec<char>>, own: Seq<u64>, best: u64, j: int, x: int, p: int)
    requires
        ascending(keys),
        0 <= x < keys.len(),
        0 <= j < keys.len(),
        j != p,
        is_parent(keys, x, p),
        is_best(keys, own, best, j, x + 1),
    ensures
        is_best(keys, own, best, j, x),
{
    assert forall|d: int| #[trigger] came_up(keys, d, j, x) implies came_up(keys, d, j, x + 1) by {
        if under(keys, x, j) && (d == x || under(keys, d, x)) {
            // Then the parent of `x` lies in between, and it is earlier.
            assert(under(keys, p, j));
            if d != x {
                lemma_under_carries(keys, d, x, p);
            }
            assert(under(keys, d, p));
            lemma_under_is_after(keys, x, p);
            assert(false);
        }
        if d == x {
            assert(under(keys, x, j));
        }
        assert forall|m: int|
            0 <= m < keys.len() && #[trigger] under(keys, d, m) && under(keys, m, j) implies m >= x
            + 1 by {
            if m == x {
                assert(under(keys, x, j));
            }
        }
    }
    if best != 0 {
        let d = choose|d: int| #[trigger] came_up(keys, d, j, x + 1) && own[d] == best;
        assert(came_up(keys, d, j, x));
    }
}

/// Passing `x` up to its parent.
proof fn lemma_parent_gains(
    keys: Seq<Vec<char>>,
    own: Seq<u64>,
    mine: u64,
    best: u64,
    next: u64,
    p: int,
    x: int,
)
    requires
        ascending(keys),
        own.len() == keys.len(),
        0 <= x < keys.len(),
        0 <= p < keys.len(),
        is_parent(keys, x, p),
        is_best(keys, own, mine, x, x + 1),
        is_best(keys, own, best, p, x + 1),
        next == (if own[x] > mine {
            if own[x] > best {
                own[x]
            } else {
                best
            }
        } else {
            if mine > best {
                mine
            } else {
                best
            }
        }),
    ensures
        is_best(keys, own, next, p, x),
{
    assert forall|d: int| #[trigger] came_up(keys, d, p, x) implies own[d] <= next by {
        if d == x {
        } else if under(keys, d, x) {
            lemma_all_came_up(keys, d, x);
            assert(came_up(keys, d, x, x + 1));
        } else {
            assert forall|m: int|
                0 <= m < keys.len() && #[trigger] under(keys, d, m) && under(keys, m, p) implies m
                >= x + 1 by {}
            assert(came_up(keys, d, p, x + 1));
        }
    }
    if next != 0 {
        if next == best && best != 0 {
            let d = choose|d: int| #[trigger] came_up(keys, d, p, x + 1) && own[d] == best;
            assert(came_up(keys, d, p, x));
        } else if next == own[x] {
            assert forall|m: int|
                0 <= m < keys.len() && #[trigger] under(keys, x, m) && under(keys, m, p) implies m
                >= x by {
                if m != p {
                    lemma_under_is_after(keys, m, p);
                    lemma_under_is_after(keys, p, m);
                } else {
                    lemma_under_is_after(keys, m, p);
                }
            }
            assert(came_up(keys, x, p, x));
        } else {
            let d = choose|d: int| #[trigger] came_up(keys, d, x, x + 1) && own[d] == mine;
            lemma_under_carries(keys, d, x, p);
            assert forall|m: int|
                0 <= m < keys.len() && #[trigger] under(keys, d, m) && under(keys, m, p) implies m
                >= x by {
                lemma_above_nest(keys, d, m, x);
                if under(keys, m, x) {
                    lemma_under_is_after(keys, m, x);
                } else if under(keys, x, m) {
                    if m != p {
                        lemma_under_is_after(keys, m, p);
                        lemma_under_is_after(keys, p, m);
                    } else {
                        lemma_under_is_after(keys, m, p);
                    }
                }
            }
            assert(came_up(keys, d, p, x));
        }
    }
}

/// The worst stall below each cgroup.
///
/// Looking at every pair of cgroups is quadratic. The tree makes it
/// unnecessary: in ascending order every descendant comes after its ancestor,
/// so one reverse pass hands each subtree's maximum up to the nearest ancestor
/// that is present. Deepest first means that a subtree's own maximum is
/// complete when it is handed on.
pub struct Responsibility {
    index: PathIndex,
    /// Largest stall anywhere strictly below each path.
    worst: Vec<u64>,
    deltas: Ghost<Map<Seq<char>, u64>>,
}

impl Responsibility {
    /// The stalls by path that it was made from.
    pub closed spec fn deltas(&self) -> Map<Seq<char>, u64> {
        self.deltas@
    }

    #[verifier::type_invariant]
    spec fn sound(&self) -> bool {
        let keys = self.index.keys();
        let m = self.deltas@;
        &&& self.index.sound()
        &&& self.worst@.len() == keys.len()
        &&& forall|p: Seq<char>|
            #[trigger] m.contains_key(p) == last_places(self.index.paths()).contains_key(p)
        &&& forall|k: int, d: int|
            0 <= k < keys.len() && 0 <= d < keys.len() && #[trigger] under(keys, d, k)
                ==> m[keys[d]@] <= self.worst@[k]
        &&& forall|k: int|
            0 <= k < keys.len() ==> (#[trigger] self.worst@[k] == 0 || exists|d: int|
                0 <= d < keys.len() && #[trigger] under(keys, d, k) && m[keys[d]@]
                    == self.worst@[k])
    }

    pub fn new(deltas: &Vec<Delta>) -> (r: Responsibility)
        ensures
            r.deltas() == delta_map(deltas@),
    {
        let index: PathIndex = PathIndex::new(&normal_paths(deltas));
        let ghost keys = index.keys();
        let ghost m = delta_map(deltas@);
        let n: usize = index.len();
        let parents: Vec<usize> = find_parents(&index);
        let mut own: Vec<u64> = Vec::new();
        let mut worst: Vec<u64> = Vec::new();
        let mut k: usize = 0;
        while k < n
            invariant
                k <= n,
                n == keys.len(),
                keys == index.keys(),
                index.sound(),
                index.paths() == delta_paths(deltas@),
                m == delta_map(deltas@),
                own@.len() == k,
                worst@.len() == k,
                forall|j: int| 0 <= j < k ==> #[trigger] own@[j] == m[keys[j]@],
                forall|j: int| 0 <= j < k ==> m.contains_key(#[trigger] keys[j]@),
                forall|j: int| 0 <= j < k ==> #[trigger] worst@[j] == 0,
            decreases n - k,
        {
            proof {
                assert(last_places(index.paths()).contains_key(index.keys()[k as int]@));
                lemma_delta_map(deltas@, keys[k as int]@);
            }
            let ghost own0 = own@;
            own.push(deltas[index.place(k)].gained);
            worst.push(0);
            proof {
                assert(own@[k as int] == m[keys[k as int]@]);
                assert forall|j: int| 0 <= j < k + 1 implies #[trigger] own@[j] == m[keys[j]@] by {
                    if j < k {
                        assert(own@[j] == own0[j]);
                    }
                }
            }
            k += 1;
        }
        let mut i: usize = n;
        proof {
            assert forall|j: int| 0 <= j < n implies is_best(
                keys,
                own@,
                #[trigger] worst@[j],
                j,
                n as int,
            ) by {}
        }
        while i > 0
            invariant
                i <= n,
                n == keys.len(),
                keys == index.keys(),
                ascending(keys),
                own@.len() == n,
                worst@.len() == n,
                parents@.len() == n,
                forall|a: int| 0 <= a < n ==> is_parent(keys, a, #[trigger] parents@[a] as int),
                forall|j: int|
                    0 <= j < n ==> is_best(keys, own@, #[trigger] worst@[j], j, i as int),
            decreases i,
        {
            let x: usize = i - 1;
            let p: usize = parents[x];
            let ghost before = worst@;
            let mine: u64 = worst[x];
            let subtree: u64 = if own[x] > mine {
                own[x]
            } else {
                mine
            };
            assert(is_best(keys, own@, before[x as int], x as int, i as int));
            assert(is_parent(keys, x as int, parents@[x as int] as int));
            if p < n {
                let slot: u64 = worst[p];
                assert(is_best(keys, own@, before[p as int], p as int, i as int));
                let next: u64 = if subtree > slot {
                    subtree
                } else {
                    slot
                };
                worst.set(p, next);
                proof {
                    lemma_parent_gains(
                        keys,
                        own@,
                        mine,
                        before[p as int],
                        next,
                        p as int,
                        x as int,
                    );
                }
            }
            proof {
                assert forall|j: int| 0 <= j < n implies is_best(
                    keys,
                    own@,
                    #[trigger] worst@[j],
                    j,
                    x as int,
                ) by {
                    if j != p {
                        assert(worst@[j] == before[j]);
                        assert(is_best(keys, own@, before[j], j, i as int));
                        lemma_others_keep(keys, own@, before[j], j, x as int, p as int);
                    }
                }
            }
            i = x;
        }
        proof {
            assert forall|k: int, d: int|
                0 <= k < keys.len() && 0 <= d < keys.len() && #[trigger] under(keys, d, k) implies
                m[keys[d]@] <= worst@[k] by {
                assert(is_best(keys, own@, worst@[k], k, 0));
                assert(came_up(keys, d, k, 0));
                assert(own@[d] == m[keys[d]@]);
            }
            assert forall|k: int| 0 <= k < keys.len() implies (#[trigger] worst@[k] == 0 || exists|
                d: int,
            |
                0 <= d < keys.len() && #[trigger] under(keys, d, k) && m[keys[d]@] == worst@[k]) by {
                assert(is_best(keys, own@, worst@[k], k, 0));
                if worst@[k] != 0 {
                    let d = choose|d: int|
                        #[trigger] came_up(keys, d, k, 0) && own@[d] == worst@[k];
                    assert(under(keys, d, k) && m[keys[d]@] == own@[d]);
                }
            }
            assert forall|p: Seq<char>| #[trigger] m.contains_key(p) == last_places(
                index.paths(),
            ).contains_key(p) by {
                lemma_delta_map(deltas@, p);
            }
        }
        Responsibility { index, worst, deltas: Ghost(m) }
    }

    /// Is this cgroup the one to blame, or is a child responsible?
    ///
    /// For a cgroup that has no entry nothing is known of what lies below it.
    pub fn is_responsible(&self, cg: &str, delta: u64) -> (r: bool)
        ensures
            self.deltas().contains_key(normal(cg@)) ==> r == responsible(
                self.deltas(),
                normal(cg@),
                delta,
            ),
            !self.deltas().contains_key(normal(cg@)) ==> r == (delta > 0),
    {
        proof {
            use_type_invariant(self);
        }
        if delta == 0 {
            return false;
        }
        let p: Vec<char> = normalized(&to_chars(cg));
        let ghost m = self.deltas@;
        let ghost keys = self.index.keys();
        match self.index.find(&p) {
            None => true,
            Some(k) => {
                let worst: u64 = self.worst[k];
                let r: bool = !takes_blame(worst, delta);
                proof {
                    assert(keys[k as int]@ == p@);
                    assert(last_places(self.index.paths()).contains_key(keys[k as int]@));
                    assert(m.contains_key(p@));
                    if r {
                        assert forall|q: Seq<char>| #[trigger] m.contains_key(q) implies !(
                        strictly_below(q, p@) && dominates(m[q], delta)) by {
                            if strictly_below(q, p@) {
                                let d = choose|d: int|
                                    0 <= d < keys.len() && #[trigger] keys[d]@ == q;
                                assert(under(keys, d, k as int));
                            }
                        }
                    } else {
                        let d = choose|d: int|
                            0 <= d < keys.len() && #[trigger] under(keys, d, k as int)
                                && m[keys[d]@] == worst;
                        let q = keys[d]@;
                        assert(last_places(self.index.paths()).contains_key(keys[d]@));
                        assert(m.contains_key(q) && strictly_below(q, p@) && dominates(
                            m[q],
                            delta,
                        ));
                    }
                }
                r
            },
        }
    }
}

// ── what stalled between two samples ───────────────────────────────────

/// The normal forms of the paths in a sample.
pub open spec fn sample_paths(s: Seq<Sampled>) -> Seq<Seq<char>> {
    Seq::new(s.len(), |i: int| normal(s[i].cgroup@))
}

/// One counter taken away from a later one, zero where it went back: counters
/// restart when a cgroup is destroyed and its path reused.
pub open spec fn counted_since(before: u64, after: u64) -> u64 {
    if after >= before {
        (after - before) as u64
    } else {
        0
    }
}

/// The time one resource stalled in a cgroup between two snapshots.
pub open spec fn stalled_between(before: Snapshot, after: Snapshot, res: Resource) -> u64 {
    counted_since(before.of(res).total(res.primary()), after.of(res).total(res.primary()))
}

/// How long each cgroup of the second sample stalled, the first `n` of them.
///
/// A cgroup absent from the first sample appeared mid-window: its counter
/// starts from an unknown base, so it is left out rather than reported with a
/// fabricated figure.
pub open spec fn window_deltas(
    first: Seq<Sampled>,
    second: Seq<Sampled>,
    res: Resource,
    n: nat,
) -> Seq<(Seq<char>, u64)>
    decreases n,
{
    if n == 0 {
        seq![]
    } else {
        let i = n - 1;
        let rest = window_deltas(first, second, res, i as nat);
        let p = normal(second[i].cgroup@);
        let base = last_places(sample_paths(first));
        if last_places(sample_paths(second))[p] == i && base.contains_key(p) {
            rest.push(
                (
                    second[i].cgroup@,
                    stalled_between(first[base[p]].snapshot, second[i].snapshot, res),
                ),
            )
        } else {
            rest
        }
    }
}

/// Stalls by path.
pub open spec fn pair_map(d: Seq<(Seq<char>, u64)>) -> Map<Seq<char>, u64>
    decreases d.len(),
{
    if d.len() == 0 {
        Map::empty()
    } else {
        pair_map(d.drop_last()).insert(normal(d.last().0), d.last().1)
    }
}

/// A share of a window, in percent.
pub open spec fn share(usec: u64, window: u64) -> Double {
    product(quotient(whole(usec as int), whole(window as int)), whole(100))
}

/// Is the share worth reporting?
pub open spec fn reportable(pct: Double) -> bool {
    !below(pct, whole(MIN_REPORTABLE_PCT as int))
}

/// One cgroup's stall in one window. On a single tick the window is the peak.
pub open spec fn window_stall(path: Seq<char>, usec: u64, res: Resource, window: u64) -> StallView {
    StallView {
        unit: friendly(path),
        cgroup: path,
        resource: res,
        kind: res.primary(),
        delta_usec: usec,
        pressure_pct: share(usec, window),
        peak_pct: share(usec, window),
    }
}

/// The stalls worth reporting of one resource: those of the responsible
/// cgroups among the first `n`.
pub open spec fn resource_stalls(
    d: Seq<(Seq<char>, u64)>,
    res: Resource,
    window: u64,
    n: nat,
) -> Seq<StallView>
    decreases n,
{
    if n == 0 {
        seq![]
    } else {
        let i = n - 1;
        let rest = resource_stalls(d, res, window, i as nat);
        if reportable(share(d[i].1, window)) && responsible(pair_map(d), normal(d[i].0), d[i].1) {
            rest.push(window_stall(d[i].0, d[i].1, res, window))
        } else {
            rest
        }
    }
}

/// All stalls worth reporting of one resource.
pub open spec fn stalls_of(
    first: Seq<Sampled>,
    second: Seq<Sampled>,
    res: Resource,
    window: u64,
) -> Seq<StallView> {
    let d = window_deltas(first, second, res, second.len());
    resource_stalls(d, res, window, d.len())
}

/// All stalls worth reporting, resource by resource.
pub open spec fn all_stalls(first: Seq<Sampled>, second: Seq<Sampled>, window: u64) -> Seq<
    StallView,
> {
    stalls_of(first, second, Resource::Cpu, window) + stalls_of(
        first,
        second,
        Resource::Memory,
        window,
    ) + stalls_of(first, second, Resource::Io, window)
}

/// What entries show.
pub open spec fn delta_pairs(d: Seq<Delta>) -> Seq<(Seq<char>, u64)> {
    Seq::new(d.len(), |i: int| (d[i].cgroup@, d[i].gained))
}

pub proof fn lemma_pair_map(d: Seq<Delta>)
    ensures
        pair_map(delta_pairs(d)) == delta_map(d),
    decreases d.len(),
{
    if d.len() > 0 {
        lemma_pair_map(d.drop_last());
        assert(delta_pairs(d).drop_last() =~= delta_pairs(d.drop_last()));
    }
}

pub proof fn lemma_pair_map_has(d: Seq<(Seq<char>, u64)>, i: int)
    requires
        0 <= i < d.len(),
    ensures
        pair_map(d).contains_key(normal(d[i].0)),
    decreases d.len(),
{
    if i < d.len() - 1 {
        lemma_pair_map_has(d.drop_last(), i);
        assert(d.drop_last()[i] == d[i]);
    }
}

pub fn sampled_paths(s: &Vec<Sampled>) -> (r: Vec<Vec<char>>)
    ensures
        runs(r@) == sample_paths(s@),
{
    let mut out: Vec<Vec<char>> = Vec::new();
    let mut i: usize = 0;
    while i < s.len()
        invariant
            i <= s@.len(),
            runs(out@) == sample_paths(s@).take(i as int),
        decreases s@.len() - i,
    {
        push_chars_run(&mut out, normalized(&to_chars(s[i].cgroup.as_str())));
        proof {
            let all = sample_paths(s@);
            assert(all.take(i + 1) =~= all.take(i as int).push(all[i as int]));
        }
        i += 1;
    }
    assert(runs(out@) =~= sample_paths(s@));
    out
}

/// Two samples, indexed by path.
struct Compared<'a> {
    first: &'a Vec<Sampled>,
    second: &'a Vec<Sampled>,
    paths: Vec<Vec<char>>,
    before: PathIndex,
    after: PathIndex,
}

impl<'a> Compared<'a> {
    spec fn sound(&self) -> bool {
        &&& self.before.sound()
        &&& self.after.sound()
        &&& self.before.paths() == sample_paths(self.first@)
        &&& self.after.paths() == sample_paths(self.second@)
        &&& runs(self.paths@) == sample_paths(self.second@)
    }

    fn deltas(&self, res: Resource) -> (r: Vec<Delta>)
        requires
            self.sound(),
        ensures
            delta_pairs(r@) == window_deltas(self.first@, self.second@, res, self.second@.len()),
    {
        let kind: PsiKind = res.primary_kind();
        let mut out: Vec<Delta> = Vec::new();
        let mut i: usize = 0;
        assert(delta_pairs(out@) =~= seq![]);
        assert(runs(self.paths@).len() == self.paths@.len());
        while i < self.second.len()
            invariant
                i <= self.second@.len(),
                self.sound(),
                self.paths@.len() == self.second@.len(),
                kind == res.primary(),
                delta_pairs(out@) == window_deltas(self.first@, self.second@, res, i as nat),
            decreases self.second@.len() - i,
        {
            let p: &Vec<char> = &self.paths[i];
            let ghost out0 = out@;
            proof {
                assert(runs(self.paths@)[i as int] == p@);
                assert(p@ == sample_paths(self.second@)[i as int]);
                lemma_last_places(sample_paths(self.second@), p@);
                assert(sample_paths(self.second@).contains(p@));
            }
            if let Some(k) = self.after.find(p) {
                if self.after.place(k) == i {
                    if let Some(b) = self.before.find(p) {
                        proof {
                            assert(last_places(self.before.paths()).contains_key(
                                self.before.keys()[b as int]@,
                            ));
                        }
                        let from: &Snapshot = &self.first[self.before.place(b)].snapshot;
                        let to: &Snapshot = &self.second[i].snapshot;
                        let usec: u64 = to.get(res).total_for(kind).saturating_sub(
                            from.get(res).total_for(kind),
                        );
                        out.push(Delta { cgroup: self.second[i].cgroup.clone(), gained: usec });
                        assert(delta_pairs(out@) =~= delta_pairs(out0).push(
                            (self.second@[i as int].cgroup@, usec),
                        ));
                    }
                }
            }
            i += 1;
        }
        out
    }

    fn push_stalls(&self, res: Resource, window: u64, out: &mut Vec<Stall>)
        requires
            self.sound(),
        ensures
            views(final(out)@) == views(old(out)@) + stalls_of(
                self.first@,
                self.second@,
                res,
                window,
            ),
    {
        let deltas: Vec<Delta> = self.deltas(res);
        let ghost d = delta_pairs(deltas@);
        let ghost o = views(out@);
        let whole_window: Double = Double::from_u64(window);
        let hundred: Double = Double::from_u64(100);
        let least: Double = Double::from_u64(MIN_REPORTABLE_PCT);
        let r: Responsibility = Responsibility::new(&deltas);
        proof {
            lemma_pair_map(deltas@);
        }
        let mut i: usize = 0;
        assert(o + resource_stalls(d, res, window, 0) =~= o);
        while i < deltas.len()
            invariant
                i <= deltas@.len(),
                d == delta_pairs(deltas@),
                whole_window == whole(window as int),
                hundred == whole(100),
                least == whole(MIN_REPORTABLE_PCT as int),
                r.deltas() == pair_map(d),
                views(out@) == o + resource_stalls(d, res, window, i as nat),
            decreases deltas@.len() - i,
        {
            let usec: u64 = deltas[i].gained;
            let ghost out0 = out@;
            proof {
                lemma_pair_map_has(d, i as int);
            }
            if r.is_responsible(deltas[i].cgroup.as_str(), usec) {
                let pct: Double = Double::from_u64(usec).over(&whole_window).times(&hundred);
                if !pct.less(&least) {
                    let stall: Stall = Stall {
                        unit: friendly_name(deltas[i].cgroup.as_str()),
                        cgroup: deltas[i].cgroup.clone(),
                        resource: res,
                        kind: res.primary_kind(),
                        delta_usec: usec,
                        pressure_pct: pct,
                        peak_pct: pct,
                    };
                    let ghost shown = stall@;
                    out.push(stall);
                    assert(shown == window_stall(d[i as int].0, d[i as int].1, res, window));
                    assert(views(out@) =~= views(out0).push(shown));
                }
            }
            assert(views(out@) =~= o + resource_stalls(d, res, window, (i + 1) as nat));
            i += 1;
        }
    }
}

/// The responsible stalls between two samples, worst first.
pub fn diff(first: &Vec<Sampled>, second: &Vec<Sampled>, elapsed_us: u64) -> (r: Vec<Stall>)
    ensures
        views(r@) == worst_first(
            all_stalls(first@, second@, elapsed_us),
            false,
            MAX_STALLS as nat,
        ),
{
    let paths: Vec<Vec<char>> = sampled_paths(second);
    let before: PathIndex = PathIndex::new(&sampled_paths(first));
    let after: PathIndex = PathIndex::new(&paths);
    let c: Compared = Compared { first, second, paths, before, after };
    let mut stalls: Vec<Stall> = Vec::new();
    c.push_stalls(Resource::Cpu, elapsed_us, &mut stalls);
    c.push_stalls(Resource::Memory, elapsed_us, &mut stalls);
    c.push_stalls(Resource::Io, elapsed_us, &mut stalls);
    assert(views(stalls@) =~= all_stalls(first@, second@, elapsed_us));
    rank_stalls(&stalls, false, MAX_STALLS)
}

/// The stalls of a window and its measured length; nothing of a window that
/// took no time.
pub open spec fn collected(first: Seq<Sampled>, second: Seq<Sampled>, elapsed_us: u64) -> Seq<
    StallView,
> {
    if elapsed_us == 0 {
        seq![]
    } else {
        worst_first(all_stalls(first, second, elapsed_us), false, MAX_STALLS as nat)
    }
}

/// The responsible stalls between the two sweeps of a window, worst first, and
/// who was working meanwhile, biggest first.
///
/// The window's measured length comes along, because sampling thousands of
/// cgroups takes real time and percentages computed against the *requested*
/// length would be quietly wrong.
pub fn collect(first: &Sweep, second: &Sweep, elapsed_us: u64) -> (r: (Vec<Stall>, Vec<Cause>, u64))
    ensures
        views(r.0@) == collected(first.pressure@, second.pressure@, elapsed_us),
        cause_views(r.1@) == working(*first, *second, elapsed_us),
        r.2 == elapsed_us,
{
    if elapsed_us == 0 {
        let none: Vec<Stall> = Vec::new();
        let idle: Vec<Cause> = Vec::new();
        assert(views(none@) =~= seq![]);
        assert(cause_views(idle@) =~= seq![]);
        return (none, idle, 0);
    }
    (
        diff(&first.pressure, &second.pressure, elapsed_us),
        find_causes(first, second, elapsed_us),
        elapsed_us,
    )
}

// ── the continuous sampler ─────────────────────────────────────────────

/// A shortest sweep to pace by, in seconds: one ten-thousandth.
pub open spec fn least_sweep() -> Double {
    quotient(whole(1), whole(10_000))
}

/// The smallest share of a core to pace to: one thousandth.
pub open spec fn least_duty() -> Double {
    quotient(whole(1), whole(1000))
}

/// A number held between two others.
pub open spec fn clamped(x: Double, low: Double, high: Double) -> Double {
    if below(x, low) {
        low
    } else if below(high, x) {
        high
    } else {
        x
    }
}

/// The pause, in seconds, that keeps a sweep under `duty` of one core.
pub open spec fn pause(sweep: Double, duty: Double, floor: Double, ceil: Double) -> Double {
    clamped(
        quotient(larger(sweep, least_sweep()), clamped(duty, least_duty(), whole(1))),
        floor,
        ceil,
    )
}

fn clamp(x: &Double, low: &Double, high: &Double) -> (r: Double)
    ensures
        r == clamped(*x, *low, *high),
{
    if x.less(low) {
        *low
    } else if high.less(x) {
        *high
    } else {
        *x
    }
}

/// Continuous sampler that retains the previous sample.
///
/// A one-shot observation takes two sweeps of the cgroup tree. A resident
/// daemon needs one per tick, because the closing sweep of one tick is the
/// opening sweep of the next.
pub struct Sampler {
    prev: Vec<Sampled>,
    /// When the current window opened, in microseconds of a steady clock.
    prev_at: u64,
    last_sweep: Span,
}

impl Sampler {
    /// The sample that the next tick is compared with.
    pub closed spec fn previous(&self) -> Seq<Sampled> {
        self.prev@
    }

    /// When the current window opened.
    pub closed spec fn opened_at(&self) -> u64 {
        self.prev_at
    }

    /// What the most recent sweep cost.
    pub closed spec fn sweep(&self) -> Span {
        self.last_sweep
    }

    /// A sampler with its opening sample, so that the first tick has a base.
    pub fn new(opening: Vec<Sampled>, at_usec: u64, sweep: Span) -> (r: Sampler)
        ensures
            r.previous() == opening@,
            r.opened_at() == at_usec,
            r.sweep() == sweep,
    {
        Sampler { prev: opening, prev_at: at_usec, last_sweep: sweep }
    }

    /// Cost of the most recent sweep. Exposed so callers can pace themselves.
    pub fn last_sweep(&self) -> (r: Span)
        ensures
            r == self.sweep(),
    {
        self.last_sweep
    }

    /// Sleep interval that keeps sampling under `duty` of one core.
    ///
    /// A fixed tick is wrong across three orders of magnitude of cgroup count.
    /// Rather than make operators discover that, the daemon paces itself to a
    /// duty-cycle budget and reports the interval it chose.
    pub fn recommended_interval(&self, duty: Double, floor: Span, ceil: Span) -> (r: Span)
        requires
            !duty.is_nan(),
            at_most(floor.seconds(), ceil.seconds()),
            rounded_nanos(
                pause(self.sweep().seconds(), duty, floor.seconds(), ceil.seconds()),
            ) < 0x1_0000_0000_0000_0000 * 1_000_000_000,
        ensures
            r.sound(),
            r.total_nanos() == rounded_nanos(
                pause(self.sweep().seconds(), duty, floor.seconds(), ceil.seconds()),
            ),
    {
        let shortest: Double = Double::from_u64(1).over(&Double::from_u64(10_000));
        let sweep: Double = self.last_sweep.to_seconds().max(&shortest);
        let least: Double = Double::from_u64(1).over(&Double::from_u64(1000));
        let share: Double = clamp(&duty, &least, &Double::from_u64(1));
        let wait: Double = clamp(&sweep.over(&share), &floor.to_seconds(), &ceil.to_seconds());
        proof {
            lemma_pause_respects_bounds(
                self.last_sweep.seconds(),
                duty,
                floor.seconds(),
                ceil.seconds(),
            );
        }
        Span::from_seconds(wait)
    }

    /// One sweep, diffed against the previous one.
    ///
    /// The window is the real elapsed time since it opened, not a configured
    /// tick: a daemon that is descheduled or paced adaptively would otherwise
    /// compute percentages against a duration that never happened. `at_usec` is
    /// when the sweep had been taken, `next_usec` is from when the next window
    /// counts.
    pub fn tick(&mut self, now: Vec<Sampled>, sweep: Span, at_usec: u64, next_usec: u64) -> (r: (
        Vec<Stall>,
        u64,
    ))
        ensures
            r.1 == counted_since(old(self).opened_at(), at_usec),
            views(r.0@) == collected(old(self).previous(), now@, r.1),
            final(self).previous() == now@,
            final(self).opened_at() == next_usec,
            final(self).sweep() == sweep,
    {
        let elapsed_us: u64 = at_usec.saturating_sub(self.prev_at);
        let stalls: Vec<Stall> = if elapsed_us == 0 {
            Vec::new()
        } else {
            diff(&self.prev, &now, elapsed_us)
        };
        assert(views(stalls@) =~= collected(self.prev@, now@, elapsed_us));
        self.prev = now;
        self.prev_at = next_usec;
        self.last_sweep = sweep;
        (stalls, elapsed_us)
    }
}

// ── what holds of every attribution ────────────────────────────────────

/// A cgroup that appeared mid-window is never reported: every figure belongs
/// to a path of the second sample that the first sample has too.
pub proof fn lemma_newcomers_are_skipped(
    first: Seq<Sampled>,
    second: Seq<Sampled>,
    res: Resource,
    n: nat,
    i: int,
)
    requires
        n <= second.len(),
        0 <= i < window_deltas(first, second, res, n).len(),
    ensures
        sample_paths(first).contains(normal(window_deltas(first, second, res, n)[i].0)),
        sample_paths(second).contains(normal(window_deltas(first, second, res, n)[i].0)),
    decreases n,
{
    let k = n - 1;
    let rest = window_deltas(first, second, res, k as nat);
    if i < rest.len() {
        lemma_newcomers_are_skipped(first, second, res, k as nat, i);
    } else {
        let p = normal(second[k].cgroup@);
        lemma_last_places(sample_paths(first), p);
        assert(sample_paths(second)[k] == p);
    }
}

/// What is reported of a window: each stall belongs to a responsible cgroup and
/// is worth reporting.
pub proof fn lemma_reported_are_responsible(
    d: Seq<(Seq<char>, u64)>,
    res: Resource,
    window: u64,
    n: nat,
    i: int,
)
    requires
        n <= d.len(),
        0 <= i < resource_stalls(d, res, window, n).len(),
    ensures
        ({
            let s = resource_stalls(d, res, window, n)[i];
            &&& responsible(pair_map(d), normal(s.cgroup), s.delta_usec)
            &&& s.delta_usec > 0
            &&& reportable(s.pressure_pct)
            &&& s.resource == res
            &&& s.kind == res.primary()
            &&& s.peak_pct == s.pressure_pct
        }),
    decreases n,
{
    let k = (n - 1) as nat;
    let rest = resource_stalls(d, res, window, k);
    if i < rest.len() {
        lemma_reported_are_responsible(d, res, window, k, i);
    }
}

/// Consecutive windows neither lose a stall nor count one twice: what two of
/// them find is what one window over both would have found, as long as the
/// counter was not restarted.
pub proof fn lemma_consecutive_windows_add_up(a: Snapshot, b: Snapshot, c: Snapshot, res: Resource)
    requires
        a.of(res).total(res.primary()) <= b.of(res).total(res.primary()),
        b.of(res).total(res.primary()) <= c.of(res).total(res.primary()),
    ensures
        stalled_between(a, b, res) + stalled_between(b, c, res) == stalled_between(a, c, res),
{
}

/// A cgroup that did not stall is never responsible.
pub proof fn lemma_zero_delta_is_never_responsible(m: Map<Seq<char>, u64>, p: Seq<char>)
    ensures
        !responsible(m, p, 0),
{
}

/// A parent yields to a child that owns eighty percent of its stall, and keeps
/// the blame where no single descendant does.
pub proof fn lemma_parent_yields_to_dominant_child(
    m: Map<Seq<char>, u64>,
    parent: Seq<char>,
    child: Seq<char>,
    delta: u64,
)
    requires
        m.contains_key(child),
        strictly_below(child, parent),
        m[child] * 100 >= delta * 80,
    ensures
        !responsible(m, parent, delta),
{
    assert(m.contains_key(child) && strictly_below(child, parent) && dominates(m[child], delta));
}

proof fn lemma_clamped(x: Double, y: Double, low: Double, high: Double)
    requires
        at_most(low, high),
        at_most(x, y),
    ensures
        at_most(low, clamped(x, low, high)),
        at_most(clamped(x, low, high), high),
        at_most(clamped(x, low, high), clamped(y, low, high)),
{
}

/// The pause to take lies between its bounds.
pub proof fn lemma_pause_respects_bounds(sweep: Double, duty: Double, floor: Double, ceil: Double)
    requires
        !duty.is_nan(),
        at_most(floor, ceil),
    ensures
        at_most(floor, pause(sweep, duty, floor, ceil)),
        at_most(pause(sweep, duty, floor, ceil), ceil),
{
    lemma_tighter_budget_never_samples_more_often(sweep, duty, duty, floor, ceil);
}

/// One thousandth is at most one.
proof fn lemma_least_duty_below_one()
    ensures
        at_most(least_duty(), whole(1)),
        least_duty().is_finite(),
        whole(1).is_finite(),
{
    let least = least_duty();
    let a = whole(1);
    let b = whole(1000);
    let o = one();
    lemma_whole_one();
    lemma_whole_positive(1000);
    lemma_whole_quotient_positive(1, 1000);
    lemma_pow2_pos(1074);
    let ub = units(b.magnitude());
    assert(o * o * 1 <= o * ub) by (nonlinear_arith)
        requires
            o <= ub,
            o >= 0,
    ;
    lemma_nearest_grows(o * o, ub, o, 1);
    lemma_nearest_exact(a.magnitude(), 1);
    assert(o * 1 == o);
    assert(least.magnitude() <= a.magnitude());
    lemma_magnitude_order(least, a);
}

/// The share of a core to pace to, held between its bounds, is a positive,
/// finite number.
proof fn lemma_share(duty: Double)
    requires
        !duty.is_nan(),
    ensures
        ({
            let d = clamped(duty, least_duty(), whole(1));
            &&& d.is_finite()
            &&& !d.negative()
            &&& 0 < d.magnitude()
        }),
{
    let least = least_duty();
    lemma_whole_quotient_positive(1, 1000);
    lemma_whole_one();
    lemma_whole_positive(1000);
    lemma_units_grow(0, least.magnitude());
    lemma_pow2_pos(1074);
    let d = clamped(duty, least, whole(1));
    let a = whole(1);
    lemma_least_duty_below_one();
    if !below(duty, least) && !below(a, duty) {
        assert(d == duty);
        assert(duty.value() >= least.value() > 0);
        if a.magnitude() < duty.magnitude() {
            lemma_units_grow(a.magnitude(), duty.magnitude());
        }
    }
}

/// A tighter budget never samples more often.
pub proof fn lemma_tighter_budget_never_samples_more_often(
    sweep: Double,
    tight: Double,
    loose: Double,
    floor: Double,
    ceil: Double,
)
    requires
        at_most(tight, loose),
        at_most(floor, ceil),
    ensures
        at_most(pause(sweep, loose, floor, ceil), pause(sweep, tight, floor, ceil)),
        at_most(floor, pause(sweep, loose, floor, ceil)),
        at_most(pause(sweep, tight, floor, ceil), ceil),
{
    let s = larger(sweep, least_sweep());
    lemma_whole_quotient_positive(1, 10_000);
    lemma_units_grow(0, least_sweep().magnitude());
    assert(!s.negative() && !s.is_nan());
    lemma_share(tight);
    lemma_share(loose);
    lemma_share_grows(tight, loose);
    let t = clamped(tight, least_duty(), whole(1));
    let l = clamped(loose, least_duty(), whole(1));
    lemma_quotient_falls(s, t, l);
    lemma_clamped(quotient(s, l), quotient(s, t), floor, ceil);
}

proof fn lemma_share_grows(tight: Double, loose: Double)
    requires
        at_most(tight, loose),
    ensures
        at_most(
            clamped(tight, least_duty(), whole(1)),
            clamped(loose, least_duty(), whole(1)),
        ),
{
    lemma_share(whole(1));
    lemma_whole_one();
    lemma_whole_quotient_positive(1, 1000);
    lemma_least_duty_below_one();
    lemma_clamped(tight, loose, least_duty(), whole(1));
}

} // verus!
