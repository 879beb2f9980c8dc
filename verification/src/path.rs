//! Paths as text, compared by their components.
//!
//! `/sys/fs//cgroup/` and `/sys/fs/cgroup` name the same place, and `/p2` is
//! not below `/p` although its text begins with it. Both follow from a normal
//! form in which every component ends in a slash: two paths are the same where
//! their normal forms are, and one lies below another where its normal form
//! continues the other's.

use vstd::prelude::*;
use vstd::slice::slice_subrange;

use crate::sort::{Ranked, lemma_can_arrange, lemma_order_unique, ordered, placed, stable_order};
use crate::text::{
    copy_chars, push_run, runs, same_chars, split, split_char, starts_with, texts, to_chars,
};

verus! {

/// Does this piece between two slashes count as a component? Empty pieces do
/// not, and `.` does only at the start of a relative path.
pub open spec fn is_component(piece: Seq<char>, first: bool) -> bool {
    piece.len() > 0 && (first || piece != seq!['.'])
}

/// The components among the pieces between slashes.
pub open spec fn components(pieces: Seq<Seq<char>>, first: bool) -> Seq<Seq<char>>
    decreases pieces.len(),
{
    if pieces.len() == 0 {
        seq![]
    } else if is_component(pieces[0], first) {
        seq![pieces[0]] + components(pieces.drop_first(), false)
    } else {
        components(pieces.drop_first(), false)
    }
}

/// The components of a path, the root left aside.
pub open spec fn names(path: Seq<char>) -> Seq<Seq<char>> {
    components(split(path, '/'), true)
}

/// Each component with a slash behind it.
pub open spec fn slashed(names: Seq<Seq<char>>) -> Seq<char>
    decreases names.len(),
{
    if names.len() == 0 {
        seq![]
    } else {
        slashed(names.drop_last()) + names.last() + seq!['/']
    }
}

/// Does the path start at the root?
pub open spec fn rooted(path: Seq<char>) -> bool {
    path.len() > 0 && path[0] == '/'
}

/// The form in which paths are compared.
pub open spec fn normal(path: Seq<char>) -> Seq<char> {
    (if rooted(path) {
        seq!['/']
    } else {
        seq![]
    }) + slashed(names(path))
}

/// Does the first path lie below the second, given their normal forms?
pub open spec fn strictly_below(p: Seq<char>, q: Seq<char>) -> bool {
    starts_with(p, q) && p != q
}

/// The last component of a path, if it names something.
pub open spec fn file_name(path: Seq<char>) -> Option<Seq<char>> {
    let n = names(path);
    if n.len() == 0 || n.last() == seq!['.', '.'] || n.last() == seq!['.'] {
        None
    } else {
        Some(n.last())
    }
}

fn is_dot(s: &[char]) -> (r: bool)
    ensures
        r == (s@ == seq!['.']),
{
    assert((s@ == seq!['.']) == (s@ =~= seq!['.']));
    s.len() == 1 && s[0] == '.'
}

fn is_dots(s: &[char]) -> (r: bool)
    ensures
        r == (s@ == seq!['.', '.']),
{
    assert((s@ == seq!['.', '.']) == (s@ =~= seq!['.', '.']));
    s.len() == 2 && s[0] == '.' && s[1] == '.'
}

/// The components of a path.
pub fn path_names(path: &[char]) -> (r: Vec<Vec<char>>)
    ensures
        runs(r@) == names(path@),
{
    let pieces: Vec<Vec<char>> = split_char(path, '/');
    let ghost all = runs(pieces@);
    let mut out: Vec<Vec<char>> = Vec::new();
    let mut i: usize = 0;
    assert(all.skip(0) =~= all);
    assert(runs(out@) + components(all, true) =~= names(path@));
    while i < pieces.len()
        invariant
            i <= pieces@.len(),
            all == runs(pieces@),
            runs(out@) + components(all.skip(i as int), i == 0) == names(path@),
        decreases pieces@.len() - i,
    {
        let ghost rest = all.skip(i as int);
        assert(rest[0] == pieces@[i as int]@);
        assert(rest.drop_first() =~= all.skip(i + 1));
        if pieces[i].len() > 0 && (i == 0 || !is_dot(&pieces[i])) {
            let piece: Vec<char> = copy_chars(&pieces[i]);
            let ghost out0 = out@;
            out.push(piece);
            proof {
                assert(runs(out@) =~= runs(out0) + seq![rest[0]]);
                assert(runs(out@) + components(all.skip(i + 1), false) =~= runs(out0)
                    + components(rest, i == 0));
            }
        }
        i += 1;
    }
    assert(runs(out@) =~= names(path@));
    out
}

/// The normal form of a path.
pub fn normalized(path: &[char]) -> (r: Vec<char>)
    ensures
        r@ == normal(path@),
{
    let parts: Vec<Vec<char>> = path_names(path);
    let ghost all = runs(parts@);
    let mut out: Vec<char> = Vec::new();
    if path.len() > 0 && path[0] == '/' {
        out.push('/');
    }
    let ghost head = out@;
    let mut i: usize = 0;
    assert(slashed(all.take(0)) =~= seq![]);
    assert(out@ =~= head + slashed(all.take(0)));
    while i < parts.len()
        invariant
            i <= parts@.len(),
            all == runs(parts@),
            out@ == head + slashed(all.take(i as int)),
        decreases parts@.len() - i,
    {
        push_run(&mut out, &parts[i]);
        out.push('/');
        proof {
            let t = all.take(i + 1);
            assert(t.drop_last() =~= all.take(i as int));
            assert(t.last() == parts@[i as int]@);
            assert(out@ =~= head + slashed(t));
        }
        i += 1;
    }
    assert(all.take(i as int) =~= all);
    assert(head =~= if rooted(path@) {
        seq!['/']
    } else {
        seq![]
    });
    out
}

/// See [`file_name`].
pub fn last_name(path: &[char]) -> (r: Option<Vec<char>>)
    ensures
        r is Some == file_name(path@) is Some,
        r matches Some(n) ==> n@ == file_name(path@)->0,
{
    let parts: Vec<Vec<char>> = path_names(path);
    assert(runs(parts@).len() == parts@.len());
    if parts.len() == 0 {
        return None;
    }
    let last: &Vec<char> = &parts[parts.len() - 1];
    assert(runs(parts@).last() == last@);
    if is_dot(last) || is_dots(last) {
        return None;
    }
    Some(copy_chars(last))
}

/// Are these the same path?
pub fn same_path(a: &[char], b: &[char]) -> (r: bool)
    ensures
        r == (normal(a@) == normal(b@)),
{
    same_chars(&normalized(a), &normalized(b))
}

/// Does `s` begin with `p`?
pub fn begins_with(s: &[char], p: &[char]) -> (r: bool)
    ensures
        r == starts_with(s@, p@),
{
    if s.len() < p.len() {
        return false;
    }
    same_chars(slice_subrange(s, 0, p.len()), p)
}

// ── the order of normal forms ──────────────────────────────────────────

/// Does the first run come before the second in the dictionary?
pub open spec fn sorts_before(a: Seq<char>, b: Seq<char>) -> bool
    decreases a.len(),
{
    if b.len() == 0 {
        false
    } else if a.len() == 0 {
        true
    } else if a[0] == b[0] {
        sorts_before(a.drop_first(), b.drop_first())
    } else {
        (a[0] as int) < (b[0] as int)
    }
}

pub proof fn lemma_sorts_one_way(a: Seq<char>, b: Seq<char>)
    ensures
        !(sorts_before(a, b) && sorts_before(b, a)),
        !sorts_before(a, b) && !sorts_before(b, a) ==> a == b,
    decreases a.len(),
{
    if a.len() > 0 && b.len() > 0 {
        if a[0] == b[0] {
            lemma_sorts_one_way(a.drop_first(), b.drop_first());
            if a.drop_first() == b.drop_first() {
                assert(a =~= seq![a[0]] + a.drop_first());
                assert(b =~= seq![b[0]] + b.drop_first());
            }
        }
    } else {
        if a.len() == 0 && b.len() == 0 {
            assert(a =~= b);
        }
    }
}

pub proof fn lemma_sorts_carries(a: Seq<char>, b: Seq<char>, c: Seq<char>)
    requires
        !sorts_before(b, a),
        !sorts_before(c, b),
    ensures
        !sorts_before(c, a),
    decreases a.len(),
{
    if a.len() > 0 && b.len() > 0 && c.len() > 0 {
        if a[0] == b[0] && b[0] == c[0] {
            lemma_sorts_carries(a.drop_first(), b.drop_first(), c.drop_first());
        }
    }
}

/// What continues a run comes after it.
pub proof fn lemma_prefix_sorts_before(p: Seq<char>, s: Seq<char>)
    requires
        strictly_below(s, p),
    ensures
        sorts_before(p, s),
    decreases p.len(),
{
    assert(p.len() < s.len()) by {
        if p.len() == s.len() {
            assert(s.take(p.len() as int) =~= s);
        }
    }
    if p.len() > 0 {
        let t = s.take(p.len() as int);
        assert(p[0] == t[0] && t[0] == s[0]);
        let s1 = s.drop_first();
        let p1 = p.drop_first();
        assert(s1.take(p1.len() as int) =~= t.drop_first());
        lemma_prefix_sorts_before(p1, s1);
    }
}

/// What stands between a run and a continuation of it continues it too.
pub proof fn lemma_between_continues(p: Seq<char>, b: Seq<char>, s: Seq<char>)
    requires
        starts_with(s, p),
        !sorts_before(b, p),
        !sorts_before(s, b),
    ensures
        starts_with(b, p),
    decreases p.len(),
{
    if p.len() > 0 {
        let t = s.take(p.len() as int);
        assert(p[0] == t[0] && t[0] == s[0]);
        assert(b.len() > 0);
        assert(b[0] == p[0]);
        let p1 = p.drop_first();
        let b1 = b.drop_first();
        let s1 = s.drop_first();
        assert(s1.take(p1.len() as int) =~= t.drop_first());
        lemma_between_continues(p1, b1, s1);
        assert(b.take(p.len() as int) =~= seq![b[0]] + b1.take(p1.len() as int));
        assert(p =~= seq![p[0]] + p1);
    } else {
        assert(b.take(0) =~= p);
    }
}

/// Of two runs that the same run continues, one continues the other.
pub proof fn lemma_prefixes_nest(s: Seq<char>, p: Seq<char>, q: Seq<char>)
    requires
        starts_with(s, p),
        starts_with(s, q),
        p.len() <= q.len(),
    ensures
        starts_with(q, p),
{
    assert(q.take(p.len() as int) =~= s.take(p.len() as int));
}

pub proof fn lemma_prefix_carries(s: Seq<char>, q: Seq<char>, p: Seq<char>)
    requires
        starts_with(s, q),
        starts_with(q, p),
    ensures
        starts_with(s, p),
{
    assert(s.take(p.len() as int) =~= q.take(p.len() as int));
}

/// Does the first run come before the second in the dictionary?
pub fn comes_before(a: &[char], b: &[char]) -> (r: bool)
    ensures
        r == sorts_before(a@, b@),
{
    let mut i: usize = 0;
    assert(a@.skip(0) =~= a@);
    assert(b@.skip(0) =~= b@);
    while i < a.len() && i < b.len() && a[i] == b[i]
        invariant
            i <= a@.len(),
            i <= b@.len(),
            sorts_before(a@.skip(i as int), b@.skip(i as int)) == sorts_before(a@, b@),
        decreases a@.len() - i,
    {
        assert(a@.skip(i as int).drop_first() =~= a@.skip(i + 1));
        assert(b@.skip(i as int).drop_first() =~= b@.skip(i + 1));
        i += 1;
    }
    if i >= b.len() {
        false
    } else if i >= a.len() {
        true
    } else {
        let x: char = a[i];
        let y: char = b[i];
        x < y
    }
}

impl Ranked for Vec<char> {
    open spec fn ahead(&self, other: &Vec<char>) -> bool {
        sorts_before(self@, other@)
    }

    proof fn ahead_one_way(a: &Vec<char>, b: &Vec<char>) {
        lemma_sorts_one_way(a@, b@);
    }

    proof fn ahead_carries(a: &Vec<char>, b: &Vec<char>, c: &Vec<char>) {
        lemma_sorts_carries(a@, b@, c@);
    }

    fn goes_ahead(&self, other: &Vec<char>) -> (r: bool) {
        comes_before(self, other)
    }
}

// ── the order of paths ─────────────────────────────────────────────────

/// Does the first path come before the second, component by component?
pub open spec fn route_before(a: Seq<Seq<char>>, b: Seq<Seq<char>>) -> bool
    decreases a.len(),
{
    if b.len() == 0 {
        false
    } else if a.len() == 0 {
        true
    } else if a[0] == b[0] {
        route_before(a.drop_first(), b.drop_first())
    } else {
        sorts_before(a[0], b[0])
    }
}

pub proof fn lemma_route_one_way(a: Seq<Seq<char>>, b: Seq<Seq<char>>)
    ensures
        !(route_before(a, b) && route_before(b, a)),
    decreases a.len(),
{
    if a.len() > 0 && b.len() > 0 {
        if a[0] == b[0] {
            lemma_route_one_way(a.drop_first(), b.drop_first());
        } else {
            lemma_sorts_one_way(a[0], b[0]);
        }
    }
}

proof fn lemma_route_carries(a: Seq<Seq<char>>, b: Seq<Seq<char>>, c: Seq<Seq<char>>)
    requires
        !route_before(b, a),
        !route_before(c, b),
    ensures
        !route_before(c, a),
    decreases a.len(),
{
    if a.len() > 0 && b.len() > 0 && c.len() > 0 {
        lemma_sorts_one_way(a[0], b[0]);
        lemma_sorts_one_way(b[0], c[0]);
        lemma_sorts_one_way(a[0], c[0]);
        if a[0] == b[0] && b[0] == c[0] {
            lemma_route_carries(a.drop_first(), b.drop_first(), c.drop_first());
        } else {
            lemma_sorts_carries(a[0], b[0], c[0]);
            if a[0] == c[0] {
                lemma_sorts_carries(b[0], c[0], a[0]);
            }
        }
    }
}

/// A path by its components.
pub struct Route {
    pub names: Vec<Vec<char>>,
}

impl View for Route {
    type V = Seq<Seq<char>>;

    open spec fn view(&self) -> Seq<Seq<char>> {
        runs(self.names@)
    }
}

impl Route {
    pub fn new(path: &str) -> (r: Route)
        ensures
            r@ == names(path@),
    {
        Route { names: path_names(&to_chars(path)) }
    }
}

impl Ranked for Route {
    open spec fn ahead(&self, other: &Route) -> bool {
        route_before(self@, other@)
    }

    proof fn ahead_one_way(a: &Route, b: &Route) {
        lemma_route_one_way(a@, b@);
    }

    proof fn ahead_carries(a: &Route, b: &Route, c: &Route) {
        lemma_route_carries(a@, b@, c@);
    }

    fn goes_ahead(&self, other: &Route) -> (r: bool) {
        let ghost a = self@;
        let ghost b = other@;
        let mut i: usize = 0;
        assert(a.skip(0) =~= a);
        assert(b.skip(0) =~= b);
        while i < self.names.len() && i < other.names.len() && same_chars(
            &self.names[i],
            &other.names[i],
        )
            invariant
                a == self@,
                b == other@,
                i <= self.names@.len(),
                i <= other.names@.len(),
                route_before(a.skip(i as int), b.skip(i as int)) == route_before(a, b),
            decreases self.names@.len() - i,
        {
            assert(a.skip(i as int).drop_first() =~= a.skip(i + 1));
            assert(b.skip(i as int).drop_first() =~= b.skip(i + 1));
            i += 1;
        }
        if i >= other.names.len() {
            false
        } else if i >= self.names.len() {
            true
        } else {
            comes_before(&self.names[i], &other.names[i])
        }
    }
}

/// Does the path at `i` come out before the path at `j`? Of two that name the
/// same place, the one that came first.
pub open spec fn path_placed(paths: Seq<Seq<char>>, i: int, j: int) -> bool {
    route_before(names(paths[i]), names(paths[j])) || (!route_before(
        names(paths[j]),
        names(paths[i]),
    ) && i < j)
}

/// The positions of all paths, each once, in the order of the paths.
pub open spec fn in_path_order(paths: Seq<Seq<char>>, order: Seq<usize>) -> bool {
    &&& order.len() == paths.len()
    &&& forall|a: int| 0 <= a < order.len() ==> 0 <= #[trigger] order[a] < paths.len()
    &&& forall|i: int| 0 <= i < paths.len() ==> #[trigger] order.contains(i as usize)
    &&& forall|a: int, b: int|
        0 <= a < b < order.len() ==> path_placed(paths, #[trigger] order[a] as int, #[trigger] order[b] as int)
}

/// The order in which paths come out.
pub open spec fn path_order(paths: Seq<Seq<char>>) -> Seq<usize> {
    choose|p: Seq<usize>| in_path_order(paths, p)
}

proof fn lemma_same_order(paths: Seq<Seq<char>>, keys: Seq<Route>, p: Seq<usize>)
    requires
        keys.len() == paths.len(),
        forall|i: int| 0 <= i < keys.len() ==> (#[trigger] keys[i])@ == names(paths[i]),
    ensures
        in_path_order(paths, p) == ordered(keys, p, 0, keys.len() as int),
{
    assert forall|i: int, j: int| 0 <= i < keys.len() && 0 <= j < keys.len() implies (
    #[trigger] placed(keys, i, j)) == path_placed(paths, i, j) by {
        assert(keys[i]@ == names(paths[i]));
        assert(keys[j]@ == names(paths[j]));
    }
    if in_path_order(paths, p) {
        assert forall|a: int, b: int| 0 <= a < b < p.len() implies placed(
            keys,
            #[trigger] p[a] as int,
            #[trigger] p[b] as int,
        ) by {
            assert(path_placed(paths, p[a] as int, p[b] as int));
        }
    }
    if ordered(keys, p, 0, keys.len() as int) {
        assert forall|a: int, b: int| 0 <= a < b < p.len() implies path_placed(
            paths,
            #[trigger] p[a] as int,
            #[trigger] p[b] as int,
        ) by {
            assert(placed(keys, p[a] as int, p[b] as int));
        }
    }
}

/// Paths can always be put in their order.
pub proof fn lemma_path_order(paths: Seq<Seq<char>>)
    requires
        paths.len() <= usize::MAX,
    ensures
        in_path_order(paths, path_order(paths)),
{
    let n = paths.len() as int;
    let before = |i: int, j: int| path_placed(paths, i, j);
    assert forall|i: int, j: int| 0 <= i < n && 0 <= j < n && i != j implies #[trigger] before(i, j)
        || before(j, i) by {
        lemma_route_one_way(names(paths[i]), names(paths[j]));
    }
    assert forall|i: int, j: int, k: int|
        0 <= i < n && 0 <= j < n && 0 <= k < n && #[trigger] before(i, j) && #[trigger] before(
            j,
            k,
        ) implies before(i, k) by {
        lemma_placed_paths_carry(paths, i, j, k);
    }
    let p = lemma_can_arrange(before, n);
    assert forall|a: int, b: int| 0 <= a < b < p.len() implies path_placed(
        paths,
        #[trigger] p[a] as int,
        #[trigger] p[b] as int,
    ) by {
        assert(before(p[a] as int, p[b] as int));
    }
    assert(in_path_order(paths, p));
}

proof fn lemma_placed_paths_carry(paths: Seq<Seq<char>>, i: int, j: int, k: int)
    requires
        path_placed(paths, i, j),
        path_placed(paths, j, k),
    ensures
        path_placed(paths, i, k),
{
    let a = names(paths[i]);
    let b = names(paths[j]);
    let c = names(paths[k]);
    lemma_route_one_way(a, b);
    lemma_route_one_way(b, c);
    lemma_route_one_way(a, c);
    lemma_route_carries(a, b, c);
    if !route_before(a, c) {
        if route_before(a, b) {
            lemma_route_carries(b, c, a);
        }
        if route_before(b, c) {
            lemma_route_carries(c, a, b);
        }
    }
}

/// The positions of all paths, in the order of the paths.
pub fn order_paths(paths: &Vec<String>) -> (r: Vec<usize>)
    ensures
        r@ == path_order(texts(paths@)),
        in_path_order(texts(paths@), r@),
{
    let mut keys: Vec<Route> = Vec::new();
    let mut i: usize = 0;
    while i < paths.len()
        invariant
            i <= paths@.len(),
            keys@.len() == i,
            forall|k: int| 0 <= k < i ==> (#[trigger] keys@[k])@ == names(texts(paths@)[k]),
        decreases paths@.len() - i,
    {
        keys.push(Route::new(paths[i].as_str()));
        i += 1;
    }
    let r: Vec<usize> = stable_order(&keys);
    proof {
        let ps = texts(paths@);
        let chosen = path_order(ps);
        lemma_same_order(ps, keys@, r@);
        lemma_same_order(ps, keys@, chosen);
        lemma_order_unique(keys@, r@, chosen, 0);
        assert(r@ =~= chosen);
    }
    r
}

} // verus!
