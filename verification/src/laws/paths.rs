//! Which path lies below which, told by their components.

use vstd::prelude::*;

use crate::path::{components, names, normal, rooted, slashed, strictly_below};
use crate::text::{find, lemma_find, split, starts_with};

verus! {

proof fn lemma_split_in_two(a: Seq<char>, c: char, b: Seq<char>)
    ensures
        split(a + seq![c] + b, c) == split(a, c) + split(b, c),
        split(a, c).len() > 0,
    decreases a.len(),
{
    let s = a + seq![c] + b;
    lemma_find(a, c);
    lemma_find(s, c);
    let k = find(a, c) as int;
    let j = find(s, c) as int;
    let n = a.len() as int;
    assert(s[n] == c);
    assert(j <= n) by {
        if j > n {
            assert(s[n] != c);
        }
    }
    if k >= n {
        if j < n {
            assert(a[j] == s[j]);
            assert(a[j] != c);
        }
        assert(j == n);
        assert(s.take(n) =~= a);
        assert(s.skip(n + 1) =~= b);
        assert(split(a, c) =~= seq![a]);
    } else {
        assert(s[k] == a[k]);
        if j < k {
            assert(s[j] == a[j]);
        }
        if j > k {
            assert(s[k] != c);
        }
        assert(j == k);
        let t = a.skip(k + 1);
        lemma_split_in_two(t, c, b);
        assert(s.skip(k + 1) =~= t + seq![c] + b);
        assert(s.take(k) =~= a.take(k));
        assert(split(s, c) =~= split(a, c) + split(b, c));
    }
}

proof fn lemma_components_in_two(x: Seq<Seq<char>>, y: Seq<Seq<char>>, first: bool)
    ensures
        x.len() > 0 ==> components(x + y, first) == components(x, first) + components(y, false),
        !first ==> components(x + y, first) == components(x, first) + components(y, false),
    decreases x.len(),
{
    if x.len() == 0 {
        assert(x + y =~= y);
        assert(components(x, first) + components(y, false) =~= components(y, false));
    } else {
        let t = x.drop_first();
        lemma_components_in_two(t, y, false);
        assert((x + y).drop_first() =~= t + y);
        assert((x + y)[0] == x[0]);
        assert(components(x + y, first) =~= components(x, first) + components(y, false));
    }
}

/// The components behind a slash.
spec fn behind_slash(b: Seq<char>) -> Seq<Seq<char>> {
    components(split(b, '/'), false)
}

proof fn lemma_names_in_two(a: Seq<char>, b: Seq<char>)
    ensures
        names(a + seq!['/'] + b) == names(a) + behind_slash(b),
{
    lemma_split_in_two(a, '/', b);
    lemma_components_in_two(split(a, '/'), split(b, '/'), true);
}

proof fn lemma_behind_in_two(a: Seq<char>, b: Seq<char>)
    ensures
        behind_slash(a + seq!['/'] + b) == behind_slash(a) + behind_slash(b),
{
    lemma_split_in_two(a, '/', b);
    lemma_components_in_two(split(a, '/'), split(b, '/'), false);
}

proof fn lemma_nothing_behind()
    ensures
        behind_slash(seq![]) == Seq::<Seq<char>>::empty(),
        behind_slash(seq!['.']) == Seq::<Seq<char>>::empty(),
{
    let e = Seq::<char>::empty();
    assert(split(e, '/') =~= seq![e]);
    assert(seq![e].drop_first() =~= seq![]);
    let d = seq!['.'];
    lemma_find(d, '/');
    assert(find(d, '/') == 1) by {
        if find(d, '/') < 1 {
            assert(d[0] == '/');
        }
    }
    assert(split(d, '/') =~= seq![d]);
    assert(seq![d].drop_first() =~= seq![]);
    reveal_with_fuel(components, 2);
}

/// **Slashes in a row, a slash at the end and a dot between slashes do not
/// count.**
pub proof fn lemma_what_does_not_count_in_a_path(a: Seq<char>, b: Seq<char>)
    requires
        a.len() > 0,
    ensures
        normal(a + seq!['/']) == normal(a),
        normal(a + seq!['/', '/'] + b) == normal(a + seq!['/'] + b),
        normal(a + seq!['/', '.', '/'] + b) == normal(a + seq!['/'] + b),
{
    let e = Seq::<char>::empty();
    lemma_nothing_behind();
    lemma_names_in_two(a, e);
    assert(a + seq!['/'] + e =~= a + seq!['/']);
    assert(names(a) + Seq::<Seq<char>>::empty() =~= names(a));
    assert((a + seq!['/'])[0] == a[0]);
    // Two slashes.
    lemma_names_in_two(a, b);
    lemma_names_in_two(a, seq!['/'] + b);
    lemma_behind_in_two(e, b);
    assert(e + seq!['/'] + b =~= seq!['/'] + b);
    assert(Seq::<Seq<char>>::empty() + behind_slash(b) =~= behind_slash(b));
    assert(a + seq!['/', '/'] + b =~= a + seq!['/'] + (seq!['/'] + b));
    assert((a + seq!['/', '/'] + b)[0] == a[0]);
    assert((a + seq!['/'] + b)[0] == a[0]);
    // A dot.
    lemma_names_in_two(a, seq!['.', '/'] + b);
    lemma_behind_in_two(seq!['.'], b);
    assert(seq!['.'] + seq!['/'] + b =~= seq!['.', '/'] + b);
    assert(a + seq!['/', '.', '/'] + b =~= a + seq!['/'] + (seq!['.', '/'] + b));
    assert((a + seq!['/', '.', '/'] + b)[0] == a[0]);
}

// ── being below ────────────────────────────────────────────────────────

spec fn proper(n: Seq<char>) -> bool {
    n.len() > 0 && forall|i: int| 0 <= i < n.len() ==> #[trigger] n[i] != '/'
}

spec fn all_proper(n: Seq<Seq<char>>) -> bool {
    forall|i: int| 0 <= i < n.len() ==> proper(#[trigger] n[i])
}

proof fn lemma_pieces_hold_no_slash(s: Seq<char>)
    ensures
        forall|i: int, j: int|
            0 <= i < split(s, '/').len() && 0 <= j < split(s, '/')[i].len()
                ==> #[trigger] split(s, '/')[i][j] != '/',
    decreases s.len(),
{
    lemma_find(s, '/');
    let k = find(s, '/') as int;
    let all = split(s, '/');
    if k < s.len() {
        let t = s.skip(k + 1);
        lemma_pieces_hold_no_slash(t);
        assert forall|i: int, j: int| 0 <= i < all.len() && 0 <= j < all[i].len() implies
            #[trigger] all[i][j] != '/' by {
            if i > 0 {
                assert(all[i] == split(t, '/')[i - 1]);
                assert(split(t, '/')[i - 1][j] != '/');
            } else {
                assert(all[0] == s.take(k));
                assert(s[j] != '/');
            }
        }
    } else {
        assert forall|i: int, j: int| 0 <= i < all.len() && 0 <= j < all[i].len() implies
            #[trigger] all[i][j] != '/' by {
            assert(all[0] == s);
            assert(s[j] != '/');
        }
    }
}

proof fn lemma_components_are_proper(p: Seq<Seq<char>>, first: bool)
    requires
        forall|i: int, j: int|
            0 <= i < p.len() && 0 <= j < p[i].len() ==> #[trigger] p[i][j] != '/',
    ensures
        all_proper(components(p, first)),
    decreases p.len(),
{
    if p.len() > 0 {
        let t = p.drop_first();
        assert forall|i: int, j: int| 0 <= i < t.len() && 0 <= j < t[i].len() implies
            #[trigger] t[i][j] != '/' by {
            assert(p[i + 1][j] != '/');
        }
        lemma_components_are_proper(t, false);
        let c = components(p, first);
        let rest = components(t, false);
        assert forall|i: int| 0 <= i < c.len() implies proper(#[trigger] c[i]) by {
            if c.len() == rest.len() + 1 {
                if i == 0 {
                    assert forall|j: int| 0 <= j < p[0].len() implies #[trigger] p[0][j] != '/' by {}
                } else {
                    assert(c[i] == rest[i - 1]);
                }
            }
        }
    }
}

proof fn lemma_names_are_proper(path: Seq<char>)
    ensures
        all_proper(names(path)),
{
    lemma_pieces_hold_no_slash(path);
    lemma_components_are_proper(split(path, '/'), true);
}

proof fn lemma_slashed_front(n: Seq<char>, rest: Seq<Seq<char>>)
    ensures
        slashed(seq![n] + rest) == n + seq!['/'] + slashed(rest),
    decreases rest.len(),
{
    let all = seq![n] + rest;
    if rest.len() == 0 {
        assert(all.drop_last() =~= seq![]);
        assert(all.last() == n);
        reveal_with_fuel(slashed, 2);
        assert(slashed(all) =~= n + seq!['/'] + slashed(rest));
    } else {
        let t = rest.drop_last();
        lemma_slashed_front(n, t);
        assert(all.drop_last() =~= seq![n] + t);
        assert(all.last() == rest.last());
        assert(slashed(all) =~= n + seq!['/'] + slashed(rest));
    }
}

/// Do the components of the second open those of the first?
pub open spec fn opens(q: Seq<Seq<char>>, p: Seq<Seq<char>>) -> bool {
    q.len() <= p.len() && p.take(q.len() as int) == q
}

#[verifier::rlimit(50)]
proof fn lemma_opens(p: Seq<Seq<char>>, q: Seq<Seq<char>>)
    requires
        all_proper(p),
        all_proper(q),
    ensures
        starts_with(slashed(p), slashed(q)) == opens(q, p),
    decreases q.len(),
{
    if q.len() == 0 {
        assert(slashed(q) =~= seq![]);
        assert(slashed(p).take(0) =~= seq![]);
        assert(p.take(0) =~= q);
    } else {
        let m = q[0];
        let qt = q.drop_first();
        assert(q =~= seq![m] + qt);
        lemma_slashed_front(m, qt);
        let sq = slashed(q);
        let k = m.len() as int;
        assert(sq[k] == '/');
        assert(proper(m));
        if p.len() == 0 {
            assert(slashed(p).len() == 0);
            assert(sq.len() > 0);
        } else {
            let n = p[0];
            let pt = p.drop_first();
            assert(p =~= seq![n] + pt);
            lemma_slashed_front(n, pt);
            let sp = slashed(p);
            let l = n.len() as int;
            assert(sp[l] == '/');
            assert(proper(n));
            assert forall|i: int| 0 <= i < pt.len() implies proper(#[trigger] pt[i]) by {
                assert(pt[i] == p[i + 1]);
            }
            assert forall|i: int| 0 <= i < qt.len() implies proper(#[trigger] qt[i]) by {
                assert(qt[i] == q[i + 1]);
            }
            lemma_opens(pt, qt);
            if starts_with(sp, sq) {
                assert forall|i: int| 0 <= i < sq.len() implies sp[i] == sq[i] by {
                    assert(sp.take(sq.len() as int)[i] == sq[i]);
                }
                if l < k {
                    assert(sq[l] == m[l]);
                    assert(m[l] != '/');
                }
                if k < l {
                    assert(sp[k] == n[k]);
                    assert(n[k] != '/');
                }
                assert forall|i: int| 0 <= i < l implies n[i] == m[i] by {
                    assert(sp[i] == n[i] && sq[i] == m[i]);
                }
                assert(n =~= m);
                let a = slashed(pt);
                let b = slashed(qt);
                assert(sp.len() == l + 1 + a.len());
                assert(sq.len() == l + 1 + b.len());
                assert forall|i: int| 0 <= i < b.len() implies a[i] == b[i] by {
                    assert(sp[l + 1 + i] == a[i]);
                    assert(sq[l + 1 + i] == b[i]);
                }
                assert(a.take(b.len() as int) =~= b);
                assert(opens(qt, pt));
                assert(p.take(q.len() as int) =~= q) by {
                    assert forall|i: int| 0 <= i < q.len() implies p[i] == q[i] by {
                        if i > 0 {
                            assert(pt.take(qt.len() as int)[i - 1] == qt[i - 1]);
                        }
                    }
                }
            }
            if opens(q, p) {
                assert(p.take(q.len() as int)[0] == q[0]);
                assert(pt.take(qt.len() as int) =~= qt) by {
                    assert forall|i: int| 0 <= i < qt.len() implies pt[i] == qt[i] by {
                        assert(p.take(q.len() as int)[i + 1] == q[i + 1]);
                    }
                }
                let a = slashed(pt);
                let b = slashed(qt);
                assert(starts_with(a, b));
                assert forall|i: int| 0 <= i < sq.len() implies sp[i] == sq[i] by {
                    if i > l {
                        assert(a.take(b.len() as int)[i - l - 1] == b[i - l - 1]);
                    }
                }
                assert(sp.take(sq.len() as int) =~= sq);
            }
        }
    }
}

/// **A path lies below another when it goes on from all of its components**, and
/// not where merely its text does.
pub proof fn lemma_being_below_is_by_components(p: Seq<char>, q: Seq<char>)
    requires
        rooted(p),
        rooted(q),
    ensures
        strictly_below(normal(p), normal(q)) <==> names(q).len() < names(p).len() && names(p).take(
            names(q).len() as int,
        ) == names(q),
        normal(p) == normal(q) <==> names(p) == names(q),
{
    lemma_names_are_proper(p);
    lemma_names_are_proper(q);
    let a = names(p);
    let b = names(q);
    lemma_opens(a, b);
    lemma_opens(b, a);
    let sa = slashed(a);
    let sb = slashed(b);
    let na = normal(p);
    let nb = normal(q);
    assert(na =~= seq!['/'] + sa);
    assert(nb =~= seq!['/'] + sb);
    lemma_led(sa, sb);
    if sa == sb {
        assert(sa.take(sb.len() as int) =~= sb);
        assert(sb.take(sa.len() as int) =~= sa);
        assert(opens(b, a) && opens(a, b));
        assert(a.take(b.len() as int) =~= a);
    }
    if a.len() == b.len() && opens(b, a) {
        assert(a.take(b.len() as int) =~= a);
    }
}

proof fn lemma_led(a: Seq<char>, b: Seq<char>)
    ensures
        starts_with(seq!['/'] + a, seq!['/'] + b) == starts_with(a, b),
        seq!['/'] + a == seq!['/'] + b <==> a == b,
{
    let x = seq!['/'] + a;
    let y = seq!['/'] + b;
    if starts_with(a, b) {
        assert(x.take(y.len() as int) =~= seq!['/'] + a.take(b.len() as int));
    }
    if starts_with(x, y) {
        assert(a.take(b.len() as int) =~= x.take(y.len() as int).skip(1));
        assert(y.skip(1) =~= b);
    }
    if x == y {
        assert(x.skip(1) =~= a);
        assert(y.skip(1) =~= b);
    }
}

} // verus!
