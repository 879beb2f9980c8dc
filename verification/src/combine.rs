//! Filters put together from filters.
//!
//! What is a filter on its own is one in parentheses too, whatever stands
//! around them: reading it goes on as before up to the closing parenthesis.

use vstd::prelude::*;

use crate::filter::{
    Expr, Fault, Kind, Queryable, Step, Tok, and_at, and_rest, expression, holds, in_word, is_digit,
    lemma_number_run, lemma_parentheses_group, lemma_step_goes_on, lemma_suffix, lemma_word_run,
    not_at, number_run, or_at, or_rest, starts_word, step_at, suffix_at, term_at, tokens_from,
    value_in, word_at, word_run,
};
use crate::text::{find, lower, starts_with};

verus! {

/// Do two tokens say the same, wherever they stand?
pub open spec fn alike(a: Tok, b: Tok) -> bool {
    a.text == b.text && a.kind == b.kind
}

// ── reading goes on as before ──────────────────────────────────────────

proof fn lemma_number_run_stops(x: Seq<char>, q: Seq<char>)
    requires
        q.len() > 0,
        q[0] == ')',
    ensures
        number_run(x + q) == number_run(x),
    decreases x.len(),
{
    if x.len() > 0 {
        assert((x + q).drop_first() =~= x.drop_first() + q);
        lemma_number_run_stops(x.drop_first(), q);
    }
}

proof fn lemma_word_run_stops(x: Seq<char>, q: Seq<char>)
    requires
        q.len() > 0,
        q[0] == ')',
    ensures
        word_run(x + q) == word_run(x),
    decreases x.len(),
{
    if x.len() > 0 {
        assert((x + q).drop_first() =~= x.drop_first() + q);
        lemma_word_run_stops(x.drop_first(), q);
    }
}

proof fn lemma_find_stays(x: Seq<char>, q: Seq<char>, c: char)
    requires
        find(x, c) < x.len(),
    ensures
        find(x + q, c) == find(x, c),
    decreases x.len(),
{
    if x[0] != c {
        assert((x + q).drop_first() =~= x.drop_first() + q);
        lemma_find_stays(x.drop_first(), q, c);
    }
}

proof fn lemma_prefix_stays(x: Seq<char>, q: Seq<char>, p: Seq<char>)
    requires
        q.len() > 0,
        !p.contains(q[0]),
    ensures
        starts_with(x + q, p) == starts_with(x, p),
{
    let s = x + q;
    if starts_with(s, p) {
        if x.len() < p.len() {
            assert(s.take(p.len() as int)[x.len() as int] == q[0]);
            assert(p[x.len() as int] == q[0]);
        }
        assert(x.take(p.len() as int) =~= s.take(p.len() as int));
    }
    if starts_with(x, p) {
        assert(x.take(p.len() as int) =~= s.take(p.len() as int));
    }
}

proof fn lemma_suffix_stays(x: Seq<char>, q: Seq<char>)
    requires
        q.len() > 0,
        q[0] == ')',
    ensures
        suffix_at(x + q) == suffix_at(x),
{
    assert(!"KiB"@.contains(')') && !"MiB"@.contains(')') && !"GiB"@.contains(')')) by {
        reveal_strlit("KiB");
        reveal_strlit("MiB");
        reveal_strlit("GiB");
    }
    assert(!"ms"@.contains(')') && !"s"@.contains(')') && !"m"@.contains(')')) by {
        reveal_strlit("ms");
        reveal_strlit("s");
        reveal_strlit("m");
    }
    assert(!"K"@.contains(')') && !"M"@.contains(')') && !"G"@.contains(')') && !"%"@.contains(
        ')',
    )) by {
        reveal_strlit("K");
        reveal_strlit("M");
        reveal_strlit("G");
        reveal_strlit("%");
    }
    lemma_prefix_stays(x, q, "KiB"@);
    lemma_prefix_stays(x, q, "MiB"@);
    lemma_prefix_stays(x, q, "GiB"@);
    lemma_prefix_stays(x, q, "ms"@);
    lemma_prefix_stays(x, q, "s"@);
    lemma_prefix_stays(x, q, "m"@);
    lemma_prefix_stays(x, q, "K"@);
    lemma_prefix_stays(x, q, "M"@);
    lemma_prefix_stays(x, q, "G"@);
    lemma_prefix_stays(x, q, "%"@);
}

/// Does what stands at one place of a text stand there too where the text
/// begins `d` characters later?
spec fn same_step(a: Step, b: Step, d: int) -> bool {
    match a {
        Step::Gap(n) => b == Step::Gap(n + d),
        Step::Token(t, n) => b matches Step::Token(u, m) && m == n + d && alike(u, t),
        Step::Fail(_) => true,
    }
}

proof fn lemma_step_inside(p: Seq<char>, a: Seq<char>, q: Seq<char>, i: int)
    requires
        0 <= i < a.len(),
        q.len() > 0,
        q[0] == ')',
    ensures
        same_step(step_at(a, i), step_at(p + a + q, p.len() + i), p.len() as int),
{
    let s = p + a + q;
    let d = p.len() as int;
    assert(s[d + i] == a[i]);
    assert(s.skip(d + i) =~= a.skip(i) + q);
    assert(s.skip(d + i + 1) =~= a.skip(i + 1) + q);
    lemma_step_goes_on(a, i);
    lemma_number_run_stops(a.skip(i), q);
    lemma_word_run_stops(a.skip(i + 1), q);
    let c = a[i];
    if c == '"' || c == '\'' {
        let k = find(a.skip(i + 1), c) as int;
        if k < a.skip(i + 1).len() {
            lemma_find_stays(a.skip(i + 1), q, c);
            assert(s.subrange(d + i + 1, d + i + 1 + k) =~= a.subrange(i + 1, i + 1 + k));
        }
    } else if i + 1 < a.len() {
        assert(s[d + i + 1] == a[i + 1]);
        assert(s.subrange(d + i, d + i + 2) =~= a.subrange(i, i + 2));
    } else {
        assert(s[d + i + 1] == ')');
    }
    if is_digit(c) {
        let j = i + number_run(a.skip(i));
        assert(j <= a.len()) by {
            lemma_number_run(a.skip(i));
        }
        assert(s.subrange(d + i, d + j) =~= a.subrange(i, j));
        assert(s.skip(d + j) =~= a.skip(j) + q);
        lemma_suffix_stays(a.skip(j), q);
        lemma_suffix(a.skip(j));
        if let Some((scale, len)) = suffix_at(a.skip(j)) {
            assert(s.subrange(d + i, d + j + len) =~= a.subrange(i, j + len));
        }
    }
    if starts_word(c) {
        let j = i + 1 + word_run(a.skip(i + 1));
        assert(j <= a.len()) by {
            lemma_word_run(a.skip(i + 1));
        }
        assert(s.subrange(d + i, d + j) =~= a.subrange(i, j));
    }
}

/// The tokens of a text, wherever it stands before a closing parenthesis, with
/// those behind it.
spec fn continues(t: Seq<Tok>, front: Seq<Tok>, rest: Seq<Tok>) -> bool {
    &&& t.len() == front.len() + rest.len()
    &&& forall|k: int| 0 <= k < front.len() ==> alike(#[trigger] t[k], front[k])
    &&& t.skip(front.len() as int) == rest
}

proof fn lemma_tokens_inside(p: Seq<char>, a: Seq<char>, q: Seq<char>, i: int)
    requires
        0 <= i <= a.len(),
        q.len() > 0,
        q[0] == ')',
        tokens_from(a, i) is Ok,
        tokens_from(p + a + q, (p.len() + a.len()) as int) is Ok,
    ensures
        tokens_from(p + a + q, p.len() + i) is Ok,
        continues(
            tokens_from(p + a + q, p.len() + i)->Ok_0,
            tokens_from(a, i)->Ok_0,
            tokens_from(p + a + q, (p.len() + a.len()) as int)->Ok_0,
        ),
    decreases a.len() - i,
{
    let s = p + a + q;
    let d = p.len() as int;
    let rest = tokens_from(s, (d + a.len()) as int)->Ok_0;
    if i == a.len() {
        assert(rest.skip(0) =~= rest);
    } else {
        lemma_step_goes_on(a, i);
        lemma_step_goes_on(s, d + i);
        lemma_step_inside(p, a, q, i);
        match step_at(a, i) {
            Step::Gap(n) => {
                lemma_tokens_inside(p, a, q, n);
            },
            Step::Token(t, n) => {
                lemma_tokens_inside(p, a, q, n);
                let inner = tokens_from(a, n)->Ok_0;
                let outer = tokens_from(s, d + n)->Ok_0;
                let u = step_at(s, d + i)->Token_0;
                let small = seq![t] + inner;
                let big = seq![u] + outer;
                assert(tokens_from(a, i)->Ok_0 == small);
                assert(tokens_from(s, d + i)->Ok_0 == big);
                assert(big.skip(small.len() as int) =~= outer.skip(inner.len() as int));
                assert forall|k: int| 0 <= k < small.len() implies alike(
                    #[trigger] big[k],
                    small[k],
                ) by {
                    if k > 0 {
                        assert(alike(outer[k - 1], inner[k - 1]));
                    }
                }
            },
            Step::Fail(_) => {},
        }
    }
}

// ── parsing goes on as before ──────────────────────────────────────────

/// Do the tokens `t` stand among `u` from `d` on, before a closing parenthesis?
spec fn enclosed(t: Seq<Tok>, u: Seq<Tok>, d: int) -> bool {
    &&& 0 <= d
    &&& d + t.len() < u.len()
    &&& forall|k: int| d <= k < d + t.len() ==> alike(#[trigger] u[k], t[k - d])
    &&& u[d + t.len()].kind == Kind::RParen
}

/// Is the second the first, `d` tokens later?
spec fn same_parse(
    a: Result<(Expr, int), Fault>,
    b: Result<(Expr, int), Fault>,
    d: int,
) -> bool {
    a matches Ok((e, n)) ==> b == Ok::<(Expr, int), Fault>((e, n + d))
}

proof fn lemma_word_inside(t: Seq<Tok>, u: Seq<Tok>, d: int, p: int, w: Seq<char>)
    requires
        enclosed(t, u, d),
        0 <= p <= t.len(),
    ensures
        word_at(u, p + d, w) == word_at(t, p, w),
{
    if p < t.len() {
        assert(alike(u[p + d], t[p]));
    }
}

proof fn lemma_term_inside(t: Seq<Tok>, u: Seq<Tok>, d: int, p: int)
    requires
        enclosed(t, u, d),
        0 <= p < t.len(),
    ensures
        same_parse(term_at(t, p), term_at(u, p + d), d),
{
    assert(alike(u[p + d], t[p]));
    if p + 1 < t.len() {
        assert(alike(u[p + 1 + d], t[p + 1]));
    }
    if p + 2 < t.len() {
        assert(alike(u[p + 2 + d], t[p + 2]));
        assert(value_in(u[p + 2 + d]) == value_in(t[p + 2]));
    }
}

proof fn lemma_not_inside(t: Seq<Tok>, u: Seq<Tok>, d: int, p: int)
    requires
        enclosed(t, u, d),
        0 <= p <= t.len(),
    ensures
        same_parse(not_at(t, p), not_at(u, p + d), d),
    decreases t.len() - p, 0nat,
{
    lemma_word_inside(t, u, d, p, "not"@);
    if word_at(t, p, "not"@) {
        lemma_not_inside(t, u, d, p + 1);
    } else if p < t.len() {
        assert(alike(u[p + d], t[p]));
        if t[p].kind == Kind::LParen {
            lemma_or_inside(t, u, d, p + 1);
            if let Ok((inner, q)) = or_at(t, p + 1) {
                if q < t.len() {
                    assert(alike(u[q + d], t[q]));
                }
            }
        } else if t[p].kind == Kind::Word {
            lemma_term_inside(t, u, d, p);
        }
    }
}

proof fn lemma_and_inside(t: Seq<Tok>, u: Seq<Tok>, d: int, p: int)
    requires
        enclosed(t, u, d),
        0 <= p <= t.len(),
    ensures
        same_parse(and_at(t, p), and_at(u, p + d), d),
        and_at(t, p) matches Ok((e, n)) ==> p < n <= t.len(),
    decreases t.len() - p, 2nat,
{
    lemma_not_inside(t, u, d, p);
    if let Ok((left, q)) = not_at(t, p) {
        if p < q <= t.len() {
            lemma_and_rest_inside(t, u, d, q, left);
        }
    }
}

proof fn lemma_and_rest_inside(t: Seq<Tok>, u: Seq<Tok>, d: int, p: int, left: Expr)
    requires
        enclosed(t, u, d),
        0 <= p <= t.len(),
    ensures
        same_parse(and_rest(t, p, left), and_rest(u, p + d, left), d),
        and_rest(t, p, left) matches Ok((e, n)) ==> p <= n <= t.len(),
    decreases t.len() - p, 3nat,
{
    lemma_word_inside(t, u, d, p, "and"@);
    if word_at(t, p, "and"@) {
        lemma_not_inside(t, u, d, p + 1);
        if let Ok((right, q)) = not_at(t, p + 1) {
            if p < q <= t.len() {
                lemma_and_rest_inside(t, u, d, q, Expr::And(Box::new(left), Box::new(right)));
            }
        }
    }
}

proof fn lemma_or_inside(t: Seq<Tok>, u: Seq<Tok>, d: int, p: int)
    requires
        enclosed(t, u, d),
        0 <= p <= t.len(),
    ensures
        same_parse(or_at(t, p), or_at(u, p + d), d),
        or_at(t, p) matches Ok((e, n)) ==> p < n <= t.len(),
    decreases t.len() - p, 4nat,
{
    lemma_and_inside(t, u, d, p);
    if let Ok((left, q)) = and_at(t, p) {
        lemma_or_rest_inside(t, u, d, q, left);
    }
}

proof fn lemma_or_rest_inside(t: Seq<Tok>, u: Seq<Tok>, d: int, p: int, left: Expr)
    requires
        enclosed(t, u, d),
        0 <= p <= t.len(),
    ensures
        same_parse(or_rest(t, p, left), or_rest(u, p + d, left), d),
        or_rest(t, p, left) matches Ok((e, n)) ==> p <= n <= t.len(),
    decreases t.len() - p, 5nat,
{
    lemma_word_inside(t, u, d, p, "or"@);
    if word_at(t, p, "or"@) {
        lemma_and_inside(t, u, d, p + 1);
        if let Ok((right, q)) = and_at(t, p + 1) {
            lemma_or_rest_inside(t, u, d, q, Expr::Or(Box::new(left), Box::new(right)));
        }
    }
}

/// A filter in parentheses is the condition that it is without them.
proof fn lemma_grouped(a: Seq<char>, t: Seq<Tok>, u: Seq<Tok>, d: int)
    requires
        expression(a) is Ok,
        tokens_from(a, 0) == Ok::<Seq<Tok>, Fault>(t),
        enclosed(t, u, d),
        d >= 1,
        u[d - 1].kind == Kind::LParen,
    ensures
        not_at(u, d - 1) == Ok::<(Expr, int), Fault>((expression(a)->Ok_0, d + t.len() + 1)),
{
    lemma_or_inside(t, u, d, 0);
    lemma_parentheses_group(u, d - 1, expression(a)->Ok_0, d + t.len());
}

// ── what stands between ────────────────────────────────────────────────

/// A word that ends where it should.
proof fn lemma_word_run_is(s: Seq<char>, n: nat)
    requires
        n < s.len(),
        forall|k: int| 0 <= k < n ==> in_word(#[trigger] s[k]),
        !in_word(s[n as int]),
    ensures
        word_run(s) == n,
    decreases n,
{
    if n > 0 {
        assert(s.drop_first()[n - 1] == s[n as int]);
        assert forall|k: int| 0 <= k < n - 1 implies in_word(#[trigger] s.drop_first()[k]) by {
            assert(in_word(s[k + 1]));
        }
        lemma_word_run_is(s.drop_first(), (n - 1) as nat);
    }
}

/// A word of letters with a blank and an opening parenthesis behind it.
proof fn lemma_word_then_open(s: Seq<char>, i: int, w: Seq<char>)
    requires
        0 <= i,
        w.len() > 0,
        i + w.len() + 2 <= s.len(),
        s.subrange(i, (i + w.len()) as int) == w,
        forall|k: int| 0 <= k < w.len() ==> 'a' <= #[trigger] w[k] <= 'z',
        s[(i + w.len()) as int] == ' ',
        s[i + w.len() + 1] == '(',
        tokens_from(s, i + w.len() + 2) is Ok,
    ensures
        tokens_from(s, i) is Ok,
        ({
            let t = tokens_from(s, i)->Ok_0;
            let rest = tokens_from(s, i + w.len() + 2)->Ok_0;
            &&& t.len() == rest.len() + 2
            &&& t[0].kind == Kind::Word
            &&& t[0].text == w
            &&& t[1].kind == Kind::LParen
            &&& t.skip(2) == rest
        }),
{
    let n = w.len() as int;
    let rest = tokens_from(s, i + n + 2)->Ok_0;
    assert forall|k: int| 0 <= k < n implies #[trigger] s[i + k] == w[k] by {
        assert(s.subrange(i, i + n)[k] == s[i + k]);
    }
    let tail = s.skip(i + 1);
    assert forall|k: int| 0 <= k < n - 1 implies in_word(#[trigger] tail[k]) by {
        assert(tail[k] == s[i + (k + 1)]);
        assert('a' <= w[k + 1] <= 'z');
    }
    assert(tail[n - 1] == s[i + n]);
    lemma_word_run_is(tail, (n - 1) as nat);
    assert(s[i + 0] == w[0]);
    assert('a' <= w[0] <= 'z');
    lemma_step_goes_on(s, i);
    lemma_step_goes_on(s, i + n);
    lemma_step_goes_on(s, i + n + 1);
    let open = step_at(s, i + n + 1)->Token_0;
    let word = step_at(s, i)->Token_0;
    assert(step_at(s, i + n + 1) == Step::Token(open, i + n + 2));
    assert(tokens_from(s, i + n + 1) == Ok::<Seq<Tok>, Fault>(seq![open] + rest));
    assert(step_at(s, i + n) == Step::Gap(i + n + 1));
    assert(tokens_from(s, i + n) == tokens_from(s, i + n + 1));
    assert(step_at(s, i) == Step::Token(word, i + n));
    let t = seq![word] + (seq![open] + rest);
    assert(tokens_from(s, i) == Ok::<Seq<Tok>, Fault>(t));
    assert(t.skip(2) =~= rest);
}

/// A closing parenthesis.
proof fn lemma_close(s: Seq<char>, i: int)
    requires
        0 <= i < s.len(),
        s[i] == ')',
        tokens_from(s, i + 1) is Ok,
    ensures
        tokens_from(s, i) is Ok,
        ({
            let t = tokens_from(s, i)->Ok_0;
            &&& t.len() == (tokens_from(s, i + 1)->Ok_0).len() + 1
            &&& t[0].kind == Kind::RParen
            &&& t.skip(1) == tokens_from(s, i + 1)->Ok_0
        }),
{
    lemma_step_goes_on(s, i);
    let close = step_at(s, i)->Token_0;
    let rest = tokens_from(s, i + 1)->Ok_0;
    assert(step_at(s, i) == Step::Token(close, i + 1));
    assert((seq![close] + rest).skip(1) =~= rest);
}

/// A blank is passed over.
proof fn lemma_blank(s: Seq<char>, i: int)
    requires
        0 <= i < s.len(),
        s[i] == ' ',
    ensures
        tokens_from(s, i) == tokens_from(s, i + 1),
{
    lemma_step_goes_on(s, i);
}

// ── the laws ───────────────────────────────────────────────────────────

/// Two filters in parentheses with a word between.
pub open spec fn joined_by(a: Seq<char>, w: Seq<char>, b: Seq<char>) -> Seq<char> {
    seq!['('] + a + (seq![')', ' '] + w + seq![' ', '(']) + b + seq![')']
}

/// A filter in parentheses with `not` before it.
pub open spec fn negated_text(a: Seq<char>) -> Seq<char> {
    seq!['n', 'o', 't', ' ', '('] + a + seq![')']
}

/// What closes the first of two filters, the word between them, and the second
/// one with its parentheses.
spec fn second_half(w: Seq<char>, b: Seq<char>) -> Seq<char> {
    (seq![')', ' '] + w + seq![' ', '(']) + b + seq![')']
}

spec fn is_second_half(t: Seq<Tok>, w: Seq<char>, tb: Seq<Tok>) -> bool {
    &&& t.len() == tb.len() + 4
    &&& t[0].kind == Kind::RParen
    &&& t[1].kind == Kind::Word
    &&& t[1].text == w
    &&& t[2].kind == Kind::LParen
    &&& enclosed(tb, t, 3)
}

proof fn lemma_second_half(p: Seq<char>, w: Seq<char>, b: Seq<char>)
    requires
        tokens_from(b, 0) is Ok,
        w.len() > 0,
        forall|k: int| 0 <= k < w.len() ==> 'a' <= #[trigger] w[k] <= 'z',
    ensures
        tokens_from(p + second_half(w, b), p.len() as int) is Ok,
        is_second_half(
            tokens_from(p + second_half(w, b), p.len() as int)->Ok_0,
            w,
            tokens_from(b, 0)->Ok_0,
        ),
{
    let s = p + second_half(w, b);
    let front = p + (seq![')', ' '] + w + seq![' ', '(']);
    let shut = seq![')'];
    let tb = tokens_from(b, 0)->Ok_0;
    let lp = p.len() as int;
    let lw = w.len() as int;
    let at_b = lp + lw + 4;
    let end = (at_b + b.len()) as int;
    assert(s =~= front + b + shut);
    assert(s[end] == ')');
    assert(tokens_from(s, end + 1) == Ok::<Seq<Tok>, Fault>(seq![]));
    lemma_close(s, end);
    lemma_tokens_inside(front, b, shut, 0);
    let t3 = tokens_from(s, at_b)->Ok_0;
    assert(s.subrange(lp + 2, lp + 2 + lw) =~= w);
    assert(s[lp + 2 + lw] == ' ' && s[lp + 3 + lw] == '(');
    lemma_word_then_open(s, lp + 2, w);
    let t1 = tokens_from(s, lp + 2)->Ok_0;
    assert(s[lp] == ')' && s[lp + 1] == ' ');
    lemma_blank(s, lp + 1);
    lemma_close(s, lp);
    let t = tokens_from(s, lp)->Ok_0;
    let n = tb.len() as int;
    assert(t.skip(1)[0] == t[1] && t.skip(1)[1] == t[2]);
    assert forall|k: int| 0 <= k < t3.len() implies t[k + 3] == #[trigger] t3[k] by {
        assert(t1.skip(2)[k] == t1[k + 2]);
        assert(t.skip(1)[k + 2] == t[k + 3]);
    }
    assert(t3.skip(n)[0] == t3[n]);
    assert(t[n + 3] == t3[n]);
    assert forall|k: int| 3 <= k < 3 + n implies alike(#[trigger] t[k], tb[k - 3]) by {
        assert(t[(k - 3) + 3] == t3[k - 3]);
    }
}

/// The tokens of two filters with a word between.
spec fn is_joined(u: Seq<Tok>, ta: Seq<Tok>, w: Seq<char>, tb: Seq<Tok>) -> bool {
    let m = ta.len() as int;
    &&& u.len() == m + tb.len() + 5
    &&& u[0].kind == Kind::LParen
    &&& enclosed(ta, u, 1)
    &&& u[m + 2].kind == Kind::Word
    &&& u[m + 2].text == w
    &&& u[m + 3].kind == Kind::LParen
    &&& enclosed(tb, u, m + 4)
}

proof fn lemma_joined_tokens(a: Seq<char>, w: Seq<char>, b: Seq<char>)
    requires
        tokens_from(a, 0) is Ok,
        tokens_from(b, 0) is Ok,
        w.len() > 0,
        forall|k: int| 0 <= k < w.len() ==> 'a' <= #[trigger] w[k] <= 'z',
    ensures
        tokens_from(joined_by(a, w, b), 0) is Ok,
        is_joined(
            tokens_from(joined_by(a, w, b), 0)->Ok_0,
            tokens_from(a, 0)->Ok_0,
            w,
            tokens_from(b, 0)->Ok_0,
        ),
{
    let s = joined_by(a, w, b);
    let open = seq!['('];
    let behind = second_half(w, b);
    let ta = tokens_from(a, 0)->Ok_0;
    let tb = tokens_from(b, 0)->Ok_0;
    assert(s =~= open + a + behind);
    lemma_second_half(open + a, w, b);
    let u1 = tokens_from(s, (a.len() + 1) as int)->Ok_0;
    lemma_tokens_inside(open, a, behind, 0);
    let u0 = tokens_from(s, 1)->Ok_0;
    assert(s[0] == '(');
    lemma_step_goes_on(s, 0);
    let first = step_at(s, 0)->Token_0;
    assert(step_at(s, 0) == Step::Token(first, 1));
    let u = seq![first] + u0;
    let m = ta.len() as int;
    let n = tb.len() as int;
    assert(tokens_from(s, 0) == Ok::<Seq<Tok>, Fault>(u));
    assert forall|k: int| 0 <= k < u1.len() implies u[m + 1 + k] == #[trigger] u1[k] by {
        assert(u0.skip(m)[k] == u0[m + k]);
    }
    assert(u[m + 1 + 0] == u1[0] && u[m + 1 + 1] == u1[1] && u[m + 1 + 2] == u1[2]);
    assert(u[m + 1 + (n + 3)] == u1[n + 3]);
    assert forall|k: int| 1 <= k < 1 + m implies alike(#[trigger] u[k], ta[k - 1]) by {
        assert(u[k] == u0[k - 1]);
    }
    assert forall|k: int| m + 4 <= k < m + 4 + n implies alike(
        #[trigger] u[k],
        tb[k - (m + 4)],
    ) by {
        let j = k - (m + 1);
        assert(u[m + 1 + j] == u1[j]);
        assert(alike(u1[j], tb[j - 3]));
    }
}

/// The two conditions in the tokens of two filters with a word between.
proof fn lemma_joined(a: Seq<char>, w: Seq<char>, b: Seq<char>) -> (u: Seq<Tok>)
    requires
        expression(a) is Ok,
        expression(b) is Ok,
        w.len() > 0,
        forall|k: int| 0 <= k < w.len() ==> 'a' <= #[trigger] w[k] <= 'z',
    ensures
        tokens_from(joined_by(a, w, b), 0) == Ok::<Seq<Tok>, Fault>(u),
        ({
            let m = (tokens_from(a, 0)->Ok_0).len() as int;
            &&& m + 3 < u.len()
            &&& not_at(u, 0) == Ok::<(Expr, int), Fault>((expression(a)->Ok_0, m + 2))
            &&& u[m + 2].kind == Kind::Word
            &&& u[m + 2].text == w
            &&& not_at(u, m + 3) == Ok::<(Expr, int), Fault>((expression(b)->Ok_0, u.len() as int))
        }),
{
    lemma_joined_tokens(a, w, b);
    let u = tokens_from(joined_by(a, w, b), 0)->Ok_0;
    let ta = tokens_from(a, 0)->Ok_0;
    let tb = tokens_from(b, 0)->Ok_0;
    lemma_grouped(a, ta, u, 1);
    lemma_grouped(b, tb, u, ta.len() as int + 4);
    u
}

/// A filter made of filters: where two texts are filters, so are the two in
/// parentheses with `and` or `or` between, and one of them with `not` before
/// it, and each is the condition that it says.
pub proof fn lemma_filters_combine(a: Seq<char>, b: Seq<char>)
    requires
        expression(a) is Ok,
        expression(b) is Ok,
    ensures
        expression(joined_by(a, "and"@, b)) == Ok::<Expr, Fault>(
            Expr::And(Box::new(expression(a)->Ok_0), Box::new(expression(b)->Ok_0)),
        ),
        expression(joined_by(a, "or"@, b)) == Ok::<Expr, Fault>(
            Expr::Or(Box::new(expression(a)->Ok_0), Box::new(expression(b)->Ok_0)),
        ),
        expression(negated_text(a)) == Ok::<Expr, Fault>(
            Expr::Not(Box::new(expression(a)->Ok_0)),
        ),
{
    lemma_both(a, b);
    lemma_either(a, b);
    lemma_neither(a);
}

proof fn lemma_both(a: Seq<char>, b: Seq<char>)
    requires
        expression(a) is Ok,
        expression(b) is Ok,
    ensures
        expression(joined_by(a, "and"@, b)) == Ok::<Expr, Fault>(
            Expr::And(Box::new(expression(a)->Ok_0), Box::new(expression(b)->Ok_0)),
        ),
{
    reveal_strlit("and");
    let u = lemma_joined(a, "and"@, b);
    let ea = expression(a)->Ok_0;
    let eb = expression(b)->Ok_0;
    let m = (tokens_from(a, 0)->Ok_0).len() as int;
    let all = Expr::And(Box::new(ea), Box::new(eb));
    let end = u.len() as int;
    assert(word_at(u, m + 2, "and"@));
    assert(and_rest(u, end, all) == Ok::<(Expr, int), Fault>((all, end)));
    assert(and_rest(u, m + 2, ea) == and_rest(u, end, all));
    assert(and_at(u, 0) == Ok::<(Expr, int), Fault>((all, end)));
    assert(or_rest(u, end, all) == Ok::<(Expr, int), Fault>((all, end)));
    assert(or_at(u, 0) == Ok::<(Expr, int), Fault>((all, end)));
}

proof fn lemma_either(a: Seq<char>, b: Seq<char>)
    requires
        expression(a) is Ok,
        expression(b) is Ok,
    ensures
        expression(joined_by(a, "or"@, b)) == Ok::<Expr, Fault>(
            Expr::Or(Box::new(expression(a)->Ok_0), Box::new(expression(b)->Ok_0)),
        ),
{
    reveal_strlit("or");
    reveal_strlit("and");
    let u = lemma_joined(a, "or"@, b);
    let ea = expression(a)->Ok_0;
    let eb = expression(b)->Ok_0;
    let m = (tokens_from(a, 0)->Ok_0).len() as int;
    let all = Expr::Or(Box::new(ea), Box::new(eb));
    let end = u.len() as int;
    assert(word_at(u, m + 2, "or"@));
    assert(lower("or"@).len() == 2 && lower("and"@).len() == 3);
    assert(!word_at(u, m + 2, "and"@));
    assert(and_rest(u, m + 2, ea) == Ok::<(Expr, int), Fault>((ea, m + 2)));
    assert(and_at(u, 0) == Ok::<(Expr, int), Fault>((ea, m + 2)));
    assert(and_rest(u, end, eb) == Ok::<(Expr, int), Fault>((eb, end)));
    assert(and_at(u, m + 3) == Ok::<(Expr, int), Fault>((eb, end)));
    assert(or_rest(u, end, all) == Ok::<(Expr, int), Fault>((all, end)));
    assert(or_rest(u, m + 2, ea) == or_rest(u, end, all));
    assert(or_at(u, 0) == Ok::<(Expr, int), Fault>((all, end)));
}

proof fn lemma_neither(a: Seq<char>)
    requires
        expression(a) is Ok,
    ensures
        expression(negated_text(a)) == Ok::<Expr, Fault>(
            Expr::Not(Box::new(expression(a)->Ok_0)),
        ),
{
    reveal_strlit("not");
    let s = negated_text(a);
    let front = seq!['n', 'o', 't', ' ', '('];
    let shut = seq![')'];
    let w = "not"@;
    let t = tokens_from(a, 0)->Ok_0;
    let la = a.len() as int;
    assert(s =~= front + a + shut);
    assert(s[la + 5] == ')');
    assert(tokens_from(s, la + 6) == Ok::<Seq<Tok>, Fault>(seq![]));
    lemma_close(s, la + 5);
    lemma_tokens_inside(front, a, shut, 0);
    let inner = tokens_from(s, 5)->Ok_0;
    assert(s.subrange(0, 3) =~= w);
    lemma_word_then_open(s, 0, w);
    let u = tokens_from(s, 0)->Ok_0;
    let m = t.len() as int;
    assert forall|k: int| 0 <= k < inner.len() implies u[k + 2] == #[trigger] inner[k] by {
        assert(u.skip(2)[k] == u[k + 2]);
    }
    assert(inner.skip(m)[0] == inner[m]);
    assert(u[m + 2] == inner[m]);
    assert(enclosed(t, u, 2)) by {
        assert forall|k: int| 2 <= k < 2 + m implies alike(#[trigger] u[k], t[k - 2]) by {
            assert(u[(k - 2) + 2] == inner[k - 2]);
        }
    }
    lemma_grouped(a, t, u, 2);
    let e = Expr::Not(Box::new(expression(a)->Ok_0));
    let end = u.len() as int;
    assert(word_at(u, 0, "not"@));
    assert(not_at(u, 0) == Ok::<(Expr, int), Fault>((e, end)));
    assert(and_rest(u, end, e) == Ok::<(Expr, int), Fault>((e, end)));
    assert(and_at(u, 0) == Ok::<(Expr, int), Fault>((e, end)));
    assert(or_rest(u, end, e) == Ok::<(Expr, int), Fault>((e, end)));
    assert(or_at(u, 0) == Ok::<(Expr, int), Fault>((e, end)));
}

/// And it matches as its parts do, whatever it is applied to.
pub proof fn lemma_combined_filters_match<Q: Queryable>(a: Seq<char>, b: Seq<char>, q: Q)
    requires
        expression(a) is Ok,
        expression(b) is Ok,
    ensures
        ({
            let fa = holds(expression(a)->Ok_0, q);
            let fb = holds(expression(b)->Ok_0, q);
            &&& expression(joined_by(a, "and"@, b)) matches Ok(e) && holds(e, q) == (fa && fb)
            &&& expression(joined_by(a, "or"@, b)) matches Ok(e) && holds(e, q) == (fa || fb)
            &&& expression(negated_text(a)) matches Ok(e) && holds(e, q) == !fa
        }),
{
    lemma_filters_combine(a, b);
    reveal_with_fuel(holds, 2);
}

} // verus!
