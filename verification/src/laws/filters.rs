//! What a filter matches, told from the values that are compared.

use vstd::prelude::*;

use crate::filter::{
    Expr, Fault, Kind, Op, Queryable, Step, Tok, ValueView, distance, expression, holds, in_word,
    is_digit, not_at, number_run, or_at, starts_word, step_at, suffix_at, term_at, text_holds,
    tokens_from,
};
use crate::float::{
    Double, INFINITY, lemma_nearest_exact, lemma_nearest_grows, lemma_units_grow,
    lemma_units_of_power, nearest, negated, product, rounded, sum, units, whole,
};
use crate::decimal::parse_double;
use crate::laws::numbers::{is_about, lemma_quotient_is_true};
use crate::path::sorts_before;
use crate::report::Stall;
use crate::pathology::Warning;
use crate::text::{find, lemma_find, lower, lower_char, occurs, occurs_at, split, starts_with, trim};
use vstd::arithmetic::power2::pow2;
use vstd::utf8::encode_utf8;

verus! {

/// A comparison of a field with a value.
pub open spec fn comparison(field: Seq<char>, op: Op, value: ValueView) -> Expr {
    Expr::Compare { field, op, value }
}

/// **Numbers compare by their values.** Where the field and the value are
/// numbers, `<`, `<=`, `>` and `>=` hold exactly when the one value is below, at
/// most, above or at least the other; so `<=` is what `>` is not.
pub proof fn lemma_numbers_compare_by_value<Q: Queryable>(q: Q, f: Seq<char>, l: Double, r: Double)
    requires
        q.num_field(f) == Some(l),
        !l.is_nan(),
        !r.is_nan(),
    ensures
        holds(comparison(f, Op::Lt, ValueView::Num(r)), q) <==> l.value() < r.value(),
        holds(comparison(f, Op::Le, ValueView::Num(r)), q) <==> l.value() <= r.value(),
        holds(comparison(f, Op::Gt, ValueView::Num(r)), q) <==> l.value() > r.value(),
        holds(comparison(f, Op::Ge, ValueView::Num(r)), q) <==> l.value() >= r.value(),
        holds(comparison(f, Op::Le, ValueView::Num(r)), q) <==> !holds(
            comparison(f, Op::Gt, ValueView::Num(r)),
            q,
        ),
        holds(comparison(f, Op::Ge, ValueView::Num(r)), q) <==> !holds(
            comparison(f, Op::Lt, ValueView::Num(r)),
            q,
        ),
{
}

/// **What is not a number compares with nothing.**
pub proof fn lemma_not_a_number_compares_with_nothing<Q: Queryable>(
    q: Q,
    f: Seq<char>,
    l: Double,
    op: Op,
    r: Double,
)
    requires
        q.num_field(f) == Some(l),
        l.is_nan() || r.is_nan(),
        op != Op::Match,
    ensures
        !holds(comparison(f, op, ValueView::Num(r)), q),
{
    assert(sum(l, negated(r)) == crate::float::nan());
    assert(distance(l, r).is_nan());
}

/// **Numbers are equal or they are not.** Of finite numbers, those of the same
/// value are equal, those further apart than two to the power of minus 52 are
/// not, and never are both true.
pub proof fn lemma_numbers_are_equal_or_not<Q: Queryable>(q: Q, f: Seq<char>, l: Double, r: Double)
    requires
        q.num_field(f) == Some(l),
        l.is_finite(),
        r.is_finite(),
    ensures
        holds(comparison(f, Op::Eq, ValueView::Num(r)), q) <==> !holds(
            comparison(f, Op::Ne, ValueView::Num(r)),
            q,
        ),
        l.value() == r.value() ==> holds(comparison(f, Op::Eq, ValueView::Num(r)), q),
        l.value() - r.value() >= pow2(1022) ==> holds(comparison(f, Op::Ne, ValueView::Num(r)), q),
        r.value() - l.value() >= pow2(1022) ==> holds(comparison(f, Op::Ne, ValueView::Num(r)), q),
{
    let e = Double { bits: 0x3cb0_0000_0000_0000 };
    let d = distance(l, r);
    let gap = l.value() - r.value();
    assert(negated(r).value() == -r.value()) by {
        assert(negated(r).magnitude() == r.magnitude());
    }
    assert(e.magnitude() == 971 * 0x10_0000_0000_0000);
    lemma_units_of_power(971);
    lemma_nearest_exact(e.magnitude(), 1);
    assert(units(e.magnitude()) == pow2(1022));
    assert(pow2(1022) * 1 == pow2(1022));
    let n: nat = if gap >= 0 {
        gap as nat
    } else {
        (-gap) as nat
    };
    assert(n * 1 == n);
    lemma_rounded_at_most_infinity(n);
    if n > 0 {
        assert(d.magnitude() == rounded(n, 1));
    } else {
        assert(d.magnitude() == 0);
    }
    assert(!d.is_nan() && !d.negative());
    if n >= pow2(1022) {
        lemma_nearest_grows(pow2(1022), 1, n, 1);
        assert(nearest(n, 1) >= e.magnitude());
        assert(d.magnitude() >= e.magnitude());
        if d.magnitude() > e.magnitude() {
            lemma_units_grow(e.magnitude(), d.magnitude());
        }
    }
    if n == 0 {
        lemma_units_grow(0, e.magnitude());
    }
}

proof fn lemma_rounded_at_most_infinity(n: nat)
    ensures
        rounded(n, 1) <= INFINITY,
{
}

/// **Texts are equal when they differ in case at most**, and unequal otherwise.
pub proof fn lemma_texts_are_equal_or_not(l: Seq<char>, r: Seq<char>)
    ensures
        text_holds(l, Op::Eq, r) <==> l.len() == r.len() && forall|i: int|
            0 <= i < l.len() ==> lower_char(#[trigger] l[i]) == lower_char(r[i]),
        text_holds(l, Op::Ne, r) <==> !text_holds(l, Op::Eq, r),
        text_holds(l, Op::Eq, r) == text_holds(r, Op::Eq, l),
{
    if lower(l) == lower(r) {
        assert(lower(l).len() == lower(r).len());
        assert forall|i: int| 0 <= i < l.len() implies lower_char(#[trigger] l[i]) == lower_char(
            r[i],
        ) by {
            assert(lower(l)[i] == lower(r)[i]);
        }
    }
    if l.len() == r.len() && forall|i: int|
        0 <= i < l.len() ==> lower_char(#[trigger] l[i]) == lower_char(r[i]) {
        assert(lower(l) =~= lower(r));
    }
}

/// **A letter and its capital are the same letter**, and nothing else is.
pub proof fn lemma_case_of_letters(a: char, b: char)
    ensures
        lower_char(a) == lower_char(b) <==> (a == b || ('A' <= a <= 'Z' && b as u32 == a as u32 + 32)
            || ('A' <= b <= 'Z' && a as u32 == b as u32 + 32)),
{
    if 'A' <= a <= 'Z' {
        assert(lower_char(a) as u32 == a as u32 + 32);
    }
    if 'A' <= b <= 'Z' {
        assert(lower_char(b) as u32 == b as u32 + 32);
    }
}

/// Does the dictionary list the first text before the second? It does where the
/// second goes on from the whole of the first, and where the first is smaller at
/// the first place at which they differ.
pub open spec fn dictionary(a: Seq<char>, b: Seq<char>) -> bool {
    exists|k: int|
        0 <= k <= a.len() && k < b.len() && #[trigger] a.take(k) == b.take(k) && (k == a.len() || (
        a[k] as int) < (b[k] as int))
}

#[verifier::rlimit(50)]
proof fn lemma_dictionary(a: Seq<char>, b: Seq<char>)
    ensures
        sorts_before(a, b) == dictionary(a, b),
    decreases a.len(),
{
    if b.len() > 0 && a.len() > 0 && a[0] == b[0] {
        let x = a.drop_first();
        let y = b.drop_first();
        lemma_dictionary(x, y);
        if dictionary(x, y) {
            let k = choose|k: int|
                0 <= k <= x.len() && k < y.len() && #[trigger] x.take(k) == y.take(k) && (k
                    == x.len() || (x[k] as int) < (y[k] as int));
            assert(a.take(k + 1) =~= seq![a[0]] + x.take(k));
            assert(b.take(k + 1) =~= seq![b[0]] + y.take(k));
            assert(a.take(k + 1) == b.take(k + 1));
            if k < x.len() {
                assert(a[k + 1] == x[k] && b[k + 1] == y[k]);
            }
        }
        if dictionary(a, b) {
            let k = choose|k: int|
                0 <= k <= a.len() && k < b.len() && #[trigger] a.take(k) == b.take(k) && (k
                    == a.len() || (a[k] as int) < (b[k] as int));
            assert(k > 0);
            assert(x.take(k - 1) =~= a.take(k).drop_first());
            assert(y.take(k - 1) =~= b.take(k).drop_first());
            assert(x.take(k - 1) == y.take(k - 1));
            if k < a.len() {
                assert(a[k] == x[k - 1] && b[k] == y[k - 1]);
            }
        }
    } else if b.len() > 0 && a.len() > 0 {
        assert(a.take(0) =~= b.take(0));
        if dictionary(a, b) {
            let k = choose|k: int|
                0 <= k <= a.len() && k < b.len() && #[trigger] a.take(k) == b.take(k) && (k
                    == a.len() || (a[k] as int) < (b[k] as int));
            if k > 0 {
                assert(a.take(k)[0] == b.take(k)[0]);
            }
        }
    } else if b.len() > 0 {
        assert(a.take(0) =~= b.take(0));
    }
}

/// **Texts compare as a dictionary lists them**; so `<=` is what `>` is not, and
/// of two texts that differ one comes before the other.
pub proof fn lemma_texts_compare_by_the_dictionary(l: Seq<char>, r: Seq<char>)
    ensures
        text_holds(l, Op::Lt, r) <==> dictionary(l, r),
        text_holds(l, Op::Gt, r) <==> dictionary(r, l),
        text_holds(l, Op::Le, r) <==> !dictionary(r, l),
        text_holds(l, Op::Ge, r) <==> !dictionary(l, r),
        text_holds(l, Op::Le, r) <==> (text_holds(l, Op::Lt, r) || l == r),
        text_holds(l, Op::Ge, r) <==> (text_holds(l, Op::Gt, r) || l == r),
{
    lemma_dictionary(l, r);
    lemma_dictionary(r, l);
    lemma_one_or_the_other(l, r);
}

proof fn lemma_one_or_the_other(a: Seq<char>, b: Seq<char>)
    ensures
        a == b || sorts_before(a, b) || sorts_before(b, a),
        !(sorts_before(a, b) && sorts_before(b, a)),
        a == b ==> !sorts_before(a, b),
    decreases a.len(),
{
    if a.len() > 0 && b.len() > 0 && a[0] == b[0] {
        lemma_one_or_the_other(a.drop_first(), b.drop_first());
        if a.drop_first() == b.drop_first() {
            assert(a =~= seq![a[0]] + a.drop_first());
            assert(b =~= seq![b[0]] + b.drop_first());
        }
    } else if a.len() == 0 && b.len() == 0 {
        assert(a =~= b);
    }
}

/// **A text field compares as text**, with a number as with its digits.
pub proof fn lemma_text_fields_compare_as_text<Q: Queryable>(
    q: Q,
    f: Seq<char>,
    l: Seq<char>,
    op: Op,
    r: Seq<char>,
)
    requires
        q.text_field(f) == Some(l),
    ensures
        holds(comparison(f, op, ValueView::Str(r)), q) == text_holds(l, op, r),
{
}

// ── matching ───────────────────────────────────────────────────────────

/// Is the text from `a` to `b` one of the alternatives that `|` parts?
pub open spec fn alternative(r: Seq<char>, a: int, b: int) -> bool {
    &&& 0 <= a <= b <= r.len()
    &&& forall|k: int| a <= k < b ==> #[trigger] r[k] != '|'
    &&& a == 0 || r[a - 1] == '|'
    &&& b == r.len() || r[b] == '|'
}

proof fn lemma_pieces_are_alternatives(r: Seq<char>, i: int) -> (ab: (int, int))
    requires
        0 <= i < split(r, '|').len(),
    ensures
        alternative(r, ab.0, ab.1),
        split(r, '|')[i] == r.subrange(ab.0, ab.1),
    decreases r.len(),
{
    lemma_find(r, '|');
    let k = find(r, '|') as int;
    if k >= r.len() {
        assert(r.subrange(0, r.len() as int) =~= r);
        (0, r.len() as int)
    } else if i == 0 {
        assert(r.take(k) =~= r.subrange(0, k));
        (0, k)
    } else {
        let t = r.skip(k + 1);
        let (a, b) = lemma_pieces_are_alternatives(t, i - 1);
        assert(t.subrange(a, b) =~= r.subrange(a + k + 1, b + k + 1));
        assert forall|m: int| a + k + 1 <= m < b + k + 1 implies #[trigger] r[m] != '|' by {
            assert(t[m - k - 1] != '|');
        }
        if a > 0 {
            assert(t[a - 1] == r[a + k]);
        }
        if b < t.len() {
            assert(t[b] == r[b + k + 1]);
        }
        assert(split(r, '|')[i] == split(t, '|')[i - 1]);
        (a + k + 1, b + k + 1)
    }
}

proof fn lemma_alternatives_are_pieces(r: Seq<char>, a: int, b: int) -> (i: int)
    requires
        alternative(r, a, b),
    ensures
        0 <= i < split(r, '|').len(),
        split(r, '|')[i] == r.subrange(a, b),
    decreases r.len(),
{
    lemma_find(r, '|');
    let k = find(r, '|') as int;
    if k >= r.len() {
        if a > 0 {
            assert(r[a - 1] != '|');
        }
        if b < r.len() {
            assert(r[b] != '|');
        }
        assert(r.subrange(0, r.len() as int) =~= r);
        0
    } else if a == 0 {
        if b > k {
            assert(r[k] != '|');
        }
        if b < k {
            assert(r[b] != '|');
        }
        assert(r.take(k) =~= r.subrange(0, k));
        0
    } else {
        let t = r.skip(k + 1);
        if a - 1 < k {
            assert(r[a - 1] != '|');
        }
        let x = a - k - 1;
        let y = b - k - 1;
        assert forall|m: int| x <= m < y implies #[trigger] t[m] != '|' by {
            assert(t[m] == r[m + k + 1]);
        }
        let i = lemma_alternatives_are_pieces(t, x, y);
        assert(t.subrange(x, y) =~= r.subrange(a, b));
        assert(split(r, '|')[i + 1] == split(t, '|')[i]);
        i + 1
    }
}

/// Does a text stand in another at a place, case aside?
pub open spec fn stands_in(hay: Seq<char>, needle: Seq<char>, at: int) -> bool {
    &&& 0 <= at
    &&& at + needle.len() <= hay.len()
    &&& forall|k: int|
        0 <= k < needle.len() ==> lower_char(#[trigger] needle[k]) == lower_char(hay[at + k])
}

proof fn lemma_occurs(hay: Seq<char>, needle: Seq<char>, at: int)
    ensures
        occurs_at(lower(hay), lower(needle), at) == stands_in(hay, needle, at),
{
    let h = lower(hay);
    let n = lower(needle);
    if 0 <= at && at + n.len() <= h.len() {
        let part = h.subrange(at, at + n.len());
        if part == n {
            assert forall|k: int| 0 <= k < needle.len() implies lower_char(#[trigger] needle[k])
                == lower_char(hay[at + k]) by {
                assert(part[k] == n[k]);
            }
        }
        if stands_in(hay, needle, at) {
            assert forall|k: int| 0 <= k < n.len() implies part[k] == n[k] by {
                assert(lower_char(needle[k]) == lower_char(hay[at + k]));
            }
            assert(part =~= n);
        }
    }
}

/// **A text matches when one of the alternatives stands in it somewhere**, case
/// and the blanks around the alternative aside. An empty alternative matches
/// nothing.
pub proof fn lemma_a_text_matches_an_alternative(l: Seq<char>, r: Seq<char>)
    ensures
        text_holds(l, Op::Match, r) <==> exists|a: int, b: int, at: int|
            a < b && #[trigger] alternative(r, a, b) && #[trigger] stands_in(
                l,
                trim(r.subrange(a, b)),
                at,
            ),
{
    let pieces = split(r, '|');
    if text_holds(l, Op::Match, r) {
        let i = choose|i: int|
            0 <= i < pieces.len() && (#[trigger] pieces[i]).len() > 0 && occurs(
                lower(l),
                lower(trim(pieces[i])),
            );
        let (a, b) = lemma_pieces_are_alternatives(r, i);
        let at = choose|at: int| occurs_at(lower(l), lower(trim(pieces[i])), at);
        lemma_occurs(l, trim(pieces[i]), at);
        assert(a < b && alternative(r, a, b) && stands_in(l, trim(r.subrange(a, b)), at));
    }
    if exists|a: int, b: int, at: int|
        a < b && #[trigger] alternative(r, a, b) && #[trigger] stands_in(
            l,
            trim(r.subrange(a, b)),
            at,
        ) {
        let (a, b, at) = choose|a: int, b: int, at: int|
            a < b && #[trigger] alternative(r, a, b) && #[trigger] stands_in(
                l,
                trim(r.subrange(a, b)),
                at,
            );
        let i = lemma_alternatives_are_pieces(r, a, b);
        lemma_occurs(l, trim(pieces[i]), at);
        assert(occurs_at(lower(l), lower(trim(pieces[i])), at));
        assert(pieces[i].len() > 0);
    }
}

/// **A bare field name asks for something there**: for yes, for a number other
/// than zero, for a text that is not empty.
pub proof fn lemma_a_bare_name_asks_for_something<Q: Queryable>(q: Q, f: Seq<char>)
    ensures
        q.bool_field(f) is Some ==> holds(Expr::Truthy(f), q) == (q.bool_field(f) == Some(true)),
        q.bool_field(f) is None && q.num_field(f) is Some && !(q.num_field(f)->0).is_nan()
            ==> holds(Expr::Truthy(f), q) == ((q.num_field(f)->0).value() != 0),
        q.bool_field(f) is None && q.num_field(f) is None && q.text_field(f) is Some ==> holds(
            Expr::Truthy(f),
            q,
        ) == (q.text_field(f)->0 != Seq::<char>::empty()),
        q.bool_field(f) is None && q.num_field(f) is None && q.text_field(f) is None ==> !holds(
            Expr::Truthy(f),
            q,
        ),
{
    if q.num_field(f) is Some {
        let m = (q.num_field(f)->0).magnitude();
        if m > 0 {
            lemma_units_grow(0, m);
        }
        assert(units(0) == 0);
    }
    if q.text_field(f) is Some && (q.text_field(f)->0).len() == 0 {
        assert(q.text_field(f)->0 =~= Seq::<char>::empty());
    }
}

/// **Conditions combine as the words say.**
pub proof fn lemma_conditions_combine<Q: Queryable>(a: Expr, b: Expr, q: Q)
    ensures
        holds(Expr::And(Box::new(a), Box::new(b)), q) <==> holds(a, q) && holds(b, q),
        holds(Expr::Or(Box::new(a), Box::new(b)), q) <==> holds(a, q) || holds(b, q),
        holds(Expr::Not(Box::new(a)), q) <==> !holds(a, q),
{
    reveal_with_fuel(holds, 2);
}

// ── numbers with a unit ────────────────────────────────────────────────

/// **A unit multiplies.** `K`, `M` and `G` are a thousand times each other and
/// `KiB`, `MiB` and `GiB` 1024 times. Times are in milliseconds: a second is a
/// thousand, a minute sixty seconds. A percent sign and `ms` change nothing.
#[verifier::rlimit(50)]
pub proof fn lemma_a_unit_multiplies(rest: Seq<char>)
    ensures
        suffix_at("KiB"@ + rest) == Some((1024int, 3int)),
        suffix_at("MiB"@ + rest) == Some((1024int * 1024, 3int)),
        suffix_at("GiB"@ + rest) == Some((1024int * 1024 * 1024, 3int)),
        suffix_at("ms"@ + rest) == Some((1int, 2int)),
        suffix_at("s"@ + rest) == Some((1000int, 1int)),
        !starts_with(rest, "s"@) && !starts_with(rest, "iB"@) ==> {
            &&& suffix_at("m"@ + rest) == Some((60int * 1000, 1int))
            &&& suffix_at("K"@ + rest) == Some((1000int, 1int))
            &&& suffix_at("M"@ + rest) == Some((1000int * 1000, 1int))
            &&& suffix_at("G"@ + rest) == Some((1000int * 1000 * 1000, 1int))
        },
        suffix_at("%"@ + rest) == Some((1int, 1int)),
        suffix_at(Seq::<char>::empty()) is None,
        rest.len() > 0 && rest[0] != 'K' && rest[0] != 'M' && rest[0] != 'G' && rest[0] != 'm'
            && rest[0] != 's' && rest[0] != '%' ==> suffix_at(rest) is None,
{
    reveal_strlit("KiB");
    reveal_strlit("MiB");
    reveal_strlit("GiB");
    reveal_strlit("ms");
    reveal_strlit("s");
    reveal_strlit("m");
    reveal_strlit("K");
    reveal_strlit("M");
    reveal_strlit("G");
    reveal_strlit("%");
    reveal_strlit("iB");
    lemma_starts("KiB"@, rest);
    lemma_starts("MiB"@, rest);
    lemma_starts("GiB"@, rest);
    lemma_starts("ms"@, rest);
    lemma_starts("s"@, rest);
    lemma_starts("m"@, rest);
    lemma_starts("K"@, rest);
    lemma_starts("M"@, rest);
    lemma_starts("G"@, rest);
    lemma_starts("%"@, rest);
    lemma_first_differs("MiB"@ + rest, "KiB"@);
    lemma_first_differs("GiB"@ + rest, "KiB"@);
    lemma_first_differs("GiB"@ + rest, "MiB"@);
    lemma_other_start("ms"@ + rest);
    lemma_other_start("s"@ + rest);
    lemma_other_start("m"@ + rest);
    lemma_other_start("%"@ + rest);
    lemma_first_differs("s"@ + rest, "ms"@);
    lemma_first_differs("%"@ + rest, "ms"@);
    lemma_first_differs("%"@ + rest, "s"@);
    lemma_first_differs("%"@ + rest, "m"@);
    lemma_first_differs("%"@ + rest, "K"@);
    lemma_first_differs("%"@ + rest, "M"@);
    lemma_first_differs("%"@ + rest, "G"@);
    lemma_first_differs("m"@ + rest, "s"@);
    if !starts_with(rest, "s"@) && !starts_with(rest, "iB"@) {
        lemma_goes_on("m"@, "s"@, rest);
        assert("m"@ + "s"@ =~= "ms"@);
        lemma_goes_on("K"@, "iB"@, rest);
        assert("K"@ + "iB"@ =~= "KiB"@);
        lemma_goes_on("M"@, "iB"@, rest);
        assert("M"@ + "iB"@ =~= "MiB"@);
        lemma_goes_on("G"@, "iB"@, rest);
        assert("G"@ + "iB"@ =~= "GiB"@);
        lemma_capital("K"@ + rest);
        lemma_capital("M"@ + rest);
        lemma_capital("G"@ + rest);
        lemma_first_differs("M"@ + rest, "KiB"@);
        lemma_first_differs("G"@ + rest, "KiB"@);
        lemma_first_differs("K"@ + rest, "MiB"@);
        lemma_first_differs("G"@ + rest, "MiB"@);
        lemma_first_differs("K"@ + rest, "GiB"@);
        lemma_first_differs("M"@ + rest, "GiB"@);
        lemma_first_differs("M"@ + rest, "K"@);
        lemma_first_differs("G"@ + rest, "K"@);
        lemma_first_differs("G"@ + rest, "M"@);
    }
    if rest.len() > 0 {
        lemma_first_differs(rest, "KiB"@);
        lemma_first_differs(rest, "MiB"@);
        lemma_first_differs(rest, "GiB"@);
        lemma_first_differs(rest, "ms"@);
        lemma_first_differs(rest, "s"@);
        lemma_first_differs(rest, "m"@);
        lemma_first_differs(rest, "K"@);
        lemma_first_differs(rest, "M"@);
        lemma_first_differs(rest, "G"@);
        lemma_first_differs(rest, "%"@);
    }
}

proof fn lemma_starts(a: Seq<char>, rest: Seq<char>)
    ensures
        starts_with(a + rest, a),
{
    assert((a + rest).take(a.len() as int) =~= a);
}

proof fn lemma_first_differs(s: Seq<char>, p: Seq<char>)
    requires
        s.len() > 0,
        p.len() > 0,
    ensures
        s[0] != p[0] ==> !starts_with(s, p),
{
    if starts_with(s, p) {
        assert(s.take(p.len() as int)[0] == p[0]);
    }
}

proof fn lemma_other_start(s: Seq<char>)
    requires
        s.len() > 0,
    ensures
        s[0] != 'K' && s[0] != 'M' && s[0] != 'G' ==> !starts_with(s, "KiB"@) && !starts_with(
            s,
            "MiB"@,
        ) && !starts_with(s, "GiB"@),
{
    reveal_strlit("KiB");
    reveal_strlit("MiB");
    reveal_strlit("GiB");
    lemma_first_differs(s, "KiB"@);
    lemma_first_differs(s, "MiB"@);
    lemma_first_differs(s, "GiB"@);
}

proof fn lemma_capital(s: Seq<char>)
    requires
        s.len() > 0,
    ensures
        s[0] != 'm' && s[0] != 's' ==> !starts_with(s, "ms"@) && !starts_with(s, "s"@)
            && !starts_with(s, "m"@),
{
    reveal_strlit("ms");
    reveal_strlit("s");
    reveal_strlit("m");
    lemma_first_differs(s, "ms"@);
    lemma_first_differs(s, "s"@);
    lemma_first_differs(s, "m"@);
}

proof fn lemma_goes_on(a: Seq<char>, b: Seq<char>, rest: Seq<char>)
    requires
        !starts_with(rest, b),
    ensures
        !starts_with(a + rest, a + b),
{
    if starts_with(a + rest, a + b) {
        let n = (a + b).len() as int;
        assert((a + rest).take(n) == a + b);
        assert(rest.take(b.len() as int) =~= (a + rest).take(n).skip(a.len() as int));
        assert((a + b).skip(a.len() as int) =~= b);
    }
}

/// Is an operator of so many characters read at `i`?
pub open spec fn reads_as(s: Seq<char>, i: int, op: Op, n: int) -> bool {
    match step_at(s, i) {
        Step::Token(t, e) => t.kind == Kind::Op(op) && e == i + n,
        _ => false,
    }
}

/// **Operators are read for what they say**, the longer ones first.
pub proof fn lemma_operators_are_read(s: Seq<char>, i: int)
    requires
        0 <= i < s.len(),
    ensures
        i + 1 < s.len() && s[i + 1] == '=' ==> {
            &&& s[i] == '=' ==> reads_as(s, i, Op::Eq, 2)
            &&& s[i] == '!' ==> reads_as(s, i, Op::Ne, 2)
            &&& s[i] == '>' ==> reads_as(s, i, Op::Ge, 2)
            &&& s[i] == '<' ==> reads_as(s, i, Op::Le, 2)
        },
        i + 1 == s.len() || s[i + 1] != '=' ==> {
            &&& s[i] == '=' ==> reads_as(s, i, Op::Eq, 1)
            &&& s[i] == '>' ==> reads_as(s, i, Op::Gt, 1)
            &&& s[i] == '<' ==> reads_as(s, i, Op::Lt, 1)
            &&& s[i] == '!' ==> step_at(s, i) is Fail
        },
        s[i] == '~' ==> reads_as(s, i, Op::Match, 1),
{
    assert(!crate::filter::high_word_char('!'));
}

// ── what can be named ──────────────────────────────────────────────────

/// **The fields of a stall.** `pct` and `pressure_pct` are its share, `peak` and
/// `peak_pct` its peak, `delta_usec` and `delta_ms` what it lost; `unit`,
/// `cgroup`, `resource` and `kind` or `type` are texts.
#[verifier::rlimit(50)]
pub proof fn lemma_the_fields_of_a_stall(s: Stall)
    ensures
        s.num_field("pct"@) == Some(s.pressure_pct),
        s.num_field("pressure_pct"@) == Some(s.pressure_pct),
        s.num_field("peak"@) == Some(s.peak_pct),
        s.num_field("peak_pct"@) == Some(s.peak_pct),
        s.num_field("delta_usec"@) == Some(whole(s.delta_usec as int)),
        s.num_field("delta_ms"@) is Some && is_about(
            s.num_field("delta_ms"@)->0,
            s.delta_usec as nat,
            1000,
        ),
        s.text_field("unit"@) == Some(s.unit@),
        s.text_field("cgroup"@) == Some(s.cgroup@),
        s.text_field("resource"@) == Some(s.resource.name()),
        s.text_field("kind"@) == Some(s.kind.name()),
        s.text_field("type"@) == Some(s.kind.name()),
{
    reveal_strlit("pct");
    reveal_strlit("pressure_pct");
    reveal_strlit("peak");
    reveal_strlit("peak_pct");
    reveal_strlit("delta_ms");
    reveal_strlit("delta_usec");
    reveal_strlit("unit");
    reveal_strlit("cgroup");
    reveal_strlit("resource");
    reveal_strlit("kind");
    reveal_strlit("type");
    assert("peak"@.len() != "pct"@.len() && "peak"@.len() != "pressure_pct"@.len());
    assert("peak_pct"@.len() != "pct"@.len() && "peak_pct"@.len() != "pressure_pct"@.len());
    assert("delta_ms"@.len() != "pct"@.len() && "delta_ms"@.len() != "pressure_pct"@.len()
        && "delta_ms"@.len() != "peak"@.len() && "delta_ms"@[0] != "peak_pct"@[0]);
    assert("delta_usec"@.len() != "pct"@.len() && "delta_usec"@.len() != "pressure_pct"@.len()
        && "delta_usec"@.len() != "peak"@.len() && "delta_usec"@.len() != "peak_pct"@.len()
        && "delta_usec"@.len() != "delta_ms"@.len());
    assert("cgroup"@.len() != "unit"@.len());
    assert("resource"@.len() != "unit"@.len() && "resource"@.len() != "cgroup"@.len());
    assert("kind"@[0] != "unit"@[0] && "kind"@.len() != "cgroup"@.len() && "kind"@.len()
        != "resource"@.len());
    assert("type"@[0] != "unit"@[0] && "type"@.len() != "cgroup"@.len() && "type"@.len()
        != "resource"@.len());
    lemma_quotient_is_true(s.delta_usec as nat, 1000);
}

/// **The fields of a warning**, with `warning.` in front of them or without.
pub proof fn lemma_the_fields_of_a_warning(w: Warning)
    ensures
        w.text_field("source"@) == Some(w.source@),
        w.text_field("warning.source"@) == Some(w.source@),
        w.text_field("severity"@) == Some(w.severity.name()),
        w.text_field("warning.severity"@) == Some(w.severity.name()),
        w.text_field("message"@) == Some(w.message@),
        w.text_field("warning.message"@) == Some(w.message@),
        w.bool_field("transient"@) == Some(w.transient),
        w.bool_field("warning.transient"@) == Some(w.transient),
{
    reveal_strlit("source");
    reveal_strlit("warning.source");
    reveal_strlit("severity");
    reveal_strlit("warning.severity");
    reveal_strlit("message");
    reveal_strlit("warning.message");
    assert("severity"@.len() != "source"@.len() && "severity"@.len() != "warning.source"@.len());
    assert("warning.severity"@.len() != "source"@.len() && "warning.severity"@.len()
        != "warning.source"@.len());
    assert("message"@.len() != "source"@.len() && "message"@.len() != "warning.source"@.len()
        && "message"@.len() != "severity"@.len() && "message"@.len() != "warning.severity"@.len());
    assert("warning.message"@.len() != "source"@.len() && "warning.message"@.len()
        != "warning.source"@.len() && "warning.message"@.len() != "severity"@.len()
        && "warning.message"@.len() != "warning.severity"@.len());
}

// ── reading ────────────────────────────────────────────────────────────

/// **A comparison is a field, an operator and a value**; a field alone is a
/// condition too, and an operator without a value is a fault.
pub proof fn lemma_a_comparison_is_read(t: Seq<Tok>, p: int, op: Op)
    requires
        0 <= p < t.len(),
    ensures
        p + 2 < t.len() && t[p + 1].kind == Kind::Op(op) ==> {
            let r = term_at(t, p);
            &&& t[p + 2].kind matches Kind::Num(n) ==> r == Ok::<(Expr, int), Fault>(
                (comparison(t[p].text, op, ValueView::Num(n)), p + 3),
            )
            &&& t[p + 2].kind is Str || t[p + 2].kind is Word ==> r == Ok::<(Expr, int), Fault>(
                (comparison(t[p].text, op, ValueView::Str(t[p + 2].text)), p + 3),
            )
            &&& t[p + 2].kind is Op || t[p + 2].kind is LParen || t[p + 2].kind is RParen ==> r is Err
                && (r->Err_0).at == t[p + 2].at
        },
        p + 2 == t.len() && t[p + 1].kind == Kind::Op(op) ==> term_at(t, p) is Err,
        p + 1 == t.len() || !(t[p + 1].kind is Op) ==> term_at(t, p) == Ok::<(Expr, int), Fault>(
            (Expr::Truthy(t[p].text), p + 1),
        ),
{
}

/// **Which characters stand in a word.** Of the plain ones letters and the
/// underscore begin it; digits, the point, the dash and the bar may follow.
pub proof fn lemma_which_characters_stand_in_a_word(c: char)
    requires
        (c as u32) < 0x80,
    ensures
        starts_word(c) <==> ('a' <= c <= 'z') || ('A' <= c <= 'Z') || c == '_',
        in_word(c) <==> ('a' <= c <= 'z') || ('A' <= c <= 'Z') || ('0' <= c <= '9') || c == '_' || c
            == '.' || c == '-' || c == '|',
{
}

/// **A quoted text goes to the next quote of its kind**, and without one it is a
/// fault.
pub proof fn lemma_a_quoted_text(front: Seq<char>, q: char, text: Seq<char>, rest: Seq<char>)
    requires
        q == '"' || q == '\'',
        forall|i: int| 0 <= i < text.len() ==> #[trigger] text[i] != q,
    ensures
        step_at(front + seq![q] + text + seq![q] + rest, front.len() as int) matches Step::Token(
            t,
            e,
        ) && t.text == text && t.kind is Str && e == front.len() + text.len() + 2,
        step_at(front + seq![q] + text, front.len() as int) is Fail,
{
    let k = front.len() as int;
    let s = front + seq![q] + text + seq![q] + rest;
    let tail = text + seq![q] + rest;
    assert(s.skip(k + 1) =~= tail);
    assert(s[k] == q);
    lemma_find(tail, q);
    let j = find(tail, q) as int;
    let n = text.len() as int;
    assert(tail[n] == q);
    if j < n {
        assert(tail[j] == text[j]);
    }
    assert(j == n) by {
        if j > n {
            assert(tail[n] != q);
        }
    }
    assert(s.subrange(k + 1, k + 1 + n) =~= text);
    let u = front + seq![q] + text;
    assert(u[k] == q);
    assert(u.skip(k + 1) =~= text);
    lemma_find(text, q);
    if find(text, q) < text.len() {
        assert(text[find(text, q) as int] != q);
    }
}

/// **A number goes as far as digits and points do**, and a unit behind it
/// multiplies it.
pub proof fn lemma_a_number_with_a_unit(s: Seq<char>, i: int)
    requires
        0 <= i < s.len(),
        is_digit(s[i]),
    ensures
        ({
            let j = i + number_run(s.skip(i));
            let digits = s.subrange(i, j);
            let unit = suffix_at(s.skip(j));
            match parse_double(digits) {
                None => step_at(s, i) is Fail,
                Some(n) => match unit {
                    None => step_at(s, i) matches Step::Token(t, e) && t.kind == Kind::Num(n) && e
                        == j,
                    Some((scale, len)) => step_at(s, i) matches Step::Token(t, e) && t.kind
                        == Kind::Num(product(n, whole(scale))) && e == j + len,
                },
            }
        }),
{
}

/// **A filter that goes on behind its end is refused**, where it goes on; one
/// that begins with anything but a name, `not` or a parenthesis is refused too,
/// and so is one that ends where a condition should begin.
pub proof fn lemma_what_is_no_filter(t: Seq<Tok>, p: int)
    requires
        0 <= p,
    ensures
        p >= t.len() ==> not_at(t, p) is Err,
        p < t.len() && (t[p].kind is Num || t[p].kind is Str || t[p].kind is Op
            || t[p].kind is RParen) ==> not_at(t, p) is Err && (not_at(t, p)->Err_0).at == t[p].at,
        p < t.len() && t[p].kind is Word && lower(t[p].text) != "not"@ && !t[p].text.contains('|')
            ==> not_at(t, p) == term_at(t, p),
        p < t.len() && t[p].kind is LParen && or_at(t, p + 1) is Ok && ((or_at(t, p + 1)->Ok_0).1
            >= t.len() || !(t[(or_at(t, p + 1)->Ok_0).1].kind is RParen)) ==> not_at(t, p) is Err
            && (not_at(t, p)->Err_0).at == t[p].at,
{
    reveal_strlit("not");
    assert(lower("not"@) =~= "not"@);
}

/// **All of a filter is read.**
pub proof fn lemma_all_of_a_filter_is_read(s: Seq<char>)
    requires
        tokens_from(s, 0) is Ok,
        or_at(tokens_from(s, 0)->Ok_0, 0) is Ok,
    ensures
        ({
            let t = tokens_from(s, 0)->Ok_0;
            let (e, p) = or_at(t, 0)->Ok_0;
            &&& p >= t.len() ==> expression(s) == Ok::<Expr, Fault>(e)
            &&& p < t.len() ==> expression(s) is Err && (expression(s)->Err_0).at == t[p].at
        }),
{
}

/// **A filter is read step by step**: blanks are passed over, tokens kept in
/// order, and the first fault ends it.
pub proof fn lemma_a_filter_is_read_step_by_step(s: Seq<char>, i: int)
    requires
        0 <= i <= s.len(),
    ensures
        i == s.len() ==> tokens_from(s, i) == Ok::<Seq<Tok>, Fault>(seq![]),
        i < s.len() && ('\t' <= s[i] <= '\r' || s[i] == ' ') ==> tokens_from(s, i) == tokens_from(
            s,
            i + 1,
        ),
        i < s.len() && step_at(s, i) is Fail ==> tokens_from(s, i) == Err::<Seq<Tok>, Fault>(
            step_at(s, i)->Fail_0,
        ),
        i < s.len() && step_at(s, i) is Token && tokens_from(s, step_at(s, i)->Token_1) is Ok
            ==> tokens_from(s, i) == Ok::<Seq<Tok>, Fault>(
            seq![step_at(s, i)->Token_0] + tokens_from(s, step_at(s, i)->Token_1)->Ok_0,
        ),
        i < s.len() && step_at(s, i) is Token && tokens_from(s, step_at(s, i)->Token_1) is Err
            ==> tokens_from(s, i) == tokens_from(s, step_at(s, i)->Token_1),
{
}

/// **A fault is told with its place, counted in bytes.**
pub proof fn lemma_a_fault_is_told_with_its_place(s: Seq<char>, i: int)
    requires
        0 <= i < s.len(),
    ensures
        step_at(s, i) matches Step::Fail(f) ==> f.at == encode_utf8(s.take(i)).len(),
        step_at(s, i) matches Step::Token(t, _) ==> t.at == encode_utf8(s.take(i)).len(),
{
}

} // verus!
