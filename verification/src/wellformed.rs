//! What is written as JSON reads back as what it says.
//!
//! The writers build their text piece by piece. Here each piece is shown to
//! read as the value that it stands for, and the pieces are put together to
//! arrays and objects.

use vstd::prelude::*;

use crate::decimal::{
    after_point, before_point, decimal_number, exponent_at, fixed, lemma_empty_is_no_number,
    parse_double, pow10, with_places, zero_pad,
};
use crate::float::{Double, one, round_even, units, whole};
use crate::incident::{log_char, log_chars, log_text};
use crate::json::{
    Reading, Value, after_chars, document, in_number, is_blank, items_at, lemma_skip_ws,
    lemma_utf8_at_least, members_at, number_len, plain_escape, skip_ws, string_at, value_at,
};
use crate::report::{by_number, flag_text, hex_char, json_char, json_chars, json_text};
use crate::text::{
    all_digits, decimal, digit_char, digit_value, digits_value, find, join, lemma_find, parse_nat,
    repeat,
};

verus! {

/// Can this follow a value? Nothing, a blank, a comma or a closing bracket.
pub open spec fn may_follow(rest: Seq<char>) -> bool {
    rest.len() == 0 || is_blank(rest[0]) || rest[0] == ',' || rest[0] == '}' || rest[0] == ']'
}

/// Does this text say this value, whatever may follow it? Blanks around it do
/// not count.
pub closed spec fn says(s: Seq<char>, v: Value) -> bool {
    &&& skip_ws(s).len() > 0
    &&& skip_ws(s)[0] != ']' && skip_ws(s)[0] != '}'
    &&& forall|rest: Seq<char>| #[trigger]
        may_follow(rest) ==> {
            let r = value_at(s + rest);
            &&& r is Ok
            &&& (r->Ok_0).0 == v
            &&& skip_ws((r->Ok_0).1) == skip_ws(rest)
            &&& (r->Ok_0).1.len() < skip_ws(s + rest).len()
        }
}

/// A text that says a value is a document with that value.
pub proof fn lemma_says_document(s: Seq<char>, v: Value)
    requires
        says(s, v),
    ensures
        document(s) == Ok::<Value, Seq<char>>(v),
{
    let none = Seq::<char>::empty();
    assert(may_follow(none));
    assert(s + none =~= s);
    assert(skip_ws(none).len() == 0);
}

pub proof fn lemma_assoc(a: Seq<char>, b: Seq<char>, c: Seq<char>)
    ensures
        (a + b) + c == a + (b + c),
{
    assert((a + b) + c =~= a + (b + c));
}

// ── blanks ─────────────────────────────────────────────────────────────

pub open spec fn all_blank(s: Seq<char>) -> bool {
    forall|i: int| 0 <= i < s.len() ==> is_blank(#[trigger] s[i])
}

pub proof fn lemma_skip_blanks(b: Seq<char>, s: Seq<char>)
    requires
        all_blank(b),
    ensures
        skip_ws(b + s) == skip_ws(s),
    decreases b.len(),
{
    if b.len() == 0 {
        assert(b + s =~= s);
    } else {
        assert((b + s)[0] == b[0]);
        assert((b + s).drop_first() =~= b.drop_first() + s);
        lemma_skip_blanks(b.drop_first(), s);
    }
}

proof fn lemma_skip_nothing(s: Seq<char>)
    requires
        s.len() == 0 || !is_blank(s[0]),
    ensures
        skip_ws(s) == s,
{
}

/// Blanks at the start of a text stay blanks when more follows.
proof fn lemma_skip_then(s: Seq<char>, rest: Seq<char>)
    requires
        skip_ws(s).len() > 0,
    ensures
        skip_ws(s + rest) == skip_ws(s) + rest,
    decreases s.len(),
{
    if s.len() > 0 && is_blank(s[0]) {
        assert((s + rest).drop_first() =~= s.drop_first() + rest);
        lemma_skip_then(s.drop_first(), rest);
    }
}

/// A text with blanks around it says what it says without them.
pub proof fn lemma_says_between_blanks(before: Seq<char>, s: Seq<char>, after: Seq<char>, v: Value)
    requires
        all_blank(before),
        all_blank(after),
        says(s, v),
    ensures
        says(before + s + after, v),
{
    let whole_text = before + s + after;
    lemma_assoc(before, s, after);
    lemma_skip_blanks(before, s + after);
    lemma_skip_then(s, after);
    assert forall|rest: Seq<char>| #[trigger] may_follow(rest) implies {
        let r = value_at(whole_text + rest);
        &&& r is Ok
        &&& (r->Ok_0).0 == v
        &&& skip_ws((r->Ok_0).1) == skip_ws(rest)
        &&& (r->Ok_0).1.len() < skip_ws(whole_text + rest).len()
    } by {
        let tail = after + rest;
        assert(whole_text + rest =~= before + (s + tail));
        lemma_skip_blanks(before, s + tail);
        lemma_skip_blanks(after, rest);
        if after.len() == 0 {
            assert(tail =~= rest);
        } else {
            assert(tail[0] == after[0]);
        }
        assert(may_follow(tail));
        lemma_same_start(whole_text + rest, s + tail);
    }
}

/// What a value reads as depends on the text behind its blanks alone.
proof fn lemma_same_start(s: Seq<char>, t: Seq<char>)
    requires
        skip_ws(s) == skip_ws(t),
    ensures
        value_at(s) == value_at(t),
{
}

// ── strings ────────────────────────────────────────────────────────────

/// Does this text stand for this character inside a string?
pub open spec fn stands_for(e: Seq<char>, c: char) -> bool {
    forall|t: Seq<char>| #[trigger] string_at(e + t) == after_chars(seq![c], string_at(t))
}

proof fn lemma_by_number(c: char)
    requires
        (c as u32) < 0x20,
    ensures
        stands_for(by_number(c), c),
{
    assert forall|t: Seq<char>| #[trigger]
        string_at(by_number(c) + t) == after_chars(seq![c], string_at(t)) by {
        let e = by_number(c);
        let s = e + t;
        let u = s.drop_first();
        assert(u[0] == 'u');
        let w = u.drop_first();
        let four = seq!['0', '0', hex_char(c as nat / 16), hex_char(c as nat % 16)];
        assert(w =~= four + t);
        lemma_utf8_at_least(w);
        assert(w.take(4) =~= four);
        assert(w.skip(4) =~= t);
        lemma_four_digits(c as nat);
    }
}

proof fn lemma_four_digits(n: nat)
    requires
        n < 0x20,
    ensures
        parse_nat(seq!['0', '0', hex_char(n / 16), hex_char(n % 16)], 16, u32::MAX as nat) == Some(
            n,
        ),
{
    let four = seq!['0', '0', hex_char(n / 16), hex_char(n % 16)];
    lemma_hex_digit(n / 16);
    lemma_hex_digit(n % 16);
    let three = four.drop_last();
    let two = three.drop_last();
    let first = two.drop_last();
    assert(first.drop_last() =~= seq![]);
    assert(digits_value(first.drop_last(), 16) == 0);
    assert(first.last() == '0' && two.last() == '0' && three.last() == hex_char(n / 16));
    assert(digits_value(first, 16) == 0);
    assert(digits_value(two, 16) == 0);
    assert(digits_value(three, 16) == n / 16);
    assert(digits_value(four, 16) == n);
    assert forall|i: int| 0 <= i < four.len() implies (#[trigger] digit_value(
        four[i],
        16,
    )) is Some by {
        assert(i == 0 || i == 1 || i == 2 || i == 3);
    }
}

proof fn lemma_hex_digit(d: nat)
    requires
        d < 16,
    ensures
        digit_value(hex_char(d), 16) == Some(d),
{
}

proof fn lemma_plain(c: char)
    requires
        c != '"',
        c != '\\',
    ensures
        stands_for(seq![c], c),
{
    let e = seq![c];
    assert forall|t: Seq<char>| #[trigger]
        string_at(e + t) == after_chars(seq![c], string_at(t)) by {
        assert((e + t).drop_first() =~= t);
    }
}

proof fn lemma_escaped(e: char, c: char)
    requires
        e != 'u',
        plain_escape(e) == Some(c),
    ensures
        stands_for(seq!['\\', e], c),
{
    let two = seq!['\\', e];
    assert forall|t: Seq<char>| #[trigger]
        string_at(two + t) == after_chars(seq![c], string_at(t)) by {
        let s = two + t;
        assert(s.drop_first()[0] == e);
        assert(s.drop_first().drop_first() =~= t);
    }
}

pub proof fn lemma_json_char(c: char)
    ensures
        stands_for(json_char(c), c),
{
    if c == '"' || c == '\\' {
        lemma_escaped(c, c);
    } else if c == '\n' {
        lemma_escaped('n', c);
    } else if c == '\r' {
        lemma_escaped('r', c);
    } else if c == '\t' {
        lemma_escaped('t', c);
    } else if (c as u32) < 0x20 {
        lemma_by_number(c);
    } else {
        lemma_plain(c);
    }
}

pub proof fn lemma_log_char(c: char)
    ensures
        stands_for(log_char(c), c),
{
    if c == '"' || c == '\\' {
        lemma_escaped(c, c);
    } else if c == '\n' {
        lemma_escaped('n', c);
    } else if (c as u32) < 0x20 {
        lemma_by_number(c);
    } else {
        lemma_plain(c);
    }
}

proof fn lemma_after_after(a: Seq<char>, b: Seq<char>, r: Reading<Seq<char>>)
    ensures
        after_chars(a, after_chars(b, r)) == after_chars(a + b, r),
{
    match r {
        Ok((t, rest)) => {
            assert(a + (b + t) =~= (a + b) + t);
        },
        Err(e) => {},
    }
}

proof fn lemma_json_chars(s: Seq<char>, t: Seq<char>)
    ensures
        string_at(json_chars(s) + t) == after_chars(s, string_at(t)),
    decreases s.len(),
{
    if s.len() == 0 {
        assert(json_chars(s) + t =~= t);
        lemma_after_nothing(s, string_at(t));
    } else {
        let init = s.drop_last();
        let c = s.last();
        lemma_json_char(c);
        lemma_assoc(json_chars(init), json_char(c), t);
        lemma_json_chars(init, json_char(c) + t);
        lemma_after_after(init, seq![c], string_at(t));
        assert(init + seq![c] =~= s);
    }
}

proof fn lemma_log_chars(s: Seq<char>, t: Seq<char>)
    ensures
        string_at(log_chars(s) + t) == after_chars(s, string_at(t)),
    decreases s.len(),
{
    if s.len() == 0 {
        assert(log_chars(s) + t =~= t);
        lemma_after_nothing(s, string_at(t));
    } else {
        let init = s.drop_last();
        let c = s.last();
        lemma_log_char(c);
        lemma_assoc(log_chars(init), log_char(c), t);
        lemma_log_chars(init, log_char(c) + t);
        lemma_after_after(init, seq![c], string_at(t));
        assert(init + seq![c] =~= s);
    }
}

proof fn lemma_after_nothing(s: Seq<char>, r: Reading<Seq<char>>)
    requires
        s.len() == 0,
    ensures
        after_chars(s, r) == r,
{
    match r {
        Ok((t, rest)) => {
            assert(s + t =~= t);
        },
        Err(e) => {},
    }
}

/// A text between quotes, given what it reads as up to the closing one.
proof fn lemma_quoted(e: Seq<char>, s: Seq<char>)
    requires
        forall|t: Seq<char>| #[trigger] string_at(e + t) == after_chars(s, string_at(t)),
    ensures
        says(seq!['"'] + e + seq!['"'], Value::Str(s)),
{
    let q = seq!['"'];
    let whole_text = q + e + q;
    lemma_skip_nothing(whole_text);
    assert forall|rest: Seq<char>| #[trigger] may_follow(rest) implies {
        let r = value_at(whole_text + rest);
        &&& r is Ok
        &&& (r->Ok_0).0 == Value::Str(s)
        &&& skip_ws((r->Ok_0).1) == skip_ws(rest)
        &&& (r->Ok_0).1.len() < skip_ws(whole_text + rest).len()
    } by {
        let all = whole_text + rest;
        lemma_skip_nothing(all);
        assert(all.drop_first() =~= e + (q + rest));
        assert((q + rest).drop_first() =~= rest);
        assert(string_at(q + rest) == Ok::<(Seq<char>, Seq<char>), Seq<char>>((seq![], rest)));
        assert(s + seq![] =~= s);
    }
}

/// A text written as a JSON string reads back as that text.
pub proof fn lemma_json_text_reads_back(s: Seq<char>)
    ensures
        says(json_text(s), Value::Str(s)),
{
    assert forall|t: Seq<char>| #[trigger]
        string_at(json_chars(s) + t) == after_chars(s, string_at(t)) by {
        lemma_json_chars(s, t);
    }
    lemma_quoted(json_chars(s), s);
}

/// A text written as a string of the log reads back as that text.
pub proof fn lemma_log_text_reads_back(s: Seq<char>)
    ensures
        says(log_text(s), Value::Str(s)),
{
    assert forall|t: Seq<char>| #[trigger]
        string_at(log_chars(s) + t) == after_chars(s, string_at(t)) by {
        lemma_log_chars(s, t);
    }
    lemma_quoted(log_chars(s), s);
}

/// Can this text stand in a string as it is?
pub open spec fn plain(s: Seq<char>) -> bool {
    forall|i: int| 0 <= i < s.len() ==> #[trigger] s[i] != '"' && s[i] != '\\'
}

proof fn lemma_plain_chars(s: Seq<char>, t: Seq<char>)
    requires
        plain(s),
    ensures
        string_at(s + t) == after_chars(s, string_at(t)),
    decreases s.len(),
{
    if s.len() == 0 {
        assert(s + t =~= t);
        lemma_after_nothing(s, string_at(t));
    } else {
        let rest = s.drop_first();
        assert forall|i: int| 0 <= i < rest.len() implies #[trigger] rest[i] != '"' && rest[i]
            != '\\' by {
            assert(rest[i] == s[i + 1]);
        }
        lemma_plain_chars(rest, t);
        assert((s + t)[0] == s[0]);
        assert((s + t).drop_first() =~= rest + t);
        lemma_after_after(seq![s[0]], rest, string_at(t));
        assert(seq![s[0]] + rest =~= s);
    }
}

/// A word between quotes.
pub proof fn lemma_word_reads_back(s: Seq<char>)
    requires
        plain(s),
    ensures
        says(seq!['"'] + s + seq!['"'], Value::Str(s)),
{
    assert forall|t: Seq<char>| #[trigger] string_at(s + t) == after_chars(s, string_at(t)) by {
        lemma_plain_chars(s, t);
    }
    lemma_quoted(s, s);
}

// ── numbers ────────────────────────────────────────────────────────────

pub open spec fn all_in_number(s: Seq<char>) -> bool {
    forall|i: int| 0 <= i < s.len() ==> in_number(#[trigger] s[i])
}

proof fn lemma_number_len(s: Seq<char>, rest: Seq<char>)
    requires
        all_in_number(s),
        may_follow(rest),
    ensures
        number_len(s + rest) == s.len(),
    decreases s.len(),
{
    if s.len() == 0 {
        assert(s + rest =~= rest);
    } else {
        assert((s + rest)[0] == s[0]);
        assert((s + rest).drop_first() =~= s.drop_first() + rest);
        lemma_number_len(s.drop_first(), rest);
    }
}

/// A text of the characters of a number says the number that it is read as.
pub proof fn lemma_number_says(s: Seq<char>, x: Double)
    requires
        all_in_number(s),
        parse_double(s) == Some(x),
    ensures
        says(s, Value::Num(x)),
{
    if s.len() == 0 {
        lemma_empty_is_no_number(s);
    }
    assert(in_number(s[0]));
    lemma_skip_nothing(s);
    assert forall|rest: Seq<char>| #[trigger] may_follow(rest) implies {
        let r = value_at(s + rest);
        &&& r is Ok
        &&& (r->Ok_0).0 == Value::Num(x)
        &&& skip_ws((r->Ok_0).1) == skip_ws(rest)
        &&& (r->Ok_0).1.len() < skip_ws(s + rest).len()
    } by {
        let all = s + rest;
        assert(all[0] == s[0]);
        lemma_skip_nothing(all);
        lemma_number_len(s, rest);
        assert(all.take(s.len() as int) =~= s);
        assert(all.skip(s.len() as int) =~= rest);
    }
}

proof fn lemma_digit_char(d: nat)
    requires
        d < 10,
    ensures
        '0' <= digit_char(d) <= '9',
        digit_value(digit_char(d), 10) == Some(d),
{
}

/// A number in decimal is made of digits, and they write it.
pub proof fn lemma_decimal_digits(n: nat)
    ensures
        decimal(n).len() > 0,
        all_digits(decimal(n), 10),
        forall|i: int| 0 <= i < decimal(n).len() ==> '0' <= (#[trigger] decimal(n)[i]) <= '9',
        digits_value(decimal(n), 10) == n,
    decreases n,
{
    if n < 10 {
        lemma_digit_char(n);
        assert(decimal(n).drop_last() =~= seq![]);
        assert(digits_value(decimal(n).drop_last(), 10) == 0);
    } else {
        lemma_decimal_digits(n / 10);
        lemma_digit_char(n % 10);
        assert(decimal(n).drop_last() =~= decimal(n / 10));
    }
}

proof fn lemma_no_exponent(s: Seq<char>)
    requires
        forall|i: int| 0 <= i < s.len() ==> #[trigger] s[i] != 'e' && s[i] != 'E',
    ensures
        exponent_at(s) == s.len(),
    decreases s.len(),
{
    if s.len() > 0 {
        let t = s.drop_first();
        assert forall|i: int| 0 <= i < t.len() implies #[trigger] t[i] != 'e' && t[i] != 'E' by {
            assert(t[i] == s[i + 1]);
        }
        lemma_no_exponent(t);
    }
}

/// Digits, a point and more digits.
proof fn lemma_pointed(a: Seq<char>, b: Seq<char>)
    requires
        forall|i: int| 0 <= i < a.len() ==> '0' <= (#[trigger] a[i]) <= '9',
        forall|i: int| 0 <= i < b.len() ==> '0' <= (#[trigger] b[i]) <= '9',
        a.len() > 0,
    ensures
        decimal_number(a + seq!['.'] + b) is Some,
        decimal_number(a) == Some((digits_value(a, 10), 0int)),
{
    let s = a + seq!['.'] + b;
    lemma_no_exponent(s);
    lemma_no_exponent(a);
    assert(s.take(s.len() as int) =~= s);
    assert(a.take(a.len() as int) =~= a);
    lemma_find(s, '.');
    lemma_find(a, '.');
    assert(find(s, '.') == a.len()) by {
        assert(s[a.len() as int] == '.');
        if find(s, '.') < a.len() {
            assert(s[find(s, '.') as int] == a[find(s, '.') as int]);
        }
    }
    assert(find(a, '.') == a.len()) by {
        if find(a, '.') < a.len() {
            assert(a[find(a, '.') as int] == '.');
        }
    }
    assert(before_point(s) =~= a);
    assert(after_point(s) =~= b);
    assert(before_point(a) =~= a);
    assert(a + b =~= before_point(s) + after_point(s));
    assert forall|i: int| 0 <= i < (a + b).len() implies (#[trigger] digit_value(
        (a + b)[i],
        10,
    )) is Some by {
        if i < a.len() {
            assert((a + b)[i] == a[i]);
        } else {
            assert((a + b)[i] == b[i - a.len()]);
        }
    }
    assert(a + seq![] =~= a);
    assert forall|i: int| 0 <= i < a.len() implies (#[trigger] digit_value(a[i], 10)) is Some by {
        assert('0' <= a[i] <= '9');
    }
}

/// A whole number reads back as the double nearest to it.
pub proof fn lemma_decimal_reads_back(n: nat)
    ensures
        says(decimal(n), Value::Num(whole(n as int))),
{
    let s = decimal(n);
    lemma_decimal_digits(n);
    lemma_pointed(s, seq![]);
    assert forall|i: int| 0 <= i < s.len() implies in_number(#[trigger] s[i]) by {
        assert('0' <= s[i] <= '9');
    }
    assert('0' <= s[0] <= '9');
    assert(pow10(0) == 1);
    assert(n * 1 == n) by (nonlinear_arith);
    lemma_number_says(s, whole(n as int));
}

/// A percentage as it comes back from the log, where it has `n` places.
pub open spec fn kept_places(x: Double, n: nat) -> Double {
    parse_double(fixed(x, n))->0
}

/// What is written of a finite number with places after the point is a number.
pub proof fn lemma_fixed_reads_back(x: Double, n: nat)
    requires
        x.is_finite(),
        n > 0,
    ensures
        says(fixed(x, n), Value::Num(kept_places(x, n))),
{
    let q = round_even(units(x.magnitude()) * pow10(n), one());
    let a = decimal(q / pow10(n));
    let low = decimal(q % pow10(n));
    let b = zero_pad(low, n as int);
    let t = with_places(q, n);
    let s = fixed(x, n);
    lemma_decimal_digits(q / pow10(n));
    lemma_decimal_digits(q % pow10(n));
    assert forall|i: int| 0 <= i < b.len() implies '0' <= (#[trigger] b[i]) <= '9' by {
        let zeros = repeat('0', n - low.len());
        if i < zeros.len() {
            assert(b[i] == zeros[i]);
        } else {
            assert(b[i] == low[i - zeros.len()]);
        }
    }
    lemma_pointed(a, b);
    assert(t == a + seq!['.'] + b);
    assert forall|i: int| 0 <= i < t.len() implies in_number(#[trigger] t[i]) by {
        if i < a.len() {
            assert(t[i] == a[i]);
        } else if i > a.len() {
            assert(t[i] == b[i - a.len() - 1]);
        }
    }
    assert(t[0] == a[0] && '0' <= a[0] <= '9');
    if x.negative() {
        assert(s[0] == '-');
        assert(s.drop_first() =~= t);
        assert forall|i: int| 0 <= i < s.len() implies in_number(#[trigger] s[i]) by {
            if i > 0 {
                assert(s[i] == t[i - 1]);
            }
        }
    } else {
        assert(s =~= t);
    }
    lemma_number_says(s, kept_places(x, n));
}

// ── words ──────────────────────────────────────────────────────────────

/// `true` and `false` read back.
pub proof fn lemma_flag_reads_back(b: bool)
    ensures
        says(flag_text(b), Value::Bool(b)),
{
    reveal_strlit("true");
    reveal_strlit("false");
    let s = flag_text(b);
    lemma_skip_nothing(s);
    assert forall|rest: Seq<char>| #[trigger] may_follow(rest) implies {
        let r = value_at(s + rest);
        &&& r is Ok
        &&& (r->Ok_0).0 == Value::Bool(b)
        &&& skip_ws((r->Ok_0).1) == skip_ws(rest)
        &&& (r->Ok_0).1.len() < skip_ws(s + rest).len()
    } by {
        let all = s + rest;
        assert(all[0] == s[0]);
        lemma_skip_nothing(all);
        assert(all.take(s.len() as int) =~= s);
        assert(all.skip(s.len() as int) =~= rest);
    }
}

// ── arrays ─────────────────────────────────────────────────────────────

/// Do these texts say these values, one each?
pub open spec fn all_say(parts: Seq<Seq<char>>, vs: Seq<Value>) -> bool {
    &&& parts.len() == vs.len()
    &&& forall|i: int| 0 <= i < parts.len() ==> says(#[trigger] parts[i], vs[i])
}

/// Pieces from the first on.
pub proof fn lemma_join_front(parts: Seq<Seq<char>>, sep: Seq<char>)
    requires
        parts.len() > 1,
    ensures
        join(parts, sep) == parts[0] + sep + join(parts.drop_first(), sep),
    decreases parts.len(),
{
    let init = parts.drop_last();
    let rest = parts.drop_first();
    if parts.len() == 2 {
        assert(init =~= seq![parts[0]]);
        assert(rest =~= seq![parts[1]]);
        assert(join(init, sep) == parts[0]);
        assert(join(rest, sep) == parts[1]);
        assert(parts.last() == parts[1]);
    } else {
        lemma_join_front(init, sep);
        assert(init.drop_first() =~= rest.drop_last());
        assert(rest.last() == parts.last());
        assert(init[0] == parts[0]);
        let middle = join(init.drop_first(), sep);
        assert(parts[0] + sep + middle + sep + parts.last() =~= parts[0] + sep + (middle + sep
            + parts.last()));
    }
}

/// What is read of pieces and a closing bracket; blanks before them do not
/// count.
proof fn lemma_items(
    s: Seq<char>,
    parts: Seq<Seq<char>>,
    vs: Seq<Value>,
    before: Seq<Value>,
    rest: Seq<char>,
)
    requires
        all_say(parts, vs),
        parts.len() > 0,
        skip_ws(s) == skip_ws(join(parts, seq![',']) + (seq![']'] + rest)),
    ensures
        items_at(s, before) == Ok::<(Value, Seq<char>), Seq<char>>(
            (Value::Arr(before + vs), rest),
        ),
    decreases parts.len(),
{
    let sep = seq![','];
    let close = seq![']'] + rest;
    let full = join(parts, sep) + close;
    lemma_same_start(s, full);
    lemma_skip_ws(s);
    assert(says(parts[0], vs[0]));
    if parts.len() == 1 {
        assert(may_follow(close));
        lemma_skip_nothing(close);
        assert(close.drop_first() =~= rest);
        assert(before + vs =~= before.push(vs[0]));
    } else {
        lemma_join_front(parts, sep);
        let more = parts.drop_first();
        let tail = join(more, sep) + close;
        let after = sep + tail;
        assert(full =~= parts[0] + after);
        assert(may_follow(after));
        lemma_skip_nothing(after);
        assert(after.drop_first() =~= tail);
        assert(all_say(more, vs.drop_first())) by {
            assert forall|i: int| 0 <= i < more.len() implies says(
                #[trigger] more[i],
                vs.drop_first()[i],
            ) by {
                assert(says(parts[i + 1], vs[i + 1]));
            }
        }
        lemma_items(tail, more, vs.drop_first(), before.push(vs[0]), rest);
        assert(before.push(vs[0]) + vs.drop_first() =~= before + vs);
    }
}

/// Pieces between square brackets say an array.
pub proof fn lemma_array_says(parts: Seq<Seq<char>>, vs: Seq<Value>)
    requires
        all_say(parts, vs),
    ensures
        says(seq!['['] + join(parts, seq![',']) + seq![']'], Value::Arr(vs)),
{
    let inner = join(parts, seq![',']);
    let s = seq!['['] + inner + seq![']'];
    lemma_skip_nothing(s);
    assert forall|rest: Seq<char>| #[trigger] may_follow(rest) implies {
        let r = value_at(s + rest);
        &&& r is Ok
        &&& (r->Ok_0).0 == Value::Arr(vs)
        &&& skip_ws((r->Ok_0).1) == skip_ws(rest)
        &&& (r->Ok_0).1.len() < skip_ws(s + rest).len()
    } by {
        let all = s + rest;
        let close = seq![']'] + rest;
        lemma_skip_nothing(all);
        assert(all.drop_first() =~= inner + close);
        if parts.len() == 0 {
            assert(inner + close =~= close);
            lemma_skip_nothing(close);
            assert(close.drop_first() =~= rest);
            assert(vs =~= seq![]);
        } else {
            let u = skip_ws(inner + close);
            lemma_join_begins(parts, vs);
            lemma_skip_then(inner, close);
            lemma_skip_ws(inner + close);
            lemma_skip_nothing(u);
            lemma_items(u, parts, vs, seq![], rest);
            assert(Seq::<Value>::empty() + vs =~= vs);
        }
    }
}

/// What joins pieces begins as the first of them does.
proof fn lemma_join_begins(parts: Seq<Seq<char>>, vs: Seq<Value>)
    requires
        all_say(parts, vs),
        parts.len() > 0,
    ensures
        skip_ws(join(parts, seq![','])).len() > 0,
        skip_ws(join(parts, seq![',']))[0] != ']',
        skip_ws(join(parts, seq![',']))[0] != '}',
{
    let sep = seq![','];
    assert(says(parts[0], vs[0]));
    if parts.len() > 1 {
        lemma_join_front(parts, sep);
        let more = sep + join(parts.drop_first(), sep);
        assert(join(parts, sep) =~= parts[0] + more);
        lemma_skip_then(parts[0], more);
    }
}

// ── objects ────────────────────────────────────────────────────────────

/// A text behind one more character.
pub open spec fn behind_char(c: char, rest: Seq<char>) -> Seq<char> {
    seq![c] + rest
}

/// A key, a colon and the text of a value.
pub open spec fn member_text(key: Seq<char>, t: Seq<char>) -> Seq<char> {
    seq!['"'] + key + seq!['"', ':'] + t
}

/// Does this text list these members? They count when the object is closed, and
/// when more members follow.
pub closed spec fn lists(s: Seq<char>, m: Map<Seq<char>, Value>) -> bool {
    &&& skip_ws(s).len() > 0
    &&& skip_ws(s)[0] == '"'
    &&& forall|rest: Seq<char>, before: Map<Seq<char>, Value>| #[trigger]
        members_at(s + behind_char('}', rest), before) == Ok::<(Value, Seq<char>), Seq<char>>(
            (Value::Obj(before.union_prefer_right(m)), rest),
        )
    &&& forall|rest: Seq<char>, before: Map<Seq<char>, Value>| #[trigger]
        members_at(s + behind_char(',', rest), before) == members_at(
            rest,
            before.union_prefer_right(m),
        )
}

/// What is read of one member and what follows it.
proof fn lemma_member(
    lead: Seq<char>,
    key: Seq<char>,
    t: Seq<char>,
    v: Value,
    c: char,
    rest: Seq<char>,
    before: Map<Seq<char>, Value>,
)
    requires
        all_blank(lead),
        plain(key),
        says(t, v),
        c == ',' || c == '}',
    ensures
        members_at(lead + member_text(key, t) + behind_char(c, rest), before) == if c == ',' {
            members_at(rest, before.insert(key, v))
        } else {
            Ok::<(Value, Seq<char>), Seq<char>>((Value::Obj(before.insert(key, v)), rest))
        },
{
    let q = seq!['"'];
    let after = behind_char(c, rest);
    let s = lead + member_text(key, t) + after;
    let colon = seq![':'] + (t + after);
    let open = q + (key + (q + colon));
    assert(s =~= lead + open);
    lemma_skip_blanks(lead, open);
    lemma_skip_nothing(open);
    assert(open.drop_first() =~= key + (q + colon));
    lemma_plain_chars(key, q + colon);
    assert((q + colon).drop_first() =~= colon);
    assert(string_at(q + colon) == Ok::<(Seq<char>, Seq<char>), Seq<char>>((seq![], colon)));
    assert(key + seq![] =~= key);
    lemma_skip_nothing(colon);
    assert(colon.drop_first() =~= t + after);
    assert(may_follow(after));
    lemma_skip_nothing(after);
    assert(after.drop_first() =~= rest);
    lemma_skip_ws(t + after);
}

/// One member, perhaps behind blanks.
pub proof fn lemma_first_member(lead: Seq<char>, key: Seq<char>, t: Seq<char>, v: Value)
    requires
        all_blank(lead),
        plain(key),
        says(t, v),
    ensures
        lists(lead + member_text(key, t), Map::empty().insert(key, v)),
{
    let s = lead + member_text(key, t);
    let m = Map::<Seq<char>, Value>::empty().insert(key, v);
    lemma_skip_blanks(lead, member_text(key, t));
    lemma_skip_nothing(member_text(key, t));
    assert forall|rest: Seq<char>, before: Map<Seq<char>, Value>| #[trigger]
        members_at(s + behind_char('}', rest), before) == Ok::<(Value, Seq<char>), Seq<char>>(
            (Value::Obj(before.union_prefer_right(m)), rest),
        ) by {
        lemma_member(lead, key, t, v, '}', rest, before);
        assert(before.insert(key, v) =~= before.union_prefer_right(m));
    }
    assert forall|rest: Seq<char>, before: Map<Seq<char>, Value>| #[trigger]
        members_at(s + behind_char(',', rest), before) == members_at(
            rest,
            before.union_prefer_right(m),
        ) by {
        lemma_member(lead, key, t, v, ',', rest, before);
        assert(before.insert(key, v) =~= before.union_prefer_right(m));
    }
}

/// One member more.
pub proof fn lemma_next_member(
    s: Seq<char>,
    m: Map<Seq<char>, Value>,
    lead: Seq<char>,
    key: Seq<char>,
    t: Seq<char>,
    v: Value,
)
    requires
        lists(s, m),
        all_blank(lead),
        plain(key),
        says(t, v),
    ensures
        lists(s + behind_char(',', lead + member_text(key, t)), m.insert(key, v)),
{
    let more = lead + member_text(key, t);
    let full = s + behind_char(',', more);
    lemma_skip_then(s, behind_char(',', more));
    assert forall|rest: Seq<char>, before: Map<Seq<char>, Value>| #[trigger]
        members_at(full + behind_char('}', rest), before) == Ok::<(Value, Seq<char>), Seq<char>>(
            (Value::Obj(before.union_prefer_right(m.insert(key, v))), rest),
        ) by {
        let tail = more + behind_char('}', rest);
        assert(full + behind_char('}', rest) =~= s + behind_char(',', tail));
        lemma_member(lead, key, t, v, '}', rest, before.union_prefer_right(m));
        assert(before.union_prefer_right(m).insert(key, v) =~= before.union_prefer_right(
            m.insert(key, v),
        ));
    }
    assert forall|rest: Seq<char>, before: Map<Seq<char>, Value>| #[trigger]
        members_at(full + behind_char(',', rest), before) == members_at(
            rest,
            before.union_prefer_right(m.insert(key, v)),
        ) by {
        let tail = more + behind_char(',', rest);
        assert(full + behind_char(',', rest) =~= s + behind_char(',', tail));
        lemma_member(lead, key, t, v, ',', rest, before.union_prefer_right(m));
        assert(before.union_prefer_right(m).insert(key, v) =~= before.union_prefer_right(
            m.insert(key, v),
        ));
    }
}

/// Is this the text of an object up to its closing brace, perhaps behind
/// blanks?
pub closed spec fn opens(p: Seq<char>, m: Map<Seq<char>, Value>) -> bool {
    let q = skip_ws(p);
    q.len() > 0 && q[0] == '{' && lists(q.drop_first(), m)
}

/// An object is complete with its closing brace.
pub proof fn lemma_object_says(p: Seq<char>, m: Map<Seq<char>, Value>)
    requires
        opens(p, m),
    ensures
        says(p + seq!['}'], Value::Obj(m)),
{
    let q = skip_ws(p);
    let l = q.drop_first();
    let s = p + seq!['}'];
    lemma_skip_then(p, seq!['}']);
    assert forall|rest: Seq<char>| #[trigger] may_follow(rest) implies {
        let r = value_at(s + rest);
        &&& r is Ok
        &&& (r->Ok_0).0 == Value::Obj(m)
        &&& skip_ws((r->Ok_0).1) == skip_ws(rest)
        &&& (r->Ok_0).1.len() < skip_ws(s + rest).len()
    } by {
        let all = s + rest;
        let inner = l + behind_char('}', rest);
        lemma_skip_then(s, rest);
        assert(skip_ws(all).drop_first() =~= inner);
        lemma_skip_then(l, behind_char('}', rest));
        let u = skip_ws(inner);
        lemma_skip_nothing(u);
        lemma_same_members(u, inner, Map::empty());
        assert(Map::<Seq<char>, Value>::empty().union_prefer_right(m) =~= m);
    }
}

/// Blanks before the first member do not count.
proof fn lemma_same_members(s: Seq<char>, t: Seq<char>, before: Map<Seq<char>, Value>)
    requires
        skip_ws(s) == skip_ws(t),
    ensures
        members_at(s, before) == members_at(t, before),
{
}

/// The opening brace and the first member.
pub proof fn lemma_open(lit: Seq<char>, lead: Seq<char>, key: Seq<char>, t: Seq<char>, v: Value)
    requires
        skip_ws(lit) == seq!['{'] + lead + seq!['"'] + key + seq!['"', ':'],
        all_blank(lead),
        plain(key),
        says(t, v),
    ensures
        opens(lit + t, Map::empty().insert(key, v)),
{
    lemma_first_member(lead, key, t, v);
    lemma_skip_then(lit, t);
    assert(skip_ws(lit + t).drop_first() =~= lead + member_text(key, t));
}

/// A further member.
pub proof fn lemma_add(
    p: Seq<char>,
    m: Map<Seq<char>, Value>,
    lit: Seq<char>,
    lead: Seq<char>,
    key: Seq<char>,
    t: Seq<char>,
    v: Value,
)
    requires
        opens(p, m),
        lit == seq![','] + lead + seq!['"'] + key + seq!['"', ':'],
        all_blank(lead),
        plain(key),
        says(t, v),
    ensures
        opens(p + lit + t, m.insert(key, v)),
{
    let q = skip_ws(p);
    lemma_next_member(q.drop_first(), m, lead, key, t, v);
    lemma_assoc(p, lit, t);
    lemma_skip_then(p, lit + t);
    assert((q + (lit + t)).drop_first() =~= q.drop_first() + behind_char(
        ',',
        lead + member_text(key, t),
    ));
}

/// A comma, a key and a colon.
pub open spec fn key_mark(key: Seq<char>) -> Seq<char> {
    seq![','] + seq![] + seq!['"'] + key + seq!['"', ':']
}

/// A comma, a key and a colon, with blanks between.
pub open spec fn spaced_mark(key: Seq<char>) -> Seq<char> {
    seq![',', ' ', '"'] + key + seq!['"', ':', ' ']
}

/// A word between quotes.
pub open spec fn quoted(w: Seq<char>) -> Seq<char> {
    seq!['"'] + w + seq!['"']
}

/// Text between square brackets.
pub open spec fn bracketed(inner: Seq<char>) -> Seq<char> {
    seq!['['] + inner + seq![']']
}

/// A quote that a literal ends with belongs to the word behind it.
pub proof fn lemma_requote(p: Seq<char>, mark: Seq<char>, w: Seq<char>, next: Seq<char>)
    ensures
        p + (mark + seq!['"']) + w + (seq!['"'] + next) == p + mark + quoted(w) + next,
{
    assert(p + (mark + seq!['"']) + w + (seq!['"'] + next) =~= p + mark + quoted(w) + next);
}

/// A bracket that a literal ends with belongs to the array behind it.
pub proof fn lemma_rebracket(p: Seq<char>, mark: Seq<char>, inner: Seq<char>, next: Seq<char>)
    ensures
        p + (mark + seq!['[']) + inner + (seq![']'] + next) == p + mark + bracketed(inner) + next,
{
    assert(p + (mark + seq!['[']) + inner + (seq![']'] + next) =~= p + mark + bracketed(inner)
        + next);
}

/// A member whose value is a word.
pub proof fn lemma_add_word(p: Seq<char>, m: Map<Seq<char>, Value>, key: Seq<char>, w: Seq<char>)
    requires
        opens(p, m),
        plain(key),
        plain(w),
    ensures
        opens(p + key_mark(key) + quoted(w), m.insert(key, Value::Str(w))),
{
    lemma_word_reads_back(w);
    lemma_add(p, m, key_mark(key), seq![], key, quoted(w), Value::Str(w));
}

/// A member with blanks before its key and its value.
pub proof fn lemma_add_spaced(
    p: Seq<char>,
    m: Map<Seq<char>, Value>,
    key: Seq<char>,
    t: Seq<char>,
    v: Value,
)
    requires
        opens(p, m),
        plain(key),
        says(t, v),
    ensures
        opens(p + spaced_mark(key) + t, m.insert(key, v)),
{
    let lit = seq![','] + seq![' '] + seq!['"'] + key + seq!['"', ':'];
    lemma_says_between_blanks(seq![' '], t, seq![], v);
    let padded = seq![' '] + t + seq![];
    lemma_add(p, m, lit, seq![' '], key, padded, v);
    assert(p + lit + padded =~= p + spaced_mark(key) + t);
}

/// The opening brace and the first member, with a blank before its value.
pub proof fn lemma_open_spaced(
    lit: Seq<char>,
    lead: Seq<char>,
    key: Seq<char>,
    t: Seq<char>,
    v: Value,
)
    requires
        skip_ws(lit) == seq!['{'] + lead + seq!['"'] + key + seq!['"', ':', ' '],
        all_blank(lead),
        plain(key),
        says(t, v),
    ensures
        opens(lit + t, Map::empty().insert(key, v)),
{
    lemma_says_between_blanks(seq![' '], t, seq![], v);
    let padded = seq![' '] + t + seq![];
    lemma_first_member(lead, key, padded, v);
    lemma_skip_then(lit, t);
    assert(skip_ws(lit + t).drop_first() =~= lead + member_text(key, padded));
}

/// Nothing but blanks between square brackets is an empty array.
pub proof fn lemma_empty_array_says(blanks: Seq<char>)
    requires
        all_blank(blanks),
    ensures
        says(bracketed(blanks), Value::Arr(seq![])),
{
    let s = bracketed(blanks);
    lemma_skip_nothing(s);
    assert forall|rest: Seq<char>| #[trigger] may_follow(rest) implies {
        let r = value_at(s + rest);
        &&& r is Ok
        &&& (r->Ok_0).0 == Value::Arr(seq![])
        &&& skip_ws((r->Ok_0).1) == skip_ws(rest)
        &&& (r->Ok_0).1.len() < skip_ws(s + rest).len()
    } by {
        let all = s + rest;
        let close = seq![']'] + rest;
        lemma_skip_nothing(all);
        assert(all.drop_first() =~= blanks + close);
        lemma_skip_blanks(blanks, close);
        lemma_skip_nothing(close);
        assert(close.drop_first() =~= rest);
    }
}

} // verus!
