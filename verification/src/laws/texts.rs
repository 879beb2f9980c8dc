//! What stands in a text, told character by character.

use vstd::prelude::*;

use crate::text::{
    all_digits, decimal, digit_char, digit_value, digits_value, find, is_space, lemma_find, lines,
    pad_left, pad_right, parse_i64, parse_u64, trim, trim_end, trim_start, word_len, words,
};

verus! {

// ── numbers ────────────────────────────────────────────────────────────

proof fn lemma_digit(d: nat)
    requires
        d < 10,
    ensures
        digit_value(digit_char(d), 10) == Some(d),
        '0' <= digit_char(d) <= '9',
{
}

proof fn lemma_decimal_counts(n: nat)
    ensures
        decimal(n).len() > 0,
        all_digits(decimal(n), 10),
        digits_value(decimal(n), 10) == n,
        '0' <= decimal(n)[0] <= '9',
    decreases n,
{
    let s = decimal(n);
    if n < 10 {
        lemma_digit(n);
        assert(s.drop_last() =~= seq![]);
        assert(s.last() == digit_char(n));
        assert(digits_value(seq![], 10) == 0);
        assert forall|i: int| 0 <= i < s.len() implies digit_value(#[trigger] s[i], 10) is Some by {
            assert(s[i] == digit_char(n));
        }
    } else {
        let t = decimal(n / 10);
        lemma_decimal_counts(n / 10);
        lemma_digit(n % 10);
        assert(s.drop_last() =~= t);
        assert(s.last() == digit_char(n % 10));
        assert forall|i: int| 0 <= i < s.len() implies digit_value(#[trigger] s[i], 10) is Some by {
            if i < t.len() {
                assert(s[i] == t[i]);
            }
        }
        assert(s[0] == t[0]);
    }
}

/// **A number reads as what it is written as**, with a plus sign in front or
/// without, and with a minus sign as the negative one; not beyond what can be
/// held.
pub proof fn lemma_a_number_reads_as_written(n: nat)
    ensures
        n <= u64::MAX ==> parse_u64(decimal(n)) == Some(n) && parse_u64(seq!['+'] + decimal(n))
            == Some(n),
        n > u64::MAX ==> parse_u64(decimal(n)) is None,
        n <= i64::MAX ==> parse_i64(decimal(n)) == Some(n as int),
        n > i64::MAX ==> parse_i64(decimal(n)) is None,
        n <= 0x8000_0000_0000_0000 ==> parse_i64(seq!['-'] + decimal(n)) == Some(-(n as int)),
        n > 0x8000_0000_0000_0000 ==> parse_i64(seq!['-'] + decimal(n)) is None,
        parse_u64(seq!['-'] + decimal(n)) is None,
        parse_u64(seq![]) is None,
        parse_i64(seq![]) is None,
{
    let d = decimal(n);
    lemma_decimal_counts(n);
    let p = seq!['+'] + d;
    let m = seq!['-'] + d;
    assert(p.drop_first() =~= d);
    assert(m.drop_first() =~= d);
    assert(m[0] == '-');
    assert(digit_value('-', 10) is None);
    assert(!all_digits(m, 10)) by {
        assert(digit_value(m[0], 10) is None);
    }
}

/// **What holds anything but digits is no number.**
pub proof fn lemma_what_is_no_number(s: Seq<char>, k: int)
    requires
        0 <= k < s.len(),
        !('0' <= s[k] <= '9'),
        k > 0 || (s[k] != '+' && s[k] != '-'),
    ensures
        parse_u64(s) is None,
        parse_i64(s) is None,
{
    assert(digit_value(s[k], 10) is None);
    let t = s.drop_first();
    if k > 0 {
        assert(t[k - 1] == s[k]);
    }
}

/// **A digit in hexadecimal**, in either case.
pub proof fn lemma_a_digit_in_hexadecimal(c: char)
    ensures
        '0' <= c <= '9' ==> digit_value(c, 16) == Some((c as int - 48) as nat),
        'a' <= c <= 'f' ==> digit_value(c, 16) == Some((c as int - 87) as nat),
        'A' <= c <= 'F' ==> digit_value(c, 16) == Some((c as int - 55) as nat),
        !('0' <= c <= '9') && !('a' <= c <= 'f') && !('A' <= c <= 'F') ==> digit_value(
            c,
            16,
        ) is None,
{
}

/// **Digits count by their places.**
pub proof fn lemma_digits_count_by_their_places(s: Seq<char>, c: char, base: nat)
    requires
        all_digits(s, base),
        digit_value(c, base) is Some,
    ensures
        all_digits(s.push(c), base),
        digits_value(s.push(c), base) == digits_value(s, base) * base + digit_value(c, base)->0,
{
    let t = s.push(c);
    assert(t.drop_last() =~= s);
    assert forall|i: int| 0 <= i < t.len() implies digit_value(#[trigger] t[i], base) is Some by {
        if i < s.len() {
            assert(t[i] == s[i]);
        }
    }
}

// ── blanks ─────────────────────────────────────────────────────────────

/// **Which plain characters are blanks.**
pub proof fn lemma_which_plain_characters_are_blanks(c: char)
    requires
        (c as u32) < 0x80,
    ensures
        is_space(c) <==> c == ' ' || c == '\t' || c == '\n' || c == '\r' || c == '\u{b}' || c
            == '\u{c}',
{
}

proof fn lemma_trim_start(s: Seq<char>) -> (a: int)
    ensures
        0 <= a <= s.len(),
        trim_start(s) == s.skip(a),
        forall|i: int| 0 <= i < a ==> is_space(#[trigger] s[i]),
        a < s.len() ==> !is_space(s[a]),
    decreases s.len(),
{
    if s.len() > 0 && is_space(s[0]) {
        let t = s.drop_first();
        let a = lemma_trim_start(t);
        assert(s.skip(a + 1) =~= t.skip(a));
        assert forall|i: int| 0 <= i < a + 1 implies is_space(#[trigger] s[i]) by {
            if i > 0 {
                assert(s[i] == t[i - 1]);
            }
        }
        a + 1
    } else {
        assert(s.skip(0) =~= s);
        0
    }
}

proof fn lemma_trim_end(s: Seq<char>) -> (b: int)
    ensures
        0 <= b <= s.len(),
        trim_end(s) == s.take(b),
        forall|i: int| b <= i < s.len() ==> is_space(#[trigger] s[i]),
        b > 0 ==> !is_space(s[b - 1]),
    decreases s.len(),
{
    if s.len() > 0 && is_space(s.last()) {
        let t = s.drop_last();
        let b = lemma_trim_end(t);
        assert(s.take(b) =~= t.take(b));
        assert forall|i: int| b <= i < s.len() implies is_space(#[trigger] s[i]) by {
            if i < t.len() {
                assert(s[i] == t[i]);
            }
        }
        b
    } else {
        assert(s.take(s.len() as int) =~= s);
        s.len() as int
    }
}

/// **Trimming takes the blanks at both ends, and nothing else.**
pub proof fn lemma_trimming_takes_the_blanks_at_both_ends(s: Seq<char>) -> (ab: (int, int))
    ensures
        0 <= ab.0 <= ab.1 <= s.len(),
        trim(s) == s.subrange(ab.0, ab.1),
        forall|i: int| 0 <= i < ab.0 ==> is_space(#[trigger] s[i]),
        forall|i: int| ab.1 <= i < s.len() ==> is_space(#[trigger] s[i]),
        ab.0 < ab.1 ==> !is_space(s[ab.0]) && !is_space(s[ab.1 - 1]),
{
    let a = lemma_trim_start(s);
    let t = s.skip(a);
    let b = lemma_trim_end(t);
    assert(t.take(b) =~= s.subrange(a, a + b));
    assert forall|i: int| a + b <= i < s.len() implies is_space(#[trigger] s[i]) by {
        assert(t[i - a] == s[i]);
    }
    if b > 0 {
        assert(t[b - 1] == s[a + b - 1]);
        if is_space(s[a]) {
            assert(a >= s.len());
        }
    }
    (a, a + b)
}

// ── words ──────────────────────────────────────────────────────────────

/// Is there no blank in it?
pub open spec fn unbroken(w: Seq<char>) -> bool {
    forall|i: int| 0 <= i < w.len() ==> !is_space(#[trigger] w[i])
}

proof fn lemma_word_len(w: Seq<char>, rest: Seq<char>)
    requires
        unbroken(w),
        rest.len() == 0 || is_space(rest[0]),
    ensures
        word_len(w + rest) == w.len(),
    decreases w.len(),
{
    let s = w + rest;
    if w.len() == 0 {
        assert(s =~= rest);
    } else {
        let t = w.drop_first();
        assert(!is_space(w[0]));
        assert forall|i: int| 0 <= i < t.len() implies !is_space(#[trigger] t[i]) by {
            assert(t[i] == w[i + 1]);
        }
        lemma_word_len(t, rest);
        assert(s.drop_first() =~= t + rest);
        assert(s[0] == w[0]);
    }
}

/// **Words are what blanks part.** A blank in front changes nothing, and what
/// stands before the next blank is a word.
pub proof fn lemma_words_are_what_blanks_part(w: Seq<char>, c: char, rest: Seq<char>)
    requires
        unbroken(w),
        w.len() > 0,
        is_space(c),
    ensures
        words(seq![c] + rest) == words(rest),
        words(w + seq![c] + rest) == seq![w] + words(rest),
        words(w) == seq![w],
        words(seq![]) == Seq::<Seq<char>>::empty(),
{
    // A blank in front.
    let b = seq![c] + rest;
    assert(b[0] == c);
    assert(b.drop_first() =~= rest);
    assert(trim_start(b) == trim_start(rest));
    assert(words(b) == words(rest));
    // A word and what follows it.
    let s = w + seq![c] + rest;
    let tail = seq![c] + rest;
    assert(s =~= w + tail);
    lemma_word_len(w, tail);
    assert(!is_space(w[0]));
    assert(s[0] == w[0]);
    assert(trim_start(s) == s);
    assert(s.take(w.len() as int) =~= w);
    assert(s.skip(w.len() as int) =~= tail);
    assert(words(s) == seq![w] + words(tail));
    // A word alone.
    let e = Seq::<char>::empty();
    lemma_word_len(w, e);
    assert(w + e =~= w);
    assert(trim_start(w) == w);
    assert(w.take(w.len() as int) =~= w);
    assert(w.skip(w.len() as int) =~= e);
    assert(trim_start(e) == e);
    assert(words(e) =~= seq![]);
    assert(words(w) =~= seq![w]);
}

/// **Padding fills up with blanks, and cuts nothing.**
pub proof fn lemma_padding_fills_up(s: Seq<char>, width: int)
    ensures
        pad_right(s, width).len() == if s.len() < width {
            width
        } else {
            s.len() as int
        },
        pad_right(s, width).take(s.len() as int) == s,
        pad_left(s, width).len() == pad_right(s, width).len(),
        pad_left(s, width).skip(pad_left(s, width).len() - s.len()) == s,
        forall|i: int|
            s.len() <= i < pad_right(s, width).len() ==> #[trigger] pad_right(s, width)[i] == ' ',
        forall|i: int|
            0 <= i < pad_left(s, width).len() - s.len() ==> #[trigger] pad_left(s, width)[i] == ' ',
{
    assert(pad_right(s, width).take(s.len() as int) =~= s);
    assert(pad_left(s, width).skip(pad_left(s, width).len() - s.len()) =~= s);
}

// ── lines ──────────────────────────────────────────────────────────────

/// **A line goes to the next line feed**, and a carriage return in front of it
/// belongs to it.
pub proof fn lemma_a_line_goes_to_the_next_line_feed(line: Seq<char>, rest: Seq<char>)
    requires
        forall|i: int| 0 <= i < line.len() ==> #[trigger] line[i] != '\n',
    ensures
        line.len() == 0 || line.last() != '\r' ==> lines(line + seq!['\n'] + rest) == seq![line]
            + lines(rest),
        lines(line + seq!['\r', '\n'] + rest) == seq![line] + lines(rest),
        line.len() > 0 ==> lines(line) == seq![line],
        lines(seq![]) == Seq::<Seq<char>>::empty(),
{
    let s = line + seq!['\n'] + rest;
    let n = line.len() as int;
    lemma_line_feed(line, s, n);
    assert(s.take(n) =~= line);
    assert(s.skip(n + 1) =~= rest);
    let r = line + seq!['\r', '\n'] + rest;
    let full = line + seq!['\r'];
    assert forall|i: int| 0 <= i < full.len() implies #[trigger] full[i] != '\n' by {
        if i < n {
            assert(full[i] == line[i]);
        }
    }
    lemma_line_feed(full, r, n + 1);
    assert(r.take(n + 1) =~= full);
    assert(full.drop_last() =~= line);
    assert(r.skip(n + 2) =~= rest);
    lemma_find(line, '\n');
    if find(line, '\n') < line.len() {
        assert(line[find(line, '\n') as int] != '\n');
    }
}

proof fn lemma_line_feed(line: Seq<char>, s: Seq<char>, n: int)
    requires
        n == line.len(),
        n < s.len(),
        s[n] == '\n',
        forall|i: int| 0 <= i < n ==> #[trigger] s[i] == line[i],
        forall|i: int| 0 <= i < n ==> #[trigger] line[i] != '\n',
    ensures
        find(s, '\n') == n,
{
    lemma_find(s, '\n');
    let k = find(s, '\n') as int;
    if k < n {
        assert(s[k] == line[k]);
    }
    if k > n {
        assert(s[n] != '\n');
    }
}

} // verus!
