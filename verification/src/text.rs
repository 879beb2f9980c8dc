//! Text as sequences of characters.
//!
//! Every parser of this crate works on `&[char]`, so that positions are
//! character positions and no slice can fall inside a character. The functions
//! here are the vocabulary the parsers share; each has a specification function
//! of the same meaning.

use vstd::prelude::*;
use vstd::utf8::{encode_scalar, encode_utf8};
use vstd::slice::slice_subrange;

verus! {

/// Trusted: `String::push` appends one character and changes nothing else.
pub assume_specification[ String::push ](s: &mut String, c: char)
    ensures
        final(s)@ == old(s)@.push(c),
;

/// Trusted: `String::push_str` appends the given text and changes nothing else.
pub assume_specification[ String::push_str ](s: &mut String, t: &str)
    ensures
        final(s)@ == old(s)@ + t@,
;

/// The characters of each text of a list.
pub open spec fn texts(v: Seq<String>) -> Seq<Seq<char>> {
    Seq::new(v.len(), |i: int| v[i]@)
}

/// Append a text to a list.
pub fn push_text(v: &mut Vec<String>, s: String)
    ensures
        texts(final(v)@) == texts(old(v)@).push(s@),
{
    let ghost before = v@;
    v.push(s);
    assert(texts(v@) =~= texts(before).push(s@));
}

/// The same texts again.
pub fn copy_texts(v: &Vec<String>) -> (r: Vec<String>)
    ensures
        texts(r@) == texts(v@),
{
    let mut out: Vec<String> = Vec::new();
    let mut i: usize = 0;
    assert(texts(out@) =~= texts(v@).take(0));
    while i < v.len()
        invariant
            i <= v@.len(),
            texts(out@) == texts(v@).take(i as int),
        decreases v@.len() - i,
    {
        push_text(&mut out, copy_text(v[i].as_str()));
        assert(texts(v@).take(i + 1) =~= texts(v@).take(i as int).push(v@[i as int]@));
        i += 1;
    }
    assert(texts(v@).take(i as int) =~= texts(v@));
    out
}

/// The characters of each run of a list.
pub open spec fn runs(v: Seq<Vec<char>>) -> Seq<Seq<char>> {
    Seq::new(v.len(), |i: int| v[i]@)
}

/// Append a run of characters to a list.
pub fn push_chars_run(v: &mut Vec<Vec<char>>, s: Vec<char>)
    ensures
        runs(final(v)@) == runs(old(v)@).push(s@),
{
    let ghost before = v@;
    v.push(s);
    assert(runs(v@) =~= runs(before).push(s@));
}

/// The characters of a text.
pub fn to_chars(s: &str) -> (r: Vec<char>)
    ensures
        r@ == s@,
{
    let mut out: Vec<char> = Vec::new();
    for c in it: s.chars()
        invariant
            it.seq() == s@,
            out@ == it.seq().take(it.index() as int),
    {
        out.push(c);
    }
    out
}

/// The text made of the given characters.
pub fn from_chars(s: &[char]) -> (r: String)
    ensures
        r@ == s@,
{
    let mut out: String = String::new();
    let mut i: usize = 0;
    while i < s.len()
        invariant
            i <= s@.len(),
            out@ == s@.take(i as int),
        decreases s@.len() - i,
    {
        out.push(s[i]);
        i += 1;
    }
    out
}

/// An owned copy of some characters.
pub fn copy_chars(s: &[char]) -> (r: Vec<char>)
    ensures
        r@ == s@,
{
    let mut out: Vec<char> = Vec::new();
    let mut i: usize = 0;
    while i < s.len()
        invariant
            i <= s@.len(),
            out@ == s@.take(i as int),
        decreases s@.len() - i,
    {
        out.push(s[i]);
        i += 1;
    }
    out
}

/// Are two runs of characters the same?
pub fn same_chars(a: &[char], b: &[char]) -> (r: bool)
    ensures
        r == (a@ == b@),
{
    if a.len() != b.len() {
        return false;
    }
    let mut i: usize = 0;
    while i < a.len()
        invariant
            i <= a@.len(),
            a@.len() == b@.len(),
            a@.take(i as int) == b@.take(i as int),
        decreases a@.len() - i,
    {
        if a[i] != b[i] {
            return false;
        }
        assert(a@.take(i + 1) =~= a@.take(i as int).push(a@[i as int]));
        assert(b@.take(i + 1) =~= b@.take(i as int).push(b@[i as int]));
        i += 1;
    }
    assert(a@.take(i as int) == a@);
    assert(b@.take(i as int) == b@);
    true
}

/// Is this run of characters the given text?
pub fn is_text(a: &[char], b: &str) -> (r: bool)
    ensures
        r == (a@ == b@),
{
    let b: Vec<char> = to_chars(b);
    same_chars(a, &b)
}

/// Are two texts the same?
pub fn same_text(a: &str, b: &str) -> (r: bool)
    ensures
        r == (a@ == b@),
{
    let a: Vec<char> = to_chars(a);
    is_text(&a, b)
}

/// An owned copy of a text.
pub fn copy_text(s: &str) -> (r: String)
    ensures
        r@ == s@,
{
    let mut out: String = String::new();
    out.push_str(s);
    out
}

// ---------------------------------------------------------------- prefixes

/// Does the text begin with `p`?
pub open spec fn starts_with(s: Seq<char>, p: Seq<char>) -> bool {
    p.len() <= s.len() && s.take(p.len() as int) == p
}

/// Does the text end with `p`?
pub open spec fn ends_with(s: Seq<char>, p: Seq<char>) -> bool {
    p.len() <= s.len() && s.skip(s.len() - p.len()) == p
}

pub fn has_prefix(s: &[char], p: &str) -> (r: bool)
    ensures
        r == starts_with(s@, p@),
        r ==> p@.len() <= s@.len(),
{
    let p: Vec<char> = to_chars(p);
    if s.len() < p.len() {
        return false;
    }
    same_chars(slice_subrange(s, 0, p.len()), &p)
}

pub fn has_suffix(s: &[char], p: &str) -> (r: bool)
    ensures
        r == ends_with(s@, p@),
        r ==> p@.len() <= s@.len(),
{
    let p: Vec<char> = to_chars(p);
    if s.len() < p.len() {
        return false;
    }
    assert(s@.skip(s@.len() - p@.len()) =~= s@.subrange(s@.len() - p@.len(), s@.len() as int));
    same_chars(slice_subrange(s, s.len() - p.len(), s.len()), &p)
}

/// What follows the prefix `p`, where the text has it.
pub open spec fn after_prefix(s: Seq<char>, p: Seq<char>) -> Option<Seq<char>> {
    if starts_with(s, p) {
        Some(s.skip(p.len() as int))
    } else {
        None
    }
}

pub fn strip_prefix<'a>(s: &'a [char], p: &str) -> (r: Option<&'a [char]>)
    ensures
        r is Some == after_prefix(s@, p@) is Some,
        r matches Some(t) ==> t@ == after_prefix(s@, p@)->0,
{
    let n: usize = to_chars(p).len();
    if has_prefix(s, p) {
        assert(s@.skip(n as int) =~= s@.subrange(n as int, s@.len() as int));
        Some(slice_subrange(s, n, s.len()))
    } else {
        None
    }
}

/// What stands before the suffix `p`, where the text has it.
pub open spec fn before_suffix(s: Seq<char>, p: Seq<char>) -> Option<Seq<char>> {
    if ends_with(s, p) {
        Some(s.take(s.len() - p.len()))
    } else {
        None
    }
}

pub fn strip_suffix<'a>(s: &'a [char], p: &str) -> (r: Option<&'a [char]>)
    ensures
        r is Some == before_suffix(s@, p@) is Some,
        r matches Some(t) ==> t@ == before_suffix(s@, p@)->0,
{
    let n: usize = to_chars(p).len();
    if has_suffix(s, p) {
        assert(s@.take(s@.len() - n) =~= s@.subrange(0, s@.len() - n));
        Some(slice_subrange(s, 0, s.len() - n))
    } else {
        None
    }
}

// -------------------------------------------------------------- whitespace

/// The characters with the Unicode property White_Space.
pub open spec fn is_space(c: char) -> bool {
    ||| '\u{9}' <= c <= '\u{d}'
    ||| c == ' '
    ||| c == '\u{85}'
    ||| c == '\u{a0}'
    ||| c == '\u{1680}'
    ||| '\u{2000}' <= c <= '\u{200a}'
    ||| c == '\u{2028}'
    ||| c == '\u{2029}'
    ||| c == '\u{202f}'
    ||| c == '\u{205f}'
    ||| c == '\u{3000}'
}

pub fn whitespace(c: char) -> (r: bool)
    ensures
        r == is_space(c),
{
    ('\u{9}' <= c && c <= '\u{d}') || c == ' ' || c == '\u{85}' || c == '\u{a0}' || c == '\u{1680}'
        || ('\u{2000}' <= c && c <= '\u{200a}') || c == '\u{2028}' || c == '\u{2029}' || c
        == '\u{202f}' || c == '\u{205f}' || c == '\u{3000}'
}

/// The text without leading whitespace.
pub open spec fn trim_start(s: Seq<char>) -> Seq<char>
    decreases s.len(),
{
    if s.len() > 0 && is_space(s[0]) {
        trim_start(s.drop_first())
    } else {
        s
    }
}

/// The text without trailing whitespace.
pub open spec fn trim_end(s: Seq<char>) -> Seq<char>
    decreases s.len(),
{
    if s.len() > 0 && is_space(s.last()) {
        trim_end(s.drop_last())
    } else {
        s
    }
}

/// The text without whitespace at either end.
pub open spec fn trim(s: Seq<char>) -> Seq<char> {
    trim_end(trim_start(s))
}

pub fn trimmed_start(s: &[char]) -> (r: &[char])
    ensures
        r@ == trim_start(s@),
{
    let mut i: usize = 0;
    assert(s@.skip(0) =~= s@);
    while i < s.len() && whitespace(s[i])
        invariant
            i <= s@.len(),
            trim_start(s@.skip(i as int)) == trim_start(s@),
        decreases s@.len() - i,
    {
        assert(s@.skip(i as int).drop_first() =~= s@.skip(i + 1));
        i += 1;
    }
    assert(s@.skip(i as int) =~= s@.subrange(i as int, s@.len() as int));
    slice_subrange(s, i, s.len())
}

pub fn trimmed_end(s: &[char]) -> (r: &[char])
    ensures
        r@ == trim_end(s@),
{
    let mut j: usize = s.len();
    assert(s@.take(s@.len() as int) =~= s@);
    while j > 0 && whitespace(s[j - 1])
        invariant
            j <= s@.len(),
            trim_end(s@.take(j as int)) == trim_end(s@),
        decreases j,
    {
        assert(s@.take(j as int).drop_last() =~= s@.take(j - 1));
        j -= 1;
    }
    assert(s@.take(j as int) =~= s@.subrange(0, j as int));
    slice_subrange(s, 0, j)
}

pub fn trimmed(s: &[char]) -> (r: &[char])
    ensures
        r@ == trim(s@),
{
    trimmed_end(trimmed_start(s))
}

/// How many characters stand before the first whitespace.
pub open spec fn word_len(s: Seq<char>) -> nat
    decreases s.len(),
{
    if s.len() > 0 && !is_space(s[0]) {
        1 + word_len(s.drop_first())
    } else {
        0
    }
}

pub proof fn lemma_word_len(s: Seq<char>)
    ensures
        word_len(s) <= s.len(),
        forall|i: int| 0 <= i < word_len(s) ==> !is_space(#[trigger] s[i]),
        word_len(s) < s.len() ==> is_space(s[word_len(s) as int]),
    decreases s.len(),
{
    if s.len() > 0 && !is_space(s[0]) {
        let t = s.drop_first();
        lemma_word_len(t);
        assert forall|i: int| 0 <= i < word_len(s) implies !is_space(#[trigger] s[i]) by {
            if i > 0 {
                assert(t[i - 1] == s[i]);
            }
        }
    }
}

pub proof fn lemma_trim_start_len(s: Seq<char>)
    ensures
        trim_start(s).len() <= s.len(),
        trim_start(s).len() > 0 ==> !is_space(trim_start(s)[0]),
    decreases s.len(),
{
    if s.len() > 0 && is_space(s[0]) {
        lemma_trim_start_len(s.drop_first());
    }
}

/// The whitespace-separated words of a text, in order.
pub open spec fn words(s: Seq<char>) -> Seq<Seq<char>>
    decreases s.len(),
    via words_decreases
{
    let t = trim_start(s);
    if t.len() == 0 {
        Seq::empty()
    } else {
        seq![t.take(word_len(t) as int)] + words(t.skip(word_len(t) as int))
    }
}

#[via_fn]
proof fn words_decreases(s: Seq<char>) {
    lemma_trim_start_len(s);
    lemma_word_len(trim_start(s));
}

pub fn split_words(s: &[char]) -> (r: Vec<Vec<char>>)
    ensures
        runs(r@) == words(s@),
{
    let mut out: Vec<Vec<char>> = Vec::new();
    let mut rest: &[char] = trimmed_start(s);
    proof {
        lemma_trim_start_len(s@);
        lemma_trim_start_fixed(s@);
        lemma_words_of_trimmed(s@);
    }
    assert(runs(out@) =~= Seq::<Seq<char>>::empty());
    assert(runs(out@) + words(rest@) =~= words(s@));
    while rest.len() > 0
        invariant
            runs(out@) + words(rest@) == words(s@),
            trim_start(rest@) == rest@,
        decreases rest@.len(),
    {
        let ghost before = rest@;
        proof {
            lemma_word_len(before);
            lemma_trim_start_len(before);
        }
        let mut n: usize = 0;
        assert(before.skip(0) =~= before);
        while n < rest.len() && !whitespace(rest[n])
            invariant
                n <= rest@.len(),
                before == rest@,
                word_len(before) == n + word_len(before.skip(n as int)),
            decreases rest@.len() - n,
        {
            assert(before.skip(n as int).drop_first() =~= before.skip(n + 1));
            n += 1;
        }
        let ghost out0 = out@;
        assert(before.take(n as int) =~= before.subrange(0, n as int));
        assert(before.skip(n as int) =~= before.subrange(n as int, before.len() as int));
        out.push(copy_chars(slice_subrange(rest, 0, n)));
        let tail: &[char] = slice_subrange(rest, n, rest.len());
        proof {
            lemma_trim_start_len(tail@);
            lemma_trim_start_fixed(tail@);
            lemma_words_of_trimmed(tail@);
            assert(runs(out@) =~= runs(out0).push(before.take(n as int)));
            assert(runs(out@) + words(tail@) =~= runs(out0) + (seq![before.take(n as int)] + words(
                tail@,
            )));
        }
        rest = trimmed_start(tail);
    }
    assert(words(rest@) =~= Seq::<Seq<char>>::empty());
    assert(runs(out@) + words(rest@) =~= runs(out@));
    out
}

proof fn lemma_trim_start_fixed(s: Seq<char>)
    ensures
        trim_start(trim_start(s)) == trim_start(s),
{
    lemma_trim_start_len(s);
}

proof fn lemma_words_of_trimmed(s: Seq<char>)
    ensures
        words(trim_start(s)) == words(s),
{
    lemma_trim_start_fixed(s);
}

// ---------------------------------------------------------- single characters

/// The position of the first `c`, or the length where there is none.
pub open spec fn find(s: Seq<char>, c: char) -> nat
    decreases s.len(),
{
    if s.len() == 0 || s[0] == c {
        0
    } else {
        1 + find(s.drop_first(), c)
    }
}

pub proof fn lemma_find(s: Seq<char>, c: char)
    ensures
        find(s, c) <= s.len(),
        find(s, c) < s.len() ==> s[find(s, c) as int] == c,
        forall|i: int| 0 <= i < find(s, c) ==> #[trigger] s[i] != c,
    decreases s.len(),
{
    if s.len() > 0 && s[0] != c {
        let t = s.drop_first();
        lemma_find(t, c);
        assert forall|i: int| 0 <= i < find(s, c) implies #[trigger] s[i] != c by {
            if i > 0 {
                assert(t[i - 1] == s[i]);
            }
        }
    }
}

/// What pins `find` down.
pub proof fn lemma_find_is(s: Seq<char>, c: char, k: int)
    requires
        0 <= k <= s.len(),
        k < s.len() ==> s[k] == c,
        forall|i: int| 0 <= i < k ==> #[trigger] s[i] != c,
    ensures
        find(s, c) == k,
{
    lemma_find(s, c);
    let f = find(s, c) as int;
    if f < k {
        assert(s[f] != c);
    }
    if k < f {
        assert(s[k] != c);
    }
}

pub fn position(s: &[char], c: char) -> (r: usize)
    ensures
        r == find(s@, c),
        r <= s@.len(),
        r < s@.len() ==> s@[r as int] == c,
{
    let mut i: usize = 0;
    while i < s.len() && s[i] != c
        invariant
            i <= s@.len(),
            forall|k: int| 0 <= k < i ==> #[trigger] s@[k] != c,
        decreases s@.len() - i,
    {
        i += 1;
    }
    proof {
        lemma_find_is(s@, c, i as int);
    }
    i
}

/// One more than the position of the last `c`, or 0 where there is none.
pub open spec fn find_last(s: Seq<char>, c: char) -> nat
    decreases s.len(),
{
    if s.len() == 0 {
        0
    } else if s.last() == c {
        s.len()
    } else {
        find_last(s.drop_last(), c)
    }
}

pub proof fn lemma_find_last(s: Seq<char>, c: char)
    ensures
        find_last(s, c) <= s.len(),
        find_last(s, c) > 0 ==> s[find_last(s, c) - 1] == c,
        forall|i: int| find_last(s, c) <= i < s.len() ==> #[trigger] s[i] != c,
    decreases s.len(),
{
    if s.len() > 0 && s.last() != c {
        lemma_find_last(s.drop_last(), c);
        assert forall|i: int| find_last(s, c) <= i < s.len() implies #[trigger] s[i] != c by {
            if i < s.len() - 1 {
                assert(s.drop_last()[i] == s[i]);
            }
        }
    }
}

pub fn position_last(s: &[char], c: char) -> (r: usize)
    ensures
        r == find_last(s@, c),
        r <= s@.len(),
        r > 0 ==> s@[r - 1] == c,
{
    let mut j: usize = s.len();
    assert(s@.take(s@.len() as int) =~= s@);
    while j > 0 && s[j - 1] != c
        invariant
            j <= s@.len(),
            find_last(s@.take(j as int), c) == find_last(s@, c),
        decreases j,
    {
        assert(s@.take(j as int).drop_last() =~= s@.take(j - 1));
        j -= 1;
    }
    j
}

/// Does the character occur in the text?
pub fn has_char(s: &[char], c: char) -> (r: bool)
    ensures
        r == s@.contains(c),
{
    let i: usize = position(s, c);
    proof {
        lemma_find(s@, c);
        if s@.contains(c) {
            let k: int = choose|k: int| 0 <= k < s@.len() && s@[k] == c;
            assert(s@[k] == c);
        }
    }
    i < s.len()
}

/// The pieces between the separators, empty ones kept.
pub open spec fn split(s: Seq<char>, c: char) -> Seq<Seq<char>>
    decreases s.len(),
    via split_decreases
{
    let i = find(s, c);
    if i >= s.len() {
        seq![s]
    } else {
        seq![s.take(i as int)] + split(s.skip(i as int + 1), c)
    }
}

#[via_fn]
proof fn split_decreases(s: Seq<char>, c: char) {
    lemma_find(s, c);
}

pub fn split_char(s: &[char], c: char) -> (r: Vec<Vec<char>>)
    ensures
        runs(r@) == split(s@, c),
        r@.len() > 0,
{
    let mut out: Vec<Vec<char>> = Vec::new();
    let mut rest: &[char] = s;
    assert(runs(out@) + split(rest@, c) =~= split(s@, c));
    loop
        invariant
            runs(out@) + split(rest@, c) == split(s@, c),
        decreases rest@.len(),
    {
        let i: usize = position(rest, c);
        let ghost out0 = out@;
        if i >= rest.len() {
            out.push(copy_chars(rest));
            assert(runs(out@) =~= runs(out0) + split(rest@, c));
            return out;
        }
        let ghost before = rest@;
        assert(before.take(i as int) =~= before.subrange(0, i as int));
        assert(before.skip(i + 1) =~= before.subrange(i + 1, before.len() as int));
        out.push(copy_chars(slice_subrange(rest, 0, i)));
        rest = slice_subrange(rest, i + 1, rest.len());
        assert(runs(out@) =~= runs(out0).push(before.take(i as int)));
        assert(runs(out@) + split(rest@, c) =~= runs(out0) + (seq![before.take(i as int)] + split(
            before.skip(i + 1),
            c,
        )));
    }
}

/// A line without the carriage return that its line feed may follow.
pub open spec fn strip_cr(s: Seq<char>) -> Seq<char> {
    if s.len() > 0 && s.last() == '\r' {
        s.drop_last()
    } else {
        s
    }
}

/// The lines of a text: each ends at a line feed, with or without a carriage
/// return before it; a last line without a line feed counts, an empty one does
/// not.
pub open spec fn lines(s: Seq<char>) -> Seq<Seq<char>>
    decreases s.len(),
    via lines_decreases
{
    let i = find(s, '\n');
    if s.len() == 0 {
        Seq::empty()
    } else if i >= s.len() {
        seq![s]
    } else {
        seq![strip_cr(s.take(i as int))] + lines(s.skip(i as int + 1))
    }
}

#[via_fn]
proof fn lines_decreases(s: Seq<char>) {
    lemma_find(s, '\n');
}

pub fn split_lines(s: &[char]) -> (r: Vec<Vec<char>>)
    ensures
        runs(r@) == lines(s@),
{
    let mut out: Vec<Vec<char>> = Vec::new();
    let mut rest: &[char] = s;
    assert(runs(out@) + lines(rest@) =~= lines(s@));
    while rest.len() > 0
        invariant
            runs(out@) + lines(rest@) == lines(s@),
        decreases rest@.len(),
    {
        let i: usize = position(rest, '\n');
        let ghost out0 = out@;
        let ghost before = rest@;
        if i >= rest.len() {
            out.push(copy_chars(rest));
            assert(runs(out@) =~= runs(out0) + lines(rest@));
            return out;
        }
        assert(before.take(i as int) =~= before.subrange(0, i as int));
        assert(before.skip(i + 1) =~= before.subrange(i + 1, before.len() as int));
        let mut line: Vec<char> = copy_chars(slice_subrange(rest, 0, i));
        if line.len() > 0 && line[line.len() - 1] == '\r' {
            line.pop();
        }
        assert(line@ =~= strip_cr(before.take(i as int)));
        out.push(line);
        rest = slice_subrange(rest, i + 1, rest.len());
        assert(runs(out@) =~= runs(out0).push(strip_cr(before.take(i as int))));
        assert(runs(out@) + lines(rest@) =~= runs(out0) + (seq![strip_cr(before.take(i as int))]
            + lines(before.skip(i + 1))));
    }
    assert(runs(out@) + lines(rest@) =~= runs(out@));
    out
}

// ---------------------------------------------------------------- occurrences

/// Does `n` stand at position `i` of `h`?
pub open spec fn occurs_at(h: Seq<char>, n: Seq<char>, i: int) -> bool {
    0 <= i && i + n.len() <= h.len() && h.subrange(i, i + n.len()) == n
}

/// Does `n` occur anywhere in `h`?
pub open spec fn occurs(h: Seq<char>, n: Seq<char>) -> bool {
    exists|i: int| occurs_at(h, n, i)
}

fn stands_at(h: &[char], n: &[char], i: usize) -> (r: bool)
    requires
        i <= h@.len(),
    ensures
        r == occurs_at(h@, n@, i as int),
{
    if h.len() - i < n.len() {
        return false;
    }
    same_chars(slice_subrange(h, i, i + n.len()), n)
}

pub fn contains_run(h: &[char], n: &[char]) -> (r: bool)
    ensures
        r == occurs(h@, n@),
{
    let mut i: usize = 0;
    while i <= h.len()
        invariant
            i <= h@.len() + 1,
            forall|k: int| 0 <= k < i ==> !#[trigger] occurs_at(h@, n@, k),
        decreases h@.len() + 1 - i,
    {
        if stands_at(h, n, i) {
            return true;
        }
        if i == h.len() {
            return false;
        }
        i += 1;
    }
    false
}

/// Append a run of characters.
pub fn push_run(out: &mut Vec<char>, s: &[char])
    ensures
        final(out)@ == old(out)@ + s@,
{
    let mut i: usize = 0;
    assert(out@ =~= old(out)@ + s@.take(0));
    while i < s.len()
        invariant
            i <= s@.len(),
            out@ == old(out)@ + s@.take(i as int),
        decreases s@.len() - i,
    {
        out.push(s[i]);
        assert(s@.take(i + 1) =~= s@.take(i as int).push(s@[i as int]));
        i += 1;
        assert(out@ =~= old(out)@ + s@.take(i as int));
    }
    assert(s@.take(i as int) =~= s@);
}

/// Append a run of characters to a text.
pub fn push_chars(out: &mut String, s: &[char])
    ensures
        final(out)@ == old(out)@ + s@,
{
    let t: String = from_chars(s);
    out.push_str(t.as_str());
}

/// The pieces with a separator between each two.
pub open spec fn join(parts: Seq<Seq<char>>, sep: Seq<char>) -> Seq<char>
    decreases parts.len(),
{
    if parts.len() == 0 {
        Seq::empty()
    } else if parts.len() == 1 {
        parts[0]
    } else {
        join(parts.drop_last(), sep) + sep + parts.last()
    }
}

pub fn joined(parts: &Vec<String>, sep: &str) -> (r: String)
    ensures
        r@ == join(texts(parts@), sep@),
{
    let mut out: String = String::new();
    let mut i: usize = 0;
    assert(texts(parts@).take(0) =~= Seq::<Seq<char>>::empty());
    while i < parts.len()
        invariant
            i <= parts@.len(),
            out@ == join(texts(parts@).take(i as int), sep@),
        decreases parts@.len() - i,
    {
        if i > 0 {
            out.push_str(sep);
        }
        out.push_str(parts[i].as_str());
        proof {
            let all = texts(parts@);
            assert(all.take(i + 1).drop_last() =~= all.take(i as int));
            assert(all.take(i + 1).last() == parts@[i as int]@);
            if i == 0 {
                assert(out@ =~= parts@[0]@);
            }
        }
        i += 1;
    }
    assert(texts(parts@).take(i as int) =~= texts(parts@));
    out
}

pub fn joined_runs(parts: &Vec<Vec<char>>, sep: &str) -> (r: String)
    ensures
        r@ == join(runs(parts@), sep@),
{
    let mut out: String = String::new();
    let mut i: usize = 0;
    assert(runs(parts@).take(0) =~= Seq::<Seq<char>>::empty());
    while i < parts.len()
        invariant
            i <= parts@.len(),
            out@ == join(runs(parts@).take(i as int), sep@),
        decreases parts@.len() - i,
    {
        if i > 0 {
            out.push_str(sep);
        }
        push_chars(&mut out, &parts[i]);
        proof {
            let all = runs(parts@);
            assert(all.take(i + 1).drop_last() =~= all.take(i as int));
            assert(all.take(i + 1).last() == parts@[i as int]@);
            if i == 0 {
                assert(out@ =~= parts@[0]@);
            }
        }
        i += 1;
    }
    assert(runs(parts@).take(i as int) =~= runs(parts@));
    out
}

// ------------------------------------------------------------------ letter case

/// The lower-case form of an ASCII capital; any other character is itself.
pub open spec fn lower_char(c: char) -> char {
    if 'A' <= c <= 'Z' {
        ((c as u32) + 32) as char
    } else {
        c
    }
}

pub fn to_lower(c: char) -> (r: char)
    ensures
        r == lower_char(c),
{
    if 'A' <= c && c <= 'Z' {
        let b: u8 = c as u8;
        (b + 32) as char
    } else {
        c
    }
}

/// The text with its ASCII capitals in lower case.
pub open spec fn lower(s: Seq<char>) -> Seq<char> {
    Seq::new(s.len(), |i: int| lower_char(s[i]))
}

pub fn lowered(s: &[char]) -> (r: Vec<char>)
    ensures
        r@ == lower(s@),
{
    let mut out: Vec<char> = Vec::new();
    let mut i: usize = 0;
    while i < s.len()
        invariant
            i <= s@.len(),
            out@ =~= lower(s@).take(i as int),
        decreases s@.len() - i,
    {
        out.push(to_lower(s[i]));
        i += 1;
    }
    assert(lower(s@).take(i as int) =~= lower(s@));
    out
}

/// Are two texts the same but for the case of ASCII letters?
pub fn same_ignoring_case(a: &[char], b: &str) -> (r: bool)
    ensures
        r == (lower(a@) == lower(b@)),
{
    let b: Vec<char> = to_chars(b);
    same_chars(&lowered(a), &lowered(&b))
}

// ---------------------------------------------------------------------- numbers

/// The value of a digit in a base of up to sixteen.
pub open spec fn digit_value(c: char, base: nat) -> Option<nat> {
    let v: int = if '0' <= c <= '9' {
        c as int - '0' as int
    } else if 'a' <= c <= 'f' {
        c as int - 'a' as int + 10
    } else if 'A' <= c <= 'F' {
        c as int - 'A' as int + 10
    } else {
        16
    };
    if v < base {
        Some(v as nat)
    } else {
        None
    }
}

pub fn digit(c: char, base: u64) -> (r: Option<u64>)
    requires
        base <= 16,
    ensures
        r is Some == digit_value(c, base as nat) is Some,
        r matches Some(v) ==> v == digit_value(c, base as nat)->0 && v < base,
{
    let v: u64 = if '0' <= c && c <= '9' {
        c as u64 - '0' as u64
    } else if 'a' <= c && c <= 'f' {
        c as u64 - 'a' as u64 + 10
    } else if 'A' <= c && c <= 'F' {
        c as u64 - 'A' as u64 + 10
    } else {
        16
    };
    if v < base {
        Some(v)
    } else {
        None
    }
}

/// Is every character a digit of the base?
pub open spec fn all_digits(s: Seq<char>, base: nat) -> bool {
    forall|i: int| 0 <= i < s.len() ==> (#[trigger] digit_value(s[i], base)) is Some
}

/// The number that the digits write.
pub open spec fn digits_value(s: Seq<char>, base: nat) -> nat
    decreases s.len(),
{
    if s.len() == 0 {
        0
    } else {
        digits_value(s.drop_last(), base) * base + digit_value(s.last(), base)->0
    }
}

/// A number of at most `max` in the given base: an optional plus sign, then one
/// digit or more and nothing else.
pub open spec fn parse_nat(s: Seq<char>, base: nat, max: nat) -> Option<nat> {
    let t = if s.len() > 0 && s[0] == '+' {
        s.drop_first()
    } else {
        s
    };
    if t.len() > 0 && all_digits(t, base) && digits_value(t, base) <= max {
        Some(digits_value(t, base))
    } else {
        None
    }
}

/// A decimal `u64`, as it is usually written.
pub open spec fn parse_u64(s: Seq<char>) -> Option<nat> {
    parse_nat(s, 10, u64::MAX as nat)
}

proof fn lemma_digits_grow(s: Seq<char>, k: int, base: nat)
    requires
        0 <= k <= s.len(),
        base >= 1,
    ensures
        digits_value(s.take(k), base) <= digits_value(s, base),
    decreases s.len() - k,
{
    if k < s.len() {
        lemma_digits_grow(s, k + 1, base);
        let t = s.take(k + 1);
        assert(t.drop_last() =~= s.take(k));
        let v = digits_value(s.take(k), base);
        assert(v * base >= v) by (nonlinear_arith)
            requires
                base >= 1,
                v >= 0,
        ;
    } else {
        assert(s.take(k) =~= s);
    }
}

/// The digits of `s` as a number of at most `max`.
fn read_digits(s: &[char], base: u64, max: u64) -> (r: Option<u64>)
    requires
        1 <= base <= 16,
    ensures
        r is Some == (all_digits(s@, base as nat) && digits_value(s@, base as nat) <= max),
        r matches Some(v) ==> v == digits_value(s@, base as nat),
{
    let mut acc: u64 = 0;
    let mut i: usize = 0;
    assert(s@.take(0) =~= Seq::<char>::empty());
    while i < s.len()
        invariant
            i <= s@.len(),
            1 <= base <= 16,
            acc == digits_value(s@.take(i as int), base as nat),
            acc <= max,
            forall|k: int| 0 <= k < i ==> (#[trigger] digit_value(s@[k], base as nat)) is Some,
        decreases s@.len() - i,
    {
        let d: u64 = match digit(s[i], base) {
            Some(d) => d,
            None => {
                assert(!all_digits(s@, base as nat)) by {
                    assert(digit_value(s@[i as int], base as nat) is None);
                }
                return None;
            },
        };
        assert(acc * base <= u64::MAX * 16) by (nonlinear_arith)
            requires
                0 <= acc <= u64::MAX,
                0 <= base <= 16,
        ;
        let next: u128 = acc as u128 * base as u128 + d as u128;
        proof {
            let t = s@.take(i + 1);
            assert(t.drop_last() =~= s@.take(i as int));
            assert(t.last() == s@[i as int]);
            assert(digits_value(t, base as nat) == next);
        }
        if next > max as u128 {
            proof {
                lemma_digits_grow(s@, i + 1, base as nat);
            }
            return None;
        }
        acc = next as u64;
        i += 1;
    }
    assert(s@.take(i as int) =~= s@);
    Some(acc)
}

/// Read a number of at most `max` in the given base.
pub fn read_nat(s: &[char], base: u64, max: u64) -> (r: Option<u64>)
    requires
        1 <= base <= 16,
    ensures
        r is Some == parse_nat(s@, base as nat, max as nat) is Some,
        r matches Some(v) ==> v == parse_nat(s@, base as nat, max as nat)->0,
{
    let t: &[char] = if s.len() > 0 && s[0] == '+' {
        assert(s@.drop_first() =~= s@.subrange(1, s@.len() as int));
        slice_subrange(s, 1, s.len())
    } else {
        s
    };
    if t.len() == 0 {
        return None;
    }
    read_digits(t, base, max)
}

pub fn read_u64(s: &[char]) -> (r: Option<u64>)
    ensures
        r is Some == parse_u64(s@) is Some,
        r matches Some(v) ==> v == parse_u64(s@)->0,
{
    read_nat(s, 10, u64::MAX)
}

/// A decimal `i64`: an optional sign, then one digit or more.
pub open spec fn parse_i64(s: Seq<char>) -> Option<int> {
    if s.len() > 0 && s[0] == '-' {
        let t = s.drop_first();
        if t.len() > 0 && all_digits(t, 10) && digits_value(t, 10) <= 0x8000_0000_0000_0000 {
            Some(-(digits_value(t, 10) as int))
        } else {
            None
        }
    } else {
        match parse_nat(s, 10, i64::MAX as nat) {
            Some(v) => Some(v as int),
            None => None,
        }
    }
}

pub fn read_i64(s: &[char]) -> (r: Option<i64>)
    ensures
        r is Some == parse_i64(s@) is Some,
        r matches Some(v) ==> v == parse_i64(s@)->0,
{
    if s.len() > 0 && s[0] == '-' {
        assert(s@.drop_first() =~= s@.subrange(1, s@.len() as int));
        let t: &[char] = slice_subrange(s, 1, s.len());
        if t.len() == 0 {
            return None;
        }
        match read_digits(t, 10, 0x8000_0000_0000_0000) {
            Some(v) => {
                if v == 0x8000_0000_0000_0000 {
                    Some(i64::MIN)
                } else {
                    Some(-(v as i64))
                }
            },
            None => None,
        }
    } else {
        match read_nat(s, 10, i64::MAX as u64) {
            Some(v) => Some(v as i64),
            None => None,
        }
    }
}

/// The character of a decimal digit.
pub open spec fn digit_char(d: nat) -> char {
    (48 + d) as char
}

/// A number in decimal, without leading zeros.
pub open spec fn decimal(n: nat) -> Seq<char>
    decreases n,
{
    if n < 10 {
        seq![digit_char(n)]
    } else {
        decimal(n / 10).push(digit_char(n % 10))
    }
}

pub fn push_digit(out: &mut String, d: u64)
    requires
        d < 10,
    ensures
        final(out)@ == old(out)@.push(digit_char(d as nat)),
{
    let b: u8 = 48 + d as u8;
    out.push(b as char);
}

/// Append a number in decimal.
pub fn push_u64(out: &mut String, n: u64)
    ensures
        final(out)@ == old(out)@ + decimal(n as nat),
    decreases n,
{
    let ghost start = out@;
    if n >= 10 {
        push_u64(out, n / 10);
        push_digit(out, n % 10);
        assert(out@ =~= start + decimal(n as nat));
    } else {
        push_digit(out, n);
        assert(out@ =~= start + decimal(n as nat));
    }
}

/// A number in decimal.
pub fn decimal_text(n: u64) -> (r: String)
    ensures
        r@ == decimal(n as nat),
{
    let mut out: String = String::new();
    push_u64(&mut out, n);
    assert(out@ =~= decimal(n as nat));
    out
}

/// Append a number in decimal, one too large for [`push_u64`] as well.
pub fn push_u128(out: &mut String, n: u128)
    ensures
        final(out)@ == old(out)@ + decimal(n as nat),
    decreases n,
{
    let ghost start = out@;
    if n >= 10 {
        push_u128(out, n / 10);
        push_digit(out, (n % 10) as u64);
        assert(out@ =~= start + decimal(n as nat));
    } else {
        push_digit(out, n as u64);
        assert(out@ =~= start + decimal(n as nat));
    }
}

/// So many copies of one character.
pub open spec fn repeat(c: char, n: int) -> Seq<char> {
    Seq::new(if n > 0 { n as nat } else { 0 }, |i: int| c)
}

/// The text followed by spaces up to the given width.
pub open spec fn pad_right(s: Seq<char>, width: int) -> Seq<char> {
    s + repeat(' ', width - s.len())
}

/// The text preceded by spaces up to the given width.
pub open spec fn pad_left(s: Seq<char>, width: int) -> Seq<char> {
    repeat(' ', width - s.len()) + s
}

fn push_spaces(out: &mut String, n: usize)
    ensures
        final(out)@ == old(out)@ + repeat(' ', n as int),
{
    let mut i: usize = 0;
    assert(out@ =~= old(out)@ + repeat(' ', 0));
    while i < n
        invariant
            i <= n,
            out@ == old(out)@ + repeat(' ', i as int),
        decreases n - i,
    {
        out.push(' ');
        i += 1;
        assert(out@ =~= old(out)@ + repeat(' ', i as int));
    }
}

/// Append a text, padded with spaces on its right.
pub fn push_padded_right(out: &mut String, s: &str, width: usize)
    ensures
        final(out)@ == old(out)@ + pad_right(s@, width as int),
{
    let n: usize = to_chars(s).len();
    out.push_str(s);
    if n < width {
        push_spaces(out, width - n);
    }
    assert(out@ =~= old(out)@ + pad_right(s@, width as int));
}

/// Append a text, padded with spaces on its left.
pub fn push_padded_left(out: &mut String, s: &str, width: usize)
    ensures
        final(out)@ == old(out)@ + pad_left(s@, width as int),
{
    let n: usize = to_chars(s).len();
    if n < width {
        push_spaces(out, width - n);
    }
    out.push_str(s);
    assert(out@ =~= old(out)@ + pad_left(s@, width as int));
}

/// The bytes of two texts, one behind the other.
pub proof fn lemma_utf8_concat(a: Seq<char>, b: Seq<char>)
    ensures
        encode_utf8(a + b) == encode_utf8(a) + encode_utf8(b),
    decreases a.len(),
{
    if a.len() == 0 {
        assert(a + b =~= b);
        assert(encode_utf8(a) + encode_utf8(b) =~= encode_utf8(b));
    } else {
        lemma_utf8_concat(a.drop_first(), b);
        assert((a + b).drop_first() =~= a.drop_first() + b);
        assert((a + b)[0] == a[0]);
        let x = encode_scalar(a[0] as u32);
        assert(x + (encode_utf8(a.drop_first()) + encode_utf8(b)) =~= (x + encode_utf8(
            a.drop_first(),
        )) + encode_utf8(b));
    }
}

/// A text is found where it was put.
pub proof fn lemma_occurs_inside(a: Seq<char>, n: Seq<char>, b: Seq<char>)
    ensures
        occurs(a + n + b, n),
{
    assert((a + n + b).subrange(a.len() as int, (a.len() + n.len()) as int) =~= n);
    assert(occurs_at(a + n + b, n, a.len() as int));
}

/// What is found in a text is found in every longer one.
pub proof fn lemma_occurs_longer(a: Seq<char>, h: Seq<char>, b: Seq<char>, n: Seq<char>)
    requires
        occurs(h, n),
    ensures
        occurs(a + h + b, n),
{
    let i = choose|i: int| occurs_at(h, n, i);
    let all = a + h + b;
    let k = a.len() + i;
    assert(all.subrange(k, k + n.len()) =~= h.subrange(i, i + n.len()));
    assert(occurs_at(all, n, k));
}

/// One more part behind others is one more separator and the part.
pub proof fn lemma_join_push(parts: Seq<Seq<char>>, p: Seq<char>, sep: Seq<char>)
    ensures
        join(parts.push(p), sep) == if parts.len() == 0 {
            p
        } else {
            join(parts, sep) + sep + p
        },
{
    assert(parts.push(p).drop_last() =~= parts);
}

/// No word is empty.
pub proof fn lemma_words_are_some(s: Seq<char>)
    ensures
        forall|i: int| 0 <= i < words(s).len() ==> (#[trigger] words(s)[i]).len() > 0,
    decreases s.len(),
{
    let t = trim_start(s);
    lemma_trim_start_len(s);
    lemma_word_len(t);
    if t.len() > 0 {
        let n = word_len(t) as int;
        lemma_words_are_some(t.skip(n));
        let rest = words(t.skip(n));
        assert forall|i: int| 0 <= i < words(s).len() implies (#[trigger] words(s)[i]).len()
            > 0 by {
            if i > 0 {
                assert(words(s)[i] == rest[i - 1]);
            } else {
                assert(words(s)[0] == t.take(n));
            }
        }
    }
}

} // verus!
