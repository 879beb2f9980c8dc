//! A minimal JSON reader, because Varlink requests arrive as JSON from a socket.
//!
//! Writing a parser rather than string-matching on `"method"` is deliberate:
//! this consumes untrusted input, and a scanner that guesses will eventually be
//! handed something that makes it guess wrong.

use vstd::prelude::*;
use vstd::slice::slice_subrange;
use vstd::utf8::{char_u32_cast, encode_utf8};

use crate::decimal::{lemma_empty_is_no_number, parse_double, read_double};
use crate::float::{Double, at_most, signed};
use crate::text::{from_chars, has_prefix, parse_nat, read_nat, same_text, starts_with, to_chars};

verus! {

/// `char::from_u32`: the character with this number, none for a surrogate or a
/// number past the last character.
pub assume_specification[ char::from_u32 ](i: u32) -> (r: Option<char>)
    ensures
        match r {
            Some(c) => c as u32 == i,
            None => (0xd800 <= i <= 0xdfff) || i > 0x10ffff,
        },
;

/// A JSON document.
#[derive(Debug, PartialEq)]
pub enum Json {
    Null,
    Bool(bool),
    Num(Double),
    Str(String),
    Arr(Vec<Json>),
    /// The members as they were read; of two with the same key the later counts.
    Obj(Vec<Member>),
}

/// One member of an object.
#[derive(Debug, PartialEq)]
pub struct Member {
    pub key: String,
    pub value: Json,
}

/// A JSON document as a value.
pub enum Value {
    Null,
    Bool(bool),
    Num(Double),
    Str(Seq<char>),
    Arr(Seq<Value>),
    Obj(Map<Seq<char>, Value>),
}

/// The value of a document.
pub open spec fn value_of(j: Json) -> Value
    decreases j, 0nat,
{
    match j {
        Json::Null => Value::Null,
        Json::Bool(b) => Value::Bool(b),
        Json::Num(n) => Value::Num(n),
        Json::Str(s) => Value::Str(s@),
        Json::Arr(v) => Value::Arr(values_of(v@, v@.len())),
        Json::Obj(m) => Value::Obj(members_of(m@, m@.len())),
    }
}

/// The values of the first `n` documents of a list.
pub open spec fn values_of(v: Seq<Json>, n: nat) -> Seq<Value>
    decreases v, n,
{
    if n == 0 || n > v.len() {
        seq![]
    } else {
        values_of(v, (n - 1) as nat).push(value_of(v[n - 1]))
    }
}

/// The members of an object by key, the first `n` of them.
pub open spec fn members_of(m: Seq<Member>, n: nat) -> Map<Seq<char>, Value>
    decreases m, n,
{
    if n == 0 || n > m.len() {
        Map::empty()
    } else {
        members_of(m, (n - 1) as nat).insert(m[n - 1].key@, value_of(m[n - 1].value))
    }
}

// ── the grammar ────────────────────────────────────────────────────────

/// What reading gives: a result and the rest of the text, or what is wrong.
pub type Reading<T> = Result<(T, Seq<char>), Seq<char>>;

pub open spec fn is_blank(c: char) -> bool {
    c == ' ' || c == '\t' || c == '\n' || c == '\r'
}

/// The text without the blanks at its start.
pub open spec fn skip_ws(s: Seq<char>) -> Seq<char>
    decreases s.len(),
{
    if s.len() > 0 && is_blank(s[0]) {
        skip_ws(s.drop_first())
    } else {
        s
    }
}

/// A result with more characters in front of what was read.
pub open spec fn after_chars(front: Seq<char>, r: Reading<Seq<char>>) -> Reading<Seq<char>> {
    match r {
        Ok((t, rest)) => Ok((front + t, rest)),
        Err(e) => Err(e),
    }
}

/// The character that a one-letter escape stands for.
pub open spec fn plain_escape(c: char) -> Option<char> {
    if c == '"' || c == '\\' || c == '/' {
        Some(c)
    } else if c == 'n' {
        Some('\n')
    } else if c == 't' {
        Some('\t')
    } else if c == 'r' {
        Some('\r')
    } else if c == 'b' {
        Some('\u{8}')
    } else if c == 'f' {
        Some('\u{c}')
    } else {
        None
    }
}

/// The character that four hexadecimal digits stand for. Surrogate pairs are
/// not put together: refusing such text is better than mangling it.
pub open spec fn unicode_escape(s: Seq<char>) -> Result<char, Seq<char>> {
    if encode_utf8(s).len() < 4 {
        Err("truncated \\u escape"@)
    } else if s.len() < 4 {
        Err("bad \\u escape"@)
    } else {
        match parse_nat(s.take(4), 16, u32::MAX as nat) {
            None => Err("bad \\u escape"@),
            Some(n) => if 0xd800 <= n <= 0xdfff || n > 0x10ffff {
                Err("unsupported \\u codepoint"@)
            } else {
                Ok(n as u32 as char)
            },
        }
    }
}

/// A string, from behind its opening quote on.
pub open spec fn string_at(s: Seq<char>) -> Reading<Seq<char>>
    decreases s.len(),
{
    if s.len() == 0 {
        Err("unterminated string"@)
    } else if s[0] == '"' {
        Ok((seq![], s.drop_first()))
    } else if s[0] == '\\' {
        let t = s.drop_first();
        if t.len() == 0 {
            Err("bad escape"@)
        } else if t[0] == 'u' {
            match unicode_escape(t.drop_first()) {
                Err(e) => Err(e),
                Ok(c) => after_chars(seq![c], string_at(t.drop_first().skip(4))),
            }
        } else {
            match plain_escape(t[0]) {
                None => Err("bad escape"@),
                Some(c) => after_chars(seq![c], string_at(t.drop_first())),
            }
        }
    } else {
        after_chars(seq![s[0]], string_at(s.drop_first()))
    }
}

/// Can this character stand in a number?
pub open spec fn in_number(c: char) -> bool {
    '0' <= c <= '9' || c == '.' || c == 'e' || c == 'E' || c == '+' || c == '-'
}

/// How many characters at the start can stand in a number.
pub open spec fn number_len(s: Seq<char>) -> nat
    decreases s.len(),
{
    if s.len() > 0 && in_number(s[0]) {
        1 + number_len(s.drop_first())
    } else {
        0
    }
}

/// A number.
pub open spec fn number_at(s: Seq<char>) -> Reading<Value> {
    let n = number_len(s) as int;
    match parse_double(s.take(n)) {
        Some(x) => Ok((Value::Num(x), s.skip(n))),
        None => Err("bad number"@),
    }
}

/// One of the three words.
pub open spec fn literal_at(s: Seq<char>, want: Seq<char>, v: Value) -> Reading<Value> {
    if starts_with(s, want) {
        Ok((v, s.skip(want.len() as int)))
    } else {
        Err("bad literal"@)
    }
}

pub proof fn lemma_skip_ws(s: Seq<char>)
    ensures
        skip_ws(s).len() <= s.len(),
        skip_ws(s).len() > 0 ==> !is_blank(skip_ws(s)[0]),
    decreases s.len(),
{
    if s.len() > 0 && is_blank(s[0]) {
        lemma_skip_ws(s.drop_first());
    }
}

pub proof fn lemma_string_shrinks(s: Seq<char>)
    ensures
        string_at(s) matches Ok((t, rest)) ==> rest.len() < s.len(),
    decreases s.len(),
{
    if s.len() > 0 {
        if s[0] == '\\' {
            let t = s.drop_first();
            if t.len() > 0 {
                lemma_string_shrinks(t.drop_first());
                if t.drop_first().len() >= 4 {
                    lemma_string_shrinks(t.drop_first().skip(4));
                }
            }
        } else if s[0] != '"' {
            lemma_string_shrinks(s.drop_first());
        }
    }
}

/// A value, perhaps behind blanks. What is read is never empty.
pub open spec fn value_at(s: Seq<char>) -> Reading<Value>
    decreases s.len(), 0nat,
{
    let t = skip_ws(s);
    if t.len() == 0 {
        Err("unexpected end of input"@)
    } else if t[0] == '{' {
        let u = skip_ws(t.drop_first());
        proof {
            lemma_skip_ws(s);
            lemma_skip_ws(t.drop_first());
        }
        if u.len() > 0 && u[0] == '}' {
            Ok((Value::Obj(Map::empty()), u.drop_first()))
        } else {
            members_at(u, Map::empty())
        }
    } else if t[0] == '[' {
        let u = skip_ws(t.drop_first());
        proof {
            lemma_skip_ws(s);
            lemma_skip_ws(t.drop_first());
        }
        if u.len() > 0 && u[0] == ']' {
            Ok((Value::Arr(seq![]), u.drop_first()))
        } else {
            items_at(u, seq![])
        }
    } else if t[0] == '"' {
        match string_at(t.drop_first()) {
            Ok((x, rest)) => Ok((Value::Str(x), rest)),
            Err(e) => Err(e),
        }
    } else if t[0] == 't' {
        literal_at(t, "true"@, Value::Bool(true))
    } else if t[0] == 'f' {
        literal_at(t, "false"@, Value::Bool(false))
    } else if t[0] == 'n' {
        literal_at(t, "null"@, Value::Null)
    } else {
        number_at(t)
    }
}

/// The items of an array, from where one has to begin, with those read before.
pub open spec fn items_at(s: Seq<char>, before: Seq<Value>) -> Reading<Value>
    decreases s.len(), 1nat,
{
    match value_at(s) {
        Err(e) => Err(e),
        Ok((v, rest)) => {
            let t = skip_ws(rest);
            proof {
                lemma_skip_ws(rest);
            }
            if rest.len() >= s.len() {
                Err("bad number"@)
            } else if t.len() > 0 && t[0] == ',' {
                items_at(t.drop_first(), before.push(v))
            } else if t.len() > 0 && t[0] == ']' {
                Ok((Value::Arr(before.push(v)), t.drop_first()))
            } else {
                Err("expected ',' or ']'"@)
            }
        },
    }
}

/// The members of an object, from where a key has to begin, with those read
/// before. A later member replaces an earlier one with the same key.
pub open spec fn members_at(s: Seq<char>, before: Map<Seq<char>, Value>) -> Reading<Value>
    decreases s.len(), 1nat,
{
    let t = skip_ws(s);
    if t.len() == 0 || t[0] != '"' {
        Err("object key must be a string"@)
    } else {
        match string_at(t.drop_first()) {
            Err(e) => Err(e),
            Ok((key, rest)) => {
                let u = skip_ws(rest);
                proof {
                    lemma_skip_ws(s);
                    lemma_string_shrinks(t.drop_first());
                    lemma_skip_ws(rest);
                }
                if u.len() == 0 || u[0] != ':' {
                    Err("expected ':' after object key"@)
                } else {
                    match value_at(u.drop_first()) {
                        Err(e) => Err(e),
                        Ok((v, rest)) => {
                            let w = skip_ws(rest);
                            proof {
                                lemma_skip_ws(rest);
                            }
                            if rest.len() >= u.drop_first().len() {
                                Err("bad number"@)
                            } else if w.len() > 0 && w[0] == ',' {
                                members_at(w.drop_first(), before.insert(key, v))
                            } else if w.len() > 0 && w[0] == '}' {
                                Ok((Value::Obj(before.insert(key, v)), w.drop_first()))
                            } else {
                                Err("expected ',' or '}'"@)
                            }
                        },
                    }
                }
            },
        }
    }
}

/// A whole document.
pub open spec fn document(s: Seq<char>) -> Result<Value, Seq<char>> {
    match value_at(s) {
        Err(e) => Err(e),
        Ok((v, rest)) => if skip_ws(rest).len() > 0 {
            Err("trailing data after JSON value"@)
        } else {
            Ok(v)
        },
    }
}

// ── reading ────────────────────────────────────────────────────────────

/// Does a result say what the grammar says of the text from `i` on? What is
/// left begins at the position that comes along.
spec fn reads(
    r: Result<(Json, usize), &'static str>,
    c: Seq<char>,
    i: int,
    want: Reading<Value>,
) -> bool {
    match r {
        Ok((j, k)) => {
            &&& want is Ok
            &&& i < k <= c.len()
            &&& value_of(j) == (want->Ok_0).0
            &&& c.skip(k as int) == (want->Ok_0).1
        },
        Err(e) => want is Err && e@ == want->Err_0,
    }
}

fn skip_blanks(c: &[char], i: usize) -> (r: usize)
    requires
        i <= c@.len(),
    ensures
        i <= r <= c@.len(),
        c@.skip(r as int) == skip_ws(c@.skip(i as int)),
{
    let mut k: usize = i;
    while k < c.len() && (c[k] == ' ' || c[k] == '\t' || c[k] == '\n' || c[k] == '\r')
        invariant
            i <= k <= c@.len(),
            skip_ws(c@.skip(k as int)) == skip_ws(c@.skip(i as int)),
        decreases c@.len() - k,
    {
        assert(c@.skip(k as int).drop_first() =~= c@.skip(k + 1));
        k += 1;
    }
    k
}

pub proof fn lemma_utf8_at_least(s: Seq<char>)
    ensures
        encode_utf8(s).len() >= s.len(),
    decreases s.len(),
{
    if s.len() > 0 {
        lemma_utf8_at_least(s.drop_first());
    }
}

/// The character of an escape whose digits begin at `i`.
fn read_unicode(c: &[char], i: usize) -> (r: Result<char, &'static str>)
    requires
        i <= c@.len(),
    ensures
        match unicode_escape(c@.skip(i as int)) {
            Ok(x) => r == Ok::<char, &'static str>(x) && i + 4 <= c@.len(),
            Err(e) => r is Err && (r->Err_0)@ == e,
        },
{
    let ghost s = c@.skip(i as int);
    proof {
        lemma_utf8_at_least(s);
    }
    if c.len() - i < 4 {
        let tail: String = from_chars(slice_subrange(c, i, c.len()));
        assert(c@.subrange(i as int, c@.len() as int) =~= s);
        if tail.as_str().as_bytes().len() < 4 {
            return Err("truncated \\u escape");
        }
        return Err("bad \\u escape");
    }
    let digits: &[char] = slice_subrange(c, i, i + 4);
    assert(digits@ =~= s.take(4));
    match read_nat(digits, 16, u32::MAX as u64) {
        None => Err("bad \\u escape"),
        Some(n) => match char::from_u32(n as u32) {
            Some(x) => {
                proof {
                    char_u32_cast(x, n as u32);
                }
                Ok(x)
            },
            None => Err("unsupported \\u codepoint"),
        },
    }
}

/// A string whose opening quote stands before `start`.
fn read_string(c: &[char], start: usize) -> (r: Result<(String, usize), &'static str>)
    requires
        start <= c@.len(),
    ensures
        match string_at(c@.skip(start as int)) {
            Ok((t, rest)) => {
                &&& r is Ok
                &&& (r->Ok_0).0@ == t
                &&& start < (r->Ok_0).1 <= c@.len()
                &&& c@.skip((r->Ok_0).1 as int) == rest
            },
            Err(e) => r is Err && (r->Err_0)@ == e,
        },
{
    let ghost all = string_at(c@.skip(start as int));
    let mut out: String = String::new();
    let mut i: usize = start;
    assert(after_chars(out@, all) == all) by {
        if let Ok((t, rest)) = all {
            assert(out@ + t =~= t);
        }
    }
    while i < c.len()
        invariant
            start <= i <= c@.len(),
            after_chars(out@, string_at(c@.skip(i as int))) == all,
            all == string_at(c@.skip(start as int)),
        decreases c@.len() - i,
    {
        let ghost s = c@.skip(i as int);
        let ghost out0 = out@;
        let x: char = c[i];
        assert(s[0] == x);
        assert(s.drop_first() =~= c@.skip(i + 1));
        if x == '"' {
            assert(out@ + Seq::<char>::empty() =~= out@);
            return Ok((out, i + 1));
        }
        if x != '\\' {
            out.push(x);
            i += 1;
            proof {
                lemma_after_char(out0, x, string_at(s.drop_first()), out@);
            }
        } else {
            if i + 1 >= c.len() {
                return Err("bad escape");
            }
            let e: char = c[i + 1];
            let ghost t = s.drop_first();
            assert(t[0] == e);
            assert(t.drop_first() =~= c@.skip(i + 2));
            if e == 'u' {
                match read_unicode(c, i + 2) {
                    Err(why) => {
                        return Err(why);
                    },
                    Ok(y) => {
                        out.push(y);
                        i += 6;
                        assert(t.drop_first().skip(4) =~= c@.skip(i as int));
                        proof {
                            lemma_after_char(out0, y, string_at(c@.skip(i as int)), out@);
                        }
                    },
                }
            } else {
                let y: char = if e == '"' || e == '\\' || e == '/' {
                    e
                } else if e == 'n' {
                    '\n'
                } else if e == 't' {
                    '\t'
                } else if e == 'r' {
                    '\r'
                } else if e == 'b' {
                    '\u{8}'
                } else if e == 'f' {
                    '\u{c}'
                } else {
                    return Err("bad escape");
                };
                out.push(y);
                i += 2;
                proof {
                    lemma_after_char(out0, y, string_at(c@.skip(i as int)), out@);
                }
            }
        }
    }
    assert(c@.skip(i as int).len() == 0);
    Err("unterminated string")
}

proof fn lemma_after_char(front: Seq<char>, x: char, r: Reading<Seq<char>>, now: Seq<char>)
    requires
        now == front.push(x),
    ensures
        after_chars(front, after_chars(seq![x], r)) == after_chars(now, r),
{
    if let Ok((t, rest)) = r {
        assert(front + (seq![x] + t) =~= now + t);
    }
}

fn read_number(c: &[char], i: usize) -> (r: Result<(Json, usize), &'static str>)
    requires
        i <= c@.len(),
    ensures
        reads(r, c@, i as int, number_at(c@.skip(i as int))),
{
    let ghost s = c@.skip(i as int);
    let mut k: usize = i;
    while k < c.len() && (('0' <= c[k] && c[k] <= '9') || c[k] == '.' || c[k] == 'e' || c[k] == 'E'
        || c[k] == '+' || c[k] == '-')
        invariant
            i <= k <= c@.len(),
            k - i + number_len(c@.skip(k as int)) == number_len(s),
        decreases c@.len() - k,
    {
        assert(c@.skip(k as int).drop_first() =~= c@.skip(k + 1));
        k += 1;
    }
    assert(number_len(s) == k - i);
    let t: &[char] = slice_subrange(c, i, k);
    assert(t@ =~= s.take(k - i));
    assert(s.skip(k - i) =~= c@.skip(k as int));
    if k == i {
        proof {
            lemma_empty_is_no_number(t@);
        }
        return Err("bad number");
    }
    match read_double(t) {
        Some(x) => Ok((Json::Num(x), k)),
        None => Err("bad number"),
    }
}

fn read_literal(c: &[char], i: usize, want: &'static str, v: Json) -> (r: Result<
    (Json, usize),
    &'static str,
>)
    requires
        i <= c@.len(),
        want@.len() > 0,
    ensures
        reads(r, c@, i as int, literal_at(c@.skip(i as int), want@, value_of(v))),
{
    let ghost s = c@.skip(i as int);
    let t: &[char] = slice_subrange(c, i, c.len());
    assert(t@ =~= s);
    if has_prefix(t, want) {
        let n: usize = to_chars(want).len();
        assert(s.skip(n as int) =~= c@.skip(i + n));
        Ok((v, i + n))
    } else {
        Err("bad literal")
    }
}

/// A value, perhaps behind blanks.
fn read_value(c: &[char], i: usize) -> (r: Result<(Json, usize), &'static str>)
    requires
        i <= c@.len(),
    ensures
        reads(r, c@, i as int, value_at(c@.skip(i as int))),
    decreases c@.len() - i, 0nat,
{
    let k: usize = skip_blanks(c, i);
    if k >= c.len() {
        assert(skip_ws(c@.skip(i as int)).len() == 0);
        return Err("unexpected end of input");
    }
    let ghost t = c@.skip(k as int);
    let x: char = c[k];
    assert(t[0] == x);
    assert(t.drop_first() =~= c@.skip(k + 1));
    if x == '{' {
        let u: usize = skip_blanks(c, k + 1);
        if u < c.len() && c[u] == '}' {
            assert(c@.skip(u as int).drop_first() =~= c@.skip(u + 1));
            let none: Vec<Member> = Vec::new();
            return Ok((Json::Obj(none), u + 1));
        }
        return read_members(c, u);
    }
    if x == '[' {
        let u: usize = skip_blanks(c, k + 1);
        if u < c.len() && c[u] == ']' {
            assert(c@.skip(u as int).drop_first() =~= c@.skip(u + 1));
            let none: Vec<Json> = Vec::new();
            return Ok((Json::Arr(none), u + 1));
        }
        return read_items(c, u);
    }
    if x == '"' {
        return match read_string(c, k + 1) {
            Ok((s, n)) => Ok((Json::Str(s), n)),
            Err(e) => Err(e),
        };
    }
    proof {
        reveal_strlit("true");
        reveal_strlit("false");
        reveal_strlit("null");
    }
    if x == 't' {
        return read_literal(c, k, "true", Json::Bool(true));
    }
    if x == 'f' {
        return read_literal(c, k, "false", Json::Bool(false));
    }
    if x == 'n' {
        return read_literal(c, k, "null", Json::Null);
    }
    read_number(c, k)
}

/// The items of an array, from where the first has to begin.
fn read_items(c: &[char], start: usize) -> (r: Result<(Json, usize), &'static str>)
    requires
        start <= c@.len(),
    ensures
        reads(r, c@, start as int, items_at(c@.skip(start as int), seq![])),
    decreases c@.len() - start, 1nat,
{
    let mut items: Vec<Json> = Vec::new();
    let mut i: usize = start;
    let ghost want = items_at(c@.skip(start as int), seq![]);
    assert(values_of(items@, 0) =~= seq![]);
    loop
        invariant
            start <= i <= c@.len(),
            items_at(c@.skip(i as int), values_of(items@, items@.len())) == want,
            want == items_at(c@.skip(start as int), seq![]),
        decreases c@.len() - i,
    {
        let ghost before = items@;
        match read_value(c, i) {
            Err(e) => {
                return Err(e);
            },
            Ok((v, n)) => {
                items.push(v);
                proof {
                    lemma_values_push(before, v);
                }
                let k: usize = skip_blanks(c, n);
                if k < c.len() && c[k] == ',' {
                    assert(c@.skip(k as int).drop_first() =~= c@.skip(k + 1));
                    i = k + 1;
                } else if k < c.len() && c[k] == ']' {
                    assert(c@.skip(k as int).drop_first() =~= c@.skip(k + 1));
                    return Ok((Json::Arr(items), k + 1));
                } else {
                    return Err("expected ',' or ']'");
                }
            },
        }
    }
}

/// The members of an object, from where the first key has to begin.
fn read_members(c: &[char], start: usize) -> (r: Result<(Json, usize), &'static str>)
    requires
        start <= c@.len(),
    ensures
        reads(r, c@, start as int, members_at(c@.skip(start as int), Map::empty())),
    decreases c@.len() - start, 1nat,
{
    let mut members: Vec<Member> = Vec::new();
    let mut i: usize = start;
    let ghost want = members_at(c@.skip(start as int), Map::empty());
    assert(members_of(members@, 0) =~= Map::empty());
    loop
        invariant
            start <= i <= c@.len(),
            members_at(c@.skip(i as int), members_of(members@, members@.len())) == want,
            want == members_at(c@.skip(start as int), Map::empty()),
        decreases c@.len() - i,
    {
        let ghost before = members@;
        let t: usize = skip_blanks(c, i);
        if t >= c.len() || c[t] != '"' {
            return Err("object key must be a string");
        }
        assert(c@.skip(t as int).drop_first() =~= c@.skip(t + 1));
        let (key, n): (String, usize) = match read_string(c, t + 1) {
            Err(e) => {
                return Err(e);
            },
            Ok(found) => found,
        };
        let u: usize = skip_blanks(c, n);
        if u >= c.len() || c[u] != ':' {
            return Err("expected ':' after object key");
        }
        assert(c@.skip(u as int).drop_first() =~= c@.skip(u + 1));
        match read_value(c, u + 1) {
            Err(e) => {
                return Err(e);
            },
            Ok((value, m)) => {
                let member: Member = Member { key, value };
                members.push(member);
                proof {
                    lemma_members_push(before, member);
                }
                let k: usize = skip_blanks(c, m);
                if k < c.len() && c[k] == ',' {
                    assert(c@.skip(k as int).drop_first() =~= c@.skip(k + 1));
                    i = k + 1;
                } else if k < c.len() && c[k] == '}' {
                    assert(c@.skip(k as int).drop_first() =~= c@.skip(k + 1));
                    return Ok((Json::Obj(members), k + 1));
                } else {
                    return Err("expected ',' or '}'");
                }
            },
        }
    }
}

proof fn lemma_values_prefix(v: Seq<Json>, x: Json, n: nat)
    requires
        n <= v.len(),
    ensures
        values_of(v.push(x), n) == values_of(v, n),
    decreases n,
{
    if n > 0 {
        lemma_values_prefix(v, x, (n - 1) as nat);
        assert(v.push(x)[n - 1] == v[n - 1]);
    }
}

proof fn lemma_values_push(v: Seq<Json>, x: Json)
    ensures
        values_of(v.push(x), v.len() + 1) == values_of(v, v.len()).push(value_of(x)),
{
    lemma_values_prefix(v, x, v.len());
}

proof fn lemma_members_prefix(m: Seq<Member>, x: Member, n: nat)
    requires
        n <= m.len(),
    ensures
        members_of(m.push(x), n) == members_of(m, n),
    decreases n,
{
    if n > 0 {
        lemma_members_prefix(m, x, (n - 1) as nat);
        assert(m.push(x)[n - 1] == m[n - 1]);
    }
}

proof fn lemma_members_push(m: Seq<Member>, x: Member)
    ensures
        members_of(m.push(x), m.len() + 1) == members_of(m, m.len()).insert(
            x.key@,
            value_of(x.value),
        ),
{
    lemma_members_prefix(m, x, m.len());
}

/// Read a JSON document.
pub fn parse(input: &str) -> (r: Result<Json, &'static str>)
    ensures
        match document(input@) {
            Ok(v) => r is Ok && value_of(r->Ok_0) == v,
            Err(e) => r is Err && (r->Err_0)@ == e,
        },
{
    let chars: Vec<char> = to_chars(input);
    assert(chars@.skip(0) =~= input@);
    match read_value(&chars, 0) {
        Err(e) => Err(e),
        Ok((v, n)) => {
            let k: usize = skip_blanks(&chars, n);
            if k != chars.len() {
                Err("trailing data after JSON value")
            } else {
                Ok(v)
            }
        },
    }
}

impl Json {
    /// The member of an object with this key.
    pub fn get(&self, key: &str) -> (r: Option<&Json>)
        ensures
            match value_of(*self) {
                Value::Obj(m) => {
                    &&& r is Some == m.contains_key(key@)
                    &&& r matches Some(j) ==> value_of(*j) == m[key@]
                },
                _ => r is None,
            },
    {
        let m: &Vec<Member> = match self {
            Json::Obj(m) => m,
            _ => return None,
        };
        let ghost all = members_of(m@, m@.len());
        let mut i: usize = m.len();
        while i > 0
            invariant
                i <= m@.len(),
                all == members_of(m@, m@.len()),
                value_of(*self) == Value::Obj(all),
                all.contains_key(key@) == members_of(m@, i as nat).contains_key(key@),
                all.contains_key(key@) ==> all[key@] == members_of(m@, i as nat)[key@],
            decreases i,
        {
            if same_text(m[i - 1].key.as_str(), key) {
                return Some(&m[i - 1].value);
            }
            i -= 1;
        }
        None
    }

    pub fn as_str(&self) -> (r: Option<&str>)
        ensures
            match value_of(*self) {
                Value::Str(s) => r is Some && (r->0)@ == s,
                _ => r is None,
            },
    {
        match self {
            Json::Str(s) => Some(s.as_str()),
            _ => None,
        }
    }

    /// A number that is not negative, without its fraction.
    pub fn as_u64(&self) -> (r: Option<u64>)
        ensures
            r == number_u64(value_of(*self)),
    {
        match self {
            Json::Num(n) => if Double::zero().less_or_equal(n) && n.finite() {
                Some(n.to_u64())
            } else {
                None
            },
            _ => None,
        }
    }

    pub fn as_f64(&self) -> (r: Option<Double>)
        ensures
            r == number_f64(value_of(*self)),
    {
        match self {
            Json::Num(n) => Some(*n),
            _ => None,
        }
    }

    pub fn as_array(&self) -> (r: Option<&Vec<Json>>)
        ensures
            match value_of(*self) {
                Value::Arr(a) => r is Some && values_of(r->0@, r->0@.len()) == a,
                _ => r is None,
            },
    {
        match self {
            Json::Arr(v) => Some(v),
            _ => None,
        }
    }

    pub fn as_bool(&self) -> (r: Option<bool>)
        ensures
            match value_of(*self) {
                Value::Bool(b) => r == Some(b),
                _ => r is None,
            },
    {
        match self {
            Json::Bool(b) => Some(*b),
            _ => None,
        }
    }
}

/// There is a value for each document of a list.
pub proof fn lemma_values_of(v: Seq<Json>, n: nat, i: int)
    requires
        n <= v.len(),
        0 <= i < n,
    ensures
        values_of(v, n).len() == n,
        values_of(v, n)[i] == value_of(v[i]),
    decreases n,
{
    reveal_with_fuel(values_of, 2);
    if i < n - 1 {
        lemma_values_of(v, (n - 1) as nat, i);
    } else if n > 1 {
        lemma_values_of(v, (n - 1) as nat, 0);
    }
}

/// The number in a value, where it is one that is finite and not negative.
pub open spec fn number_u64(v: Value) -> Option<u64> {
    match v {
        Value::Num(n) => if at_most(signed(false, 0), n) && n.is_finite() {
            Some(n.as_u64())
        } else {
            None
        },
        _ => None,
    }
}

/// The number in a value.
pub open spec fn number_f64(v: Value) -> Option<Double> {
    match v {
        Value::Num(n) => Some(n),
        _ => None,
    }
}

} // verus!
