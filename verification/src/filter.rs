//! A filter language for stalls.
//!
//! ```text
//! resource == io and peak > 70
//! unit ~ "firefox|chrome" and delta_ms > 500
//! unit ~ firefox|chrome and delta_ms > 500
//! not warning.transient and warning.source == btrfs
//! ```
//!
//! One grammar, used by the CLI, the rules engine and the exporters.

use vstd::prelude::*;
use vstd::slice::slice_subrange;
use vstd::utf8::{encode_scalar, encode_utf8};

use crate::appname::said;
use crate::cgroup::latin1;
use crate::decimal::{parse_double, read_double};
use crate::float::{Double, at_most, below, difference, product, signed, whole};
use crate::path::{comes_before, sorts_before};
use crate::pathology::Warning;
use crate::report::{Stall, milliseconds, to_milliseconds};
use crate::shortest::shortest;
use crate::text::{
    contains_run, copy_text, decimal, decimal_text, find, from_chars, has_char, has_prefix,
    lemma_find, lemma_utf8_concat, lower, lowered, occurs, position, push_chars, push_u128,
    push_u64, runs, same_ignoring_case, same_text, split, split_char, starts_with, to_chars, trim,
    trimmed,
};

verus! {

/// Anything a filter can be evaluated against.
///
/// A trait rather than a fixed type so the same expression can match a stall, a
/// warning, a process row or a rule context without a second grammar.
pub trait Queryable {
    /// A named field as text, if this subject has it.
    spec fn text_field(&self, name: Seq<char>) -> Option<Seq<char>>;

    /// A named field as a number, if this subject has it.
    spec fn num_field(&self, name: Seq<char>) -> Option<Double>;

    /// A named field as a boolean, if this subject has it.
    spec fn bool_field(&self, name: Seq<char>) -> Option<bool>;

    fn field_str(&self, name: &str) -> (r: Option<String>)
        ensures
            said(r) == self.text_field(name@),
    ;

    fn field_num(&self, name: &str) -> (r: Option<Double>)
        ensures
            r == self.num_field(name@),
    ;

    fn field_bool(&self, name: &str) -> (r: Option<bool>)
        ensures
            r == self.bool_field(name@),
    ;
}

#[derive(Clone, Copy, Debug, PartialEq, Eq, Structural)]
pub enum Op {
    Eq,
    Ne,
    Gt,
    Lt,
    Ge,
    Le,
    /// Substring match, with `|` meaning alternation: `unit ~ "a|b"`.
    Match,
}

impl Op {
    /// The operator as it is written.
    pub open spec fn sign(&self) -> Seq<char> {
        match self {
            Op::Eq => "=="@,
            Op::Ne => "!="@,
            Op::Gt => ">"@,
            Op::Lt => "<"@,
            Op::Ge => ">="@,
            Op::Le => "<="@,
            Op::Match => "~"@,
        }
    }

    /// See [`Op::sign`].
    pub fn as_str(&self) -> (r: &'static str)
        ensures
            r@ == self.sign(),
    {
        match self {
            Op::Eq => "==",
            Op::Ne => "!=",
            Op::Gt => ">",
            Op::Lt => "<",
            Op::Ge => ">=",
            Op::Le => "<=",
            Op::Match => "~",
        }
    }
}

/// Where an expression is wrong, and how.
#[derive(Debug, PartialEq, Eq)]
pub struct ParseError {
    /// Byte offset into the input where the problem is.
    pub at: usize,
    pub msg: String,
}

/// A parse error as a value to compare with.
pub struct Fault {
    pub at: nat,
    pub msg: Seq<char>,
}

impl View for ParseError {
    type V = Fault;

    open spec fn view(&self) -> Fault {
        Fault { at: self.at as nat, msg: self.msg@ }
    }
}

/// How an error is printed: places are counted from one.
pub open spec fn fault_text(f: Fault) -> Seq<char> {
    f.msg + " (at character "@ + decimal(f.at + 1) + ")"@
}

impl ParseError {
    /// The error as it is printed.
    pub fn to_text(&self) -> (r: String)
        ensures
            r@ == fault_text(self@),
    {
        let mut o: String = copy_text(self.msg.as_str());
        o.push_str(" (at character ");
        push_u128(&mut o, self.at as u128 + 1);
        o.push_str(")");
        o
    }
}

// ── tokens ─────────────────────────────────────────────────────────────

/// What a token is.
#[derive(Clone, Copy, Debug, PartialEq, Eq, Structural)]
pub enum Kind {
    Word,
    Str,
    Num(Double),
    Op(Op),
    LParen,
    RParen,
}

/// One token, with the byte offset it stands at.
#[derive(Debug)]
struct Token {
    text: String,
    kind: Kind,
    at: usize,
}

/// A token as a value to compare with.
pub struct Tok {
    pub text: Seq<char>,
    pub kind: Kind,
    pub at: nat,
}

impl View for Token {
    type V = Tok;

    closed spec fn view(&self) -> Tok {
        Tok { text: self.text@, kind: self.kind, at: self.at as nat }
    }
}

spec fn toks(v: Seq<Token>) -> Seq<Tok> {
    Seq::new(v.len(), |i: int| v[i]@)
}

/// The byte offset of a character.
pub open spec fn offset(s: Seq<char>, i: int) -> nat {
    encode_utf8(s.take(i)).len()
}

/// A blank between terms.
pub open spec fn is_gap(c: char) -> bool {
    ('\t' <= c <= '\r') || c == ' '
}

pub open spec fn is_letter(c: char) -> bool {
    'a' <= c <= 'z' || 'A' <= c <= 'Z'
}

pub open spec fn is_digit(c: char) -> bool {
    '0' <= c <= '9'
}

/// Is a byte past ASCII the number of a letter or a numeral?
pub open spec fn high_alphanumeric(b: u8) -> bool {
    b == 0xaa || b == 0xb2 || b == 0xb3 || b == 0xb5 || b == 0xb9 || b == 0xba || (0xbc <= b
        <= 0xbe) || (b >= 0xc0 && b != 0xd7 && b != 0xf7)
}

/// Can a character past ASCII stand in a word? Words are read byte by byte, so
/// each byte of it has to be the number of a letter or a numeral.
pub open spec fn high_word_char(c: char) -> bool {
    let b = encode_scalar(c as u32);
    (c as u32) >= 0x80 && forall|i: int| 0 <= i < b.len() ==> high_alphanumeric(#[trigger] b[i])
}

/// Can a character begin a word?
pub open spec fn starts_word(c: char) -> bool {
    is_letter(c) || c == '_' || high_word_char(c)
}

/// Can a character stand in a word? A `|` joins the alternatives of a value.
pub open spec fn in_word(c: char) -> bool {
    is_letter(c) || is_digit(c) || c == '_' || c == '.' || c == '-' || c == '|' || high_word_char(c)
}

/// How many characters at the start can stand in a word.
pub open spec fn word_run(s: Seq<char>) -> nat
    decreases s.len(),
{
    if s.len() > 0 && in_word(s[0]) {
        1 + word_run(s.drop_first())
    } else {
        0
    }
}

/// How many characters at the start are digits or points.
pub open spec fn number_run(s: Seq<char>) -> nat
    decreases s.len(),
{
    if s.len() > 0 && (is_digit(s[0]) || s[0] == '.') {
        1 + number_run(s.drop_first())
    } else {
        0
    }
}

/// A suffix on a number: what it multiplies by, and its length. The longest
/// one counts, so that `ms` is not read as `m`.
pub open spec fn suffix_at(s: Seq<char>) -> Option<(int, int)> {
    if starts_with(s, "KiB"@) {
        Some((1024int, 3int))
    } else if starts_with(s, "MiB"@) {
        Some((1_048_576int, 3int))
    } else if starts_with(s, "GiB"@) {
        Some((1_073_741_824int, 3int))
    } else if starts_with(s, "ms"@) {
        Some((1int, 2int))
    } else if starts_with(s, "s"@) {
        Some((1000int, 1int))
    } else if starts_with(s, "m"@) {
        Some((60_000int, 1int))
    } else if starts_with(s, "K"@) {
        Some((1000int, 1int))
    } else if starts_with(s, "M"@) {
        Some((1_000_000int, 1int))
    } else if starts_with(s, "G"@) {
        Some((1_000_000_000int, 1int))
    } else if starts_with(s, "%"@) {
        Some((1int, 1int))
    } else {
        None
    }
}

/// An operator of two characters.
pub open spec fn long_op(s: Seq<char>, i: int) -> Option<Op> {
    if i + 1 < s.len() && s[i + 1] == '=' {
        if s[i] == '=' {
            Some(Op::Eq)
        } else if s[i] == '!' {
            Some(Op::Ne)
        } else if s[i] == '>' {
            Some(Op::Ge)
        } else if s[i] == '<' {
            Some(Op::Le)
        } else {
            None
        }
    } else {
        None
    }
}

/// An operator of one character. A single `=` is the most common typo for `==`
/// and is accepted.
pub open spec fn short_op(c: char) -> Option<Op> {
    if c == '>' {
        Some(Op::Gt)
    } else if c == '<' {
        Some(Op::Lt)
    } else if c == '~' {
        Some(Op::Match)
    } else if c == '=' {
        Some(Op::Eq)
    } else {
        None
    }
}

/// What stands at one place of an expression.
pub enum Step {
    Gap(int),
    Token(Tok, int),
    Fail(Fault),
}

/// A number at `i`.
pub open spec fn number_step(s: Seq<char>, i: int) -> Step {
    let j = i + number_run(s.skip(i));
    match parse_double(s.subrange(i, j)) {
        None => Step::Fail(
            Fault {
                at: offset(s, i),
                msg: "`"@ + s.subrange(i, j) + "` is not a number"@,
            },
        ),
        Some(n) => match suffix_at(s.skip(j)) {
            None => Step::Token(
                Tok { text: s.subrange(i, j), kind: Kind::Num(n), at: offset(s, i) },
                j,
            ),
            Some((scale, len)) => Step::Token(
                Tok {
                    text: s.subrange(i, j + len),
                    kind: Kind::Num(product(n, whole(scale))),
                    at: offset(s, i),
                },
                j + len,
            ),
        },
    }
}

/// What stands at `i`, and where what follows it begins.
pub open spec fn step_at(s: Seq<char>, i: int) -> Step {
    let c = s[i];
    let at = offset(s, i);
    if is_gap(c) {
        Step::Gap(i + 1)
    } else if c == '"' || c == '\'' {
        let k = find(s.skip(i + 1), c) as int;
        if k >= s.skip(i + 1).len() {
            Step::Fail(Fault { at, msg: "unterminated string"@ })
        } else {
            Step::Token(
                Tok { text: s.subrange(i + 1, i + 1 + k), kind: Kind::Str, at },
                i + k + 2,
            )
        }
    } else if long_op(s, i) is Some {
        Step::Token(
            Tok { text: s.subrange(i, i + 2), kind: Kind::Op(long_op(s, i)->0), at },
            i + 2,
        )
    } else if short_op(c) is Some {
        Step::Token(Tok { text: seq![c], kind: Kind::Op(short_op(c)->0), at }, i + 1)
    } else if c == '(' {
        Step::Token(Tok { text: seq![c], kind: Kind::LParen, at }, i + 1)
    } else if c == ')' {
        Step::Token(Tok { text: seq![c], kind: Kind::RParen, at }, i + 1)
    } else if is_digit(c) {
        number_step(s, i)
    } else if starts_word(c) {
        let j = i + 1 + word_run(s.skip(i + 1));
        Step::Token(Tok { text: s.subrange(i, j), kind: Kind::Word, at }, j)
    } else {
        Step::Fail(
            Fault {
                at,
                msg: "`"@ + seq![latin1(encode_scalar(c as u32)[0])] + "` cannot start a term"@,
            },
        )
    }
}

pub proof fn lemma_number_run(s: Seq<char>)
    ensures
        number_run(s) <= s.len(),
    decreases s.len(),
{
    if s.len() > 0 {
        lemma_number_run(s.drop_first());
    }
}

pub proof fn lemma_word_run(s: Seq<char>)
    ensures
        word_run(s) <= s.len(),
    decreases s.len(),
{
    if s.len() > 0 {
        lemma_word_run(s.drop_first());
    }
}

pub proof fn lemma_suffix(s: Seq<char>)
    ensures
        suffix_at(s) matches Some((scale, len)) ==> 0 < len <= s.len() && 0 < scale
            <= 1_073_741_824,
{
    reveal_strlit("KiB");
    reveal_strlit("MiB");
    reveal_strlit("GiB");
    reveal_strlit("ms");
    reveal_strlit("s");
    reveal_strlit("m");
    reveal_strlit("K");
    reveal_strlit("M");
    reveal_strlit("G");
    reveal_strlit("%");
}

/// Every step goes on, and none past the end.
pub proof fn lemma_step_goes_on(s: Seq<char>, i: int)
    requires
        0 <= i < s.len(),
    ensures
        match step_at(s, i) {
            Step::Gap(n) => i < n <= s.len(),
            Step::Token(t, n) => i < n <= s.len(),
            Step::Fail(_) => true,
        },
{
    let rest = s.skip(i);
    lemma_number_run(rest);
    lemma_word_run(s.skip(i + 1));
    lemma_find(s.skip(i + 1), s[i]);
    assert(rest[0] == s[i]);
    if is_digit(s[i]) {
        assert(rest.drop_first() =~= s.skip(i + 1));
        lemma_number_run(s.skip(i + 1));
        assert(number_run(rest) >= 1);
        lemma_suffix(s.skip(i + number_run(rest)));
    }
}

/// A result with a token in front.
pub open spec fn after_token(t: Tok, r: Result<Seq<Tok>, Fault>) -> Result<Seq<Tok>, Fault> {
    match r {
        Ok(rest) => Ok(seq![t] + rest),
        Err(e) => Err(e),
    }
}

/// The tokens from `i` on.
pub open spec fn tokens_from(s: Seq<char>, i: int) -> Result<Seq<Tok>, Fault>
    decreases s.len() - i,
{
    if i < 0 || i >= s.len() {
        Ok(seq![])
    } else {
        proof {
            lemma_step_goes_on(s, i);
        }
        match step_at(s, i) {
            Step::Gap(n) => tokens_from(s, n),
            Step::Token(t, n) => after_token(t, tokens_from(s, n)),
            Step::Fail(e) => Err(e),
        }
    }
}

// ── expressions ────────────────────────────────────────────────────────

/// A value to compare a field with.
pub enum ValueView {
    Num(Double),
    Str(Seq<char>),
}

/// An expression as a value.
pub enum Expr {
    Compare { field: Seq<char>, op: Op, value: ValueView },
    /// A bare field name, true when the field exists and is truthy.
    Truthy(Seq<char>),
    And(Box<Expr>, Box<Expr>),
    Or(Box<Expr>, Box<Expr>),
    Not(Box<Expr>),
}

/// What parsing gives: an expression and the place behind it, or what is wrong.
pub type Parsed = Result<(Expr, int), Fault>;

/// Is the token at `p` this word, in either case?
pub open spec fn word_at(t: Seq<Tok>, p: int, w: Seq<char>) -> bool {
    p < t.len() && t[p].kind == Kind::Word && lower(t[p].text) == lower(w)
}

/// Where the last token ends.
pub open spec fn end_of(t: Seq<Tok>) -> nat {
    if t.len() == 0 {
        0
    } else {
        t.last().at + encode_utf8(t.last().text).len()
    }
}

/// The value in a token.
pub open spec fn value_in(t: Tok) -> Option<ValueView> {
    match t.kind {
        Kind::Num(n) => Some(ValueView::Num(n)),
        Kind::Str => Some(ValueView::Str(t.text)),
        Kind::Word => Some(ValueView::Str(t.text)),
        _ => None,
    }
}

/// A comparison or a bare field, where the field's name is the token at `p`.
pub open spec fn term_at(t: Seq<Tok>, p: int) -> Parsed {
    let field = t[p].text;
    if p + 1 >= t.len() {
        Ok((Expr::Truthy(field), p + 1))
    } else {
        match t[p + 1].kind {
            Kind::Op(op) => if p + 2 >= t.len() {
                Err(
                    Fault {
                        at: end_of(t),
                        msg: "`"@ + field + " "@ + op.sign() + "` needs a value"@,
                    },
                )
            } else {
                match value_in(t[p + 2]) {
                    Some(value) => Ok((Expr::Compare { field, op, value }, p + 3)),
                    None => Err(
                        Fault {
                            at: t[p + 2].at,
                            msg: "`"@ + t[p + 2].text + "` is not a value"@,
                        },
                    ),
                }
            },
            _ => Ok((Expr::Truthy(field), p + 1)),
        }
    }
}

/// `or := and ("or" and)*`
///
/// What is parsed always goes on and stays inside; the test on that is what the
/// recursion ends by, here and below.
pub open spec fn or_at(t: Seq<Tok>, p: int) -> Parsed
    decreases t.len() - p, 4nat,
{
    match and_at(t, p) {
        Err(e) => Err(e),
        Ok((left, q)) => if q <= p || q > t.len() {
            Err(Fault { at: 0, msg: seq![] })
        } else {
            or_rest(t, q, left)
        },
    }
}

/// More alternatives, behind one.
pub open spec fn or_rest(t: Seq<Tok>, p: int, left: Expr) -> Parsed
    decreases t.len() - p, 5nat,
{
    if word_at(t, p, "or"@) {
        match and_at(t, p + 1) {
            Err(e) => Err(e),
            Ok((right, q)) => if q <= p || q > t.len() {
                Err(Fault { at: 0, msg: seq![] })
            } else {
                or_rest(t, q, Expr::Or(Box::new(left), Box::new(right)))
            },
        }
    } else {
        Ok((left, p))
    }
}

/// `and := not ("and" not)*`
pub open spec fn and_at(t: Seq<Tok>, p: int) -> Parsed
    decreases t.len() - p, 2nat,
{
    match not_at(t, p) {
        Err(e) => Err(e),
        Ok((left, q)) => if q <= p || q > t.len() {
            Err(Fault { at: 0, msg: seq![] })
        } else {
            and_rest(t, q, left)
        },
    }
}

/// More conditions, behind one.
pub open spec fn and_rest(t: Seq<Tok>, p: int, left: Expr) -> Parsed
    decreases t.len() - p, 3nat,
{
    if word_at(t, p, "and"@) {
        match not_at(t, p + 1) {
            Err(e) => Err(e),
            Ok((right, q)) => if q <= p || q > t.len() {
                Err(Fault { at: 0, msg: seq![] })
            } else {
                and_rest(t, q, Expr::And(Box::new(left), Box::new(right)))
            },
        }
    } else {
        Ok((left, p))
    }
}

/// `not := "not" not | primary`, where a primary is an expression in
/// parentheses or a term.
pub open spec fn not_at(t: Seq<Tok>, p: int) -> Parsed
    decreases t.len() - p, 0nat,
{
    if word_at(t, p, "not"@) {
        match not_at(t, p + 1) {
            Err(e) => Err(e),
            Ok((inner, q)) => Ok((Expr::Not(Box::new(inner)), q)),
        }
    } else if p >= t.len() {
        Err(Fault { at: end_of(t), msg: "expected a term, found end of expression"@ })
    } else if t[p].kind == Kind::LParen {
        match or_at(t, p + 1) {
            Err(e) => Err(e),
            Ok((inner, q)) => if q < t.len() && t[q].kind == Kind::RParen {
                Ok((inner, q + 1))
            } else {
                Err(Fault { at: t[p].at, msg: "unclosed `(`"@ })
            },
        }
    } else if t[p].kind != Kind::Word || t[p].text.contains('|') {
        Err(
            Fault {
                at: t[p].at,
                msg: "expected a field name, found `"@ + t[p].text + "`"@,
            },
        )
    } else {
        term_at(t, p)
    }
}

/// The expression in a text.
pub open spec fn expression(s: Seq<char>) -> Result<Expr, Fault> {
    match tokens_from(s, 0) {
        Err(e) => Err(e),
        Ok(t) => match or_at(t, 0) {
            Err(e) => Err(e),
            Ok((root, p)) => if p < t.len() {
                Err(
                    Fault {
                        at: t[p].at,
                        msg: "unexpected `"@ + t[p].text + "` after a complete expression"@,
                    },
                )
            } else {
                Ok(root)
            },
        },
    }
}

// ── reading tokens ─────────────────────────────────────────────────────

/// Offsets grow by what stands in between.
proof fn lemma_offset(s: Seq<char>, i: int, j: int)
    requires
        0 <= i <= j <= s.len(),
    ensures
        offset(s, j) == offset(s, i) + encode_utf8(s.subrange(i, j)).len(),
        offset(s, j) <= encode_utf8(s).len(),
{
    assert(s.take(j) =~= s.take(i) + s.subrange(i, j));
    lemma_utf8_concat(s.take(i), s.subrange(i, j));
    assert(s =~= s.take(j) + s.skip(j));
    lemma_utf8_concat(s.take(j), s.skip(j));
}

/// How many bytes some characters take.
fn byte_len(s: &[char]) -> (r: usize)
    ensures
        r == encode_utf8(s@).len(),
{
    let t: String = from_chars(s);
    t.as_str().as_bytes().len()
}

/// Can a character past ASCII stand in a word?
fn is_high_word_char(c: char) -> (r: bool)
    ensures
        r == high_word_char(c),
{
    if (c as u32) < 0x80 {
        return false;
    }
    let mut s: String = String::new();
    s.push(c);
    let bytes: &[u8] = s.as_str().as_bytes();
    proof {
        lemma_one_char(c);
        assert(s@ =~= seq![c]);
    }
    let mut i: usize = 0;
    while i < bytes.len()
        invariant
            i <= bytes@.len(),
            bytes@ == encode_scalar(c as u32),
            forall|k: int| 0 <= k < i ==> high_alphanumeric(#[trigger] bytes@[k]),
        decreases bytes@.len() - i,
    {
        let b: u8 = bytes[i];
        if !(b == 0xaa || b == 0xb2 || b == 0xb3 || b == 0xb5 || b == 0xb9 || b == 0xba || (b
            >= 0xbc && b <= 0xbe) || (b >= 0xc0 && b != 0xd7 && b != 0xf7)) {
            assert(!high_alphanumeric(bytes@[i as int]));
            return false;
        }
        i += 1;
    }
    true
}

proof fn lemma_one_char(c: char)
    ensures
        encode_utf8(seq![c]) == encode_scalar(c as u32),
        encode_scalar(c as u32).len() >= 1,
{
    let s = seq![c];
    assert(s.drop_first() =~= Seq::<char>::empty());
    assert(encode_utf8(s.drop_first()) =~= Seq::<u8>::empty());
    assert(encode_utf8(s) =~= encode_scalar(c as u32));
}

fn can_start_word(c: char) -> (r: bool)
    ensures
        r == starts_word(c),
{
    ('a' <= c && c <= 'z') || ('A' <= c && c <= 'Z') || c == '_' || is_high_word_char(c)
}

fn can_stand_in_word(c: char) -> (r: bool)
    ensures
        r == in_word(c),
{
    ('a' <= c && c <= 'z') || ('A' <= c && c <= 'Z') || ('0' <= c && c <= '9') || c == '_' || c
        == '.' || c == '-' || c == '|' || is_high_word_char(c)
}

/// Suffixes accepted on numbers, so a filter can say what it means.
///
/// `write_bytes > 100M` beats `write_bytes > 104857600` for the same reason
/// `--window 3s` beats `--window 3000`.
fn suffix_scale(s: &[char]) -> (r: Option<(u64, usize)>)
    ensures
        r is Some == suffix_at(s@) is Some,
        r matches Some((scale, len)) ==> suffix_at(s@) == Some((scale as int, len as int)),
{
    if has_prefix(s, "KiB") {
        Some((1024, 3))
    } else if has_prefix(s, "MiB") {
        Some((1_048_576, 3))
    } else if has_prefix(s, "GiB") {
        Some((1_073_741_824, 3))
    } else if has_prefix(s, "ms") {
        Some((1, 2))
    } else if has_prefix(s, "s") {
        Some((1000, 1))
    } else if has_prefix(s, "m") {
        Some((60_000, 1))
    } else if has_prefix(s, "K") {
        Some((1000, 1))
    } else if has_prefix(s, "M") {
        Some((1_000_000, 1))
    } else if has_prefix(s, "G") {
        Some((1_000_000_000, 1))
    } else if has_prefix(s, "%") {
        Some((1, 1))
    } else {
        None
    }
}

/// What reading one token gives: nothing for a blank.
struct Read {
    token: Option<Token>,
    next: usize,
}

/// Does a result say what stands at `i`?
spec fn read_says(r: Result<Read, ParseError>, s: Seq<char>, i: int) -> bool {
    match step_at(s, i) {
        Step::Gap(n) => r is Ok && (r->Ok_0).token is None && (r->Ok_0).next == n,
        Step::Token(t, n) => {
            &&& r is Ok
            &&& (r->Ok_0).token is Some
            &&& ((r->Ok_0).token->0)@ == t
            &&& (r->Ok_0).next == n
        },
        Step::Fail(e) => r is Err && (r->Err_0)@ == e,
    }
}

fn token(text: String, kind: Kind, at: usize, next: usize) -> (r: Result<Read, ParseError>)
    ensures
        r is Ok,
        (r->Ok_0).token is Some,
        ((r->Ok_0).token->0)@ == (Tok { text: text@, kind, at: at as nat }),
        (r->Ok_0).next == next,
{
    Ok(Read { token: Some(Token { text, kind, at }), next })
}

fn read_number(c: &[char], i: usize, at: usize) -> (r: Result<Read, ParseError>)
    requires
        i < c@.len(),
        at == offset(c@, i as int),
        is_digit(c@[i as int]),
        step_at(c@, i as int) == number_step(c@, i as int),
    ensures
        read_says(r, c@, i as int),
{
    let ghost rest = c@.skip(i as int);
    let mut j: usize = i;
    while j < c.len() && (('0' <= c[j] && c[j] <= '9') || c[j] == '.')
        invariant
            i <= j <= c@.len(),
            j - i + number_run(c@.skip(j as int)) == number_run(rest),
        decreases c@.len() - j,
    {
        assert(c@.skip(j as int).drop_first() =~= c@.skip(j + 1));
        j += 1;
    }
    assert(number_run(rest) == j - i);
    let digits: &[char] = slice_subrange(c, i, j);
    match read_double(digits) {
        None => {
            let mut msg: String = copy_text("`");
            push_chars(&mut msg, digits);
            msg.push_str("` is not a number");
            Err(ParseError { at, msg })
        },
        Some(n) => {
            let tail: &[char] = slice_subrange(c, j, c.len());
            assert(tail@ =~= c@.skip(j as int));
            proof {
                lemma_suffix(tail@);
            }
            match suffix_scale(tail) {
                None => token(from_chars(digits), Kind::Num(n), at, j),
                Some((scale, len)) => {
                    let scaled: Double = n.times(&Double::from_u64(scale));
                    token(
                        from_chars(slice_subrange(c, i, j + len)),
                        Kind::Num(scaled),
                        at,
                        j + len,
                    )
                },
            }
        },
    }
}

fn read_word(c: &[char], i: usize, at: usize) -> (r: Result<Read, ParseError>)
    requires
        i < c@.len(),
        at == offset(c@, i as int),
        step_at(c@, i as int) == Step::Token(
            Tok {
                text: c@.subrange(i as int, i + 1 + word_run(c@.skip(i + 1))),
                kind: Kind::Word,
                at: offset(c@, i as int),
            },
            i + 1 + word_run(c@.skip(i + 1)),
        ),
    ensures
        read_says(r, c@, i as int),
{
    let ghost rest = c@.skip(i + 1);
    let n: usize = c.len();
    let mut j: usize = i + 1;
    while j < n && can_stand_in_word(c[j])
        invariant
            i < j <= n == c@.len(),
            j - i - 1 + word_run(c@.skip(j as int)) == word_run(rest),
        decreases c@.len() - j,
    {
        assert(c@.skip(j as int).drop_first() =~= c@.skip(j + 1));
        j += 1;
    }
    assert(word_run(rest) == j - i - 1);
    token(from_chars(slice_subrange(c, i, j)), Kind::Word, at, j)
}

fn read_quoted(c: &[char], i: usize, at: usize) -> (r: Result<Read, ParseError>)
    requires
        i < c@.len(),
        at == offset(c@, i as int),
        c@[i as int] == '"' || c@[i as int] == '\'',
    ensures
        read_says(r, c@, i as int),
{
    let n: usize = c.len();
    let rest: &[char] = slice_subrange(c, i + 1, n);
    assert(rest@ =~= c@.skip(i + 1));
    let k: usize = position(rest, c[i]);
    if k >= rest.len() {
        return Err(ParseError { at, msg: copy_text("unterminated string") });
    }
    token(from_chars(slice_subrange(c, i + 1, i + 1 + k)), Kind::Str, at, i + k + 2)
}

/// Two characters as an operator.
fn read_long_op(c: &[char], i: usize) -> (r: Option<Op>)
    requires
        i < c@.len(),
    ensures
        r == long_op(c@, i as int),
{
    let n: usize = c.len();
    if i + 1 < n && c[i + 1] == '=' {
        if c[i] == '=' {
            Some(Op::Eq)
        } else if c[i] == '!' {
            Some(Op::Ne)
        } else if c[i] == '>' {
            Some(Op::Ge)
        } else if c[i] == '<' {
            Some(Op::Le)
        } else {
            None
        }
    } else {
        None
    }
}

fn read_short_op(c: char) -> (r: Option<Op>)
    ensures
        r == short_op(c),
{
    if c == '>' {
        Some(Op::Gt)
    } else if c == '<' {
        Some(Op::Lt)
    } else if c == '~' {
        Some(Op::Match)
    } else if c == '=' {
        Some(Op::Eq)
    } else {
        None
    }
}

fn one_char(c: char) -> (r: String)
    ensures
        r@ == seq![c],
{
    let mut s: String = String::new();
    s.push(c);
    assert(s@ =~= seq![c]);
    s
}

/// What stands at `i`, `at` bytes into the input.
fn read_token(c: &[char], i: usize, at: usize) -> (r: Result<Read, ParseError>)
    requires
        i < c@.len(),
        at == offset(c@, i as int),
    ensures
        read_says(r, c@, i as int),
{
    let x: char = c[i];
    if ('\t' <= x && x <= '\r') || x == ' ' {
        return Ok(Read { token: None, next: i + 1 });
    }
    if x == '"' || x == '\'' {
        return read_quoted(c, i, at);
    }
    if let Some(op) = read_long_op(c, i) {
        return token(from_chars(slice_subrange(c, i, i + 2)), Kind::Op(op), at, i + 2);
    }
    if let Some(op) = read_short_op(x) {
        return token(one_char(x), Kind::Op(op), at, i + 1);
    }
    if x == '(' {
        return token(one_char(x), Kind::LParen, at, i + 1);
    }
    if x == ')' {
        return token(one_char(x), Kind::RParen, at, i + 1);
    }
    if '0' <= x && x <= '9' {
        return read_number(c, i, at);
    }
    if can_start_word(x) {
        return read_word(c, i, at);
    }
    let shown: String = one_char(x);
    let bytes: &[u8] = shown.as_str().as_bytes();
    proof {
        lemma_one_char(x);
    }
    let mut msg: String = copy_text("`");
    msg.push(bytes[0] as char);
    assert(msg@ =~= "`"@ + seq![latin1(encode_scalar(x as u32)[0])]);
    msg.push_str("` cannot start a term");
    Err(ParseError { at, msg })
}

/// A result with tokens in front.
spec fn after_tokens(front: Seq<Tok>, r: Result<Seq<Tok>, Fault>) -> Result<Seq<Tok>, Fault> {
    match r {
        Ok(rest) => Ok(front + rest),
        Err(e) => Err(e),
    }
}

/// Every token lies within the input.
spec fn tokens_fit(v: Seq<Token>, limit: nat) -> bool {
    forall|k: int|
        0 <= k < v.len() ==> (#[trigger] v[k]).at + encode_utf8(v[k].text@).len() <= limit
}

/// Split an expression into tokens.
fn lex(input: &str) -> (r: Result<Vec<Token>, ParseError>)
    ensures
        match tokens_from(input@, 0) {
            Ok(t) => r is Ok && toks((r->Ok_0)@) == t,
            Err(e) => r is Err && (r->Err_0)@ == e,
        },
        r matches Ok(v) ==> tokens_fit(v@, usize::MAX as nat),
{
    let total: usize = input.as_bytes().len();
    let c: Vec<char> = to_chars(input);
    let mut out: Vec<Token> = Vec::new();
    let mut i: usize = 0;
    let mut at: usize = 0;
    let ghost want = tokens_from(input@, 0);
    assert(toks(out@) =~= seq![]);
    assert(after_tokens(toks(out@), want) == want) by {
        if let Ok(t) = want {
            assert(toks(out@) + t =~= t);
        }
    }
    assert(c@.take(0) =~= Seq::<char>::empty());
    while i < c.len()
        invariant
            i <= c@.len(),
            c@ == input@,
            total == encode_utf8(c@).len(),
            at == offset(c@, i as int),
            want == tokens_from(input@, 0),
            after_tokens(toks(out@), tokens_from(c@, i as int)) == want,
            tokens_fit(out@, usize::MAX as nat),
        decreases c@.len() - i,
    {
        proof {
            lemma_step_goes_on(c@, i as int);
        }
        match read_token(&c, i, at) {
            Err(e) => {
                return Err(e);
            },
            Ok(read) => {
                let next: usize = read.next;
                let ghost out0 = out@;
                proof {
                    lemma_offset(c@, i as int, next as int);
                    lemma_step_fits(c@, i as int);
                }
                let width: usize = byte_len(slice_subrange(c.as_slice(), i, next));
                at = at + width;
                if let Some(t) = read.token {
                    let ghost tok = t@;
                    out.push(t);
                    proof {
                        assert(toks(out@) =~= toks(out0).push(tok));
                        if let Ok(rest) = tokens_from(c@, next as int) {
                            assert(toks(out0) + (seq![tok] + rest) =~= toks(out@) + rest);
                        }
                    }
                }
                i = next;
            },
        }
    }
    assert(toks(out@) + Seq::<Tok>::empty() =~= toks(out@));
    Ok(out)
}

/// A token's text lies within the input.
proof fn lemma_step_fits(s: Seq<char>, i: int)
    requires
        0 <= i < s.len(),
    ensures
        step_at(s, i) matches Step::Token(t, n) ==> t.at + encode_utf8(t.text).len()
            <= encode_utf8(s).len(),
{
    lemma_step_goes_on(s, i);
    if let Step::Token(t, n) = step_at(s, i) {
        lemma_offset(s, i, n);
        let all = s.subrange(i, n);
        if t.kind == Kind::Str {
            // The quotes stand around it.
            let k = t.text.len() as int;
            lemma_find(s.skip(i + 1), s[i]);
            assert(all =~= all.take(1) + t.text + all.skip(1 + k));
            lemma_utf8_concat(all.take(1) + t.text, all.skip(1 + k));
            lemma_utf8_concat(all.take(1), t.text);
        } else {
            assert(t.text =~= all);
        }
    }
}

// ── parsing ────────────────────────────────────────────────────────────

/// A value to compare a field with.
#[derive(Debug)]
enum Value {
    Num(Double),
    Str(String),
}

impl View for Value {
    type V = ValueView;

    closed spec fn view(&self) -> ValueView {
        match self {
            Value::Num(n) => ValueView::Num(*n),
            Value::Str(s) => ValueView::Str(s@),
        }
    }
}

#[derive(Debug)]
enum Node {
    Compare { field: String, op: Op, value: Value },
    Truthy(String),
    And(Box<Node>, Box<Node>),
    Or(Box<Node>, Box<Node>),
    Not(Box<Node>),
}

/// The expression that a node stands for.
spec fn expr_of(n: Node) -> Expr
    decreases n,
{
    match n {
        Node::Compare { field, op, value } => Expr::Compare { field: field@, op, value: value@ },
        Node::Truthy(f) => Expr::Truthy(f@),
        Node::And(a, b) => Expr::And(Box::new(expr_of(*a)), Box::new(expr_of(*b))),
        Node::Or(a, b) => Expr::Or(Box::new(expr_of(*a)), Box::new(expr_of(*b))),
        Node::Not(a) => Expr::Not(Box::new(expr_of(*a))),
    }
}

/// Does a result say what the grammar says?
spec fn parse_says(r: Result<(Node, usize), ParseError>, t: Seq<Tok>, p: int, want: Parsed) -> bool {
    match r {
        Ok((n, q)) => {
            &&& want is Ok
            &&& p < q <= t.len()
            &&& expr_of(n) == (want->Ok_0).0
            &&& q == (want->Ok_0).1
        },
        Err(e) => want is Err && e@ == want->Err_0,
    }
}

fn is_word(t: &Vec<Token>, p: usize, w: &str) -> (r: bool)
    ensures
        r == word_at(toks(t@), p as int, w@),
        r ==> p < t@.len() && p < usize::MAX,
{
    p < t.len() && t[p].kind == Kind::Word && same_ignoring_case(&to_chars(t[p].text.as_str()), w)
}

fn end_of_input(t: &Vec<Token>) -> (r: usize)
    requires
        tokens_fit(t@, usize::MAX as nat),
    ensures
        r == end_of(toks(t@)),
{
    let n: usize = t.len();
    if n == 0 {
        return 0;
    }
    let last: &Token = &t[n - 1];
    assert(toks(t@).last() == last@);
    last.at + last.text.as_str().as_bytes().len()
}

/// A comparison or a bare field.
fn parse_term(t: &Vec<Token>, p: usize) -> (r: Result<(Node, usize), ParseError>)
    requires
        p < t@.len(),
        tokens_fit(t@, usize::MAX as nat),
    ensures
        parse_says(r, toks(t@), p as int, term_at(toks(t@), p as int)),
{
    let ghost ts = toks(t@);
    let n: usize = t.len();
    let field: String = t[p].text.clone();
    assert(ts[p as int] == t@[p as int]@);
    if p + 1 >= n {
        return Ok((Node::Truthy(field), p + 1));
    }
    assert(ts[p + 1] == t@[p + 1]@);
    match t[p + 1].kind {
        Kind::Op(op) => {
            if p + 2 >= n {
                let mut msg: String = copy_text("`");
                msg.push_str(field.as_str());
                msg.push_str(" ");
                msg.push_str(op.as_str());
                msg.push_str("` needs a value");
                return Err(ParseError { at: end_of_input(t), msg });
            }
            let vt: &Token = &t[p + 2];
            assert(ts[p + 2] == vt@);
            match vt.kind {
                Kind::Num(x) => Ok((Node::Compare { field, op, value: Value::Num(x) }, p + 3)),
                Kind::Str => Ok(
                    (Node::Compare { field, op, value: Value::Str(vt.text.clone()) }, p + 3),
                ),
                Kind::Word => Ok(
                    (Node::Compare { field, op, value: Value::Str(vt.text.clone()) }, p + 3),
                ),
                _ => {
                    let mut msg: String = copy_text("`");
                    msg.push_str(vt.text.as_str());
                    msg.push_str("` is not a value");
                    Err(ParseError { at: vt.at, msg })
                },
            }
        },
        _ => Ok((Node::Truthy(field), p + 1)),
    }
}

/// `or := and ("or" and)*`
fn parse_or(t: &Vec<Token>, p: usize) -> (r: Result<(Node, usize), ParseError>)
    requires
        p <= t@.len(),
        tokens_fit(t@, usize::MAX as nat),
    ensures
        parse_says(r, toks(t@), p as int, or_at(toks(t@), p as int)),
    decreases t@.len() - p, 4nat,
{
    let ghost ts = toks(t@);
    let ghost want = or_at(ts, p as int);
    let (first, next): (Node, usize) = match parse_and(t, p) {
        Err(e) => return Err(e),
        Ok(found) => found,
    };
    let mut left: Node = first;
    let mut q: usize = next;
    while is_word(t, q, "or")
        invariant
            p < q <= t@.len(),
            ts == toks(t@),
            tokens_fit(t@, usize::MAX as nat),
            want == or_at(ts, p as int),
            or_rest(ts, q as int, expr_of(left)) == want,
        decreases t@.len() - q,
    {
        match parse_and(t, q + 1) {
            Err(e) => {
                return Err(e);
            },
            Ok((right, n)) => {
                left = Node::Or(Box::new(left), Box::new(right));
                q = n;
            },
        }
    }
    Ok((left, q))
}

/// `and := not ("and" not)*`
fn parse_and(t: &Vec<Token>, p: usize) -> (r: Result<(Node, usize), ParseError>)
    requires
        p <= t@.len(),
        tokens_fit(t@, usize::MAX as nat),
    ensures
        parse_says(r, toks(t@), p as int, and_at(toks(t@), p as int)),
    decreases t@.len() - p, 2nat,
{
    let ghost ts = toks(t@);
    let ghost want = and_at(ts, p as int);
    let (first, next): (Node, usize) = match parse_not(t, p) {
        Err(e) => return Err(e),
        Ok(found) => found,
    };
    let mut left: Node = first;
    let mut q: usize = next;
    while is_word(t, q, "and")
        invariant
            p < q <= t@.len(),
            ts == toks(t@),
            tokens_fit(t@, usize::MAX as nat),
            want == and_at(ts, p as int),
            and_rest(ts, q as int, expr_of(left)) == want,
        decreases t@.len() - q,
    {
        match parse_not(t, q + 1) {
            Err(e) => {
                return Err(e);
            },
            Ok((right, n)) => {
                left = Node::And(Box::new(left), Box::new(right));
                q = n;
            },
        }
    }
    Ok((left, q))
}

/// `not := "not" not | primary`
fn parse_not(t: &Vec<Token>, p: usize) -> (r: Result<(Node, usize), ParseError>)
    requires
        p <= t@.len(),
        tokens_fit(t@, usize::MAX as nat),
    ensures
        parse_says(r, toks(t@), p as int, not_at(toks(t@), p as int)),
    decreases t@.len() - p, 1nat,
{
    if is_word(t, p, "not") {
        return match parse_not(t, p + 1) {
            Err(e) => Err(e),
            Ok((inner, q)) => Ok((Node::Not(Box::new(inner)), q)),
        };
    }
    parse_primary(t, p)
}

/// An expression in parentheses, or a term.
fn parse_primary(t: &Vec<Token>, p: usize) -> (r: Result<(Node, usize), ParseError>)
    requires
        p <= t@.len(),
        tokens_fit(t@, usize::MAX as nat),
        !word_at(toks(t@), p as int, "not"@),
    ensures
        parse_says(r, toks(t@), p as int, not_at(toks(t@), p as int)),
    decreases t@.len() - p, 0nat,
{
    let ghost ts = toks(t@);
    if p >= t.len() {
        return Err(
            ParseError {
                at: end_of_input(t),
                msg: copy_text("expected a term, found end of expression"),
            },
        );
    }
    assert(ts[p as int] == t@[p as int]@);
    if t[p].kind == Kind::LParen {
        return match parse_or(t, p + 1) {
            Err(e) => Err(e),
            Ok((inner, q)) => if q < t.len() && t[q].kind == Kind::RParen {
                assert(ts[q as int] == t@[q as int]@);
                Ok((inner, q + 1))
            } else {
                assert(q < t@.len() ==> ts[q as int] == t@[q as int]@);
                Err(ParseError { at: t[p].at, msg: copy_text("unclosed `(`") })
            },
        };
    }
    if t[p].kind != Kind::Word || has_char(&to_chars(t[p].text.as_str()), '|') {
        let mut msg: String = copy_text("expected a field name, found `");
        msg.push_str(t[p].text.as_str());
        msg.push_str("`");
        return Err(ParseError { at: t[p].at, msg });
    }
    parse_term(t, p)
}

// ── evaluating ─────────────────────────────────────────────────────────

/// The gap between one and the next larger double: two to the power of minus
/// 52. Numbers closer together than this are taken as equal.
pub const EPSILON: u64 = 0x3cb0_0000_0000_0000;

/// How far apart two numbers are.
pub open spec fn distance(a: Double, b: Double) -> Double {
    signed(false, difference(a, b).magnitude())
}

/// How a number compares.
pub open spec fn num_holds(l: Double, op: Op, r: Double) -> bool {
    match op {
        Op::Eq => below(distance(l, r), Double { bits: EPSILON }),
        Op::Ne => at_most(Double { bits: EPSILON }, distance(l, r)),
        Op::Gt => below(r, l),
        Op::Lt => below(l, r),
        Op::Ge => at_most(r, l),
        Op::Le => at_most(l, r),
        Op::Match => occurs(shortest(l), shortest(r)),
    }
}

/// A whole number in decimal.
pub open spec fn int_text(n: int) -> Seq<char> {
    if n < 0 {
        seq!['-'] + decimal((-n) as nat)
    } else {
        decimal(n as nat)
    }
}

/// A number as text: a whole one without a point.
pub open spec fn num_text(n: Double) -> Seq<char> {
    if n.is_whole() {
        int_text(n.as_i64() as int)
    } else {
        shortest(n)
    }
}

/// Does one of the alternatives occur in the text, in either case?
pub open spec fn any_occurs(hay: Seq<char>, pieces: Seq<Seq<char>>) -> bool {
    exists|i: int|
        0 <= i < pieces.len() && (#[trigger] pieces[i]).len() > 0 && occurs(
            lower(hay),
            lower(trim(pieces[i])),
        )
}

/// How a text compares. Ordering goes by the dictionary.
pub open spec fn text_holds(l: Seq<char>, op: Op, r: Seq<char>) -> bool {
    match op {
        Op::Eq => lower(l) == lower(r),
        Op::Ne => lower(l) != lower(r),
        Op::Match => any_occurs(l, split(r, '|')),
        Op::Gt => sorts_before(r, l),
        Op::Lt => sorts_before(l, r),
        Op::Ge => !sorts_before(l, r),
        Op::Le => !sorts_before(r, l),
    }
}

/// Does a comparison hold of a subject? By number where both sides are one,
/// else by text. A field that the subject lacks never matches, because a filter
/// is often applied across subjects with different fields.
pub open spec fn compares<Q: Queryable>(q: Q, field: Seq<char>, op: Op, value: ValueView) -> bool {
    if q.num_field(field) is Some && value is Num {
        num_holds(q.num_field(field)->0, op, value->Num_0)
    } else {
        match q.text_field(field) {
            None => false,
            Some(l) => text_holds(
                l,
                op,
                match value {
                    ValueView::Str(t) => t,
                    ValueView::Num(n) => num_text(n),
                },
            ),
        }
    }
}

/// Is a field there and truthy?
pub open spec fn truthy<Q: Queryable>(q: Q, field: Seq<char>) -> bool {
    if q.bool_field(field) is Some {
        q.bool_field(field)->0
    } else if q.num_field(field) is Some {
        (q.num_field(field)->0).magnitude() != 0
    } else {
        match q.text_field(field) {
            Some(t) => t.len() > 0,
            None => false,
        }
    }
}

/// Does an expression hold of a subject?
pub open spec fn holds<Q: Queryable>(e: Expr, q: Q) -> bool
    decreases e,
{
    match e {
        Expr::And(a, b) => holds(*a, q) && holds(*b, q),
        Expr::Or(a, b) => holds(*a, q) || holds(*b, q),
        Expr::Not(a) => !holds(*a, q),
        Expr::Truthy(f) => truthy(q, f),
        Expr::Compare { field, op, value } => compares(q, field, op, value),
    }
}

fn format_num(n: Double) -> (r: String)
    ensures
        r@ == num_text(n),
{
    if n.whole_number() {
        let i: i64 = n.to_i64();
        if i < 0 {
            let mut o: String = String::new();
            o.push('-');
            push_u64(&mut o, (-(i as i128)) as u64);
            assert(o@ =~= int_text(i as int));
            o
        } else {
            decimal_text(i as u64)
        }
    } else {
        n.to_shortest()
    }
}

fn compare_nums(l: Double, op: Op, r: Double) -> (b: bool)
    ensures
        b == num_holds(l, op, r),
{
    let epsilon: Double = Double { bits: EPSILON };
    match op {
        Op::Eq => l.minus(&r).abs().less(&epsilon),
        Op::Ne => epsilon.less_or_equal(&l.minus(&r).abs()),
        Op::Gt => r.less(&l),
        Op::Lt => l.less(&r),
        Op::Ge => r.less_or_equal(&l),
        Op::Le => l.less_or_equal(&r),
        // Almost certainly a mistake, but reading it as "contains as text" is
        // more useful than silently returning false.
        Op::Match => contains_run(
            &to_chars(l.to_shortest().as_str()),
            &to_chars(r.to_shortest().as_str()),
        ),
    }
}

fn match_any(l: &[char], r: &[char]) -> (b: bool)
    ensures
        b == any_occurs(l@, split(r@, '|')),
{
    let hay: Vec<char> = lowered(l);
    let pieces: Vec<Vec<char>> = split_char(r, '|');
    let ghost ps = runs(pieces@);
    let mut i: usize = 0;
    while i < pieces.len()
        invariant
            i <= pieces@.len(),
            ps == runs(pieces@),
            ps == split(r@, '|'),
            hay@ == lower(l@),
            forall|k: int|
                0 <= k < i ==> !((#[trigger] ps[k]).len() > 0 && occurs(
                    lower(l@),
                    lower(trim(ps[k])),
                )),
        decreases pieces@.len() - i,
    {
        assert(ps[i as int] == pieces@[i as int]@);
        if pieces[i].len() > 0 && contains_run(&hay, &lowered(trimmed(&pieces[i]))) {
            return true;
        }
        i += 1;
    }
    false
}

fn compare_texts(l: &str, op: Op, r: &str) -> (b: bool)
    ensures
        b == text_holds(l@, op, r@),
{
    let a: Vec<char> = to_chars(l);
    let c: Vec<char> = to_chars(r);
    match op {
        Op::Eq => same_ignoring_case(&a, r),
        Op::Ne => !same_ignoring_case(&a, r),
        Op::Match => match_any(&a, &c),
        Op::Gt => comes_before(&c, &a),
        Op::Lt => comes_before(&a, &c),
        Op::Ge => !comes_before(&a, &c),
        Op::Le => !comes_before(&c, &a),
    }
}

fn compare<Q: Queryable>(s: &Q, field: &str, op: Op, value: &Value) -> (b: bool)
    ensures
        b == compares(*s, field@, op, value@),
{
    if let Value::Num(r) = value {
        if let Some(l) = s.field_num(field) {
            return compare_nums(l, op, *r);
        }
    }
    let l: String = match s.field_str(field) {
        None => return false,
        Some(l) => l,
    };
    match value {
        Value::Str(t) => compare_texts(l.as_str(), op, t.as_str()),
        Value::Num(n) => compare_texts(l.as_str(), op, format_num(*n).as_str()),
    }
}

fn test_field<Q: Queryable>(s: &Q, field: &str) -> (b: bool)
    ensures
        b == truthy(*s, field@),
{
    if let Some(b) = s.field_bool(field) {
        return b;
    }
    if let Some(n) = s.field_num(field) {
        return n.abs().bits != 0;
    }
    match s.field_str(field) {
        Some(t) => to_chars(t.as_str()).len() > 0,
        None => false,
    }
}

fn eval<Q: Queryable>(node: &Node, s: &Q) -> (b: bool)
    ensures
        b == holds(expr_of(*node), *s),
    decreases *node,
{
    match node {
        Node::And(a, b) => eval(a, s) && eval(b, s),
        Node::Or(a, b) => eval(a, s) || eval(b, s),
        Node::Not(a) => !eval(a, s),
        Node::Truthy(f) => test_field(s, f.as_str()),
        Node::Compare { field, op, value } => compare(s, field.as_str(), *op, value),
    }
}

/// A compiled filter expression.
#[derive(Debug)]
pub struct Filter {
    root: Node,
    source: String,
}

impl Filter {
    /// What it tests.
    pub closed spec fn expr(&self) -> Expr {
        expr_of(self.root)
    }

    /// What it was written as.
    pub closed spec fn text(&self) -> Seq<char> {
        self.source@
    }

    /// Compile an expression.
    ///
    /// Errors carry the byte offset, because a filter typed at a prompt is
    /// wrong far more often than it is right.
    pub fn parse(input: &str) -> (r: Result<Filter, ParseError>)
        ensures
            match expression(input@) {
                Ok(e) => r is Ok && (r->Ok_0).expr() == e && (r->Ok_0).text() == trim(input@),
                Err(f) => r is Err && (r->Err_0)@ == f,
            },
    {
        let tokens: Vec<Token> = match lex(input) {
            Err(e) => return Err(e),
            Ok(t) => t,
        };
        assert(toks(tokens@).len() == tokens@.len());
        match parse_or(&tokens, 0) {
            Err(e) => Err(e),
            Ok((root, p)) => {
                if p < tokens.len() {
                    assert(toks(tokens@)[p as int] == tokens@[p as int]@);
                    let mut msg: String = copy_text("unexpected `");
                    msg.push_str(tokens[p].text.as_str());
                    msg.push_str("` after a complete expression");
                    return Err(ParseError { at: tokens[p].at, msg });
                }
                Ok(Filter { root, source: from_chars(trimmed(&to_chars(input))) })
            },
        }
    }

    /// Does this subject match?
    pub fn matches<Q: Queryable>(&self, subject: &Q) -> (r: bool)
        ensures
            r == holds(self.expr(), *subject),
    {
        eval(&self.root, subject)
    }

    /// The expression as it was written, without the blanks around it.
    pub fn as_str(&self) -> (r: &str)
        ensures
            r@ == self.text(),
    {
        self.source.as_str()
    }
}

// ── the fields that can be named ───────────────────────────────────────

impl Queryable for Stall {
    open spec fn text_field(&self, name: Seq<char>) -> Option<Seq<char>> {
        if name == "unit"@ {
            Some(self.unit@)
        } else if name == "cgroup"@ {
            Some(self.cgroup@)
        } else if name == "resource"@ {
            Some(self.resource.name())
        } else if name == "kind"@ || name == "type"@ {
            Some(self.kind.name())
        } else {
            None
        }
    }

    open spec fn num_field(&self, name: Seq<char>) -> Option<Double> {
        if name == "pct"@ || name == "pressure_pct"@ {
            Some(self.pressure_pct)
        } else if name == "peak"@ || name == "peak_pct"@ {
            Some(self.peak_pct)
        } else if name == "delta_ms"@ {
            Some(milliseconds(self.delta_usec))
        } else if name == "delta_usec"@ {
            Some(whole(self.delta_usec as int))
        } else {
            None
        }
    }

    open spec fn bool_field(&self, name: Seq<char>) -> Option<bool> {
        None
    }

    fn field_str(&self, name: &str) -> (r: Option<String>) {
        if same_text(name, "unit") {
            Some(self.unit.clone())
        } else if same_text(name, "cgroup") {
            Some(self.cgroup.clone())
        } else if same_text(name, "resource") {
            Some(copy_text(self.resource.as_str()))
        } else if same_text(name, "kind") || same_text(name, "type") {
            Some(copy_text(self.kind.as_str()))
        } else {
            None
        }
    }

    fn field_num(&self, name: &str) -> (r: Option<Double>) {
        if same_text(name, "pct") || same_text(name, "pressure_pct") {
            Some(self.pressure_pct)
        } else if same_text(name, "peak") || same_text(name, "peak_pct") {
            Some(self.peak_pct)
        } else if same_text(name, "delta_ms") {
            Some(to_milliseconds(self.delta_usec))
        } else if same_text(name, "delta_usec") {
            Some(Double::from_u64(self.delta_usec))
        } else {
            None
        }
    }

    fn field_bool(&self, name: &str) -> (r: Option<bool>) {
        None
    }
}

impl Queryable for Warning {
    open spec fn text_field(&self, name: Seq<char>) -> Option<Seq<char>> {
        if name == "warning.source"@ || name == "source"@ {
            Some(self.source@)
        } else if name == "warning.severity"@ || name == "severity"@ {
            Some(self.severity.name())
        } else if name == "warning.message"@ || name == "message"@ {
            Some(self.message@)
        } else {
            None
        }
    }

    open spec fn num_field(&self, name: Seq<char>) -> Option<Double> {
        None
    }

    open spec fn bool_field(&self, name: Seq<char>) -> Option<bool> {
        if name == "warning.transient"@ || name == "transient"@ {
            Some(self.transient)
        } else {
            None
        }
    }

    fn field_str(&self, name: &str) -> (r: Option<String>) {
        if same_text(name, "warning.source") || same_text(name, "source") {
            Some(self.source.clone())
        } else if same_text(name, "warning.severity") || same_text(name, "severity") {
            Some(copy_text(self.severity.as_str()))
        } else if same_text(name, "warning.message") || same_text(name, "message") {
            Some(self.message.clone())
        } else {
            None
        }
    }

    fn field_num(&self, name: &str) -> (r: Option<Double>) {
        None
    }

    fn field_bool(&self, name: &str) -> (r: Option<bool>) {
        if same_text(name, "warning.transient") || same_text(name, "transient") {
            Some(self.transient)
        } else {
            None
        }
    }
}

/// Every field a filter can name, with what it holds.
pub open spec fn field_list() -> Seq<(Seq<char>, Seq<char>)> {
    seq![
        ("unit"@, "human name, e.g. firefox (flatpak)"@),
        ("cgroup"@, "full cgroup path"@),
        ("resource"@, "cpu | memory | io"@),
        ("kind"@, "some | full"@),
        ("pct"@, "share of the window spent stalled"@),
        ("peak"@, "worst single tick in the window"@),
        ("delta_ms"@, "milliseconds stalled"@),
        ("warning.source"@, "btrfs | drive"@),
        ("warning.severity"@, "note | warn | critical"@),
        ("warning.transient"@, "true when it clears itself"@),
    ]
}

pub open spec fn pairs(v: Seq<(&'static str, &'static str)>) -> Seq<(Seq<char>, Seq<char>)> {
    Seq::new(v.len(), |i: int| (v[i].0@, v[i].1@))
}

/// See [`field_list`].
pub fn fields() -> (r: Vec<(&'static str, &'static str)>)
    ensures
        pairs(r@) == field_list(),
{
    let mut v: Vec<(&'static str, &'static str)> = Vec::new();
    v.push(("unit", "human name, e.g. firefox (flatpak)"));
    v.push(("cgroup", "full cgroup path"));
    v.push(("resource", "cpu | memory | io"));
    v.push(("kind", "some | full"));
    v.push(("pct", "share of the window spent stalled"));
    v.push(("peak", "worst single tick in the window"));
    v.push(("delta_ms", "milliseconds stalled"));
    v.push(("warning.source", "btrfs | drive"));
    v.push(("warning.severity", "note | warn | critical"));
    v.push(("warning.transient", "true when it clears itself"));
    assert(pairs(v@) =~= field_list());
    v
}

// ── what holds of every filter ─────────────────────────────────────────

/// A field that the subject lacks never matches, under any operator and with
/// any value.
pub proof fn lemma_unknown_field_never_matches<Q: Queryable>(
    q: Q,
    field: Seq<char>,
    op: Op,
    value: ValueView,
)
    requires
        q.text_field(field) is None,
        q.num_field(field) is None,
        q.bool_field(field) is None,
    ensures
        !holds(Expr::Compare { field, op, value }, q),
        !holds(Expr::Truthy(field), q),
        holds(Expr::Not(Box::new(Expr::Compare { field, op, value })), q),
{
    reveal_with_fuel(holds, 2);
}

/// `and` binds tighter than `or`: where three conditions stand in a row, joined
/// by `and` and then by `or`, the first two belong together.
pub proof fn lemma_and_then_or(t: Seq<Tok>, p: int, a: Expr, q: int, b: Expr, r: int, c: Expr, e: int)
    requires
        0 <= p < q,
        q + 1 < r,
        r + 1 < e <= t.len(),
        not_at(t, p) == Ok::<(Expr, int), Fault>((a, q)),
        word_at(t, q, "and"@),
        not_at(t, q + 1) == Ok::<(Expr, int), Fault>((b, r)),
        word_at(t, r, "or"@),
        not_at(t, r + 1) == Ok::<(Expr, int), Fault>((c, e)),
        !word_at(t, e, "and"@),
        !word_at(t, e, "or"@),
    ensures
        or_at(t, p) == Ok::<(Expr, int), Fault>(
            (Expr::Or(Box::new(Expr::And(Box::new(a), Box::new(b))), Box::new(c)), e),
        ),
{
    lemma_words_differ(t, r);
    let ab = Expr::And(Box::new(a), Box::new(b));
    assert(and_rest(t, r, ab) == Ok::<(Expr, int), Fault>((ab, r)));
    assert(and_rest(t, q, a) == and_rest(t, r, ab));
    assert(and_at(t, p) == Ok::<(Expr, int), Fault>((ab, r)));
    assert(and_rest(t, e, c) == Ok::<(Expr, int), Fault>((c, e)));
    assert(and_at(t, r + 1) == Ok::<(Expr, int), Fault>((c, e)));
    let all = Expr::Or(Box::new(ab), Box::new(c));
    assert(or_rest(t, e, all) == Ok::<(Expr, int), Fault>((all, e)));
    assert(or_rest(t, r, ab) == or_rest(t, e, all));
}

/// The same with `or` first: the last two belong together.
pub proof fn lemma_or_then_and(t: Seq<Tok>, p: int, a: Expr, q: int, b: Expr, r: int, c: Expr, e: int)
    requires
        0 <= p < q,
        q + 1 < r,
        r + 1 < e <= t.len(),
        not_at(t, p) == Ok::<(Expr, int), Fault>((a, q)),
        word_at(t, q, "or"@),
        not_at(t, q + 1) == Ok::<(Expr, int), Fault>((b, r)),
        word_at(t, r, "and"@),
        not_at(t, r + 1) == Ok::<(Expr, int), Fault>((c, e)),
        !word_at(t, e, "and"@),
        !word_at(t, e, "or"@),
    ensures
        or_at(t, p) == Ok::<(Expr, int), Fault>(
            (Expr::Or(Box::new(a), Box::new(Expr::And(Box::new(b), Box::new(c)))), e),
        ),
{
    lemma_words_differ(t, q);
    let bc = Expr::And(Box::new(b), Box::new(c));
    assert(and_rest(t, q, a) == Ok::<(Expr, int), Fault>((a, q)));
    assert(and_at(t, p) == Ok::<(Expr, int), Fault>((a, q)));
    assert(and_rest(t, e, bc) == Ok::<(Expr, int), Fault>((bc, e)));
    assert(and_rest(t, r, b) == and_rest(t, e, bc));
    assert(and_at(t, q + 1) == Ok::<(Expr, int), Fault>((bc, e)));
    let all = Expr::Or(Box::new(a), Box::new(bc));
    assert(or_rest(t, e, all) == Ok::<(Expr, int), Fault>((all, e)));
    assert(or_rest(t, q, a) == or_rest(t, e, all));
}

proof fn lemma_words_differ(t: Seq<Tok>, p: int)
    ensures
        !(word_at(t, p, "and"@) && word_at(t, p, "or"@)),
{
    reveal_strlit("and");
    reveal_strlit("or");
    assert(lower("and"@).len() == 3);
    assert(lower("or"@).len() == 2);
}

/// Parentheses override precedence: what stands in them is one condition.
pub proof fn lemma_parentheses_group(t: Seq<Tok>, p: int, inner: Expr, q: int)
    requires
        0 <= p,
        p + 1 < q < t.len(),
        t[p].kind == Kind::LParen,
        or_at(t, p + 1) == Ok::<(Expr, int), Fault>((inner, q)),
        t[q].kind == Kind::RParen,
    ensures
        not_at(t, p) == Ok::<(Expr, int), Fault>((inner, q + 1)),
{
}

/// Has the subject a field of this name?
pub open spec fn has_field<Q: Queryable>(q: Q, name: Seq<char>) -> bool {
    q.text_field(name) is Some || q.num_field(name) is Some || q.bool_field(name) is Some
}

/// Every field on the list can be named: every stall has it, or every warning
/// does.
pub proof fn lemma_listed_fields_are_known(s: Stall, w: Warning, k: int)
    requires
        0 <= k < field_list().len(),
    ensures
        has_field(s, field_list()[k].0) || has_field(w, field_list()[k].0),
{
}

} // verus!
