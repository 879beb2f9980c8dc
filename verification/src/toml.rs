//! The part of TOML that a configuration file is written in.
//!
//! Tables, arrays of tables, strings, integers, booleans and string arrays,
//! which is the whole schema, and nothing else. Anything not understood, a key
//! that no table has or a value that is not of its kind among it, is reported
//! with a line number rather than ignored, because silently dropping a rule
//! someone wrote is worse than refusing to start.

use vstd::prelude::*;
use vstd::slice::slice_subrange;

use crate::appname::said;
use crate::text::{
    copy_text, copy_texts, ends_with, find, from_chars, has_prefix, is_text, lines, parse_i64,
    position, push_chars, push_text, read_i64, runs, same_text, split, split_char, split_lines,
    starts_with, strip_suffix, texts, to_chars, trim, trimmed,
};

verus! {

/// The value of a key.
#[derive(Debug)]
pub enum Val {
    Str(String),
    Int(i64),
    Bool(bool),
    Arr(Vec<String>),
}

/// A value to compare with.
pub enum Setting {
    Str(Seq<char>),
    Int(int),
    Bool(bool),
    Arr(Seq<Seq<char>>),
}

impl View for Val {
    type V = Setting;

    open spec fn view(&self) -> Setting {
        match *self {
            Val::Str(s) => Setting::Str(s@),
            Val::Int(i) => Setting::Int(i as int),
            Val::Bool(b) => Setting::Bool(b),
            Val::Arr(v) => Setting::Arr(texts(v@)),
        }
    }
}

/// One `key = value`.
#[derive(Debug)]
pub struct Entry {
    pub key: String,
    pub value: Val,
}

/// A table: the line that opens it and what stands in it.
#[derive(Debug)]
pub struct Table {
    pub line: usize,
    /// As they were read; of two with the same key the later counts.
    pub entries: Vec<Entry>,
}

/// A table as a value.
pub struct Section {
    pub line: nat,
    pub keys: Map<Seq<char>, Setting>,
}

/// The first `n` entries by key.
pub open spec fn keys_of(e: Seq<Entry>, n: nat) -> Map<Seq<char>, Setting>
    decreases n,
{
    if n == 0 || n > e.len() {
        Map::empty()
    } else {
        keys_of(e, (n - 1) as nat).insert(e[n - 1].key@, e[n - 1].value@)
    }
}

impl View for Table {
    type V = Section;

    open spec fn view(&self) -> Section {
        Section { line: self.line as nat, keys: keys_of(self.entries@, self.entries@.len()) }
    }
}

/// A text under this key.
pub open spec fn text_in(t: Section, k: Seq<char>) -> Option<Seq<char>> {
    if t.keys.contains_key(k) {
        match t.keys[k] {
            Setting::Str(s) => Some(s),
            _ => None,
        }
    } else {
        None
    }
}

/// A number under this key.
pub open spec fn int_in(t: Section, k: Seq<char>) -> Option<int> {
    if t.keys.contains_key(k) {
        match t.keys[k] {
            Setting::Int(i) => Some(i),
            _ => None,
        }
    } else {
        None
    }
}

/// A flag under this key.
pub open spec fn bool_in(t: Section, k: Seq<char>) -> Option<bool> {
    if t.keys.contains_key(k) {
        match t.keys[k] {
            Setting::Bool(b) => Some(b),
            _ => None,
        }
    } else {
        None
    }
}

/// A list under this key.
pub open spec fn list_in(t: Section, k: Seq<char>) -> Option<Seq<Seq<char>>> {
    if t.keys.contains_key(k) {
        match t.keys[k] {
            Setting::Arr(v) => Some(v),
            _ => None,
        }
    } else {
        None
    }
}

impl Table {
    /// The value under a key.
    fn value(&self, k: &str) -> (r: Option<&Val>)
        ensures
            r is Some == self@.keys.contains_key(k@),
            r matches Some(v) ==> v@ == self@.keys[k@],
    {
        let e: &Vec<Entry> = &self.entries;
        let ghost all = keys_of(e@, e@.len());
        let mut i: usize = e.len();
        while i > 0
            invariant
                i <= e@.len(),
                all == keys_of(e@, e@.len()),
                all == self@.keys,
                all.contains_key(k@) == keys_of(e@, i as nat).contains_key(k@),
                all.contains_key(k@) ==> all[k@] == keys_of(e@, i as nat)[k@],
            decreases i,
        {
            if same_text(e[i - 1].key.as_str(), k) {
                return Some(&e[i - 1].value);
            }
            i -= 1;
        }
        None
    }

    pub fn string(&self, k: &str) -> (r: Option<String>)
        ensures
            said(r) == text_in(self@, k@),
    {
        match self.value(k) {
            Some(Val::Str(s)) => Some(copy_text(s.as_str())),
            _ => None,
        }
    }

    pub fn integer(&self, k: &str) -> (r: Option<i64>)
        ensures
            match int_in(self@, k@) {
                Some(i) => r is Some && r->0 == i,
                None => r is None,
            },
    {
        match self.value(k) {
            Some(Val::Int(i)) => Some(*i),
            _ => None,
        }
    }

    pub fn boolean(&self, k: &str) -> (r: Option<bool>)
        ensures
            r == bool_in(self@, k@),
    {
        match self.value(k) {
            Some(Val::Bool(b)) => Some(*b),
            _ => None,
        }
    }

    pub fn strings(&self, k: &str) -> (r: Option<Vec<String>>)
        ensures
            match list_in(self@, k@) {
                Some(v) => r is Some && texts(r->0@) == v,
                None => r is None,
            },
    {
        match self.value(k) {
            Some(Val::Arr(v)) => Some(copy_texts(v)),
            _ => None,
        }
    }
}

/// A document: its two tables, where they occur, and its rules.
#[derive(Debug)]
pub struct Doc {
    pub capture: Option<Table>,
    pub notify: Option<Table>,
    pub rules: Vec<Table>,
}

/// A document as a value.
pub struct Sections {
    pub capture: Option<Section>,
    pub notify: Option<Section>,
    pub rules: Seq<Section>,
}

pub open spec fn section(t: Option<Table>) -> Option<Section> {
    match t {
        Some(t) => Some(t@),
        None => None,
    }
}

pub open spec fn sections(t: Seq<Table>) -> Seq<Section> {
    Seq::new(t.len(), |i: int| t[i]@)
}

impl View for Doc {
    type V = Sections;

    open spec fn view(&self) -> Sections {
        Sections {
            capture: section(self.capture),
            notify: section(self.notify),
            rules: sections(self.rules@),
        }
    }
}

/// What is wrong with a document, and on which line.
#[derive(Debug)]
pub struct TomlError {
    pub line: usize,
    pub msg: String,
}

/// An error as a value to compare with.
pub struct Misfit {
    pub line: nat,
    pub msg: Seq<char>,
}

impl View for TomlError {
    type V = Misfit;

    open spec fn view(&self) -> Misfit {
        Misfit { line: self.line as nat, msg: self.msg@ }
    }
}

// ── one line ───────────────────────────────────────────────────────────

pub open spec fn is_quote(c: char) -> bool {
    c == '"' || c == '\''
}

/// Where the comment of a line starts, or its length: at the first `#` outside
/// quotes.
pub open spec fn comment_start(s: Seq<char>, quote: Option<char>) -> nat
    decreases s.len(),
{
    if s.len() == 0 {
        0
    } else {
        match quote {
            Some(q) => 1 + comment_start(s.drop_first(), if s[0] == q {
                None
            } else {
                quote
            }),
            None => if s[0] == '#' {
                0
            } else {
                1 + comment_start(s.drop_first(), if is_quote(s[0]) {
                    Some(s[0])
                } else {
                    None
                })
            },
        }
    }
}

/// A line without its comment.
pub open spec fn uncommented(s: Seq<char>) -> Seq<char> {
    s.take(comment_start(s, None) as int)
}

/// Strip a `#` comment, respecting quotes so a `#` inside a filter survives.
pub fn strip_comment(line: &[char]) -> (r: &[char])
    ensures
        r@ == uncommented(line@),
{
    let n: usize = line.len();
    let mut i: usize = 0;
    let mut quote: Option<char> = None;
    assert(line@.skip(0) =~= line@);
    while i < n
        invariant
            i <= n == line@.len(),
            comment_start(line@, None) == i + comment_start(line@.skip(i as int), quote),
        decreases n - i,
    {
        let c: char = line[i];
        assert(line@.skip(i as int)[0] == c);
        assert(line@.skip(i as int).drop_first() =~= line@.skip(i + 1));
        match quote {
            Some(q) => {
                if c == q {
                    quote = None;
                }
            },
            None => {
                if c == '#' {
                    return slice_subrange(line, 0, i);
                }
                if c == '"' || c == '\'' {
                    quote = Some(c);
                }
            },
        }
        i += 1;
    }
    assert(line@.take(n as int) =~= line@);
    line
}

/// The text without any copy of `p` at its end.
pub open spec fn without_tail(s: Seq<char>, p: Seq<char>) -> Seq<char>
    decreases s.len(),
{
    if p.len() > 0 && ends_with(s, p) {
        without_tail(s.take(s.len() - p.len()), p)
    } else {
        s
    }
}

fn drop_tail<'a>(s: &'a [char], p: &str) -> (r: &'a [char])
    requires
        p@.len() > 0,
    ensures
        r@ == without_tail(s@, p@),
    decreases s@.len(),
{
    match strip_suffix(s, p) {
        Some(rest) => drop_tail(rest, p),
        None => s,
    }
}

/// The text without the quotes around it, however many.
pub open spec fn unquoted(s: Seq<char>) -> Seq<char>
    decreases s.len(),
{
    if s.len() > 0 && is_quote(s[0]) {
        unquoted(s.drop_first())
    } else if s.len() > 0 && is_quote(s.last()) {
        unquoted(s.drop_last())
    } else {
        s
    }
}

fn trim_quotes(s: &[char]) -> (r: &[char])
    ensures
        r@ == unquoted(s@),
    decreases s@.len(),
{
    let n: usize = s.len();
    if n > 0 && (s[0] == '"' || s[0] == '\'') {
        let rest: &[char] = slice_subrange(s, 1, n);
        assert(rest@ =~= s@.drop_first());
        trim_quotes(rest)
    } else if n > 0 && (s[n - 1] == '"' || s[n - 1] == '\'') {
        let rest: &[char] = slice_subrange(s, 0, n - 1);
        assert(rest@ =~= s@.drop_last());
        trim_quotes(rest)
    } else {
        s
    }
}

/// The items of an array: what stands between commas and is not blank, without
/// its quotes.
pub open spec fn items(pieces: Seq<Seq<char>>) -> Seq<Seq<char>>
    decreases pieces.len(),
{
    if pieces.len() == 0 {
        seq![]
    } else {
        let before = items(pieces.drop_last());
        let piece = trim(pieces.last());
        if piece.len() == 0 {
            before
        } else {
            before.push(unquoted(piece))
        }
    }
}

fn read_items(inner: &[char]) -> (r: Vec<String>)
    ensures
        texts(r@) == items(split(inner@, ',')),
{
    let pieces: Vec<Vec<char>> = split_char(inner, ',');
    let ghost all = runs(pieces@);
    let mut out: Vec<String> = Vec::new();
    let mut i: usize = 0;
    assert(texts(out@) =~= items(all.take(0)));
    while i < pieces.len()
        invariant
            i <= pieces@.len(),
            all == runs(pieces@),
            texts(out@) == items(all.take(i as int)),
        decreases pieces@.len() - i,
    {
        let piece: &[char] = trimmed(pieces[i].as_slice());
        proof {
            assert(all.take(i + 1).drop_last() =~= all.take(i as int));
            assert(all.take(i + 1).last() == pieces@[i as int]@);
        }
        if piece.len() > 0 {
            push_text(&mut out, from_chars(trim_quotes(piece)));
        }
        i += 1;
    }
    assert(all.take(i as int) =~= all);
    out
}

/// What a backslash and this character stand for.
pub open spec fn escaped(c: char) -> Seq<char> {
    if c == '"' || c == '\\' {
        seq![c]
    } else if c == 'n' {
        seq!['\n']
    } else if c == 't' {
        seq!['\t']
    } else {
        seq!['\\', c]
    }
}

pub open spec fn led_by(front: Seq<char>, rest: Option<Seq<char>>) -> Option<Seq<char>> {
    match rest {
        Some(s) => Some(front + s),
        None => None,
    }
}

/// The text up to the closing double quote, its escapes resolved; none where
/// there is no closing quote.
pub open spec fn basic_string(s: Seq<char>) -> Option<Seq<char>>
    decreases s.len(),
{
    if s.len() == 0 {
        None
    } else if s[0] == '"' {
        Some(seq![])
    } else if s[0] == '\\' {
        if s.len() < 2 {
            None
        } else {
            led_by(escaped(s[1]), basic_string(s.skip(2)))
        }
    } else {
        led_by(seq![s[0]], basic_string(s.skip(1)))
    }
}

/// Where the closing double quote stands, where there is one.
pub open spec fn closing_quote(s: Seq<char>) -> nat
    decreases s.len(),
{
    if s.len() == 0 || s[0] == '"' {
        0
    } else if s[0] == '\\' {
        if s.len() < 2 {
            1
        } else {
            2 + closing_quote(s.skip(2))
        }
    } else {
        1 + closing_quote(s.skip(1))
    }
}

/// Read up to the closing double quote: the text, and what stands behind it.
fn read_basic_string(s: &[char]) -> (r: Option<(String, &[char])>)
    ensures
        match basic_string(s@) {
            Some(text) => r is Some && (r->0).0@ == text && (r->0).1@ == s@.skip(
                closing_quote(s@) as int + 1,
            ),
            None => r is None,
        },
{
    let n: usize = s.len();
    let mut out: String = String::new();
    let mut i: usize = 0;
    proof {
        assert(s@.skip(0) =~= s@);
        if basic_string(s@) is Some {
            assert(out@ + basic_string(s@)->0 =~= basic_string(s@)->0);
        }
    }
    while i < n
        invariant
            i <= n == s@.len(),
            basic_string(s@) == led_by(out@, basic_string(s@.skip(i as int))),
            closing_quote(s@) == i + closing_quote(s@.skip(i as int)),
        decreases n - i,
    {
        let c: char = s[i];
        let ghost rest = s@.skip(i as int);
        let ghost before = out@;
        assert(rest[0] == c);
        if c == '"' {
            assert(before + Seq::<char>::empty() =~= before);
            let behind: &[char] = slice_subrange(s, i + 1, n);
            assert(behind@ =~= s@.skip(i + 1));
            return Some((out, behind));
        }
        if c == '\\' {
            if n - i < 2 {
                return None;
            }
            let e: char = s[i + 1];
            assert(rest[1] == e);
            assert(rest.skip(2) =~= s@.skip(i + 2));
            if e == '"' || e == '\\' {
                out.push(e);
            } else if e == 'n' {
                out.push('\n');
            } else if e == 't' {
                out.push('\t');
            } else {
                out.push('\\');
                out.push(e);
            }
            proof {
                assert(out@ =~= before + escaped(e));
                lemma_led_by_twice(before, escaped(e), basic_string(rest.skip(2)));
            }
            i += 2;
        } else {
            assert(rest.skip(1) =~= s@.skip(i + 1));
            out.push(c);
            proof {
                assert(out@ =~= before + seq![c]);
                lemma_led_by_twice(before, seq![c], basic_string(rest.skip(1)));
            }
            i += 1;
        }
    }
    None
}

proof fn lemma_led_by_twice(a: Seq<char>, b: Seq<char>, r: Option<Seq<char>>)
    ensures
        led_by(a, led_by(b, r)) == led_by(a + b, r),
{
    if r is Some {
        assert(a + (b + r->0) =~= a + b + r->0);
    }
}

/// A string with nothing behind it; what stands behind one is not understood.
pub open spec fn alone(text: Seq<char>, behind: Seq<char>) -> Result<Setting, Seq<char>> {
    if behind.len() == 0 {
        Ok(Setting::Str(text))
    } else {
        Err("unexpected `"@ + trim(behind) + "` behind a string"@)
    }
}

fn stand_alone(text: String, behind: &[char]) -> (r: Result<Val, String>)
    ensures
        match alone(text@, behind@) {
            Ok(v) => r is Ok && (r->Ok_0)@ == v,
            Err(m) => r is Err && (r->Err_0)@ == m,
        },
{
    if behind.len() == 0 {
        return Ok(Val::Str(text));
    }
    let mut msg: String = copy_text("unexpected `");
    push_chars(&mut msg, trimmed(behind));
    msg.push_str("` behind a string");
    Err(msg)
}

/// What a value says, or what is wrong with it.
///
/// Basic strings honour backslash escapes; literal (single-quoted) strings do
/// not, which is what TOML specifies and also what makes single quotes the
/// sane choice for a filter expression full of double quotes.
pub open spec fn value_in(s: Seq<char>) -> Result<Setting, Seq<char>> {
    if s == "true"@ {
        Ok(Setting::Bool(true))
    } else if s == "false"@ {
        Ok(Setting::Bool(false))
    } else if s.len() > 0 && s[0] == '[' {
        Ok(Setting::Arr(items(split(without_tail(s.skip(1), "]"@), ','))))
    } else if s.len() > 0 && s[0] == '\'' {
        let rest = s.skip(1);
        if find(rest, '\'') < rest.len() {
            alone(
                rest.take(find(rest, '\'') as int),
                rest.skip(find(rest, '\'') as int + 1),
            )
        } else {
            Err("unterminated string"@)
        }
    } else if s.len() > 0 && s[0] == '"' {
        match basic_string(s.skip(1)) {
            Some(text) => alone(text, s.skip(1).skip(closing_quote(s.skip(1)) as int + 1)),
            None => Err("unterminated string"@),
        }
    } else {
        match parse_i64(s) {
            Some(i) => Ok(Setting::Int(i)),
            None => Err("`"@ + s + "` is not a string, number or boolean"@),
        }
    }
}

/// Read a value.
pub fn parse_value(s: &[char]) -> (r: Result<Val, String>)
    ensures
        match value_in(s@) {
            Ok(v) => r is Ok && (r->Ok_0)@ == v,
            Err(m) => r is Err && (r->Err_0)@ == m,
        },
{
    if is_text(s, "true") {
        return Ok(Val::Bool(true));
    }
    if is_text(s, "false") {
        return Ok(Val::Bool(false));
    }
    let n: usize = s.len();
    if n > 0 && s[0] == '[' {
        proof {
            reveal_strlit("]");
        }
        let rest: &[char] = slice_subrange(s, 1, n);
        assert(rest@ =~= s@.skip(1));
        return Ok(Val::Arr(read_items(drop_tail(rest, "]"))));
    }
    if n > 0 && s[0] == '\'' {
        let rest: &[char] = slice_subrange(s, 1, n);
        assert(rest@ =~= s@.skip(1));
        let end: usize = position(rest, '\'');
        if end < rest.len() {
            let behind: &[char] = slice_subrange(rest, end + 1, rest.len());
            assert(behind@ =~= rest@.skip(end + 1));
            return stand_alone(from_chars(slice_subrange(rest, 0, end)), behind);
        }
        return Err(copy_text("unterminated string"));
    }
    if n > 0 && s[0] == '"' {
        let rest: &[char] = slice_subrange(s, 1, n);
        assert(rest@ =~= s@.skip(1));
        return match read_basic_string(rest) {
            Some((text, behind)) => stand_alone(text, behind),
            None => Err(copy_text("unterminated string")),
        };
    }
    match read_i64(s) {
        Some(i) => Ok(Val::Int(i)),
        None => {
            let mut msg: String = copy_text("`");
            push_chars(&mut msg, s);
            msg.push_str("` is not a string, number or boolean");
            Err(msg)
        },
    }
}

// ── the document ───────────────────────────────────────────────────────

/// Where the next key goes.
#[derive(Clone, Copy, Debug, PartialEq, Eq, Structural)]
pub enum Place {
    Outside,
    Capture,
    Notify,
    Rule,
}

/// What kind of value a key takes.
#[derive(Clone, Copy, Debug, PartialEq, Eq, Structural)]
pub enum Shape {
    Text,
    Number,
    Flag,
    /// A list of resources.
    Resources,
}

/// The kind of value that a key takes where it stands; none where there is no
/// such key.
pub open spec fn shape_of(place: Place, key: Seq<char>) -> Option<Shape> {
    match place {
        Place::Outside => None,
        Place::Capture => if key == "threshold_ms"@ || key == "capture_ms"@ || key
            == "history_secs"@ {
            Some(Shape::Number)
        } else if key == "resources"@ {
            Some(Shape::Resources)
        } else {
            None
        },
        Place::Notify => if key == "enabled"@ {
            Some(Shape::Flag)
        } else if key == "min_peak"@ || key == "cooldown_secs"@ {
            Some(Shape::Number)
        } else {
            None
        },
        Place::Rule => if key == "name"@ || key == "when"@ || key == "run"@ || key == "log"@ {
            Some(Shape::Text)
        } else if key == "notify"@ {
            Some(Shape::Flag)
        } else {
            None
        },
    }
}

fn find_shape(place: Place, key: &[char]) -> (r: Option<Shape>)
    ensures
        r == shape_of(place, key@),
{
    match place {
        Place::Outside => None,
        Place::Capture => if is_text(key, "threshold_ms") || is_text(key, "capture_ms") || is_text(
            key,
            "history_secs",
        ) {
            Some(Shape::Number)
        } else if is_text(key, "resources") {
            Some(Shape::Resources)
        } else {
            None
        },
        Place::Notify => if is_text(key, "enabled") {
            Some(Shape::Flag)
        } else if is_text(key, "min_peak") || is_text(key, "cooldown_secs") {
            Some(Shape::Number)
        } else {
            None
        },
        Place::Rule => if is_text(key, "name") || is_text(key, "when") || is_text(key, "run")
            || is_text(key, "log") {
            Some(Shape::Text)
        } else if is_text(key, "notify") {
            Some(Shape::Flag)
        } else {
            None
        },
    }
}

/// The name of a resource.
pub open spec fn is_resource(s: Seq<char>) -> bool {
    s == "cpu"@ || s == "memory"@ || s == "io"@
}

pub open spec fn are_resources(all: Seq<Seq<char>>) -> bool {
    forall|i: int| 0 <= i < all.len() ==> is_resource(#[trigger] all[i])
}

/// Is a value of this kind?
pub open spec fn fits(v: Setting, shape: Shape) -> bool {
    match shape {
        Shape::Text => v is Str,
        Shape::Number => v is Int,
        Shape::Flag => v is Bool,
        Shape::Resources => v matches Setting::Arr(all) && are_resources(all),
    }
}

fn all_resources(all: &Vec<String>) -> (r: bool)
    ensures
        r == are_resources(texts(all@)),
{
    let ghost names = texts(all@);
    let mut i: usize = 0;
    while i < all.len()
        invariant
            i <= all@.len(),
            names == texts(all@),
            forall|k: int| 0 <= k < i ==> is_resource(#[trigger] names[k]),
        decreases all@.len() - i,
    {
        let name: &str = all[i].as_str();
        assert(names[i as int] == name@);
        if !same_text(name, "cpu") && !same_text(name, "memory") && !same_text(name, "io") {
            assert(!is_resource(names[i as int]));
            return false;
        }
        i += 1;
    }
    true
}

fn check_shape(v: &Val, shape: Shape) -> (r: bool)
    ensures
        r == fits(v@, shape),
{
    match (shape, v) {
        (Shape::Text, Val::Str(_)) => true,
        (Shape::Number, Val::Int(_)) => true,
        (Shape::Flag, Val::Bool(_)) => true,
        (Shape::Resources, Val::Arr(all)) => all_resources(all),
        _ => false,
    }
}

/// How a table is written.
pub open spec fn place_text(place: Place) -> Seq<char> {
    match place {
        Place::Outside => ""@,
        Place::Capture => "[capture]"@,
        Place::Notify => "[notify]"@,
        Place::Rule => "[[rule]]"@,
    }
}

fn write_place(place: Place) -> (r: &'static str)
    ensures
        r@ == place_text(place),
{
    match place {
        Place::Outside => "",
        Place::Capture => "[capture]",
        Place::Notify => "[notify]",
        Place::Rule => "[[rule]]",
    }
}

/// What a kind of value is called.
pub open spec fn shape_text(shape: Shape) -> Seq<char> {
    match shape {
        Shape::Text => "a string"@,
        Shape::Number => "a whole number"@,
        Shape::Flag => "true or false"@,
        Shape::Resources => "a list of cpu, memory and io"@,
    }
}

fn write_shape(shape: Shape) -> (r: &'static str)
    ensures
        r@ == shape_text(shape),
{
    match shape {
        Shape::Text => "a string",
        Shape::Number => "a whole number",
        Shape::Flag => "true or false",
        Shape::Resources => "a list of cpu, memory and io",
    }
}

/// What is wrong with a key where it stands, if anything.
pub open spec fn key_fault(place: Place, key: Seq<char>, v: Setting) -> Option<Seq<char>> {
    if place == Place::Outside {
        Some("`"@ + key + "` is outside any table; it needs `[capture]` above it"@)
    } else {
        match shape_of(place, key) {
            None => Some("unknown key `"@ + key + "` in `"@ + place_text(place) + "`"@),
            Some(shape) => if fits(v, shape) {
                None
            } else {
                Some(
                    "`"@ + key + "` in `"@ + place_text(place) + "` must be "@ + shape_text(shape),
                )
            },
        }
    }
}

fn find_key_fault(place: Place, key: &[char], v: &Val) -> (r: Option<String>)
    ensures
        said(r) == key_fault(place, key@, v@),
{
    if place == Place::Outside {
        let mut msg: String = copy_text("`");
        push_chars(&mut msg, key);
        msg.push_str("` is outside any table; it needs `[capture]` above it");
        return Some(msg);
    }
    match find_shape(place, key) {
        None => {
            let mut msg: String = copy_text("unknown key `");
            push_chars(&mut msg, key);
            msg.push_str("` in `");
            msg.push_str(write_place(place));
            msg.push_str("`");
            Some(msg)
        },
        Some(shape) => {
            if check_shape(v, shape) {
                return None;
            }
            let mut msg: String = copy_text("`");
            push_chars(&mut msg, key);
            msg.push_str("` in `");
            msg.push_str(write_place(place));
            msg.push_str("` must be ");
            msg.push_str(write_shape(shape));
            Some(msg)
        },
    }
}

/// A table that opens on this line.
pub open spec fn opened(line: nat) -> Section {
    Section { line, keys: Map::empty() }
}

/// The table, opened on this line unless it was open before.
pub open spec fn reopened(t: Option<Section>, line: nat) -> Option<Section> {
    match t {
        Some(t) => Some(t),
        None => Some(opened(line)),
    }
}

/// The table with one more key.
pub open spec fn with_key(t: Section, k: Seq<char>, v: Setting) -> Section {
    Section { line: t.line, keys: t.keys.insert(k, v) }
}

pub open spec fn keyed(t: Option<Section>, k: Seq<char>, v: Setting) -> Option<Section> {
    match t {
        Some(t) => Some(with_key(t, k, v)),
        None => None,
    }
}

pub open spec fn last_keyed(t: Seq<Section>, k: Seq<char>, v: Setting) -> Seq<Section> {
    if t.len() == 0 {
        t
    } else {
        t.drop_last().push(with_key(t.last(), k, v))
    }
}

/// What has been read so far.
pub struct Progress {
    pub doc: Sections,
    pub place: Place,
}

/// What has been read, with one more key in the table that is open.
pub open spec fn with_pair(p: Progress, key: Seq<char>, v: Setting) -> Progress {
    Progress {
        doc: match p.place {
            Place::Outside => p.doc,
            Place::Capture => Sections { capture: keyed(p.doc.capture, key, v), ..p.doc },
            Place::Notify => Sections { notify: keyed(p.doc.notify, key, v), ..p.doc },
            Place::Rule => Sections { rules: last_keyed(p.doc.rules, key, v), ..p.doc },
        },
        ..p
    }
}

/// What a `key = value` line adds, or what is wrong with it.
pub open spec fn after_pair(p: Progress, s: Seq<char>) -> Result<Progress, Seq<char>> {
    let at = find(s, '=');
    if at >= s.len() {
        Err("expected `key = value`, found `"@ + s + "`"@)
    } else {
        let key = trim(s.take(at as int));
        match value_in(trim(s.skip(at as int + 1))) {
            Err(m) => Err(m),
            Ok(v) => match key_fault(p.place, key, v) {
                Some(m) => Err(m),
                None => Ok(with_pair(p, key, v)),
            },
        }
    }
}

/// What one line makes of what has been read, or what is wrong with it.
pub open spec fn after_line(p: Progress, raw: Seq<char>, line: nat) -> Result<Progress, Seq<char>> {
    let s = trim(uncommented(raw));
    if s.len() == 0 {
        Ok(p)
    } else if starts_with(s, "[["@) {
        let name = trim(without_tail(s.skip(2), "]]"@));
        if name == "rule"@ {
            Ok(Progress {
                doc: Sections { rules: p.doc.rules.push(opened(line)), ..p.doc },
                place: Place::Rule,
            })
        } else {
            Err("unknown array of tables `[["@ + name + "]]`; only `[[rule]]` exists"@)
        }
    } else if s[0] == '[' {
        let name = trim(without_tail(s.skip(1), "]"@));
        if name == "capture"@ {
            Ok(Progress {
                doc: Sections { capture: reopened(p.doc.capture, line), ..p.doc },
                place: Place::Capture,
            })
        } else if name == "notify"@ {
            Ok(Progress {
                doc: Sections { notify: reopened(p.doc.notify, line), ..p.doc },
                place: Place::Notify,
            })
        } else {
            Err("unknown table `["@ + name + "]`; expected `[capture]` or `[notify]`"@)
        }
    } else {
        after_pair(p, s)
    }
}

/// What the first `n` lines say.
pub open spec fn after_lines(lines: Seq<Seq<char>>, n: nat) -> Result<Progress, Misfit>
    decreases n,
{
    if n == 0 {
        Ok(Progress {
            doc: Sections { capture: None, notify: None, rules: seq![] },
            place: Place::Outside,
        })
    } else {
        match after_lines(lines, (n - 1) as nat) {
            Err(e) => Err(e),
            Ok(p) => match after_line(p, lines[n - 1], n) {
                Ok(q) => Ok(q),
                Err(msg) => Err(Misfit { line: n, msg }),
            },
        }
    }
}

/// The document in a text, or its first error.
pub open spec fn document(body: Seq<char>) -> Result<Sections, Misfit> {
    match after_lines(lines(body), lines(body).len()) {
        Ok(p) => Ok(p.doc),
        Err(e) => Err(e),
    }
}

pub proof fn lemma_error_stays(lines: Seq<Seq<char>>, n: nat, m: nat)
    requires
        n <= m,
        after_lines(lines, n) is Err,
    ensures
        after_lines(lines, m) == after_lines(lines, n),
    decreases m,
{
    if n < m {
        lemma_error_stays(lines, n, (m - 1) as nat);
    }
}

proof fn lemma_keys_prefix(a: Seq<Entry>, b: Seq<Entry>, n: nat)
    requires
        n <= a.len(),
        n <= b.len(),
        a.take(n as int) == b.take(n as int),
    ensures
        keys_of(a, n) == keys_of(b, n),
    decreases n,
{
    if n > 0 {
        assert(a.take(n - 1) =~= a.take(n as int).take(n - 1));
        assert(b.take(n - 1) =~= b.take(n as int).take(n - 1));
        lemma_keys_prefix(a, b, (n - 1) as nat);
        assert(a[n - 1] == a.take(n as int)[n - 1]);
        assert(b[n - 1] == b.take(n as int)[n - 1]);
    }
}

/// Put a key into a table.
fn put(t: &mut Table, key: String, value: Val)
    ensures
        final(t)@ == with_key(old(t)@, key@, value@),
{
    let ghost before = t.entries@;
    t.entries.push(Entry { key, value });
    proof {
        assert(t.entries@.take(before.len() as int) =~= before.take(before.len() as int));
        lemma_keys_prefix(t.entries@, before, before.len());
    }
}

fn put_in(t: &mut Option<Table>, key: String, value: Val)
    ensures
        section(*final(t)) == keyed(section(*old(t)), key@, value@),
{
    match t.take() {
        Some(mut table) => {
            put(&mut table, key, value);
            *t = Some(table);
        },
        None => {},
    }
}

fn put_in_last(t: &mut Vec<Table>, key: String, value: Val)
    ensures
        sections(final(t)@) == last_keyed(sections(old(t)@), key@, value@),
{
    let ghost before = sections(t@);
    match t.pop() {
        Some(mut table) => {
            assert(sections(t@) =~= before.drop_last());
            let ghost front = sections(t@);
            put(&mut table, key, value);
            t.push(table);
            assert(sections(t@) =~= front.push(table@));
        },
        None => {},
    }
}

/// Read a `key = value` line into the table that is open.
fn read_pair(doc: &mut Doc, place: Place, s: &[char]) -> (r: Result<(), String>)
    ensures
        match after_pair(Progress { doc: old(doc)@, place }, s@) {
            Ok(p) => r is Ok && p == (Progress { doc: final(doc)@, place }),
            Err(m) => r is Err && (r->Err_0)@ == m,
        },
{
    let n: usize = s.len();
    let at: usize = position(s, '=');
    if at >= n {
        let mut msg: String = copy_text("expected `key = value`, found `");
        push_chars(&mut msg, s);
        msg.push_str("`");
        return Err(msg);
    }
    let key: &[char] = trimmed(slice_subrange(s, 0, at));
    let rest: &[char] = slice_subrange(s, at + 1, n);
    assert(rest@ =~= s@.skip(at + 1));
    let value: Val = match parse_value(trimmed(rest)) {
        Ok(v) => v,
        Err(msg) => return Err(msg),
    };
    if let Some(msg) = find_key_fault(place, key, &value) {
        return Err(msg);
    }
    match place {
        Place::Rule => put_in_last(&mut doc.rules, from_chars(key), value),
        Place::Capture => put_in(&mut doc.capture, from_chars(key), value),
        Place::Notify => put_in(&mut doc.notify, from_chars(key), value),
        Place::Outside => {},
    }
    Ok(())
}

fn open_table(line: usize) -> (r: Table)
    ensures
        r@ == opened(line as nat),
{
    Table { line, entries: Vec::new() }
}

/// Read one line into the document.
fn read_line(doc: &mut Doc, place: Place, raw: &[char], line: usize) -> (r: Result<Place, String>)
    ensures
        match after_line(Progress { doc: old(doc)@, place }, raw@, line as nat) {
            Ok(p) => r is Ok && p == (Progress { doc: final(doc)@, place: r->Ok_0 }),
            Err(m) => r is Err && (r->Err_0)@ == m,
        },
{
    let s: &[char] = trimmed(strip_comment(raw));
    let n: usize = s.len();
    if n == 0 {
        return Ok(place);
    }
    if has_prefix(s, "[[") {
        proof {
            reveal_strlit("[[");
            reveal_strlit("]]");
        }
        let rest: &[char] = slice_subrange(s, 2, n);
        assert(rest@ =~= s@.skip(2));
        let name: &[char] = trimmed(drop_tail(rest, "]]"));
        if !is_text(name, "rule") {
            let mut msg: String = copy_text("unknown array of tables `[[");
            push_chars(&mut msg, name);
            msg.push_str("]]`; only `[[rule]]` exists");
            return Err(msg);
        }
        let ghost before = sections(doc.rules@);
        let t: Table = open_table(line);
        doc.rules.push(t);
        assert(sections(doc.rules@) =~= before.push(t@));
        return Ok(Place::Rule);
    }
    if s[0] == '[' {
        proof {
            reveal_strlit("]");
        }
        let rest: &[char] = slice_subrange(s, 1, n);
        assert(rest@ =~= s@.skip(1));
        let name: &[char] = trimmed(drop_tail(rest, "]"));
        if is_text(name, "capture") {
            if doc.capture.is_none() {
                doc.capture = Some(open_table(line));
            }
            return Ok(Place::Capture);
        }
        if is_text(name, "notify") {
            if doc.notify.is_none() {
                doc.notify = Some(open_table(line));
            }
            return Ok(Place::Notify);
        }
        let mut msg: String = copy_text("unknown table `[");
        push_chars(&mut msg, name);
        msg.push_str("]`; expected `[capture]` or `[notify]`");
        return Err(msg);
    }
    match read_pair(doc, place, s) {
        Ok(_) => Ok(place),
        Err(msg) => Err(msg),
    }
}

/// Read a document.
pub fn parse_toml(body: &str) -> (r: Result<Doc, TomlError>)
    ensures
        match document(body@) {
            Ok(d) => r is Ok && (r->Ok_0)@ == d,
            Err(e) => r is Err && (r->Err_0)@ == e,
        },
{
    let all: Vec<Vec<char>> = split_lines(&to_chars(body));
    let ghost ls = lines(body@);
    let mut doc: Doc = Doc { capture: None, notify: None, rules: Vec::new() };
    let mut place: Place = Place::Outside;
    let mut i: usize = 0;
    assert(sections(doc.rules@) =~= seq![]);
    while i < all.len()
        invariant
            i <= all@.len(),
            runs(all@) == ls,
            ls == lines(body@),
            after_lines(ls, i as nat) == Ok::<Progress, Misfit>(Progress { doc: doc@, place }),
        decreases all@.len() - i,
    {
        assert(ls[i as int] == all@[i as int]@);
        match read_line(&mut doc, place, all[i].as_slice(), i + 1) {
            Ok(p) => place = p,
            Err(msg) => {
                proof {
                    lemma_error_stays(ls, (i + 1) as nat, ls.len());
                }
                return Err(TomlError { line: i + 1, msg });
            },
        }
        i += 1;
    }
    Ok(doc)
}

} // verus!
