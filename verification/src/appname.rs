//! Turning a systemd unit name into something a person recognises.
//!
//! `com.mitchellh.ghostty` is correct, addressable, and meaningless to the
//! human being told their machine froze. They call it Ghostty. The desktop
//! already stores the answer: every installed application ships a `.desktop`
//! entry keyed by exactly this identifier, with a `Name=` line.

use vstd::prelude::*;
use vstd::slice::slice_subrange;
use vstd::utf8::encode_utf8;

use crate::ipc::{in_directory, path_in};
use crate::text::{
    after_prefix, before_suffix, copy_text, find_last, from_chars, has_char, has_prefix, is_text,
    lines, position_last, push_chars, push_text, runs, split_lines, starts_with, strip_prefix,
    strip_suffix, texts, to_chars, trim, trimmed,
};

verus! {

/// Where desktop entries live, in the order XDG says to search.
pub open spec fn entry_dirs(home: Option<String>) -> Seq<Seq<char>> {
    (match home {
        Some(h) => seq![
            in_directory(h@, ".local/share/applications"@),
            in_directory(h@, ".local/share/flatpak/exports/share/applications"@),
        ],
        None => seq![],
    }) + seq![
        "/var/lib/flatpak/exports/share/applications"@,
        "/usr/local/share/applications"@,
        "/usr/share/applications"@,
    ]
}

/// See [`entry_dirs`].
pub fn search_dirs(home: &Option<String>) -> (r: Vec<String>)
    ensures
        texts(r@) == entry_dirs(*home),
{
    let mut dirs: Vec<String> = Vec::new();
    if let Some(h) = home {
        dirs.push(path_in(h.as_str(), ".local/share/applications"));
        dirs.push(path_in(h.as_str(), ".local/share/flatpak/exports/share/applications"));
    }
    dirs.push(copy_text("/var/lib/flatpak/exports/share/applications"));
    dirs.push(copy_text("/usr/local/share/applications"));
    dirs.push(copy_text("/usr/share/applications"));
    assert(texts(dirs@) =~= entry_dirs(*home));
    dirs
}

/// The name in the lines of a desktop entry, given whether the lines before
/// them opened its main section: the first `Name=` line inside that section.
/// Actions and localised sections further down carry their own, and taking the
/// last one would yield the name of a right-click menu item.
pub open spec fn name_in(lines: Seq<Seq<char>>, in_entry: bool) -> Option<Seq<char>>
    decreases lines.len(),
{
    if lines.len() == 0 {
        None
    } else {
        let line = trim(lines[0]);
        let rest = lines.drop_first();
        if starts_with(line, "["@) {
            name_in(rest, line == "[Desktop Entry]"@)
        } else if !in_entry {
            name_in(rest, in_entry)
        } else {
            match after_prefix(line, "Name="@) {
                Some(v) => if trim(v).len() > 0 {
                    Some(trim(v))
                } else {
                    name_in(rest, in_entry)
                },
                None => name_in(rest, in_entry),
            }
        }
    }
}

/// What an optional text says.
pub open spec fn said(s: Option<String>) -> Option<Seq<char>> {
    match s {
        Some(s) => Some(s@),
        None => None,
    }
}

/// Read `Name=` from a desktop entry body.
pub fn desktop_name(body: &str) -> (r: Option<String>)
    ensures
        said(r) == name_in(lines(body@), false),
{
    let all: Vec<Vec<char>> = split_lines(&to_chars(body));
    let ghost ls = runs(all@);
    let mut in_entry: bool = false;
    let mut i: usize = 0;
    assert(ls.skip(0) =~= ls);
    while i < all.len()
        invariant
            i <= all@.len(),
            ls == runs(all@),
            ls == lines(body@),
            name_in(ls.skip(i as int), in_entry) == name_in(ls, false),
        decreases all@.len() - i,
    {
        let ghost rest = ls.skip(i as int);
        assert(rest[0] == all@[i as int]@);
        assert(rest.drop_first() =~= ls.skip(i + 1));
        let line: &[char] = trimmed(&all[i]);
        if has_prefix(line, "[") {
            in_entry = is_text(line, "[Desktop Entry]");
        } else if in_entry {
            if let Some(v) = strip_prefix(line, "Name=") {
                let name: &[char] = trimmed(v);
                if name.len() > 0 {
                    return Some(from_chars(name));
                }
            }
        }
        i += 1;
    }
    None
}

/// The identifier in a unit's name, without the decoration it may carry.
pub open spec fn base_of(unit: Seq<char>) -> Seq<char> {
    match before_suffix(unit, " (flatpak)"@) {
        Some(b) => trim(b),
        None => trim(unit),
    }
}

fn find_base(unit: &[char]) -> (r: &[char])
    ensures
        r@ == base_of(unit@),
{
    match strip_suffix(unit, " (flatpak)") {
        Some(b) => trimmed(b),
        None => trimmed(unit),
    }
}

/// The desktop entries that may name a unit, in the order to look.
pub open spec fn entry_paths(unit: Seq<char>, home: Option<String>) -> Seq<Seq<char>> {
    if base_of(unit).len() == 0 {
        seq![]
    } else {
        Seq::new(
            entry_dirs(home).len(),
            |i: int| in_directory(entry_dirs(home)[i], base_of(unit) + ".desktop"@),
        )
    }
}

/// See [`entry_paths`].
pub fn candidates(unit: &str, home: &Option<String>) -> (r: Vec<String>)
    ensures
        texts(r@) == entry_paths(unit@, *home),
{
    let mut out: Vec<String> = Vec::new();
    let chars: Vec<char> = to_chars(unit);
    let base: &[char] = find_base(&chars);
    if base.len() == 0 {
        assert(texts(out@) =~= seq![]);
        return out;
    }
    let mut name: String = from_chars(base);
    name.push_str(".desktop");
    let dirs: Vec<String> = search_dirs(home);
    let ghost all = entry_paths(unit@, *home);
    let mut i: usize = 0;
    assert(texts(dirs@).len() == dirs@.len());
    assert(texts(out@) =~= all.take(0));
    while i < dirs.len()
        invariant
            i <= dirs@.len(),
            dirs@.len() == all.len(),
            texts(dirs@) == entry_dirs(*home),
            name@ == base_of(unit@) + ".desktop"@,
            base_of(unit@).len() > 0,
            all == entry_paths(unit@, *home),
            texts(out@) == all.take(i as int),
        decreases dirs@.len() - i,
    {
        assert(texts(dirs@)[i as int] == dirs@[i as int]@);
        push_text(&mut out, path_in(dirs[i].as_str(), name.as_str()));
        assert(all.take(i + 1) =~= all.take(i as int).push(all[i as int]));
        i += 1;
    }
    assert(all.take(i as int) =~= all);
    out
}

/// What `char::is_alphabetic` says of a character.
pub uninterp spec fn alphabetic(c: char) -> bool;

/// What `char::to_uppercase` makes of a character.
pub uninterp spec fn uppercase(c: char) -> Seq<char>;

/// `char::is_alphabetic`, which goes by a property that Unicode gives each
/// character. The contract only names the answer.
#[verifier::external_body]
fn is_letter(c: char) -> (r: bool)
    ensures
        r == alphabetic(c),
{
    c.is_alphabetic()
}

/// `char::to_uppercase`, which goes by Unicode's mapping; it may give more than
/// one character. The contract only names the result.
#[verifier::external_body]
fn capital(c: char) -> (r: String)
    ensures
        r@ == uppercase(c),
{
    c.to_uppercase().to_string()
}

/// What stands behind the last dot.
pub open spec fn last_part(base: Seq<char>) -> Seq<char> {
    base.skip(find_last(base, '.') as int)
}

/// Does an identifier look like a reverse domain name whose last part can stand
/// for it? `letter` says whether that part begins with a letter.
pub open spec fn reverse_dns(base: Seq<char>, letter: bool) -> bool {
    base.contains('.') && !base.contains(' ') && encode_utf8(last_part(base)).len() > 1 && letter
}

/// The name of a unit without a desktop entry. A reverse domain name still
/// reads better as its last part than as the whole; anything else is about as
/// readable as it is going to get. `letter` says whether the last part begins
/// with a letter, and `first` is that letter as a capital.
pub open spec fn fallback(unit: Seq<char>, letter: bool, first: Seq<char>) -> Seq<char> {
    if reverse_dns(base_of(unit), letter) {
        first + last_part(base_of(unit)).drop_first()
    } else {
        unit
    }
}

/// See [`fallback`].
pub fn fallback_name(unit: &str, letter: bool, first: &str) -> (r: String)
    requires
        letter ==> last_part(base_of(unit@)).len() > 0,
    ensures
        r@ == fallback(unit@, letter, first@),
{
    let chars: Vec<char> = to_chars(unit);
    let base: &[char] = find_base(&chars);
    let at: usize = position_last(base, '.');
    let last: &[char] = slice_subrange(base, at, base.len());
    assert(last@ =~= last_part(base@));
    let text: String = from_chars(last);
    if letter && has_char(base, '.') && !has_char(base, ' ') && text.as_str().as_bytes().len() > 1 {
        let mut out: String = copy_text(first);
        let tail: &[char] = slice_subrange(last, 1, last.len());
        assert(tail@ =~= last@.drop_first());
        push_chars(&mut out, tail);
        return out;
    }
    copy_text(unit)
}

/// The name in the first body that has one.
pub open spec fn first_name(bodies: Seq<Option<String>>) -> Option<Seq<char>>
    decreases bodies.len(),
{
    if bodies.len() == 0 {
        None
    } else {
        match bodies[0] {
            Some(b) => match name_in(lines(b@), false) {
                Some(n) => Some(n),
                None => first_name(bodies.drop_first()),
            },
            None => first_name(bodies.drop_first()),
        }
    }
}

/// See [`first_name`].
pub fn find_name(bodies: &Vec<Option<String>>) -> (r: Option<String>)
    ensures
        said(r) == first_name(bodies@),
{
    let mut i: usize = 0;
    assert(bodies@.skip(0) =~= bodies@);
    while i < bodies.len()
        invariant
            i <= bodies@.len(),
            first_name(bodies@.skip(i as int)) == first_name(bodies@),
        decreases bodies@.len() - i,
    {
        let ghost rest = bodies@.skip(i as int);
        assert(rest[0] == bodies@[i as int]);
        assert(rest.drop_first() =~= bodies@.skip(i + 1));
        if let Some(b) = &bodies[i] {
            if let Some(n) = desktop_name(b.as_str()) {
                return Some(n);
            }
        }
        i += 1;
    }
    None
}

/// The name that a person knows a unit by, given the bodies of the desktop
/// entries that may name it.
pub open spec fn person_name(unit: Seq<char>, bodies: Seq<Option<String>>) -> Seq<char> {
    let last = last_part(base_of(unit));
    if base_of(unit).len() == 0 {
        unit
    } else {
        match first_name(bodies) {
            Some(n) => n,
            None => fallback(
                unit,
                last.len() > 0 && alphabetic(last[0]),
                if last.len() > 0 {
                    uppercase(last[0])
                } else {
                    seq![]
                },
            ),
        }
    }
}

/// Best human name for a unit, falling back to the unit itself.
///
/// A unit with no desktop entry — `systemd-journald`, a container, a slice — is
/// returned as it is.
pub fn human_name(unit: &str, bodies: &Vec<Option<String>>) -> (r: String)
    ensures
        r@ == person_name(unit@, bodies@),
{
    let chars: Vec<char> = to_chars(unit);
    let base: &[char] = find_base(&chars);
    if base.len() == 0 {
        return copy_text(unit);
    }
    if let Some(n) = find_name(bodies) {
        return n;
    }
    let at: usize = position_last(base, '.');
    assert(last_part(base@).len() == base@.len() - at);
    if at < base.len() {
        assert(last_part(base@)[0] == base@[at as int]);
        let letter: bool = is_letter(base[at]);
        let first: String = capital(base[at]);
        fallback_name(unit, letter, first.as_str())
    } else {
        copy_text(unit)
    }
}

} // verus!
