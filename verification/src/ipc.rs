//! The daemon's query protocol.
//!
//! One request line in, one document out, then EOF. No framing, no length
//! prefixes, no negotiation — a shell script with `socat` can talk to it.
//!
//! ```text
//! PING                 -> PONG
//! NOW [json|text]      -> most recent single tick
//! SINCE <secs> [fmt]   -> aggregated over the last <secs> seconds
//! ```

use vstd::prelude::*;

use crate::text::{
    copy_text, decimal, decimal_text, has_prefix, lines, lower, parse_nat, parse_u64, read_nat,
    read_u64, runs, same_ignoring_case, split_lines, split_words, starts_with, to_chars, trim,
    trimmed, words,
};

verus! {

/// The path of a file in a directory.
pub open spec fn in_directory(dir: Seq<char>, name: Seq<char>) -> Seq<char> {
    if dir.len() == 0 || dir.last() == '/' {
        dir + name
    } else {
        dir + "/"@ + name
    }
}

/// See [`in_directory`].
pub fn path_in(dir: &str, name: &str) -> (r: String)
    ensures
        r@ == in_directory(dir@, name@),
{
    let chars: Vec<char> = to_chars(dir);
    let mut out: String = copy_text(dir);
    if chars.len() > 0 && chars[chars.len() - 1] != '/' {
        out.push_str("/");
    }
    out.push_str(name);
    out
}

/// Where the socket is: in the runtime directory, where one is set, else under
/// `/tmp` with the user's number, so that two users cannot collide.
pub open spec fn socket_place(runtime_dir: Option<String>, uid: u32) -> Seq<char> {
    match runtime_dir {
        Some(d) => if d@.len() > 0 {
            in_directory(d@, "stallwatch.sock"@)
        } else {
            "/tmp/stallwatch-"@ + decimal(uid as nat) + ".sock"@
        },
        None => "/tmp/stallwatch-"@ + decimal(uid as nat) + ".sock"@,
    }
}

/// Socket path, honouring `XDG_RUNTIME_DIR`.
pub fn socket_path(runtime_dir: &Option<String>, uid: u32) -> (r: String)
    ensures
        r@ == socket_place(*runtime_dir, uid),
{
    if let Some(d) = runtime_dir {
        if to_chars(d.as_str()).len() > 0 {
            return path_in(d.as_str(), "stallwatch.sock");
        }
    }
    let mut out: String = copy_text("/tmp/stallwatch-");
    out.push_str(decimal_text(uid as u64).as_str());
    out.push_str(".sock");
    out
}

/// The first line that begins with `p`.
pub open spec fn line_with(lines: Seq<Seq<char>>, p: Seq<char>) -> Option<Seq<char>>
    decreases lines.len(),
{
    if lines.len() == 0 {
        None
    } else if starts_with(lines[0], p) {
        Some(lines[0])
    } else {
        line_with(lines.drop_first(), p)
    }
}

/// See [`line_with`].
pub fn find_line<'a>(all: &'a Vec<Vec<char>>, p: &str) -> (r: Option<&'a Vec<char>>)
    ensures
        r is Some == line_with(runs(all@), p@) is Some,
        r matches Some(l) ==> l@ == line_with(runs(all@), p@)->0,
{
    let ghost ls = runs(all@);
    let mut i: usize = 0;
    assert(ls.skip(0) =~= ls);
    while i < all.len()
        invariant
            i <= all@.len(),
            ls == runs(all@),
            line_with(ls.skip(i as int), p@) == line_with(ls, p@),
        decreases all@.len() - i,
    {
        let ghost rest = ls.skip(i as int);
        assert(rest[0] == all@[i as int]@);
        assert(rest.drop_first() =~= ls.skip(i + 1));
        if has_prefix(&all[i], p) {
            return Some(&all[i]);
        }
        i += 1;
    }
    None
}

/// The user that a process's status names: the second word of its `Uid:` line,
/// zero where there is none.
pub open spec fn uid_in(status: Option<String>) -> nat {
    match status {
        None => 0,
        Some(s) => match line_with(lines(s@), "Uid:"@) {
            None => 0,
            Some(l) => if words(l).len() < 2 {
                0
            } else {
                match parse_nat(words(l)[1], 10, u32::MAX as nat) {
                    Some(n) => n,
                    None => 0,
                }
            },
        },
    }
}

/// The real user, out of `/proc/self/status`.
pub fn uid_from_status(status: &Option<String>) -> (r: u32)
    ensures
        r == uid_in(*status),
{
    if let Some(s) = status {
        let all: Vec<Vec<char>> = split_lines(&to_chars(s.as_str()));
        if let Some(l) = find_line(&all, "Uid:") {
            let w: Vec<Vec<char>> = split_words(l);
            assert(runs(w@).len() == w@.len());
            if w.len() >= 2 {
                assert(runs(w@)[1] == w@[1]@);
                if let Some(n) = read_nat(&w[1], 10, u32::MAX as u64) {
                    return n as u32;
                }
            }
        }
    }
    0
}

/// How the daemon should render its reply.
#[derive(Clone, Copy, Debug, PartialEq, Eq, Structural)]
pub enum Format {
    Json,
    Text,
}

impl Default for Format {
    fn default() -> (r: Format)
        ensures
            r == Format::Json,
    {
        Format::Json
    }
}

/// The format that the word at `i` asks for; JSON where there is none or it is
/// unknown.
pub open spec fn format_at(w: Seq<Seq<char>>, i: int) -> Format {
    if i < w.len() && lower(w[i]) == lower("TEXT"@) {
        Format::Text
    } else {
        Format::Json
    }
}

impl Format {
    fn parse(w: &Vec<Vec<char>>, i: usize) -> (r: Format)
        ensures
            r == format_at(runs(w@), i as int),
    {
        if i < w.len() && same_ignoring_case(&w[i], "TEXT") {
            Format::Text
        } else {
            Format::Json
        }
    }
}

/// A parsed client request.
#[derive(Clone, Copy, Debug, PartialEq, Eq, Structural)]
pub enum Request {
    Ping,
    Now(Format),
    /// Aggregate the last N seconds.
    Since(u64, Format),
}

/// The request in the words of a line; unknown verbs are none.
pub open spec fn request_in(w: Seq<Seq<char>>) -> Option<Request> {
    if w.len() == 0 {
        None
    } else if lower(w[0]) == lower("PING"@) {
        Some(Request::Ping)
    } else if lower(w[0]) == lower("NOW"@) {
        Some(Request::Now(format_at(w, 1)))
    } else if lower(w[0]) == lower("SINCE"@) {
        if w.len() < 2 {
            None
        } else {
            match parse_u64(w[1]) {
                Some(secs) => Some(Request::Since(secs as u64, format_at(w, 2))),
                None => None,
            }
        }
    } else {
        None
    }
}

impl Request {
    /// Parse a request line. Unknown verbs are rejected rather than guessed at.
    pub fn parse(line: &str) -> (r: Option<Request>)
        ensures
            r == request_in(words(trim(line@))),
    {
        let chars: Vec<char> = to_chars(line);
        let w: Vec<Vec<char>> = split_words(trimmed(&chars));
        assert(runs(w@).len() == w@.len());
        if w.len() == 0 {
            return None;
        }
        assert(runs(w@)[0] == w@[0]@);
        if same_ignoring_case(&w[0], "PING") {
            return Some(Request::Ping);
        }
        if same_ignoring_case(&w[0], "NOW") {
            return Some(Request::Now(Format::parse(&w, 1)));
        }
        if same_ignoring_case(&w[0], "SINCE") {
            if w.len() < 2 {
                return None;
            }
            assert(runs(w@)[1] == w@[1]@);
            return match read_u64(&w[1]) {
                Some(secs) => Some(Request::Since(secs, Format::parse(&w, 2))),
                None => None,
            };
        }
        None
    }
}

} // verus!
