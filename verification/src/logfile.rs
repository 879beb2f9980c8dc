//! Appending to a log that cannot grow without bound.
//!
//! A diagnostic that fills the disk it is diagnosing has become the problem it
//! was installed to find.
//!
//! # The policy
//!
//! Size-triggered, one generation kept. On crossing the cap the current file is
//! renamed to `<name>.1`, replacing any previous `.1`, and a fresh file starts.
//! Worst case on disk is therefore a little over twice the cap, and it is
//! bounded regardless of how long the daemon runs.
//!
//! Deliberately not time-based: a machine that stalls constantly writes a
//! hundred times more than a healthy one, and the failure being guarded against
//! is volume, not age.

use vstd::prelude::*;
use vstd::utf8::encode_utf8;

use crate::text::copy_text;

verus! {

/// Default cap for one generation of the incident log.
///
/// This holds roughly five days live and ten across both generations on a
/// chronically stalling desktop, which comfortably covers "what happened to my
/// machine last week", the only question the log exists to answer.
pub const DEFAULT_MAX_BYTES: u64 = 67_108_864;

/// The path the previous generation is rotated to.
pub open spec fn older(path: Seq<char>) -> Seq<char> {
    path + ".1"@
}

/// See [`older`].
pub fn previous_generation(path: &str) -> (r: String)
    ensures
        r@ == older(path@),
{
    let mut name: String = copy_text(path);
    name.push_str(".1");
    name
}

/// Whether a file of this size is rotated before the next line. A cap of zero
/// means never; a file whose size is not known counts as empty.
pub open spec fn is_full(size: Option<u64>, max_bytes: u64) -> bool {
    max_bytes > 0 && (match size {
        Some(n) => n,
        None => 0,
    }) >= max_bytes
}

/// What to do to append a line.
#[derive(Debug)]
pub struct Append {
    /// Rename the file to this first, if at all. A failed rename must not stop
    /// the append: losing a record is worse than a file that is briefly over
    /// its cap, and the next attempt will try again.
    pub rotate_to: Option<String>,
    /// What to write at the end.
    pub text: String,
}

/// Append one line, rotating first if the file has reached `max_bytes`.
///
/// Goes by the size before writing rather than after, so the cap is never
/// exceeded by more than one record.
pub fn append_line(path: &str, line: &str, size: Option<u64>, max_bytes: u64) -> (r: Append)
    ensures
        r.text@ == line@ + "\n"@,
        r.rotate_to is Some == is_full(size, max_bytes),
        r.rotate_to matches Some(to) ==> to@ == older(path@),
{
    let held: u64 = match size {
        Some(n) => n,
        None => 0,
    };
    let rotate_to: Option<String> = if max_bytes > 0 && held >= max_bytes {
        Some(previous_generation(path))
    } else {
        None
    };
    let mut text: String = copy_text(line);
    text.push_str("\n");
    Append { rotate_to, text }
}

// ── what is on disk ────────────────────────────────────────────────────

/// The two generations of a log: what the file holds and what the previous one
/// does.
pub struct Generations {
    pub live: Seq<u8>,
    pub previous: Option<Seq<u8>>,
}

/// What is on disk after a line was appended.
pub open spec fn appended(g: Generations, line: Seq<char>, max_bytes: nat) -> Generations {
    let text = encode_utf8(line + "\n"@);
    if max_bytes > 0 && g.live.len() >= max_bytes {
        Generations { live: text, previous: Some(g.live) }
    } else {
        Generations { live: g.live + text, previous: g.previous }
    }
}

/// What is on disk after the first `n` lines were appended to an empty log.
pub open spec fn kept(lines: Seq<Seq<char>>, n: nat, max_bytes: nat) -> Generations
    decreases n,
{
    if n == 0 {
        Generations { live: seq![], previous: None }
    } else {
        appended(kept(lines, (n - 1) as nat, max_bytes), lines[n - 1], max_bytes)
    }
}

/// The bytes of the previous generation.
pub open spec fn previous_len(g: Generations) -> nat {
    match g.previous {
        Some(p) => p.len(),
        None => 0,
    }
}

/// However many lines are appended, each generation exceeds the cap by less
/// than one record, so the two together hold less than twice the cap and two
/// records.
pub proof fn lemma_rotation_bounds_the_total_size(
    lines: Seq<Seq<char>>,
    n: nat,
    max_bytes: nat,
    record: nat,
)
    requires
        max_bytes > 0,
        n <= lines.len(),
        forall|i: int|
            0 <= i < lines.len() ==> encode_utf8(#[trigger] lines[i] + "\n"@).len() <= record,
    ensures
        kept(lines, n, max_bytes).live.len() < max_bytes + record,
        previous_len(kept(lines, n, max_bytes)) < max_bytes + record,
        kept(lines, n, max_bytes).live.len() + previous_len(kept(lines, n, max_bytes)) < 2 * (
        max_bytes + record),
    decreases n,
{
    if n > 0 {
        lemma_rotation_bounds_the_total_size(lines, (n - 1) as nat, max_bytes, record);
        assert(encode_utf8(lines[n - 1] + "\n"@).len() <= record);
    }
}

/// What is rotated is kept, not deleted: after a rotation the previous
/// generation is what the file held, and the file holds the new line alone.
pub proof fn lemma_previous_generation_is_kept(g: Generations, line: Seq<char>, max_bytes: nat)
    requires
        max_bytes > 0,
        g.live.len() >= max_bytes,
    ensures
        appended(g, line, max_bytes).previous == Some(g.live),
        appended(g, line, max_bytes).live == encode_utf8(line + "\n"@),
{
}

/// A cap of zero switches rotation off: everything stays in the one file.
pub proof fn lemma_zero_cap_disables_rotation(lines: Seq<Seq<char>>, n: nat)
    requires
        n <= lines.len(),
    ensures
        kept(lines, n, 0).previous is None,
        n > 0 ==> kept(lines, n, 0).live == kept(lines, (n - 1) as nat, 0).live + encode_utf8(
            lines[n - 1] + "\n"@,
        ),
    decreases n,
{
    if n > 0 {
        lemma_zero_cap_disables_rotation(lines, (n - 1) as nat);
    }
}

} // verus!
