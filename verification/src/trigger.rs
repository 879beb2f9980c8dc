//! Event-driven stall detection using PSI triggers.
//!
//! Every other PSI-aware tool polls. The kernel offers the inverse: write a
//! threshold and a window into a PSI file and the kernel wakes you when stall
//! time inside that window exceeds the threshold. Idle cost is a blocked
//! thread; latency is the kernel's own accounting rather than a sampling
//! artifact.
//!
//! # Privileges
//!
//! None. `/proc/pressure/*` is world-writable, and the kernel documents exactly
//! one restriction for unprivileged callers: the window must be a multiple of
//! two seconds, to stop anyone pinning a CPU with a tight window. A
//! [`Trigger`] rounds to satisfy that rather than leaving the caller to guess
//! why it was refused.

use vstd::prelude::*;

use crate::psi::{PsiKind, Resource};
use crate::span::Span;
use crate::text::{copy_text, decimal, push_chars, push_u128, to_chars, trim, trimmed};

verus! {

/// What the kernel takes windows in multiples of from an unprivileged caller,
/// in microseconds.
pub const WINDOW_GRANULARITY: u64 = 2_000_000;

/// The kernel rejects shorter windows regardless of privilege.
pub const WINDOW_MIN: u64 = 500_000;

/// The kernel rejects longer windows regardless of privilege.
pub const WINDOW_MAX: u64 = 10_000_000;

/// The least threshold, in nanoseconds: a millisecond.
pub const THRESHOLD_MIN_NANOS: u64 = 1_000_000;

/// Urgent data can be read: the trigger fired.
pub const POLLPRI: i16 = 2;

/// Something is wrong with the file.
pub const POLLERR: i16 = 8;

/// What the kernel reported when a trigger fired.
#[derive(Clone, Copy, Debug, PartialEq, Eq, Structural)]
pub enum Wake {
    /// Stall crossed the threshold inside the window.
    Stalled,
    /// The window elapsed with no breach.
    Quiet,
}

/// A window in microseconds as the kernel will accept it: brought into range,
/// then rounded up to the granularity, so that the caller never gets a shorter
/// window than asked for.
pub open spec fn accepted_window(micros: nat) -> nat {
    let held = if micros < WINDOW_MIN {
        WINDOW_MIN as nat
    } else if micros > WINDOW_MAX {
        WINDOW_MAX as nat
    } else {
        micros
    };
    let g = WINDOW_GRANULARITY as nat;
    let rounded = (held + g - 1) as nat / g * g;
    if rounded < WINDOW_MAX {
        rounded
    } else {
        WINDOW_MAX as nat
    }
}

/// Round a requested window into something the kernel will accept from an
/// unprivileged process.
pub fn round_window(requested: Span) -> (r: Span)
    requires
        requested.sound(),
    ensures
        r.sound(),
        r.total_nanos() == accepted_window(requested.total_nanos() / 1000) * 1000,
{
    let micros: u128 = (requested.secs as u128 * 1_000_000_000 + requested.nanos as u128) / 1000;
    let held: u64 = if micros < WINDOW_MIN as u128 {
        WINDOW_MIN
    } else if micros > WINDOW_MAX as u128 {
        WINDOW_MAX
    } else {
        micros as u64
    };
    let rounded: u64 = (held + 1_999_999) / 2_000_000 * 2_000_000;
    let window: u64 = if rounded < WINDOW_MAX {
        rounded
    } else {
        WINDOW_MAX
    };
    Span { secs: window / 1_000_000, nanos: (window % 1_000_000 * 1000) as u32 }
}

/// The threshold that is registered, in nanoseconds: no more than half the
/// window, since one at or above the window can never fire, and no less than a
/// millisecond.
pub open spec fn accepted_threshold(nanos: nat, window_nanos: nat) -> nat {
    let half = window_nanos / 2;
    let low = if nanos < half {
        nanos
    } else {
        half
    };
    if low < THRESHOLD_MIN_NANOS {
        THRESHOLD_MIN_NANOS as nat
    } else {
        low
    }
}

/// A PSI trigger: what is registered, and where.
#[derive(Debug)]
pub struct Trigger {
    path: String,
    resource: Resource,
    kind: PsiKind,
    threshold: Span,
    window: Span,
}

/// A trigger as a value to compare with.
pub struct Registration {
    pub path: Seq<char>,
    pub resource: Resource,
    pub kind: PsiKind,
    pub threshold_nanos: nat,
    pub window_nanos: nat,
}

impl View for Trigger {
    type V = Registration;

    closed spec fn view(&self) -> Registration {
        Registration {
            path: self.path@,
            resource: self.resource,
            kind: self.kind,
            threshold_nanos: self.threshold.total_nanos(),
            window_nanos: self.window.total_nanos(),
        }
    }
}

/// What is registered for a request.
pub open spec fn registration(
    path: Seq<char>,
    resource: Resource,
    kind: PsiKind,
    threshold: Span,
    window: Span,
) -> Registration {
    let w = accepted_window(window.total_nanos() / 1000) * 1000;
    Registration {
        path,
        resource,
        kind,
        threshold_nanos: accepted_threshold(threshold.total_nanos(), w),
        window_nanos: w,
    }
}

/// What is written into the file. The trailing newline is load-bearing: without
/// it the kernel refuses the request.
pub open spec fn request(r: Registration) -> Seq<char> {
    r.kind.name() + " "@ + decimal(r.threshold_nanos / 1000) + " "@ + decimal(r.window_nanos / 1000)
        + "\n"@
}

/// What is said when the kernel refuses the request.
pub open spec fn refusal(r: Registration, error: Seq<char>) -> Seq<char> {
    "kernel rejected PSI trigger \""@ + trim(request(r)) + "\" on "@ + r.path + ": "@ + error
        + ". Unprivileged windows must be a 2s multiple between 500ms and 10s."@
}

/// What the kernel's answer to a wait means.
#[derive(Clone, Copy, Debug, PartialEq, Eq, Structural)]
pub enum Answer {
    /// A signal interrupted the wait, which is no failure: wait again.
    Again,
    /// The wait ended.
    Woke(Wake),
    /// The wait failed with this error number.
    Failed(i32),
    /// The file is no longer what it was; the cgroup was probably removed.
    Gone,
}

/// The meaning of what `ppoll` returned and of the events it set: below zero an
/// error number, zero a timeout.
pub open spec fn answer(ret: i64, error_set: bool) -> Answer {
    if ret < 0 {
        if ret == -4 {
            Answer::Again
        } else {
            Answer::Failed(
                if ret >= -(i32::MAX as int) {
                    (-ret) as i32
                } else {
                    i32::MAX
                },
            )
        }
    } else if ret == 0 {
        Answer::Woke(Wake::Quiet)
    } else if error_set {
        Answer::Gone
    } else {
        Answer::Woke(Wake::Stalled)
    }
}

/// See [`answer`].
pub fn read_answer(ret: i64, error_set: bool) -> (r: Answer)
    ensures
        r == answer(ret, error_set),
{
    if ret < 0 {
        if ret == -4 {
            Answer::Again
        } else if ret >= -(i32::MAX as i64) {
            Answer::Failed((-ret) as i32)
        } else {
            Answer::Failed(i32::MAX)
        }
    } else if ret == 0 {
        Answer::Woke(Wake::Quiet)
    } else if error_set {
        Answer::Gone
    } else {
        Answer::Woke(Wake::Stalled)
    }
}

impl Trigger {
    /// The lengths of time in it are sound.
    pub closed spec fn sound(&self) -> bool {
        self.threshold.sound() && self.window.sound()
    }

    /// A trigger on the system-wide file: wake when `threshold` of stall
    /// accrues in `window`.
    ///
    /// `window` is rounded up to the next 2s multiple and clamped to the range
    /// the kernel accepts, because an unprivileged caller that passes 1s gets a
    /// bare refusal with nothing explaining which of the several rules it broke.
    pub fn new(resource: Resource, kind: PsiKind, threshold: Span, window: Span) -> (r: Trigger)
        requires
            threshold.sound(),
            window.sound(),
        ensures
            r.sound(),
            r@ == registration(
                "/proc/pressure/"@ + resource.name(),
                resource,
                kind,
                threshold,
                window,
            ),
    {
        // `Resource::file()` is the cgroup basename (`io.pressure`); the
        // system-wide files are `/proc/pressure/io`.
        let mut path: String = copy_text("/proc/pressure/");
        path.push_str(resource.as_str());
        Trigger::at(path.as_str(), resource, kind, threshold, window)
    }

    /// A trigger on an explicit path, so a caller can watch one cgroup's
    /// `io.pressure` instead of the system-wide file.
    pub fn at(
        path: &str,
        resource: Resource,
        kind: PsiKind,
        threshold: Span,
        window: Span,
    ) -> (r: Trigger)
        requires
            threshold.sound(),
            window.sound(),
        ensures
            r.sound(),
            r@ == registration(path@, resource, kind, threshold, window),
    {
        let window: Span = round_window(window);
        let asked: u128 = threshold.secs as u128 * 1_000_000_000 + threshold.nanos as u128;
        let half: u128 = (window.secs as u128 * 1_000_000_000 + window.nanos as u128) / 2;
        let low: u128 = if asked < half {
            asked
        } else {
            half
        };
        let held: u128 = if low < 1_000_000 {
            1_000_000
        } else {
            low
        };
        proof {
            lemma_window_is_accepted(window.total_nanos() / 1000);
        }
        assert(held < 10_000_000_000u128);
        Trigger {
            path: copy_text(path),
            resource,
            kind,
            threshold: Span {
                secs: (held / 1_000_000_000) as u64,
                nanos: (held % 1_000_000_000) as u32,
            },
            window,
        }
    }

    pub fn resource(&self) -> (r: Resource)
        ensures
            r == self@.resource,
    {
        self.resource
    }

    pub fn threshold(&self) -> (r: Span)
        ensures
            r.total_nanos() == self@.threshold_nanos,
    {
        self.threshold
    }

    /// The window actually registered, after rounding.
    pub fn window(&self) -> (r: Span)
        ensures
            r.total_nanos() == self@.window_nanos,
    {
        self.window
    }

    /// The file it is registered in.
    pub fn path(&self) -> (r: &str)
        ensures
            r@ == self@.path,
    {
        self.path.as_str()
    }

    /// See [`request`].
    pub fn request_line(&self) -> (r: String)
        requires
            self.sound(),
        ensures
            r@ == request(self@),
    {
        let mut o: String = copy_text(self.kind.as_str());
        o.push_str(" ");
        push_u128(
            &mut o,
            (self.threshold.secs as u128 * 1_000_000_000 + self.threshold.nanos as u128) / 1000,
        );
        o.push_str(" ");
        push_u128(
            &mut o,
            (self.window.secs as u128 * 1_000_000_000 + self.window.nanos as u128) / 1000,
        );
        o.push_str("\n");
        o
    }

    /// What to say when the kernel refuses the request.
    pub fn rejection(&self, error: &str) -> (r: String)
        requires
            self.sound(),
        ensures
            r@ == refusal(self@, error@),
    {
        let line: String = self.request_line();
        let mut o: String = copy_text("kernel rejected PSI trigger \"");
        push_chars(&mut o, trimmed(&to_chars(line.as_str())));
        o.push_str("\" on ");
        o.push_str(self.path.as_str());
        o.push_str(": ");
        o.push_str(error);
        o.push_str(". Unprivileged windows must be a 2s multiple between 500ms and 10s.");
        o
    }
}

// ── laws ───────────────────────────────────────────────────────────────

/// Whatever is asked for, the window is one that the kernel accepts from an
/// unprivileged process, and it is no shorter than asked for as far as the
/// kernel goes.
pub proof fn lemma_window_is_accepted(micros: nat)
    ensures
        accepted_window(micros) % 2_000_000 == 0,
        2_000_000 <= accepted_window(micros) <= 10_000_000,
        micros <= 10_000_000 ==> accepted_window(micros) >= micros,
{
}

/// A threshold never reaches the window, so a trigger that is registered can
/// fire.
pub proof fn lemma_threshold_is_below_the_window(
    path: Seq<char>,
    resource: Resource,
    kind: PsiKind,
    threshold: Span,
    window: Span,
)
    ensures
        ({
            let r = registration(path, resource, kind, threshold, window);
            0 < r.threshold_nanos < r.window_nanos
        }),
{
    lemma_window_is_accepted(window.total_nanos() / 1000);
}

} // verus!
