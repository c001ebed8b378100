//! Where the ledger lives, which session a command speaks for, and how an
//! opening waits out another process's lock.
//!
//! The reads of files and of the environment are the caller's; these
//! functions take what was read and decide.
use vstd::prelude::*;

use crate::cli::{parse_u64, parse_wide};
use crate::event::opt_view;
use crate::text::{chars_of, string_of};
use crate::transcript::{find_sub_exec, occurs_at, trim, trim_chars};

verus! {

// ---------------------------------------------------------------- session

/// The session id a command speaks for: the explicit value if there is
/// one, else this worktree's `current-session` file, else the one beside
/// the shared ledger; the first present is trimmed, and a blank one
/// names no session (the later sources are not consulted then).
pub open spec fn session_pick(
    explicit: Option<Seq<char>>,
    local: Option<Seq<char>>,
    beside_ledger: Option<Seq<char>>,
) -> Option<Seq<char>> {
    let first = if explicit is Some {
        explicit
    } else if local is Some {
        local
    } else {
        beside_ledger
    };
    match first {
        Some(s) => if trim(s).len() > 0 { Some(trim(s)) } else { None },
        None => None,
    }
}

/// `s.trim()`, when that is not empty.
fn trimmed(s: &String) -> (r: Option<String>)
    ensures
        match r {
            Some(t) => t@ == trim(s@) && trim(s@).len() > 0,
            None => trim(s@).len() == 0,
        },
{
    let v = chars_of(s.as_str());
    let t = trim_chars(&v);
    if t.len() > 0 {
        Some(string_of(&t))
    } else {
        None
    }
}

/// Resolve the current session from what the three sources hold.
pub fn current_session(
    explicit: Option<String>,
    local: Option<String>,
    beside_ledger: Option<String>,
) -> (r: Option<String>)
    ensures
        opt_view(r) == session_pick(opt_view(explicit), opt_view(local), opt_view(beside_ledger)),
{
    let first = match explicit {
        Some(s) => Some(s),
        None => match local {
            Some(s) => Some(s),
            None => beside_ledger,
        },
    };
    match first {
        Some(s) => trimmed(&s),
        None => None,
    }
}

// ---------------------------------------------------------------- location

/// Where the ledger lives.
pub enum LedgerAt {
    /// the path that `PEAT_DB` names, as given
    Env { path: String },
    /// `<target>/db` beside the worktree root, `target` as the `redirect`
    /// file names it (trimmed)
    Redirect { target: String },
    /// `db` in the worktree's own `.peat/`
    Local,
}

/// `PEAT_DB` wins; else a non-blank `redirect` file points at a shared
/// ledger; else the worktree keeps its own.
pub fn ledger_at(env_db: Option<String>, redirect: Option<String>) -> (r: LedgerAt)
    ensures
        match env_db {
            Some(p) => r matches LedgerAt::Env { path } && path@ == p@,
            None => match redirect {
                Some(t) => if trim(t@).len() > 0 {
                    r matches LedgerAt::Redirect { target } && target@ == trim(t@)
                } else {
                    r is Local
                },
                None => r is Local,
            },
        },
{
    match env_db {
        Some(p) => LedgerAt::Env { path: p },
        None => match redirect {
            Some(t) => match trimmed(&t) {
                Some(target) => LedgerAt::Redirect { target },
                None => LedgerAt::Local,
            },
            None => LedgerAt::Local,
        },
    }
}

// ---------------------------------------------------------------- lock wait

/// Seconds to wait for the lock when `PEAT_LOCK_WAIT_SECS` says nothing usable.
pub const DEFAULT_WAIT_SECS: u64 = 120;

/// The first pause between attempts, in milliseconds.
pub const FIRST_DELAY_MS: u64 = 200;

/// The longest pause between attempts, in milliseconds.
pub const MAX_DELAY_MS: u64 = 3000;

/// The lock-wait limit in seconds: `PEAT_LOCK_WAIT_SECS` when it parses
/// as a `u64`, else the default.
pub open spec fn wait_secs(env: Option<Seq<char>>) -> int {
    match env {
        Some(v) => match parse_wide(v) {
            Some(n) => n,
            None => DEFAULT_WAIT_SECS as int,
        },
        None => DEFAULT_WAIT_SECS as int,
    }
}

/// Read the lock-wait limit, in seconds, from the environment's value.
pub fn lock_wait_secs(env: Option<&str>) -> (r: u64)
    ensures
        r == wait_secs(match env {
            Some(v) => Some(v@),
            None => None,
        }),
{
    match env {
        Some(v) => match parse_u64(v) {
            Some(n) => n,
            None => DEFAULT_WAIT_SECS,
        },
        None => DEFAULT_WAIT_SECS,
    }
}

/// Whether a failed opening failed on the lock, judged by its message.
pub open spec fn lock_conflict(msg: Seq<char>) -> bool {
    exists|i: int| occurs_at(msg, "Locked"@, i)
}

/// Whether the message of a failed opening names the lock.
pub fn is_lock_conflict(msg: &str) -> (r: bool)
    ensures
        r == lock_conflict(msg@),
{
    let v = chars_of(msg);
    let pat = chars_of("Locked");
    match find_sub_exec(&v, &pat) {
        Some(_) => true,
        None => false,
    }
}

/// How one attempt to open the ledger ended.
pub enum Attempt {
    Opened,
    /// the opening panicked with this message
    Failed { message: String },
}

/// What to do after an attempt.
pub enum LockStep {
    /// the ledger is open
    Ready,
    /// the failure was not lock contention: let it propagate
    Rethrow,
    /// the limit is spent: give up, naming the limit in seconds
    GiveUp { limit_secs: u64 },
    /// pause `ms` and try again; `first` on the first pause, with the
    /// seconds waited so far and the limit, for the progress line
    Wait { ms: u64, first: bool, waited_secs: u64, limit_secs: u64 },
}

/// The waiting state of an opening.
pub struct LockWait {
    /// the next pause
    pub delay_ms: u64,
    /// the pauses taken so far, summed
    pub waited_ms: u64,
    /// the limit
    pub max_ms: u64,
}

/// The state after an attempt, and what to do: a lock failure within the
/// limit pauses for the current delay, adds it to the time waited and
/// doubles the delay up to its cap.
pub open spec fn lock_next(s: LockWait, opened: bool, msg: Seq<char>) -> (LockWait, LockStep) {
    if opened {
        (s, LockStep::Ready)
    } else if !lock_conflict(msg) {
        (s, LockStep::Rethrow)
    } else if s.waited_ms >= s.max_ms {
        (s, LockStep::GiveUp { limit_secs: (s.max_ms / 1000) as u64 })
    } else {
        (
            LockWait {
                delay_ms: if s.delay_ms * 2 < MAX_DELAY_MS { (s.delay_ms * 2) as u64 } else { MAX_DELAY_MS },
                waited_ms: (s.waited_ms + s.delay_ms) as u64,
                max_ms: s.max_ms,
            },
            LockStep::Wait {
                ms: s.delay_ms,
                first: s.waited_ms == 0,
                waited_secs: (s.waited_ms / 1000) as u64,
                limit_secs: (s.max_ms / 1000) as u64,
            },
        )
    }
}

impl LockWait {
    /// The delay stays within its bounds and the time waited can always
    /// take one more pause.
    pub open spec fn wf(&self) -> bool {
        &&& FIRST_DELAY_MS <= self.delay_ms <= MAX_DELAY_MS
        &&& self.max_ms + MAX_DELAY_MS <= u64::MAX
        &&& self.waited_ms <= self.max_ms + MAX_DELAY_MS
    }

    /// A fresh wait with a limit of `limit_secs` seconds.
    pub fn new(limit_secs: u64) -> (r: LockWait)
        requires
            limit_secs * 1000 + MAX_DELAY_MS <= u64::MAX,
        ensures
            r.wf(),
            r.delay_ms == FIRST_DELAY_MS,
            r.waited_ms == 0,
            r.max_ms == limit_secs * 1000,
    {
        LockWait { delay_ms: FIRST_DELAY_MS, waited_ms: 0, max_ms: limit_secs * 1000 }
    }

    /// Decide after one attempt.
    pub fn step(&mut self, attempt: &Attempt) -> (r: LockStep)
        requires
            old(self).wf(),
        ensures
            final(self).wf(),
            (*final(self), r) == lock_next(
                *old(self),
                attempt is Opened,
                match attempt {
                    Attempt::Failed { message } => message@,
                    Attempt::Opened => Seq::empty(),
                },
            ),
    {
        match attempt {
            Attempt::Opened => LockStep::Ready,
            Attempt::Failed { message } => {
                if !is_lock_conflict(message.as_str()) {
                    return LockStep::Rethrow;
                }
                if self.waited_ms >= self.max_ms {
                    return LockStep::GiveUp { limit_secs: self.max_ms / 1000 };
                }
                let r = LockStep::Wait {
                    ms: self.delay_ms,
                    first: self.waited_ms == 0,
                    waited_secs: self.waited_ms / 1000,
                    limit_secs: self.max_ms / 1000,
                };
                self.waited_ms = self.waited_ms + self.delay_ms;
                self.delay_ms = if self.delay_ms * 2 < MAX_DELAY_MS { self.delay_ms * 2 } else { MAX_DELAY_MS };
                r
            },
        }
    }
}

/// A wait never pauses longer than the cap, and the time it has waited
/// never passes the limit by more than one pause: every state reached
/// from a fresh wait keeps both bounds.
pub proof fn law_lock_wait_bounded(s: LockWait, opened: bool, msg: Seq<char>)
    requires
        s.wf(),
    ensures
        lock_next(s, opened, msg).0.wf(),
        lock_next(s, opened, msg).1 matches LockStep::Wait { ms, .. } ==> ms <= MAX_DELAY_MS
            && s.waited_ms < s.max_ms,
        s.waited_ms >= s.max_ms ==> !(lock_next(s, opened, msg).1 is Wait),
{
}

} // verus!
