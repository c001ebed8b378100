//! The ledger schema — peat's API to its own past.
//!
//! Every fact peat ever records is an [`Envelope`] stored under an
//! [`EventId`]. Replay-from-genesis is the recovery and time-travel story,
//! so every envelope ever written must parse forever: evolution is
//! additive-only (new variants, new optional fields), never in-place.
use vstd::prelude::*;

use crate::text::{chars_of, slice_of, string_of};

verus! {

/// Bumped when the schema changes shape. Written into every envelope.
pub const EVENT_VERSION: u16 = 2;

pub type SessionId = String;

/// `(session, seq)`. Seq is `line_index * 16 + block_index` for captured
/// events, [`HOOK_FINAL_SEQ`] for the Stop hook's closing message, and
/// `OBS_SEQ_BASE + n` for observations, so the ranges never collide.
/// Upserting the same id twice is a no-op by construction.
pub type EventId = (String, u32);

/// The seq of the hook-provided closing message: `(1 << 31) - 1`.
pub const HOOK_FINAL_SEQ: u32 = 0x7fff_ffff;

/// Observations take seqs from `1 << 31` up.
pub const OBS_SEQ_BASE: u32 = 0x8000_0000;

pub const USER_MSG_CAP: usize = 2048;

pub const FINAL_MSG_CAP: usize = 8192;

pub const DETAIL_CAP: usize = 500;

/// Mid-session assistant messages are kept whole up to the closing
/// message's cap.
pub const SAID_CAP: usize = 8192;

/// Assistant messages shorter than this (in bytes) are chatter, not
/// recallable statements.
pub const SAID_MIN: usize = 80;

/// One record of the ledger.
#[derive(Clone, Debug)]
pub struct Envelope {
    /// [`EVENT_VERSION`] at write time.
    pub v: u16,
    /// Milliseconds since epoch, from the transcript or the caller —
    /// never read from the wall clock inside any fold path.
    pub ts_ms: u64,
    pub session: SessionId,
    pub kind: Event,
}

#[derive(Clone, Debug)]
pub enum Event {
    // ---- mechanical exhaust (cannot lie) ----
    /// Once per captured session; pins the embedding provenance.
    SessionMeta { cwd: String, branch: Option<String>, ese_version: String },
    /// What the user asked. Truncated to [`USER_MSG_CAP`].
    UserMsg { text: String },
    /// A substantive mid-session assistant message. Truncated to [`SAID_CAP`].
    Said { text: String },
    /// One tool invocation. `detail` is the command line / file path,
    /// truncated to [`DETAIL_CAP`].
    ToolCall { tool: String, detail: String, ok: bool },
    /// A file mutated via Edit/Write/NotebookEdit.
    FileTouch { path: String },
    Commit { hash: String, message: String },
    /// The agent's closing message — a free session summary.
    FinalMsg { text: String },
    /// The compactor's own distillation of the context it replaced.
    CompactSummary { text: String },
    Compaction {},
    // ---- the one judgment step ----
    /// A small claim the agent chose to record. `derived_from` cites the
    /// seqs of mechanical events it rests on; empty means a bare assertion.
    Obs { subject: String, text: String, derived_from: Vec<u32> },
}

/// The mathematical value of an [`Event`]: its strings as character
/// sequences.
pub enum EventV {
    SessionMeta { cwd: Seq<char>, branch: Option<Seq<char>>, ese_version: Seq<char> },
    UserMsg { text: Seq<char> },
    Said { text: Seq<char> },
    ToolCall { tool: Seq<char>, detail: Seq<char>, ok: bool },
    FileTouch { path: Seq<char> },
    Commit { hash: Seq<char>, message: Seq<char> },
    FinalMsg { text: Seq<char> },
    CompactSummary { text: Seq<char> },
    Compaction,
    Obs { subject: Seq<char>, text: Seq<char>, derived_from: Seq<u32> },
}

pub open spec fn opt_view(o: Option<String>) -> Option<Seq<char>> {
    match o {
        Some(s) => Some(s@),
        None => None,
    }
}

impl View for Event {
    type V = EventV;

    open spec fn view(&self) -> EventV {
        match self {
            Event::SessionMeta { cwd, branch, ese_version } => EventV::SessionMeta {
                cwd: cwd@,
                branch: opt_view(*branch),
                ese_version: ese_version@,
            },
            Event::UserMsg { text } => EventV::UserMsg { text: text@ },
            Event::Said { text } => EventV::Said { text: text@ },
            Event::ToolCall { tool, detail, ok } => EventV::ToolCall { tool: tool@, detail: detail@, ok: *ok },
            Event::FileTouch { path } => EventV::FileTouch { path: path@ },
            Event::Commit { hash, message } => EventV::Commit { hash: hash@, message: message@ },
            Event::FinalMsg { text } => EventV::FinalMsg { text: text@ },
            Event::CompactSummary { text } => EventV::CompactSummary { text: text@ },
            Event::Compaction {} => EventV::Compaction,
            Event::Obs { subject, text, derived_from } => EventV::Obs {
                subject: subject@,
                text: text@,
                derived_from: derived_from@,
            },
        }
    }
}

/// The mathematical value of an [`Envelope`].
pub struct EnvelopeV {
    pub v: u16,
    pub ts_ms: u64,
    pub session: Seq<char>,
    pub kind: EventV,
}

impl View for Envelope {
    type V = EnvelopeV;

    open spec fn view(&self) -> EnvelopeV {
        EnvelopeV { v: self.v, ts_ms: self.ts_ms, session: self.session@, kind: self.kind@ }
    }
}

// ---------------------------------------------------------------- copies

pub(crate) fn copy_str(s: &String) -> (r: String)
    ensures
        r@ == s@,
{
    s.clone()
}

pub(crate) fn copy_seqs(v: &Vec<u32>) -> (r: Vec<u32>)
    ensures
        r@ == v@,
{
    let mut r: Vec<u32> = Vec::new();
    let mut i: usize = 0;
    while i < v.len()
        invariant
            i <= v@.len(),
            r@ == v@.take(i as int),
        decreases v@.len() - i,
    {
        r.push(v[i]);
        assert(v@.take(i + 1) =~= v@.take(i as int).push(v@[i as int]));
        i += 1;
    }
    assert(v@.take(v@.len() as int) =~= v@);
    r
}

impl Event {
    /// A copy with the same value.
    pub fn duplicate(&self) -> (r: Event)
        ensures
            r@ == self@,
    {
        match self {
            Event::SessionMeta { cwd, branch, ese_version } => Event::SessionMeta {
                cwd: copy_str(cwd),
                branch: match branch {
                    Some(b) => Some(copy_str(b)),
                    None => None,
                },
                ese_version: copy_str(ese_version),
            },
            Event::UserMsg { text } => Event::UserMsg { text: copy_str(text) },
            Event::Said { text } => Event::Said { text: copy_str(text) },
            Event::ToolCall { tool, detail, ok } => Event::ToolCall {
                tool: copy_str(tool),
                detail: copy_str(detail),
                ok: *ok,
            },
            Event::FileTouch { path } => Event::FileTouch { path: copy_str(path) },
            Event::Commit { hash, message } => Event::Commit { hash: copy_str(hash), message: copy_str(message) },
            Event::FinalMsg { text } => Event::FinalMsg { text: copy_str(text) },
            Event::CompactSummary { text } => Event::CompactSummary { text: copy_str(text) },
            Event::Compaction {} => Event::Compaction {},
            Event::Obs { subject, text, derived_from } => Event::Obs {
                subject: copy_str(subject),
                text: copy_str(text),
                derived_from: copy_seqs(derived_from),
            },
        }
    }
}

impl Envelope {
    pub fn new(session: &str, ts_ms: u64, kind: Event) -> (e: Envelope)
        ensures
            e.v == EVENT_VERSION,
            e.ts_ms == ts_ms,
            e.session@ == session@,
            e.kind == kind,
    {
        Envelope { v: EVENT_VERSION, ts_ms, session: string_of(&chars_of(session)), kind }
    }

    /// A copy with the same value.
    pub fn duplicate(&self) -> (r: Envelope)
        ensures
            r@ == self@,
    {
        Envelope { v: self.v, ts_ms: self.ts_ms, session: copy_str(&self.session), kind: self.kind.duplicate() }
    }
}

// ---------------------------------------------------------------- capping

/// Bytes in the UTF-8 encoding of `c`.
pub open spec fn utf8_len(c: char) -> nat {
    let u = c as u32;
    if u < 0x80 { 1 } else if u < 0x800 { 2 } else if u < 0x10000 { 3 } else { 4 }
}

/// Bytes in the UTF-8 encoding of `s`.
pub open spec fn utf8_bytes(s: Seq<char>) -> nat
    decreases s.len(),
{
    if s.len() == 0 { 0 } else { utf8_len(s[0]) + utf8_bytes(s.drop_first()) }
}

/// The longest prefix of `s` whose UTF-8 encoding fits in `cap` bytes.
pub open spec fn capped(s: Seq<char>, cap: int) -> Seq<char>
    decreases s.len(),
{
    if s.len() == 0 || utf8_len(s[0]) > cap {
        Seq::empty()
    } else {
        seq![s[0]] + capped(s.drop_first(), cap - utf8_len(s[0]))
    }
}

fn char_bytes(c: char) -> (n: usize)
    ensures
        n == utf8_len(c),
{
    let u = c as u32;
    if u < 0x80 { 1 } else if u < 0x800 { 2 } else if u < 0x10000 { 3 } else { 4 }
}

proof fn lemma_capped_step(s: Seq<char>, cap: int, i: int, used: int)
    requires
        0 <= i < s.len(),
        capped(s, cap) == s.take(i) + capped(s.skip(i), cap - used),
        utf8_len(s[i]) <= cap - used,
    ensures
        capped(s, cap) == s.take(i + 1) + capped(s.skip(i + 1), cap - used - utf8_len(s[i])),
{
    assert(s.skip(i)[0] == s[i]);
    assert(s.skip(i).drop_first() =~= s.skip(i + 1));
    assert(capped(s.skip(i), cap - used) == seq![s[i]] + capped(s.skip(i + 1), cap - used - utf8_len(s[i])));
    assert(s.take(i + 1) =~= s.take(i) + seq![s[i]]);
}

/// Truncate on a char boundary at `limit` bytes.
pub fn cap(s: &str, limit: usize) -> (r: String)
    ensures
        r@ == capped(s@, limit as int),
{
    let v = chars_of(s);
    let mut used: usize = 0;
    let mut i: usize = 0;
    assert(v@.skip(0) =~= v@);
    assert(v@.take(0) + capped(v@, limit as int) =~= capped(v@, limit as int));
    while i < v.len()
        invariant
            v@ == s@,
            i <= v@.len(),
            used <= limit,
            capped(v@, limit as int) == v@.take(i as int) + capped(v@.skip(i as int), limit - used),
        decreases v@.len() - i,
    {
        let w = char_bytes(v[i]);
        if w > limit - used {
            assert(v@.skip(i as int)[0] == v@[i as int]);
            assert(capped(v@.skip(i as int), limit - used) =~= Seq::<char>::empty());
            assert(capped(v@, limit as int) =~= v@.take(i as int));
            let head = slice_of(&v, 0, i);
            assert(head@ =~= v@.take(i as int));
            return string_of(&head);
        }
        proof {
            lemma_capped_step(v@, limit as int, i as int, used as int);
        }
        used = used + w;
        i += 1;
    }
    assert(v@.skip(v@.len() as int) =~= Seq::<char>::empty());
    assert(v@.take(v@.len() as int) =~= v@);
    string_of(&v)
}


/// Whether the UTF-8 encoding of `s` takes at most `limit` bytes.
pub fn fits_bytes(s: &str, limit: usize) -> (r: bool)
    ensures
        r == (utf8_bytes(s@) <= limit),
{
    let v = chars_of(s);
    let mut used: usize = 0;
    let mut i: usize = 0;
    assert(v@.skip(0) =~= v@);
    while i < v.len()
        invariant
            v@ == s@,
            i <= v@.len(),
            used <= limit,
            utf8_bytes(v@) == used + utf8_bytes(v@.skip(i as int)),
        decreases v@.len() - i,
    {
        let w = char_bytes(v[i]);
        assert(v@.skip(i as int).drop_first() =~= v@.skip(i + 1));
        if w > limit - used {
            return false;
        }
        used = used + w;
        i += 1;
    }
    assert(v@.skip(v@.len() as int) =~= Seq::<char>::empty());
    true
}


/// The short name of an event kind, as the `--kind` filter spells it.
pub open spec fn tag_of(k: EventV) -> Seq<char> {
    match k {
        EventV::SessionMeta { .. } => "meta"@,
        EventV::UserMsg { .. } => "user"@,
        EventV::Said { .. } => "said"@,
        EventV::ToolCall { .. } => "tool"@,
        EventV::FileTouch { .. } => "file"@,
        EventV::Commit { .. } => "commit"@,
        EventV::FinalMsg { .. } => "final"@,
        EventV::CompactSummary { .. } => "compact"@,
        EventV::Compaction => "compacted"@,
        EventV::Obs { .. } => "obs"@,
    }
}

impl Event {
    /// The kind's short name (`obs`, `said`, `user`, `final`, `compact`,
    /// `tool`, `file`, `commit`, `meta`, `compacted`).
    pub fn tag(&self) -> (r: &'static str)
        ensures
            r@ == tag_of(self@),
    {
        match self {
            Event::SessionMeta { .. } => "meta",
            Event::UserMsg { .. } => "user",
            Event::Said { .. } => "said",
            Event::ToolCall { .. } => "tool",
            Event::FileTouch { .. } => "file",
            Event::Commit { .. } => "commit",
            Event::FinalMsg { .. } => "final",
            Event::CompactSummary { .. } => "compact",
            Event::Compaction {} => "compacted",
            Event::Obs { .. } => "obs",
        }
    }
}


// ---------------------------------------------------------------- laws

/// Capping keeps a prefix of the text that fits in the byte budget, and
/// stops only where the next character would not fit: the longest such
/// prefix, cut on a character boundary.
pub proof fn law_cap_is_longest_fitting_prefix(s: Seq<char>, limit: int)
    requires
        limit >= 0,
    ensures
        capped(s, limit).len() <= s.len(),
        capped(s, limit) == s.take(capped(s, limit).len() as int),
        utf8_bytes(capped(s, limit)) <= limit,
        capped(s, limit).len() < s.len() ==> utf8_bytes(capped(s, limit)) + utf8_len(s[capped(s, limit).len() as int]) > limit,
        utf8_bytes(s) <= limit ==> capped(s, limit) == s,
    decreases s.len(),
{
    if s.len() > 0 && utf8_len(s[0]) <= limit {
        let rest = s.drop_first();
        law_cap_is_longest_fitting_prefix(rest, limit - utf8_len(s[0]));
        let c = capped(rest, limit - utf8_len(s[0]));
        assert(capped(s, limit) == seq![s[0]] + c);
        assert(seq![s[0]] + c =~= s.take(c.len() as int + 1)) by {
            assert(c =~= rest.take(c.len() as int));
        }
        assert((seq![s[0]] + c).drop_first() =~= c);
        if c.len() < rest.len() {
            assert(s[c.len() as int + 1] == rest[c.len() as int]);
        }
        if utf8_bytes(s) <= limit {
            assert(utf8_bytes(s) == utf8_len(s[0]) + utf8_bytes(rest));
            assert(seq![s[0]] + rest =~= s);
        }
    } else if s.len() > 0 {
        assert(capped(s, limit) =~= s.take(0));
        lemma_bytes_first(s);
    } else {
        assert(capped(s, limit) =~= s.take(0));
    }
}

proof fn lemma_bytes_first(s: Seq<char>)
    requires
        s.len() > 0,
    ensures
        utf8_bytes(s) >= utf8_len(s[0]),
{
}

} // verus!
