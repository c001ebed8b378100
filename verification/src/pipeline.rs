//! The fold's rows and the branch functions that feed them: each event's
//! contribution to its day, subject, session and text views, and the
//! aggregate steps that fold those contributions.
//!
//! No wall clock and no randomness: every value here depends only on the
//! events, which is what makes replay of any ledger prefix exact.
use vstd::prelude::*;

use crate::event::{copy_seqs, copy_str, utf8_bytes, Envelope, EnvelopeV, Event, EventId, EventV};
use crate::store::{abs, bounded_abs, files_map, files_weight, settled, FileCounts, Weighted};
use crate::text::{all_ws, is_blank, str_eq};

verus! {

pub const DAY_MS: u64 = 86_400_000;

/// Materialized per-day digest.
pub struct DayStats {
    pub sessions: i64,
    pub tools: i64,
    pub fails: i64,
    pub commits: i64,
    /// path -> touch count
    pub files: FileCounts,
}

impl Default for DayStats {
    fn default() -> (d: DayStats)
        ensures
            d.sessions == 0 && d.tools == 0 && d.fails == 0 && d.commits == 0,
            d.files@ == Seq::<(Seq<char>, i64)>::empty(),
    {
        DayStats { sessions: 0, tools: 0, fails: 0, commits: 0, files: FileCounts::new() }
    }
}

impl Weighted for DayStats {
    open spec fn weight(&self) -> nat {
        (abs(self.sessions as int) + abs(self.tools as int) + abs(self.fails as int)
            + abs(self.commits as int) + files_weight(self.files@)) as nat
    }

    fn measure(&self) -> (w: Option<u64>) {
        let a = bounded_abs(self.sessions)?;
        let b = bounded_abs(self.tools)?;
        let c = bounded_abs(self.fails)?;
        let d = bounded_abs(self.commits)?;
        let f = self.files.measure()?;
        let lim: u64 = 0x0800_0000_0000_0000;
        if a > lim - b {
            return None;
        }
        let ab = a + b;
        if c > lim - ab {
            return None;
        }
        let abc = ab + c;
        if d > lim - abc {
            return None;
        }
        let abcd = abc + d;
        if f > lim - abcd {
            return None;
        }
        Some(abcd + f)
    }
}


// ---------------------------------------------------------------- keyed records

/// One record of a stream: a value under its key.
pub struct Keyed<K, V> {
    pub key: K,
    pub val: V,
}

impl<K, V> Keyed<K, V> {
    pub fn new(key: K, val: V) -> (r: Keyed<K, V>)
        ensures
            r.key == key,
            r.val == val,
    {
        Keyed { key, val }
    }
}

fn copy_id(id: &EventId) -> (r: EventId)
    ensures
        r.0@ == id.0@,
        r.1 == id.1,
{
    (copy_str(&id.0), id.1)
}

// ---------------------------------------------------------------- day digest

/// One event's contribution to its day bucket.
pub struct DayDelta {
    pub session_start: bool,
    pub tool: bool,
    pub fail: bool,
    pub commit: bool,
    pub file: Option<String>,
}

/// `(session_start, tool, fail, commit, file)`.
pub type DeltaModel = (bool, bool, bool, bool, Option<Seq<char>>);

pub open spec fn delta_model(d: DayDelta) -> DeltaModel {
    (d.session_start, d.tool, d.fail, d.commit, match d.file {
        Some(f) => Some(f@),
        None => None,
    })
}

/// The day contribution of an event kind, if it has one.
pub open spec fn day_delta_of(k: EventV) -> Option<DeltaModel> {
    match k {
        EventV::SessionMeta { .. } => Some((true, false, false, false, None)),
        EventV::ToolCall { ok, .. } => Some((false, true, !ok, false, None)),
        EventV::Commit { .. } => Some((false, false, false, true, None)),
        EventV::FileTouch { path } => Some((false, false, false, false, Some(path))),
        _ => None,
    }
}

pub fn day_delta(k: &Keyed<EventId, Envelope>) -> (r: Option<Keyed<u64, DayDelta>>)
    ensures
        match day_delta_of(k.val.kind@) {
            Some(m) => r matches Some(o) && o.key == k.val.ts_ms / DAY_MS && delta_model(o.val) == m,
            None => r is None,
        },
{
    let e = &k.val;
    let d = match &e.kind {
        Event::SessionMeta { .. } => DayDelta { session_start: true, tool: false, fail: false, commit: false, file: None },
        Event::ToolCall { ok, .. } => DayDelta { session_start: false, tool: true, fail: !*ok, commit: false, file: None },
        Event::Commit { .. } => DayDelta { session_start: false, tool: false, fail: false, commit: true, file: None },
        Event::FileTouch { path } => DayDelta {
            session_start: false,
            tool: false,
            fail: false,
            commit: false,
            file: Some(copy_str(path)),
        },
        _ => return None,
    };
    Some(Keyed::new(e.ts_ms / DAY_MS, d))
}

/// A day's digest as numbers: `(sessions, tools, fails, commits, files)`.
pub type DayModel = (int, int, int, int, Map<Seq<char>, int>);

pub open spec fn day_model(s: DayStats) -> DayModel {
    (s.sessions as int, s.tools as int, s.fails as int, s.commits as int, files_map(s.files@))
}

/// `m` with `d` added to the count of `k` (absent counts as zero). Counts
/// are signed while a transaction runs; its end settles them.
pub open spec fn bump(m: Map<Seq<char>, int>, k: Seq<char>, d: int) -> Map<Seq<char>, int> {
    let was = if m.contains_key(k) { m[k] } else { 0 };
    m.insert(k, was + d)
}

/// A digest at the end of a transaction: file counts that are no longer
/// positive are gone.
pub open spec fn day_settled(m: DayModel) -> DayModel {
    (m.0, m.1, m.2, m.3, settled(m.4))
}

pub open spec fn flag(b: bool, d: int) -> int {
    if b { d } else { 0 }
}

/// What folding one delta of weight `d` does to a day's digest.
pub open spec fn day_next(m: DayModel, v: DeltaModel, d: int) -> DayModel {
    (
        m.0 + flag(v.0, d),
        m.1 + flag(v.1, d),
        m.2 + flag(v.2, d),
        m.3 + flag(v.3, d),
        match v.4 {
            Some(f) => bump(m.4, f, d),
            None => m.4,
        },
    )
}

pub open spec fn fits_i64(x: int) -> bool {
    i64::MIN <= x <= i64::MAX
}

/// The step `day_step` can take without leaving `i64`.
pub open spec fn day_step_ok(acc: DayStats, v: DayDelta, d: int) -> bool {
    &&& fits_i64(d)
    &&& fits_i64(acc.sessions + flag(v.session_start, d))
    &&& fits_i64(acc.tools + flag(v.tool, d))
    &&& fits_i64(acc.fails + flag(v.fail, d))
    &&& fits_i64(acc.commits + flag(v.commit, d))
    &&& v.file is Some ==> acc.files@.len() < usize::MAX
    &&& v.file is Some ==> forall|i: int| 0 <= i < acc.files@.len() ==> fits_i64(#[trigger] acc.files@[i].1 + d)
}

/// Fold one day delta of weight `delta` (+1 insert, -1 retract) into a
/// day's digest.
pub fn day_step(acc: &mut DayStats, v: &DayDelta, delta: isize)
    requires
        day_step_ok(*old(acc), *v, delta as int),
    ensures
        day_model(*final(acc)) == day_next(day_model(*old(acc)), delta_model(*v), delta as int),
{
    let d = delta as i64;
    acc.sessions = acc.sessions + if v.session_start { d } else { 0 };
    acc.tools = acc.tools + if v.tool { d } else { 0 };
    acc.fails = acc.fails + if v.fail { d } else { 0 };
    acc.commits = acc.commits + if v.commit { d } else { 0 };
    match &v.file {
        Some(f) => {
            acc.files.add(f, d);
        },
        None => {},
    }
}

/// End a transaction on a day's digest: drop the files whose touch count
/// is no longer positive.
pub fn day_settle(acc: &mut DayStats)
    ensures
        day_model(*final(acc)) == day_settled(day_model(*old(acc))),
{
    acc.files.settle();
}

// ---------------------------------------------------------------- file index

pub fn file_session(k: &Keyed<EventId, Envelope>) -> (r: Option<Keyed<String, String>>)
    ensures
        match k.val.kind@ {
            EventV::FileTouch { path } => r matches Some(o) && o.key@ == path && o.val@ == k.val.session@,
            _ => r is None,
        },
{
    match &k.val.kind {
        Event::FileTouch { path } => Some(Keyed::new(copy_str(path), copy_str(&k.val.session))),
        _ => None,
    }
}


// ---------------------------------------------------------------- text lanes

/// Text indexed for recall, with the disposition the brief must show.
pub struct TextRow {
    pub text: String,
    /// "obs" | "said" | "user" | "final" | "compact"
    pub kind: String,
    pub ts_ms: u64,
    pub cited: bool,
}

/// `(text, kind, ts_ms, cited)`.
pub type TextModel = (Seq<char>, Seq<char>, u64, bool);

pub open spec fn text_model(t: TextRow) -> TextModel {
    (t.text@, t.kind@, t.ts_ms, t.cited)
}

/// The searchable text of an event kind: `(text, kind tag, cited)`.
pub open spec fn text_of(k: EventV) -> Option<(Seq<char>, Seq<char>, bool)> {
    match k {
        EventV::Obs { text, derived_from, .. } => Some((text, seq!['o', 'b', 's'], derived_from.len() > 0)),
        EventV::Said { text } => Some((text, seq!['s', 'a', 'i', 'd'], true)),
        EventV::FinalMsg { text } => Some((text, seq!['f', 'i', 'n', 'a', 'l'], true)),
        EventV::UserMsg { text } => Some((text, seq!['u', 's', 'e', 'r'], true)),
        EventV::CompactSummary { text } => Some((text, seq!['c', 'o', 'm', 'p', 'a', 'c', 't'], true)),
        _ => None,
    }
}

fn tag(which: u8) -> (r: String)
    requires
        which < 5,
    ensures
        which == 0 ==> r@ == seq!['o', 'b', 's'],
        which == 1 ==> r@ == seq!['s', 'a', 'i', 'd'],
        which == 2 ==> r@ == seq!['f', 'i', 'n', 'a', 'l'],
        which == 3 ==> r@ == seq!['u', 's', 'e', 'r'],
        which == 4 ==> r@ == seq!['c', 'o', 'm', 'p', 'a', 'c', 't'],
{
    let mut v: Vec<char> = Vec::new();
    if which == 0 {
        v.push('o');
        v.push('b');
        v.push('s');
    } else if which == 1 {
        v.push('s');
        v.push('a');
        v.push('i');
        v.push('d');
    } else if which == 2 {
        v.push('f');
        v.push('i');
        v.push('n');
        v.push('a');
        v.push('l');
    } else if which == 3 {
        v.push('u');
        v.push('s');
        v.push('e');
        v.push('r');
    } else {
        v.push('c');
        v.push('o');
        v.push('m');
        v.push('p');
        v.push('a');
        v.push('c');
        v.push('t');
    }
    crate::text::string_of(&v)
}

/// The recall row of a text-bearing event; blank text is not indexed.
pub fn searchable(k: &Keyed<EventId, Envelope>) -> (r: Option<Keyed<EventId, TextRow>>)
    ensures
        match text_of(k.val.kind@) {
            Some(t) => if all_ws(t.0) {
                r is None
            } else {
                r matches Some(o) && o.key.0@ == k.key.0@ && o.key.1 == k.key.1
                    && text_model(o.val) == (t.0, t.1, k.val.ts_ms, t.2)
            },
            None => r is None,
        },
{
    let e = &k.val;
    let (text, which, cited): (&String, u8, bool) = match &e.kind {
        Event::Obs { text, derived_from, .. } => (text, 0, derived_from.len() > 0),
        Event::Said { text } => (text, 1, true),
        Event::FinalMsg { text } => (text, 2, true),
        Event::UserMsg { text } => (text, 3, true),
        Event::CompactSummary { text } => (text, 4, true),
        _ => return None,
    };
    if is_blank(text.as_str()) {
        return None;
    }
    Some(Keyed::new(copy_id(&k.key), TextRow { text: copy_str(text), kind: tag(which), ts_ms: e.ts_ms, cited }))
}

/// User messages longer than this (in bytes) are pasted walls: keyword
/// searchable, but not worth a vector.
pub const EMBED_USER_MAX: usize = 400;

/// Whether a text row is distilled enough to embed: observations, closing
/// messages, and short user messages (directives are short by nature).
pub open spec fn embeds(t: TextModel) -> bool {
    t.1 == seq!['o', 'b', 's'] || t.1 == seq!['f', 'i', 'n', 'a', 'l']
        || (t.1 == seq!['u', 's', 'e', 'r'] && utf8_bytes(t.0) <= EMBED_USER_MAX)
}

/// The text to embed for a row, under the row's key, when the row is
/// distilled enough to earn a vector.
pub fn embeddable(t: &Keyed<EventId, TextRow>) -> (r: Option<Keyed<EventId, String>>)
    ensures
        embeds(text_model(t.val)) ==> (r matches Some(o) && o.key.0@ == t.key.0@ && o.key.1 == t.key.1
            && o.val@ == t.val.text@),
        !embeds(text_model(t.val)) ==> r is None,
{
    proof {
        reveal_strlit("obs");
        reveal_strlit("final");
        reveal_strlit("user");
        assert("obs"@ =~= seq!['o', 'b', 's']);
        assert("final"@ =~= seq!['f', 'i', 'n', 'a', 'l']);
        assert("user"@ =~= seq!['u', 's', 'e', 'r']);
    }
    let k = t.val.kind.as_str();
    let is_obs = str_eq(k, "obs");
    let is_final = str_eq(k, "final");
    let is_user = str_eq(k, "user");
    let short = crate::event::fits_bytes(t.val.text.as_str(), EMBED_USER_MAX);
    assert(is_obs == (t.val.kind@ == seq!['o', 'b', 's']));
    assert(is_final == (t.val.kind@ == seq!['f', 'i', 'n', 'a', 'l']));
    assert(is_user == (t.val.kind@ == seq!['u', 's', 'e', 'r']));
    let distilled = is_obs || is_final || (is_user && short);
    if distilled {
        Some(Keyed::new(copy_id(&t.key), copy_str(&t.val.text)))
    } else {
        None
    }
}

// ---------------------------------------------------------------- observations

/// A recorded observation, kept verbatim as evidence.
pub struct ObsRow {
    pub session: String,
    pub seq: u32,
    pub ts_ms: u64,
    pub text: String,
    pub derived_from: Vec<u32>,
}

/// `(session, seq, ts_ms, text, derived_from)`.
pub type ObsModel = (Seq<char>, u32, u64, Seq<char>, Seq<u32>);

pub open spec fn obs_model(r: ObsRow) -> ObsModel {
    (r.session@, r.seq, r.ts_ms, r.text@, r.derived_from@)
}

pub fn obs_row(k: &Keyed<EventId, Envelope>) -> (r: Option<Keyed<String, ObsRow>>)
    ensures
        match k.val.kind@ {
            EventV::Obs { subject, text, derived_from } => r matches Some(o) && o.key@ == subject
                && obs_model(o.val) == (k.val.session@, k.key.1, k.val.ts_ms, text, derived_from),
            _ => r is None,
        },
{
    match &k.val.kind {
        Event::Obs { subject, text, derived_from } => Some(Keyed::new(
            copy_str(subject),
            ObsRow {
                session: copy_str(&k.val.session),
                seq: k.key.1,
                ts_ms: k.val.ts_ms,
                text: copy_str(text),
                derived_from: copy_seqs(derived_from),
            },
        )),
        _ => None,
    }
}

/// Current understanding of one subject. Deliberately dumb (newest obs
/// wins); anything cleverer must stay expressible as a fold over the
/// evidence trail, which keeps the raw trail visible.
pub struct SubjStats {
    pub text: String,
    pub count: i64,
    pub last_ms: u64,
    /// seq of the winning obs; tie-breaks equal timestamps so the fold is
    /// independent of within-transaction drain order
    pub last_seq: u32,
    /// whether the winning obs cited mechanical events
    pub cited: bool,
}

impl Default for SubjStats {
    fn default() -> (s: SubjStats)
        ensures
            s.text@ == Seq::<char>::empty(),
            s.count == 0 && s.last_ms == 0 && s.last_seq == 0 && !s.cited,
    {
        SubjStats { text: String::new(), count: 0, last_ms: 0, last_seq: 0, cited: false }
    }
}

/// `(text, count, (last_ms, last_seq), cited)`.
pub type SubjModel = (Seq<char>, int, (u64, u32), bool);

pub open spec fn subj_model(s: SubjStats) -> SubjModel {
    (s.text@, s.count as int, (s.last_ms, s.last_seq), s.cited)
}

/// `(ts_ms, seq)` at or after `(ms, seq)`, lexicographically.
pub open spec fn key_ge(a: (u64, u32), b: (u64, u32)) -> bool {
    a.0 > b.0 || (a.0 == b.0 && a.1 >= b.1)
}

/// What folding one observation of weight `d` does to a subject.
pub open spec fn subj_next(m: SubjModel, v: ObsModel, d: int) -> SubjModel {
    if d > 0 && key_ge((v.2, v.1), m.2) {
        (v.3, m.1 + d, (v.2, v.1), v.4.len() > 0)
    } else {
        (m.0, m.1 + d, m.2, m.3)
    }
}

/// Newest obs wins, ties broken by seq. Deliberately asymmetric under
/// retraction: a negative delta decrements `count` but never re-derives the
/// winning text (the previous winner is not recoverable from one delta).
/// Correct for peat's write paths — append + same-id revision, where the
/// replacement insert immediately re-wins.
pub fn subj_step(acc: &mut SubjStats, v: &ObsRow, delta: isize)
    requires
        fits_i64(old(acc).count + delta),
    ensures
        subj_model(*final(acc)) == subj_next(subj_model(*old(acc)), obs_model(*v), delta as int),
{
    acc.count = acc.count + delta as i64;
    if delta > 0 && (v.ts_ms > acc.last_ms || (v.ts_ms == acc.last_ms && v.seq >= acc.last_seq)) {
        acc.text = copy_str(&v.text);
        acc.last_ms = v.ts_ms;
        acc.last_seq = v.seq;
        acc.cited = v.derived_from.len() > 0;
    }
}

// ---------------------------------------------------------------- sessions

pub fn sess_row(k: &Keyed<EventId, Envelope>) -> (r: Option<Keyed<String, Envelope>>)
    ensures
        match k.val.kind@ {
            EventV::SessionMeta { .. } | EventV::FinalMsg { .. } | EventV::Commit { .. } | EventV::ToolCall {
                ..
            } => r matches Some(o) && o.key@ == k.val.session@ && o.val@ == k.val@,
            _ => r is None,
        },
{
    match &k.val.kind {
        Event::SessionMeta { .. } | Event::FinalMsg { .. } | Event::Commit { .. } | Event::ToolCall { .. } => {
            Some(Keyed::new(copy_str(&k.val.session), k.val.duplicate()))
        },
        _ => None,
    }
}

/// One session's summary row.
pub struct SessStats {
    pub start_ms: u64,
    pub end_ms: u64,
    pub final_msg: String,
    pub cwd: String,
    pub branch: String,
    pub commits: i64,
}

impl Default for SessStats {
    fn default() -> (s: SessStats)
        ensures
            s.start_ms == 0 && s.end_ms == 0 && s.commits == 0,
            s.final_msg@ == Seq::<char>::empty(),
            s.cwd@ == Seq::<char>::empty(),
            s.branch@ == Seq::<char>::empty(),
    {
        SessStats {
            start_ms: 0,
            end_ms: 0,
            final_msg: String::new(),
            cwd: String::new(),
            branch: String::new(),
            commits: 0,
        }
    }
}

/// `(start_ms, end_ms, final_msg, cwd, branch, commits)`.
pub type SessModel = (u64, u64, Seq<char>, Seq<char>, Seq<char>, int);

pub open spec fn sess_model(s: SessStats) -> SessModel {
    (s.start_ms, s.end_ms, s.final_msg@, s.cwd@, s.branch@, s.commits as int)
}

/// What folding one session event of weight `d` does to a session row.
pub open spec fn sess_next(m: SessModel, e: EnvelopeV, d: int) -> SessModel {
    let start = if d > 0 && (m.0 == 0 || e.ts_ms < m.0) { e.ts_ms } else { m.0 };
    let end = if d > 0 && e.ts_ms > m.1 { e.ts_ms } else { m.1 };
    match e.kind {
        EventV::SessionMeta { cwd, branch, .. } => if d > 0 {
            (start, end, m.2, cwd, match branch {
                Some(b) => b,
                None => Seq::empty(),
            }, m.5)
        } else {
            (start, end, m.2, m.3, m.4, m.5)
        },
        EventV::FinalMsg { text } => if d > 0 {
            (start, end, text, m.3, m.4, m.5)
        } else {
            (start, end, m.2, m.3, m.4, m.5)
        },
        EventV::Commit { .. } => (start, end, m.2, m.3, m.4, m.5 + d),
        _ => (start, end, m.2, m.3, m.4, m.5),
    }
}

/// Same declared asymmetry as [`subj_step`]: retraction adjusts counts but
/// does not un-derive `final_msg`/`cwd`; peat's write paths never
/// bare-remove.
pub fn sess_step(acc: &mut SessStats, e: &Envelope, delta: isize)
    requires
        fits_i64(old(acc).commits + delta),
    ensures
        sess_model(*final(acc)) == sess_next(sess_model(*old(acc)), e@, delta as int),
{
    let d = delta as i64;
    if delta > 0 {
        if acc.start_ms == 0 || e.ts_ms < acc.start_ms {
            acc.start_ms = e.ts_ms;
        }
        if e.ts_ms > acc.end_ms {
            acc.end_ms = e.ts_ms;
        }
    }
    match &e.kind {
        Event::SessionMeta { cwd, branch, .. } => {
            if delta > 0 {
                acc.cwd = copy_str(cwd);
                acc.branch = match branch {
                    Some(b) => copy_str(b),
                    None => String::new(),
                };
            }
        },
        Event::FinalMsg { text } => {
            if delta > 0 {
                acc.final_msg = copy_str(text);
            }
        },
        Event::Commit { .. } => {
            acc.commits = acc.commits + d;
        },
        _ => {},
    }
}


// ---------------------------------------------------------------- laws

/// Every count a day digest holds is positive.
pub open spec fn counts_positive(m: Map<Seq<char>, int>) -> bool {
    forall|k: Seq<char>| #[trigger] m.contains_key(k) ==> m[k] > 0
}

/// At the end of a transaction every file count of a digest is positive.
pub proof fn law_day_counts_settle_positive(m: DayModel)
    ensures
        counts_positive(day_settled(m).4),
{
}

/// A retraction undoes the insertion it follows: folding a delta in and
/// back out leaves a day's digest, once settled, as it was.
pub proof fn law_day_retract_undoes_insert(m: DayModel, v: DeltaModel)
    requires
        counts_positive(m.4),
    ensures
        day_settled(day_next(day_next(m, v, 1), v, -1)) == day_settled(m),
{
    let r = day_next(day_next(m, v, 1), v, -1);
    assert(settled(r.4) =~= settled(m.4));
}

/// The deltas of a transaction commute, inserts and retractions alike:
/// the order in which it drains its day deltas is not observable in the
/// digest.
pub proof fn law_day_steps_commute(m: DayModel, a: DeltaModel, da: int, b: DeltaModel, db: int)
    ensures
        day_next(day_next(m, a, da), b, db) == day_next(day_next(m, b, db), a, da),
{
    let ab = day_next(day_next(m, a, da), b, db);
    let ba = day_next(day_next(m, b, db), a, da);
    assert(ab.4 =~= ba.4);
}

/// The `(ts_ms, seq)` key of an observation.
pub open spec fn obs_key(v: ObsModel) -> (u64, u32) {
    (v.2, v.1)
}

/// Inserted observations with distinct `(ts_ms, seq)` keys commute: the
/// winner of a subject does not depend on drain order.
pub proof fn law_subj_inserts_commute(m: SubjModel, a: ObsModel, b: ObsModel)
    requires
        obs_key(a) != obs_key(b),
    ensures
        subj_next(subj_next(m, a, 1), b, 1) == subj_next(subj_next(m, b, 1), a, 1),
{
}

/// A subject before any observation.
pub open spec fn subj_empty() -> SubjModel {
    (Seq::empty(), 0, (0u64, 0u32), false)
}

/// Folding observations, in order, as inserts.
pub open spec fn subj_fold(rows: Seq<ObsModel>) -> SubjModel
    decreases rows.len(),
{
    if rows.len() == 0 {
        subj_empty()
    } else {
        subj_next(subj_fold(rows.drop_last()), rows.last(), 1)
    }
}

pub open spec fn distinct_obs_keys(rows: Seq<ObsModel>) -> bool {
    forall|i: int, j: int| 0 <= i < j < rows.len() ==> obs_key(rows[i]) != obs_key(rows[j])
}

proof fn lemma_fold_key_source(rows: Seq<ObsModel>)
    ensures
        subj_fold(rows).1 == rows.len(),
        subj_fold(rows).2 == (0u64, 0u32) || exists|j: int| 0 <= j < rows.len() && obs_key(rows[j]) == subj_fold(rows).2,
    decreases rows.len(),
{
    if rows.len() > 0 {
        let pre = rows.drop_last();
        lemma_fold_key_source(pre);
        if subj_fold(pre).2 != (0u64, 0u32) && subj_fold(rows).2 == subj_fold(pre).2 {
            let j = choose|j: int| 0 <= j < pre.len() && obs_key(pre[j]) == subj_fold(pre).2;
            assert(obs_key(rows[j]) == subj_fold(rows).2);
        }
        if subj_fold(rows).2 != subj_fold(pre).2 {
            assert(obs_key(rows[rows.len() - 1]) == subj_fold(rows).2);
        }
    }
}

/// Newest observation wins: folding a subject's observations (distinct
/// `(ts_ms, seq)` keys) in any order yields the text, key and citation of
/// the one with the greatest key, and counts them all.
pub proof fn law_newest_obs_wins(rows: Seq<ObsModel>, w: int)
    requires
        distinct_obs_keys(rows),
        0 <= w < rows.len(),
        forall|j: int| 0 <= j < rows.len() ==> key_ge(obs_key(rows[w]), #[trigger] obs_key(rows[j])),
    ensures
        subj_fold(rows) == (rows[w].3, rows.len() as int, obs_key(rows[w]), rows[w].4.len() > 0),
    decreases rows.len(),
{
    let pre = rows.drop_last();
    lemma_fold_key_source(pre);
    lemma_fold_key_source(rows);
    if w == rows.len() - 1 {
        if subj_fold(pre).2 != (0u64, 0u32) {
            let j = choose|j: int| 0 <= j < pre.len() && obs_key(pre[j]) == subj_fold(pre).2;
            assert(key_ge(obs_key(rows[w]), obs_key(rows[j])));
        }
    } else {
        assert forall|j: int| 0 <= j < pre.len() implies key_ge(obs_key(pre[w]), #[trigger] obs_key(pre[j])) by {
            assert(key_ge(obs_key(rows[w]), obs_key(rows[j])));
        }
        law_newest_obs_wins(pre, w);
        let last = rows.len() - 1;
        assert(key_ge(obs_key(rows[w]), obs_key(rows[last])));
        assert(obs_key(rows[w]) != obs_key(rows[last]));
    }
}


/// Upserting a day delta that is already folded in changes nothing: its
/// retraction and re-insertion cancel.
pub proof fn law_day_reupsert_is_noop(m0: DayModel, v: DeltaModel)
    ensures
        ({
            let m = day_next(m0, v, 1);
            day_next(day_next(m, v, -1), v, 1) == m
        }),
{
    let m = day_next(m0, v, 1);
    assert(day_next(day_next(m, v, -1), v, 1).4 =~= m.4);
}

/// Upserting an observation that is already folded in changes nothing:
/// the retraction only decrements the count, and the re-insertion either
/// re-wins with the same text (it was the newest) or loses again.
pub proof fn law_subj_reupsert_is_noop(m: SubjModel, v: ObsModel)
    requires
        key_ge(m.2, obs_key(v)),
        m.2 == obs_key(v) ==> m.0 == v.3 && m.3 == (v.4.len() > 0),
    ensures
        subj_next(subj_next(m, v, -1), v, 1) == m,
{
}

/// Once an observation is folded in, the subject's key is at least its
/// own: the condition under which re-upserting it is a no-op holds of
/// every observation in the fold whose key is distinct or was last.
pub proof fn law_fold_key_dominates(rows: Seq<ObsModel>, i: int)
    requires
        0 <= i < rows.len(),
    ensures
        key_ge(subj_fold(rows).2, obs_key(rows[i])),
    decreases rows.len(),
{
    let pre = rows.drop_last();
    if i < rows.len() - 1 {
        law_fold_key_dominates(pre, i);
        assert(pre[i] == rows[i]);
    }
}

/// Session deltas commute, whatever their weights, unless both set the
/// same derived text: the span, the commit count and the place of a session
/// do not depend on drain order (two closing messages, or two session
/// metas, do: the later one wins). Timestamps are positive: zero stands
/// for "no start yet".
pub proof fn law_sess_steps_commute(m: SessModel, a: EnvelopeV, da: int, b: EnvelopeV, db: int)
    requires
        a.ts_ms > 0,
        b.ts_ms > 0,
        !(a.kind is SessionMeta && b.kind is SessionMeta && da > 0 && db > 0),
        !(a.kind is FinalMsg && b.kind is FinalMsg && da > 0 && db > 0),
    ensures
        sess_next(sess_next(m, a, da), b, db) == sess_next(sess_next(m, b, db), a, da),
{
}

/// A day's digest over a ledger: the day deltas of the events stamped on
/// `day`, folded in order as inserts.
pub open spec fn day_fold(events: Seq<EnvelopeV>, day: int) -> DayModel
    decreases events.len(),
{
    if events.len() == 0 {
        (0, 0, 0, 0, Map::empty())
    } else {
        let pre = day_fold(events.drop_last(), day);
        let e = events.last();
        if e.ts_ms / DAY_MS == day {
            match day_delta_of(e.kind) {
                Some(v) => day_next(pre, v, 1),
                None => pre,
            }
        } else {
            pre
        }
    }
}

/// How many of `events` are stamped on `day` and satisfy `p`.
pub open spec fn count_on(events: Seq<EnvelopeV>, day: int, p: spec_fn(EventV) -> bool) -> int
    decreases events.len(),
{
    if events.len() == 0 {
        0
    } else {
        count_on(events.drop_last(), day, p) + if events.last().ts_ms / DAY_MS == day && p(events.last().kind) {
            1int
        } else {
            0int
        }
    }
}

/// A day's digest counts what happened that day: its sessions are the
/// session metas stamped on it, its tools the tool calls, its failures
/// the failed tool calls, its commits the commits, and each file's count
/// the touches of that file — and a file is listed exactly when touched.
pub proof fn law_day_digest_counts_the_day(events: Seq<EnvelopeV>, day: int, path: Seq<char>)
    ensures
        day_fold(events, day).0 == count_on(events, day, |k: EventV| k is SessionMeta),
        day_fold(events, day).1 == count_on(events, day, |k: EventV| k is ToolCall),
        day_fold(events, day).2 == count_on(events, day, |k: EventV| k matches EventV::ToolCall { ok, .. } && !ok),
        day_fold(events, day).3 == count_on(events, day, |k: EventV| k is Commit),
        day_fold(events, day).4.contains_key(path) <==> count_on(events, day, |k: EventV| k matches EventV::FileTouch { path: q } && q == path) > 0,
        day_fold(events, day).4.contains_key(path) ==> day_fold(events, day).4[path] == count_on(
            events,
            day,
            |k: EventV| k matches EventV::FileTouch { path: q } && q == path,
        ),
    decreases events.len(),
{
    let touch = |k: EventV| k matches EventV::FileTouch { path: q } && q == path;
    if events.len() > 0 {
        law_day_digest_counts_the_day(events.drop_last(), day, path);
        lemma_count_nonneg(events.drop_last(), day, touch);
    }
}

proof fn lemma_count_nonneg(events: Seq<EnvelopeV>, day: int, p: spec_fn(EventV) -> bool)
    ensures
        count_on(events, day, p) >= 0,
    decreases events.len(),
{
    if events.len() > 0 {
        lemma_count_nonneg(events.drop_last(), day, p);
    }
}

} // verus!
