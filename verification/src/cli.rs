//! The command line's own decisions: row filters shared by the verbs that
//! walk indexed text or the ledger, and the brief's band budget.
use vstd::prelude::*;

use crate::pipeline::DAY_MS;
use crate::text::chars_of;
use crate::window::{lower_seq, window_of, WinOut};

verus! {

/// Shared row filters for the verbs that walk indexed text or the ledger.
pub struct Filter {
    /// Only this session (prefix ok)
    pub session: Option<String>,
    /// Only this kind: obs | said | user | final | compact | tool | file |
    /// commit | meta | compacted
    pub kind: Option<String>,
    /// Only events from the last N days
    pub since: Option<u64>,
}

impl Filter {
    /// A row of `session`, `kind` and time `ts_ms` passes the filters at
    /// `now`: its session starts with the prefix, its kind is the kind, and
    /// it lies within the last `since` days.
    pub open spec fn admits(&self, now: u64, session: Seq<char>, kind: Seq<char>, ts_ms: u64) -> bool {
        &&& (self.session matches Some(p) ==> p@.len() <= session.len() && session.take(p@.len() as int) == p@)
        &&& (self.kind matches Some(k) ==> kind == k@)
        &&& (self.since matches Some(d) ==> ts_ms >= (if now >= d * DAY_MS { now - d * DAY_MS } else { 0 }))
    }

    /// The earliest timestamp `--since` admits at `now`.
    pub fn cutoff_ms(&self, now: u64) -> (r: Option<u64>)
        requires
            self.since matches Some(d) ==> d * DAY_MS <= u64::MAX,
        ensures
            match self.since {
                Some(d) => r == Some((if now >= d * DAY_MS { now - d * DAY_MS } else { 0 }) as u64),
                None => r is None,
            },
    {
        match self.since {
            Some(d) => Some(now.saturating_sub(d * DAY_MS)),
            None => None,
        }
    }

    /// Whether a row of `session`, `kind` and time `ts_ms` passes the
    /// filters at `now`.
    pub fn matches(&self, now: u64, session: &str, kind: &str, ts_ms: u64) -> (r: bool)
        requires
            self.since matches Some(d) ==> d * DAY_MS <= u64::MAX,
        ensures
            r == self.admits(now, session@, kind@, ts_ms),
    {
        let by_session = match &self.session {
            Some(p) => starts_with(session, p.as_str()),
            None => true,
        };
        let by_kind = match &self.kind {
            Some(k) => crate::text::str_eq(kind, k.as_str()),
            None => true,
        };
        let by_time = match self.cutoff_ms(now) {
            Some(c) => ts_ms >= c,
            None => true,
        };
        by_session && by_kind && by_time
    }
}

/// Whether `s` begins with `p`.
pub fn starts_with(s: &str, p: &str) -> (r: bool)
    ensures
        r == (p@.len() <= s@.len() && s@.take(p@.len() as int) == p@),
{
    let a = chars_of(s);
    let b = chars_of(p);
    if b.len() > a.len() {
        return false;
    }
    let mut i: usize = 0;
    while i < b.len()
        invariant
            a@ == s@,
            b@ == p@,
            b@.len() <= a@.len(),
            i <= b@.len(),
            forall|k: int| 0 <= k < i ==> a@[k] == b@[k],
        decreases b@.len() - i,
    {
        if a[i] != b[i] {
            assert(a@.take(b@.len() as int)[i as int] != b@[i as int]);
            return false;
        }
        i += 1;
    }
    assert(a@.take(b@.len() as int) =~= b@);
    true
}

pub open spec fn is_digit_char(c: char) -> bool {
    '0' <= c <= '9'
}

/// Decimal value of a digit string.
pub open spec fn digits_value(s: Seq<char>) -> nat
    decreases s.len(),
{
    if s.len() == 0 {
        0
    } else {
        digits_value(s.drop_last()) * 10 + ((s.last() as u32) - 48) as nat
    }
}

/// An unsigned integer's `from_str`: an optional `+`, then one or more
/// ASCII digits whose value is at most `max`.
pub open spec fn parse_bounded(s: Seq<char>, max: int) -> Option<int> {
    let body = if s.len() > 0 && s[0] == '+' { s.drop_first() } else { s };
    if body.len() > 0 && all_digit_chars(body) && digits_value(body) <= max {
        Some(digits_value(body) as int)
    } else {
        None
    }
}

/// `usize::from_str`.
pub open spec fn parse_count(s: Seq<char>) -> Option<int> {
    parse_bounded(s, usize::MAX as int)
}

/// `u64::from_str`.
pub open spec fn parse_wide(s: Seq<char>) -> Option<int> {
    parse_bounded(s, u64::MAX as int)
}

pub open spec fn all_digit_chars(s: Seq<char>) -> bool {
    forall|i: int| 0 <= i < s.len() ==> is_digit_char(#[trigger] s[i])
}

proof fn lemma_value_prefix(s: Seq<char>, k: int)
    requires
        0 <= k <= s.len(),
    ensures
        digits_value(s.take(k)) <= digits_value(s),
    decreases s.len() - k,
{
    if k < s.len() {
        lemma_value_prefix(s, k + 1);
        assert(s.take(k + 1).drop_last() =~= s.take(k));
    } else {
        assert(s.take(k) =~= s);
    }
}

/// Parse an unsigned integer no larger than `max`, as `str::parse` does
/// for the unsigned type whose largest value is `max`.
pub fn parse_upto(s: &str, max: u64) -> (r: Option<u64>)
    ensures
        match parse_bounded(s@, max as int) {
            Some(n) => r == Some(n as u64),
            None => r is None,
        },
{
    let v = chars_of(s);
    let start: usize = if v.len() > 0 && v[0] == '+' { 1 } else { 0 };
    let body = crate::text::slice_of(&v, start, v.len());
    assert(body@ =~= (if s@.len() > 0 && s@[0] == '+' { s@.drop_first() } else { s@ }));
    if body.len() == 0 {
        return None;
    }
    let mut acc: u64 = 0;
    let mut i: usize = 0;
    while i < body.len()
        invariant
            i <= body@.len(),
            body@ == (if s@.len() > 0 && s@[0] == '+' { s@.drop_first() } else { s@ }),
            body@.len() > 0,
            all_digit_chars(body@.take(i as int)),
            acc == digits_value(body@.take(i as int)),
            acc <= max,
        decreases body@.len() - i,
    {
        let c = body[i];
        assert(body@.take(i + 1).drop_last() =~= body@.take(i as int));
        if !('0' <= c && c <= '9') {
            assert(!is_digit_char(body@[i as int]));
            assert(!all_digit_chars(body@));
            return None;
        }
        let d = (c as u32 - 48) as u64;
        if d > max || acc > (max - d) / 10 {
            proof {
                lemma_value_prefix(body@, i + 1);
                assert(digits_value(body@.take(i + 1)) == acc * 10 + d);
                if d <= max {
                    assert(acc * 10 + d > max) by (nonlinear_arith)
                        requires
                            acc > (max - d) / 10,
                            d <= max,
                    ;
                }
            }
            return None;
        }
        assert(acc * 10 + d <= max) by (nonlinear_arith)
            requires
                acc <= (max - d) / 10,
                d <= max,
        ;
        acc = acc * 10 + d;
        assert(all_digit_chars(body@.take(i + 1))) by {
            assert forall|k: int| 0 <= k < i + 1 implies is_digit_char(#[trigger] body@.take(i + 1)[k]) by {
                if k < i {
                    assert(body@.take(i + 1)[k] == body@.take(i as int)[k]);
                }
            }
        }
        i += 1;
    }
    assert(body@.take(body@.len() as int) =~= body@);
    Some(acc)
}

/// Parse a count as `str::parse::<usize>` does.
pub fn parse_usize(s: &str) -> (r: Option<usize>)
    ensures
        match parse_count(s@) {
            Some(n) => r == Some(n as usize),
            None => r is None,
        },
{
    match parse_upto(s, usize::MAX as u64) {
        Some(n) => Some(n as usize),
        None => None,
    }
}

/// Parse a number as `str::parse::<u64>` does.
pub fn parse_u64(s: &str) -> (r: Option<u64>)
    ensures
        match parse_wide(s@) {
            Some(n) => r == Some(n as u64),
            None => r is None,
        },
{
    parse_upto(s, u64::MAX)
}

/// The default number of bands in the brief's ladder.
pub const DEFAULT_BUDGET: usize = 8;

/// The brief's band budget: the flag beats the environment value
/// (`PEAT_BRIEF_BUDGET`, when it parses), which beats the default.
pub fn band_budget(flag: Option<usize>, env: Option<&str>) -> (r: usize)
    ensures
        match flag {
            Some(n) => r == n,
            None => match env {
                Some(v) => match parse_count(v@) {
                    Some(n) => r == n,
                    None => r == DEFAULT_BUDGET,
                },
                None => r == DEFAULT_BUDGET,
            },
        },
{
    match flag {
        Some(n) => n,
        None => match env {
            Some(v) => match parse_usize(v) {
                Some(n) => n,
                None => DEFAULT_BUDGET,
            },
            None => DEFAULT_BUDGET,
        },
    }
}


// ---------------------------------------------------------------- shape dispatch

pub open spec fn is_hex_or_dash(c: char) -> bool {
    ('0' <= c <= '9') || ('a' <= c <= 'f') || ('A' <= c <= 'F') || c == '-'
}

/// A session id (prefix): at least six bytes of hex digits and dashes.
pub open spec fn session_shaped(s: Seq<char>) -> bool {
    s.len() >= 6 && forall|i: int| 0 <= i < s.len() ==> is_hex_or_dash(#[trigger] s[i])
}

/// Whether `s` looks like a session id prefix.
pub fn is_session_id(s: &str) -> (r: bool)
    ensures
        r == session_shaped(s@),
{
    let v = chars_of(s);
    if v.len() < 6 {
        return false;
    }
    let mut i: usize = 0;
    while i < v.len()
        invariant
            v@ == s@,
            i <= v@.len(),
            forall|k: int| 0 <= k < i ==> is_hex_or_dash(#[trigger] v@[k]),
        decreases v@.len() - i,
    {
        let c = v[i];
        if !(('0' <= c && c <= '9') || ('a' <= c && c <= 'f') || ('A' <= c && c <= 'F') || c == '-') {
            return false;
        }
        i += 1;
    }
    true
}

/// What a bare `peat <thing>` reads.
pub enum Shape {
    /// a window of days
    Window,
    /// a session (id prefix), or one of its events
    Session { seq: Option<u32> },
    /// anything else: search words
    Search,
}

/// `u32::from_str`.
pub open spec fn parse_seq(s: Seq<char>) -> Option<int> {
    parse_bounded(s, u32::MAX as int)
}

/// The shape of a non-empty query: one word that is a window reads the
/// window; a session-shaped first word, alone or with a seq, reads the
/// session; anything else searches.
pub open spec fn shape_of(q: Seq<Seq<char>>, now_bucket: int) -> Shape {
    if q.len() == 1 && window_of(lower_seq(q[0]), now_bucket) is Win {
        Shape::Window
    } else if session_shaped(q[0]) && (q.len() == 1 || (q.len() == 2 && parse_seq(q[1]) is Some)) {
        Shape::Session { seq: if q.len() == 2 { Some(parse_seq(q[1])->0 as u32) } else { None } }
    } else {
        Shape::Search
    }
}

fn parse_seq_exec(s: &str) -> (r: Option<u32>)
    ensures
        match parse_seq(s@) {
            Some(n) => r == Some(n as u32),
            None => r is None,
        },
{
    match parse_upto(s, 0xffff_ffff) {
        Some(n) => Some(n as u32),
        None => None,
    }
}

/// Decide what a bare query reads.
pub fn dispatch(q: &Vec<String>, now_bucket: u64) -> (r: Shape)
    requires
        q@.len() > 0,
        crate::civil::day_ok(now_bucket as int),
        q@.len() == 1 ==> !(window_of(lower_seq(q@[0]@), now_bucket as int) is Overflow),
    ensures
        r == shape_of(q@.map_values(|s: String| s@), now_bucket as int),
{
    let ghost qv = q@.map_values(|s: String| s@);
    assert(qv[0] == q@[0]@);
    if q.len() == 1 {
        if crate::window::parse_window(q[0].as_str(), now_bucket).is_some() {
            return Shape::Window;
        }
    }
    if is_session_id(q[0].as_str()) {
        if q.len() == 1 {
            return Shape::Session { seq: None };
        }
        if q.len() == 2 {
            assert(qv[1] == q@[1]@);
            match parse_seq_exec(q[1].as_str()) {
                Some(n) => {
                    return Shape::Session { seq: Some(n) };
                },
                None => {},
            }
        }
    }
    Shape::Search
}


} // verus!
