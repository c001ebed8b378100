//! What the verbs read from the ledger's tables: the subjects near a new
//! observation's, the seq it takes, a session found by prefix and its
//! observations, the observations that cite an event, the ledger in
//! chronological order, and the prefix an as-of brief replays.
//!
//! Each function takes a table as the rows it holds, in the table's own
//! order, and answers with positions in it.
use vstd::prelude::*;
use vstd::set_lib::{lemma_int_range, lemma_len_subset, lemma_map_size_bound, set_int_range};

use crate::brief::{int_text, last_ms_keys, newest, newest_exec, push_int};
use crate::cli::{starts_with, Filter};
use crate::event::{Envelope, EventId, OBS_SEQ_BASE};
use crate::pipeline::{ObsRow, SessStats, SubjStats, TextRow, DAY_MS};
use crate::text::{chars_of, lex_less, lex_lt, lemma_lex_asymmetric, lemma_lex_irreflexive, lemma_lex_total, lemma_lex_transitive, push_str, string_of, str_eq};
use crate::zoom::{oldest_of, rank_newest};
use crate::transcript::{find_sub_exec, occurs_at};

verus! {

// ---------------------------------------------------------------- near subjects

/// `s` contains `p` (`str::contains`).
pub open spec fn contains(s: Seq<char>, p: Seq<char>) -> bool {
    exists|i: int| occurs_at(s, p, i)
}

fn contains_exec(s: &str, p: &str) -> (r: bool)
    ensures
        r == contains(s@, p@),
{
    let a = chars_of(s);
    let b = chars_of(p);
    match find_sub_exec(&a, &b) {
        Some(_) => true,
        None => false,
    }
}

/// Another subject whose name contains the new one's, or is contained in it.
pub open spec fn near(name: Seq<char>, subject: Seq<char>) -> bool {
    name != subject && (contains(name, subject) || contains(subject, name))
}

/// Positions among the first `n` subjects that are near `subject`, in order.
pub open spec fn near_upto(subjects: Seq<(String, SubjStats)>, subject: Seq<char>, n: int) -> Seq<int>
    decreases n,
{
    if n <= 0 {
        Seq::empty()
    } else {
        let pre = near_upto(subjects, subject, n - 1);
        if near(subjects[n - 1].0@, subject) { pre.push(n - 1) } else { pre }
    }
}

/// At most the first `k` of `s`.
pub open spec fn first_k(s: Seq<int>, k: int) -> Seq<int> {
    if s.len() <= k { s } else { s.take(k) }
}

/// How a near subject is named in the hint: `name (N obs)`.
pub open spec fn near_label(name: Seq<char>, count: int) -> Seq<char> {
    name + " ("@ + int_text(count) + " obs)"@
}

/// How many near subjects the hint names.
pub const NEAR_MAX: usize = 4;

proof fn lemma_near_upto(subjects: Seq<(String, SubjStats)>, subject: Seq<char>, n: int)
    requires
        0 <= n,
    ensures
        near_upto(subjects, subject, n).len() <= n,
        forall|k: int| 0 <= k < near_upto(subjects, subject, n).len() ==> 0 <= #[trigger] near_upto(subjects, subject, n)[k] < n,
    decreases n,
{
    if n > 0 {
        lemma_near_upto(subjects, subject, n - 1);
    }
}

/// The hint printed before a new observation is recorded: the first few
/// subjects, in table order, whose names overlap the new one's.
pub fn near_subjects(subjects: &Vec<(String, SubjStats)>, subject: &str) -> (r: Vec<String>)
    ensures
        r@.len() == first_k(near_upto(subjects@, subject@, subjects@.len() as int), NEAR_MAX as int).len(),
        forall|k: int| 0 <= k < r@.len() ==> {
            let j = #[trigger] near_upto(subjects@, subject@, subjects@.len() as int)[k];
            r@[k]@ == near_label(subjects@[j].0@, subjects@[j].1.count as int)
        },
{
    let mut out: Vec<String> = Vec::new();
    let mut i: usize = 0;
    while i < subjects.len()
        invariant
            i <= subjects@.len(),
            out@.len() == first_k(near_upto(subjects@, subject@, i as int), NEAR_MAX as int).len(),
            forall|k: int| 0 <= k < out@.len() ==> {
                let j = #[trigger] near_upto(subjects@, subject@, i as int)[k];
                out@[k]@ == near_label(subjects@[j].0@, subjects@[j].1.count as int)
            },
        decreases subjects@.len() - i,
    {
        proof {
            lemma_near_upto(subjects@, subject@, i as int);
        }
        let ghost pre = near_upto(subjects@, subject@, i as int);
        let name = &subjects[i].0;
        let is_near = !str_eq(name.as_str(), subject) && (contains_exec(name.as_str(), subject)
            || contains_exec(subject, name.as_str()));
        assert(is_near == near(subjects@[i as int].0@, subject@));
        let ghost next = near_upto(subjects@, subject@, i + 1);
        assert(next == if is_near { pre.push(i as int) } else { pre });
        assert forall|k: int| 0 <= k < pre.len() implies next[k] == pre[k] by {}
        if is_near && out.len() < NEAR_MAX {
            let mut label: Vec<char> = Vec::new();
            push_str(&mut label, name.as_str());
            push_str(&mut label, " (");
            push_int(&mut label, subjects[i].1.count);
            push_str(&mut label, " obs)");
            let ghost before = out@;
            out.push(string_of(&label));
            assert(out@.len() == pre.len() + 1);
            assert(next[pre.len() as int] == i as int);
            assert forall|k: int| 0 <= k < out@.len() implies {
                let j = #[trigger] next[k];
                out@[k]@ == near_label(subjects@[j].0@, subjects@[j].1.count as int)
            } by {
                if k < before.len() {
                    assert(out@[k] == before[k]);
                } else {
                    assert(label@ =~= near_label(subjects@[i as int].0@, subjects@[i as int].1.count as int));
                }
            }
        }
        i += 1;
    }
    out
}

// ---------------------------------------------------------------- observation seq

/// `(session, seq)` is an id in `ids`.
pub open spec fn occupied(ids: Seq<EventId>, session: Seq<char>, seq: int) -> bool {
    exists|j: int| 0 <= j < ids.len() && ids[j].0@ == session && ids[j].1 == seq
}

fn occupied_exec(ids: &Vec<EventId>, session: &str, seq: u32) -> (r: bool)
    ensures
        r == occupied(ids@, session@, seq as int),
{
    let mut j: usize = 0;
    while j < ids.len()
        invariant
            j <= ids@.len(),
            forall|k: int| 0 <= k < j ==> !(ids@[k].0@ == session@ && #[trigger] ids@[k].1 == seq),
        decreases ids@.len() - j,
    {
        if ids[j].1 == seq && str_eq(ids[j].0.as_str(), session) {
            return true;
        }
        j += 1;
    }
    false
}

/// A run of occupied seqs from [`OBS_SEQ_BASE`] to `top` needs an id each.
proof fn lemma_occupied_run(ids: Seq<EventId>, session: Seq<char>, top: int)
    requires
        OBS_SEQ_BASE <= top,
        forall|s: int| OBS_SEQ_BASE <= s <= top ==> occupied(ids, session, s),
    ensures
        top - OBS_SEQ_BASE + 1 <= ids.len(),
{
    let idx = set_int_range(0, ids.len() as int);
    lemma_int_range(0, ids.len() as int);
    let f = |j: int| ids[j].1 as int;
    let img = idx.map(f);
    lemma_map_size_bound(idx, img, f);
    let run = set_int_range(OBS_SEQ_BASE as int, top + 1);
    lemma_int_range(OBS_SEQ_BASE as int, top + 1);
    assert forall|s: int| run.contains(s) implies img.contains(s) by {
        assert(occupied(ids, session, s));
        let j = choose|j: int| 0 <= j < ids.len() && ids[j].0@ == session && ids[j].1 == s;
        assert(idx.contains(j) && f(j) == s);
    }
    lemma_len_subset(run, img);
}

/// The seq a new observation of `session` takes: the first from
/// [`OBS_SEQ_BASE`] up that no id of that session holds yet.
pub fn free_obs_seq(ids: &Vec<EventId>, session: &str) -> (r: u32)
    requires
        ids@.len() < 0x8000_0000,
    ensures
        OBS_SEQ_BASE <= r,
        !occupied(ids@, session@, r as int),
        forall|s: int| OBS_SEQ_BASE <= s < r ==> occupied(ids@, session@, s),
{
    let mut seq: u32 = OBS_SEQ_BASE;
    while occupied_exec(ids, session, seq)
        invariant
            OBS_SEQ_BASE <= seq,
            seq - OBS_SEQ_BASE <= ids@.len(),
            ids@.len() < 0x8000_0000,
            forall|s: int| OBS_SEQ_BASE <= s < seq ==> occupied(ids@, session@, s),
        decreases ids@.len() - (seq - OBS_SEQ_BASE),
    {
        proof {
            lemma_occupied_run(ids@, session@, seq as int);
        }
        seq = seq + 1;
    }
    seq
}

// ---------------------------------------------------------------- sessions

/// Whether session `i` of the table is named by `prefix`.
pub open spec fn prefixed(sessions: Seq<(String, SessStats)>, prefix: Seq<char>, i: int) -> bool {
    prefix.len() <= sessions[i].0@.len() && sessions[i].0@.take(prefix.len() as int) == prefix
}

/// The first session, in table order, whose id starts with `prefix`.
pub fn find_session(sessions: &Vec<(String, SessStats)>, prefix: &str) -> (r: Option<usize>)
    ensures
        match r {
            Some(i) => i < sessions@.len() && prefixed(sessions@, prefix@, i as int)
                && forall|j: int| 0 <= j < i ==> !prefixed(sessions@, prefix@, j),
            None => forall|j: int| 0 <= j < sessions@.len() ==> !prefixed(sessions@, prefix@, j),
        },
{
    let mut i: usize = 0;
    while i < sessions.len()
        invariant
            i <= sessions@.len(),
            forall|j: int| 0 <= j < i ==> !prefixed(sessions@, prefix@, j),
        decreases sessions@.len() - i,
    {
        if starts_with(sessions[i].0.as_str(), prefix) {
            return Some(i);
        }
        i += 1;
    }
    None
}

/// The first position of the ledger that holds `(session, seq)`.
pub fn event_at(ledger: &Vec<(EventId, Envelope)>, session: &str, seq: u32) -> (r: Option<usize>)
    ensures
        match r {
            Some(i) => i < ledger@.len() && ledger@[i as int].0.0@ == session@ && ledger@[i as int].0.1 == seq
                && forall|j: int| 0 <= j < i ==> !(ledger@[j].0.0@ == session@ && ledger@[j].0.1 == seq),
            None => forall|j: int| 0 <= j < ledger@.len() ==> !(ledger@[j].0.0@ == session@ && ledger@[j].0.1 == seq),
        },
{
    let mut i: usize = 0;
    while i < ledger.len()
        invariant
            i <= ledger@.len(),
            forall|j: int| 0 <= j < i ==> !(ledger@[j].0.0@ == session@ && #[trigger] ledger@[j].0.1 == seq),
        decreases ledger@.len() - i,
    {
        if ledger[i].0.1 == seq && str_eq(ledger[i].0.0.as_str(), session) {
            return Some(i);
        }
        i += 1;
    }
    None
}

// ---------------------------------------------------------------- citations

/// Positions among the first `n` observation rows of `session` that cite `seq`.
pub open spec fn citing_upto(rows: Seq<(String, ObsRow)>, session: Seq<char>, seq: u32, n: int) -> Seq<int>
    decreases n,
{
    if n <= 0 {
        Seq::empty()
    } else {
        let pre = citing_upto(rows, session, seq, n - 1);
        let r = rows[n - 1].1;
        if r.session@ == session && r.derived_from@.contains(seq) { pre.push(n - 1) } else { pre }
    }
}

fn cites(from: &Vec<u32>, seq: u32) -> (r: bool)
    ensures
        r == from@.contains(seq),
{
    let mut i: usize = 0;
    while i < from.len()
        invariant
            i <= from@.len(),
            forall|k: int| 0 <= k < i ==> from@[k] != seq,
        decreases from@.len() - i,
    {
        if from[i] == seq {
            return true;
        }
        i += 1;
    }
    false
}

/// The observations of `session` that cite its event `seq`, in the order
/// the rows come (subjects in table order, each subject's evidence in
/// its own order).
pub fn citing(rows: &Vec<(String, ObsRow)>, session: &str, seq: u32) -> (r: Vec<usize>)
    ensures
        r@.map_values(|i: usize| i as int) == citing_upto(rows@, session@, seq, rows@.len() as int),
{
    let mut out: Vec<usize> = Vec::new();
    let mut i: usize = 0;
    while i < rows.len()
        invariant
            i <= rows@.len(),
            out@.map_values(|i: usize| i as int) == citing_upto(rows@, session@, seq, i as int),
        decreases rows@.len() - i,
    {
        let r = &rows[i].1;
        if str_eq(r.session.as_str(), session) && cites(&r.derived_from, seq) {
            let ghost before = out@;
            out.push(i);
            assert(out@.map_values(|i: usize| i as int) =~= before.map_values(|i: usize| i as int).push(i as int));
        }
        i += 1;
    }
    out
}

// ---------------------------------------------------------------- as-of replay

/// Positions among the first `n` ledger rows at or before `cutoff`.
pub open spec fn upto_cutoff(ledger: Seq<(EventId, Envelope)>, cutoff: u64, n: int) -> Seq<int>
    decreases n,
{
    if n <= 0 {
        Seq::empty()
    } else {
        let pre = upto_cutoff(ledger, cutoff, n - 1);
        if ledger[n - 1].1.ts_ms <= cutoff { pre.push(n - 1) } else { pre }
    }
}

/// The ledger prefix an as-of brief replays: every event at or before
/// `cutoff`, in table order.
pub fn replay_prefix(ledger: &Vec<(EventId, Envelope)>, cutoff: u64) -> (r: Vec<usize>)
    ensures
        r@.map_values(|i: usize| i as int) == upto_cutoff(ledger@, cutoff, ledger@.len() as int),
{
    let mut out: Vec<usize> = Vec::new();
    let mut i: usize = 0;
    while i < ledger.len()
        invariant
            i <= ledger@.len(),
            out@.map_values(|i: usize| i as int) == upto_cutoff(ledger@, cutoff, i as int),
        decreases ledger@.len() - i,
    {
        if ledger[i].1.ts_ms <= cutoff {
            let ghost before = out@;
            out.push(i);
            assert(out@.map_values(|i: usize| i as int) =~= before.map_values(|i: usize| i as int).push(i as int));
        }
        i += 1;
    }
    out
}

/// The header line of an as-of brief: `DATE · as of that day · N events`.
pub open spec fn asof_text(date: Seq<char>, n: int) -> Seq<char> {
    date + " · as of that day · "@ + int_text(n) + " events"@
}

pub fn asof_today(date: &str, n: u32) -> (r: String)
    ensures
        r@ == asof_text(date@, n as int),
{
    let mut v: Vec<char> = Vec::new();
    push_str(&mut v, date);
    push_str(&mut v, " · as of that day · ");
    push_int(&mut v, n as i64);
    push_str(&mut v, " events");
    string_of(&v)
}

// ---------------------------------------------------------------- orderings

/// Positions among the first `n` observation rows that belong to `session`.
pub open spec fn of_session(rows: Seq<(String, ObsRow)>, session: Seq<char>, n: int) -> Seq<int>
    decreases n,
{
    if n <= 0 {
        Seq::empty()
    } else {
        let pre = of_session(rows, session, n - 1);
        if rows[n - 1].1.session@ == session { pre.push(n - 1) } else { pre }
    }
}

pub open spec fn row_ts(rows: Seq<(String, ObsRow)>) -> Seq<u64> {
    rows.map_values(|e: (String, ObsRow)| e.1.ts_ms)
}

proof fn lemma_of_session(rows: Seq<(String, ObsRow)>, session: Seq<char>, n: int)
    requires
        0 <= n <= rows.len(),
    ensures
        forall|k: int| 0 <= k < of_session(rows, session, n).len() ==> 0 <= #[trigger] of_session(rows, session, n)[k] < n,
    decreases n,
{
    if n > 0 {
        lemma_of_session(rows, session, n - 1);
        let pre = of_session(rows, session, n - 1);
        assert forall|k: int| 0 <= k < of_session(rows, session, n).len() implies 0 <= #[trigger] of_session(rows, session, n)[k] < n by {
            if k < pre.len() {
                assert(of_session(rows, session, n)[k] == pre[k]);
            }
        }
    }
}

/// One session's observations, oldest first (equal times in row order).
pub fn session_obs(rows: &Vec<(String, ObsRow)>, session: &str) -> (r: Vec<usize>)
    ensures
        r@.map_values(|i: usize| i as int) == oldest_of(of_session(rows@, session@, rows@.len() as int), row_ts(rows@)),
{
    let mut mine: Vec<usize> = Vec::new();
    let mut ts: Vec<u64> = Vec::new();
    let mut i: usize = 0;
    while i < rows.len()
        invariant
            i <= rows@.len(),
            mine@.map_values(|i: usize| i as int) == of_session(rows@, session@, i as int),
            ts@ == row_ts(rows@).take(i as int),
        decreases rows@.len() - i,
    {
        if str_eq(rows[i].1.session.as_str(), session) {
            let ghost before = mine@;
            mine.push(i);
            assert(mine@.map_values(|i: usize| i as int) =~= before.map_values(|i: usize| i as int).push(i as int));
        }
        ts.push(rows[i].1.ts_ms);
        assert(ts@ =~= row_ts(rows@).take(i + 1));
        i += 1;
    }
    assert(ts@ =~= row_ts(rows@));
    proof {
        lemma_of_session(rows@, session@, rows@.len() as int);
        assert forall|k: int| 0 <= k < mine@.len() implies #[trigger] mine@[k] < ts@.len() by {
            assert(mine@.map_values(|i: usize| i as int)[k] == mine@[k] as int);
        }
    }
    let r = rank_newest(&mine, &ts, mine.len(), true);
    proof {
        let cands = mine@.map_values(|i: usize| i as int);
        assert(cands.len() == mine@.len());
    }
    r
}

/// The subjects, most recently observed first (equal times in table order).
pub fn by_recency(subjects: &Vec<(String, SubjStats)>) -> (r: Vec<usize>)
    ensures
        r@.map_values(|i: usize| i as int) == newest(last_ms_keys(subjects@), subjects@.len()).0,
{
    let mut keys: Vec<u64> = Vec::new();
    let mut i: usize = 0;
    while i < subjects.len()
        invariant
            i <= subjects@.len(),
            keys@ == last_ms_keys(subjects@).take(i as int),
        decreases subjects@.len() - i,
    {
        keys.push(subjects[i].1.last_ms);
        assert(keys@ =~= last_ms_keys(subjects@).take(i + 1));
        i += 1;
    }
    assert(keys@ =~= last_ms_keys(subjects@));
    newest_exec(&keys, subjects.len())
}

/// The ledger's chronological order: by time, then by id (session, then seq).
pub open spec fn earlier(a: (EventId, Envelope), b: (EventId, Envelope)) -> bool {
    a.1.ts_ms < b.1.ts_ms || (a.1.ts_ms == b.1.ts_ms && (lex_lt(a.0.0@, b.0.0@) || (a.0.0@ == b.0.0@ && a.0.1 < b.0.1)))
}

/// Row `i` is listed before row `j`: earlier, or as early with a lower position.
pub open spec fn listed_before(rows: Seq<(EventId, Envelope)>, i: int, j: int) -> bool {
    earlier(rows[i], rows[j]) || (!earlier(rows[j], rows[i]) && i < j)
}

proof fn lemma_earlier_order(a: (EventId, Envelope), b: (EventId, Envelope), c: (EventId, Envelope))
    ensures
        !earlier(a, a),
        !(earlier(a, b) && earlier(b, a)),
        earlier(a, b) && earlier(b, c) ==> earlier(a, c),
        !earlier(a, b) && !earlier(b, a) ==> (earlier(a, c) == earlier(b, c) && earlier(c, a) == earlier(c, b)),
{
    lemma_lex_irreflexive(a.0.0@);
    lemma_lex_asymmetric(a.0.0@, b.0.0@);
    lemma_lex_total(a.0.0@, b.0.0@);
    if lex_lt(a.0.0@, b.0.0@) && lex_lt(b.0.0@, c.0.0@) {
        lemma_lex_transitive(a.0.0@, b.0.0@, c.0.0@);
    }
    if earlier(a, b) && earlier(b, c) {
        if a.1.ts_ms == b.1.ts_ms && b.1.ts_ms == c.1.ts_ms {
            if a.0.0@ == b.0.0@ {
            } else if b.0.0@ == c.0.0@ {
            } else {
                lemma_lex_transitive(a.0.0@, b.0.0@, c.0.0@);
            }
        }
    }
}

fn earlier_exec(a: &(EventId, Envelope), b: &(EventId, Envelope)) -> (r: bool)
    ensures
        r == earlier(*a, *b),
{
    if a.1.ts_ms != b.1.ts_ms {
        return a.1.ts_ms < b.1.ts_ms;
    }
    let x = chars_of(a.0.0.as_str());
    let y = chars_of(b.0.0.as_str());
    if lex_less(&x, &y) {
        return true;
    }
    str_eq(a.0.0.as_str(), b.0.0.as_str()) && a.0.1 < b.0.1
}

/// `x` appears in `order`.
pub open spec fn has_pos(order: Seq<usize>, x: int) -> bool {
    exists|k: int| 0 <= k < order.len() && order[k] == x
}

/// `order` lists every position below `n` exactly once, each before the next.
pub open spec fn lists_in_order(rows: Seq<(EventId, Envelope)>, order: Seq<usize>, n: int) -> bool {
    &&& order.len() == n
    &&& forall|k: int| 0 <= k < n ==> #[trigger] order[k] < n
    &&& forall|x: int| 0 <= x < n ==> #[trigger] has_pos(order, x)
    &&& forall|a: int, b: int| 0 <= a < b < n ==> listed_before(rows, #[trigger] order[a] as int, #[trigger] order[b] as int)
}

/// The ledger, chronologically: by time, then session, then seq (rows
/// that agree on all three in table order).
pub fn chronological(rows: &Vec<(EventId, Envelope)>) -> (r: Vec<usize>)
    ensures
        lists_in_order(rows@, r@, rows@.len() as int),
{
    let mut out: Vec<usize> = Vec::new();
    let mut i: usize = 0;
    while i < rows.len()
        invariant
            i <= rows@.len(),
            lists_in_order(rows@, out@, i as int),
        decreases rows@.len() - i,
    {
        let mut p: usize = out.len();
        while p > 0 && earlier_exec(&rows[i], &rows[out[p - 1]])
            invariant
                p <= out@.len(),
                out@.len() == i,
                i < rows@.len(),
                lists_in_order(rows@, out@, i as int),
                forall|q: int| p <= q < out@.len() ==> earlier(rows@[i as int], rows@[#[trigger] out@[q] as int]),
            decreases p,
        {
            p -= 1;
        }
        let ghost old_out = out@;
        proof {
            // everything left of `p` comes before `i`
            assert forall|q: int| 0 <= q < p implies listed_before(rows@, #[trigger] old_out[q] as int, i as int) by {
                let last = old_out[p - 1] as int;
                lemma_earlier_order(rows@[i as int], rows@[last], rows@[old_out[q] as int]);
                lemma_earlier_order(rows@[old_out[q] as int], rows@[last], rows@[i as int]);
                lemma_earlier_order(rows@[last], rows@[i as int], rows@[old_out[q] as int]);
                if q < p - 1 {
                    assert(listed_before(rows@, old_out[q] as int, last));
                }
            }
        }
        out.insert(p, i);
        proof {
            let n = i + 1;
            assert(out@ == old_out.insert(p as int, i));
            assert forall|k: int| 0 <= k < n implies #[trigger] out@[k] < n by {
                if k < p {
                    assert(out@[k] == old_out[k]);
                } else if k > p {
                    assert(out@[k] == old_out[k - 1]);
                }
            }
            assert forall|x: int| 0 <= x < n implies #[trigger] has_pos(out@, x) by {
                if x == i {
                    assert(out@[p as int] == x);
                } else {
                    assert(has_pos(old_out, x));
                    let k = choose|k: int| 0 <= k < old_out.len() && old_out[k] == x;
                    if k < p {
                        assert(out@[k] == x);
                    } else {
                        assert(out@[k + 1] == x);
                    }
                }
            }
            assert forall|a: int, b: int| 0 <= a < b < n implies listed_before(rows@, #[trigger] out@[a] as int, #[trigger] out@[b] as int) by {
                if b < p {
                    assert(out@[a] == old_out[a] && out@[b] == old_out[b]);
                } else if b == p {
                    assert(out@[a] == old_out[a]);
                } else if a < p {
                    assert(out@[a] == old_out[a] && out@[b] == old_out[b - 1]);
                } else if a == p {
                    assert(out@[b] == old_out[b - 1]);
                    assert(earlier(rows@[i as int], rows@[old_out[b - 1] as int]));
                } else {
                    assert(out@[a] == old_out[a - 1] && out@[b] == old_out[b - 1]);
                }
            }
        }
        i += 1;
    }
    out
}

// ---------------------------------------------------------------- recall

/// Positions among the first `n` fused results whose text exists and
/// passes the filters.
pub open spec fn recall_upto(fused: Seq<(EventId, Option<TextRow>)>, filter: Filter, now: u64, n: int) -> Seq<int>
    decreases n,
{
    if n <= 0 {
        Seq::empty()
    } else {
        let pre = recall_upto(fused, filter, now, n - 1);
        let (id, t) = fused[n - 1];
        if t matches Some(t) && filter.admits(now, id.0@, t.kind@, t.ts_ms) { pre.push(n - 1) } else { pre }
    }
}

/// The hits a recall prints: the fused results, best first, that have a
/// text and pass the filters, at most `limit` of them.
pub fn recall_hits(fused: &Vec<(EventId, Option<TextRow>)>, filter: &Filter, now: u64, limit: usize) -> (r: Vec<usize>)
    requires
        filter.since matches Some(d) ==> d * DAY_MS <= u64::MAX,
    ensures
        r@.map_values(|i: usize| i as int) == first_k(recall_upto(fused@, *filter, now, fused@.len() as int), limit as int),
{
    let mut out: Vec<usize> = Vec::new();
    let mut i: usize = 0;
    while i < fused.len()
        invariant
            i <= fused@.len(),
            filter.since matches Some(d) ==> d * DAY_MS <= u64::MAX,
            out@.map_values(|i: usize| i as int) == first_k(recall_upto(fused@, *filter, now, i as int), limit as int),
        decreases fused@.len() - i,
    {
        let ghost pre = recall_upto(fused@, *filter, now, i as int);
        let ghost next = recall_upto(fused@, *filter, now, i + 1);
        let keep = match &fused[i].1 {
            Some(t) => filter.matches(now, fused[i].0.0.as_str(), t.kind.as_str(), t.ts_ms),
            None => false,
        };
        assert(next == if keep { pre.push(i as int) } else { pre });
        if keep && out.len() < limit {
            let ghost before = out@;
            out.push(i);
            assert(out@.map_values(|i: usize| i as int) =~= first_k(next, limit as int));
        } else if keep {
            assert(pre.len() >= limit);
            assert(next.take(limit as int) =~= pre.take(limit as int));
            assert(pre.len() == limit ==> pre.take(limit as int) =~= pre);
        }
        i += 1;
    }
    out
}

} // verus!
