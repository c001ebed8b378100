//! The brief: one snapshot folded into a session-start orientation.
//!
//! Every value the template shows is computed here; `--json` is the API
//! and carries full text, the template owns display-time clipping.
use vstd::prelude::*;

use crate::event::{copy_str, EventId};
use crate::ladder::{bands, ladder, weekly_rungs_ok, Band, best_entry, is_top, key_view, lemma_best_is_top, merge_counts, merge_day, top_file};
use crate::store::{count_limit, files_weight, rows_weight, Weighted};
use crate::text::{lex_lt, lex_less, lemma_lex_total, lemma_lex_transitive, lemma_lex_irreflexive, lemma_lex_asymmetric};
use crate::ui::{short_path, short_path_spec};
use crate::pipeline::{DayStats, ObsRow, SessStats, SubjStats, TextRow, DAY_MS};
use crate::store::{keys_increasing, lemma_rows_weight_insert, lemma_rows_weight_update};
use crate::store::{distinct_keys, files_map, key_index, lemma_key_index, lemma_map_remove, DayMap, FileCounts};
use crate::text::{dec, push_dec, string_of};
use crate::transcript::{date_label, date_text};
use crate::civil::civil_of;
use crate::ui::{paint, role_code, styled_or_plain, Role, age_label, age_text, last_index_before, lemma_last_index_before, rfind_before, short_sess};

verus! {

// ---------------------------------------------------------------- labels

/// `today`, `yesterday`, or `Nd ago`.
pub open spec fn day_text(bucket: int, today: int) -> Seq<char> {
    let n = if today > bucket { today - bucket } else { 0 };
    if n == 0 {
        "today"@
    } else if n == 1 {
        "yesterday"@
    } else {
        dec(n as nat) + seq!['d', ' ', 'a', 'g', 'o']
    }
}

/// How long ago day `bucket` was, seen from day `today`.
pub fn day_label(bucket: u64, today: u64) -> (r: String)
    ensures
        r@ == day_text(bucket as int, today as int),
{
    let n = today.saturating_sub(bucket);
    if n == 0 {
        string_of(&crate::text::chars_of("today"))
    } else if n == 1 {
        string_of(&crate::text::chars_of("yesterday"))
    } else {
        let mut v: Vec<char> = Vec::new();
        push_dec(&mut v, n);
        v.push('d');
        v.push(' ');
        v.push('a');
        v.push('g');
        v.push('o');
        assert(v@ =~= dec(n as nat) + seq!['d', ' ', 'a', 'g', 'o']);
        string_of(&v)
    }
}

/// The local calendar date at `now`, for a local UTC offset of `offset_ms`.
pub fn today_label(now: u64, offset_ms: i64) -> (r: String)
    requires
        -0x100_0000_0000 <= offset_ms <= 0x100_0000_0000,
    ensures
        ({
            let t = now + offset_ms;
            let local = if t < 0 { t + 0x1_0000_0000_0000_0000 } else if t > u64::MAX { t - 0x1_0000_0000_0000_0000 } else { t };
            r@ == date_text(civil_of(local / 86_400_000))
        }),
{
    let local: u64 = if offset_ms >= 0 {
        now.wrapping_add(offset_ms as u64)
    } else {
        now.wrapping_sub((-offset_ms) as u64)
    };
    date_label(local)
}


// ---------------------------------------------------------------- newest first

/// The untaken index below `n` with the greatest key, the earliest among
/// equals; -1 when every index is taken.
pub open spec fn pick(keys: Seq<u64>, taken: Seq<bool>, n: int) -> int
    decreases n,
{
    if n <= 0 {
        -1
    } else {
        let b = pick(keys, taken, n - 1);
        if taken[n - 1] {
            b
        } else if b < 0 || keys[n - 1] > keys[b] {
            n - 1
        } else {
            b
        }
    }
}

/// The first `k` indices of `keys` in descending key order, equal keys
/// in table order (a stable sort, newest first), with the set of
/// indices taken so far.
pub open spec fn newest(keys: Seq<u64>, k: nat) -> (Seq<int>, Seq<bool>)
    decreases k,
{
    if k == 0 {
        (Seq::empty(), Seq::new(keys.len(), |i: int| false))
    } else {
        let (o, t) = newest(keys, (k - 1) as nat);
        let b = pick(keys, t, keys.len() as int);
        if b < 0 { (o, t) } else { (o.push(b), t.update(b, true)) }
    }
}

proof fn lemma_pick(keys: Seq<u64>, taken: Seq<bool>, n: int)
    requires
        0 <= n <= keys.len(),
        taken.len() == keys.len(),
    ensures
        -1 <= pick(keys, taken, n) < n,
        pick(keys, taken, n) >= 0 ==> !taken[pick(keys, taken, n)],
        pick(keys, taken, n) < 0 ==> forall|i: int| 0 <= i < n ==> taken[i],
    decreases n,
{
    if n > 0 {
        lemma_pick(keys, taken, n - 1);
    }
}

pub proof fn lemma_newest(keys: Seq<u64>, k: nat)
    ensures
        newest(keys, k).1.len() == keys.len(),
        newest(keys, k).0.len() <= k,
        forall|j: int| 0 <= j < newest(keys, k).0.len() ==> 0 <= #[trigger] newest(keys, k).0[j] < keys.len(),
    decreases k,
{
    if k > 0 {
        lemma_newest(keys, (k - 1) as nat);
        let (o, t) = newest(keys, (k - 1) as nat);
        lemma_pick(keys, t, keys.len() as int);
    }
}

proof fn lemma_pick_max(keys: Seq<u64>, taken: Seq<bool>, n: int)
    requires
        0 <= n <= keys.len(),
        taken.len() == keys.len(),
    ensures
        pick(keys, taken, n) >= 0 ==> forall|i: int| 0 <= i < n && !taken[i] ==> keys[i] <= keys[pick(keys, taken, n)],
    decreases n,
{
    if n > 0 {
        lemma_pick_max(keys, taken, n - 1);
        lemma_pick(keys, taken, n - 1);
    }
}

/// What `newest` picks: distinct positions, exactly the taken ones; every
/// position when fewer than `k` came out; and nothing left behind is
/// newer than anything picked.
pub proof fn lemma_newest_picks(keys: Seq<u64>, k: nat)
    ensures
        newest(keys, k).1.len() == keys.len(),
        newest(keys, k).0.len() <= k,
        forall|j: int| 0 <= j < newest(keys, k).0.len() ==> 0 <= #[trigger] newest(keys, k).0[j] < keys.len(),
        forall|i: int| 0 <= i < keys.len() ==> (#[trigger] newest(keys, k).1[i] <==> newest(keys, k).0.contains(i)),
        newest(keys, k).0.len() < k ==> forall|i: int| 0 <= i < keys.len() ==> #[trigger] newest(keys, k).1[i],
        forall|i: int, j: int|
            #![trigger newest(keys, k).1[i], newest(keys, k).0[j]]
            0 <= i < keys.len() && !newest(keys, k).1[i] && 0 <= j < newest(keys, k).0.len() ==> keys[i]
                <= keys[newest(keys, k).0[j]],
    decreases k,
{
    lemma_newest(keys, k);
    if k == 0 {
        let (o, t) = newest(keys, k);
        assert forall|i: int| 0 <= i < keys.len() implies (#[trigger] t[i] <==> o.contains(i)) by {}
    } else {
        lemma_newest_picks(keys, (k - 1) as nat);
        let (o, t) = newest(keys, (k - 1) as nat);
        lemma_pick(keys, t, keys.len() as int);
        lemma_pick_max(keys, t, keys.len() as int);
        let b = pick(keys, t, keys.len() as int);
        if b >= 0 {
            let (o2, t2) = (o.push(b), t.update(b, true));
            assert(newest(keys, k) == (o2, t2));
            assert forall|i: int| 0 <= i < keys.len() implies (#[trigger] t2[i] <==> o2.contains(i)) by {
                if o2.contains(i) && i != b {
                    let j = choose|j: int| 0 <= j < o2.len() && o2[j] == i;
                    assert(o[j] == i);
                }
                if o.contains(i) {
                    let j = choose|j: int| 0 <= j < o.len() && o[j] == i;
                    assert(o2[j] == i);
                }
                if i == b {
                    assert(o2[o.len() as int] == i);
                }
            }
            assert forall|i: int, j: int|
                #![trigger t2[i], o2[j]]
                0 <= i < keys.len() && !t2[i] && 0 <= j < o2.len() implies keys[i] <= keys[o2[j]] by {
                if j < o.len() {
                    assert(o2[j] == o[j]);
                }
            }
            if o2.len() < k {
                assert(o.len() < k - 1);
            }
        }
    }
}

fn pick_exec(keys: &Vec<u64>, taken: &Vec<bool>) -> (r: Option<usize>)
    requires
        taken@.len() == keys@.len(),
    ensures
        match r {
            Some(i) => pick(keys@, taken@, keys@.len() as int) == i as int,
            None => pick(keys@, taken@, keys@.len() as int) == -1,
        },
{
    let mut best: Option<usize> = None;
    let mut i: usize = 0;
    while i < keys.len()
        invariant
            i <= keys@.len(),
            taken@.len() == keys@.len(),
            match best {
                Some(b) => pick(keys@, taken@, i as int) == b as int && b < i,
                None => pick(keys@, taken@, i as int) == -1,
            },
        decreases keys@.len() - i,
    {
        if !taken[i] {
            match best {
                None => {
                    best = Some(i);
                },
                Some(b) => {
                    if keys[i] > keys[b] {
                        best = Some(i);
                    }
                },
            }
        }
        i += 1;
    }
    best
}

/// The first `k` indices of `keys`, newest first.
pub fn newest_exec(keys: &Vec<u64>, k: usize) -> (r: Vec<usize>)
    ensures
        r@.map_values(|i: usize| i as int) == newest(keys@, k as nat).0,
{
    let mut taken: Vec<bool> = Vec::new();
    let mut i: usize = 0;
    while i < keys.len()
        invariant
            i <= keys@.len(),
            taken@ == Seq::new(i as nat, |j: int| false),
        decreases keys@.len() - i,
    {
        taken.push(false);
        assert(taken@ =~= Seq::new((i + 1) as nat, |j: int| false));
        i += 1;
    }
    let mut out: Vec<usize> = Vec::new();
    let mut n: usize = 0;
    while n < k
        invariant
            n <= k,
            out@.map_values(|i: usize| i as int) == newest(keys@, n as nat).0,
            taken@ == newest(keys@, n as nat).1,
            taken@.len() == keys@.len(),
        decreases k - n,
    {
        proof {
            lemma_newest(keys@, n as nat);
            lemma_pick(keys@, taken@, keys@.len() as int);
        }
        let ghost before = out@;
        match pick_exec(keys, &taken) {
            Some(b) => {
                out.push(b);
                taken.set(b, true);
                assert(out@.map_values(|i: usize| i as int) =~= before.map_values(|i: usize| i as int).push(b as int));
            },
            None => {},
        }
        n += 1;
    }
    out
}

// ---------------------------------------------------------------- subjects

/// One line of current understanding.
pub struct SubjectRow {
    pub subject: String,
    pub count: i64,
    pub cited: bool,
    pub age: String,
    pub text: String,
}

pub open spec fn subject_row_is(r: SubjectRow, name: Seq<char>, s: SubjStats, now: int) -> bool {
    r.subject@ == name && r.count == s.count && r.cited == s.cited && r.age@ == age_text(now, s.last_ms as int)
        && r.text@ == s.text@
}

pub open spec fn last_ms_keys(subjects: Seq<(String, SubjStats)>) -> Seq<u64> {
    subjects.map_values(|e: (String, SubjStats)| e.1.last_ms)
}

/// Current understanding, newest first: the five subjects with the latest
/// observations.
pub fn subject_rows(subjects: &Vec<(String, SubjStats)>, now: u64) -> (r: Vec<SubjectRow>)
    ensures
        r@.len() == newest(last_ms_keys(subjects@), 5).0.len(),
        forall|i: int| 0 <= i < r@.len() ==> {
            let j = newest(last_ms_keys(subjects@), 5).0[i];
            subject_row_is(#[trigger] r@[i], subjects@[j].0@, subjects@[j].1, now as int)
        },
{
    let mut keys: Vec<u64> = Vec::new();
    let mut i: usize = 0;
    while i < subjects.len()
        invariant
            i <= subjects@.len(),
            keys@ == last_ms_keys(subjects@.take(i as int)),
        decreases subjects@.len() - i,
    {
        keys.push(subjects[i].1.last_ms);
        assert(last_ms_keys(subjects@.take(i + 1)) =~= last_ms_keys(subjects@.take(i as int)).push(subjects@[i as int].1.last_ms));
        i += 1;
    }
    assert(subjects@.take(subjects@.len() as int) =~= subjects@);
    let order = newest_exec(&keys, 5);
    proof {
        lemma_newest(keys@, 5);
    }
    let ghost ord = newest(keys@, 5).0;
    let mut out: Vec<SubjectRow> = Vec::new();
    let mut n: usize = 0;
    while n < order.len()
        invariant
            n <= order@.len(),
            keys@ == last_ms_keys(subjects@),
            order@.map_values(|i: usize| i as int) == ord,
            ord == newest(keys@, 5).0,
            forall|j: int| 0 <= j < ord.len() ==> 0 <= #[trigger] ord[j] < keys@.len(),
            out@.len() == n,
            forall|i: int| 0 <= i < n ==> subject_row_is(#[trigger] out@[i], subjects@[ord[i]].0@, subjects@[ord[i]].1, now as int),
        decreases order@.len() - n,
    {
        assert(ord[n as int] == order@[n as int] as int);
        let j = order[n];
        let (name, s) = (&subjects[j].0, &subjects[j].1);
        out.push(SubjectRow {
            subject: copy_str(name),
            count: s.count,
            cited: s.cited,
            age: age_label(now, s.last_ms),
            text: copy_str(&s.text),
        });
        n += 1;
    }
    out
}


// ---------------------------------------------------------------- sessions

/// The last `/`-separated component of a path (all of it without a `/`).
pub open spec fn last_component(p: Seq<char>) -> Seq<char> {
    p.skip(last_index_before(p, '/', p.len() as int) + 1)
}

fn last_component_exec(p: &String) -> (r: String)
    ensures
        r@ == last_component(p@),
{
    let v = crate::text::chars_of(p.as_str());
    proof {
        lemma_last_index_before(v@, '/', v@.len() as int);
    }
    let from = match rfind_before(&v, '/', v.len()) {
        Some(i) => i + 1,
        None => 0,
    };
    let tail = crate::text::slice_of(&v, from, v.len());
    assert(tail@ =~= last_component(p@));
    string_of(&tail)
}

/// One session active in the last hour.
pub struct ActiveRow {
    /// the worktree: the last component of the session's cwd
    pub place: String,
    pub session: String,
    pub age: String,
    pub commits: i64,
}

pub open spec fn active_row_is(r: ActiveRow, id: Seq<char>, s: SessStats, now: int) -> bool {
    r.place@ == last_component(s.cwd@) && r.session@ == id.take(if id.len() < 8 { id.len() as int } else { 8 })
        && r.age@ == age_text(now, s.end_ms as int) && r.commits == s.commits
}

pub open spec fn end_keys(sessions: Seq<(String, SessStats)>) -> Seq<u64> {
    sessions.map_values(|e: (String, SessStats)| e.1.end_ms)
}

/// Active within the hour before `now`.
pub open spec fn recent(s: SessStats, now: int) -> bool {
    (if now > s.end_ms { now - s.end_ms } else { 0 }) < 3_600_000
}

/// The first `k` indices of `order` whose sessions are recent.
pub open spec fn first_recent(order: Seq<int>, sessions: Seq<(String, SessStats)>, now: int, k: int) -> Seq<int>
    decreases order.len(),
{
    if order.len() == 0 || k <= 0 {
        Seq::empty()
    } else if recent(sessions[order[0]].1, now) {
        seq![order[0]] + first_recent(order.drop_first(), sessions, now, k - 1)
    } else {
        first_recent(order.drop_first(), sessions, now, k)
    }
}

pub open spec fn rows_are(out: Seq<ActiveRow>, picked: Seq<int>, sessions: Seq<(String, SessStats)>, now: int) -> bool {
    picked.len() == out.len() && (forall|i: int|
        0 <= i < out.len() ==> row_at(out, picked, sessions, now, i))
}

pub open spec fn row_at(out: Seq<ActiveRow>, picked: Seq<int>, sessions: Seq<(String, SessStats)>, now: int, i: int) -> bool {
    0 <= picked[i] < sessions.len() && active_row_is(out[i], sessions[picked[i]].0@, sessions[picked[i]].1, now)
}

proof fn lemma_rows_push(out: Seq<ActiveRow>, picked: Seq<int>, row: ActiveRow, j: int, sessions: Seq<(String, SessStats)>, now: int)
    requires
        rows_are(out, picked, sessions, now),
        0 <= j < sessions.len(),
        active_row_is(row, sessions[j].0@, sessions[j].1, now),
    ensures
        rows_are(out.push(row), picked.push(j), sessions, now),
{
    let o2 = out.push(row);
    let p2 = picked.push(j);
    assert forall|i: int| 0 <= i < o2.len() implies #[trigger] row_at(o2, p2, sessions, now, i) by {
        if i < out.len() {
            assert(row_at(out, picked, sessions, now, i));
            assert(o2[i] == out[i]);
            assert(p2[i] == picked[i]);
        } else {
            assert(o2[i] == row);
            assert(p2[i] == j);
        }
    }
    assert(p2.len() == o2.len());
}

fn session_keys(sessions: &Vec<(String, SessStats)>) -> (keys: Vec<u64>)
    ensures
        keys@ == end_keys(sessions@),
{
    let mut keys: Vec<u64> = Vec::new();
    let mut i: usize = 0;
    while i < sessions.len()
        invariant
            i <= sessions@.len(),
            keys@ == end_keys(sessions@.take(i as int)),
        decreases sessions@.len() - i,
    {
        keys.push(sessions[i].1.end_ms);
        assert(end_keys(sessions@.take(i + 1)) =~= end_keys(sessions@.take(i as int)).push(sessions@[i as int].1.end_ms));
        i += 1;
    }
    assert(sessions@.take(sessions@.len() as int) =~= sessions@);
    keys
}

/// Sessions with activity in the last hour, newest first, at most six —
/// one agent's brief sees what the others are doing.
pub fn active_rows(sessions: &Vec<(String, SessStats)>, now: u64) -> (r: Vec<ActiveRow>)
    ensures
        rows_are(r@, first_recent(newest(end_keys(sessions@), sessions@.len()).0, sessions@, now as int, 6), sessions@, now as int),
{
    let keys = session_keys(sessions);
    let order = newest_exec(&keys, sessions.len());
    proof {
        lemma_newest(keys@, sessions@.len());
    }
    let ghost ord = order@.map_values(|i: usize| i as int);
    let ghost all = first_recent(ord, sessions@, now as int, 6);
    let ghost mut picked: Seq<int> = Seq::empty();
    let mut out: Vec<ActiveRow> = Vec::new();
    let mut n: usize = 0;
    assert(ord.skip(0) =~= ord);
    assert(all =~= picked + first_recent(ord.skip(0), sessions@, now as int, 6));
    while n < order.len() && out.len() < 6
        invariant
            n <= order@.len(),
            ord == order@.map_values(|i: usize| i as int),
            all == first_recent(ord, sessions@, now as int, 6),
            forall|j: int| 0 <= j < ord.len() ==> 0 <= #[trigger] ord[j] < sessions@.len(),
            out@.len() <= 6,
            picked.len() == out@.len(),
            all == picked + first_recent(ord.skip(n as int), sessions@, now as int, 6 - out@.len()),
            rows_are(out@, picked, sessions@, now as int),
        decreases order@.len() - n,
    {
        let j = order[n];
        assert(ord[n as int] == j as int);
        let s = &sessions[j].1;
        let age = now.saturating_sub(s.end_ms);
        let ghost rest = ord.skip(n as int);
        assert(rest[0] == j as int);
        assert(rest.drop_first() =~= ord.skip(n + 1));
        if age < 3_600_000 {
            let ghost before = out@;
            let row = ActiveRow {
                place: last_component_exec(&s.cwd),
                session: short_sess(sessions[j].0.as_str()),
                age: age_label(now, s.end_ms),
                commits: s.commits,
            };
            assert(active_row_is(row, sessions@[j as int].0@, sessions@[j as int].1, now as int));
            out.push(row);
            proof {
                lemma_rows_push(before, picked, row, j as int, sessions@, now as int);
                assert(out@ == before.push(row));
                let k = 6 - (out@.len() - 1);
                assert(first_recent(rest, sessions@, now as int, k) == seq![j as int] + first_recent(ord.skip(n + 1), sessions@, now as int, k - 1));
                assert(picked + (seq![j as int] + first_recent(ord.skip(n + 1), sessions@, now as int, k - 1))
                    =~= picked.push(j as int) + first_recent(ord.skip(n + 1), sessions@, now as int, k - 1));
                picked = picked.push(j as int);
            }
        }
        n += 1;
    }
    proof {
        if n == order@.len() {
            assert(ord.skip(n as int) =~= Seq::<int>::empty());
        }
        assert(all =~= picked);
    }
    out
}


/// The closing message of the latest session that has one.
pub struct LastSession {
    pub age: String,
    pub branch: String,
    pub final_msg: String,
}

/// The first index of `order` whose session has a closing message.
pub open spec fn first_with_final(order: Seq<int>, sessions: Seq<(String, SessStats)>) -> Option<int>
    decreases order.len(),
{
    if order.len() == 0 {
        None
    } else if sessions[order[0]].1.final_msg@.len() > 0 {
        Some(order[0])
    } else {
        first_with_final(order.drop_first(), sessions)
    }
}

/// The closing message of the newest session that left one.
pub fn last_session(sessions: &Vec<(String, SessStats)>, now: u64) -> (r: Option<LastSession>)
    ensures
        match first_with_final(newest(end_keys(sessions@), sessions@.len()).0, sessions@) {
            None => r is None,
            Some(j) => r matches Some(l) && 0 <= j < sessions@.len() && l.age@ == age_text(now as int, sessions@[j].1.end_ms as int)
                && l.branch@ == sessions@[j].1.branch@ && l.final_msg@ == sessions@[j].1.final_msg@,
        },
{
    let keys = session_keys(sessions);
    let order = newest_exec(&keys, sessions.len());
    proof {
        lemma_newest(keys@, sessions@.len());
    }
    let ghost ord = order@.map_values(|i: usize| i as int);
    let mut n: usize = 0;
    assert(ord.skip(0) =~= ord);
    while n < order.len()
        invariant
            n <= order@.len(),
            ord == order@.map_values(|i: usize| i as int),
            forall|j: int| 0 <= j < ord.len() ==> 0 <= #[trigger] ord[j] < sessions@.len(),
            ord == newest(end_keys(sessions@), sessions@.len()).0,
            first_with_final(ord, sessions@) == first_with_final(ord.skip(n as int), sessions@),
        decreases order@.len() - n,
    {
        let j = order[n];
        assert(ord[n as int] == j as int);
        assert(ord.skip(n as int)[0] == j as int);
        assert(ord.skip(n as int).drop_first() =~= ord.skip(n + 1));
        let s = &sessions[j].1;
        if s.final_msg.as_str().unicode_len() > 0 {
            return Some(LastSession { age: age_label(now, s.end_ms), branch: copy_str(&s.branch), final_msg: copy_str(&s.final_msg) });
        }
        n += 1;
    }
    assert(ord.skip(n as int) =~= Seq::<int>::empty());
    None
}

// ---------------------------------------------------------------- files

/// The `k` best-ranked files of `m` (more touches first, then by path).
pub open spec fn ranked(m: Map<Seq<char>, int>, k: nat) -> Seq<Seq<char>>
    decreases k,
{
    if k == 0 {
        Seq::empty()
    } else {
        match top_file(m) {
            None => Seq::empty(),
            Some(t) => seq![t] + ranked(m.remove(t), (k - 1) as nat),
        }
    }
}

/// The `k` best-ranked entries' paths.
fn ranked_exec(acc: Vec<(Vec<char>, i64)>, k: usize) -> (r: Vec<Vec<char>>)
    requires
        distinct_keys(key_view(acc@)),
    ensures
        r@.map_values(|v: Vec<char>| v@) == ranked(files_map(key_view(acc@)), k as nat),
{
    let ghost m0 = files_map(key_view(acc@));
    let ghost a0 = acc@;
    let mut work = acc;
    let mut out: Vec<Vec<char>> = Vec::new();
    let mut n: usize = 0;
    while n < k
        invariant
            n <= k,
            m0 == files_map(key_view(a0)),
            a0 == acc@,
            distinct_keys(key_view(work@)),
            ranked(m0, k as nat) == out@.map_values(|v: Vec<char>| v@) + ranked(files_map(key_view(work@)), (k - n) as nat),
        decreases k - n,
    {
        let ghost s = key_view(work@);
        let ghost before = out@;
        match best_entry(&work, None) {
            None => {
                proof {
                    assert forall|q: Seq<char>| !is_top(files_map(s), q) by {
                        lemma_key_index(s, q);
                    }
                    assert(ranked(files_map(s), (k - n) as nat) =~= Seq::<Seq<char>>::empty());
                    assert(out@.map_values(|v: Vec<char>| v@) + Seq::<Seq<char>>::empty() =~= out@.map_values(|v: Vec<char>| v@));
                }
                return out;
            },
            Some(i) => {
                proof {
                    lemma_best_is_top(s, i as int, None);
                    lemma_map_remove(s, i as int);
                }
                let e = work.remove(i);
                assert(key_view(work@) =~= s.remove(i as int));
                out.push(e.0);
                assert(out@.map_values(|v: Vec<char>| v@) =~= before.map_values(|v: Vec<char>| v@).push(s[i as int].0));
                assert(before.map_values(|v: Vec<char>| v@) + ranked(files_map(s), (k - n) as nat)
                    =~= out@.map_values(|v: Vec<char>| v@) + ranked(files_map(key_view(work@)), (k - n - 1) as nat));
            },
        }
        n += 1;
    }
    assert(out@.map_values(|v: Vec<char>| v@) + ranked(files_map(key_view(work@)), 0) =~= out@.map_values(|v: Vec<char>| v@));
    out
}


/// A day's file counts as an entry list.
fn file_entries(files: &FileCounts) -> (r: Vec<(Vec<char>, i64)>)
    ensures
        key_view(r@) == files@,
        distinct_keys(key_view(r@)),
{
    proof {
        use_type_invariant(files);
    }
    let mut r: Vec<(Vec<char>, i64)> = Vec::new();
    let mut i: usize = 0;
    while i < files.len()
        invariant
            i <= files@.len(),
            key_view(r@) == files@.take(i as int),
        decreases files@.len() - i,
    {
        let ghost before = r@;
        let path = crate::text::chars_of(files.path(i).as_str());
        let n = files.count(i);
        r.push((path, n));
        assert(key_view(r@) =~= key_view(before).push((files@[i as int].0, files@[i as int].1)));
        assert(files@.take(i + 1) =~= files@.take(i as int).push(files@[i as int]));
        assert(key_view(r@) =~= files@.take(i + 1));
        i += 1;
    }
    assert(files@.take(files@.len() as int) =~= files@);
    r
}

/// One day of the digest.
pub struct DayRow {
    pub day: String,
    pub tools: i64,
    pub fails: i64,
    pub commits: i64,
    pub sessions: i64,
    /// the day's four most-touched files, shortened
    pub files: Vec<String>,
}

pub open spec fn day_row_is(r: DayRow, key: u64, s: DayStats, today: int) -> bool {
    &&& r.day@ == day_text(key as int, today)
    &&& r.tools == s.tools && r.fails == s.fails && r.commits == s.commits && r.sessions == s.sessions
    &&& r.files@.map_values(|f: String| f@) == ranked(files_map(s.files@), 4).map_values(|p: Seq<char>| short_path_spec(p))
}

fn short_paths(ps: &Vec<Vec<char>>) -> (r: Vec<String>)
    ensures
        r@.map_values(|f: String| f@) == ps@.map_values(|v: Vec<char>| v@).map_values(|p: Seq<char>| short_path_spec(p)),
{
    let mut r: Vec<String> = Vec::new();
    let mut i: usize = 0;
    while i < ps.len()
        invariant
            i <= ps@.len(),
            r@.map_values(|f: String| f@) == ps@.take(i as int).map_values(|v: Vec<char>| v@).map_values(|p: Seq<char>| short_path_spec(p)),
        decreases ps@.len() - i,
    {
        r.push(short_path(string_of(&ps[i]).as_str()));
        assert(ps@.take(i + 1).map_values(|v: Vec<char>| v@).map_values(|p: Seq<char>| short_path_spec(p))
            =~= ps@.take(i as int).map_values(|v: Vec<char>| v@).map_values(|p: Seq<char>| short_path_spec(p)).push(short_path_spec(ps@[i as int]@)));
        assert(r@.map_values(|f: String| f@) =~= ps@.take(i + 1).map_values(|v: Vec<char>| v@).map_values(|p: Seq<char>| short_path_spec(p)));
        i += 1;
    }
    assert(ps@.take(ps@.len() as int) =~= ps@);
    r
}

/// The digest: the three most recent non-empty days, newest first.
pub fn recent_days(days: &DayMap<DayStats>, today: u64) -> (r: Vec<DayRow>)
    ensures
        r@.len() == (if days@.len() < 3 { days@.len() as int } else { 3 }),
        forall|i: int| 0 <= i < r@.len() ==> day_row_is(#[trigger] r@[i], days@[days@.len() - 1 - i].0, days@[days@.len() - 1 - i].1, today as int),
{
    let n = days.len();
    let k = if n < 3 { n } else { 3 };
    let mut out: Vec<DayRow> = Vec::new();
    let mut i: usize = 0;
    while i < k
        invariant
            n == days@.len(),
            k == (if n < 3 { n } else { 3 }),
            i <= k,
            out@.len() == i,
            forall|j: int| 0 <= j < i ==> day_row_is(#[trigger] out@[j], days@[days@.len() - 1 - j].0, days@[days@.len() - 1 - j].1, today as int),
        decreases k - i,
    {
        let key = days.key(n - 1 - i);
        let s = days.value(n - 1 - i);
        let top = ranked_exec(file_entries(&s.files), 4);
        let files = short_paths(&top);
        let row = DayRow { day: day_label(key, today), tools: s.tools, fails: s.fails, commits: s.commits, sessions: s.sessions, files };
        assert(day_row_is(row, days@[days@.len() - 1 - i].0, days@[days@.len() - 1 - i].1, today as int));
        let ghost before = out@;
        out.push(row);
        assert forall|j: int| 0 <= j < i + 1 implies day_row_is(#[trigger] out@[j], days@[days@.len() - 1 - j].0, days@[days@.len() - 1 - j].1, today as int) by {
            if j < i {
                assert(out@[j] == before[j]);
            }
        }
        i += 1;
    }
    out
}

/// The day that bounds the digest: the oldest of the (up to) three days it
/// shows, or today for an empty ledger. The ladder covers what lies before.
pub open spec fn frontier_of(days: Seq<(u64, DayStats)>, today: int) -> int {
    if days.len() == 0 {
        today
    } else {
        days[days.len() - (if days.len() < 3 { days.len() as int } else { 3 })].0 as int
    }
}

pub fn frontier(days: &DayMap<DayStats>, today: u64) -> (r: u64)
    ensures
        r == frontier_of(days@, today as int),
{
    let n = days.len();
    if n == 0 {
        today
    } else {
        days.key(n - if n < 3 { n } else { 3 })
    }
}

// ---------------------------------------------------------------- touched files

/// File touches summed over the last `c` days of `rows`.
pub open spec fn touched(rows: Seq<(u64, DayStats)>, c: int) -> Map<Seq<char>, int>
    decreases c,
{
    if c <= 0 {
        Map::empty()
    } else {
        merge_counts(touched(rows, c - 1), files_map(rows[rows.len() - c].1.files@))
    }
}

/// Values strictly increasing in code-point order.
pub open spec fn strictly_sorted(v: Seq<Seq<char>>) -> bool {
    forall|i: int, j: int| 0 <= i < j < v.len() ==> lex_lt(v[i], v[j])
}

/// The distinct values of `v`, sorted.
fn sorted_unique(v: &Vec<String>) -> (r: Vec<Vec<char>>)
    ensures
        strictly_sorted(r@.map_values(|x: Vec<char>| x@)),
        r@.map_values(|x: Vec<char>| x@).to_set() == v@.map_values(|x: String| x@).to_set(),
{
    let mut out: Vec<Vec<char>> = Vec::new();
    let mut i: usize = 0;
    while i < v.len()
        invariant
            i <= v@.len(),
            strictly_sorted(out@.map_values(|x: Vec<char>| x@)),
            out@.map_values(|x: Vec<char>| x@).to_set() == v@.take(i as int).map_values(|x: String| x@).to_set(),
        decreases v@.len() - i,
    {
        let c = crate::text::chars_of(v[i].as_str());
        let ghost o = out@.map_values(|x: Vec<char>| x@);
        // first position whose value is not below c
        let mut p: usize = 0;
        while p < out.len() && lex_less(&out[p], &c)
            invariant
                p <= out@.len(),
                o == out@.map_values(|x: Vec<char>| x@),
                forall|q: int| 0 <= q < p ==> lex_lt(o[q], c@),
            decreases out@.len() - p,
        {
            p += 1;
        }
        let dup = p < out.len() && crate::text::seq_eq(&out[p], &c);
        assert(v@.take(i + 1).map_values(|x: String| x@) =~= v@.take(i as int).map_values(|x: String| x@).push(c@));
        if !dup {
            out.insert(p, c);
            proof {
                let o2 = out@.map_values(|x: Vec<char>| x@);
                assert(o2 =~= o.insert(p as int, c@));
                assert forall|a: int, b: int| 0 <= a < b < o2.len() implies lex_lt(o2[a], o2[b]) by {
                    if p < o.len() {
                        lemma_lex_total(o[p as int], c@);
                    }
                    if a < p && b == p {
                    } else if a == p && b > p {
                        // c < o[p] <= o[b - 1]
                        lemma_lex_total(o[p as int], c@);
                        if b - 1 > p {
                            lemma_lex_transitive(c@, o[p as int], o[b - 1]);
                        }
                    } else if a < p && b > p {
                        if b - 1 > a {
                        }
                    }
                }
                assert(o2.to_set() =~= o.to_set().insert(c@)) by {
                    assert forall|x: Seq<char>| o2.to_set().contains(x) <==> o.to_set().insert(c@).contains(x) by {
                        if o2.to_set().contains(x) {
                            let w = choose|w: int| 0 <= w < o2.len() && o2[w] == x;
                            if w < p {
                                assert(o[w] == x);
                            } else if w > p {
                                assert(o[w - 1] == x);
                            }
                        }
                        if o.to_set().contains(x) {
                            let w = choose|w: int| 0 <= w < o.len() && o[w] == x;
                            if w < p {
                                assert(o2[w] == x);
                            } else {
                                assert(o2[w + 1] == x);
                            }
                        }
                        if x == c@ {
                            assert(o2[p as int] == x);
                        }
                    }
                }
            }
        } else {
            proof {
                assert(o[p as int] == c@);
                assert(o.to_set().insert(c@) =~= o.to_set());
            }
        }
        proof {
            let t = v@.take(i as int).map_values(|x: String| x@);
            assert(t.push(c@).to_set() =~= t.to_set().insert(c@)) by {
                assert forall|x: Seq<char>| t.push(c@).to_set().contains(x) <==> t.to_set().insert(c@).contains(x) by {
                    if t.push(c@).to_set().contains(x) {
                        let w = choose|w: int| 0 <= w < t.push(c@).len() && t.push(c@)[w] == x;
                        if w < t.len() {
                            assert(t[w] == x);
                        }
                    }
                    if t.to_set().contains(x) {
                        let w = choose|w: int| 0 <= w < t.len() && t[w] == x;
                        assert(t.push(c@)[w] == x);
                    }
                    if x == c@ {
                        assert(t.push(c@)[t.len() as int] == x);
                    }
                }
            }
        }
        i += 1;
    }
    assert(v@.take(v@.len() as int) =~= v@);
    out
}


/// Files weight of the last `c` days of `rows`.
pub open spec fn tail_files_weight(rows: Seq<(u64, DayStats)>, c: int) -> int
    decreases c,
{
    if c <= 0 { 0 } else { tail_files_weight(rows, c - 1) + files_weight(rows[rows.len() - c].1.files@) }
}

proof fn lemma_tail_weight(rows: Seq<(u64, DayStats)>, c: int)
    requires
        0 <= c <= rows.len(),
    ensures
        tail_files_weight(rows, c) <= rows_weight(rows),
        tail_files_weight(rows, c) >= 0,
    decreases rows.len(),
{
    if c > 0 {
        let pre = rows.drop_last();
        lemma_tail_weight(pre, c - 1);
        assert forall|t: int| 0 <= t <= c - 1 implies tail_files_weight(pre, t) == tail_files_weight(rows, t + 1) - files_weight(rows.last().1.files@) by {
            lemma_tail_shift(rows, t);
        }
    }
}

proof fn lemma_tail_shift(rows: Seq<(u64, DayStats)>, t: int)
    requires
        0 <= t < rows.len(),
    ensures
        tail_files_weight(rows.drop_last(), t) == tail_files_weight(rows, t + 1) - files_weight(rows.last().1.files@),
    decreases t,
{
    if t > 0 {
        lemma_tail_shift(rows, t - 1);
        assert(rows.drop_last()[rows.drop_last().len() - t] == rows[rows.len() - (t + 1)]);
    } else {
        assert(tail_files_weight(rows, 0) == 0);
        assert(tail_files_weight(rows.drop_last(), 0) == 0);
    }
}

proof fn lemma_tail_mono(rows: Seq<(u64, DayStats)>, a: int, b: int)
    requires
        0 <= a <= b,
    ensures
        tail_files_weight(rows, a) <= tail_files_weight(rows, b),
    decreases b - a,
{
    if a < b {
        lemma_tail_mono(rows, a, b - 1);
    }
}

/// The sessions the file index lists for `path` (the first entry for it).
pub open spec fn sessions_of(index: Seq<(String, Vec<String>)>, path: Seq<char>) -> Seq<Seq<char>>
    decreases index.len(),
{
    if index.len() == 0 {
        Seq::empty()
    } else if index[0].0@ == path {
        index[0].1@.map_values(|s: String| s@)
    } else {
        sessions_of(index.drop_first(), path)
    }
}

/// A most-touched file with the sessions that touched it.
pub struct FileRow {
    pub path: String,
    pub sessions: Vec<String>,
}

pub open spec fn shorten(s: Seq<char>) -> Seq<char> {
    s.take(if s.len() < 8 { s.len() as int } else { 8 })
}

pub open spec fn file_row_is(r: FileRow, path: Seq<char>, index: Seq<(String, Vec<String>)>) -> bool {
    &&& r.path@ == short_path_spec(path)
    &&& exists|u: Seq<Seq<char>>| strictly_sorted(u) && u.to_set() == sessions_of(index, path).to_set()
        && r.sessions@.map_values(|x: String| x@) == u.map_values(|x: Seq<char>| shorten(x))
}

fn sessions_lookup(index: &Vec<(String, Vec<String>)>, path: &Vec<char>) -> (r: Option<usize>)
    ensures
        r matches Some(i) ==> i < index@.len() && sessions_of(index@, path@) == index@[i as int].1@.map_values(|s: String| s@),
        r is None ==> sessions_of(index@, path@) == Seq::<Seq<char>>::empty(),
{
    let mut i: usize = 0;
    assert(index@.skip(0) =~= index@);
    while i < index.len()
        invariant
            i <= index@.len(),
            sessions_of(index@, path@) == sessions_of(index@.skip(i as int), path@),
        decreases index@.len() - i,
    {
        assert(index@.skip(i as int)[0] == index@[i as int]);
        assert(index@.skip(i as int).drop_first() =~= index@.skip(i + 1));
        let k = crate::text::chars_of(index[i].0.as_str());
        if crate::text::seq_eq(&k, path) {
            return Some(i);
        }
        i += 1;
    }
    assert(index@.skip(i as int) =~= Seq::<(String, Vec<String>)>::empty());
    None
}

fn file_row(path: &Vec<char>, index: &Vec<(String, Vec<String>)>) -> (r: FileRow)
    ensures
        file_row_is(r, path@, index@),
{
    let empty: Vec<String> = Vec::new();
    let listed: &Vec<String> = match sessions_lookup(index, path) {
        Some(i) => &index[i].1,
        None => &empty,
    };
    assert(listed@.map_values(|s: String| s@) =~= sessions_of(index@, path@));
    let u = sorted_unique(listed);
    let mut out: Vec<String> = Vec::new();
    let mut i: usize = 0;
    while i < u.len()
        invariant
            i <= u@.len(),
            out@.map_values(|x: String| x@) == u@.take(i as int).map_values(|x: Vec<char>| x@).map_values(|x: Seq<char>| shorten(x)),
        decreases u@.len() - i,
    {
        out.push(short_sess(string_of(&u[i]).as_str()));
        assert(u@.take(i + 1).map_values(|x: Vec<char>| x@).map_values(|x: Seq<char>| shorten(x))
            =~= u@.take(i as int).map_values(|x: Vec<char>| x@).map_values(|x: Seq<char>| shorten(x)).push(shorten(u@[i as int]@)));
        assert(out@.map_values(|x: String| x@) =~= u@.take(i + 1).map_values(|x: Vec<char>| x@).map_values(|x: Seq<char>| shorten(x)));
        i += 1;
    }
    assert(u@.take(u@.len() as int) =~= u@);
    let r = FileRow { path: short_path(string_of(path).as_str()), sessions: out };
    assert(strictly_sorted(u@.map_values(|x: Vec<char>| x@)) && u@.map_values(|x: Vec<char>| x@).to_set() == sessions_of(index@, path@).to_set()
        && r.sessions@.map_values(|x: String| x@) == u@.map_values(|x: Vec<char>| x@).map_values(|x: Seq<char>| shorten(x)));
    r
}

/// Most-touched files over the digest's days (up to five, more touches
/// first, then by path), with the sessions that touched each.
pub fn touched_files(days: &DayMap<DayStats>, index: &Vec<(String, Vec<String>)>) -> (r: Vec<FileRow>)
    ensures
        ({
            let top = ranked(touched(days@, if days@.len() < 3 { days@.len() as int } else { 3 }), 5);
            &&& r@.len() == top.len()
            &&& forall|i: int| 0 <= i < r@.len() ==> file_row_is(#[trigger] r@[i], top[i], index@)
        }),
{
    proof {
        use_type_invariant(days);
    }
    let n = days.len();
    let c = if n < 3 { n } else { 3 };
    proof {
        lemma_tail_weight(days@, c as int);
    }
    let mut acc: Vec<(Vec<char>, i64)> = Vec::new();
    let mut t: usize = 0;
    assert(files_map(key_view(acc@)) =~= touched(days@, 0));
    while t < c
        invariant
            n == days@.len(),
            c == (if n < 3 { n } else { 3 }),
            t <= c,
            distinct_keys(key_view(acc@)),
            files_weight(key_view(acc@)) <= tail_files_weight(days@, t as int),
            tail_files_weight(days@, c as int) <= count_limit(),
            files_map(key_view(acc@)) == touched(days@, t as int),
        decreases c - t,
    {
        let s = days.value(n - 1 - t);
        assert(tail_files_weight(days@, t + 1) == tail_files_weight(days@, t as int) + files_weight(s.files@));
        proof {
            lemma_tail_mono(days@, t + 1, c as int);
        }
        let _ = merge_day(&mut acc, &s.files, Ghost(tail_files_weight(days@, t as int)));
        t += 1;
    }
    let top = ranked_exec(acc, 5);
    let ghost tops = top@.map_values(|v: Vec<char>| v@);
    let mut out: Vec<FileRow> = Vec::new();
    let mut i: usize = 0;
    while i < top.len()
        invariant
            i <= top@.len(),
            tops == top@.map_values(|v: Vec<char>| v@),
            out@.len() == i,
            forall|j: int| 0 <= j < i ==> file_row_is(#[trigger] out@[j], tops[j], index@),
        decreases top@.len() - i,
    {
        let row = file_row(&top[i], index);
        let ghost before = out@;
        out.push(row);
        assert forall|j: int| 0 <= j < i + 1 implies file_row_is(#[trigger] out@[j], tops[j], index@) by {
            if j < i {
                assert(out@[j] == before[j]);
            }
        }
        i += 1;
    }
    out
}


// ---------------------------------------------------------------- relevant

/// One recalled text with its disposition.
pub struct Hit {
    /// kind (`·cited` for a cited observation) and age, e.g. `obs·cited · 3d`
    pub tag: String,
    pub text: String,
}

/// The selection so far: picked rows, and how many each session gave.
pub type RelState = (Seq<TextRow>, Map<Seq<char>, int>);

/// One fused hit: a session may give at most two rows, and the list stops
/// at six; a hit whose text is gone is passed over.
pub open spec fn rel_step(st: RelState, hit: (EventId, Option<TextRow>)) -> RelState {
    let sess = hit.0.0@;
    let n = if st.1.contains_key(sess) { st.1[sess] } else { 0 };
    if st.0.len() >= 6 || n >= 2 {
        st
    } else {
        match hit.1 {
            None => st,
            Some(t) => (st.0.push(t), st.1.insert(sess, n + 1)),
        }
    }
}

pub open spec fn rel_fold(hits: Seq<(EventId, Option<TextRow>)>) -> RelState
    decreases hits.len(),
{
    if hits.len() == 0 {
        (Seq::empty(), Map::empty())
    } else {
        rel_step(rel_fold(hits.drop_last()), hits.last())
    }
}

/// The disposition tag of a recalled row at `now`.
pub open spec fn hit_tag(t: TextRow, now: int) -> Seq<char> {
    let kind = if t.kind@ == "obs"@ && t.cited { t.kind@ + "·cited"@ } else { t.kind@ };
    kind + " · "@ + age_text(now, t.ts_ms as int)
}

pub open spec fn hit_is(h: Hit, t: TextRow, now: int) -> bool {
    h.tag@ == hit_tag(t, now) && h.text@ == t.text@
}

/// The brief's `relevant` section from the fused hit list (best first),
/// each hit with its text row when the row still exists.
pub fn relevant(fused: &Vec<(EventId, Option<TextRow>)>, now: u64) -> (r: Vec<Hit>)
    ensures
        r@.len() == rel_fold(fused@).0.len(),
        forall|i: int| 0 <= i < r@.len() ==> hit_is(#[trigger] r@[i], rel_fold(fused@).0[i], now as int),
{
    let mut out: Vec<Hit> = Vec::new();
    let mut counts: Vec<(String, usize)> = Vec::new();
    let ghost mut rows: Seq<TextRow> = Seq::empty();
    let mut i: usize = 0;
    while i < fused.len()
        invariant
            i <= fused@.len(),
            rel_fold(fused@.take(i as int)).0 == rows,
            forall|k: Seq<char>| #[trigger] rel_fold(fused@.take(i as int)).1.contains_key(k) <==> exists|j: int| 0 <= j < counts@.len() && counts@[j].0@ == k,
            forall|j: int| 0 <= j < counts@.len() ==> rel_fold(fused@.take(i as int)).1.contains_key(#[trigger] counts@[j].0@)
                && rel_fold(fused@.take(i as int)).1[counts@[j].0@] == counts@[j].1 as int,
            forall|a: int, b: int| 0 <= a < b < counts@.len() ==> counts@[a].0@ != counts@[b].0@,
            forall|j: int| 0 <= j < counts@.len() ==> counts@[j].1 <= 2,
            out@.len() == rows.len(),
            rows.len() <= 6,
            forall|j: int| 0 <= j < out@.len() ==> hit_is(#[trigger] out@[j], rows[j], now as int),
        decreases fused@.len() - i,
    {
        assert(fused@.take(i + 1).drop_last() =~= fused@.take(i as int));
        assert(fused@.take(i + 1).last() == fused@[i as int]);
        if out.len() < 6 {
            let sess = &fused[i].0.0;
            let mut at: Option<usize> = None;
            let mut j: usize = 0;
            while j < counts.len()
                invariant
                    j <= counts@.len(),
                    at matches Some(x) ==> x < counts@.len() && counts@[x as int].0@ == sess@,
                    at is None ==> forall|q: int| 0 <= q < j ==> counts@[q].0@ != sess@,
                decreases counts@.len() - j,
            {
                if at.is_none() && crate::text::str_eq(counts[j].0.as_str(), sess.as_str()) {
                    at = Some(j);
                }
                j += 1;
            }
            let n: usize = match at {
                Some(x) => counts[x].1,
                None => 0,
            };
            if n < 2 {
                match &fused[i].1 {
                    None => {},
                    Some(t) => {
                        let mut kind: Vec<char> = crate::text::chars_of(t.kind.as_str());
                        if crate::text::str_eq(t.kind.as_str(), "obs") && t.cited {
                            crate::text::push_str(&mut kind, "·cited");
                        }
                        crate::text::push_str(&mut kind, " · ");
                        let age = age_label(now, t.ts_ms);
                        crate::text::push_str(&mut kind, age.as_str());
                        let h = Hit { tag: string_of(&kind), text: copy_str(&t.text) };
                        let ghost before = out@;
                        out.push(h);
                        proof {
                            assert forall|q: int| 0 <= q < out@.len() implies hit_is(#[trigger] out@[q], rows.push(*t)[q], now as int) by {
                                if q < before.len() {
                                    assert(out@[q] == before[q]);
                                }
                            }
                            rows = rows.push(*t);
                        }
                        let ghost m0 = rel_fold(fused@.take(i as int)).1;
                        let ghost c0 = counts@;
                        match at {
                            Some(x) => {
                                let name = copy_str(&counts[x].0);
                                counts.set(x, (name, n + 1));
                                proof {
                                    assert forall|k: Seq<char>| #[trigger] m0.insert(sess@, n + 1).contains_key(k) <==> exists|q: int| 0 <= q < counts@.len() && counts@[q].0@ == k by {
                                        if m0.insert(sess@, n + 1).contains_key(k) {
                                            if k != sess@ {
                                                let q = choose|q: int| 0 <= q < c0.len() && c0[q].0@ == k;
                                                assert(counts@[q].0@ == k);
                                            } else {
                                                assert(counts@[x as int].0@ == k);
                                            }
                                        }
                                        if exists|q: int| 0 <= q < counts@.len() && counts@[q].0@ == k {
                                            let q = choose|q: int| 0 <= q < counts@.len() && counts@[q].0@ == k;
                                            assert(c0[q].0@ == k);
                                        }
                                    }
                                }
                            },
                            None => {
                                counts.push((copy_str(sess), 1));
                                proof {
                                    assert forall|k: Seq<char>| #[trigger] m0.insert(sess@, n + 1).contains_key(k) <==> exists|q: int| 0 <= q < counts@.len() && counts@[q].0@ == k by {
                                        if m0.insert(sess@, n + 1).contains_key(k) {
                                            if k != sess@ {
                                                let q = choose|q: int| 0 <= q < c0.len() && c0[q].0@ == k;
                                                assert(counts@[q].0@ == k);
                                            } else {
                                                assert(counts@[c0.len() as int].0@ == k);
                                            }
                                        }
                                        if exists|q: int| 0 <= q < counts@.len() && counts@[q].0@ == k {
                                            let q = choose|q: int| 0 <= q < counts@.len() && counts@[q].0@ == k;
                                            if q < c0.len() {
                                                assert(c0[q].0@ == k);
                                            }
                                        }
                                    }
                                }
                            },
                        }
                    },
                }
            }
        }
        i += 1;
    }
    assert(fused@.take(fused@.len() as int) =~= fused@);
    out
}


// ---------------------------------------------------------------- observations per day

/// How many of `rows` fall on day `d`.
pub open spec fn obs_on(rows: Seq<u64>, d: int) -> int
    decreases rows.len(),
{
    if rows.len() == 0 {
        0
    } else {
        obs_on(rows.drop_last(), d) + if rows.last() / DAY_MS == d { 1int } else { 0int }
    }
}

/// `m` holds exactly the days with observations, each once (in day
/// order) with its count.
pub open spec fn counts_days(m: Seq<(u64, i64)>, rows: Seq<u64>) -> bool {
    &&& keys_increasing(m)
    &&& forall|i: int| 0 <= i < m.len() ==> m[i].1 == obs_on(rows, m[i].0 as int) && #[trigger] m[i].1 > 0
    &&& forall|d: u64| obs_on(rows, d as int) > 0 ==> exists|i: int| 0 <= i < m.len() && #[trigger] m[i].0 == d
}

proof fn lemma_obs_on_bound(rows: Seq<u64>, d: int)
    ensures
        0 <= obs_on(rows, d) <= rows.len(),
    decreases rows.len(),
{
    if rows.len() > 0 {
        lemma_obs_on_bound(rows.drop_last(), d);
    }
}

/// Observations per day, from the timestamps of the evidence trail
/// (every subject's rows).
pub fn obs_per_day(rows: &Vec<u64>) -> (r: DayMap<i64>)
    requires
        rows@.len() < 0x0100_0000_0000_0000,
    ensures
        counts_days(r@, rows@),
{
    let mut m: DayMap<i64> = DayMap::new();
    proof {
        use_type_invariant(&m);
    }
    let mut i: usize = 0;
    while i < rows.len()
        invariant
            i <= rows@.len(),
            rows@.len() < 0x0100_0000_0000_0000,
            counts_days(m@, rows@.take(i as int)),
            rows_weight(m@) == i,
        decreases rows@.len() - i,
    {
        proof {
            use_type_invariant(&m);
        }
        let ghost pre = rows@.take(i as int);
        let ghost post = rows@.take(i + 1);
        assert(post.drop_last() =~= pre);
        assert(post.last() == rows@[i as int]);
        let d = rows[i] / DAY_MS;
        let ghost before = m@;
        let c: i64 = match m.get(d) {
            Some(v) => *v,
            None => 0,
        };
        proof {
            lemma_obs_on_bound(pre, d as int);
            if c != 0 {
                let k = choose|k: int| 0 <= k < before.len() && before[k] == (d, c);
                crate::store::lemma_rows_weight_ge(before, k);
            } else {
                if obs_on(pre, d as int) > 0 {
                    let k = choose|k: int| 0 <= k < before.len() && before[k].0 == d;
                    assert(before[k].0 == d);
                }
            }
        }
        assert(c == obs_on(pre, d as int));
        let ok = m.insert(d, c + 1);
        proof {
            use_type_invariant(&m);
            assert(ok);
            let after = m@;
            if c > 0 {
                let k = choose|k: int| 0 <= k < before.len() && before[k] == (d, c);
                let k2 = choose|k2: int| 0 <= k2 < before.len() && before[k2].0 == d && after == before.update(k2, (d, (c + 1) as i64));
                if k2 != k {
                    assert(before[k2].0 == before[k].0);
                }
                lemma_rows_weight_update(before, k, (d, (c + 1) as i64));
                assert forall|j: int| 0 <= j < after.len() implies after[j].1 == obs_on(post, after[j].0 as int) && #[trigger] after[j].1 > 0 by {
                    if j != k {
                        assert(after[j] == before[j]);
                        assert(before[j].0 != d);
                    }
                }
                assert forall|e: u64| obs_on(post, e as int) > 0 implies exists|j: int| 0 <= j < after.len() && #[trigger] after[j].0 == e by {
                    if e == d {
                        assert(after[k].0 == e);
                    } else {
                        assert(obs_on(post, e as int) == obs_on(pre, e as int));
                        let j = choose|j: int| 0 <= j < before.len() && #[trigger] before[j].0 == e;
                        assert(after[j].0 == e);
                    }
                }
            } else {
                assert forall|j: int| 0 <= j < before.len() implies before[j].0 != d by {
                    if before[j].0 == d {
                        assert(before[j].1 == obs_on(pre, d as int));
                    }
                }
                assert(exists|k: int| 0 <= k <= before.len() && after == #[trigger] before.insert(k, (d, (c + 1) as i64)));
                let k = choose|k: int| 0 <= k <= before.len() && after == #[trigger] before.insert(k, (d, (c + 1) as i64));
                lemma_rows_weight_insert(before, k, (d, (c + 1) as i64));
                assert forall|j: int| 0 <= j < after.len() implies after[j].1 == obs_on(post, after[j].0 as int) && #[trigger] after[j].1 > 0 by {
                    if j < k {
                        assert(after[j] == before[j]);
                    } else if j > k {
                        assert(after[j] == before[j - 1]);
                    }
                }
                assert forall|e: u64| obs_on(post, e as int) > 0 implies exists|j: int| 0 <= j < after.len() && #[trigger] after[j].0 == e by {
                    if e == d {
                        assert(after[k].0 == e);
                    } else {
                        assert(obs_on(post, e as int) == obs_on(pre, e as int));
                        let j = choose|j: int| 0 <= j < before.len() && #[trigger] before[j].0 == e;
                        if j < k {
                            assert(after[j].0 == e);
                        } else {
                            assert(after[j + 1].0 == e);
                        }
                    }
                }
            }
        }
        i += 1;
    }
    assert(rows@.take(rows@.len() as int) =~= rows@);
    m
}


// ---------------------------------------------------------------- the brief

/// A session-start orientation, every value precomputed.
pub struct Brief {
    pub today: String,
    pub active: Vec<ActiveRow>,
    pub days: Vec<DayRow>,
    /// the temporal ladder: the rest of the past, geometrically coarser,
    /// every band carrying the command that descends into it
    pub further: Vec<Band>,
    pub last_session: Option<LastSession>,
    pub files: Vec<FileRow>,
    pub relevant: Vec<Hit>,
    pub subjects: Vec<SubjectRow>,
}

/// Assemble the brief from one snapshot: the day table, the file index
/// (path -> sessions), the fused recall hits for `query` with their text
/// rows, the subjects table, the evidence trail's timestamps, and the
/// sessions table,
/// each in table order.
pub fn assemble(
    query: &str,
    now: u64,
    budget: usize,
    offset_ms: i64,
    days: &DayMap<DayStats>,
    file_index: &Vec<(String, Vec<String>)>,
    fused: &Vec<(EventId, Option<TextRow>)>,
    subjects: &Vec<(String, SubjStats)>,
    evidence: &Vec<u64>,
    sessions: &Vec<(String, SessStats)>,
) -> (b: Brief)
    requires
        -0x100_0000_0000 <= offset_ms <= 0x100_0000_0000,
        evidence@.len() < 0x0100_0000_0000_0000,
        crate::civil::day_ok(frontier_of(days@, (now / DAY_MS) as int)),
        weekly_rungs_ok(days@, frontier_of(days@, (now / DAY_MS) as int), budget as int),
    ensures
        ({
            let t = now + offset_ms;
            let local = if t < 0 { t + 0x1_0000_0000_0000_0000 } else if t > u64::MAX { t - 0x1_0000_0000_0000_0000 } else { t };
            b.today@ == date_text(civil_of(local / 86_400_000))
        }),
        rows_are(b.active@, first_recent(newest(end_keys(sessions@), sessions@.len()).0, sessions@, now as int, 6), sessions@, now as int),
        b.days@.len() == (if days@.len() < 3 { days@.len() as int } else { 3 }),
        forall|i: int| 0 <= i < b.days@.len() ==> day_row_is(#[trigger] b.days@[i], days@[days@.len() - 1 - i].0, days@[days@.len() - 1 - i].1, (now / DAY_MS) as int),
        exists|obs: Seq<(u64, i64)>| counts_days(obs, evidence@) && ladder(days@, obs, frontier_of(days@, (now / DAY_MS) as int), budget as int, b.further@),
        match first_with_final(newest(end_keys(sessions@), sessions@.len()).0, sessions@) {
            None => b.last_session is None,
            Some(j) => b.last_session matches Some(l) && 0 <= j < sessions@.len() && l.age@ == age_text(now as int, sessions@[j].1.end_ms as int)
                && l.branch@ == sessions@[j].1.branch@ && l.final_msg@ == sessions@[j].1.final_msg@,
        },
        ({
            let top = ranked(touched(days@, if days@.len() < 3 { days@.len() as int } else { 3 }), 5);
            &&& b.files@.len() == top.len()
            &&& forall|i: int| 0 <= i < b.files@.len() ==> file_row_is(#[trigger] b.files@[i], top[i], file_index@)
        }),
        crate::text::all_ws(query@) ==> b.relevant@.len() == 0,
        !crate::text::all_ws(query@) ==> b.relevant@.len() == rel_fold(fused@).0.len()
            && forall|i: int| 0 <= i < b.relevant@.len() ==> hit_is(#[trigger] b.relevant@[i], rel_fold(fused@).0[i], now as int),
        b.subjects@.len() == newest(last_ms_keys(subjects@), 5).0.len(),
        forall|i: int| 0 <= i < b.subjects@.len() ==> {
            let j = newest(last_ms_keys(subjects@), 5).0[i];
            subject_row_is(#[trigger] b.subjects@[i], subjects@[j].0@, subjects@[j].1, now as int)
        },
{
    let today = now / DAY_MS;
    let obs = obs_per_day(evidence);
    let edge = frontier(days, today);
    let further = bands(days, &obs, edge, budget);
    let relevant = if crate::text::is_blank(query) { Vec::new() } else { relevant(fused, now) };
    Brief {
        today: today_label(now, offset_ms),
        active: active_rows(sessions, now),
        days: recent_days(days, today),
        further,
        last_session: last_session(sessions, now),
        files: touched_files(days, file_index),
        relevant,
        subjects: subject_rows(subjects, now),
    }
}


// ---------------------------------------------------------------- a subject's trail

/// `r` is `s` styled in `role` when `on`, `s` itself otherwise.
pub open spec fn styled(on: bool, role: Role, s: Seq<char>, r: Seq<char>) -> bool {
    if on { styled_or_plain(role_code(role), s, r) } else { r == s }
}

/// Decimal text of a signed count.
pub open spec fn int_text(n: int) -> Seq<char> {
    if n < 0 { seq!['-'] + dec((-n) as nat) } else { dec(n as nat) }
}

pub fn push_int(out: &mut Vec<char>, n: i64)
    ensures
        final(out)@ == old(out)@ + int_text(n as int),
{
    if n < 0 {
        out.push('-');
        let m: u64 = if n == i64::MIN { 0x8000_0000_0000_0000 } else { (-n) as u64 };
        push_dec(out, m);
    } else {
        push_dec(out, n as u64);
    }
}

pub open spec fn ts_keys(rows: Seq<ObsRow>) -> Seq<u64> {
    rows.map_values(|r: ObsRow| r.ts_ms)
}

/// The receipt of one observation in a trail: who, when, and whether it
/// cites mechanical events.
pub open spec fn receipt(r: ObsRow, now: int) -> Seq<char> {
    seq!['['] + shorten(r.session@) + " · "@ + age_text(now, r.ts_ms as int)
        + (if r.derived_from@.len() > 0 { " · cited"@ } else { Seq::empty() }) + seq![']']
}

pub open spec fn trail_row(line: Seq<char>, r: ObsRow, now: int, on: bool) -> bool {
    exists|p: Seq<char>| styled(on, Role::Dim, receipt(r, now), p) && line == "  "@ + p + seq![' '] + r.text@
}

pub open spec fn trail_head(line: Seq<char>, subj: Seq<char>, h: SubjStats, on: bool) -> bool {
    exists|a: Seq<char>, d: Seq<char>| styled(on, Role::Accent, subj, a)
        && styled(on, Role::Dim, seq!['('] + int_text(h.count as int) + " obs)"@, d)
        && line == a + " — "@ + h.text@ + seq![' '] + d
}

fn paint_chars(on: bool, role: Role, v: &Vec<char>) -> (r: Vec<char>)
    ensures
        styled(on, role, v@, r@),
{
    let s = string_of(v);
    crate::text::chars_of(paint(on, role, s.as_str()).as_str())
}

/// The lines of one subject's evidence trail (`recall --subject`): the
/// current text, then every observation newest first — or a note that the
/// subject has none.
pub fn subject_trail(subj: &str, head: Option<&SubjStats>, rows: &Vec<ObsRow>, now: u64, on: bool) -> (r: Vec<String>)
    ensures
        rows@.len() == 0 ==> r@.len() == 1 && styled(on, Role::Dim, "no such subject: "@ + subj@, r@[0]@),
        rows@.len() > 0 ==> {
            let order = newest(ts_keys(rows@), rows@.len()).0;
            let skip: int = if head is Some { 1 } else { 0 };
            &&& r@.len() == skip + order.len()
            &&& head matches Some(h) ==> trail_head(r@[0]@, subj@, *h, on)
            &&& forall|i: int| 0 <= i < order.len() ==> trail_row(#[trigger] r@[skip + i]@, rows@[order[i]], now as int, on)
        },
{
    proof {
        reveal_strlit(" · ");
        reveal_strlit(" · cited");
        reveal_strlit(" obs)");
        reveal_strlit(" — ");
        reveal_strlit("  ");
        reveal_strlit("no such subject: ");
    }
    let mut keys: Vec<u64> = Vec::new();
    let mut i: usize = 0;
    while i < rows.len()
        invariant
            i <= rows@.len(),
            keys@ == ts_keys(rows@.take(i as int)),
        decreases rows@.len() - i,
    {
        keys.push(rows[i].ts_ms);
        assert(ts_keys(rows@.take(i + 1)) =~= ts_keys(rows@.take(i as int)).push(rows@[i as int].ts_ms));
        i += 1;
    }
    assert(rows@.take(rows@.len() as int) =~= rows@);
    let order = newest_exec(&keys, rows.len());
    proof {
        lemma_newest(keys@, rows@.len());
    }
    let mut out: Vec<String> = Vec::new();
    if rows.len() == 0 {
        let mut t = crate::text::chars_of("no such subject: ");
        crate::text::push_str(&mut t, subj);
        let p = paint_chars(on, Role::Dim, &t);
        out.push(string_of(&p));
        return out;
    }
    match head {
        Some(h) => {
            let a = paint_chars(on, Role::Accent, &crate::text::chars_of(subj));
            let mut c: Vec<char> = Vec::new();
            c.push('(');
            push_int(&mut c, h.count);
            crate::text::push_str(&mut c, " obs)");
            let d = paint_chars(on, Role::Dim, &c);
            let mut line = a.clone();
            crate::text::push_str(&mut line, " — ");
            crate::text::push_str(&mut line, h.text.as_str());
            line.push(' ');
            crate::text::push_all(&mut line, &d);
            assert(line@ =~= a@ + " — "@ + h.text@ + seq![' '] + d@);
            assert(c@ =~= seq!['('] + int_text(h.count as int) + " obs)"@);
            assert(trail_head(line@, subj@, *h, on));
            out.push(string_of(&line));
        },
        None => {},
    }
    let ghost ord = order@.map_values(|i: usize| i as int);
    let ghost skip: int = if head is Some { 1 } else { 0 };
    let ghost head_line = out@;
    let mut n: usize = 0;
    while n < order.len()
        invariant
            n <= order@.len(),
            ord == order@.map_values(|i: usize| i as int),
            forall|j: int| 0 <= j < ord.len() ==> 0 <= #[trigger] ord[j] < rows@.len(),
            out@.len() == skip + n,
            skip == (if head is Some { 1int } else { 0int }),
            head_line.len() == skip,
            forall|q: int| 0 <= q < skip ==> out@[q] == head_line[q],
            head matches Some(h) ==> trail_head(head_line[0]@, subj@, *h, on),
            forall|q: int| 0 <= q < n ==> trail_row(#[trigger] out@[skip + q]@, rows@[ord[q]], now as int, on),
        decreases order@.len() - n,
    {
        let j = order[n];
        assert(ord[n as int] == j as int);
        let r = &rows[j];
        let mut t: Vec<char> = Vec::new();
        t.push('[');
        crate::text::push_str(&mut t, short_sess(r.session.as_str()).as_str());
        crate::text::push_str(&mut t, " · ");
        crate::text::push_str(&mut t, age_label(now, r.ts_ms).as_str());
        if r.derived_from.len() > 0 {
            crate::text::push_str(&mut t, " · cited");
        }
        t.push(']');
        assert(t@ =~= receipt(*r, now as int));
        let p = paint_chars(on, Role::Dim, &t);
        let mut line = crate::text::chars_of("  ");
        crate::text::push_all(&mut line, &p);
        line.push(' ');
        crate::text::push_str(&mut line, r.text.as_str());
        assert(line@ =~= "  "@ + p@ + seq![' '] + r.text@);
        assert(trail_row(line@, *r, now as int, on));
        let ghost before = out@;
        out.push(string_of(&line));
        assert forall|q: int| 0 <= q < n + 1 implies trail_row(#[trigger] out@[skip + q]@, rows@[ord[q]], now as int, on) by {
            if q < n {
                assert(out@[skip + q] == before[skip + q]);
            }
        }
        n += 1;
    }
    assert(ord == newest(ts_keys(rows@), rows@.len()).0);
    out
}

} // verus!
