//! One window of time up close: its digest, its children one rung finer,
//! the sessions that overlap it, and the accountable texts inside it.
use vstd::prelude::*;

use crate::brief::{newest, newest_exec, lemma_newest, lemma_newest_picks, obs_per_day, counts_days};
use crate::civil::day_ok;
use crate::event::{Envelope, EnvelopeV, EventId, EventV};
use crate::ladder::{children, child_kind, child_ok, digest, digests, tiles, window_count, window_sum, Band, Stat};
use crate::pipeline::{DayStats, SessStats, DAY_MS};
use crate::store::DayMap;

verus! {

/// What a zoom shows, as positions in the tables it read.
pub struct Zoom {
    /// the window's own digest
    pub head: Band,
    /// its children one rung finer, those with any activity
    pub kids: Vec<Band>,
    /// sessions overlapping the window, newest first
    pub sessions: Vec<usize>,
    /// its closing messages and compaction summaries, newest first, at most four
    pub finals: Vec<usize>,
    /// its observations, oldest first
    pub obs: Vec<usize>,
}

/// The indices of `keys` whose value lies in `lo..hi`, in order.
pub open spec fn in_span(keys: Seq<u64>, lo: int, hi: int, n: int) -> Seq<int>
    decreases n,
{
    if n <= 0 {
        Seq::empty()
    } else {
        let pre = in_span(keys, lo, hi, n - 1);
        if lo <= keys[n - 1] < hi { pre.push(n - 1) } else { pre }
    }
}

/// `cands` ordered by `keys`, newest first (stably), at most `k`.
pub open spec fn newest_of(cands: Seq<int>, keys: Seq<u64>, k: nat) -> Seq<int> {
    newest(cands.map_values(|c: int| keys[c]), k).0.map_values(|i: int| cands[i])
}

/// `cands` ordered by `keys`, oldest first (stably).
pub open spec fn oldest_of(cands: Seq<int>, keys: Seq<u64>) -> Seq<int> {
    newest(cands.map_values(|c: int| (u64::MAX - keys[c]) as u64), cands.len()).0.map_values(|i: int| cands[i])
}

/// A session overlaps `lo..hi`.
pub open spec fn overlaps(s: SessStats, lo: int, hi: int) -> bool {
    s.start_ms < hi && s.end_ms >= lo
}

/// A closing message or a compaction summary.
pub open spec fn accountable(e: EnvelopeV) -> bool {
    e.kind is FinalMsg || e.kind is CompactSummary
}

pub open spec fn overlapping(order: Seq<int>, sessions: Seq<(String, SessStats)>, lo: int, hi: int) -> Seq<int>
    decreases order.len(),
{
    if order.len() == 0 {
        Seq::empty()
    } else {
        let pre = overlapping(order.drop_last(), sessions, lo, hi);
        if overlaps(sessions[order.last()].1, lo, hi) { pre.push(order.last()) } else { pre }
    }
}

pub open spec fn said_in(ledger: Seq<(EventId, Envelope)>, lo: int, hi: int, n: int) -> Seq<int>
    decreases n,
{
    if n <= 0 {
        Seq::empty()
    } else {
        let pre = said_in(ledger, lo, hi, n - 1);
        let e = ledger[n - 1].1@;
        if lo <= e.ts_ms < hi && accountable(e) { pre.push(n - 1) } else { pre }
    }
}

pub open spec fn active_band(b: Band) -> bool {
    b.tools + b.commits + b.obs > 0
}

pub open spec fn end_keys_of(sessions: Seq<(String, SessStats)>) -> Seq<u64> {
    sessions.map_values(|e: (String, SessStats)| e.1.end_ms)
}

pub open spec fn ledger_ts(ledger: Seq<(EventId, Envelope)>) -> Seq<u64> {
    ledger.map_values(|e: (EventId, Envelope)| e.1.ts_ms)
}

/// Indices `0..n` of `s` kept by `keep`, in order, newest first by `keys`.
pub(crate) fn rank_newest(cands: &Vec<usize>, keys: &Vec<u64>, k: usize, oldest: bool) -> (r: Vec<usize>)
    requires
        forall|i: int| 0 <= i < cands@.len() ==> #[trigger] cands@[i] < keys@.len(),
    ensures
        !oldest ==> r@.map_values(|i: usize| i as int) == newest_of(cands@.map_values(|i: usize| i as int), keys@, k as nat),
        oldest ==> r@.map_values(|i: usize| i as int) == newest(
            cands@.map_values(|i: usize| i as int).map_values(|c: int| (u64::MAX - keys@[c]) as u64),
            k as nat,
        ).0.map_values(|i: int| cands@.map_values(|i: usize| i as int)[i]),
{
    let ghost cs = cands@.map_values(|i: usize| i as int);
    let mut ks: Vec<u64> = Vec::new();
    let mut i: usize = 0;
    while i < cands.len()
        invariant
            i <= cands@.len(),
            cs == cands@.map_values(|i: usize| i as int),
            forall|j: int| 0 <= j < cands@.len() ==> #[trigger] cands@[j] < keys@.len(),
            ks@ == cs.take(i as int).map_values(|c: int| if oldest { (u64::MAX - keys@[c]) as u64 } else { keys@[c] }),
        decreases cands@.len() - i,
    {
        let key = keys[cands[i]];
        ks.push(if oldest { u64::MAX - key } else { key });
        assert(ks@ =~= cs.take(i + 1).map_values(|c: int| if oldest { (u64::MAX - keys@[c]) as u64 } else { keys@[c] }));
        i += 1;
    }
    assert(cs.take(cs.len() as int) =~= cs);
    let ghost want = cs.map_values(|c: int| if oldest { (u64::MAX - keys@[c]) as u64 } else { keys@[c] });
    assert(ks@ == want);
    if oldest {
        assert(want =~= cs.map_values(|c: int| (u64::MAX - keys@[c]) as u64));
    } else {
        assert(want =~= cs.map_values(|c: int| keys@[c]));
    }
    let order = newest_exec(&ks, k);
    proof {
        lemma_newest(ks@, k as nat);
    }
    let ghost ord = order@.map_values(|i: usize| i as int);
    let mut out: Vec<usize> = Vec::new();
    let mut n: usize = 0;
    while n < order.len()
        invariant
            n <= order@.len(),
            ord == order@.map_values(|i: usize| i as int),
            forall|j: int| 0 <= j < ord.len() ==> 0 <= #[trigger] ord[j] < ks@.len(),
            ks@.len() == cands@.len(),
            cs == cands@.map_values(|i: usize| i as int),
            out@.map_values(|i: usize| i as int) == ord.take(n as int).map_values(|i: int| cs[i]),
        decreases order@.len() - n,
    {
        assert(ord[n as int] == order@[n as int] as int);
        let ghost before = out@;
        let c = cands[order[n]];
        assert(cs[ord[n as int]] == c as int);
        out.push(c);
        assert(out@.map_values(|i: usize| i as int) =~= before.map_values(|i: usize| i as int).push(c as int));
        assert(out@.map_values(|i: usize| i as int) =~= ord.take(n + 1).map_values(|i: int| cs[i]));
        n += 1;
    }
    assert(ord.take(ord.len() as int) =~= ord);
    out
}


/// Whether a window holds any tools, commits or observations.
pub open spec fn window_active(rows: Seq<(u64, DayStats)>, obs: Seq<(u64, i64)>, s: int, e: int) -> bool {
    window_sum(rows, s, e, Stat::Tools) + window_sum(rows, s, e, Stat::Commits) + window_count(obs, s, e) > 0
}

/// `b` is the digest of child `c`.
pub open spec fn child_band(b: Band, c: (u64, u64, String, String), rows: Seq<(u64, DayStats)>, obs: Seq<(u64, i64)>) -> bool {
    &&& b.start == c.0 && b.end == c.1
    &&& b.label@ == c.2@ && b.handle@ == c.3@ && b.span@ == Seq::<char>::empty()
    &&& digests(rows, obs, b)
}

/// `kids` are the digests of the active children among `cs`, in order.
pub open spec fn kids_rel(kids: Seq<Band>, cs: Seq<(u64, u64, String, String)>, rows: Seq<(u64, DayStats)>, obs: Seq<(u64, i64)>) -> bool
    decreases cs.len(),
{
    if cs.len() == 0 {
        kids.len() == 0
    } else if window_active(rows, obs, cs.last().0 as int, cs.last().1 as int) {
        kids.len() > 0 && child_band(kids.last(), cs.last(), rows, obs) && kids_rel(kids.drop_last(), cs.drop_last(), rows, obs)
    } else {
        kids_rel(kids, cs.drop_last(), rows, obs)
    }
}

/// `cs` are the children of `start..=end`, one rung finer.
pub open spec fn children_of(start: int, end: int, cs: Seq<(u64, u64, String, String)>) -> bool {
    &&& end - start + 1 <= 1 ==> cs.len() == 0
    &&& end - start + 1 > 1 ==> tiles(start, end, cs) && forall|i: int|
        0 <= i < cs.len() ==> child_ok(child_kind(end - start + 1), end, #[trigger] cs[i])
}

fn kids_exec(
    days: &DayMap<DayStats>,
    obs: &DayMap<i64>,
    cs: Vec<(u64, u64, String, String)>,
) -> (r: Vec<Band>)
    ensures
        kids_rel(r@, cs@, days@, obs@),
{
    let ghost all = cs@;
    let mut out: Vec<Band> = Vec::new();
    let mut rest = cs;
    let mut todo: Vec<(u64, u64, String, String)> = Vec::new();
    // reverse so that children come off the back in order
    while rest.len() > 0
        invariant
            todo@.len() + rest@.len() == all.len(),
            forall|j: int| 0 <= j < todo@.len() ==> todo@[j] == all[all.len() - 1 - j],
            rest@ == all.take(rest@.len() as int),
        decreases rest@.len(),
    {
        let c = rest.pop().unwrap();
        assert(rest@ =~= all.take(rest@.len() as int));
        todo.push(c);
    }
    let n = todo.len();
    while todo.len() > 0
        invariant
            todo@.len() <= n,
            n == all.len(),
            forall|j: int| 0 <= j < todo@.len() ==> todo@[j] == all[all.len() - 1 - j],
            kids_rel(out@, all.take((n - todo@.len()) as int), days@, obs@),
        decreases todo@.len(),
    {
        let k = n - todo.len();
        let c = todo.pop().unwrap();
        assert(c == all[k as int]);
        assert(all.take(k + 1).drop_last() =~= all.take(k as int));
        assert(all.take(k + 1).last() == c);
        let b = digest(days, obs, c.0, c.1, c.2, String::new(), c.3);
        if (b.tools as i128) + (b.commits as i128) + (b.obs as i128) > 0 {
            let ghost before = out@;
            out.push(b);
            assert(out@.drop_last() =~= before);
        }
    }
    assert(all.take(n as int) =~= all);
    out
}


fn in_span_exec(keys: &Vec<u64>, lo: u64, hi: u64) -> (r: Vec<usize>)
    ensures
        r@.map_values(|i: usize| i as int) == in_span(keys@, lo as int, hi as int, keys@.len() as int),
        forall|i: int| 0 <= i < r@.len() ==> #[trigger] r@[i] < keys@.len(),
{
    let mut out: Vec<usize> = Vec::new();
    let mut i: usize = 0;
    while i < keys.len()
        invariant
            i <= keys@.len(),
            out@.map_values(|i: usize| i as int) == in_span(keys@, lo as int, hi as int, i as int),
            forall|j: int| 0 <= j < out@.len() ==> #[trigger] out@[j] < i,
        decreases keys@.len() - i,
    {
        if lo <= keys[i] && keys[i] < hi {
            let ghost before = out@;
            out.push(i);
            assert(out@.map_values(|i: usize| i as int) =~= before.map_values(|i: usize| i as int).push(i as int));
        }
        i += 1;
    }
    out
}

fn said_in_exec(ledger: &Vec<(EventId, Envelope)>, lo: u64, hi: u64) -> (r: Vec<usize>)
    ensures
        r@.map_values(|i: usize| i as int) == said_in(ledger@, lo as int, hi as int, ledger@.len() as int),
        forall|i: int| 0 <= i < r@.len() ==> #[trigger] r@[i] < ledger@.len(),
{
    let mut out: Vec<usize> = Vec::new();
    let mut i: usize = 0;
    while i < ledger.len()
        invariant
            i <= ledger@.len(),
            out@.map_values(|i: usize| i as int) == said_in(ledger@, lo as int, hi as int, i as int),
            forall|j: int| 0 <= j < out@.len() ==> #[trigger] out@[j] < i,
        decreases ledger@.len() - i,
    {
        let e = &ledger[i].1;
        let kept = match &e.kind {
            crate::event::Event::FinalMsg { .. } | crate::event::Event::CompactSummary { .. } => true,
            _ => false,
        };
        if lo <= e.ts_ms && e.ts_ms < hi && kept {
            let ghost before = out@;
            out.push(i);
            assert(out@.map_values(|i: usize| i as int) =~= before.map_values(|i: usize| i as int).push(i as int));
        }
        i += 1;
    }
    out
}

fn overlapping_exec(sessions: &Vec<(String, SessStats)>, lo: u64, hi: u64) -> (r: Vec<usize>)
    ensures
        r@.map_values(|i: usize| i as int) == overlapping(newest(end_keys_of(sessions@), sessions@.len()).0, sessions@, lo as int, hi as int),
{
    let mut keys: Vec<u64> = Vec::new();
    let mut i: usize = 0;
    while i < sessions.len()
        invariant
            i <= sessions@.len(),
            keys@ == end_keys_of(sessions@.take(i as int)),
        decreases sessions@.len() - i,
    {
        keys.push(sessions[i].1.end_ms);
        assert(end_keys_of(sessions@.take(i + 1)) =~= end_keys_of(sessions@.take(i as int)).push(sessions@[i as int].1.end_ms));
        i += 1;
    }
    assert(sessions@.take(sessions@.len() as int) =~= sessions@);
    let order = newest_exec(&keys, sessions.len());
    proof {
        lemma_newest(keys@, sessions@.len());
    }
    let ghost ord = order@.map_values(|i: usize| i as int);
    let mut out: Vec<usize> = Vec::new();
    let mut n: usize = 0;
    while n < order.len()
        invariant
            n <= order@.len(),
            ord == order@.map_values(|i: usize| i as int),
            forall|j: int| 0 <= j < ord.len() ==> 0 <= #[trigger] ord[j] < sessions@.len(),
            out@.map_values(|i: usize| i as int) == overlapping(ord.take(n as int), sessions@, lo as int, hi as int),
        decreases order@.len() - n,
    {
        let j = order[n];
        assert(ord[n as int] == j as int);
        assert(ord.take(n + 1).drop_last() =~= ord.take(n as int));
        assert(ord.take(n + 1).last() == j as int);
        let s = &sessions[j].1;
        if s.start_ms < hi && s.end_ms >= lo {
            let ghost before = out@;
            out.push(j);
            assert(out@.map_values(|i: usize| i as int) =~= before.map_values(|i: usize| i as int).push(j as int));
        }
        n += 1;
    }
    assert(ord.take(ord.len() as int) =~= ord);
    out
}

fn stamps_of(ledger: &Vec<(EventId, Envelope)>) -> (r: Vec<u64>)
    ensures
        r@ == ledger_ts(ledger@),
{
    let mut r: Vec<u64> = Vec::new();
    let mut i: usize = 0;
    while i < ledger.len()
        invariant
            i <= ledger@.len(),
            r@ == ledger_ts(ledger@.take(i as int)),
        decreases ledger@.len() - i,
    {
        r.push(ledger[i].1.ts_ms);
        assert(ledger_ts(ledger@.take(i + 1)) =~= ledger_ts(ledger@.take(i as int)).push(ledger@[i as int].1.ts_ms));
        i += 1;
    }
    assert(ledger@.take(ledger@.len() as int) =~= ledger@);
    r
}

/// Zoom into the window `start..=end` (labelled `label`): over the day
/// table, the evidence trail's timestamps, the sessions table and the
/// ledger (each in table order).
pub fn zoom(
    days: &DayMap<DayStats>,
    stamps: &Vec<u64>,
    sessions: &Vec<(String, SessStats)>,
    ledger: &Vec<(EventId, Envelope)>,
    start: u64,
    end: u64,
    label: String,
) -> (z: Zoom)
    requires
        start <= end,
        day_ok(end as int),
        (end + 1) * DAY_MS <= u64::MAX,
        stamps@.len() < 0x0100_0000_0000_0000,
    ensures
        z.head.label == label && z.head.start == start && z.head.end == end,
        z.head.span@ == Seq::<char>::empty() && z.head.handle@ == Seq::<char>::empty(),
        exists|obs: Seq<(u64, i64)>, cs: Seq<(u64, u64, String, String)>|
            #![trigger counts_days(obs, stamps@), children_of(start as int, end as int, cs)]
            counts_days(obs, stamps@) && digests(days@, obs, z.head) && children_of(start as int, end as int, cs)
                && kids_rel(z.kids@, cs, days@, obs),
        z.sessions@.map_values(|i: usize| i as int) == overlapping(
            newest(end_keys_of(sessions@), sessions@.len()).0,
            sessions@,
            start * DAY_MS,
            (end + 1) * DAY_MS,
        ),
        z.finals@.map_values(|i: usize| i as int) == newest_of(
            said_in(ledger@, start * DAY_MS, (end + 1) * DAY_MS, ledger@.len() as int),
            ledger_ts(ledger@),
            4,
        ),
        z.obs@.map_values(|i: usize| i as int) == oldest_of(
            in_span(stamps@, start * DAY_MS, (end + 1) * DAY_MS, stamps@.len() as int),
            stamps@,
        ),
{
    assert(start * DAY_MS <= (end + 1) * DAY_MS) by (nonlinear_arith)
        requires
            start <= end,
    ;
    let lo = start * DAY_MS;
    let hi = (end + 1) * DAY_MS;
    let obs = obs_per_day(stamps);
    let head = digest(days, &obs, start, end, label, String::new(), String::new());
    let cs = children(start, end);
    let ghost csv = cs@;
    let kids = kids_exec(days, &obs, cs);
    let sess = overlapping_exec(sessions, lo, hi);
    let said = said_in_exec(ledger, lo, hi);
    let ts = stamps_of(ledger);
    let finals = rank_newest(&said, &ts, 4, false);
    let mine = in_span_exec(stamps, lo, hi);
    let obs_rows = rank_newest(&mine, stamps, mine.len(), true);
    proof {
        let cands = mine@.map_values(|i: usize| i as int);
        assert(cands.len() == mine@.len());
        assert(cands.map_values(|c: int| (u64::MAX - stamps@[c]) as u64) =~= cands.map_values(|c: int| (u64::MAX - stamps@[c]) as u64));
        assert(obs_rows@.map_values(|i: usize| i as int) == oldest_of(in_span(stamps@, lo as int, hi as int, stamps@.len() as int), stamps@));
        assert(finals@.map_values(|i: usize| i as int) == newest_of(said_in(ledger@, lo as int, hi as int, ledger@.len() as int), ledger_ts(ledger@), 4));
        assert(counts_days(obs@, stamps@) && digests(days@, obs@, head) && children_of(start as int, end as int, csv) && kids_rel(kids@, csv, days@, obs@));
        assert(head.span@ == Seq::<char>::empty());
        assert(head.handle@ == Seq::<char>::empty());
        assert(sess@.map_values(|i: usize| i as int) == overlapping(newest(end_keys_of(sessions@), sessions@.len()).0, sessions@, lo as int, hi as int));
    }
    let z = Zoom { head, kids, sessions: sess, finals, obs: obs_rows };
    assert(counts_days(obs@, stamps@) && digests(days@, obs@, z.head) && children_of(start as int, end as int, csv)
        && kids_rel(z.kids@, csv, days@, obs@));
    z
}

proof fn lemma_said_in(ledger: Seq<(EventId, Envelope)>, lo: int, hi: int, n: int)
    requires
        0 <= n <= ledger.len(),
    ensures
        forall|k: int| 0 <= k < said_in(ledger, lo, hi, n).len() ==> {
            let i = #[trigger] said_in(ledger, lo, hi, n)[k];
            0 <= i < n && accountable(ledger[i].1@) && lo <= ledger[i].1.ts_ms < hi
        },
        forall|i: int| 0 <= i < n && accountable(#[trigger] ledger[i].1@) && lo <= ledger[i].1.ts_ms < hi
            ==> said_in(ledger, lo, hi, n).contains(i),
    decreases n,
{
    if n > 0 {
        lemma_said_in(ledger, lo, hi, n - 1);
        let pre = said_in(ledger, lo, hi, n - 1);
        let cur = said_in(ledger, lo, hi, n);
        assert forall|k: int| 0 <= k < cur.len() implies {
            let i = #[trigger] cur[k];
            0 <= i < n && accountable(ledger[i].1@) && lo <= ledger[i].1.ts_ms < hi
        } by {
            if k < pre.len() {
                assert(cur[k] == pre[k]);
            }
        }
        assert forall|i: int| 0 <= i < n && accountable(#[trigger] ledger[i].1@) && lo <= ledger[i].1.ts_ms < hi
            implies cur.contains(i) by {
            if i < n - 1 {
                let k = choose|k: int| 0 <= k < pre.len() && pre[k] == i;
                assert(cur[k] == i);
            } else {
                assert(cur[pre.len() as int] == i);
            }
        }
    }
}

/// A zoom's closing texts are the window's newest closing messages and
/// compaction summaries: at most four, each a closing message or a
/// compaction summary stamped inside the window; and any such event left
/// out means four were listed, none older than it.
pub proof fn law_zoom_finals_are_the_newest_closing_texts(ledger: Seq<(EventId, Envelope)>, lo: int, hi: int)
    ensures
        ({
            let f = newest_of(said_in(ledger, lo, hi, ledger.len() as int), ledger_ts(ledger), 4);
            &&& f.len() <= 4
            &&& forall|j: int| 0 <= j < f.len() ==> {
                let i = #[trigger] f[j];
                &&& 0 <= i < ledger.len()
                &&& lo <= ledger[i].1.ts_ms < hi
                &&& (ledger[i].1@.kind is FinalMsg || ledger[i].1@.kind is CompactSummary)
            }
            &&& forall|i: int|
                0 <= i < ledger.len() && lo <= ledger[i].1.ts_ms < hi && (ledger[i].1@.kind is FinalMsg
                    || ledger[i].1@.kind is CompactSummary) && !f.contains(i) ==> f.len() == 4 && forall|j: int|
                    0 <= j < 4 ==> ledger[#[trigger] f[j]].1.ts_ms >= ledger[i].1.ts_ms
        }),
{
    let n = ledger.len() as int;
    lemma_said_in(ledger, lo, hi, n);
    let cands = said_in(ledger, lo, hi, n);
    let keys = ledger_ts(ledger);
    let ck = cands.map_values(|c: int| keys[c]);
    lemma_newest_picks(ck, 4);
    let (o, t) = newest(ck, 4);
    let f = o.map_values(|i: int| cands[i]);
    assert(f == newest_of(cands, keys, 4));
    assert forall|j: int| 0 <= j < f.len() implies {
        let i = #[trigger] f[j];
        &&& 0 <= i < ledger.len()
        &&& lo <= ledger[i].1.ts_ms < hi
        &&& (ledger[i].1@.kind is FinalMsg || ledger[i].1@.kind is CompactSummary)
    } by {
        assert(0 <= o[j] < ck.len());
        assert(f[j] == cands[o[j]]);
    }
    assert forall|i: int|
        0 <= i < ledger.len() && lo <= ledger[i].1.ts_ms < hi && (ledger[i].1@.kind is FinalMsg
            || ledger[i].1@.kind is CompactSummary) && !f.contains(i) implies f.len() == 4 && forall|j: int|
            0 <= j < 4 ==> ledger[#[trigger] f[j]].1.ts_ms >= ledger[i].1.ts_ms by {
        assert(accountable(ledger[i].1@));
        assert(cands.contains(i));
        let c = choose|c: int| 0 <= c < cands.len() && cands[c] == i;
        if t[c] {
            assert(o.contains(c));
            let j = choose|j: int| 0 <= j < o.len() && o[j] == c;
            assert(f[j] == i);
        }
        assert(!t[c]);
        assert(o.len() == 4);
        assert forall|j: int| 0 <= j < 4 implies ledger[#[trigger] f[j]].1.ts_ms >= ledger[i].1.ts_ms by {
            assert(t[c] == false && 0 <= j < o.len());
            assert(ck[c] <= ck[o[j]]);
            assert(ck[c] == keys[i]);
            assert(f[j] == cands[o[j]]);
            assert(ck[o[j]] == keys[cands[o[j]]]);
        }
    }
}

} // verus!
