//! The temporal ladder: bounded reading over an unbounded ledger.
//!
//! Rung 0 (per-day `DayStats`) is the only materialized aggregate; every
//! higher rung is a read-time regrouping of those rows into calendar
//! windows that widen geometrically with distance from now — 2 weeks,
//! 2 months, 2 quarters, then years, then one deep-past band. Nothing is
//! stored, so nothing can go stale: changing the budget re-slices the same
//! rows, and a past cutoff used as `now` gives that day's ladder.
//!
//! Windows are calendar units because their names are the descent handles
//! (`w33`, `2026-07`, `q2`): every band carries the exact command that
//! opens it. Day buckets are UTC (`ts_ms / DAY_MS`).
use vstd::prelude::*;

use crate::civil::{civil_of, day_ok, days_before_year, days_from_civil, iso_thursday, lemma_civil_of, Civil};
use crate::pipeline::DayStats;
use crate::store::FileCounts;
use crate::store::{
    abs, count_limit, distinct_keys, files_map, files_total, files_weight, key_index,
    lemma_files_map_push, lemma_files_map_update, lemma_files_total_bound,
    lemma_files_weight_mono, lemma_files_weight_update, lemma_key_index, lemma_rows_weight_take, rows_weight, DayMap,
    Weighted,
};
use crate::text::{
    chars_of, dec, month_abbr, pad, push_dec, push_month, push_pad, lemma_lex_asymmetric, lemma_lex_total, lemma_lex_transitive, lex_less, lex_lt,
    seq_eq, string_of,
};
use crate::ui::{short_path, short_path_spec};

verus! {

// ---------------------------------------------------------------- window sums

/// The per-day quantities a band sums.
#[derive(Clone, Copy, PartialEq, Eq, Debug, Structural)]
pub enum Stat {
    Sessions,
    Tools,
    Fails,
    Commits,
    /// all file touches of the day
    Touches,
}

pub open spec fn stat(s: DayStats, which: Stat) -> int {
    match which {
        Stat::Sessions => s.sessions as int,
        Stat::Tools => s.tools as int,
        Stat::Fails => s.fails as int,
        Stat::Commits => s.commits as int,
        Stat::Touches => files_total(s.files@),
    }
}

/// Sum of `which` over the rows whose day lies in `start..=end`.
pub open spec fn window_sum(rows: Seq<(u64, DayStats)>, start: int, end: int, which: Stat) -> int
    decreases rows.len(),
{
    if rows.len() == 0 {
        0
    } else {
        window_sum(rows.drop_last(), start, end, which) + if start <= rows.last().0 <= end {
            stat(rows.last().1, which)
        } else {
            0
        }
    }
}

/// Sum of the per-day counts whose day lies in `start..=end`.
pub open spec fn window_count(rows: Seq<(u64, i64)>, start: int, end: int) -> int
    decreases rows.len(),
{
    if rows.len() == 0 {
        0
    } else {
        window_count(rows.drop_last(), start, end) + if start <= rows.last().0 <= end {
            rows.last().1 as int
        } else {
            0
        }
    }
}

/// Pointwise sum of two count maps (absent keys count zero).
pub open spec fn merge_counts(a: Map<Seq<char>, int>, b: Map<Seq<char>, int>) -> Map<Seq<char>, int> {
    Map::new(
        |k: Seq<char>| a.contains_key(k) || b.contains_key(k),
        |k: Seq<char>|
            (if a.contains_key(k) { a[k] } else { 0 }) + (if b.contains_key(k) { b[k] } else { 0 }),
    )
}

/// Touches per file over the rows whose day lies in `start..=end`.
pub open spec fn window_files(rows: Seq<(u64, DayStats)>, start: int, end: int) -> Map<Seq<char>, int>
    decreases rows.len(),
{
    if rows.len() == 0 {
        Map::empty()
    } else if start <= rows.last().0 <= end {
        merge_counts(window_files(rows.drop_last(), start, end), files_map(rows.last().1.files@))
    } else {
        window_files(rows.drop_last(), start, end)
    }
}

/// Band ranking: more touches first, then by path.
pub open spec fn ranks_before(a: (Seq<char>, int), b: (Seq<char>, int)) -> bool {
    a.1 > b.1 || (a.1 == b.1 && lex_lt(a.0, b.0))
}

/// `k` outranks every other file of `m`.
pub open spec fn is_top(m: Map<Seq<char>, int>, k: Seq<char>) -> bool {
    m.contains_key(k) && forall|o: Seq<char>|
        #[trigger] m.contains_key(o) && o != k ==> ranks_before((k, m[k]), (o, m[o]))
}

/// The top-ranked file of `m`, if any.
pub open spec fn top_file(m: Map<Seq<char>, int>) -> Option<Seq<char>> {
    if exists|k: Seq<char>| is_top(m, k) {
        Some(choose|k: Seq<char>| is_top(m, k))
    } else {
        None
    }
}

/// A file names the band only when it dominates it: the top two files,
/// each kept only if it holds at least a quarter of all touches, shortened.
pub open spec fn band_files(m: Map<Seq<char>, int>, touches: int) -> Seq<Seq<char>> {
    match top_file(m) {
        None => Seq::empty(),
        Some(k1) => {
            let first = if m[k1] * 4 >= touches { seq![short_path_spec(k1)] } else { Seq::empty() };
            match top_file(m.remove(k1)) {
                None => first,
                Some(k2) => if m[k2] * 4 >= touches { first.push(short_path_spec(k2)) } else { first },
            }
        },
    }
}

// ---------------------------------------------------------------- bands

/// One rung of the ladder: a window's extractive digest plus its handle.
pub struct Band {
    pub label: String,
    /// human span, e.g. "aug 10–15"; empty when the label carries it
    pub span: String,
    /// the exact command that descends into this window
    pub handle: String,
    pub start: u64,
    pub end: u64,
    pub tools: i64,
    pub fails: i64,
    pub commits: i64,
    pub sessions: i64,
    pub obs: i64,
    /// a file names the band only when it dominates it (≥25% of touches)
    pub files: Vec<String>,
}

/// `b` is the digest of `start..=end` over these rows.
pub open spec fn digests(rows: Seq<(u64, DayStats)>, obs: Seq<(u64, i64)>, b: Band) -> bool {
    let (s, e) = (b.start as int, b.end as int);
    &&& b.tools == window_sum(rows, s, e, Stat::Tools)
    &&& b.fails == window_sum(rows, s, e, Stat::Fails)
    &&& b.commits == window_sum(rows, s, e, Stat::Commits)
    &&& b.sessions == window_sum(rows, s, e, Stat::Sessions)
    &&& b.obs == window_count(obs, s, e)
    &&& b.files@.map_values(|f: String| f@) == band_files(
        window_files(rows, s, e),
        window_sum(rows, s, e, Stat::Touches),
    )
}

pub open spec fn key_view(v: Seq<(Vec<char>, i64)>) -> Seq<(Seq<char>, i64)> {
    v.map_values(|e: (Vec<char>, i64)| (e.0@, e.1))
}

proof fn lemma_merge_insert(m: Map<Seq<char>, int>, f: Map<Seq<char>, int>, k: Seq<char>, v: int)
    requires
        !f.contains_key(k),
    ensures
        merge_counts(m, f.insert(k, v)) == merge_counts(m, f).insert(
            k,
            (if m.contains_key(k) { m[k] } else { 0 }) + v,
        ),
{
    assert(merge_counts(m, f.insert(k, v)) =~= merge_counts(m, f).insert(
        k,
        (if m.contains_key(k) { m[k] } else { 0 }) + v,
    ));
}

/// Adds `n` touches of `key` to the accumulator.
fn merge_one(acc: &mut Vec<(Vec<char>, i64)>, key: Vec<char>, n: i64)
    requires
        distinct_keys(key_view(old(acc)@)),
        files_weight(key_view(old(acc)@)) + abs(n as int) <= count_limit(),
    ensures
        distinct_keys(key_view(final(acc)@)),
        files_weight(key_view(final(acc)@)) <= files_weight(key_view(old(acc)@)) + abs(n as int),
        files_map(key_view(final(acc)@)) == files_map(key_view(old(acc)@)).insert(
            key@,
            (if files_map(key_view(old(acc)@)).contains_key(key@) {
                files_map(key_view(old(acc)@))[key@]
            } else {
                0
            }) + n,
        ),
{
    let ghost before = key_view(acc@);
    proof {
        lemma_key_index(before, key@);
    }
    let mut i: usize = 0;
    while i < acc.len()
        invariant
            i <= acc@.len(),
            key_view(acc@) == before,
            before == key_view(old(acc)@),
            distinct_keys(before),
            files_weight(before) + abs(n as int) <= count_limit(),
            forall|j: int| 0 <= j < i ==> before[j].0 != key@,
        decreases acc@.len() - i,
    {
        let same = seq_eq(acc[i].0.as_slice(), key.as_slice());
        if same {
            let cur = acc[i].1;
            proof {
                assert(before[i as int] == (acc@[i as int].0@, cur));
                assert(before[i as int].0 == key@);
                lemma_key_index(before, key@);
                assert(key_index(before, key@) >= 0);
                let ki = key_index(before, key@);
                if ki != i {
                    assert(before[ki].0 == before[i as int].0);
                }
                lemma_files_weight_update(before, i as int, before[i as int]);
                assert(abs(cur as int) <= files_weight(before));
            }
            let total = cur + n;
            proof {
                lemma_files_weight_update(before, i as int, (key@, total));
            }
            acc.set(i, (key, total));
            proof {
                assert(key_view(acc@) =~= before.update(i as int, (before[i as int].0, total)));
                lemma_files_map_update(before, i as int, total);
            }
            return;
        }
        i += 1;
    }
    let ghost k = key@;
    acc.push((key, n));
    proof {
        assert(key_view(acc@) =~= before.push((k, n)));
        lemma_files_map_push(before, (k, n));
        assert(key_view(acc@).drop_last() =~= before);
    }
}

/// Index of the best-ranked entry of `acc`, skipping `skip`.
pub(crate) fn best_entry(acc: &Vec<(Vec<char>, i64)>, skip: Option<usize>) -> (r: Option<usize>)
    requires
        distinct_keys(key_view(acc@)),
    ensures
        r matches Some(i) ==> i < acc@.len() && skip != Some(i) && forall|j: int|
            0 <= j < acc@.len() && j != i && (skip is None || skip->0 != j) ==> ranks_before(
                (acc@[i as int].0@, acc@[i as int].1 as int),
                (acc@[j].0@, acc@[j].1 as int),
            ),
        r is None ==> acc@.len() == 0 || (acc@.len() == 1 && skip == Some(0usize)),
{
    let mut best: Option<usize> = None;
    let mut i: usize = 0;
    while i < acc.len()
        invariant
            i <= acc@.len(),
            distinct_keys(key_view(acc@)),
            best matches Some(b) ==> b < i && skip != Some(b) && forall|j: int|
                0 <= j < i && j != b && (skip is None || skip->0 != j) ==> ranks_before(
                    (acc@[b as int].0@, acc@[b as int].1 as int),
                    (acc@[j].0@, acc@[j].1 as int),
                ),
            best is None ==> i == 0 || (i == 1 && skip == Some(0usize)),
        decreases acc@.len() - i,
    {
        if skip != Some(i) {
            match best {
                None => {
                    best = Some(i);
                },
                Some(b) => {
                    let better = acc[i].1 > acc[b].1 || (acc[i].1 == acc[b].1 && lex_less(
                        &acc[i].0,
                        &acc[b].0,
                    ));
                    proof {
                        assert(key_view(acc@)[i as int].0 != key_view(acc@)[b as int].0);
                        lemma_lex_total(acc@[i as int].0@, acc@[b as int].0@);
                    }
                    if better {
                        proof {
                            assert forall|j: int|
                                0 <= j < i + 1 && j != i && (skip is None || skip->0 != j) implies ranks_before(
                                (acc@[i as int].0@, acc@[i as int].1 as int),
                                (acc@[j].0@, acc@[j].1 as int),
                            ) by {
                                if j != b {
                                    if acc@[i as int].1 == acc@[j].1 {
                                        lemma_lex_transitive(acc@[i as int].0@, acc@[b as int].0@, acc@[j].0@);
                                    }
                                }
                            }
                        }
                        best = Some(i);
                    }
                },
            }
        }
        i += 1;
    }
    best
}

proof fn lemma_window_step(rows: Seq<(u64, DayStats)>, i: int, s0: int, e0: int)
    requires
        0 <= i < rows.len(),
    ensures
        ({
            let t = rows.take(i + 1);
            let p = rows.take(i);
            let r = rows[i];
            let inw = s0 <= r.0 <= e0;
            &&& forall|w: Stat| #[trigger] window_sum(t, s0, e0, w) == window_sum(p, s0, e0, w) + if inw {
                stat(r.1, w)
            } else {
                0
            }
            &&& window_files(t, s0, e0) == if inw {
                merge_counts(window_files(p, s0, e0), files_map(r.1.files@))
            } else {
                window_files(p, s0, e0)
            }
            &&& rows_weight(t) == rows_weight(p) + r.1.weight()
        }),
{
    assert(rows.take(i + 1).drop_last() =~= rows.take(i));
    assert(rows.take(i + 1).last() == rows[i]);
}

proof fn lemma_count_step(rows: Seq<(u64, i64)>, i: int, s0: int, e0: int)
    requires
        0 <= i < rows.len(),
    ensures
        window_count(rows.take(i + 1), s0, e0) == window_count(rows.take(i), s0, e0) + if s0
            <= rows[i].0 <= e0 {
            rows[i].1 as int
        } else {
            0
        },
        rows_weight(rows.take(i + 1)) == rows_weight(rows.take(i)) + rows[i].1.weight(),
{
    assert(rows.take(i + 1).drop_last() =~= rows.take(i));
    assert(rows.take(i + 1).last() == rows[i]);
}

/// Merges one day's file counts into the accumulator; returns the day's
/// total touches.
pub(crate) fn merge_day(acc: &mut Vec<(Vec<char>, i64)>, files: &FileCounts, w0: Ghost<int>) -> (n: i64)
    requires
        distinct_keys(key_view(old(acc)@)),
        files_weight(key_view(old(acc)@)) <= w0@,
        0 <= w0@,
        w0@ + files_weight(files@) <= count_limit(),
    ensures
        n == files_total(files@),
        distinct_keys(key_view(final(acc)@)),
        files_weight(key_view(final(acc)@)) <= w0@ + files_weight(files@),
        files_map(key_view(final(acc)@)) == merge_counts(files_map(key_view(old(acc)@)), files_map(files@)),
{
    proof {
        use_type_invariant(files);
        lemma_files_total_bound(files@);
    }
    let ghost m0 = files_map(key_view(acc@));
    let ghost f = files@;
    let mut touches: i64 = 0;
    let mut j: usize = 0;
    proof {
        assert(f.take(0) =~= Seq::<(Seq<char>, i64)>::empty());
        assert(merge_counts(m0, Map::empty()) =~= m0);
    }
    while j < files.len()
        invariant
            f == files@,
            0 <= w0@,
            distinct_keys(f),
            w0@ + files_weight(f) <= count_limit(),
            j <= f.len(),
            touches == files_total(f.take(j as int)),
            abs(touches as int) <= files_weight(f.take(j as int)),
            files_weight(f.take(j as int)) <= files_weight(f),
            distinct_keys(key_view(acc@)),
            files_weight(key_view(acc@)) <= w0@ + files_weight(f.take(j as int)),
            files_map(key_view(acc@)) == merge_counts(m0, files_map(f.take(j as int))),
        decreases f.len() - j,
    {
        proof {
            assert(f.take(j + 1).drop_last() =~= f.take(j as int));
            assert(f.take(j + 1).last() == f[j as int]);
            lemma_files_weight_mono(f, j + 1);
            lemma_key_index(f.take(j as int), f[j as int].0);
            assert forall|q: int| 0 <= q < j implies f.take(j as int)[q].0 != f[j as int].0 by {
                assert(f[q].0 != f[j as int].0);
            }
        }
        let key = chars_of(files.path(j).as_str());
        let n = files.count(j);
        touches = touches + n;
        merge_one(acc, key, n);
        proof {
            lemma_merge_insert(m0, files_map(f.take(j as int)), f[j as int].0, n as int);
        }
        j += 1;
    }
    proof {
        assert(f.take(f.len() as int) =~= f);
    }
    touches
}

/// Digest one explicit window (zoom's header and children reuse this).
pub fn digest(
    day_rows: &DayMap<DayStats>,
    obs_per_day: &DayMap<i64>,
    start: u64,
    end: u64,
    label: String,
    span: String,
    handle: String,
) -> (b: Band)
    ensures
        b.label == label,
        b.span == span,
        b.handle == handle,
        b.start == start,
        b.end == end,
        digests(day_rows@, obs_per_day@, b),
{
    proof {
        use_type_invariant(day_rows);
        use_type_invariant(obs_per_day);
    }
    let ghost rows = day_rows@;
    let ghost s0 = start as int;
    let ghost e0 = end as int;
    let mut tools: i64 = 0;
    let mut fails: i64 = 0;
    let mut commits: i64 = 0;
    let mut sessions: i64 = 0;
    let mut touches: i64 = 0;
    let mut acc: Vec<(Vec<char>, i64)> = Vec::new();
    let mut i: usize = 0;
    while i < day_rows.len()
        invariant
            rows == day_rows@,
            s0 == start,
            e0 == end,
            rows_weight(rows) <= count_limit(),
            i <= rows.len(),
            tools == window_sum(rows.take(i as int), s0, e0, Stat::Tools),
            fails == window_sum(rows.take(i as int), s0, e0, Stat::Fails),
            commits == window_sum(rows.take(i as int), s0, e0, Stat::Commits),
            sessions == window_sum(rows.take(i as int), s0, e0, Stat::Sessions),
            touches == window_sum(rows.take(i as int), s0, e0, Stat::Touches),
            abs(tools as int) <= rows_weight(rows.take(i as int)),
            abs(fails as int) <= rows_weight(rows.take(i as int)),
            abs(commits as int) <= rows_weight(rows.take(i as int)),
            abs(sessions as int) <= rows_weight(rows.take(i as int)),
            abs(touches as int) <= rows_weight(rows.take(i as int)),
            distinct_keys(key_view(acc@)),
            files_weight(key_view(acc@)) <= rows_weight(rows.take(i as int)),
            files_map(key_view(acc@)) == window_files(rows.take(i as int), s0, e0),
        decreases rows.len() - i,
    {
        proof {
            lemma_window_step(rows, i as int, s0, e0);
            lemma_rows_weight_take(rows, i + 1);
            let t = rows.take(i + 1);
            let p = rows.take(i as int);
            assert(window_sum(t, s0, e0, Stat::Tools) == window_sum(p, s0, e0, Stat::Tools) + if s0 <= rows[i as int].0 <= e0 { stat(rows[i as int].1, Stat::Tools) } else { 0 });
            assert(window_sum(t, s0, e0, Stat::Fails) == window_sum(p, s0, e0, Stat::Fails) + if s0 <= rows[i as int].0 <= e0 { stat(rows[i as int].1, Stat::Fails) } else { 0 });
            assert(window_sum(t, s0, e0, Stat::Commits) == window_sum(p, s0, e0, Stat::Commits) + if s0 <= rows[i as int].0 <= e0 { stat(rows[i as int].1, Stat::Commits) } else { 0 });
            assert(window_sum(t, s0, e0, Stat::Sessions) == window_sum(p, s0, e0, Stat::Sessions) + if s0 <= rows[i as int].0 <= e0 { stat(rows[i as int].1, Stat::Sessions) } else { 0 });
            assert(window_sum(t, s0, e0, Stat::Touches) == window_sum(p, s0, e0, Stat::Touches) + if s0 <= rows[i as int].0 <= e0 { stat(rows[i as int].1, Stat::Touches) } else { 0 });
        }
        let k = day_rows.key(i);
        let s = day_rows.value(i);
        if start <= k && k <= end {
            proof {
                lemma_files_total_bound(s.files@);
                use_type_invariant(&s.files);
            }
            tools = tools + s.tools;
            fails = fails + s.fails;
            commits = commits + s.commits;
            sessions = sessions + s.sessions;
            let n = merge_day(&mut acc, &s.files, Ghost(rows_weight(rows.take(i as int)) as int));
            touches = touches + n;
        }
        i += 1;
    }
    proof {
        assert(rows.take(rows.len() as int) =~= rows);
    }
    let mut obs: i64 = 0;
    let ghost orows = obs_per_day@;
    let mut i: usize = 0;
    while i < obs_per_day.len()
        invariant
            orows == obs_per_day@,
            s0 == start,
            e0 == end,
            rows_weight(orows) <= count_limit(),
            i <= orows.len(),
            obs == window_count(orows.take(i as int), s0, e0),
            abs(obs as int) <= rows_weight(orows.take(i as int)),
        decreases orows.len() - i,
    {
        proof {
            lemma_count_step(orows, i as int, s0, e0);
            lemma_rows_weight_take(orows, i + 1);
        }
        let k = obs_per_day.key(i);
        if start <= k && k <= end {
            obs = obs + *obs_per_day.value(i);
        }
        i += 1;
    }
    proof {
        assert(orows.take(orows.len() as int) =~= orows);
    }
    let files = dominant_files(&acc, touches);
    Band { label, span, handle, start, end, tools, fails, commits, sessions, obs, files }
}

/// `k` of entry `i` is the top of the accumulator's map.
pub proof fn lemma_best_is_top(s: Seq<(Seq<char>, i64)>, i: int, skip: Option<usize>)
    requires
        distinct_keys(s),
        0 <= i < s.len(),
        skip is None || skip->0 != i,
        skip matches Some(x) ==> x < s.len(),
        forall|j: int| 0 <= j < s.len() && j != i && (skip is None || skip->0 != j) ==> ranks_before(
            (s[i].0, s[i].1 as int),
            (s[j].0, s[j].1 as int),
        ),
    ensures
        ({
            let m = if let Some(x) = skip { files_map(s).remove(s[x as int].0) } else { files_map(s) };
            top_file(m) == Some(s[i].0)
        }),
{
    let m = if let Some(x) = skip { files_map(s).remove(s[x as int].0) } else { files_map(s) };
    lemma_key_index(s, s[i].0);
    if key_index(s, s[i].0) != i {
        assert(s[key_index(s, s[i].0)].0 == s[i].0);
    }
    assert forall|o: Seq<char>| #[trigger] m.contains_key(o) && o != s[i].0 implies ranks_before(
        (s[i].0, m[s[i].0]),
        (o, m[o]),
    ) by {
        lemma_key_index(s, o);
        let j = key_index(s, o);
        if let Some(x) = skip {
            if j == x as int {
                assert(false);
            }
        }
    }
    assert(is_top(m, s[i].0));
    let c = choose|k: Seq<char>| is_top(m, k);
    if c != s[i].0 {
        lemma_lex_asymmetric(c, s[i].0);
        assert(ranks_before((c, m[c]), (s[i].0, m[s[i].0])));
        assert(ranks_before((s[i].0, m[s[i].0]), (c, m[c])));
    }
}

/// The band's dominant files from the merged touch counts.
fn dominant_files(acc: &Vec<(Vec<char>, i64)>, touches: i64) -> (r: Vec<String>)
    requires
        distinct_keys(key_view(acc@)),
        files_weight(key_view(acc@)) <= count_limit(),
        abs(touches as int) <= count_limit(),
    ensures
        r@.map_values(|f: String| f@) == band_files(files_map(key_view(acc@)), touches as int),
{
    let ghost s = key_view(acc@);
    let ghost m = files_map(s);
    let mut out: Vec<String> = Vec::new();
    match best_entry(acc, None) {
        None => {
            proof {
                assert forall|k: Seq<char>| !is_top(m, k) by {
                    lemma_key_index(s, k);
                }
            }
            assert(out@.map_values(|f: String| f@) =~= Seq::<Seq<char>>::empty());
            out
        },
        Some(i) => {
            proof {
                lemma_best_is_top(s, i as int, None);
                lemma_key_index(s, s[i as int].0);
                lemma_files_weight_update(s, i as int, s[i as int]);
                if key_index(s, s[i as int].0) != i {
                    assert(s[key_index(s, s[i as int].0)].0 == s[i as int].0);
                }
            }
            let n1 = acc[i].1;
            if n1 * 4 >= touches {
                out.push(short_path(string_of(&acc[i].0).as_str()));
            }
            let ghost first = out@.map_values(|f: String| f@);
            match best_entry(acc, Some(i)) {
                None => {
                    proof {
                        let m2 = m.remove(s[i as int].0);
                        assert forall|k: Seq<char>| !is_top(m2, k) by {
                            lemma_key_index(s, k);
                        }
                    }
                },
                Some(j) => {
                    proof {
                        lemma_best_is_top(s, j as int, Some(i));
                        lemma_key_index(s, s[j as int].0);
                        lemma_files_weight_update(s, j as int, s[j as int]);
                        if key_index(s, s[j as int].0) != j {
                            assert(s[key_index(s, s[j as int].0)].0 == s[j as int].0);
                        }
                    }
                    let n2 = acc[j].1;
                    if n2 * 4 >= touches {
                        out.push(short_path(string_of(&acc[j].0).as_str()));
                        assert(out@.map_values(|f: String| f@) =~= first.push(
                            short_path_spec(s[j as int].0),
                        ));
                    }
                },
            }
            out
        },
    }
}


// ---------------------------------------------------------------- the ladder

pub open spec fn max(a: int, b: int) -> int {
    if a >= b { a } else { b }
}

/// ISO (year, week) of day `b`.
pub open spec fn iso_week_of(b: int) -> (int, int) {
    let t = iso_thursday(b);
    let y = civil_of(t).y as int;
    (y, (t - days_before_year(y)) / 7 + 1)
}

/// First day of the calendar unit of ladder rung `rung` that contains day
/// `end`: its week's Monday (rungs 0 and 1), month (2, 3), quarter (4, 5),
/// year (6 on).
pub open spec fn unit_start(end: int, rung: int) -> int {
    let c = civil_of(end);
    if rung <= 1 {
        end - (end + 3) % 7
    } else if rung <= 3 {
        days_from_civil(c.y as int, c.m as int, 1)
    } else if rung <= 5 {
        days_from_civil(c.y as int, (c.m - 1) / 3 * 3 + 1, 1)
    } else {
        days_from_civil(c.y as int, 1, 1)
    }
}

pub open spec fn peat_prefix() -> Seq<char> {
    seq!['p', 'e', 'a', 't', ' ']
}

/// `(label, span, handle)` of a ladder band on rung `rung` over
/// `start..=end`: `w33` · `aug 10–14` · `peat 2026-w33`; `jul` ·
/// `peat 2026-07`; `q2` · `peat 2026-q2`; `2025` · `peat 2025`.
pub open spec fn band_text(rung: int, start: int, end: int) -> (Seq<char>, Seq<char>, Seq<char>) {
    let c = civil_of(end);
    let (y, m) = (c.y as nat, c.m as int);
    if rung <= 1 {
        let (wy, wn) = iso_week_of(end);
        let s = civil_of(start);
        (
            seq!['w'] + dec(wn as nat),
            month_abbr(s.m as int) + seq![' '] + dec(s.d as nat) + seq!['–'] + dec(c.d as nat),
            peat_prefix() + dec(wy as nat) + seq!['-', 'w'] + dec(wn as nat),
        )
    } else if rung <= 3 {
        (month_abbr(m), Seq::empty(), peat_prefix() + pad(y, 4) + seq!['-'] + pad(m as nat, 2))
    } else if rung <= 5 {
        let q = ((m - 1) / 3 + 1) as nat;
        (seq!['q'] + dec(q), Seq::empty(), peat_prefix() + dec(y) + seq!['-', 'q'] + dec(q))
    } else {
        (dec(y), Seq::empty(), peat_prefix() + dec(y))
    }
}

/// `(label, span, handle)` of the terminal band that swallows the rest of
/// the past: `earlier` · `may 29 2026 – aug 2 2026` ·
/// `peat 2026-05-29..2026-08-02`.
pub open spec fn terminal_text(start: int, end: int) -> (Seq<char>, Seq<char>, Seq<char>) {
    let s = civil_of(start);
    let e = civil_of(end);
    (
        seq!['e', 'a', 'r', 'l', 'i', 'e', 'r'],
        date_words(s) + seq![' ', '–', ' '] + date_words(e),
        peat_prefix() + iso_date(s) + seq!['.', '.'] + iso_date(e),
    )
}

/// `aug 2 2026`
pub open spec fn date_words(c: Civil) -> Seq<char> {
    month_abbr(c.m as int) + seq![' '] + dec(c.d as nat) + seq![' '] + dec(c.y as nat)
}

/// `2026-08-02`
pub open spec fn iso_date(c: Civil) -> Seq<char> {
    pad(c.y as nat, 4) + seq!['-'] + pad(c.m as nat, 2) + seq!['-'] + pad(c.d as nat, 2)
}

fn push_date_words(out: &mut Vec<char>, c: Civil)
    requires
        1 <= c.m <= 12,
        0 <= c.y,
    ensures
        final(out)@ == old(out)@ + date_words(c),
{
    push_month(out, c.m);
    out.push(' ');
    push_dec(out, c.d as u64);
    out.push(' ');
    push_dec(out, c.y as u64);
    assert(out@ =~= old(out)@ + date_words(c));
}

/// Appends `YYYY-MM-DD`.
pub fn push_iso_date(out: &mut Vec<char>, c: Civil)
    requires
        0 <= c.y,
    ensures
        final(out)@ == old(out)@ + iso_date(c),
{
    push_pad(out, c.y as u64, 4);
    out.push('-');
    push_pad(out, c.m as u64, 2);
    out.push('-');
    push_pad(out, c.d as u64, 2);
    assert(out@ =~= old(out)@ + iso_date(c));
}

/// Band `b` is rung `rung` of a ladder whose oldest day is `oldest`.
pub open spec fn rung_band(rows: Seq<(u64, DayStats)>, obs: Seq<(u64, i64)>, oldest: int, rung: int, b: Band) -> bool {
    &&& digests(rows, obs, b)
    &&& b.start == max(unit_start(b.end as int, rung), oldest)
    &&& (b.label@, b.span@, b.handle@) == band_text(rung, b.start as int, b.end as int)
}

/// Band `b` is the terminal band of a ladder whose oldest day is `oldest`.
pub open spec fn terminal_band(rows: Seq<(u64, DayStats)>, obs: Seq<(u64, i64)>, oldest: int, b: Band) -> bool {
    &&& digests(rows, obs, b)
    &&& b.start == oldest
    &&& (b.label@, b.span@, b.handle@) == terminal_text(b.start as int, b.end as int)
}

/// The weekly rungs of the ladder over `rows` end on or after day 4, the
/// first Monday of 1970: a week's start before it cannot be reckoned in
/// day numbers. The first rung is weekly when the budget leaves room for
/// more than the terminal band, and the second when it leaves room for
/// three bands and the first week does not reach back to the oldest day.
pub open spec fn weekly_rungs_ok(rows: Seq<(u64, DayStats)>, frontier: int, budget: int) -> bool {
    rows.len() == 0 || frontier == 0 || rows[0].0 >= frontier || {
        let oldest = rows[0].0 as int;
        let e0 = frontier - 1;
        &&& budget >= 2 ==> e0 >= 4
        &&& (budget >= 3 && e0 >= 4 && unit_start(e0, 0) > oldest) ==> unit_start(e0, 0) - 1 >= 4
    }
}

/// What [`bands`] returns: newest first, the bands tile `oldest..frontier`
/// exactly (no gaps, no overlaps); every band before the budget's last
/// slot is its rung's calendar unit, and a band in that last slot swallows
/// the rest of the past.
pub open spec fn ladder(
    rows: Seq<(u64, DayStats)>,
    obs: Seq<(u64, i64)>,
    frontier: int,
    budget: int,
    r: Seq<Band>,
) -> bool {
    if rows.len() == 0 || frontier == 0 || rows[0].0 >= frontier {
        r.len() == 0
    } else {
        let oldest = rows[0].0 as int;
        &&& 1 <= r.len() <= max(budget, 1)
        &&& forall|i: int| 0 <= i < r.len() ==> #[trigger] r[i].start <= r[i].end
        &&& r[0].end == frontier - 1
        &&& forall|i: int| 0 <= i < r.len() - 1 ==> #[trigger] r[i + 1].end + 1 == r[i].start
        &&& r.last().start == oldest
        &&& forall|i: int|
            0 <= i < r.len() ==> if i + 1 >= budget {
                terminal_band(rows, obs, oldest, #[trigger] r[i])
            } else {
                rung_band(rows, obs, oldest, i, r[i])
            }
    }
}

fn push_peat(out: &mut Vec<char>)
    ensures
        final(out)@ == old(out)@ + peat_prefix(),
{
    out.push('p');
    out.push('e');
    out.push('a');
    out.push('t');
    out.push(' ');
    assert(out@ =~= old(out)@ + peat_prefix());
}

pub proof fn lemma_civil_nonneg(y: int, m: int)
    requires
        1970 <= y,
        1 <= m <= 12,
    ensures
        0 <= days_before_year(y) <= days_from_civil(y, m, 1),
{
    if y > 1970 {
        crate::civil::lemma_year_order(1969, y);
    }
}

/// Label, span and handle of a rung band (see [`band_text`]).
fn rung_text(rung: usize, start: u64, end: u64) -> (r: (String, String, String))
    requires
        day_ok(start as int),
        day_ok(end as int),
        start <= end,
    ensures
        (r.0@, r.1@, r.2@) == band_text(rung as int, start as int, end as int),
{
    let c = Civil::from_bucket(end);
    let mut label: Vec<char> = Vec::new();
    let mut span: Vec<char> = Vec::new();
    let mut handle: Vec<char> = Vec::new();
    push_peat(&mut handle);
    if rung <= 1 {
        let (wy, wn) = c.iso_week();
        proof {
            lemma_civil_of(iso_thursday(end as int));
        }
        let s = Civil::from_bucket(start);
        label.push('w');
        push_dec(&mut label, wn as u64);
        push_month(&mut span, s.m);
        span.push(' ');
        push_dec(&mut span, s.d as u64);
        span.push('–');
        push_dec(&mut span, c.d as u64);
        push_dec(&mut handle, wy as u64);
        handle.push('-');
        handle.push('w');
        push_dec(&mut handle, wn as u64);
        assert(label@ =~= seq!['w'] + dec(wn as nat));
        assert(span@ =~= month_abbr(s.m as int) + seq![' '] + dec(s.d as nat) + seq!['–'] + dec(c.d as nat));
        assert(handle@ =~= peat_prefix() + dec(wy as nat) + seq!['-', 'w'] + dec(wn as nat));
    } else if rung <= 3 {
        push_month(&mut label, c.m);
        push_pad(&mut handle, c.y as u64, 4);
        handle.push('-');
        push_pad(&mut handle, c.m as u64, 2);
        assert(label@ =~= month_abbr(c.m as int));
        assert(handle@ =~= peat_prefix() + pad(c.y as nat, 4) + seq!['-'] + pad(c.m as nat, 2));
    } else if rung <= 5 {
        let q = (c.m - 1) / 3 + 1;
        label.push('q');
        push_dec(&mut label, q as u64);
        push_dec(&mut handle, c.y as u64);
        handle.push('-');
        handle.push('q');
        push_dec(&mut handle, q as u64);
        assert(label@ =~= seq!['q'] + dec(q as nat));
        assert(handle@ =~= peat_prefix() + dec(c.y as nat) + seq!['-', 'q'] + dec(q as nat));
    } else {
        push_dec(&mut label, c.y as u64);
        push_dec(&mut handle, c.y as u64);
        assert(handle@ =~= peat_prefix() + dec(c.y as nat));
    }
    (string_of(&label), string_of(&span), string_of(&handle))
}

/// Label, span and handle of the terminal band (see [`terminal_text`]).
fn terminal_texts(start: u64, end: u64) -> (r: (String, String, String))
    requires
        day_ok(start as int),
        day_ok(end as int),
    ensures
        (r.0@, r.1@, r.2@) == terminal_text(start as int, end as int),
{
    let s = Civil::from_bucket(start);
    let e = Civil::from_bucket(end);
    let mut label: Vec<char> = Vec::new();
    label.push('e');
    label.push('a');
    label.push('r');
    label.push('l');
    label.push('i');
    label.push('e');
    label.push('r');
    let mut span: Vec<char> = Vec::new();
    push_date_words(&mut span, s);
    span.push(' ');
    span.push('–');
    span.push(' ');
    push_date_words(&mut span, e);
    let mut handle: Vec<char> = Vec::new();
    push_peat(&mut handle);
    push_iso_date(&mut handle, s);
    handle.push('.');
    handle.push('.');
    push_iso_date(&mut handle, e);
    assert(label@ =~= seq!['e', 'a', 'r', 'l', 'i', 'e', 'r']);
    assert(span@ =~= date_words(s) + seq![' ', '–', ' '] + date_words(e));
    assert(handle@ =~= peat_prefix() + iso_date(s) + seq!['.', '.'] + iso_date(e));
    (string_of(&label), string_of(&span), string_of(&handle))
}

/// First day of rung `rung`'s calendar unit containing `end`.
fn rung_start(rung: usize, end: u64) -> (s: u64)
    requires
        day_ok(end as int),
        rung <= 1 ==> end >= 4,
    ensures
        s == unit_start(end as int, rung as int),
        s <= end,
{
    let c = Civil::from_bucket(end);
    proof {
        lemma_civil_nonneg(c.y as int, c.m as int);
        lemma_civil_nonneg(c.y as int, ((c.m - 1) / 3 * 3 + 1) as int);
        lemma_civil_nonneg(c.y as int, 1);
        crate::civil::lemma_date_in_year(c.y as int, c.m as int, c.d as int);
    }
    if rung <= 1 {
        end - c.weekday() as u64
    } else if rung <= 3 {
        c.month_start().bucket()
    } else if rung <= 5 {
        c.quarter_start().bucket()
    } else {
        Civil { y: c.y, m: 1, d: 1 }.bucket()
    }
}

/// The ladder walk: starting the day before `frontier`, emit 2 windows per
/// rung (week → month → quarter), then years, stopping at the ledger's
/// oldest day, or with one terminal band for the rest of the past once the
/// budget is down to its last band. Bands tile `[oldest ..= frontier-1]`
/// exactly: no gaps, no overlaps.
pub fn bands(
    day_rows: &DayMap<DayStats>,
    obs_per_day: &DayMap<i64>,
    frontier: u64,
    budget: usize,
) -> (r: Vec<Band>)
    requires
        day_ok(frontier as int),
        weekly_rungs_ok(day_rows@, frontier as int, budget as int),
    ensures
        ladder(day_rows@, obs_per_day@, frontier as int, budget as int, r@),
{
    proof {
        use_type_invariant(day_rows);
    }
    let ghost rows = day_rows@;
    let ghost obs = obs_per_day@;
    let oldest = match day_rows.first_key() {
        Some(k) => k,
        None => return Vec::new(),
    };
    if frontier == 0 || oldest >= frontier {
        return Vec::new();
    }
    let mut out: Vec<Band> = Vec::new();
    let mut end: u64 = frontier - 1;
    let mut rung: usize = 0;
    loop
        invariant_except_break
            rows == day_rows@,
            obs == obs_per_day@,
            rows.len() > 0,
            oldest == rows[0].0,
            oldest < frontier,
            day_ok(frontier as int),
            weekly_rungs_ok(rows, frontier as int, budget as int),
            oldest <= end < frontier,
            rung == out@.len(),
            rung <= 1 && rung + 1 < budget ==> end >= 4,
            rung == 1 ==> end + 1 == unit_start(frontier - 1, 0) && end + 1 > oldest,
            rung == 0 ==> end == frontier - 1,
            out@.len() == 0 || out@.len() < budget,
            out@.len() > 0 ==> end + 1 == out@.last().start,
            out@.len() > 0 ==> out@[0].end == frontier - 1,
            forall|i: int| 0 <= i < out@.len() - 1 ==> #[trigger] out@[i + 1].end + 1 == out@[i].start,
            forall|i: int| 0 <= i < out@.len() ==> #[trigger] out@[i].start <= out@[i].end,
            forall|i: int|
                0 <= i < out@.len() ==> i + 1 < budget && rung_band(
                    rows,
                    obs,
                    oldest as int,
                    i,
                    #[trigger] out@[i],
                ) && out@[i].start > oldest,
        ensures
            ladder(rows, obs, frontier as int, budget as int, out@),
        decreases end,
    {
        if out.len() + 1 >= budget {
            let (label, span, handle) = terminal_texts(oldest, end);
            let b = digest(day_rows, obs_per_day, oldest, end, label, span, handle);
            let ghost before = out@;
            out.push(b);
            proof {
                assert forall|i: int| 0 <= i < out@.len() - 1 implies #[trigger] out@[i + 1].end + 1 == out@[i].start by {
                    if i + 1 < before.len() {
                        assert(out@[i + 1] == before[i + 1] && out@[i] == before[i]);
                    }
                }
                assert forall|i: int| 0 <= i < out@.len() implies #[trigger] out@[i].start <= out@[i].end by {
                    if i < before.len() {
                        assert(out@[i] == before[i]);
                    }
                }
            }
            break;
        }
        let start0 = rung_start(rung, end);
        let start = if start0 > oldest { start0 } else { oldest };
        let (label, span, handle) = rung_text(rung, start, end);
        let b = digest(day_rows, obs_per_day, start, end, label, span, handle);
        let ghost before = out@;
        out.push(b);
        proof {
            assert forall|i: int| 0 <= i < out@.len() - 1 implies #[trigger] out@[i + 1].end + 1 == out@[i].start by {
                if i + 1 < before.len() {
                    assert(out@[i + 1] == before[i + 1] && out@[i] == before[i]);
                }
            }
            assert forall|i: int| 0 <= i < out@.len() implies #[trigger] out@[i].start <= out@[i].end by {
                if i < before.len() {
                    assert(out@[i] == before[i]);
                }
            }
        }
        if start == 0 || start <= oldest {
            break;
        }
        end = start - 1;
        rung += 1;
    }
    out
}

// ---------------------------------------------------------------- children

/// How a window of `days` days splits one rung finer.
pub enum ChildKind {
    Days,
    Weeks,
    Months,
}

pub open spec fn child_kind(days: int) -> ChildKind {
    if days <= 7 {
        ChildKind::Days
    } else if days <= 31 {
        ChildKind::Weeks
    } else {
        ChildKind::Months
    }
}

/// Last day of the child unit (day, week, month) that starts at `b`.
pub open spec fn child_unit_end(kind: ChildKind, b: int) -> int {
    match kind {
        ChildKind::Days => b,
        ChildKind::Weeks => b + 6 - (b + 3) % 7,
        ChildKind::Months => {
            let c = civil_of(b);
            if c.m == 12 {
                days_from_civil(c.y + 1, 1, 1) - 1
            } else {
                days_from_civil(c.y as int, c.m + 1, 1) - 1
            }
        },
    }
}

/// `(label, handle)` of a child window `s..=e`: `aug 14` ·
/// `peat 2026-08-14`; `w33 · aug 10–16` · `peat 2026-w33`; `jul 2026` ·
/// `peat 2026-07`.
pub open spec fn child_text(kind: ChildKind, s: int, e: int) -> (Seq<char>, Seq<char>) {
    let c = civil_of(s);
    match kind {
        ChildKind::Days => (month_abbr(c.m as int) + seq![' '] + dec(c.d as nat), peat_prefix() + iso_date(c)),
        ChildKind::Weeks => {
            let (wy, wn) = iso_week_of(s);
            let ec = civil_of(e);
            (
                seq!['w'] + dec(wn as nat) + seq![' ', '·', ' '] + month_abbr(c.m as int) + seq![' ']
                    + dec(c.d as nat) + seq!['–'] + dec(ec.d as nat),
                peat_prefix() + dec(wy as nat) + seq!['-', 'w'] + dec(wn as nat),
            )
        },
        ChildKind::Months => (
            month_abbr(c.m as int) + seq![' '] + dec(c.y as nat),
            peat_prefix() + pad(c.y as nat, 4) + seq!['-'] + pad(c.m as nat, 2),
        ),
    }
}

pub open spec fn min(a: int, b: int) -> int {
    if a <= b { a } else { b }
}

/// One child window `(start, end, label, handle)` of kind `kind`, clipped
/// at `end`.
pub open spec fn child_ok(kind: ChildKind, end: int, c: (u64, u64, String, String)) -> bool {
    &&& c.1 == min(child_unit_end(kind, c.0 as int), end)
    &&& (c.2@, c.3@) == child_text(kind, c.0 as int, c.1 as int)
}

/// The children of `start..=end` tile it exactly, in order.
pub open spec fn tiles(start: int, end: int, r: Seq<(u64, u64, String, String)>) -> bool {
    &&& r.len() >= 1
    &&& r[0].0 == start
    &&& r.last().1 == end
    &&& forall|i: int| 0 <= i < r.len() - 1 ==> #[trigger] r[i + 1].0 == r[i].1 + 1
    &&& forall|i: int| 0 <= i < r.len() ==> #[trigger] r[i].0 <= r[i].1
}

#[verifier::rlimit(40)]
#[verifier::spinoff_prover]
fn child_at(kind: u8, b: u64, end: u64) -> (c: (u64, u64, String, String))
    requires
        kind <= 2,
        b <= end,
        day_ok(end as int),
    ensures
        c.0 == b,
        b <= c.1 <= end,
        child_ok(if kind == 0 { ChildKind::Days } else if kind == 1 { ChildKind::Weeks } else { ChildKind::Months }, end as int, c),
{
    let c = Civil::from_bucket(b);
    let mut label: Vec<char> = Vec::new();
    let mut handle: Vec<char> = Vec::new();
    push_peat(&mut handle);
    if kind == 0 {
        push_month(&mut label, c.m);
        label.push(' ');
        push_dec(&mut label, c.d as u64);
        push_iso_date(&mut handle, c);
        assert(label@ =~= month_abbr(c.m as int) + seq![' '] + dec(c.d as nat));
        assert(handle@ =~= peat_prefix() + iso_date(c));
        (b, b, string_of(&label), string_of(&handle))
    } else if kind == 1 {
        let wd = c.weekday() as u64;
        let wk_end = if b + 6 - wd < end { b + 6 - wd } else { end };
        let (wy, wn) = c.iso_week();
        proof {
            lemma_civil_of(iso_thursday(b as int));
        }
        let e = Civil::from_bucket(wk_end);
        label.push('w');
        push_dec(&mut label, wn as u64);
        label.push(' ');
        label.push('·');
        label.push(' ');
        push_month(&mut label, c.m);
        label.push(' ');
        push_dec(&mut label, c.d as u64);
        label.push('–');
        push_dec(&mut label, e.d as u64);
        push_dec(&mut handle, wy as u64);
        handle.push('-');
        handle.push('w');
        push_dec(&mut handle, wn as u64);
        assert(label@ =~= seq!['w'] + dec(wn as nat) + seq![' ', '·', ' '] + month_abbr(c.m as int) + seq![' ']
            + dec(c.d as nat) + seq!['–'] + dec(e.d as nat));
        assert(handle@ =~= peat_prefix() + dec(wy as nat) + seq!['-', 'w'] + dec(wn as nat));
        (b, wk_end, string_of(&label), string_of(&handle))
    } else {
        let m = c.month_start();
        let next = if m.m == 12 { Civil { y: m.y + 1, m: 1, d: 1 } } else { Civil { y: m.y, m: m.m + 1, d: 1 } };
        proof {
            crate::civil::lemma_date_in_year(c.y as int, c.m as int, c.d as int);
            crate::civil::lemma_leaps_step(c.y + 1);
            lemma_civil_nonneg(next.y as int, next.m as int);
            if next.days() <= b {
                assert(false);
            }
        }
        let nb = next.bucket();
        let m_end = if nb - 1 < end { nb - 1 } else { end };
        push_month(&mut label, m.m);
        label.push(' ');
        push_dec(&mut label, m.y as u64);
        push_pad(&mut handle, m.y as u64, 4);
        handle.push('-');
        push_pad(&mut handle, m.m as u64, 2);
        assert(label@ =~= month_abbr(c.m as int) + seq![' '] + dec(c.y as nat));
        assert(handle@ =~= peat_prefix() + pad(c.y as nat, 4) + seq!['-'] + pad(c.m as nat, 2));
        (b, m_end, string_of(&label), string_of(&handle))
    }
}

/// Children of a window, one rung finer: a window over a month long splits
/// into months, over a week into weeks, over a day into days; a single day
/// has none (the caller lists its sessions).
pub fn children(start: u64, end: u64) -> (r: Vec<(u64, u64, String, String)>)
    requires
        start <= end,
        day_ok(end as int),
    ensures
        end - start + 1 <= 1 ==> r@.len() == 0,
        end - start + 1 > 1 ==> tiles(start as int, end as int, r@) && forall|i: int|
            0 <= i < r@.len() ==> child_ok(child_kind(end - start + 1), end as int, #[trigger] r@[i]),
{
    let days = end - start + 1;
    let mut out: Vec<(u64, u64, String, String)> = Vec::new();
    if days <= 1 {
        return out;
    }
    let kind: u8 = if days <= 7 { 0 } else if days <= 31 { 1 } else { 2 };
    let ghost k = child_kind(end - start + 1);
    let mut b = start;
    while b <= end
        invariant
            kind <= 2,
            k == (if kind == 0 { ChildKind::Days } else if kind == 1 { ChildKind::Weeks } else { ChildKind::Months }),
            start <= b <= end + 1,
            day_ok(end as int),
            out@.len() == 0 ==> b == start,
            out@.len() > 0 ==> out@[0].0 == start && out@.last().1 + 1 == b,
            forall|i: int| 0 <= i < out@.len() - 1 ==> #[trigger] out@[i + 1].0 == out@[i].1 + 1,
            forall|i: int| 0 <= i < out@.len() ==> #[trigger] out@[i].0 <= out@[i].1,
            forall|i: int| 0 <= i < out@.len() ==> child_ok(k, end as int, #[trigger] out@[i]),
        decreases end + 1 - b,
    {
        let c = child_at(kind, b, end);
        let next = c.1 + 1;
        let ghost before = out@;
        out.push(c);
        proof {
            assert forall|i: int| 0 <= i < out@.len() - 1 implies #[trigger] out@[i + 1].0 == out@[i].1 + 1 by {
                if i + 1 < before.len() {
                    assert(out@[i + 1] == before[i + 1] && out@[i] == before[i]);
                }
            }
            assert forall|i: int| 0 <= i < out@.len() implies child_ok(k, end as int, #[trigger] out@[i]) by {
                if i < before.len() {
                    assert(out@[i] == before[i]);
                }
            }
            assert forall|i: int| 0 <= i < out@.len() implies #[trigger] out@[i].0 <= out@[i].1 by {
                if i < before.len() {
                    assert(out@[i] == before[i]);
                }
            }
        }
        b = next;
    }
    out
}

// ---------------------------------------------------------------- ladder sums

/// A band's total of `which` (file touches are not totalled on bands).
pub open spec fn band_stat(b: Band, which: Stat) -> int {
    match which {
        Stat::Sessions => b.sessions as int,
        Stat::Tools => b.tools as int,
        Stat::Fails => b.fails as int,
        Stat::Commits => b.commits as int,
        Stat::Touches => 0,
    }
}

/// The bands `r[k..]`, summed on `which`.
pub open spec fn bands_total(r: Seq<Band>, k: int, which: Stat) -> int
    decreases r.len() - k,
{
    if k >= r.len() || k < 0 {
        0
    } else {
        band_stat(r[k], which) + bands_total(r, k + 1, which)
    }
}

/// The bands `r[k..]`, summed on their observation counts.
pub open spec fn bands_obs(r: Seq<Band>, k: int) -> int
    decreases r.len() - k,
{
    if k >= r.len() || k < 0 {
        0
    } else {
        r[k].obs as int + bands_obs(r, k + 1)
    }
}

proof fn lemma_window_split(rows: Seq<(u64, DayStats)>, s: int, m: int, e: int, which: Stat)
    requires
        s <= m + 1,
        m <= e,
    ensures
        window_sum(rows, s, e, which) == window_sum(rows, s, m, which) + window_sum(rows, m + 1, e, which),
    decreases rows.len(),
{
    if rows.len() > 0 {
        lemma_window_split(rows.drop_last(), s, m, e, which);
    }
}

proof fn lemma_count_split(rows: Seq<(u64, i64)>, s: int, m: int, e: int)
    requires
        s <= m + 1,
        m <= e,
    ensures
        window_count(rows, s, e) == window_count(rows, s, m) + window_count(rows, m + 1, e),
    decreases rows.len(),
{
    if rows.len() > 0 {
        lemma_count_split(rows.drop_last(), s, m, e);
    }
}

proof fn lemma_bands_suffix(
    rows: Seq<(u64, DayStats)>,
    obs: Seq<(u64, i64)>,
    frontier: int,
    budget: int,
    r: Seq<Band>,
    k: int,
    which: Stat,
)
    requires
        ladder(rows, obs, frontier, budget, r),
        r.len() > 0,
        0 <= k < r.len(),
    ensures
        rows[0].0 <= r[k].start,
        (which !is Touches) ==> bands_total(r, k, which) == window_sum(rows, rows[0].0 as int, r[k].end as int, which),
        bands_obs(r, k) == window_count(obs, rows[0].0 as int, r[k].end as int),
    decreases r.len() - k,
{
    let oldest = rows[0].0 as int;
    let b = r[k];
    if k + 1 >= budget {
        assert(terminal_band(rows, obs, oldest, b));
    } else {
        assert(rung_band(rows, obs, oldest, k, b));
    }
    assert(digests(rows, obs, b));
    assert(b.start <= b.end);
    if k == r.len() - 1 {
        assert(b.start == oldest);
        assert(bands_total(r, k + 1, which) == 0);
        assert(bands_obs(r, k + 1) == 0);
    } else {
        lemma_bands_suffix(rows, obs, frontier, budget, r, k + 1, which);
        assert(r[k + 1].end + 1 == r[k].start);
        lemma_window_split(rows, oldest, r[k + 1].end as int, b.end as int, which);
        lemma_count_split(obs, oldest, r[k + 1].end as int, b.end as int);
    }
}

/// The ladder regroups the day rows and nothing else: its bands' totals
/// of sessions, tools, failures and commits are the day rows' totals from
/// the oldest day up to the frontier, and its observation counts are the
/// per-day observation counts over the same days.
pub proof fn law_bands_sum_the_days(
    rows: Seq<(u64, DayStats)>,
    obs: Seq<(u64, i64)>,
    frontier: int,
    budget: int,
    r: Seq<Band>,
    which: Stat,
)
    requires
        ladder(rows, obs, frontier, budget, r),
        r.len() > 0,
        which !is Touches,
    ensures
        bands_total(r, 0, which) == window_sum(rows, rows[0].0 as int, frontier - 1, which),
        bands_obs(r, 0) == window_count(obs, rows[0].0 as int, frontier - 1),
{
    lemma_bands_suffix(rows, obs, frontier, budget, r, 0, which);
}

// ---------------------------------------------------------------- budgets

/// Two bands agree on every field (texts and file names by their
/// characters).
pub open spec fn same_band(a: Band, b: Band) -> bool {
    &&& a.label@ == b.label@
    &&& a.span@ == b.span@
    &&& a.handle@ == b.handle@
    &&& a.start == b.start
    &&& a.end == b.end
    &&& a.tools == b.tools
    &&& a.fails == b.fails
    &&& a.commits == b.commits
    &&& a.sessions == b.sessions
    &&& a.obs == b.obs
    &&& a.files@.map_values(|f: String| f@) == b.files@.map_values(|f: String| f@)
}

proof fn lemma_reslice_prefix(
    rows: Seq<(u64, DayStats)>,
    obs: Seq<(u64, i64)>,
    frontier: int,
    b1: int,
    b2: int,
    r1: Seq<Band>,
    r2: Seq<Band>,
    i: int,
)
    requires
        1 <= b1 <= b2,
        ladder(rows, obs, frontier, b1, r1),
        ladder(rows, obs, frontier, b2, r2),
        r1.len() > 0,
        0 <= i < r1.len(),
    ensures
        i < r2.len(),
        r1[i].end == r2[i].end,
        i < r1.len() - 1 ==> same_band(r1[i], r2[i]),
    decreases i,
{
    let oldest = rows[0].0 as int;
    if i > 0 {
        lemma_reslice_prefix(rows, obs, frontier, b1, b2, r1, r2, i - 1);
        // band i - 1 is a rung band in both, so it starts at the same day
        assert(rung_band(rows, obs, oldest, i - 1, r1[i - 1]));
        assert(rung_band(rows, obs, oldest, i - 1, r2[i - 1]));
        assert(r1[i].end + 1 == r1[i - 1].start);
        assert(r1[i].start <= r1[i].end);
        if i - 1 + 1 >= b1 {
            assert(terminal_band(rows, obs, oldest, r1[i]) || rung_band(rows, obs, oldest, i, r1[i]));
        }
        assert(r1[i].start >= oldest) by {
            if i + 1 >= b1 {
                assert(terminal_band(rows, obs, oldest, r1[i]));
            } else {
                assert(rung_band(rows, obs, oldest, i, r1[i]));
            }
        }
        assert(r2[i - 1].start > oldest);
        if i - 1 == r2.len() - 1 {
            assert(r2.last().start == oldest);
        }
        assert(r2[i].end + 1 == r2[i - 1].start);
    }
    if i < r1.len() - 1 {
        assert(i + 1 < b1) by {
            if i + 1 >= b1 {
                assert(r1.len() <= b1);
            }
        }
        assert(rung_band(rows, obs, oldest, i, r1[i]));
        assert(rung_band(rows, obs, oldest, i, r2[i]));
    }
}

/// A change of budget only re-slices the same rows: with a larger budget,
/// every band before the smaller ladder's last is the same band, the
/// last ends on the same day, and both ladders reach back to the same
/// oldest day.
pub proof fn law_budget_reslices_only(
    rows: Seq<(u64, DayStats)>,
    obs: Seq<(u64, i64)>,
    frontier: int,
    b1: int,
    b2: int,
    r1: Seq<Band>,
    r2: Seq<Band>,
)
    requires
        1 <= b1 <= b2,
        ladder(rows, obs, frontier, b1, r1),
        ladder(rows, obs, frontier, b2, r2),
        r1.len() > 0,
    ensures
        r1.len() <= r2.len(),
        forall|i: int| 0 <= i < r1.len() - 1 ==> same_band(#[trigger] r1[i], r2[i]),
        r1.last().end == r2[r1.len() - 1].end,
        r1.last().start == r2.last().start,
{
    assert forall|i: int| 0 <= i < r1.len() - 1 implies same_band(#[trigger] r1[i], r2[i]) by {
        lemma_reslice_prefix(rows, obs, frontier, b1, b2, r1, r2, i);
    }
    lemma_reslice_prefix(rows, obs, frontier, b1, b2, r1, r2, r1.len() - 1);
}

} // verus!
