//! The shape-dispatch grammar for places in time. Strict on purpose —
//! anything that doesn't match is search words.
//!
//!   2026-08-14   day        2026-07  month     2026      year
//!   w33          ISO week (most recent ≤ now)  2026-w33  pinned week
//!   q3           quarter  (most recent ≤ now)  2026-q3   pinned quarter
//!   A..B         from the start of window A to the end of window B
//!
//! Day numbers are u64 buckets; dates before 1970 wrap below zero exactly
//! as the bucket arithmetic does, and the few inputs whose arithmetic
//! would leave u64 are reported by [`window_overflows`].
use vstd::prelude::*;

use crate::civil::{
    month_len, bucket_in_range, civil_of, day_ok, days_from_civil, iso_thursday, lemma_civil_of, lemma_year_bound,
    year_in_range, Civil,
};
use crate::ladder::{band_text, child_ok, iso_date, iso_week_of, ladder, rung_band, terminal_band, unit_start, Band, ChildKind};
use crate::pipeline::DayStats;
use crate::text::{dec, digit, month_abbr, pad, push_all, push_dec, push_month, slice_of, string_of};

verus! {

// ---------------------------------------------------------------- characters

/// ASCII lower-casing (`to_ascii_lowercase`); other characters unchanged.
pub open spec fn lower(c: char) -> char {
    if 'A' <= c <= 'Z' { ((c as u32) + 32) as char } else { c }
}

pub open spec fn lower_seq(s: Seq<char>) -> Seq<char> {
    s.map_values(|c: char| lower(c))
}

pub open spec fn is_digit(c: char) -> bool {
    '0' <= c <= '9'
}

pub open spec fn all_digits(s: Seq<char>) -> bool {
    forall|i: int| 0 <= i < s.len() ==> is_digit(#[trigger] s[i])
}

/// Decimal value of a digit string.
pub open spec fn digits_val(s: Seq<char>) -> nat
    decreases s.len(),
{
    if s.len() == 0 {
        0
    } else {
        digits_val(s.drop_last()) * 10 + ((s.last() as u32) - 48) as nat
    }
}

/// `u32::from_str`: an optional `+`, then one or more ASCII digits whose
/// value fits in a `u32`.
pub open spec fn parse_u32(s: Seq<char>) -> Option<u32> {
    let body = if s.len() > 0 && s[0] == '+' { s.drop_first() } else { s };
    if body.len() > 0 && all_digits(body) && digits_val(body) <= u32::MAX {
        Some(digits_val(body) as u32)
    } else {
        None
    }
}

/// Index of the first `c` in `s`, or -1.
pub open spec fn find_char(s: Seq<char>, c: char) -> int
    decreases s.len(),
{
    if s.len() == 0 {
        -1
    } else if s[0] == c {
        0
    } else {
        let r = find_char(s.drop_first(), c);
        if r < 0 { -1 } else { r + 1 }
    }
}

pub proof fn lemma_find_char(s: Seq<char>, c: char)
    ensures
        -1 <= find_char(s, c) < s.len(),
        find_char(s, c) >= 0 ==> s[find_char(s, c)] == c,
        forall|k: int| 0 <= k < s.len() && (find_char(s, c) < 0 || k < find_char(s, c)) ==> s[k] != c,
    decreases s.len(),
{
    if s.len() > 0 && s[0] != c {
        lemma_find_char(s.drop_first(), c);
        assert forall|k: int| 0 <= k < s.len() && (find_char(s, c) < 0 || k < find_char(s, c)) implies s[k] != c by {
            if k > 0 {
                assert(s[k] == s.drop_first()[k - 1]);
            }
        }
    }
}

/// `str::split('-')`: the pieces between dashes (empty pieces kept).
pub open spec fn split_dash(s: Seq<char>) -> Seq<Seq<char>>
    decreases s.len(),
{
    let i = find_char(s, '-');
    proof {
        lemma_find_char(s, '-');
    }
    if i < 0 {
        seq![s]
    } else {
        seq![s.take(i)] + split_dash(s.skip(i + 1))
    }
}

pub open spec fn dots_at(s: Seq<char>, k: int) -> bool {
    s[k] == '.' && s[k + 1] == '.'
}

/// Index of the first `..` in `s`, or -1 (`str::split_once("..")`).
pub open spec fn find_dots(s: Seq<char>) -> int
    decreases s.len(),
{
    if s.len() < 2 {
        -1
    } else if s[0] == '.' && s[1] == '.' {
        0
    } else {
        let r = find_dots(s.drop_first());
        if r < 0 { -1 } else { r + 1 }
    }
}

// ---------------------------------------------------------------- the grammar

/// What the window grammar makes of a string.
pub enum WinOut {
    /// not a window: search words
    NoMatch,
    /// a window whose bucket arithmetic leaves u64
    Overflow,
    /// `(start, end, label)`
    Win(u64, u64, Seq<char>),
}

pub open spec fn u64_wrap(x: int) -> int {
    if x >= 0 { x } else { x + 0x1_0000_0000_0000_0000 }
}

/// The bucket of `y-m-d`, wrapped into u64 before the epoch.
pub open spec fn bucket_of(y: int, m: int, d: int) -> int {
    u64_wrap(days_from_civil(y, m, d))
}

pub open spec fn u64_max() -> int {
    0xffff_ffff_ffff_ffff
}

/// `(start, end_exclusive_bucket)` checked: `end - 1` must not underflow.
pub open spec fn span_to(start: int, next: int, now: int, label: Seq<char>) -> WinOut {
    if next == 0 {
        WinOut::Overflow
    } else {
        WinOut::Win(start as u64, if next - 1 <= now { (next - 1) as u64 } else { now as u64 }, label)
    }
}

/// Monday of ISO week `n` of year `y`, in wrapped bucket arithmetic.
pub open spec fn week_start(y: int, n: int) -> Option<int> {
    let jb = bucket_of(y, 1, 4);
    if jb + 3 > u64_max() {
        None
    } else {
        let wd = (jb + 3) % 7;
        if jb < wd || jb - wd + (n - 1) * 7 > u64_max() {
            None
        } else {
            Some(jb - wd + (n - 1) * 7)
        }
    }
}

pub open spec fn week_out(start: Option<int>, now: int, n: int) -> WinOut {
    match start {
        None => WinOut::Overflow,
        Some(s) => if s + 6 > u64_max() {
            WinOut::Overflow
        } else {
            WinOut::Win(s as u64, (if s + 6 <= now { s + 6 } else { now }) as u64, seq!['w'] + dec(n as nat))
        },
    }
}

/// Every piece is a non-empty run of digits.
pub open spec fn all_numeric(parts: Seq<Seq<char>>) -> bool {
    forall|i: int| 0 <= i < parts.len() ==> (#[trigger] parts[i]).len() > 0 && all_digits(parts[i])
}

/// `YYYY-MM-DD`, `YYYY-MM` or `YYYY`: pieces that are all digits.
#[verifier::opaque]
pub open spec fn numeric_window(parts: Seq<Seq<char>>, now: int) -> WinOut {
    if parts.len() == 3 && parts[0].len() == 4 {
        let y = digits_val(parts[0]) as int;
        match (parse_u32(parts[1]), parse_u32(parts[2])) {
            (Some(m), Some(d)) => if 1 <= m <= 12 && 1 <= d <= month_len(y, m as int) {
                let b = bucket_of(y, m as int, d as int);
                WinOut::Win(b as u64, b as u64, month_abbr(m as int) + seq![' '] + dec(d as nat))
            } else {
                WinOut::NoMatch
            },
            _ => WinOut::NoMatch,
        }
    } else if parts.len() == 2 && parts[0].len() == 4 {
        let y = digits_val(parts[0]) as int;
        match parse_u32(parts[1]) {
            Some(m) => if 1 <= m <= 12 {
                let next = if m == 12 { bucket_of(y + 1, 1, 1) } else { bucket_of(y, m + 1, 1) };
                span_to(bucket_of(y, m as int, 1), next, now, month_abbr(m as int) + seq![' '] + dec(y as nat))
            } else {
                WinOut::NoMatch
            },
            None => WinOut::NoMatch,
        }
    } else if parts.len() == 1 && parts[0].len() == 4 {
        let y = digits_val(parts[0]) as int;
        span_to(bucket_of(y, 1, 1), bucket_of(y + 1, 1, 1), now, dec(y as nat))
    } else {
        WinOut::NoMatch
    }
}

/// `[YYYY-]wNN` or `[YYYY-]qN`.
#[verifier::opaque]
pub open spec fn named_window(parts: Seq<Seq<char>>, now: int) -> WinOut {
    let pinned = parts.len() == 2 && parts[0].len() == 4 && all_digits(parts[0]);
    if !pinned && parts.len() != 1 {
        WinOut::NoMatch
    } else {
        let tail = if pinned { parts[1] } else { parts[0] };
        let cnow = civil_of(now);
        let rest = tail.drop_first();
        if tail.len() > 0 && tail[0] == 'w' && parse_u32(rest) is Some {
            let n = parse_u32(rest)->0 as int;
            if !(1 <= n <= 53) {
                WinOut::NoMatch
            } else {
                let y = if pinned { digits_val(parts[0]) as int } else { iso_week_of(now).0 };
                match week_start(y, n) {
                    None => WinOut::Overflow,
                    Some(s) => if !pinned && s > now {
                        week_out(week_start(y - 1, n), now, n)
                    } else {
                        week_out(Some(s), now, n)
                    },
                }
            }
        } else if tail.len() > 0 && tail[0] == 'q' && parse_u32(rest) is Some {
            let n = parse_u32(rest)->0 as int;
            if !(1 <= n <= 4) {
                WinOut::NoMatch
            } else {
                let y0 = if pinned { digits_val(parts[0]) as int } else { cnow.y as int };
                let y = if !pinned && n > (cnow.m - 1) / 3 + 1 { y0 - 1 } else { y0 };
                let next = if n == 4 { bucket_of(y + 1, 1, 1) } else { bucket_of(y, n * 3 + 1, 1) };
                span_to(
                    bucket_of(y, (n - 1) * 3 + 1, 1),
                    next,
                    now,
                    seq!['q'] + dec(n as nat) + seq![' '] + dec(y as nat),
                )
            }
        } else {
            WinOut::NoMatch
        }
    }
}

/// One window without `..`.
pub open spec fn single_window(l: Seq<char>, now: int) -> WinOut {
    let parts = split_dash(l);
    if all_numeric(parts) { numeric_window(parts, now) } else { named_window(parts, now) }
}

/// The window grammar over already lower-cased text.
pub open spec fn window_of(l: Seq<char>, now: int) -> WinOut
    decreases l.len(),
{
    let p = find_dots(l);
    if p >= 0 && p + 2 <= l.len() {
        match window_of(l.take(p), now) {
            WinOut::Win(s1, _, l1) => match window_of(l.skip(p + 2), now) {
                WinOut::Win(_, e2, l2) => if s1 <= e2 {
                    WinOut::Win(s1, e2, l1 + seq![' ', '–', ' '] + l2)
                } else {
                    WinOut::NoMatch
                },
                other => other,
            },
            other => other,
        }
    } else {
        single_window(l, now)
    }
}

// ---------------------------------------------------------------- parsing

/// The exec counterpart of [`WinOut`].
enum WinResult {
    NoMatch,
    Overflow,
    Win(u64, u64, Vec<char>),
}

spec fn agrees(r: WinResult, o: WinOut) -> bool {
    match (r, o) {
        (WinResult::NoMatch, WinOut::NoMatch) => true,
        (WinResult::Overflow, WinOut::Overflow) => true,
        (WinResult::Win(a, b, l), WinOut::Win(c, d, m)) => a == c && b == d && l@ == m,
        _ => false,
    }
}

pub open spec fn views(ps: Seq<Vec<char>>) -> Seq<Seq<char>> {
    ps.map_values(|p: Vec<char>| p@)
}

fn lower_char(c: char) -> (r: char)
    ensures
        r == lower(c),
{
    if 'A' <= c && c <= 'Z' {
        let u = (c as u32 + 32) as u8;
        u as char
    } else {
        c
    }
}

fn lowered(s: &str) -> (v: Vec<char>)
    ensures
        v@ == lower_seq(s@),
{
    let src = crate::text::chars_of(s);
    let mut v: Vec<char> = Vec::new();
    let mut i: usize = 0;
    while i < src.len()
        invariant
            src@ == s@,
            i <= src@.len(),
            v@ == lower_seq(src@.take(i as int)),
        decreases src@.len() - i,
    {
        v.push(lower_char(src[i]));
        assert(lower_seq(src@.take(i + 1)) =~= lower_seq(src@.take(i as int)).push(lower(src@[i as int])));
        i += 1;
    }
    assert(src@.take(src@.len() as int) =~= src@);
    v
}

pub fn find_char_in(v: &[char], c: char) -> (r: Option<usize>)
    ensures
        r matches Some(i) ==> i == find_char(v@, c),
        r is None ==> find_char(v@, c) == -1,
{
    proof {
        lemma_find_char(v@, c);
    }
    let mut i: usize = 0;
    while i < v.len()
        invariant
            i <= v@.len(),
            forall|k: int| 0 <= k < i ==> v@[k] != c,
            -1 <= find_char(v@, c) < v@.len(),
            find_char(v@, c) >= 0 ==> v@[find_char(v@, c)] == c,
            forall|k: int| 0 <= k < v@.len() && (find_char(v@, c) < 0 || k < find_char(v@, c)) ==> v@[k] != c,
        decreases v@.len() - i,
    {
        if v[i] == c {
            return Some(i);
        }
        i += 1;
    }
    None
}

proof fn lemma_find_dots(s: Seq<char>)
    ensures
        -1 <= find_dots(s) < s.len(),
        find_dots(s) >= 0 ==> find_dots(s) + 2 <= s.len() && s[find_dots(s)] == '.' && s[find_dots(s) + 1] == '.',
        forall|k: int| 0 <= k < s.len() - 1 && (find_dots(s) < 0 || k < find_dots(s)) ==> !#[trigger] dots_at(s, k),
    decreases s.len(),
{
    if s.len() >= 2 && !(s[0] == '.' && s[1] == '.') {
        lemma_find_dots(s.drop_first());
        assert forall|k: int| 0 <= k < s.len() - 1 && (find_dots(s) < 0 || k < find_dots(s)) implies !#[trigger] dots_at(s, k) by {
            if k > 0 {
                assert(s[k] == s.drop_first()[k - 1] && s[k + 1] == s.drop_first()[k]);
                assert(dots_at(s, k) == dots_at(s.drop_first(), k - 1));
            }
        }
    }
}

fn find_dots_exec(v: &[char]) -> (r: Option<usize>)
    ensures
        r matches Some(i) ==> i == find_dots(v@),
        r is None ==> find_dots(v@) == -1,
{
    proof {
        lemma_find_dots(v@);
    }
    if v.len() < 2 {
        return None;
    }
    let mut i: usize = 0;
    while i < v.len() - 1
        invariant
            v@.len() >= 2,
            i <= v@.len() - 1,
            forall|k: int| 0 <= k < i && k < v@.len() - 1 ==> !#[trigger] dots_at(v@, k),
            -1 <= find_dots(v@) < v@.len(),
            find_dots(v@) >= 0 ==> find_dots(v@) + 2 <= v@.len() && v@[find_dots(v@)] == '.' && v@[find_dots(v@) + 1] == '.',
            forall|k: int| 0 <= k < v@.len() - 1 && (find_dots(v@) < 0 || k < find_dots(v@)) ==> !#[trigger] dots_at(v@, k),
        decreases v@.len() - i,
    {
        if v[i] == '.' && v[i + 1] == '.' {
            proof {
                assert(dots_at(v@, i as int));
                if find_dots(v@) >= 0 && find_dots(v@) < i {
                    assert(!dots_at(v@, find_dots(v@)));
                }
            }
            return Some(i);
        }
        i += 1;
    }
    proof {
        if find_dots(v@) >= 0 {
            assert(!dots_at(v@, find_dots(v@)));
        }
    }
    None
}

fn split_dash_exec(v: &[char]) -> (ps: Vec<Vec<char>>)
    ensures
        views(ps@) == split_dash(v@),
    decreases v@.len(),
{
    proof {
        lemma_find_char(v@, '-');
    }
    match find_char_in(v, '-') {
        None => {
            let mut ps: Vec<Vec<char>> = Vec::new();
            ps.push(slice_of(v, 0, v.len()));
            assert(v@.subrange(0, v@.len() as int) =~= v@);
            assert(views(ps@) =~= seq![v@]);
            ps
        },
        Some(i) => {
            let n = v.len();
            assert(i < n);
            let head = slice_of(v, 0, i);
            let tail = slice_of(v, i + 1, n);
            assert(tail@ =~= v@.skip(i + 1));
            assert(head@ =~= v@.take(i as int));
            let ghost hv = head@;
            let mut ps = split_dash_exec(&tail);
            let ghost rest = ps@;
            ps.insert(0, head);
            assert(views(ps@) =~= seq![hv] + views(rest));
            ps
        },
    }
}

proof fn lemma_digits_prefix(s: Seq<char>, k: int)
    requires
        0 <= k <= s.len(),
    ensures
        digits_val(s.take(k)) <= digits_val(s),
    decreases s.len() - k,
{
    if k < s.len() {
        lemma_digits_prefix(s, k + 1);
        assert(s.take(k + 1).drop_last() =~= s.take(k));
    } else {
        assert(s.take(k) =~= s);
    }
}

fn all_digits_exec(v: &[char]) -> (r: bool)
    ensures
        r == all_digits(v@),
{
    let mut i: usize = 0;
    while i < v.len()
        invariant
            i <= v@.len(),
            forall|k: int| 0 <= k < i ==> is_digit(#[trigger] v@[k]),
        decreases v@.len() - i,
    {
        if !('0' <= v[i] && v[i] <= '9') {
            return false;
        }
        i += 1;
    }
    true
}

/// Value of a non-empty digit string, when it fits in a `u32`.
fn digits_u32(v: &[char]) -> (r: Option<u32>)
    requires
        all_digits(v@),
    ensures
        r matches Some(x) ==> x == digits_val(v@),
        r is None ==> digits_val(v@) > u32::MAX,
{
    let mut acc: u64 = 0;
    let mut i: usize = 0;
    while i < v.len()
        invariant
            all_digits(v@),
            i <= v@.len(),
            acc == digits_val(v@.take(i as int)),
            acc <= u32::MAX,
        decreases v@.len() - i,
    {
        assert(v@.take(i + 1).drop_last() =~= v@.take(i as int));
        assert(is_digit(v@[i as int]));
        let d = (v[i] as u32 - 48) as u64;
        acc = acc * 10 + d;
        if acc > 0xffff_ffff {
            proof {
                lemma_digits_prefix(v@, i + 1);
            }
            return None;
        }
        i += 1;
    }
    assert(v@.take(v@.len() as int) =~= v@);
    Some(acc as u32)
}

fn parse_u32_exec(v: &[char]) -> (r: Option<u32>)
    ensures
        r == parse_u32(v@),
{
    let body = if v.len() > 0 && v[0] == '+' { slice_of(v, 1, v.len()) } else { slice_of(v, 0, v.len()) };
    assert(body@ =~= (if v@.len() > 0 && v@[0] == '+' { v@.drop_first() } else { v@ }));
    if body.len() == 0 || !all_digits_exec(&body) {
        return None;
    }
    digits_u32(&body)
}

proof fn lemma_four_digits(s: Seq<char>)
    requires
        s.len() == 4,
        all_digits(s),
    ensures
        digits_val(s) < 10000,
{
    assert(is_digit(s[0]) && is_digit(s[1]) && is_digit(s[2]) && is_digit(s[3]));
    assert(s.take(1).drop_last() =~= s.take(0));
    assert(digits_val(s.take(0)) == 0);
    assert(s.take(1).last() == s[0]);
    assert(digits_val(s.take(1)) <= 9);
    assert(s.take(2).drop_last() =~= s.take(1));
    assert(s.take(2).last() == s[1]);
    assert(digits_val(s.take(2)) <= 99);
    assert(s.take(3).drop_last() =~= s.take(2));
    assert(s.take(3).last() == s[2]);
    assert(digits_val(s.take(3)) <= 999);
    assert(s.drop_last() =~= s.take(3));
    assert(digits_val(s) <= 9999);
}

fn bucket_at(y: i64, m: u32, d: u32) -> (b: u64)
    requires
        year_in_range(y as int),
        1 <= m <= 12,
    ensures
        b == bucket_of(y as int, m as int, d as int),
{
    Civil { y, m, d }.bucket()
}

fn week_start_exec(y: i64, n: u64) -> (r: Option<u64>)
    requires
        year_in_range(y as int),
        1 <= n <= 53,
    ensures
        r matches Some(s) ==> week_start(y as int, n as int) == Some(s as int),
        r is None ==> week_start(y as int, n as int) is None,
{
    let jb = bucket_at(y, 1, 4);
    if jb > 0xffff_ffff_ffff_ffff - 3 {
        return None;
    }
    let wd = (jb + 3) % 7;
    if jb < wd {
        return None;
    }
    let w1 = jb - wd;
    let off = (n - 1) * 7;
    if w1 > 0xffff_ffff_ffff_ffff - off {
        return None;
    }
    Some(w1 + off)
}

fn week_out_exec(start: Option<u64>, now: u64, n: u64) -> (r: WinResult)
    ensures
        agrees(r, week_out(match start { Some(s) => Some(s as int), None => None }, now as int, n as int)),
{
    match start {
        None => WinResult::Overflow,
        Some(s) => {
            if s > 0xffff_ffff_ffff_ffff - 6 {
                return WinResult::Overflow;
            }
            let mut l: Vec<char> = Vec::new();
            l.push('w');
            push_dec(&mut l, n);
            assert(l@ =~= seq!['w'] + dec(n as nat));
            WinResult::Win(s, if s + 6 <= now { s + 6 } else { now }, l)
        },
    }
}

fn span_to_exec(start: u64, next: u64, now: u64, label: Vec<char>) -> (r: WinResult)
    ensures
        agrees(r, span_to(start as int, next as int, now as int, label@)),
{
    if next == 0 {
        WinResult::Overflow
    } else {
        WinResult::Win(start, if next - 1 <= now { next - 1 } else { now }, label)
    }
}

/// The value of a four-digit year.
fn year_digits(v: &[char]) -> (y: i64)
    requires
        v@.len() == 4,
        all_digits(v@),
    ensures
        y == digits_val(v@),
        0 <= y < 10000,
{
    proof {
        lemma_four_digits(v@);
    }
    match digits_u32(v) {
        Some(x) => x as i64,
        None => 0,
    }
}

/// Days in month `m` (1..=12) of year `y`.
fn month_length(y: u64, m: u32) -> (r: u32)
    requires
        1 <= m <= 12,
    ensures
        r == month_len(y as int, m as int),
{
    if m == 2 {
        if y % 4 == 0 && (y % 100 != 0 || y % 400 == 0) { 29 } else { 28 }
    } else if m == 4 || m == 6 || m == 9 || m == 11 {
        30
    } else {
        31
    }
}

fn numeric_exec(parts: &Vec<Vec<char>>, now: u64) -> (r: WinResult)
    requires
        day_ok(now as int),
        all_numeric(views(parts@)),
    ensures
        agrees(r, numeric_window(views(parts@), now as int)),
{
    reveal(numeric_window);
    let ghost sp = views(parts@);
    proof {
        if parts@.len() > 0 {
            assert(sp[0] == parts@[0]@);
        }
        if parts@.len() > 1 {
            assert(sp[1] == parts@[1]@);
        }
        if parts@.len() > 2 {
            assert(sp[2] == parts@[2]@);
        }
    }
    if parts.len() == 3 && parts[0].len() == 4 {
        let y = year_digits(&parts[0]);
        match (parse_u32_exec(&parts[1]), parse_u32_exec(&parts[2])) {
            (Some(m), Some(d)) => {
                if 1 <= m && m <= 12 && 1 <= d && d <= month_length(y as u64, m) {
                    let b = bucket_at(y, m, d);
                    let mut label: Vec<char> = Vec::new();
                    push_month(&mut label, m);
                    label.push(' ');
                    push_dec(&mut label, d as u64);
                    assert(label@ =~= month_abbr(m as int) + seq![' '] + dec(d as nat));
                    WinResult::Win(b, b, label)
                } else {
                    WinResult::NoMatch
                }
            },
            _ => WinResult::NoMatch,
        }
    } else if parts.len() == 2 && parts[0].len() == 4 {
        let y = year_digits(&parts[0]);
        match parse_u32_exec(&parts[1]) {
            Some(m) => {
                if 1 <= m && m <= 12 {
                    let next = if m == 12 { bucket_at(y + 1, 1, 1) } else { bucket_at(y, m + 1, 1) };
                    let mut label: Vec<char> = Vec::new();
                    push_month(&mut label, m);
                    label.push(' ');
                    push_dec(&mut label, y as u64);
                    assert(label@ =~= month_abbr(m as int) + seq![' '] + dec(y as nat));
                    span_to_exec(bucket_at(y, m, 1), next, now, label)
                } else {
                    WinResult::NoMatch
                }
            },
            None => WinResult::NoMatch,
        }
    } else if parts.len() == 1 && parts[0].len() == 4 {
        let y = year_digits(&parts[0]);
        let mut label: Vec<char> = Vec::new();
        push_dec(&mut label, y as u64);
        span_to_exec(bucket_at(y, 1, 1), bucket_at(y + 1, 1, 1), now, label)
    } else {
        WinResult::NoMatch
    }
}

#[verifier::rlimit(40)]
fn named_exec(parts: &Vec<Vec<char>>, now: u64) -> (r: WinResult)
    requires
        day_ok(now as int),
    ensures
        agrees(r, named_window(views(parts@), now as int)),
{
    reveal(named_window);
    let ghost sp = views(parts@);
    proof {
        if parts@.len() > 0 {
            assert(sp[0] == parts@[0]@);
        }
        if parts@.len() > 1 {
            assert(sp[1] == parts@[1]@);
        }
        if parts@.len() > 2 {
            assert(sp[2] == parts@[2]@);
        }
    }
    let pinned = parts.len() == 2 && parts[0].len() == 4 && all_digits_exec(&parts[0]);
    if !pinned && parts.len() != 1 {
        return WinResult::NoMatch;
    }
    let tail: &Vec<char> = if pinned { &parts[1] } else { &parts[0] };
    let ghost t = if pinned { sp[1] } else { sp[0] };
    assert(tail@ == t);
    if tail.len() == 0 {
        return WinResult::NoMatch;
    }
    let rest = slice_of(tail, 1, tail.len());
    assert(rest@ =~= t.drop_first());
    let cnow = Civil::from_bucket(now);
    proof {
        lemma_year_bound(now as int);
    }
    let pn = parse_u32_exec(&rest);
    if tail[0] == 'w' && pn.is_some() {
        let n = pn.unwrap();
        if !(1 <= n && n <= 53) {
            return WinResult::NoMatch;
        }
        let y: i64 = if pinned {
            year_digits(&parts[0])
        } else {
            proof {
                lemma_year_bound(iso_thursday(now as int));
            }
            cnow.iso_week().0
        };
        match week_start_exec(y, n as u64) {
            None => WinResult::Overflow,
            Some(st) => {
                if !pinned && st > now {
                    week_out_exec(week_start_exec(y - 1, n as u64), now, n as u64)
                } else {
                    week_out_exec(Some(st), now, n as u64)
                }
            },
        }
    } else if tail[0] == 'q' && pn.is_some() {
        let n = pn.unwrap();
        if !(1 <= n && n <= 4) {
            return WinResult::NoMatch;
        }
        let y0: i64 = if pinned { year_digits(&parts[0]) } else { cnow.y };
        let y: i64 = if !pinned && n > (cnow.m - 1) / 3 + 1 { y0 - 1 } else { y0 };
        let next = if n == 4 { bucket_at(y + 1, 1, 1) } else { bucket_at(y, n * 3 + 1, 1) };
        let mut label: Vec<char> = Vec::new();
        label.push('q');
        push_dec(&mut label, n as u64);
        label.push(' ');
        push_dec(&mut label, y as u64);
        assert(label@ =~= seq!['q'] + dec(n as nat) + seq![' '] + dec(y as nat));
        span_to_exec(bucket_at(y, (n - 1) * 3 + 1, 1), next, now, label)
    } else {
        WinResult::NoMatch
    }
}

fn single_window_exec(l: &[char], now: u64) -> (r: WinResult)
    requires
        day_ok(now as int),
    ensures
        agrees(r, single_window(l@, now as int)),
{
    let parts = split_dash_exec(l);
    let ghost sp = split_dash(l@);
    assert(sp.len() == parts@.len());
    let mut all_num = true;
    let mut i: usize = 0;
    while i < parts.len()
        invariant
            i <= parts@.len(),
            views(parts@) == sp,
            sp.len() == parts@.len(),
            all_num == (forall|k: int| 0 <= k < i ==> (#[trigger] sp[k]).len() > 0 && all_digits(sp[k])),
        decreases parts@.len() - i,
    {
        let ok = parts[i].len() > 0 && all_digits_exec(&parts[i]);
        assert(sp[i as int] == parts@[i as int]@);
        proof {
            if !ok {
                assert(!(sp[i as int].len() > 0 && all_digits(sp[i as int])));
            }
        }
        all_num = all_num && ok;
        i += 1;
    }
    if all_num {
        numeric_exec(&parts, now)
    } else {
        named_exec(&parts, now)
    }
}

fn window_exec(l: &[char], now: u64) -> (r: WinResult)
    requires
        day_ok(now as int),
    ensures
        agrees(r, window_of(l@, now as int)),
    decreases l@.len(),
{
    proof {
        lemma_find_dots(l@);
    }
    match find_dots_exec(l) {
        Some(p) => {
            let n = l.len();
            let a = slice_of(l, 0, p);
            let b = slice_of(l, p + 2, n);
            assert(a@ =~= l@.take(p as int));
            assert(b@ =~= l@.skip(p + 2));
            match window_exec(&a, now) {
                WinResult::Win(s1, e1, l1) => match window_exec(&b, now) {
                    WinResult::Win(s2, e2, l2) => {
                        if s1 <= e2 {
                            let ghost v1 = l1@;
                            let mut label = l1;
                            label.push(' ');
                            label.push('–');
                            label.push(' ');
                            push_all(&mut label, &l2);
                            assert(label@ =~= v1 + seq![' ', '–', ' '] + l2@);
                            WinResult::Win(s1, e2, label)
                        } else {
                            WinResult::NoMatch
                        }
                    },
                    other => other,
                },
                other => other,
            }
        },
        None => single_window_exec(l, now),
    }
}

/// Whether `s` names a window whose day arithmetic would leave `u64`
/// (years whose buckets wrap below the epoch at a week or quarter edge).
pub fn window_overflows(s: &str, now_bucket: u64) -> (r: bool)
    requires
        day_ok(now_bucket as int),
    ensures
        r == (window_of(lower_seq(s@), now_bucket as int) is Overflow),
{
    let l = lowered(s);
    match window_exec(&l, now_bucket) {
        WinResult::Overflow => true,
        _ => false,
    }
}

/// Parse `s` as a window of day buckets: `(start, end, label)`, both ends
/// inclusive and clamped at `now_bucket`. `None` means the text is search
/// words, not a window.
pub fn parse_window(s: &str, now_bucket: u64) -> (r: Option<(u64, u64, String)>)
    requires
        day_ok(now_bucket as int),
        !(window_of(lower_seq(s@), now_bucket as int) is Overflow),
    ensures
        match window_of(lower_seq(s@), now_bucket as int) {
            WinOut::Win(a, b, label) => r matches Some(t) && t.0 == a && t.1 == b && t.2@ == label,
            _ => r is None,
        },
{
    let l = lowered(s);
    match window_exec(&l, now_bucket) {
        WinResult::Win(a, b, label) => Some((a, b, string_of(&label))),
        _ => None,
    }
}

// ---------------------------------------------------------------- handles read back

proof fn lemma_digit(n: int)
    requires
        0 <= n < 10,
    ensures
        is_digit(digit(n)),
        digit(n) as u32 - 48 == n,
        lower(digit(n)) == digit(n),
        digit(n) != '-' && digit(n) != '.' && digit(n) != '+',
{
}

/// `dec(n)` is a non-empty digit string worth `n`.
pub proof fn lemma_dec(n: nat)
    ensures
        dec(n).len() >= 1,
        all_digits(dec(n)),
        digits_val(dec(n)) == n,
        n < 10 ==> dec(n).len() == 1,
        n < 100 ==> dec(n).len() <= 2,
        n < 1000 ==> dec(n).len() <= 3,
        n < 10000 ==> dec(n).len() <= 4,
        n >= 1000 ==> dec(n).len() >= 4,
        n >= 100 ==> dec(n).len() >= 3,
        n >= 10 ==> dec(n).len() >= 2,
        forall|i: int| 0 <= i < dec(n).len() ==> lower(#[trigger] dec(n)[i]) == dec(n)[i]
            && dec(n)[i] != '-' && dec(n)[i] != '.' && dec(n)[i] != '+',
    decreases n,
{
    if n < 10 {
        lemma_digit(n as int);
        assert(dec(n).drop_last() =~= Seq::<char>::empty());
        assert(dec(n).last() == digit(n as int));
        assert(digits_val(dec(n).drop_last()) == 0);
        assert(digits_val(dec(n)) == digits_val(dec(n).drop_last()) * 10 + ((dec(n).last() as u32) - 48) as nat);
    } else {
        lemma_dec(n / 10);
        lemma_digit((n % 10) as int);
        let d = dec(n);
        assert(d.drop_last() =~= dec(n / 10));
        assert(d.last() == digit((n % 10) as int));
        assert((n / 10) * 10 + n % 10 == n);
        assert(digits_val(d) == digits_val(d.drop_last()) * 10 + ((d.last() as u32) - 48) as nat);
        assert forall|i: int| 0 <= i < d.len() implies is_digit(#[trigger] d[i]) by {
            if i < d.len() - 1 {
                assert(d[i] == dec(n / 10)[i]);
            }
        }
    }
    assert forall|i: int| 0 <= i < dec(n).len() implies lower(#[trigger] dec(n)[i]) == dec(n)[i]
        && dec(n)[i] != '-' && dec(n)[i] != '.' && dec(n)[i] != '+' by {
        assert(is_digit(dec(n)[i]));
    }
}

proof fn lemma_zeros_val(z: Seq<char>)
    requires
        forall|i: int| 0 <= i < z.len() ==> #[trigger] z[i] == '0',
    ensures
        digits_val(z) == 0,
    decreases z.len(),
{
    if z.len() > 0 {
        assert forall|i: int| 0 <= i < z.drop_last().len() implies #[trigger] z.drop_last()[i] == '0' by {
            assert(z.drop_last()[i] == z[i]);
        }
        lemma_zeros_val(z.drop_last());
    }
}

/// Leading zeros add nothing to a digit string's value.
proof fn lemma_zeros_prefix_val(z: Seq<char>, t: Seq<char>)
    requires
        forall|i: int| 0 <= i < z.len() ==> #[trigger] z[i] == '0',
    ensures
        digits_val(z + t) == digits_val(t),
    decreases t.len(),
{
    if t.len() == 0 {
        assert(z + t =~= z);
        lemma_zeros_val(z);
    } else {
        lemma_zeros_prefix_val(z, t.drop_last());
        assert((z + t).drop_last() =~= z + t.drop_last());
        assert((z + t).last() == t.last());
    }
}

/// `pad(n, w)` is a digit string worth `n`, exactly `w` long when `n` has
/// at most `w` digits.
pub proof fn lemma_pad(n: nat, w: nat)
    requires
        w >= 1,
    ensures
        all_digits(pad(n, w)),
        digits_val(pad(n, w)) == n,
        pad(n, w).len() >= 1,
        dec(n).len() <= w ==> pad(n, w).len() == w,
        forall|i: int| 0 <= i < pad(n, w).len() ==> lower(#[trigger] pad(n, w)[i]) == pad(n, w)[i]
            && pad(n, w)[i] != '-' && pad(n, w)[i] != '.' && pad(n, w)[i] != '+',
{
    lemma_dec(n);
    let p = pad(n, w);
    if dec(n).len() < w {
        let z = Seq::new((w - dec(n).len()) as nat, |i: int| '0');
        lemma_zeros_prefix_val(z, dec(n));
        assert(p == z + dec(n));
        assert forall|i: int| 0 <= i < p.len() implies is_digit(#[trigger] p[i]) by {
            if i >= z.len() {
                assert(p[i] == dec(n)[i - z.len()]);
            }
        }
    }
    assert forall|i: int| 0 <= i < p.len() implies lower(#[trigger] p[i]) == p[i] && p[i] != '-' && p[i] != '.'
        && p[i] != '+' by {
        assert(is_digit(p[i]));
    }
}

/// A string without `c` has none to find.
proof fn lemma_find_char_none(s: Seq<char>, c: char)
    requires
        forall|i: int| 0 <= i < s.len() ==> #[trigger] s[i] != c,
    ensures
        find_char(s, c) == -1,
{
    lemma_find_char(s, c);
}

/// The first `c` of `a + [c] + r`, when `a` has none, is at `a.len()`.
proof fn lemma_find_char_after(a: Seq<char>, c: char, r: Seq<char>)
    requires
        forall|i: int| 0 <= i < a.len() ==> #[trigger] a[i] != c,
    ensures
        find_char(a + seq![c] + r, c) == a.len(),
{
    let s = a + seq![c] + r;
    lemma_find_char(s, c);
    assert(s[a.len() as int] == c);
    let f = find_char(s, c);
    if f < a.len() {
        assert(s[f] == a[f]);
    }
}

proof fn lemma_no_dots(s: Seq<char>)
    requires
        forall|i: int| 0 <= i < s.len() ==> #[trigger] s[i] != '.',
    ensures
        find_dots(s) == -1,
{
    lemma_find_dots(s);
}

/// `YYYY-MM-DD` and `YYYY-MM` split at their dashes into their fields.
proof fn lemma_split_fields(a: Seq<char>, b: Seq<char>, c: Seq<char>)
    requires
        forall|i: int| 0 <= i < a.len() ==> #[trigger] a[i] != '-',
        forall|i: int| 0 <= i < b.len() ==> #[trigger] b[i] != '-',
        forall|i: int| 0 <= i < c.len() ==> #[trigger] c[i] != '-',
    ensures
        split_dash(a + seq!['-'] + b + seq!['-'] + c) == seq![a, b, c],
        split_dash(a + seq!['-'] + b) == seq![a, b],
{
    let s3 = a + seq!['-'] + b + seq!['-'] + c;
    lemma_find_char_after(a, '-', b + seq!['-'] + c);
    assert(s3 =~= a + seq!['-'] + (b + seq!['-'] + c));
    assert(s3.take(a.len() as int) =~= a);
    assert(s3.skip(a.len() as int + 1) =~= b + seq!['-'] + c);
    lemma_find_char_after(b, '-', c);
    assert((b + seq!['-'] + c).take(b.len() as int) =~= b);
    assert((b + seq!['-'] + c).skip(b.len() as int + 1) =~= c);
    lemma_find_char_none(c, '-');
    assert(split_dash(c) == seq![c]);
    assert(split_dash(b + seq!['-'] + c) =~= seq![b, c]);
    assert(split_dash(s3) =~= seq![a, b, c]);
    let s2 = a + seq!['-'] + b;
    lemma_find_char_after(a, '-', b);
    assert(s2.take(a.len() as int) =~= a);
    assert(s2.skip(a.len() as int + 1) =~= b);
    lemma_find_char_none(b, '-');
    assert(split_dash(b) == seq![b]);
    assert(split_dash(s2) =~= seq![a, b]);
}

/// `parse_u32` reads a zero-padded field back as its value.
proof fn lemma_parse_pad(n: nat, w: nat)
    requires
        w >= 1,
        n <= u32::MAX,
    ensures
        parse_u32(pad(n, w)) == Some(n as u32),
{
    lemma_pad(n, w);
    assert(pad(n, w)[0] != '+');
}

/// A day's handle names that day: `YYYY-MM-DD`, read back through the
/// window grammar, is the one-day window of the day's own bucket, under
/// the day's own label — for every day whose year prints in four digits.
pub proof fn law_day_handle_names_its_day(b: int, now: int)
    requires
        day_ok(b),
        civil_of(b).y < 10000,
    ensures
        window_of(lower_seq(iso_date(civil_of(b))), now) == WinOut::Win(
            b as u64,
            b as u64,
            month_abbr(civil_of(b).m as int) + seq![' '] + dec(civil_of(b).d as nat),
        ),
{
    let c = civil_of(b);
    lemma_civil_of(b);
    let (py, pm, pd) = (pad(c.y as nat, 4), pad(c.m as nat, 2), pad(c.d as nat, 2));
    lemma_pad(c.y as nat, 4);
    lemma_pad(c.m as nat, 2);
    lemma_pad(c.d as nat, 2);
    lemma_dec(c.y as nat);
    lemma_dec(c.m as nat);
    lemma_dec(c.d as nat);
    let s = iso_date(c);
    assert(s == py + seq!['-'] + pm + seq!['-'] + pd);
    assert forall|i: int| 0 <= i < s.len() implies lower(#[trigger] s[i]) == s[i] && s[i] != '.' by {
        if i < 4 {
            assert(s[i] == py[i]);
        } else if i == 4 || i == 7 {
        } else if i < 7 {
            assert(s[i] == pm[i - 5]);
        } else {
            assert(s[i] == pd[i - 8]);
        }
    }
    assert(lower_seq(s) =~= s);
    lemma_no_dots(s);
    lemma_split_fields(py, pm, pd);
    let parts = split_dash(s);
    assert(all_numeric(parts));
    lemma_parse_pad(c.m as nat, 2);
    lemma_parse_pad(c.d as nat, 2);
    reveal(numeric_window);
}

/// A month's handle names that month: `YYYY-MM`, read back through the
/// window grammar, runs from the first of the month to its last day (or
/// to today, while the month is running), under the month's own label —
/// for every month whose year prints in four digits.
pub proof fn law_month_handle_names_its_month(b: int, now: int)
    requires
        day_ok(b),
        civil_of(b).y < 10000,
    ensures
        ({
            let c = civil_of(b);
            let first = days_from_civil(c.y as int, c.m as int, 1);
            let next = if c.m == 12 { days_from_civil(c.y + 1, 1, 1) } else { days_from_civil(c.y as int, c.m + 1, 1) };
            window_of(lower_seq(pad(c.y as nat, 4) + seq!['-'] + pad(c.m as nat, 2)), now) == WinOut::Win(
                first as u64,
                if next - 1 <= now { (next - 1) as u64 } else { now as u64 },
                month_abbr(c.m as int) + seq![' '] + dec(c.y as nat),
            )
        }),
{
    let c = civil_of(b);
    lemma_civil_of(b);
    let (py, pm) = (pad(c.y as nat, 4), pad(c.m as nat, 2));
    lemma_pad(c.y as nat, 4);
    lemma_pad(c.m as nat, 2);
    lemma_dec(c.y as nat);
    lemma_dec(c.m as nat);
    let s = py + seq!['-'] + pm;
    assert forall|i: int| 0 <= i < s.len() implies lower(#[trigger] s[i]) == s[i] && s[i] != '.' by {
        if i < 4 {
            assert(s[i] == py[i]);
        } else if i > 4 {
            assert(s[i] == pm[i - 5]);
        }
    }
    assert(lower_seq(s) =~= s);
    lemma_no_dots(s);
    lemma_split_fields(py, pm, Seq::empty());
    let parts = split_dash(s);
    assert(all_numeric(parts));
    lemma_parse_pad(c.m as nat, 2);
    crate::civil::lemma_date_in_year(c.y as int, c.m as int, c.d as int);
    crate::civil::lemma_leaps_step(c.y + 1);
    reveal(numeric_window);
}

/// A year's handle names that year: `YYYY`, read back, runs from its
/// first day to its last (or to today, while the year is running).
pub proof fn law_year_handle_names_its_year(y: int, now: int)
    requires
        1970 <= y < 10000,
    ensures
        window_of(lower_seq(dec(y as nat)), now) == WinOut::Win(
            days_from_civil(y, 1, 1) as u64,
            (if days_from_civil(y + 1, 1, 1) - 1 <= now { days_from_civil(y + 1, 1, 1) - 1 } else { now }) as u64,
            dec(y as nat),
        ),
{
    lemma_dec(y as nat);
    let s = dec(y as nat);
    assert(lower_seq(s) =~= s);
    lemma_no_dots(s);
    lemma_find_char_none(s, '-');
    assert(split_dash(s) == seq![s]);
    assert(all_numeric(split_dash(s)));
    crate::ladder::lemma_civil_nonneg(y, 1);
    crate::ladder::lemma_civil_nonneg(y + 1, 1);
    crate::civil::lemma_year_order(y, y + 1);
    reveal(numeric_window);
}

/// A quarter's handle names that quarter: `YYYY-qN`, read back, runs
/// from the quarter's first day to its last (or to today).
#[verifier::rlimit(40)]
pub proof fn law_quarter_handle_names_its_quarter(y: int, q: int, now: int)
    requires
        1970 <= y < 10000,
        1 <= q <= 4,
    ensures
        ({
            let first = days_from_civil(y, (q - 1) * 3 + 1, 1);
            let next = if q == 4 { days_from_civil(y + 1, 1, 1) } else { days_from_civil(y, q * 3 + 1, 1) };
            window_of(lower_seq(dec(y as nat) + seq!['-', 'q'] + dec(q as nat)), now) == WinOut::Win(
                first as u64,
                (if next - 1 <= now { next - 1 } else { now }) as u64,
                seq!['q'] + dec(q as nat) + seq![' '] + dec(y as nat),
            )
        }),
{
    lemma_dec(y as nat);
    lemma_dec(q as nat);
    let (a, t) = (dec(y as nat), seq!['q'] + dec(q as nat));
    let s = a + seq!['-'] + t;
    assert(s =~= dec(y as nat) + seq!['-', 'q'] + dec(q as nat));
    assert forall|i: int| 0 <= i < t.len() implies #[trigger] t[i] != '-' && lower(t[i]) == t[i] && t[i] != '.' by {
        if i > 0 {
            assert(t[i] == dec(q as nat)[i - 1]);
        }
    }
    assert forall|i: int| 0 <= i < s.len() implies lower(#[trigger] s[i]) == s[i] && s[i] != '.' by {
        if i < a.len() {
            assert(s[i] == a[i]);
        } else if i > a.len() {
            assert(s[i] == t[i - a.len() - 1]);
        }
    }
    assert(lower_seq(s) =~= s);
    lemma_no_dots(s);
    lemma_split_fields(a, t, Seq::empty());
    let parts = split_dash(s);
    assert(parts == seq![a, t]);
    assert(!is_digit(t[0]));
    assert(!all_digits(parts[1]));
    assert(!all_numeric(parts));
    assert(window_of(lower_seq(s), now) == named_window(parts, now));
    assert(t.drop_first() =~= dec(q as nat));
    lemma_parse_pad(q as nat, 1);
    assert(pad(q as nat, 1) == dec(q as nat));
    assert(parse_u32(t.drop_first()) == Some(q as u32));
    assert(digits_val(parts[0]) == y);
    crate::ladder::lemma_civil_nonneg(y, (q - 1) * 3 + 1);
    crate::ladder::lemma_civil_nonneg(y + 1, 1);
    crate::civil::lemma_year_order(y, y + 1);
    if q < 4 {
        crate::ladder::lemma_civil_nonneg(y, q * 3 + 1);
    }
    let first = days_from_civil(y, (q - 1) * 3 + 1, 1);
    let next = if q == 4 { days_from_civil(y + 1, 1, 1) } else { days_from_civil(y, q * 3 + 1, 1) };
    assert(next > 0);
    assert(named_window(parts, now) == span_to(first, next, now, seq!['q'] + dec(q as nat) + seq![' '] + dec(y as nat))) by {
        reveal(named_window);
    }
}

proof fn lemma_thursday_mult(b: int)
    requires
        0 <= b,
    ensures
        iso_thursday(b) % 7 == 0,
        0 <= iso_thursday(b) <= b + 3,
        iso_thursday(b) - 3 == b - (b + 3) % 7,
{
}

/// From a multiple of seven at or after `dd`, whole weeks back to the
/// first Thursday on or after `dd` land on the Monday before it.
proof fn lemma_first_thursday(t: int, dd: int)
    requires
        t % 7 == 0,
        0 <= dd <= t,
    ensures
        dd + 3 - (dd + 6) % 7 + ((t - dd) / 7) * 7 == t - 3,
{
    let q = t / 7;
    let p = dd / 7;
    let r = dd % 7;
    assert(t == 7 * q);
    assert(dd == 7 * p + r && 0 <= r < 7);
    if r == 0 {
        assert((dd + 6) % 7 == 6);
        assert((t - dd) / 7 == q - p);
    } else {
        assert((dd + 6) % 7 == r - 1);
        assert(t - dd == 7 * (q - p - 1) + (7 - r));
        assert((t - dd) / 7 == q - p - 1);
    }
}

/// The week grammar's arithmetic finds the Monday of the ISO week that
/// `iso_week_of` assigns, for ISO years after 1970.
proof fn lemma_week_start_of(b: int)
    requires
        day_ok(b),
        iso_week_of(b).0 > 1970,
    ensures
        1 <= iso_week_of(b).1 <= 53,
        week_start(iso_week_of(b).0, iso_week_of(b).1) == Some(b - (b + 3) % 7),
{
    let t = iso_thursday(b);
    lemma_thursday_mult(b);
    lemma_civil_of(t);
    let c = civil_of(t);
    let y = c.y as int;
    let dd = crate::civil::days_before_year(y);
    crate::civil::lemma_date_in_year(y, c.m as int, c.d as int);
    crate::civil::lemma_leaps_step(y);
    crate::civil::lemma_year_order(1970, y);
    assert(dd >= 365);
    assert(dd <= t < dd + 366);
    let wn = (t - dd) / 7 + 1;
    assert(iso_week_of(b) == (y, wn));
    assert(1 <= wn <= 53);
    let jb = bucket_of(y, 1, 4);
    assert(jb == dd + 3);
    lemma_first_thursday(t, dd);
    assert(jb - (jb + 3) % 7 + (wn - 1) * 7 == t - 3);
}

/// A week's handle names that week: `YYYY-wNN` (the ISO week-year and
/// week number), read back, runs from the week's Monday to its Sunday (or
/// to today) — for the weeks of ISO years 1971 to 9999.
#[verifier::rlimit(40)]
pub proof fn law_week_handle_names_its_week(b: int, now: int)
    requires
        day_ok(b),
        1970 < iso_week_of(b).0 < 10000,
    ensures
        ({
            let (wy, wn) = iso_week_of(b);
            let monday = b - (b + 3) % 7;
            window_of(lower_seq(dec(wy as nat) + seq!['-', 'w'] + dec(wn as nat)), now) == WinOut::Win(
                monday as u64,
                (if monday + 6 <= now { monday + 6 } else { now }) as u64,
                seq!['w'] + dec(wn as nat),
            )
        }),
{
    let (wy, wn) = iso_week_of(b);
    lemma_week_start_of(b);
    let monday = b - (b + 3) % 7;
    lemma_dec(wy as nat);
    lemma_dec(wn as nat);
    let (a, t) = (dec(wy as nat), seq!['w'] + dec(wn as nat));
    let s = a + seq!['-'] + t;
    assert(s =~= dec(wy as nat) + seq!['-', 'w'] + dec(wn as nat));
    assert forall|i: int| 0 <= i < t.len() implies #[trigger] t[i] != '-' && lower(t[i]) == t[i] && t[i] != '.' by {
        if i > 0 {
            assert(t[i] == dec(wn as nat)[i - 1]);
        }
    }
    assert forall|i: int| 0 <= i < s.len() implies lower(#[trigger] s[i]) == s[i] && s[i] != '.' by {
        if i < a.len() {
            assert(s[i] == a[i]);
        } else if i > a.len() {
            assert(s[i] == t[i - a.len() - 1]);
        }
    }
    assert(lower_seq(s) =~= s);
    lemma_no_dots(s);
    lemma_split_fields(a, t, Seq::empty());
    let parts = split_dash(s);
    assert(parts == seq![a, t]);
    assert(!is_digit(t[0]));
    assert(!all_digits(parts[1]));
    assert(!all_numeric(parts));
    assert(window_of(lower_seq(s), now) == named_window(parts, now));
    assert(t.drop_first() =~= dec(wn as nat));
    lemma_parse_pad(wn as nat, 1);
    assert(pad(wn as nat, 1) == dec(wn as nat));
    assert(parse_u32(t.drop_first()) == Some(wn as u32));
    assert(digits_val(parts[0]) == wy);
    assert(monday + 6 <= u64_max());
    assert(named_window(parts, now) == week_out(Some(monday), now, wn)) by {
        reveal(named_window);
    }
}

/// An ISO date has ten characters, none of them dots.
proof fn lemma_iso_date_shape(b: int)
    requires
        day_ok(b),
        civil_of(b).y < 10000,
    ensures
        iso_date(civil_of(b)).len() == 10,
        forall|i: int| 0 <= i < 10 ==> #[trigger] iso_date(civil_of(b))[i] != '.',
        lower_seq(iso_date(civil_of(b))) == iso_date(civil_of(b)),
{
    let c = civil_of(b);
    lemma_civil_of(b);
    lemma_pad(c.y as nat, 4);
    lemma_pad(c.m as nat, 2);
    lemma_pad(c.d as nat, 2);
    lemma_dec(c.y as nat);
    lemma_dec(c.m as nat);
    lemma_dec(c.d as nat);
    let s = iso_date(c);
    assert forall|i: int| 0 <= i < 10 implies #[trigger] s[i] != '.' by {
        if i < 4 {
            assert(s[i] == pad(c.y as nat, 4)[i]);
        } else if i == 4 || i == 7 {
        } else if i < 7 {
            assert(s[i] == pad(c.m as nat, 2)[i - 5]);
        } else {
            assert(s[i] == pad(c.d as nat, 2)[i - 8]);
        }
    }
    assert forall|i: int| 0 <= i < 10 implies lower(#[trigger] s[i]) == s[i] by {
        if i < 4 {
            assert(s[i] == pad(c.y as nat, 4)[i]);
        } else if i == 4 || i == 7 {
        } else if i < 7 {
            assert(s[i] == pad(c.m as nat, 2)[i - 5]);
        } else {
            assert(s[i] == pad(c.d as nat, 2)[i - 8]);
        }
    }
    assert(lower_seq(s) =~= s);
}

/// A span's handle names that span: `A..B` of two ISO dates, read back,
/// runs from day `A` to day `B` — the handle of the ladder's last band.
pub proof fn law_range_handle_names_its_span(a: int, b: int, now: int)
    requires
        day_ok(a),
        day_ok(b),
        a <= b,
        civil_of(a).y < 10000,
        civil_of(b).y < 10000,
    ensures
        window_of(lower_seq(iso_date(civil_of(a)) + seq!['.', '.'] + iso_date(civil_of(b))), now) == WinOut::Win(
            a as u64,
            b as u64,
            month_abbr(civil_of(a).m as int) + seq![' '] + dec(civil_of(a).d as nat) + seq![' ', '–', ' ']
                + month_abbr(civil_of(b).m as int) + seq![' '] + dec(civil_of(b).d as nat),
        ),
{
    let (x, y) = (iso_date(civil_of(a)), iso_date(civil_of(b)));
    lemma_iso_date_shape(a);
    lemma_iso_date_shape(b);
    law_day_handle_names_its_day(a, now);
    law_day_handle_names_its_day(b, now);
    let s = x + seq!['.', '.'] + y;
    let l = lower_seq(s);
    lemma_find_dots(l);
    assert(l =~= x + seq!['.', '.'] + y);
    assert(dots_at(l, 10));
    assert forall|k: int| 0 <= k < 10 implies !#[trigger] dots_at(l, k) by {
        assert(l[k] == x[k]);
    }
    assert(find_dots(l) == 10);
    assert(l.take(10) =~= lower_seq(x));
    assert(l.skip(12) =~= lower_seq(y));
    let la = month_abbr(civil_of(a).m as int) + seq![' '] + dec(civil_of(a).d as nat);
    let lb = month_abbr(civil_of(b).m as int) + seq![' '] + dec(civil_of(b).d as nat);
    assert(window_of(l, now) == WinOut::Win(a as u64, b as u64, la + seq![' ', '–', ' '] + lb));
    assert(la + seq![' ', '–', ' '] + lb =~= month_abbr(civil_of(a).m as int) + seq![' '] + dec(civil_of(a).d as nat)
        + seq![' ', '–', ' '] + month_abbr(civil_of(b).m as int) + seq![' '] + dec(civil_of(b).d as nat));
}

/// A valid date falls before the first of every later month of its year.
proof fn lemma_before_later_month(y: int, m: int, d: int, m2: int)
    requires
        crate::civil::valid_date(y, m, d),
        m < m2 <= 12,
    ensures
        days_from_civil(y, m, d) < days_from_civil(y, m2, 1),
{
}

/// The window a handle names holds the days `start..=end`.
pub open spec fn holds(w: WinOut, start: int, end: int) -> bool {
    w matches WinOut::Win(s, e, _) && s <= start && end <= e
}

proof fn lemma_week_band(start: int, end: int, rung: int, now: int)
    requires
        day_ok(end),
        end <= now,
        rung <= 1,
        unit_start(end, rung) <= start,
        1970 < iso_week_of(end).0 < 10000,
    ensures
        holds(window_of(lower_seq(band_text(rung, start, end).2.skip(5)), now), start, end),
{
    let (wy, wn) = iso_week_of(end);
    assert(band_text(rung, start, end).2.skip(5) =~= dec(wy as nat) + seq!['-', 'w'] + dec(wn as nat));
    law_week_handle_names_its_week(end, now);
    lemma_week_start_of(end);
    let monday = end - (end + 3) % 7;
    assert(monday >= 0);
    assert(unit_start(end, rung) == monday);
    assert(end <= monday + 6);
}

proof fn lemma_month_band(start: int, end: int, rung: int, now: int)
    requires
        day_ok(end),
        end <= now,
        2 <= rung <= 3,
        unit_start(end, rung) <= start,
        civil_of(end).y < 10000,
    ensures
        holds(window_of(lower_seq(band_text(rung, start, end).2.skip(5)), now), start, end),
{
    lemma_civil_of(end);
    let c = civil_of(end);
    let (y, m) = (c.y as int, c.m as int);
    assert(band_text(rung, start, end).2.skip(5) =~= pad(y as nat, 4) + seq!['-'] + pad(m as nat, 2));
    law_month_handle_names_its_month(end, now);
    if m < 12 {
        lemma_before_later_month(y, m, c.d as int, m + 1);
    } else {
        crate::civil::lemma_date_in_year(y, m, c.d as int);
        crate::civil::lemma_leaps_step(y + 1);
    }
}

proof fn lemma_quarter_band(start: int, end: int, rung: int, now: int)
    requires
        day_ok(end),
        end <= now,
        4 <= rung <= 5,
        unit_start(end, rung) <= start,
        civil_of(end).y < 10000,
    ensures
        holds(window_of(lower_seq(band_text(rung, start, end).2.skip(5)), now), start, end),
{
    lemma_civil_of(end);
    let c = civil_of(end);
    let (y, m) = (c.y as int, c.m as int);
    let q = (m - 1) / 3 + 1;
    assert(band_text(rung, start, end).2.skip(5) =~= dec(y as nat) + seq!['-', 'q'] + dec(q as nat));
    law_quarter_handle_names_its_quarter(y, q, now);
    assert((q - 1) * 3 + 1 == (m - 1) / 3 * 3 + 1);
    if q < 4 {
        lemma_before_later_month(y, m, c.d as int, q * 3 + 1);
    } else {
        crate::civil::lemma_date_in_year(y, m, c.d as int);
        crate::civil::lemma_leaps_step(y + 1);
    }
}

proof fn lemma_year_band(start: int, end: int, rung: int, now: int)
    requires
        day_ok(end),
        end <= now,
        6 <= rung,
        unit_start(end, rung) <= start,
        civil_of(end).y < 10000,
    ensures
        holds(window_of(lower_seq(band_text(rung, start, end).2.skip(5)), now), start, end),
{
    lemma_civil_of(end);
    let c = civil_of(end);
    let y = c.y as int;
    assert(band_text(rung, start, end).2.skip(5) =~= dec(y as nat));
    law_year_handle_names_its_year(y, now);
    crate::civil::lemma_date_in_year(y, c.m as int, c.d as int);
    crate::civil::lemma_leaps_step(y + 1);
}

/// Every band of the ladder carries a handle that names a window holding
/// the band: read back through the grammar (after the `peat ` command), it
/// runs from at or before the band's first day to at or after its last —
/// the band's calendar unit, or exactly the band for the band that
/// swallows the rest of the past. For the years that print in four digits,
/// and for week bands outside ISO year 1970.
#[verifier::rlimit(60)]
#[verifier::spinoff_prover]
pub proof fn law_band_handles_hold_their_bands(
    rows: Seq<(u64, DayStats)>,
    obs: Seq<(u64, i64)>,
    frontier: int,
    budget: int,
    r: Seq<Band>,
    i: int,
    now: int,
)
    requires
        ladder(rows, obs, frontier, budget, r),
        0 <= i < r.len(),
        day_ok(r[i].end as int),
        r[i].end <= now,
        civil_of(r[i].start as int).y < 10000,
        civil_of(r[i].end as int).y < 10000,
        i + 1 < budget && i <= 1 ==> 1970 < iso_week_of(r[i].end as int).0 < 10000,
    ensures
        holds(window_of(lower_seq(r[i].handle@.skip(5)), now), r[i].start as int, r[i].end as int),
{
    let b = r[i];
    let (start, end) = (b.start as int, b.end as int);
    assert(start <= end);
    if i + 1 >= budget {
        assert(terminal_band(rows, obs, rows[0].0 as int, b));
        assert(b.handle@.skip(5) =~= iso_date(civil_of(start)) + seq!['.', '.'] + iso_date(civil_of(end)));
        law_range_handle_names_its_span(start, end, now);
    } else {
        assert(rung_band(rows, obs, rows[0].0 as int, i, b));
        assert(b.handle@ == band_text(i, start, end).2);
        if i <= 1 {
            lemma_week_band(start, end, i, now);
        } else if i <= 3 {
            lemma_month_band(start, end, i, now);
        } else if i <= 5 {
            lemma_quarter_band(start, end, i, now);
        } else {
            lemma_year_band(start, end, i, now);
        }
    }
}

/// Every child window carries a handle that names a window holding it:
/// a day's names the day, a week's its ISO week, a month's its month
/// (each through today at most). For the years that print in four digits,
/// and for weeks outside ISO year 1970.
#[verifier::spinoff_prover]
#[verifier::rlimit(40)]
pub proof fn law_child_handles_hold_their_children(
    kind: ChildKind,
    end: int,
    c: (u64, u64, String, String),
    now: int,
)
    requires
        child_ok(kind, end, c),
        day_ok(c.0 as int),
        c.1 <= now,
        civil_of(c.0 as int).y < 10000,
        kind is Weeks ==> 1970 < iso_week_of(c.0 as int).0 < 10000,
    ensures
        holds(window_of(lower_seq(c.3@.skip(5)), now), c.0 as int, c.1 as int),
{
    let b = c.0 as int;
    lemma_civil_of(b);
    let cv = civil_of(b);
    match kind {
        ChildKind::Days => {
            assert(c.3@.skip(5) =~= iso_date(cv));
            law_day_handle_names_its_day(b, now);
        },
        ChildKind::Weeks => {
            let (wy, wn) = iso_week_of(b);
            assert(c.3@.skip(5) =~= dec(wy as nat) + seq!['-', 'w'] + dec(wn as nat));
            law_week_handle_names_its_week(b, now);
            lemma_week_start_of(b);
        },
        ChildKind::Months => {
            let (y, m) = (cv.y as int, cv.m as int);
            assert(c.3@.skip(5) =~= pad(y as nat, 4) + seq!['-'] + pad(m as nat, 2));
            law_month_handle_names_its_month(b, now);
            assert(days_from_civil(y, m, 1) <= b);
        },
    }
}

/// The label of a band is the start of the grammar's label for the
/// window its handle names.
pub open spec fn label_leads(w: WinOut, label: Seq<char>) -> bool {
    w matches WinOut::Win(_, _, l) && label.len() <= l.len() && l.take(label.len() as int) == label
}

proof fn lemma_week_label(start: int, end: int, rung: int, now: int)
    requires
        day_ok(end),
        rung <= 1,
        1970 < iso_week_of(end).0 < 10000,
    ensures
        label_leads(window_of(lower_seq(band_text(rung, start, end).2.skip(5)), now), band_text(rung, start, end).0),
{
    let (wy, wn) = iso_week_of(end);
    assert(band_text(rung, start, end).2.skip(5) =~= dec(wy as nat) + seq!['-', 'w'] + dec(wn as nat));
    law_week_handle_names_its_week(end, now);
    let l = seq!['w'] + dec(wn as nat);
    assert(l.take(l.len() as int) =~= l);
}

proof fn lemma_month_label(start: int, end: int, rung: int, now: int)
    requires
        day_ok(end),
        2 <= rung <= 3,
        civil_of(end).y < 10000,
    ensures
        label_leads(window_of(lower_seq(band_text(rung, start, end).2.skip(5)), now), band_text(rung, start, end).0),
{
    lemma_civil_of(end);
    let c = civil_of(end);
    let (y, m) = (c.y as int, c.m as int);
    assert(band_text(rung, start, end).2.skip(5) =~= pad(y as nat, 4) + seq!['-'] + pad(m as nat, 2));
    law_month_handle_names_its_month(end, now);
    let l = month_abbr(m) + seq![' '] + dec(y as nat);
    assert(l.take(month_abbr(m).len() as int) =~= month_abbr(m));
}

proof fn lemma_quarter_label(start: int, end: int, rung: int, now: int)
    requires
        day_ok(end),
        4 <= rung <= 5,
        civil_of(end).y < 10000,
    ensures
        label_leads(window_of(lower_seq(band_text(rung, start, end).2.skip(5)), now), band_text(rung, start, end).0),
{
    lemma_civil_of(end);
    let c = civil_of(end);
    let (y, m) = (c.y as int, c.m as int);
    let q = (m - 1) / 3 + 1;
    assert(band_text(rung, start, end).2.skip(5) =~= dec(y as nat) + seq!['-', 'q'] + dec(q as nat));
    law_quarter_handle_names_its_quarter(y, q, now);
    let lab = seq!['q'] + dec(q as nat);
    let l = lab + seq![' '] + dec(y as nat);
    assert(l.take(lab.len() as int) =~= lab);
}

proof fn lemma_year_label(start: int, end: int, rung: int, now: int)
    requires
        day_ok(end),
        6 <= rung,
        civil_of(end).y < 10000,
    ensures
        label_leads(window_of(lower_seq(band_text(rung, start, end).2.skip(5)), now), band_text(rung, start, end).0),
{
    lemma_civil_of(end);
    let y = civil_of(end).y as int;
    assert(band_text(rung, start, end).2.skip(5) =~= dec(y as nat));
    law_year_handle_names_its_year(y, now);
    assert(dec(y as nat).take(dec(y as nat).len() as int) =~= dec(y as nat));
}

/// A band's label is the start of how the grammar names the window its
/// handle reads back: `w34` for ISO week 34 (`w34`), `jul` for July 2026
/// (`jul 2026`), `q2` for the second quarter (`q2 2026`), `2026` for the
/// year (`2026`) — so a label names the same week, month, quarter or year
/// as the handle that descends into it.
pub proof fn law_band_labels_name_their_handles(
    rows: Seq<(u64, DayStats)>,
    obs: Seq<(u64, i64)>,
    frontier: int,
    budget: int,
    r: Seq<Band>,
    i: int,
    now: int,
)
    requires
        ladder(rows, obs, frontier, budget, r),
        0 <= i < r.len(),
        i + 1 < budget,
        day_ok(r[i].end as int),
        civil_of(r[i].end as int).y < 10000,
        i <= 1 ==> 1970 < iso_week_of(r[i].end as int).0 < 10000,
    ensures
        label_leads(window_of(lower_seq(r[i].handle@.skip(5)), now), r[i].label@),
{
    let b = r[i];
    let (start, end) = (b.start as int, b.end as int);
    assert(rung_band(rows, obs, rows[0].0 as int, i, b));
    assert(b.handle@ == band_text(i, start, end).2 && b.label@ == band_text(i, start, end).0);
    if i <= 1 {
        lemma_week_label(start, end, i, now);
    } else if i <= 3 {
        lemma_month_label(start, end, i, now);
    } else if i <= 5 {
        lemma_quarter_label(start, end, i, now);
    } else {
        lemma_year_label(start, end, i, now);
    }
}

// ---------------------------------------------------------------- bare weeks

/// Two multiples of seven differ by a multiple of seven, so two distinct
/// ones lie at least a week apart.
proof fn lemma_sevens(a: int, b: int)
    requires
        a % 7 == 0,
        b % 7 == 0,
    ensures
        (b - a) % 7 == 0,
        a < b ==> a + 7 <= b,
        a < b ==> b - a == 7 * ((b - a) / 7),
{
    assert(a == 7 * (a / 7)) by (nonlinear_arith)
        requires
            a % 7 == 0,
    ;
    assert(b == 7 * (b / 7)) by (nonlinear_arith)
        requires
            b % 7 == 0,
    ;
    let k = b / 7 - a / 7;
    assert(b - a == 7 * k);
    assert((b - a) % 7 == 0) by (nonlinear_arith)
        requires
            b - a == 7 * k,
    ;
    assert(a < b ==> a + 7 <= b) by (nonlinear_arith)
        requires
            b - a == 7 * k,
    ;
    assert(a < b ==> b - a == 7 * ((b - a) / 7)) by (nonlinear_arith)
        requires
            b - a == 7 * k,
    ;
}

/// Whole weeks after a multiple of seven are multiples of seven.
proof fn lemma_sevens_shift(a: int, k: int)
    requires
        a % 7 == 0,
    ensures
        (a + 7 * k) % 7 == 0,
{
    assert((a + 7 * k) % 7 == 0) by (nonlinear_arith)
        requires
            a % 7 == 0,
    ;
}

/// The Monday of ISO week 1 of year `y`: three days before the year's
/// first Thursday.
pub open spec fn week_one(y: int) -> int {
    let dd = crate::civil::days_before_year(y);
    dd + 3 - (dd + 6) % 7
}

#[verifier::spinoff_prover]
#[verifier::rlimit(30)]
proof fn lemma_week_one(y: int)
    requires
        1970 <= y,
    ensures
        crate::civil::days_before_year(y) <= week_one(y) + 3 <= crate::civil::days_before_year(y) + 6,
        (week_one(y) + 3) % 7 == 0,
        week_one(y + 1) - week_one(y) >= 364,
        week_one(y) >= -3,
{
    crate::ladder::lemma_civil_nonneg(y, 1);
    crate::civil::lemma_year_order(y, y + 1);
    crate::civil::lemma_leaps_step(y);
    let d0 = crate::civil::days_before_year(y);
    let d1 = crate::civil::days_before_year(y + 1);
    assert(d1 >= d0 + 365);
    let (a, b) = (week_one(y) + 3, week_one(y + 1) + 3);
    assert(a % 7 == 0 && b % 7 == 0);
    assert(b - a >= 359);
    lemma_sevens(a, b);
    let k = (b - a) / 7;
    assert(b - a >= 364) by (nonlinear_arith)
        requires
            b - a == 7 * k,
            b - a >= 359,
    ;
}

/// The week grammar's Monday of week `n` of ISO year `y`.
proof fn lemma_week_start_is(y: int, n: int)
    requires
        1970 < y,
        crate::civil::days_before_year(y) <= 0x1000_0000_0000_0000,
        1 <= n <= 53,
    ensures
        week_start(y, n) == Some(week_one(y) + 7 * (n - 1)),
{
    crate::ladder::lemma_civil_nonneg(y, 1);
    crate::civil::lemma_year_order(1970, y);
    assert(bucket_of(y, 1, 4) == crate::civil::days_before_year(y) + 3);
}

/// A day between the first days of years `y` and `y + 1` is in year `y`.
proof fn lemma_year_of(t: int, y: int)
    requires
        1970 <= y,
        crate::civil::bucket_in_range(t),
        crate::civil::days_before_year(y) <= t < crate::civil::days_before_year(y + 1),
    ensures
        civil_of(t).y == y,
{
    lemma_civil_of(t);
    let c = civil_of(t);
    crate::civil::lemma_date_in_year(c.y as int, c.m as int, c.d as int);
    if c.y < y {
        crate::civil::lemma_year_order(c.y as int, y);
    } else if c.y > y {
        crate::civil::lemma_year_order(y, c.y as int);
    }
}

/// A Monday between ISO week 1 of `y` and ISO week 1 of `y + 1` is in
/// ISO year `y`, counted from its week 1.
#[verifier::spinoff_prover]
#[verifier::rlimit(30)]
proof fn lemma_iso_in_year(y: int, m: int)
    requires
        1970 <= y,
        (m + 3) % 7 == 0,
        week_one(y) <= m < week_one(y + 1),
        crate::civil::bucket_in_range(m + 3),
        m >= 0,
    ensures
        iso_week_of(m) == (y, (m - week_one(y)) / 7 + 1),
        m == week_one(y) + 7 * (iso_week_of(m).1 - 1),
{
    lemma_week_one(y);
    lemma_week_one(y + 1);
    let t = m + 3;
    assert(iso_thursday(m) == t);
    let d0 = crate::civil::days_before_year(y);
    let d1 = crate::civil::days_before_year(y + 1);
    let t4n = week_one(y + 1) + 3;
    lemma_sevens(t, t4n);
    assert(t < d1);
    lemma_year_of(t, y);
    let w1 = week_one(y) + 3;
    lemma_sevens(w1, t);
    let k = (t - w1) / 7;
    assert(t - w1 == 7 * k);
    assert(m - week_one(y) == 7 * k);
    let r = w1 - d0;
    assert(0 <= r < 7);
    assert((t - d0) / 7 == k) by (nonlinear_arith)
        requires
            t - d0 == 7 * k + r,
            0 <= r < 7,
    ;
    assert((m - week_one(y)) / 7 == k) by (nonlinear_arith)
        requires
            m - week_one(y) == 7 * k,
    ;
}

/// `wNN` reads as one bare week piece.
proof fn lemma_bare_week_text(n: int, now: int)
    requires
        1 <= n <= 53,
    ensures
        window_of(lower_seq(seq!['w'] + dec(n as nat)), now) == named_window(seq![seq!['w'] + dec(n as nat)], now),
        parse_u32((seq!['w'] + dec(n as nat)).drop_first()) == Some(n as u32),
{
    lemma_dec(n as nat);
    let t = seq!['w'] + dec(n as nat);
    assert forall|i: int| 0 <= i < t.len() implies lower(#[trigger] t[i]) == t[i] && t[i] != '.' && t[i] != '-' by {
        if i > 0 {
            assert(t[i] == dec(n as nat)[i - 1]);
        }
    }
    assert(lower_seq(t) =~= t);
    lemma_no_dots(t);
    lemma_find_char_none(t, '-');
    let parts = split_dash(t);
    assert(parts == seq![t]);
    assert(!is_digit(t[0]));
    assert(!all_digits(parts[0]));
    assert(!all_numeric(parts));
    assert(t.drop_first() =~= dec(n as nat));
    lemma_parse_pad(n as nat, 1);
    assert(pad(n as nat, 1) == dec(n as nat));
}

/// What the grammar does with a bare `wNN`: week `n` of the ISO year of
/// today, or of the year before when that week has not begun.
proof fn lemma_bare_week_named(n: int, now: int)
    requires
        1 <= n <= 53,
    ensures
        ({
            let t = seq!['w'] + dec(n as nat);
            let y = iso_week_of(now).0;
            named_window(seq![t], now) == match week_start(y, n) {
                None => WinOut::Overflow,
                Some(s) => if s > now { week_out(week_start(y - 1, n), now, n) } else { week_out(Some(s), now, n) },
            }
        }),
{
    lemma_bare_week_text(n, now);
    lemma_dec(n as nat);
    let t = seq!['w'] + dec(n as nat);
    let parts = seq![t];
    assert(parts.len() == 1);
    assert(parts[0] == t);
    assert(t.len() > 0 && t[0] == 'w');
    reveal(named_window);
}

/// Today's Monday lies in the ISO year of today, between its week 1 and
/// the next year's.
#[verifier::spinoff_prover]
#[verifier::rlimit(30)]
proof fn lemma_monday_in_iso_year(now: int)
    requires
        day_ok(now),
        1972 <= iso_week_of(now).0,
    ensures
        ({
            let y = iso_week_of(now).0;
            let mon = now - (now + 3) % 7;
            &&& week_one(y) <= mon < week_one(y + 1)
            &&& 0 <= mon <= now
            &&& (mon + 3) % 7 == 0
            &&& crate::civil::bucket_in_range(mon + 3)
            &&& week_one(y - 1) >= 0
            &&& week_one(y) - week_one(y - 1) >= 364
            &&& crate::civil::days_before_year(y) <= 0x1000_0000_0000_0000
        }),
{
    let y = iso_week_of(now).0;
    let (_, wn) = iso_week_of(now);
    let mon = now - (now + 3) % 7;
    let t = iso_thursday(now);
    lemma_thursday_mult(now);
    lemma_week_start_of(now);
    lemma_civil_of(t);
    assert(civil_of(t).y == y);
    assert(crate::civil::days_before_year(y) <= t < crate::civil::days_before_year(y + 1)) by {
        let c = civil_of(t);
        crate::civil::lemma_date_in_year(c.y as int, c.m as int, c.d as int);
    }
    lemma_week_one(y);
    lemma_week_one(y - 1);
    lemma_week_one(y + 1);
    assert(week_one(y) <= mon) by {
        lemma_week_start_is(y, wn);
    }
    assert(week_one(y - 1) >= 0) by {
        crate::civil::lemma_year_order(1970, y - 1);
        assert(crate::civil::leaps_through(1970) == crate::civil::leaps_through(1969));
    }
}

/// Where today's Monday `mon` stands in ISO year `y`.
pub open spec fn monday_in_year(mon: int, now: int, y: int) -> bool {
    &&& week_one(y) <= mon < week_one(y + 1)
    &&& 0 <= mon <= now
    &&& (mon + 3) % 7 == 0
    &&& crate::civil::bucket_in_range(mon + 3)
    &&& week_one(y - 1) >= 0
}

/// The Monday of week `n` in year `y`, or in the year before when that
/// one is after today.
pub open spec fn bare_week_monday(n: int, now: int, y: int) -> int {
    let s0 = week_one(y) + 7 * (n - 1);
    if s0 > now { week_one(y - 1) + 7 * (n - 1) } else { s0 }
}

/// The Monday a bare week picks is on or before today and starts an ISO
/// week `n`.
#[verifier::spinoff_prover]
#[verifier::rlimit(30)]
proof fn lemma_bare_week_monday(n: int, now: int, y: int, mon: int)
    requires
        1 <= n <= 52,
        1972 <= y,
        monday_in_year(mon, now, y),
        mon == now - (now + 3) % 7,
    ensures
        ({
            let s = bare_week_monday(n, now, y);
            0 <= s <= now && (s + 3) % 7 == 0 && iso_week_of(s).1 == n
        }),
{
    lemma_week_one(y);
    lemma_week_one(y - 1);
    let s0 = week_one(y) + 7 * (n - 1);
    let s1 = week_one(y - 1) + 7 * (n - 1);
    if s0 > now {
        lemma_sevens_shift(week_one(y - 1) + 3, n - 1);
        assert(s1 < week_one(y));
        lemma_iso_in_year(y - 1, s1);
    } else {
        lemma_sevens_shift(week_one(y) + 3, n - 1);
        lemma_sevens(mon + 3, s0 + 3);
        assert(now - mon < 7);
        assert(s0 <= mon);
        lemma_iso_in_year(y, s0);
    }
}

/// No Monday after the picked one, up to today, starts an ISO week `n`.
#[verifier::spinoff_prover]
#[verifier::rlimit(30)]
proof fn lemma_bare_week_no_later(n: int, now: int, y: int, mon: int, m: int)
    requires
        1 <= n <= 52,
        1972 <= y,
        monday_in_year(mon, now, y),
        mon == now - (now + 3) % 7,
        bare_week_monday(n, now, y) < m <= now,
        (m + 3) % 7 == 0,
    ensures
        iso_week_of(m).1 != n,
{
    lemma_week_one(y);
    lemma_week_one(y - 1);
    let s0 = week_one(y) + 7 * (n - 1);
    lemma_sevens(mon + 3, m + 3);
    assert(m <= mon);
    if m < week_one(y) {
        lemma_iso_in_year(y - 1, m);
    } else {
        lemma_iso_in_year(y, m);
    }
}

/// Which Monday a bare week `n` picks, and that it is the latest one
/// of week `n` up to today.
#[verifier::spinoff_prover]
#[verifier::rlimit(30)]
proof fn lemma_bare_week_pick(n: int, now: int)
    requires
        1 <= n <= 52,
        day_ok(now),
        1972 <= iso_week_of(now).0,
    ensures
        ({
            let y = iso_week_of(now).0;
            let s0 = week_one(y) + 7 * (n - 1);
            let s1 = week_one(y - 1) + 7 * (n - 1);
            let s = if s0 > now { s1 } else { s0 };
            &&& week_start(y, n) == Some(s0)
            &&& week_start(y - 1, n) == Some(s1)
            &&& 0 <= s <= now
            &&& s + 6 <= u64_max()
            &&& (s + 3) % 7 == 0
            &&& iso_week_of(s).1 == n
            &&& forall|m: int| s < m <= now && (m + 3) % 7 == 0 ==> #[trigger] iso_week_of(m).1 != n
        }),
{
    let y = iso_week_of(now).0;
    lemma_monday_in_iso_year(now);
    assert(week_start(y, n) == Some(week_one(y) + 7 * (n - 1))) by {
        lemma_week_start_is(y, n);
    }
    assert(week_start(y - 1, n) == Some(week_one(y - 1) + 7 * (n - 1))) by {
        crate::civil::lemma_year_order(y - 1, y);
        lemma_week_start_is(y - 1, n);
    }
    let mon = now - (now + 3) % 7;
    assert(monday_in_year(mon, now, y));
    lemma_bare_week_monday(n, now, y, mon);
    assert forall|m: int| #![trigger iso_week_of(m)]
        bare_week_monday(n, now, y) < m <= now && (m + 3) % 7 == 0 implies iso_week_of(m).1 != n by {
        lemma_bare_week_no_later(n, now, y, mon, m);
    }
}

/// A bare `wNN` names the latest ISO week `n` that has begun: its Monday
/// is on or before today, no later Monday up to today starts a week `n`,
/// and the window runs from that Monday to its Sunday or to today — for
/// the week numbers every ISO year has (1 to 52), from ISO year 1972 on.
pub proof fn law_bare_week_is_the_latest(n: int, now: int)
    requires
        1 <= n <= 52,
        day_ok(now),
        1972 <= iso_week_of(now).0,
    ensures
        window_of(lower_seq(seq!['w'] + dec(n as nat)), now) matches WinOut::Win(s, e, _) && {
            &&& s <= now
            &&& (s + 3) % 7 == 0
            &&& iso_week_of(s as int).1 == n
            &&& e == (if s + 6 <= now { s + 6 } else { now })
            &&& forall|m: int| s < m <= now && (m + 3) % 7 == 0 ==> #[trigger] iso_week_of(m).1 != n
        },
{
    lemma_bare_week_text(n, now);
    lemma_bare_week_named(n, now);
    lemma_bare_week_pick(n, now);
}

} // verus!
