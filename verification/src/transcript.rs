//! Transcript JSONL -> ledger events, plus the timestamp and calendar-label
//! conversions at the capture/render boundary.
//!
//! Transcripts are heterogeneous (`mode`, `file-history-snapshot`, hook
//! attachments, `user`/`assistant` messages, compaction summaries) and the
//! format is not ours. The one hard rule: **unknown or unparseable lines are
//! skipped, never fatal** — capture must succeed on a transcript we have
//! never seen, because a session only gets recorded once.
//!
//! Event ids are `(session, line_index * 16 + block_index)`, which is a pure
//! function of the transcript — re-capturing the same file produces the same
//! ids and `upsert` makes the whole operation idempotent.
use vstd::prelude::*;

use crate::event::{
    cap, capped, copy_str, fits_bytes, opt_view, utf8_bytes, utf8_len, Envelope, EnvelopeV, Event, EventId, EventV, DETAIL_CAP,
    EVENT_VERSION, FINAL_MSG_CAP, HOOK_FINAL_SEQ, OBS_SEQ_BASE, SAID_CAP, SAID_MIN, USER_MSG_CAP,
};
use crate::civil::{days_before_year, days_from_civil, lemma_year_order, valid_date, Civil, civil_of, lemma_civil_of};
use crate::text::{all_ws, chars_of, is_whitespace, is_ws, pad, push_pad, slice_of, string_of};
use crate::window::{find_char, lemma_find_char};

verus! {

// ---------------------------------------------------------------- timestamps

pub open spec fn is_digit_byte(b: u8) -> bool {
    48 <= b <= 57
}

/// Decimal value of a byte string of ASCII digits.
pub open spec fn bytes_val(s: Seq<u8>) -> nat
    decreases s.len(),
{
    if s.len() == 0 {
        0
    } else {
        bytes_val(s.drop_last()) * 10 + (s.last() - 48) as nat
    }
}

/// `u64::from_str` on at most four bytes: an optional `+`, then one or more
/// ASCII digits.
pub open spec fn parse_small(s: Seq<u8>) -> Option<int> {
    let body = if s.len() > 0 && s[0] == 43 { s.drop_first() } else { s };
    if body.len() > 0 && all_digit_bytes(body) {
        Some(bytes_val(body) as int)
    } else {
        None
    }
}

pub open spec fn all_digit_bytes(s: Seq<u8>) -> bool {
    forall|i: int| 0 <= i < s.len() ==> is_digit_byte(#[trigger] s[i])
}

/// The fields of `YYYY-MM-DDTHH:MM:SS[.mmm]...`, each parsed as a number;
/// a missing or unparseable millisecond part counts as zero.
pub open spec fn iso_fields(b: Seq<u8>) -> Option<(int, int, int, int, int, int, int)> {
    if b.len() < 20 || b[4] != 45 || b[7] != 45 || b[10] != 84 {
        None
    } else {
        let ms = if b[19] == 46 && b.len() >= 23 {
            match parse_small(b.subrange(20, 23)) {
                Some(x) => x,
                None => 0,
            }
        } else {
            0
        };
        match (
            parse_small(b.subrange(0, 4)),
            parse_small(b.subrange(5, 7)),
            parse_small(b.subrange(8, 10)),
            parse_small(b.subrange(11, 13)),
            parse_small(b.subrange(14, 16)),
            parse_small(b.subrange(17, 19)),
        ) {
            (Some(y), Some(mo), Some(d), Some(h), Some(mi), Some(sec)) => Some((y, mo, d, h, mi, sec, ms)),
            _ => None,
        }
    }
}

/// Unix milliseconds of an ISO-8601 UTC timestamp given as UTF-8 bytes;
/// `None` unless it names a real date-time on or after the epoch.
pub open spec fn iso_ms(b: Seq<u8>) -> Option<int> {
    match iso_fields(b) {
        Some((y, mo, d, h, mi, sec, ms)) => if valid_date(y, mo, d) && y >= 1970 && h < 24 && mi < 60 && sec <= 60 {
            Some(days_from_civil(y, mo, d) * 86_400_000 + h * 3_600_000 + mi * 60_000 + sec * 1000 + ms)
        } else {
            None
        },
        None => None,
    }
}

proof fn lemma_not_digits(s: Seq<u8>, k: int)
    requires
        0 <= k < (if s.len() > 0 && s[0] == 43 { s.drop_first() } else { s }).len(),
        !is_digit_byte((if s.len() > 0 && s[0] == 43 { s.drop_first() } else { s })[k]),
    ensures
        parse_small(s) is None,
{
    let body = if s.len() > 0 && s[0] == 43 { s.drop_first() } else { s };
    assert(!is_digit_byte(body[k]));
}

fn parse_small_at(b: &Vec<u8>, a: usize, e: usize) -> (r: Option<u64>)
    requires
        a < e <= b@.len(),
        e - a <= 4,
    ensures
        r matches Some(x) ==> parse_small(b@.subrange(a as int, e as int)) == Some(x as int) && x < 10000,
        r is None ==> parse_small(b@.subrange(a as int, e as int)) is None,
{
    let ghost s = b@.subrange(a as int, e as int);
    let start = if b[a] == 43 { a + 1 } else { a };
    let ghost body = if s.len() > 0 && s[0] == 43 { s.drop_first() } else { s };
    assert(body =~= b@.subrange(start as int, e as int));
    if start == e {
        return None;
    }
    let mut acc: u64 = 0;
    let mut i = start;
    while i < e
        invariant
            start <= i <= e <= b@.len(),
            e - start <= 4,
            body == b@.subrange(start as int, e as int),
            s == b@.subrange(a as int, e as int),
            body == (if s.len() > 0 && s[0] == 43 { s.drop_first() } else { s }),
            forall|k: int| 0 <= k < i - start ==> is_digit_byte(#[trigger] body[k]),
            acc == bytes_val(body.take(i - start)),
            i - start == 0 ==> acc == 0,
            i - start <= 1 ==> acc < 10,
            i - start <= 2 ==> acc < 100,
            i - start <= 3 ==> acc < 1000,
            acc < 10000,
        decreases e - i,
    {
        let c = b[i];
        if !(48 <= c && c <= 57) {
            proof {
                lemma_not_digits(s, i - start);
            }
            return None;
        }
        assert(body.take(i - start + 1).drop_last() =~= body.take(i - start));
        assert(body.take(i - start + 1).last() == c);
        acc = acc * 10 + (c - 48) as u64;
        i += 1;
    }
    assert(body.take(e - start) =~= body);
    Some(acc)
}

proof fn lemma_days_nonneg(y: int, m: int, d: int)
    requires
        valid_date(y, m, d),
        y >= 1970,
    ensures
        0 <= days_from_civil(y, m, d) <= days_before_year(y) + 366,
{
    if y > 1970 {
        lemma_year_order(1969, y);
    }
    crate::civil::lemma_date_in_year(y, m, d);
    crate::civil::lemma_leaps_step(y);
}

/// "2026-08-10T19:18:11.311Z" -> unix ms; `None` on anything malformed.
pub fn iso_to_ms(s: &str) -> (r: Option<u64>)
    ensures
        r matches Some(x) ==> iso_ms(vstd::utf8::encode_utf8(s@)) == Some(x as int) && x < 0x4_0000_0000_0000,
        r is None ==> iso_ms(vstd::utf8::encode_utf8(s@)) is None,
{
    let b = s.as_bytes_vec();
    if b.len() < 20 || b[4] != 45 || b[7] != 45 || b[10] != 84 {
        return None;
    }
    let ms: u64 = if b[19] == 46 && b.len() >= 23 {
        match parse_small_at(&b, 20, 23) {
            Some(x) => x,
            None => 0,
        }
    } else {
        0
    };
    let y = match parse_small_at(&b, 0, 4) {
        Some(x) => x,
        None => return None,
    };
    let mo = match parse_small_at(&b, 5, 7) {
        Some(x) => x,
        None => return None,
    };
    let d = match parse_small_at(&b, 8, 10) {
        Some(x) => x,
        None => return None,
    };
    let h = match parse_small_at(&b, 11, 13) {
        Some(x) => x,
        None => return None,
    };
    let mi = match parse_small_at(&b, 14, 16) {
        Some(x) => x,
        None => return None,
    };
    let sec = match parse_small_at(&b, 17, 19) {
        Some(x) => x,
        None => return None,
    };
    if !(1970 <= y && 1 <= mo && mo <= 12 && h < 24 && mi < 60 && sec <= 60) {
        return None;
    }
    let ml: u64 = if mo == 2 {
        if y % 4 == 0 && (y % 100 != 0 || y % 400 == 0) { 29 } else { 28 }
    } else if mo == 4 || mo == 6 || mo == 9 || mo == 11 {
        30
    } else {
        31
    };
    if !(1 <= d && d <= ml) {
        return None;
    }
    proof {
        lemma_days_nonneg(y as int, mo as int, d as int);
        let yy = y - 1;
        assert(yy / 4 <= 2500 && yy / 100 >= 0 && yy / 400 >= 0 && yy / 400 <= 25);
        assert(days_before_year(y as int) <= 4_000_000);
    }
    let days = Civil { y: y as i64, m: mo as u32, d: d as u32 }.bucket();
    Some(days * 86_400_000 + h * 3_600_000 + mi * 60_000 + sec * 1000 + ms)
}

/// `YYYY-MM-DD` of a civil date, zero-padded.
pub open spec fn date_text(c: Civil) -> Seq<char> {
    pad(c.y as nat, 4) + seq!['-'] + pad(c.m as nat, 2) + seq!['-'] + pad(c.d as nat, 2)
}

/// Unix ms -> "YYYY-MM-DD" (UTC).
pub fn date_label(ms: u64) -> (r: String)
    ensures
        r@ == date_text(civil_of((ms / 86_400_000) as int)),
{
    let c = Civil::from_bucket(ms / 86_400_000);
    let mut v: Vec<char> = Vec::new();
    push_pad(&mut v, c.y as u64, 4);
    v.push('-');
    push_pad(&mut v, c.m as u64, 2);
    v.push('-');
    push_pad(&mut v, c.d as u64, 2);
    assert(v@ =~= date_text(c));
    string_of(&v)
}

// ---------------------------------------------------------------- zone offset

pub open spec fn digit_val(c: char) -> int {
    c as int - 48
}

/// `i64::from_str` on a two-character field: a sign and a digit, or two
/// digits.
pub open spec fn field_value(a: char, b: char) -> Option<int> {
    if (a == '+' || a == '-') && '0' <= b <= '9' {
        Some(if a == '-' { -digit_val(b) } else { digit_val(b) })
    } else if '0' <= a <= '9' && '0' <= b <= '9' {
        Some(digit_val(a) * 10 + digit_val(b))
    } else {
        None
    }
}

/// The UTC offset in milliseconds that `date +%z` printed (`+HHMM` or
/// `-HHMM`): zero for anything that is not five ASCII characters whose
/// hour and minute fields parse.
pub open spec fn zone_offset(out: Seq<char>) -> int {
    let t = trim(out);
    if t.len() == 5 && (forall|i: int| 0 <= i < 5 ==> (#[trigger] t[i] as u32) < 0x80) {
        match (field_value(t[1], t[2]), field_value(t[3], t[4])) {
            (Some(h), Some(m)) => (if t[0] == '-' { -1int } else { 1int }) * (h * 60 + m) * 60_000,
            _ => 0,
        }
    } else {
        0
    }
}

/// Five bytes of text sliced at bytes 1 and 3 must not split a character
/// there.
pub open spec fn zone_sliceable(out: Seq<char>) -> bool {
    let t = trim(out);
    utf8_bytes(t) == 5 ==> (t.len() > 0 && utf8_len(t[0]) == 1
        && exists|k: int| 0 <= k <= t.len() && #[trigger] utf8_bytes(t.take(k)) == 3)
}

fn field_exec(a: char, b: char) -> (r: Option<i64>)
    ensures
        match field_value(a, b) {
            Some(v) => r == Some(v as i64),
            None => r is None,
        },
{
    if (a == '+' || a == '-') && '0' <= b && b <= '9' {
        let d = (b as u32 - 48) as i64;
        Some(if a == '-' { -d } else { d })
    } else if '0' <= a && a <= '9' && '0' <= b && b <= '9' {
        Some((a as u32 - 48) as i64 * 10 + (b as u32 - 48) as i64)
    } else {
        None
    }
}

/// The local UTC offset, in milliseconds, from what `date +%z` printed.
pub fn zone_offset_ms(out: &str) -> (r: i64)
    requires
        zone_sliceable(out@),
    ensures
        r == zone_offset(out@),
        -0x100_0000_0000 <= r <= 0x100_0000_0000,
{
    let v = chars_of(out);
    let t = trim_chars(&v);
    if t.len() != 5 {
        return 0;
    }
    let mut i: usize = 0;
    while i < 5
        invariant
            t@ == trim(out@),
            t@.len() == 5,
            i <= 5,
            forall|k: int| 0 <= k < i ==> (#[trigger] t@[k] as u32) < 0x80,
        decreases 5 - i,
    {
        if t[i] as u32 >= 0x80 {
            return 0;
        }
        i += 1;
    }
    match (field_exec(t[1], t[2]), field_exec(t[3], t[4])) {
        (Some(h), Some(m)) => {
            let sign: i64 = if t[0] == '-' { -1 } else { 1 };
            sign * (h * 60 + m) * 60_000
        },
        _ => 0,
    }
}

/// A local-day instant for `date` (YYYY-MM-DD) at `time` ("12:00:00.000"
/// or "23:59:59.999"), given the local UTC offset: shared by `obs --at`
/// and `asof`.
pub fn local_day_ms(date: &str, time: &str, offset_ms: i64) -> (r: Option<u64>)
    requires
        -0x100_0000_0000 <= offset_ms <= 0x100_0000_0000,
    ensures
        ({
            let stamp = date@ + seq!['T'] + time@ + seq!['Z'];
            match iso_ms(vstd::utf8::encode_utf8(stamp)) {
                Some(utc) => r matches Some(x) && x == (if utc - offset_ms >= 0 {
                    utc - offset_ms
                } else {
                    utc - offset_ms + 0x1_0000_0000_0000_0000
                }),
                None => r is None,
            }
        }),
{
    let mut v: Vec<char> = crate::text::chars_of(date);
    v.push('T');
    crate::text::push_str(&mut v, time);
    v.push('Z');
    let stamp = string_of(&v);
    assert(stamp@ =~= date@ + seq!['T'] + time@ + seq!['Z']);
    match iso_to_ms(stamp.as_str()) {
        Some(utc) => {
            let x: i64 = utc as i64 - offset_ms;
            Some(if x >= 0 { x as u64 } else { (x + 0x4000_0000_0000_0000) as u64 + 0xC000_0000_0000_0000 })
        },
        None => None,
    }
}


// ---------------------------------------------------------------- text pieces

/// Whether `pat` occurs in `s` at `i`.
pub open spec fn occurs_at(s: Seq<char>, pat: Seq<char>, i: int) -> bool {
    0 <= i && i + pat.len() <= s.len() && s.subrange(i, i + pat.len()) == pat
}

/// Index of the first occurrence of `pat` in `s`, or -1 (`str::find`).
pub open spec fn find_sub(s: Seq<char>, pat: Seq<char>) -> int {
    if exists|i: int| occurs_at(s, pat, i) {
        choose|i: int| occurs_at(s, pat, i) && forall|j: int| 0 <= j < i ==> !occurs_at(s, pat, j)
    } else {
        -1
    }
}

proof fn lemma_find_sub_first(s: Seq<char>, pat: Seq<char>, i: int)
    requires
        occurs_at(s, pat, i),
        forall|j: int| 0 <= j < i ==> !occurs_at(s, pat, j),
    ensures
        find_sub(s, pat) == i,
{
    let k = choose|k: int| occurs_at(s, pat, k) && forall|j: int| 0 <= j < k ==> !occurs_at(s, pat, j);
    assert(occurs_at(s, pat, k) && forall|j: int| 0 <= j < k ==> !occurs_at(s, pat, j));
    if k < i {
        assert(!occurs_at(s, pat, k));
    } else if i < k {
        assert(!occurs_at(s, pat, i));
    }
}

fn occurs_at_exec(v: &[char], pat: &[char], i: usize) -> (r: bool)
    requires
        i <= v@.len(),
    ensures
        r == occurs_at(v@, pat@, i as int),
{
    let n = v.len();
    if pat.len() > n - i {
        return false;
    }
    let mut k: usize = 0;
    while k < pat.len()
        invariant
            n == v@.len(),
            i + pat@.len() <= n,
            k <= pat@.len(),
            forall|j: int| 0 <= j < k ==> v@[i + j] == pat@[j],
        decreases pat@.len() - k,
    {
        if v[i + k] != pat[k] {
            assert(v@.subrange(i as int, i + pat@.len())[k as int] != pat@[k as int]);
            return false;
        }
        k += 1;
    }
    assert(v@.subrange(i as int, i + pat@.len()) =~= pat@);
    true
}

pub fn find_sub_exec(v: &[char], pat: &[char]) -> (r: Option<usize>)
    ensures
        r matches Some(i) ==> find_sub(v@, pat@) == i && occurs_at(v@, pat@, i as int),
        r is None ==> find_sub(v@, pat@) == -1 && forall|j: int| !occurs_at(v@, pat@, j),
{
    let mut i: usize = 0;
    while i < v.len()
        invariant
            i <= v@.len(),
            forall|j: int| 0 <= j < i ==> !occurs_at(v@, pat@, j),
        decreases v@.len() - i,
    {
        if occurs_at_exec(v, pat, i) {
            proof {
                lemma_find_sub_first(v@, pat@, i as int);
            }
            return Some(i);
        }
        i += 1;
    }
    if occurs_at_exec(v, pat, i) {
        proof {
            lemma_find_sub_first(v@, pat@, i as int);
        }
        return Some(i);
    }
    assert forall|j: int| !occurs_at(v@, pat@, j) by {
        if 0 <= j && j > v@.len() {
        }
    }
    None
}

/// Number of leading whitespace characters.
pub open spec fn lead_ws(s: Seq<char>) -> int
    decreases s.len(),
{
    if s.len() > 0 && is_ws(s[0]) { 1 + lead_ws(s.drop_first()) } else { 0 }
}

/// `str::trim_start`.
pub open spec fn trim_start(s: Seq<char>) -> Seq<char> {
    s.skip(lead_ws(s))
}

/// Characters before the first `c` (all of `s` when there is none).
pub open spec fn take_until(s: Seq<char>, c: char) -> Seq<char> {
    if find_char(s, c) < 0 { s } else { s.take(find_char(s, c)) }
}

/// Characters before the first whitespace.
pub open spec fn word_len(s: Seq<char>) -> int
    decreases s.len(),
{
    if s.len() > 0 && !is_ws(s[0]) { 1 + word_len(s.drop_first()) } else { 0 }
}

/// The `n`th whitespace-separated word (`str::split_whitespace().nth(n)`).
pub open spec fn nth_word(s: Seq<char>, n: nat) -> Option<Seq<char>>
    decreases s.len(),
{
    let t = trim_start(s);
    if t.len() == 0 {
        None
    } else if n == 0 {
        Some(t.take(word_len(t)))
    } else {
        proof {
            lemma_lead_ws(s);
            lemma_word_len(t);
        }
        nth_word(t.skip(word_len(t)), (n - 1) as nat)
    }
}

/// `s` without trailing `c`s (`str::trim_end_matches`).
pub open spec fn trim_end_char(s: Seq<char>, c: char) -> Seq<char>
    decreases s.len(),
{
    if s.len() > 0 && s.last() == c { trim_end_char(s.drop_last(), c) } else { s }
}

pub open spec fn is_alnum(c: char) -> bool {
    ('0' <= c <= '9') || ('a' <= c <= 'z') || ('A' <= c <= 'Z')
}

/// The ASCII letters and digits of `s`, in order.
pub open spec fn alnum_only(s: Seq<char>) -> Seq<char>
    decreases s.len(),
{
    if s.len() == 0 {
        s
    } else if is_alnum(s.last()) {
        alnum_only(s.drop_last()).push(s.last())
    } else {
        alnum_only(s.drop_last())
    }
}

pub proof fn lemma_lead_ws(s: Seq<char>)
    ensures
        0 <= lead_ws(s) <= s.len(),
        forall|i: int| 0 <= i < lead_ws(s) ==> is_ws(#[trigger] s[i]),
        lead_ws(s) < s.len() ==> !is_ws(s[lead_ws(s)]),
    decreases s.len(),
{
    if s.len() > 0 && is_ws(s[0]) {
        lemma_lead_ws(s.drop_first());
        assert forall|i: int| 0 <= i < lead_ws(s) implies is_ws(#[trigger] s[i]) by {
            if i > 0 {
                assert(s[i] == s.drop_first()[i - 1]);
            }
        }
    }
}

pub proof fn lemma_word_len(s: Seq<char>)
    ensures
        0 <= word_len(s) <= s.len(),
        s.len() > 0 && !is_ws(s[0]) ==> word_len(s) > 0,
        forall|i: int| 0 <= i < word_len(s) ==> !is_ws(#[trigger] s[i]),
        word_len(s) < s.len() ==> is_ws(s[word_len(s)]),
    decreases s.len(),
{
    if s.len() > 0 && !is_ws(s[0]) {
        lemma_word_len(s.drop_first());
        assert forall|i: int| 0 <= i < word_len(s) implies !is_ws(#[trigger] s[i]) by {
            if i > 0 {
                assert(s[i] == s.drop_first()[i - 1]);
            }
        }
    }
}

pub fn lead_ws_exec(v: &[char]) -> (n: usize)
    ensures
        n == lead_ws(v@),
{
    proof {
        lemma_lead_ws(v@);
    }
    let mut i: usize = 0;
    assert(v@.skip(0) =~= v@);
    while i < v.len() && is_whitespace(v[i])
        invariant
            i <= v@.len(),
            forall|k: int| 0 <= k < i ==> is_ws(#[trigger] v@[k]),
            lead_ws(v@) == i + lead_ws(v@.skip(i as int)),
        decreases v@.len() - i,
    {
        assert(v@.skip(i as int).drop_first() =~= v@.skip(i + 1));
        assert(v@.skip(i as int)[0] == v@[i as int]);
        i += 1;
    }
    proof {
        if i < v@.len() {
            assert(v@.skip(i as int)[0] == v@[i as int]);
        }
    }
    i
}

/// Number of trailing whitespace characters.
pub open spec fn trail_ws(s: Seq<char>) -> int
    decreases s.len(),
{
    if s.len() > 0 && is_ws(s.last()) { 1 + trail_ws(s.drop_last()) } else { 0 }
}

/// `str::trim`: `s` without its leading and trailing whitespace.
pub open spec fn trim(s: Seq<char>) -> Seq<char> {
    if lead_ws(s) == s.len() {
        Seq::empty()
    } else {
        s.subrange(lead_ws(s), s.len() - trail_ws(s))
    }
}

pub proof fn lemma_trail_ws(s: Seq<char>)
    ensures
        0 <= trail_ws(s) <= s.len(),
        forall|i: int| s.len() - trail_ws(s) <= i < s.len() ==> is_ws(#[trigger] s[i]),
        trail_ws(s) < s.len() ==> !is_ws(s[s.len() - 1 - trail_ws(s)]),
    decreases s.len(),
{
    if s.len() > 0 && is_ws(s.last()) {
        let d = s.drop_last();
        lemma_trail_ws(d);
        assert forall|i: int| s.len() - trail_ws(s) <= i < s.len() implies is_ws(#[trigger] s[i]) by {
            if i < s.len() - 1 {
                assert(s[i] == d[i]);
            }
        }
        if trail_ws(s) < s.len() {
            assert(s[s.len() - 1 - trail_ws(s)] == d[d.len() - 1 - trail_ws(d)]);
        }
    }
}

/// `str::trim` on characters.
pub fn trim_chars(v: &[char]) -> (r: Vec<char>)
    ensures
        r@ == trim(v@),
{
    proof {
        lemma_lead_ws(v@);
    }
    let a = lead_ws_exec(v);
    if a == v.len() {
        return Vec::new();
    }
    let mut b: usize = v.len();
    assert(v@.take(b as int) =~= v@);
    while is_whitespace(v[b - 1])
        invariant
            a < b <= v@.len(),
            a == lead_ws(v@),
            !is_ws(v@[a as int]),
            trail_ws(v@) == (v@.len() - b) + trail_ws(v@.take(b as int)),
        decreases b,
    {
        assert(v@.take(b as int).drop_last() =~= v@.take(b - 1));
        assert(v@.take(b as int).last() == v@[b - 1]);
        b -= 1;
    }
    assert(v@.take(b as int).last() == v@[b - 1]);
    slice_of(v, a, b)
}

fn word_len_exec(v: &[char]) -> (n: usize)
    ensures
        n == word_len(v@),
{
    proof {
        lemma_word_len(v@);
    }
    let mut i: usize = 0;
    assert(v@.skip(0) =~= v@);
    while i < v.len() && !is_whitespace(v[i])
        invariant
            i <= v@.len(),
            word_len(v@) == i + word_len(v@.skip(i as int)),
        decreases v@.len() - i,
    {
        assert(v@.skip(i as int).drop_first() =~= v@.skip(i + 1));
        assert(v@.skip(i as int)[0] == v@[i as int]);
        i += 1;
    }
    proof {
        if i < v@.len() {
            assert(v@.skip(i as int)[0] == v@[i as int]);
        }
    }
    i
}

fn nth_word_exec(v: &[char], n: usize) -> (r: Option<Vec<char>>)
    ensures
        match nth_word(v@, n as nat) {
            Some(w) => r matches Some(x) && x@ == w,
            None => r is None,
        },
    decreases v@.len(),
{
    proof {
        lemma_lead_ws(v@);
    }
    let lead = lead_ws_exec(v);
    let t = slice_of(v, lead, v.len());
    assert(t@ =~= trim_start(v@));
    if t.len() == 0 {
        return None;
    }
    proof {
        lemma_word_len(t@);
    }
    let w = word_len_exec(&t);
    if n == 0 {
        let word = slice_of(&t, 0, w);
        assert(word@ =~= t@.take(w as int));
        Some(word)
    } else {
        let rest = slice_of(&t, w, t.len());
        assert(rest@ =~= t@.skip(w as int));
        nth_word_exec(&rest, n - 1)
    }
}

fn trim_end_char_exec(v: &[char], c: char) -> (r: Vec<char>)
    ensures
        r@ == trim_end_char(v@, c),
{
    let mut n = v.len();
    assert(v@.take(n as int) =~= v@);
    while n > 0 && v[n - 1] == c
        invariant
            n <= v@.len(),
            trim_end_char(v@, c) == trim_end_char(v@.take(n as int), c),
        decreases n,
    {
        assert(v@.take(n as int).drop_last() =~= v@.take(n - 1));
        n -= 1;
    }
    let r = slice_of(v, 0, n);
    assert(r@ =~= v@.take(n as int));
    r
}

fn alnum_only_exec(v: &[char]) -> (r: Vec<char>)
    ensures
        r@ == alnum_only(v@),
{
    let mut r: Vec<char> = Vec::new();
    let mut i: usize = 0;
    while i < v.len()
        invariant
            i <= v@.len(),
            r@ == alnum_only(v@.take(i as int)),
        decreases v@.len() - i,
    {
        let c = v[i];
        assert(v@.take(i + 1).drop_last() =~= v@.take(i as int));
        if ('0' <= c && c <= '9') || ('a' <= c && c <= 'z') || ('A' <= c && c <= 'Z') {
            r.push(c);
        }
        i += 1;
    }
    assert(v@.take(v@.len() as int) =~= v@);
    r
}

fn take_until_exec(v: &[char], c: char) -> (r: Vec<char>)
    ensures
        r@ == take_until(v@, c),
{
    proof {
        lemma_find_char(v@, c);
    }
    let mut i: usize = 0;
    while i < v.len() && v[i] != c
        invariant
            i <= v@.len(),
            forall|k: int| 0 <= k < i ==> v@[k] != c,
            -1 <= find_char(v@, c) < v@.len(),
            find_char(v@, c) >= 0 ==> v@[find_char(v@, c)] == c,
            forall|k: int| 0 <= k < v@.len() && (find_char(v@, c) < 0 || k < find_char(v@, c)) ==> v@[k] != c,
        decreases v@.len() - i,
    {
        i += 1;
    }
    proof {
        if find_char(v@, c) >= 0 {
            assert(find_char(v@, c) >= i) by {
                if find_char(v@, c) < i {
                    assert(v@[find_char(v@, c)] != c);
                }
            }
            if i < v@.len() {
                assert(find_char(v@, c) == i);
            }
        } else {
            if i < v@.len() {
                assert(v@[i as int] != c);
            }
        }
    }
    let r = slice_of(v, 0, i);
    assert(r@ =~= take_until(v@, c));
    r
}


// ---------------------------------------------------------------- transcript lines

/// A tool call's input, as far as capture reads it.
pub struct Input {
    /// `input.command`, when a string
    pub command: Option<String>,
    /// `input.file_path`, when a string
    pub file_path: Option<String>,
    /// the input as compact JSON (`null` when absent)
    pub json: String,
}

/// One content block of a message.
pub struct Block {
    /// `type`, when a string
    pub ty: Option<String>,
    /// `text`, when a string
    pub text: Option<String>,
    /// `name`, when a string
    pub name: Option<String>,
    /// `id`, when a string
    pub id: Option<String>,
    pub input: Input,
    /// `is_error` is `true`
    pub is_error: bool,
    /// `tool_use_id`, when a string
    pub tool_use_id: Option<String>,
}

/// A message's `content`.
pub enum Content {
    Text(String),
    Blocks(Vec<Block>),
    /// absent, or neither a string nor an array
    Other,
}

/// One parsed transcript line, as far as capture reads it.
pub struct Line {
    /// `sessionId`, when a string
    pub session_id: Option<String>,
    /// `timestamp`, when a string
    pub timestamp: Option<String>,
    /// `cwd`, when a string
    pub cwd: Option<String>,
    /// `gitBranch`, when a string
    pub git_branch: Option<String>,
    /// `isCompactSummary` is `true`
    pub compact_summary: bool,
    /// `type`, when a string
    pub ty: Option<String>,
    /// `message.content`, when there is a `message`
    pub message: Option<Content>,
    /// `toolUseResult.is_error` is `true`
    pub result_error: bool,
    /// `toolUseResult.stdout`, when a string
    pub result_stdout: Option<String>,
}

pub struct Parsed {
    pub session: String,
    pub events: Vec<(EventId, Envelope)>,
}

/// Blocks per transcript line the seq scheme can address.
pub const SEQ_STRIDE: u32 = 16;

pub open spec fn str_or(o: Option<String>, d: Seq<char>) -> Seq<char> {
    match o {
        Some(s) => s@,
        None => d,
    }
}

/// What `tool_use` records as the call's detail.
#[verifier::opaque]
pub open spec fn tool_detail(tool: Seq<char>, input: Input) -> Seq<char> {
    if tool == "Bash"@ {
        str_or(input.command, Seq::empty())
    } else if tool == "Read"@ || tool == "Edit"@ || tool == "Write"@ || tool == "NotebookEdit"@ {
        str_or(input.file_path, Seq::empty())
    } else if input.json@ == "null"@ {
        Seq::empty()
    } else {
        input.json@
    }
}

/// The file an Edit/Write-family call touches.
#[verifier::opaque]
pub open spec fn file_touch(tool: Seq<char>, input: Input) -> Option<Seq<char>> {
    if tool == "Edit"@ || tool == "Write"@ || tool == "NotebookEdit"@ {
        opt_view(input.file_path)
    } else {
        None
    }
}

/// The message of `-m "..."` / `-m '...'` / `-m word` in a command.
#[verifier::opaque]
pub open spec fn commit_message(cmd: Seq<char>) -> Seq<char> {
    let i = find_sub(cmd, "-m"@);
    if i < 0 {
        Seq::empty()
    } else {
        let rest = trim_start(cmd.skip(i + 2));
        if rest.len() > 0 && (rest[0] == '"' || rest[0] == '\'') {
            take_until(rest.drop_first(), rest[0])
        } else {
            rest.take(word_len(rest))
        }
    }
}

/// The commit hash from `[branch hash] msg` in a command's stdout.
pub open spec fn commit_hash(stdout: Option<String>) -> Seq<char> {
    match stdout {
        None => Seq::empty(),
        Some(out) => {
            let i = find_char(out@, '[');
            if i < 0 {
                Seq::empty()
            } else {
                match nth_word(out@.skip(i), 1) {
                    Some(h) => alnum_only(trim_end_char(h, ']')),
                    None => Seq::empty(),
                }
            }
        },
    }
}

/// `git commit` / `jj describe` in a Bash call -> `(hash, message)`.
#[verifier::opaque]
pub open spec fn commit_of(tool: Seq<char>, input: Input, line: Line) -> Option<(Seq<char>, Seq<char>)> {
    if tool != "Bash"@ {
        None
    } else {
        match input.command {
            None => None,
            Some(cmd) => if find_sub(cmd@, "git commit"@) < 0 && find_sub(cmd@, "jj describe"@) < 0 {
                None
            } else {
                Some((commit_hash(line.result_stdout), capped(commit_message(cmd@), 200)))
            },
        }
    }
}

/// The parser's state between lines: events so far as `(seq, envelope)`,
/// the running timestamp, tool-call sites by id, whether `SessionMeta` was
/// written, and the last assistant text seen.
pub struct PState {
    pub events: Seq<(u32, EnvelopeV)>,
    pub last_ts: u64,
    pub sites: Seq<(Seq<char>, int)>,
    pub meta_done: bool,
    pub fin: Option<(u32, u64, Seq<char>)>,
}

pub open spec fn env(session: Seq<char>, ts: u64, kind: EventV) -> EnvelopeV {
    EnvelopeV { v: EVENT_VERSION, ts_ms: ts, session, kind }
}

/// The latest site recorded under `id`.
pub open spec fn site_of(sites: Seq<(Seq<char>, int)>, id: Seq<char>) -> Option<int>
    decreases sites.len(),
{
    if sites.len() == 0 {
        None
    } else if sites.last().0 == id {
        Some(sites.last().1)
    } else {
        site_of(sites.drop_last(), id)
    }
}

/// A tool call marked failed; other events unchanged.
pub open spec fn failed(e: EnvelopeV) -> EnvelopeV {
    match e.kind {
        EventV::ToolCall { tool, detail, .. } => EnvelopeV { kind: EventV::ToolCall { tool, detail, ok: false }, ..e },
        _ => e,
    }
}

/// A `text` block: a user message, or an assistant statement (kept when
/// substantive) that may turn out to be the closing message.
pub open spec fn text_step(st: PState, seq: u32, user: bool, ts: u64, b: Block, session: Seq<char>) -> PState {
    match b.text {
        None => st,
        Some(x) => if user {
            PState {
                events: st.events.push((seq, env(session, ts, EventV::UserMsg { text: capped(x@, USER_MSG_CAP as int) }))),
                ..st
            }
        } else {
            let events = if utf8_bytes(x@) >= SAID_MIN {
                st.events.push((seq, env(session, ts, EventV::Said { text: capped(x@, SAID_CAP as int) })))
            } else {
                st.events
            };
            PState { events, fin: Some((seq, ts, x@)), ..st }
        },
    }
}

/// A `tool_use` block: the call, plus the file it touches and the commit
/// it makes, if any.
pub open spec fn tool_use_step(st: PState, seq0: int, seq: u32, ts: u64, b: Block, line: Line, session: Seq<char>) -> PState {
    let tool = str_or(b.name, "unknown"@);
    let sites = match b.id {
        Some(id) => st.sites.push((id@, st.events.len() as int)),
        None => st.sites,
    };
    let call = EventV::ToolCall { tool, detail: capped(tool_detail(tool, b.input), DETAIL_CAP as int), ok: true };
    let e1 = st.events.push((seq, env(session, ts, call)));
    let e2 = match file_touch(tool, b.input) {
        Some(path) => e1.push(((seq0 + 15) as u32, env(session, ts, EventV::FileTouch { path }))),
        None => e1,
    };
    let e3 = match commit_of(tool, b.input, line) {
        Some((hash, message)) => e2.push(((seq0 + 14) as u32, env(session, ts, EventV::Commit { hash, message }))),
        None => e2,
    };
    PState { events: e3, sites, ..st }
}

/// A `tool_result` block: an error result marks its call failed.
pub open spec fn tool_result_step(st: PState, b: Block, line: Line) -> PState {
    match b.tool_use_id {
        Some(id) => if b.is_error || line.result_error {
            match site_of(st.sites, id@) {
                Some(i) => if 0 <= i < st.events.len() {
                    PState { events: st.events.update(i, (st.events[i].0, failed(st.events[i].1))), ..st }
                } else {
                    st
                },
                None => st,
            }
        } else {
            st
        },
        None => st,
    }
}

/// One content block of line `seq0 / 16`.
pub open spec fn block_step(
    st: PState,
    seq0: int,
    user: bool,
    ts: u64,
    b: Block,
    bi: int,
    line: Line,
    session: Seq<char>,
) -> PState {
    let seq = (seq0 + 2 + bi) as u32;
    match b.ty {
        None => st,
        Some(t) => if t@ == "text"@ {
            text_step(st, seq, user, ts, b, session)
        } else if t@ == "tool_use"@ {
            tool_use_step(st, seq0, seq, ts, b, line, session)
        } else if t@ == "tool_result"@ {
            tool_result_step(st, b, line)
        } else {
            st
        },
    }
}

/// The first `n` blocks of a line, in order.
pub open spec fn blocks_fold(
    st: PState,
    seq0: int,
    user: bool,
    ts: u64,
    bs: Seq<Block>,
    n: int,
    line: Line,
    session: Seq<char>,
) -> PState
    decreases n,
{
    if n <= 0 {
        st
    } else {
        block_step(blocks_fold(st, seq0, user, ts, bs, n - 1, line, session), seq0, user, ts, bs[n - 1], n - 1, line, session)
    }
}

/// Transcript line `li`.
pub open spec fn line_step(st: PState, li: int, line: Line, session: Seq<char>, ese: Seq<char>) -> PState {
    let seq0 = li * 16;
    let ts = match line.timestamp {
        Some(t) => match iso_ms(vstd::utf8::encode_utf8(t@)) {
            Some(x) => x as u64,
            None => st.last_ts,
        },
        None => st.last_ts,
    };
    let st1 = PState { last_ts: ts, ..st };
    let st2 = if !st1.meta_done && line.cwd is Some {
        let meta = EventV::SessionMeta { cwd: line.cwd->0@, branch: opt_view(line.git_branch), ese_version: ese };
        PState { meta_done: true, events: st1.events.push((seq0 as u32, env(session, ts, meta))), ..st1 }
    } else {
        st1
    };
    if line.compact_summary {
        let e1 = st2.events.push(((seq0 + 1) as u32, env(session, ts, EventV::Compaction)));
        let e2 = match line.message {
            Some(Content::Text(text)) => e1.push(
                ((seq0 + 2) as u32, env(session, ts, EventV::CompactSummary { text: capped(text@, FINAL_MSG_CAP as int) })),
            ),
            _ => e1,
        };
        PState { events: e2, ..st2 }
    } else {
        let ty = str_or(line.ty, Seq::empty());
        if ty != "user"@ && ty != "assistant"@ {
            st2
        } else {
            match line.message {
                Some(Content::Text(text)) => if ty == "user"@ {
                    PState {
                        events: st2.events.push(
                            ((seq0 + 2) as u32, env(session, ts, EventV::UserMsg { text: capped(text@, USER_MSG_CAP as int) })),
                        ),
                        ..st2
                    }
                } else {
                    st2
                },
                Some(Content::Blocks(bs)) => blocks_fold(
                    st2,
                    seq0,
                    ty == "user"@,
                    ts,
                    bs@,
                    if bs@.len() < 14 { bs@.len() as int } else { 14 },
                    line,
                    session,
                ),
                _ => st2,
            }
        }
    }
}

pub open spec fn start_state() -> PState {
    PState { events: Seq::empty(), last_ts: 0, sites: Seq::empty(), meta_done: false, fin: None }
}

/// The first `n` lines, in order.
pub open spec fn lines_fold(lines: Seq<Line>, n: int, session: Seq<char>, ese: Seq<char>) -> PState
    decreases n,
{
    if n <= 0 {
        start_state()
    } else {
        line_step(lines_fold(lines, n - 1, session, ese), n - 1, lines[n - 1], session, ese)
    }
}

pub open spec fn is_said(e: EnvelopeV) -> bool {
    e.kind is Said
}

/// `events` without the `Said` recorded at `seq`.
pub open spec fn without_said(events: Seq<(u32, EnvelopeV)>, seq: u32) -> Seq<(u32, EnvelopeV)>
    decreases events.len(),
{
    if events.len() == 0 {
        events
    } else if events.last().0 == seq && is_said(events.last().1) {
        without_said(events.drop_last(), seq)
    } else {
        without_said(events.drop_last(), seq).push(events.last())
    }
}

/// The events, with the last assistant text promoted to `FinalMsg` in
/// place of its `Said`.
pub open spec fn finish(st: PState, session: Seq<char>) -> Seq<(u32, EnvelopeV)> {
    match st.fin {
        None => st.events,
        Some((seq, ts, text)) => without_said(st.events, seq).push(
            (seq, env(session, ts, EventV::FinalMsg { text: capped(text, FINAL_MSG_CAP as int) })),
        ),
    }
}

/// The session a transcript belongs to: the first line's `sessionId`,
/// else the fallback.
pub open spec fn session_of(lines: Seq<Line>, fallback: Option<Seq<char>>) -> Option<Seq<char>>
    decreases lines.len(),
{
    if lines.len() == 0 {
        fallback
    } else if lines[0].session_id is Some {
        Some(lines[0].session_id->0@)
    } else {
        session_of(lines.drop_first(), fallback)
    }
}

/// `(seq, envelope)` of each event; every id carries `session`.
pub open spec fn events_in(events: Seq<(EventId, Envelope)>, session: Seq<char>) -> bool {
    forall|i: int| 0 <= i < events.len() ==> (#[trigger] events[i]).0.0@ == session
}

pub open spec fn events_view(events: Seq<(EventId, Envelope)>) -> Seq<(u32, EnvelopeV)> {
    events.map_values(|e: (EventId, Envelope)| (e.0.1, e.1@))
}


// ---------------------------------------------------------------- parsing

fn opt_copy(o: &Option<String>) -> (r: Option<String>)
    ensures
        opt_view(r) == opt_view(*o),
{
    match o {
        Some(x) => Some(copy_str(x)),
        None => None,
    }
}

fn str_or_exec(o: &Option<String>, d: &str) -> (r: String)
    ensures
        r@ == str_or(*o, d@),
{
    match o {
        Some(x) => copy_str(x),
        None => string_of(&chars_of(d)),
    }
}

fn tool_detail_exec(tool: &String, input: &Input) -> (r: String)
    ensures
        r@ == tool_detail(tool@, *input),
{
    reveal(tool_detail);
    proof {
        reveal_strlit("");
        assert(""@ =~= Seq::<char>::empty());
    }
    let t = tool.as_str();
    if crate::text::str_eq(t, "Bash") {
        str_or_exec(&input.command, "")
    } else if crate::text::str_eq(t, "Read") || crate::text::str_eq(t, "Edit") || crate::text::str_eq(t, "Write")
        || crate::text::str_eq(t, "NotebookEdit") {
        str_or_exec(&input.file_path, "")
    } else if crate::text::str_eq(input.json.as_str(), "null") {
        string_of(&chars_of(""))
    } else {
        copy_str(&input.json)
    }
}

fn file_touch_exec(tool: &String, input: &Input) -> (r: Option<String>)
    ensures
        opt_view(r) == file_touch(tool@, *input),
{
    reveal(file_touch);
    let t = tool.as_str();
    if crate::text::str_eq(t, "Edit") || crate::text::str_eq(t, "Write") || crate::text::str_eq(t, "NotebookEdit") {
        opt_copy(&input.file_path)
    } else {
        None
    }
}

#[verifier::spinoff_prover]
fn commit_message_exec(cmd: &str) -> (r: Vec<char>)
    ensures
        r@ == commit_message(cmd@),
{
    reveal(commit_message);
    proof {
        reveal_strlit("-m");
    }
    let v = chars_of(cmd);
    let pat = chars_of("-m");
    match find_sub_exec(&v, &pat) {
        None => Vec::new(),
        Some(i) => {
            let n = v.len();
            assert(i + 2 <= n);
            let after = slice_of(&v, i + 2, n);
            assert(after@ =~= v@.skip(i + 2));
            proof {
                lemma_lead_ws(after@);
            }
            let lead = lead_ws_exec(&after);
            let rest = slice_of(&after, lead, after.len());
            assert(rest@ =~= trim_start(after@));
            if rest.len() > 0 && (rest[0] == '"' || rest[0] == '\'') {
                let q = rest[0];
                let body = slice_of(&rest, 1, rest.len());
                assert(body@ =~= rest@.drop_first());
                take_until_exec(&body, q)
            } else {
                let w = word_len_exec(&rest);
                proof {
                    lemma_word_len(rest@);
                }
                let word = slice_of(&rest, 0, w);
                assert(word@ =~= rest@.take(w as int));
                word
            }
        },
    }
}

fn commit_hash_exec(stdout: &Option<String>) -> (r: Vec<char>)
    ensures
        r@ == commit_hash(*stdout),
{
    match stdout {
        None => Vec::new(),
        Some(out) => {
            let v = chars_of(out.as_str());
            proof {
                lemma_find_char(v@, '[');
            }
            match crate::window::find_char_in(&v, '[') {
                None => Vec::new(),
                Some(i) => {
                    let tail = slice_of(&v, i, v.len());
                    assert(tail@ =~= v@.skip(i as int));
                    match nth_word_exec(&tail, 1) {
                        Some(h) => alnum_only_exec(&trim_end_char_exec(&h, ']')),
                        None => Vec::new(),
                    }
                },
            }
        },
    }
}

fn commit_of_exec(tool: &String, input: &Input, line: &Line) -> (r: Option<(String, String)>)
    ensures
        match commit_of(tool@, *input, *line) {
            Some((h, m)) => r matches Some(x) && x.0@ == h && x.1@ == m,
            None => r is None,
        },
{
    reveal(commit_of);
    if !crate::text::str_eq(tool.as_str(), "Bash") {
        return None;
    }
    match &input.command {
        None => None,
        Some(cmd) => {
            let v = chars_of(cmd.as_str());
            let g = find_sub_exec(&v, &chars_of("git commit"));
            let j = find_sub_exec(&v, &chars_of("jj describe"));
            if g.is_none() && j.is_none() {
                return None;
            }
            let hash = string_of(&commit_hash_exec(&line.result_stdout));
            let msg = string_of(&commit_message_exec(cmd.as_str()));
            Some((hash, cap(msg.as_str(), 200)))
        },
    }
}


/// The parser's running state.
struct Acc {
    events: Vec<(EventId, Envelope)>,
    last_ts: u64,
    sites: Vec<(String, usize)>,
    meta_done: bool,
    fin: Option<(u32, u64, String)>,
}

pub open spec fn sites_view(s: Seq<(String, usize)>) -> Seq<(Seq<char>, int)> {
    s.map_values(|e: (String, usize)| (e.0@, e.1 as int))
}

impl Acc {
    spec fn model(self) -> PState {
        PState {
            events: events_view(self.events@),
            last_ts: self.last_ts,
            sites: sites_view(self.sites@),
            meta_done: self.meta_done,
            fin: match self.fin {
                Some((q, t, x)) => Some((q, t, x@)),
                None => None,
            },
        }
    }

    spec fn wf(self, session: Seq<char>) -> bool {
        events_in(self.events@, session)
    }

    fn push_event(&mut self, session: &String, seq: u32, ts: u64, kind: Event)
        requires
            old(self).wf(session@),
        ensures
            final(self).wf(session@),
            final(self).model() == (PState {
                events: old(self).model().events.push((seq, env(session@, ts, kind@))),
                ..old(self).model()
            }),
            final(self).events@.len() == old(self).events@.len() + 1,
    {
        let ghost before = self.events@;
        self.events.push(((copy_str(session), seq), Envelope::new(session.as_str(), ts, kind)));
        assert(events_view(self.events@) =~= events_view(before).push((seq, env(session@, ts, kind@))));
    }
}

fn site_of_exec(sites: &Vec<(String, usize)>, id: &String) -> (r: Option<usize>)
    ensures
        r matches Some(x) ==> site_of(sites_view(sites@), id@) == Some(x as int),
        r is None ==> site_of(sites_view(sites@), id@) is None,
{
    let mut n = sites.len();
    assert(sites_view(sites@.take(n as int)) =~= sites_view(sites@));
    while n > 0
        invariant
            n <= sites@.len(),
            site_of(sites_view(sites@), id@) == site_of(sites_view(sites@.take(n as int)), id@),
        decreases n,
    {
        let ghost t = sites_view(sites@.take(n as int));
        assert(t.last() == (sites@[n - 1].0@, sites@[n - 1].1 as int));
        if crate::text::str_eq(sites[n - 1].0.as_str(), id.as_str()) {
            return Some(sites[n - 1].1);
        }
        assert(t.drop_last() =~= sites_view(sites@.take(n - 1)));
        n -= 1;
    }
    None
}

fn failed_exec(e: &Envelope) -> (r: Envelope)
    ensures
        r@ == failed(e@),
{
    match &e.kind {
        Event::ToolCall { tool, detail, .. } => Envelope {
            v: e.v,
            ts_ms: e.ts_ms,
            session: copy_str(&e.session),
            kind: Event::ToolCall { tool: copy_str(tool), detail: copy_str(detail), ok: false },
        },
        _ => e.duplicate(),
    }
}

fn text_exec(acc: &mut Acc, seq: u32, user: bool, ts: u64, b: &Block, session: &String)
    requires
        old(acc).wf(session@),
    ensures
        final(acc).wf(session@),
        final(acc).model() == text_step(old(acc).model(), seq, user, ts, *b, session@),
{
    match &b.text {
        None => {},
        Some(x) => {
            if user {
                acc.push_event(session, seq, ts, Event::UserMsg { text: cap(x.as_str(), USER_MSG_CAP) });
            } else {
                if !fits_bytes(x.as_str(), SAID_MIN - 1) {
                    acc.push_event(session, seq, ts, Event::Said { text: cap(x.as_str(), SAID_CAP) });
                }
                acc.fin = Some((seq, ts, copy_str(x)));
            }
        },
    }
}

fn tool_use_exec(acc: &mut Acc, seq0: u32, seq: u32, ts: u64, b: &Block, line: &Line, session: &String)
    requires
        old(acc).wf(session@),
        seq0 + 16 <= u32::MAX,
    ensures
        final(acc).wf(session@),
        final(acc).model() == tool_use_step(old(acc).model(), seq0 as int, seq, ts, *b, *line, session@),
{
    let tool = str_or_exec(&b.name, "unknown");
    let ghost sites0 = acc.sites@;
    match &b.id {
        Some(id) => {
            let at = acc.events.len();
            acc.sites.push((copy_str(id), at));
            assert(sites_view(acc.sites@) =~= sites_view(sites0).push((id@, at as int)));
        },
        None => {},
    }
    let detail = tool_detail_exec(&tool, &b.input);
    acc.push_event(
        session,
        seq,
        ts,
        Event::ToolCall { tool: copy_str(&tool), detail: cap(detail.as_str(), DETAIL_CAP), ok: true },
    );
    match file_touch_exec(&tool, &b.input) {
        Some(path) => {
            acc.push_event(session, seq0 + 15, ts, Event::FileTouch { path });
        },
        None => {},
    }
    match commit_of_exec(&tool, &b.input, line) {
        Some((hash, message)) => {
            acc.push_event(session, seq0 + 14, ts, Event::Commit { hash, message });
        },
        None => {},
    }
}

fn tool_result_exec(acc: &mut Acc, b: &Block, line: &Line, session: &String)
    requires
        old(acc).wf(session@),
    ensures
        final(acc).wf(session@),
        final(acc).model() == tool_result_step(old(acc).model(), *b, *line),
{
    match &b.tool_use_id {
        Some(id) => {
            if b.is_error || line.result_error {
                match site_of_exec(&acc.sites, id) {
                    Some(i) => {
                        if i < acc.events.len() {
                            let e = failed_exec(&acc.events[i].1);
                            let key = (copy_str(&acc.events[i].0.0), acc.events[i].0.1);
                            let ghost before = acc.events@;
                            acc.events.set(i, (key, e));
                            assert(events_view(acc.events@) =~= events_view(before).update(
                                i as int,
                                (events_view(before)[i as int].0, failed(events_view(before)[i as int].1)),
                            ));
                        }
                    },
                    None => {},
                }
            }
        },
        None => {},
    }
}

fn block_exec(acc: &mut Acc, seq0: u32, user: bool, ts: u64, b: &Block, bi: u32, line: &Line, session: &String)
    requires
        old(acc).wf(session@),
        seq0 + 16 <= u32::MAX,
        bi < 14,
    ensures
        final(acc).wf(session@),
        final(acc).model() == block_step(old(acc).model(), seq0 as int, user, ts, *b, bi as int, *line, session@),
{
    let seq = seq0 + 2 + bi;
    match &b.ty {
        None => {},
        Some(t) => {
            if crate::text::str_eq(t.as_str(), "text") {
                text_exec(acc, seq, user, ts, b, session);
            } else if crate::text::str_eq(t.as_str(), "tool_use") {
                tool_use_exec(acc, seq0, seq, ts, b, line, session);
            } else if crate::text::str_eq(t.as_str(), "tool_result") {
                tool_result_exec(acc, b, line, session);
            }
        },
    }
}


fn line_exec(acc: &mut Acc, li: u32, line: &Line, session: &String, ese: &str)
    requires
        old(acc).wf(session@),
        li < 0x0800_0000,
    ensures
        final(acc).wf(session@),
        final(acc).model() == line_step(old(acc).model(), li as int, *line, session@, ese@),
{
    proof {
        reveal_strlit("user");
        reveal_strlit("assistant");
    }
    let seq0 = li * 16;
    let ts = match &line.timestamp {
        Some(t) => match iso_to_ms(t.as_str()) {
            Some(x) => x,
            None => acc.last_ts,
        },
        None => acc.last_ts,
    };
    acc.last_ts = ts;
    if !acc.meta_done {
        match &line.cwd {
            Some(cwd) => {
                acc.meta_done = true;
                let meta = Event::SessionMeta {
                    cwd: copy_str(cwd),
                    branch: opt_copy(&line.git_branch),
                    ese_version: string_of(&chars_of(ese)),
                };
                acc.push_event(session, seq0, ts, meta);
            },
            None => {},
        }
    }
    if line.compact_summary {
        acc.push_event(session, seq0 + 1, ts, Event::Compaction {});
        match &line.message {
            Some(Content::Text(text)) => {
                acc.push_event(session, seq0 + 2, ts, Event::CompactSummary { text: cap(text.as_str(), FINAL_MSG_CAP) });
            },
            _ => {},
        }
        return;
    }
    let is_user = match &line.ty {
        Some(t) => crate::text::str_eq(t.as_str(), "user"),
        None => false,
    };
    let is_assistant = match &line.ty {
        Some(t) => crate::text::str_eq(t.as_str(), "assistant"),
        None => false,
    };
    proof {
        assert(!("user"@ =~= Seq::<char>::empty()));
        assert(!("assistant"@ =~= Seq::<char>::empty()));
        assert(!("assistant"@ =~= "user"@));
    }
    if !is_user && !is_assistant {
        return;
    }
    match &line.message {
        Some(Content::Text(text)) => {
            if is_user {
                acc.push_event(session, seq0 + 2, ts, Event::UserMsg { text: cap(text.as_str(), USER_MSG_CAP) });
            }
        },
        Some(Content::Blocks(bs)) => {
            let n = if bs.len() < 14 { bs.len() } else { 14 };
            let ghost st2 = acc.model();
            let mut bi: usize = 0;
            while bi < n
                invariant
                    acc.wf(session@),
                    n <= bs@.len(),
                    n <= 14,
                    bi <= n,
                    seq0 + 16 <= u32::MAX,
                    acc.model() == blocks_fold(st2, seq0 as int, is_user, ts, bs@, bi as int, *line, session@),
                decreases n - bi,
            {
                block_exec(acc, seq0, is_user, ts, &bs[bi], bi as u32, line, session);
                bi += 1;
            }
        },
        _ => {},
    }
}

/// Parse a transcript's lines (those that parsed as JSON, in order) into
/// ledger events. The session id comes from the first line that carries
/// one, else `fallback_session`; with neither there is nothing to record.
/// `ese_version` is the embedding provenance pinned in `SessionMeta`.
pub fn parse(lines: &Vec<Line>, fallback_session: Option<&str>, ese_version: &str) -> (r: Option<Parsed>)
    requires
        lines@.len() < 0x0800_0000,
    ensures
        match session_of(lines@, match fallback_session {
            Some(f) => Some(f@),
            None => None,
        }) {
            None => r is None,
            Some(sess) => r matches Some(p) && p.session@ == sess && events_in(p.events@, sess)
                && events_view(p.events@) == finish(lines_fold(lines@, lines@.len() as int, sess, ese_version@), sess),
        },
{
    let ghost fb = match fallback_session {
        Some(f) => Some(f@),
        None => None,
    };
    let mut found: Option<String> = None;
    let mut si: usize = 0;
    assert(lines@.skip(0) =~= lines@);
    while si < lines.len() && found.is_none()
        invariant
            si <= lines@.len(),
            found is None ==> session_of(lines@, fb) == session_of(lines@.skip(si as int), fb),
            found matches Some(x) ==> session_of(lines@, fb) == Some(x@),
        decreases lines@.len() - si + (if found is None { 1int } else { 0int }),
    {
        assert(lines@.skip(si as int)[0] == lines@[si as int]);
        match &lines[si].session_id {
            Some(id) => {
                found = Some(copy_str(id));
            },
            None => {
                assert(lines@.skip(si as int).drop_first() =~= lines@.skip(si + 1));
                si += 1;
            },
        }
    }
    let session = match found {
        Some(s) => s,
        None => {
            assert(lines@.skip(si as int) =~= Seq::<Line>::empty());
            match fallback_session {
                Some(f) => string_of(&chars_of(f)),
                None => return None,
            }
        },
    };
    let mut acc = Acc { events: Vec::new(), last_ts: 0, sites: Vec::new(), meta_done: false, fin: None };
    assert(acc.model() == start_state()) by {
        assert(events_view(acc.events@) =~= Seq::<(u32, EnvelopeV)>::empty());
        assert(sites_view(acc.sites@) =~= Seq::<(Seq<char>, int)>::empty());
    }
    let mut li: usize = 0;
    while li < lines.len()
        invariant
            li <= lines@.len(),
            lines@.len() < 0x0800_0000,
            acc.wf(session@),
            acc.model() == lines_fold(lines@, li as int, session@, ese_version@),
        decreases lines@.len() - li,
    {
        line_exec(&mut acc, li as u32, &lines[li], &session, ese_version);
        li += 1;
    }
    let ghost st = acc.model();
    let Acc { events, fin, .. } = acc;
    let events = match fin {
        None => events,
        Some((seq, ts, text)) => {
            let mut kept: Vec<(EventId, Envelope)> = Vec::new();
            let mut i: usize = 0;
            while i < events.len()
                invariant
                    i <= events@.len(),
                    events_in(events@, session@),
                    events_in(kept@, session@),
                    events_view(kept@) == without_said(events_view(events@.take(i as int)), seq),
                decreases events@.len() - i,
            {
                let ghost before = kept@;
                let said = match &events[i].1.kind {
                    Event::Said { .. } => true,
                    _ => false,
                };
                assert(events_view(events@.take(i + 1)).drop_last() =~= events_view(events@.take(i as int)));
                assert(events_view(events@.take(i + 1)).last() == (events@[i as int].0.1, events@[i as int].1@));
                if !(events[i].0.1 == seq && said) {
                    kept.push(((copy_str(&events[i].0.0), events[i].0.1), events[i].1.duplicate()));
                    assert(events_view(kept@) =~= events_view(before).push((events@[i as int].0.1, events@[i as int].1@)));
                }
                i += 1;
            }
            assert(events@.take(events@.len() as int) =~= events@);
            let ghost before = kept@;
            kept.push(((copy_str(&session), seq), Envelope::new(session.as_str(), ts, Event::FinalMsg { text: cap(text.as_str(), FINAL_MSG_CAP) })));
            assert(events_view(kept@) =~= events_view(before).push(
                (seq, env(session@, ts, EventV::FinalMsg { text: capped(text@, FINAL_MSG_CAP as int) })),
            ));
            kept
        },
    };
    Some(Parsed { session, events })
}


// ---------------------------------------------------------------- hook override

/// `(session, seq, envelope)` of each event.
pub open spec fn ledger_view(events: Seq<(EventId, Envelope)>) -> Seq<(Seq<char>, u32, EnvelopeV)> {
    events.map_values(|e: (EventId, Envelope)| (e.0.0@, e.0.1, e.1@))
}

/// `events` without any `FinalMsg`.
pub open spec fn without_final(events: Seq<(Seq<char>, u32, EnvelopeV)>) -> Seq<(Seq<char>, u32, EnvelopeV)>
    decreases events.len(),
{
    if events.len() == 0 {
        events
    } else if events.last().2.kind is FinalMsg {
        without_final(events.drop_last())
    } else {
        without_final(events.drop_last()).push(events.last())
    }
}

/// The latest timestamp among `events`, or zero.
pub open spec fn max_ts(events: Seq<(Seq<char>, u32, EnvelopeV)>) -> u64
    decreases events.len(),
{
    if events.len() == 0 {
        0
    } else {
        let m = max_ts(events.drop_last());
        if events.last().2.ts_ms > m { events.last().2.ts_ms } else { m }
    }
}

/// Replace any parsed `FinalMsg` with the hook-provided closing message
/// (`Stop` passes `last_assistant_message`, which is authoritative — the
/// transcript file may lag the final turn). It is stamped with the latest
/// remaining event's time and stored at [`HOOK_FINAL_SEQ`].
pub fn override_final_msg(parsed: &mut Parsed, text: &str)
    ensures
        final(parsed).session@ == old(parsed).session@,
        ({
            let kept = without_final(ledger_view(old(parsed).events@));
            let s = old(parsed).session@;
            ledger_view(final(parsed).events@) == kept.push(
                (s, HOOK_FINAL_SEQ, env(s, max_ts(kept), EventV::FinalMsg { text: capped(text@, FINAL_MSG_CAP as int) })),
            )
        }),
{
    let mut kept: Vec<(EventId, Envelope)> = Vec::new();
    let mut ts: u64 = 0;
    let mut i: usize = 0;
    while i < parsed.events.len()
        invariant
            i <= parsed.events@.len(),
            ledger_view(kept@) == without_final(ledger_view(parsed.events@.take(i as int))),
            ts == max_ts(ledger_view(kept@)),
        decreases parsed.events@.len() - i,
    {
        let ghost before = kept@;
        let ghost pre = ledger_view(parsed.events@.take(i as int));
        assert(ledger_view(parsed.events@.take(i + 1)).drop_last() =~= pre);
        let is_final = match &parsed.events[i].1.kind {
            Event::FinalMsg { .. } => true,
            _ => false,
        };
        if !is_final {
            let e = &parsed.events[i];
            kept.push(((copy_str(&e.0.0), e.0.1), e.1.duplicate()));
            assert(ledger_view(kept@) =~= ledger_view(before).push((e.0.0@, e.0.1, e.1@)));
            assert(ledger_view(kept@).drop_last() =~= ledger_view(before));
            if e.1.ts_ms > ts {
                ts = e.1.ts_ms;
            }
        }
        i += 1;
    }
    assert(parsed.events@.take(parsed.events@.len() as int) =~= parsed.events@);
    let ghost before = kept@;
    let session = copy_str(&parsed.session);
    kept.push(
        ((copy_str(&parsed.session), HOOK_FINAL_SEQ), Envelope::new(session.as_str(), ts, Event::FinalMsg { text: cap(text, FINAL_MSG_CAP) })),
    );
    assert(ledger_view(kept@) =~= ledger_view(before).push(
        (parsed.session@, HOOK_FINAL_SEQ, env(parsed.session@, ts, EventV::FinalMsg { text: capped(text@, FINAL_MSG_CAP as int) })),
    ));
    parsed.events = kept;
}

// ---------------------------------------------------------------- raw lines

/// A line without its trailing `\r`.
pub open spec fn strip_cr(l: Seq<char>) -> Seq<char> {
    if l.len() > 0 && l.last() == '\r' { l.drop_last() } else { l }
}

/// The non-blank lines of `s` (`str::lines`, blank ones dropped).
pub open spec fn content_lines(s: Seq<char>) -> Seq<Seq<char>>
    decreases s.len(),
{
    if s.len() == 0 {
        Seq::empty()
    } else {
        let i = find_char(s, '\n');
        proof {
            lemma_find_char(s, '\n');
        }
        let (line, rest) = if i < 0 { (s, Seq::empty()) } else { (s.take(i), s.skip(i + 1)) };
        let l = strip_cr(line);
        if all_ws(l) { content_lines(rest) } else { seq![l] + content_lines(rest) }
    }
}

/// The non-blank lines of a JSONL document, each without its line ending.
pub fn jsonl_lines(s: &str) -> (r: Vec<String>)
    ensures
        r@.map_values(|l: String| l@) == content_lines(s@),
{
    let v = chars_of(s);
    let mut out: Vec<String> = Vec::new();
    let mut pos: usize = 0;
    assert(v@.skip(0) =~= v@);
    while pos < v.len()
        invariant
            v@ == s@,
            pos <= v@.len(),
            out@.map_values(|l: String| l@) + content_lines(v@.skip(pos as int)) == content_lines(s@),
        decreases v@.len() - pos,
    {
        let ghost t = v@.skip(pos as int);
        let rest = slice_of(&v, pos, v.len());
        assert(rest@ =~= t);
        proof {
            lemma_find_char(t, '\n');
        }
        let (end, next) = match crate::window::find_char_in(&rest, '\n') {
            Some(i) => (pos + i, pos + i + 1),
            None => (v.len(), v.len()),
        };
        let mut stop = end;
        if stop > pos && v[stop - 1] == '\r' {
            stop = stop - 1;
        }
        let line = slice_of(&v, pos, stop);
        proof {
            let i = find_char(t, '\n');
            let raw = if i < 0 { t } else { t.take(i) };
            assert(v@.subrange(pos as int, end as int) =~= raw);
            assert(line@ =~= strip_cr(raw));
            if i < 0 {
                assert(v@.skip(next as int) =~= Seq::<char>::empty());
            } else {
                assert(v@.skip(next as int) =~= t.skip(i + 1));
            }
        }
        let ghost before = out@;
        if !crate::text::all_ws_chars(&line) {
            out.push(string_of(&line));
            assert(out@.map_values(|l: String| l@) =~= before.map_values(|l: String| l@).push(line@));
            assert(before.map_values(|l: String| l@).push(line@) + content_lines(v@.skip(next as int))
                =~= before.map_values(|l: String| l@) + (seq![line@] + content_lines(v@.skip(next as int))));
        }
        pos = next;
    }
    assert(v@.skip(pos as int) =~= Seq::<char>::empty());
    assert(out@.map_values(|l: String| l@) + Seq::<Seq<char>>::empty() =~= out@.map_values(|l: String| l@));
    out
}


// ---------------------------------------------------------------- laws

/// The seconds field is short of a leap second.
pub open spec fn leap_free(b: Seq<u8>) -> bool {
    match iso_fields(b) {
        Some((_, _, _, _, _, sec, _)) => sec < 60,
        None => true,
    }
}

/// `date_label` inverts `iso_to_ms` on the date: the label of a parsed
/// timestamp is the timestamp's own `YYYY-MM-DD` (zero-padded), for every
/// time of day short of a leap second.
pub proof fn law_date_label_inverts_iso(b: Seq<u8>)
    requires
        iso_ms(b) is Some,
        leap_free(b),
    ensures
        ({
            let (y, mo, d, h, mi, sec, ms) = iso_fields(b)->0;
            date_text(civil_of(iso_ms(b)->0 / 86_400_000)) == date_text(Civil { y: y as i64, m: mo as u32, d: d as u32 })
        }),
{
    let (y, mo, d, h, mi, sec, ms) = iso_fields(b)->0;
    assert(0 <= ms < 1000) by {
        if b[19] == 46 && b.len() >= 23 {
            let f = b.subrange(20, 23);
            let body = if f.len() > 0 && f[0] == 43 { f.drop_first() } else { f };
            if parse_small(f) is Some {
                lemma_small_bound(body);
            }
        }
    };
    let days = days_from_civil(y, mo, d);
    lemma_days_nonneg(y, mo, d);
    lemma_small_bound(b.subrange(0, 4));
    lemma_small_bound(b.subrange(0, 4).drop_first());
    let t = h * 3_600_000 + mi * 60_000 + sec * 1000 + ms;
    assert(0 <= t < 86_400_000);
    assert((days * 86_400_000 + t) / 86_400_000 == days) by (nonlinear_arith)
        requires
            0 <= t < 86_400_000,
            days >= 0,
    ;
    let c = Civil { y: y as i64, m: mo as u32, d: d as u32 };
    assert(y < 10000) by {
        let f = b.subrange(0, 4);
        if f[0] == 43 {
            lemma_small_bound(f.drop_first());
        } else {
            lemma_small_bound(f);
        }
    }
    assert(c.days() == days);
    crate::civil::law_civil_round_trip(c);
}

/// A digit string of at most four bytes is worth less than 10000.
proof fn lemma_small_bound(s: Seq<u8>)
    ensures
        s.len() <= 4 && all_digit_bytes(s) ==> bytes_val(s) < 10000,
        s.len() <= 3 && all_digit_bytes(s) ==> bytes_val(s) < 1000,
        s.len() <= 2 && all_digit_bytes(s) ==> bytes_val(s) < 100,
        s.len() <= 1 && all_digit_bytes(s) ==> bytes_val(s) < 10,
        s.len() == 0 ==> bytes_val(s) == 0,
    decreases s.len(),
{
    if s.len() > 0 {
        lemma_small_bound(s.drop_last());
        if all_digit_bytes(s) {
            assert(is_digit_byte(s[s.len() - 1]));
            assert(all_digit_bytes(s.drop_last()));
        }
    }
}

/// Every event seq, and the pending closing message's, lies below `bound`.
pub open spec fn seqs_below(st: PState, bound: int) -> bool {
    &&& forall|i: int| 0 <= i < st.events.len() ==> (#[trigger] st.events[i]).0 < bound
    &&& (st.fin matches Some((seq, _, _)) ==> seq < bound)
}

proof fn lemma_block_band(st: PState, seq0: int, user: bool, ts: u64, b: Block, bi: int, line: Line, session: Seq<char>)
    requires
        0 <= seq0,
        seq0 + 16 <= u32::MAX + 1,
        0 <= bi < 14,
        seqs_below(st, seq0 + 16),
    ensures
        seqs_below(block_step(st, seq0, user, ts, b, bi, line, session), seq0 + 16),
{
    let r = block_step(st, seq0, user, ts, b, bi, line, session);
    assert forall|i: int| 0 <= i < r.events.len() implies (#[trigger] r.events[i]).0 < seq0 + 16 by {
        if i < st.events.len() {
            if let Some(t) = b.ty {
                if t@ == "tool_result"@ {
                    assert(r.events[i].0 == st.events[i].0);
                }
            }
        }
    }
}

proof fn lemma_blocks_band(
    st: PState,
    seq0: int,
    user: bool,
    ts: u64,
    bs: Seq<Block>,
    n: int,
    line: Line,
    session: Seq<char>,
)
    requires
        0 <= seq0,
        seq0 + 16 <= u32::MAX + 1,
        n <= 14,
        seqs_below(st, seq0 + 16),
    ensures
        seqs_below(blocks_fold(st, seq0, user, ts, bs, n, line, session), seq0 + 16),
    decreases n,
{
    if n > 0 {
        lemma_blocks_band(st, seq0, user, ts, bs, n - 1, line, session);
        lemma_block_band(blocks_fold(st, seq0, user, ts, bs, n - 1, line, session), seq0, user, ts, bs[n - 1], n - 1, line, session);
    }
}

proof fn lemma_lines_band(lines: Seq<Line>, n: int, session: Seq<char>, ese: Seq<char>)
    requires
        0 <= n <= lines.len(),
        16 * n <= u32::MAX + 1,
    ensures
        seqs_below(lines_fold(lines, n, session, ese), 16 * n),
    decreases n,
{
    if n > 0 {
        lemma_lines_band(lines, n - 1, session, ese);
        let pre = lines_fold(lines, n - 1, session, ese);
        let seq0 = 16 * (n - 1);
        let line = lines[n - 1];
        let ts = match line.timestamp {
            Some(t) => match iso_ms(vstd::utf8::encode_utf8(t@)) {
                Some(x) => x as u64,
                None => pre.last_ts,
            },
            None => pre.last_ts,
        };
        let st1 = PState { last_ts: ts, ..pre };
        let st2 = if !st1.meta_done && line.cwd is Some {
            let meta = EventV::SessionMeta { cwd: line.cwd->0@, branch: opt_view(line.git_branch), ese_version: ese };
            PState { meta_done: true, events: st1.events.push((seq0 as u32, env(session, ts, meta))), ..st1 }
        } else {
            st1
        };
        assert(seqs_below(st2, seq0 + 16));
        if !line.compact_summary {
            let ty = str_or(line.ty, Seq::empty());
            if ty == "user"@ || ty == "assistant"@ {
                if let Some(Content::Blocks(bs)) = line.message {
                    lemma_blocks_band(st2, seq0, ty == "user"@, ts, bs@, if bs@.len() < 14 { bs@.len() as int } else { 14 }, line, session);
                }
            }
        }
    }
}

proof fn lemma_without_said_band(events: Seq<(u32, EnvelopeV)>, seq: u32, bound: int)
    requires
        forall|i: int| 0 <= i < events.len() ==> (#[trigger] events[i]).0 < bound,
    ensures
        forall|i: int| 0 <= i < without_said(events, seq).len() ==> (#[trigger] without_said(events, seq)[i]).0 < bound,
    decreases events.len(),
{
    if events.len() > 0 {
        let d = events.drop_last();
        assert forall|i: int| 0 <= i < d.len() implies (#[trigger] d[i]).0 < bound by {
            assert(d[i] == events[i]);
        }
        lemma_without_said_band(d, seq, bound);
        let w = without_said(d, seq);
        if !(events.last().0 == seq && is_said(events.last().1)) {
            let x = w.push(events.last());
            assert(events.last() == events[events.len() - 1]);
            assert forall|i: int| 0 <= i < x.len() implies (#[trigger] x[i]).0 < bound by {
                if i < w.len() {
                    assert(x[i] == w[i]);
                }
            }
        }
    }
}

/// A captured event's seq lies in its line's band of sixteen
/// (`line_index * 16 + block_index`), so across a transcript every seq is
/// below sixteen times its line count: below [`OBS_SEQ_BASE`] for every
/// transcript that `parse` takes. Captured events and observations never
/// share an id.
pub proof fn law_captured_seqs_below_observations(lines: Seq<Line>, session: Seq<char>, ese: Seq<char>)
    requires
        lines.len() < 0x0800_0000,
    ensures
        forall|i: int| 0 <= i < finish(lines_fold(lines, lines.len() as int, session, ese), session).len()
            ==> (#[trigger] finish(lines_fold(lines, lines.len() as int, session, ese), session)[i]).0 < 16 * lines.len()
            && finish(lines_fold(lines, lines.len() as int, session, ese), session)[i].0 < OBS_SEQ_BASE,
{
    let st = lines_fold(lines, lines.len() as int, session, ese);
    lemma_lines_band(lines, lines.len() as int, session, ese);
    let bound: int = 16 * lines.len() as int;
    match st.fin {
        None => {},
        Some((seq, ts, text)) => {
            lemma_without_said_band(st.events, seq, bound);
            let w = without_said(st.events, seq);
            let f = finish(st, session);
            assert forall|i: int| 0 <= i < f.len() implies (#[trigger] f[i]).0 < bound by {
                if i < w.len() {
                    assert(f[i] == w[i]);
                }
            }
        },
    }
}

/// A stored text within its byte cap: user messages 2 KB, assistant
/// statements and closing messages and compaction summaries 8 KB, tool
/// details 500 B, commit messages 200 B.
pub open spec fn within_cap(k: EventV) -> bool {
    match k {
        EventV::UserMsg { text } => utf8_bytes(text) <= USER_MSG_CAP,
        EventV::Said { text } => utf8_bytes(text) <= SAID_CAP,
        EventV::FinalMsg { text } => utf8_bytes(text) <= FINAL_MSG_CAP,
        EventV::CompactSummary { text } => utf8_bytes(text) <= FINAL_MSG_CAP,
        EventV::ToolCall { detail, .. } => utf8_bytes(detail) <= DETAIL_CAP,
        EventV::Commit { message, .. } => utf8_bytes(message) <= 200,
        _ => true,
    }
}

pub open spec fn all_within_cap(events: Seq<(u32, EnvelopeV)>) -> bool {
    forall|i: int| 0 <= i < events.len() ==> within_cap((#[trigger] events[i]).1.kind)
}

proof fn lemma_capped_fits()
    ensures
        forall|t: Seq<char>, l: int| l >= 0 ==> #[trigger] utf8_bytes(capped(t, l)) <= l,
{
    assert forall|t: Seq<char>, l: int| l >= 0 implies #[trigger] utf8_bytes(capped(t, l)) <= l by {
        crate::event::law_cap_is_longest_fitting_prefix(t, l);
    }
}

proof fn lemma_push_within(events: Seq<(u32, EnvelopeV)>, e: (u32, EnvelopeV))
    requires
        all_within_cap(events),
        within_cap(e.1.kind),
    ensures
        all_within_cap(events.push(e)),
{
    assert forall|i: int| 0 <= i < events.push(e).len() implies within_cap((#[trigger] events.push(e)[i]).1.kind) by {
        if i < events.len() {
            assert(events.push(e)[i] == events[i]);
        }
    }
}

#[verifier::rlimit(40)]
proof fn lemma_block_caps(st: PState, seq0: int, user: bool, ts: u64, b: Block, bi: int, line: Line, session: Seq<char>)
    requires
        all_within_cap(st.events),
    ensures
        all_within_cap(block_step(st, seq0, user, ts, b, bi, line, session).events),
{
    lemma_capped_fits();
    let seq = (seq0 + 2 + bi) as u32;
    match b.ty {
        None => {},
        Some(t) => if t@ == "text"@ {
            match b.text {
                None => {},
                Some(x) => if user {
                    lemma_push_within(st.events, (seq, env(session, ts, EventV::UserMsg { text: capped(x@, USER_MSG_CAP as int) })));
                } else if utf8_bytes(x@) >= SAID_MIN {
                    lemma_push_within(st.events, (seq, env(session, ts, EventV::Said { text: capped(x@, SAID_CAP as int) })));
                },
            }
        } else if t@ == "tool_use"@ {
            let tool = str_or(b.name, "unknown"@);
            let call = EventV::ToolCall { tool, detail: capped(tool_detail(tool, b.input), DETAIL_CAP as int), ok: true };
            let e1 = st.events.push((seq, env(session, ts, call)));
            lemma_push_within(st.events, (seq, env(session, ts, call)));
            let e2 = match file_touch(tool, b.input) {
                Some(path) => e1.push(((seq0 + 15) as u32, env(session, ts, EventV::FileTouch { path }))),
                None => e1,
            };
            if let Some(path) = file_touch(tool, b.input) {
                lemma_push_within(e1, ((seq0 + 15) as u32, env(session, ts, EventV::FileTouch { path })));
            }
            if let Some((hash, message)) = commit_of(tool, b.input, line) {
                reveal(commit_of);
                let cmd = b.input.command->0;
                assert(message == capped(commit_message(cmd@), 200));
                lemma_push_within(e2, ((seq0 + 14) as u32, env(session, ts, EventV::Commit { hash, message })));
            }
        } else if t@ == "tool_result"@ {
            let r = block_step(st, seq0, user, ts, b, bi, line, session);
            assert forall|i: int| 0 <= i < r.events.len() implies within_cap((#[trigger] r.events[i]).1.kind) by {
                assert(within_cap(st.events[i].1.kind));
            }
        },
    }
}

proof fn lemma_blocks_caps(
    st: PState,
    seq0: int,
    user: bool,
    ts: u64,
    bs: Seq<Block>,
    n: int,
    line: Line,
    session: Seq<char>,
)
    requires
        all_within_cap(st.events),
    ensures
        all_within_cap(blocks_fold(st, seq0, user, ts, bs, n, line, session).events),
    decreases n,
{
    if n > 0 {
        lemma_blocks_caps(st, seq0, user, ts, bs, n - 1, line, session);
        lemma_block_caps(blocks_fold(st, seq0, user, ts, bs, n - 1, line, session), seq0, user, ts, bs[n - 1], n - 1, line, session);
    }
}

#[verifier::rlimit(40)]
proof fn lemma_lines_caps(lines: Seq<Line>, n: int, session: Seq<char>, ese: Seq<char>)
    requires
        0 <= n <= lines.len(),
    ensures
        all_within_cap(lines_fold(lines, n, session, ese).events),
    decreases n,
{
    if n > 0 {
        lemma_lines_caps(lines, n - 1, session, ese);
        lemma_capped_fits();
        let pre = lines_fold(lines, n - 1, session, ese);
        let seq0 = 16 * (n - 1);
        let line = lines[n - 1];
        let ts = match line.timestamp {
            Some(t) => match iso_ms(vstd::utf8::encode_utf8(t@)) {
                Some(x) => x as u64,
                None => pre.last_ts,
            },
            None => pre.last_ts,
        };
        let st1 = PState { last_ts: ts, ..pre };
        let st2 = if !st1.meta_done && line.cwd is Some {
            let meta = EventV::SessionMeta { cwd: line.cwd->0@, branch: opt_view(line.git_branch), ese_version: ese };
            lemma_push_within(st1.events, (seq0 as u32, env(session, ts, meta)));
            PState { meta_done: true, events: st1.events.push((seq0 as u32, env(session, ts, meta))), ..st1 }
        } else {
            st1
        };
        if line.compact_summary {
            let e1 = st2.events.push(((seq0 + 1) as u32, env(session, ts, EventV::Compaction)));
            lemma_push_within(st2.events, ((seq0 + 1) as u32, env(session, ts, EventV::Compaction)));
            if let Some(Content::Text(text)) = line.message {
                lemma_push_within(e1, ((seq0 + 2) as u32, env(session, ts, EventV::CompactSummary { text: capped(text@, FINAL_MSG_CAP as int) })));
            }
        } else {
            let ty = str_or(line.ty, Seq::empty());
            if ty == "user"@ || ty == "assistant"@ {
                match line.message {
                    Some(Content::Text(text)) => if ty == "user"@ {
                        lemma_push_within(st2.events, ((seq0 + 2) as u32, env(session, ts, EventV::UserMsg { text: capped(text@, USER_MSG_CAP as int) })));
                    },
                    Some(Content::Blocks(bs)) => {
                        lemma_blocks_caps(st2, seq0, ty == "user"@, ts, bs@, if bs@.len() < 14 { bs@.len() as int } else { 14 }, line, session);
                    },
                    _ => {},
                }
            }
        }
    }
}

proof fn lemma_without_said_caps(events: Seq<(u32, EnvelopeV)>, seq: u32)
    requires
        all_within_cap(events),
    ensures
        all_within_cap(without_said(events, seq)),
    decreases events.len(),
{
    if events.len() > 0 {
        let d = events.drop_last();
        assert forall|i: int| 0 <= i < d.len() implies within_cap((#[trigger] d[i]).1.kind) by {
            assert(d[i] == events[i]);
        }
        lemma_without_said_caps(d, seq);
        if !(events.last().0 == seq && is_said(events.last().1)) {
            assert(events.last() == events[events.len() - 1]);
            lemma_push_within(without_said(d, seq), events.last());
        }
    }
}

/// Every text a capture stores keeps to its byte cap: user messages 2 KB,
/// closing messages and compaction summaries 8 KB, assistant statements
/// 8 KB, tool details 500 B, commit messages 200 B (each a prefix of its
/// source cut on a character boundary, as `capped` makes it).
pub proof fn law_captured_texts_within_caps(lines: Seq<Line>, session: Seq<char>, ese: Seq<char>)
    ensures
        all_within_cap(finish(lines_fold(lines, lines.len() as int, session, ese), session)),
{
    let st = lines_fold(lines, lines.len() as int, session, ese);
    lemma_lines_caps(lines, lines.len() as int, session, ese);
    lemma_capped_fits();
    match st.fin {
        None => {},
        Some((seq, ts, text)) => {
            lemma_without_said_caps(st.events, seq);
            lemma_push_within(without_said(st.events, seq), (seq, env(session, ts, EventV::FinalMsg { text: capped(text, FINAL_MSG_CAP as int) })));
        },
    }
}

/// How many of `events` are session metas (`meta`) or closing messages.
pub open spec fn kind_count(events: Seq<(u32, EnvelopeV)>, meta: bool) -> int
    decreases events.len(),
{
    if events.len() == 0 {
        0
    } else {
        kind_count(events.drop_last(), meta) + if (meta && events.last().1.kind is SessionMeta)
            || (!meta && events.last().1.kind is FinalMsg) {
            1int
        } else {
            0int
        }
    }
}

pub open spec fn counted(e: EnvelopeV, meta: bool) -> bool {
    (meta && e.kind is SessionMeta) || (!meta && e.kind is FinalMsg)
}

proof fn lemma_count_push(s: Seq<(u32, EnvelopeV)>, e: (u32, EnvelopeV), meta: bool)
    ensures
        kind_count(s.push(e), meta) == kind_count(s, meta) + if counted(e.1, meta) { 1int } else { 0int },
{
    assert(s.push(e).drop_last() =~= s);
}

proof fn lemma_count_update(s: Seq<(u32, EnvelopeV)>, i: int, x: (u32, EnvelopeV), meta: bool)
    requires
        0 <= i < s.len(),
        counted(x.1, meta) == counted(s[i].1, meta),
    ensures
        kind_count(s.update(i, x), meta) == kind_count(s, meta),
    decreases s.len(),
{
    let t = s.update(i, x);
    if i == s.len() - 1 {
        assert(t.drop_last() =~= s.drop_last());
    } else {
        lemma_count_update(s.drop_last(), i, x, meta);
        assert(t.drop_last() =~= s.drop_last().update(i, x));
    }
}

/// The parser's state holds no closing message and exactly one session
/// meta once it has written one.
pub open spec fn counts_ok(st: PState) -> bool {
    &&& kind_count(st.events, false) == 0
    &&& kind_count(st.events, true) == if st.meta_done { 1int } else { 0int }
}

#[verifier::rlimit(40)]
proof fn lemma_block_counts(st: PState, seq0: int, user: bool, ts: u64, b: Block, bi: int, line: Line, session: Seq<char>)
    requires
        counts_ok(st),
    ensures
        counts_ok(block_step(st, seq0, user, ts, b, bi, line, session)),
        block_step(st, seq0, user, ts, b, bi, line, session).meta_done == st.meta_done,
{
    let seq = (seq0 + 2 + bi) as u32;
    match b.ty {
        None => {},
        Some(t) => if t@ == "text"@ {
            match b.text {
                None => {},
                Some(x) => if user {
                    let e = (seq, env(session, ts, EventV::UserMsg { text: capped(x@, USER_MSG_CAP as int) }));
                    lemma_count_push(st.events, e, true);
                    lemma_count_push(st.events, e, false);
                } else if utf8_bytes(x@) >= SAID_MIN {
                    let e = (seq, env(session, ts, EventV::Said { text: capped(x@, SAID_CAP as int) }));
                    lemma_count_push(st.events, e, true);
                    lemma_count_push(st.events, e, false);
                },
            }
        } else if t@ == "tool_use"@ {
            let tool = str_or(b.name, "unknown"@);
            let call = EventV::ToolCall { tool, detail: capped(tool_detail(tool, b.input), DETAIL_CAP as int), ok: true };
            let c = (seq, env(session, ts, call));
            let e1 = st.events.push(c);
            lemma_count_push(st.events, c, true);
            lemma_count_push(st.events, c, false);
            let e2 = match file_touch(tool, b.input) {
                Some(path) => e1.push(((seq0 + 15) as u32, env(session, ts, EventV::FileTouch { path }))),
                None => e1,
            };
            if let Some(path) = file_touch(tool, b.input) {
                let f = ((seq0 + 15) as u32, env(session, ts, EventV::FileTouch { path }));
                lemma_count_push(e1, f, true);
                lemma_count_push(e1, f, false);
            }
            if let Some((hash, message)) = commit_of(tool, b.input, line) {
                let m = ((seq0 + 14) as u32, env(session, ts, EventV::Commit { hash, message }));
                lemma_count_push(e2, m, true);
                lemma_count_push(e2, m, false);
            }
        } else if t@ == "tool_result"@ {
            if let Some(id) = b.tool_use_id {
                if b.is_error || line.result_error {
                    if let Some(i) = site_of(st.sites, id@) {
                        if 0 <= i < st.events.len() {
                            let x = (st.events[i].0, failed(st.events[i].1));
                            lemma_count_update(st.events, i, x, true);
                            lemma_count_update(st.events, i, x, false);
                        }
                    }
                }
            }
        },
    }
}

proof fn lemma_blocks_counts(
    st: PState,
    seq0: int,
    user: bool,
    ts: u64,
    bs: Seq<Block>,
    n: int,
    line: Line,
    session: Seq<char>,
)
    requires
        counts_ok(st),
    ensures
        counts_ok(blocks_fold(st, seq0, user, ts, bs, n, line, session)),
        blocks_fold(st, seq0, user, ts, bs, n, line, session).meta_done == st.meta_done,
    decreases n,
{
    if n > 0 {
        lemma_blocks_counts(st, seq0, user, ts, bs, n - 1, line, session);
        lemma_block_counts(blocks_fold(st, seq0, user, ts, bs, n - 1, line, session), seq0, user, ts, bs[n - 1], n - 1, line, session);
    }
}

#[verifier::rlimit(40)]
proof fn lemma_lines_counts(lines: Seq<Line>, n: int, session: Seq<char>, ese: Seq<char>)
    requires
        0 <= n <= lines.len(),
    ensures
        counts_ok(lines_fold(lines, n, session, ese)),
    decreases n,
{
    if n > 0 {
        lemma_lines_counts(lines, n - 1, session, ese);
        let pre = lines_fold(lines, n - 1, session, ese);
        let seq0 = 16 * (n - 1);
        let line = lines[n - 1];
        let ts = match line.timestamp {
            Some(t) => match iso_ms(vstd::utf8::encode_utf8(t@)) {
                Some(x) => x as u64,
                None => pre.last_ts,
            },
            None => pre.last_ts,
        };
        let st1 = PState { last_ts: ts, ..pre };
        let st2 = if !st1.meta_done && line.cwd is Some {
            let meta = EventV::SessionMeta { cwd: line.cwd->0@, branch: opt_view(line.git_branch), ese_version: ese };
            lemma_count_push(st1.events, (seq0 as u32, env(session, ts, meta)), true);
            lemma_count_push(st1.events, (seq0 as u32, env(session, ts, meta)), false);
            PState { meta_done: true, events: st1.events.push((seq0 as u32, env(session, ts, meta))), ..st1 }
        } else {
            st1
        };
        assert(counts_ok(st2));
        if line.compact_summary {
            let c = ((seq0 + 1) as u32, env(session, ts, EventV::Compaction));
            let e1 = st2.events.push(c);
            lemma_count_push(st2.events, c, true);
            lemma_count_push(st2.events, c, false);
            if let Some(Content::Text(text)) = line.message {
                let x = ((seq0 + 2) as u32, env(session, ts, EventV::CompactSummary { text: capped(text@, FINAL_MSG_CAP as int) }));
                lemma_count_push(e1, x, true);
                lemma_count_push(e1, x, false);
            }
        } else {
            let ty = str_or(line.ty, Seq::empty());
            if ty == "user"@ || ty == "assistant"@ {
                match line.message {
                    Some(Content::Text(text)) => if ty == "user"@ {
                        let x = ((seq0 + 2) as u32, env(session, ts, EventV::UserMsg { text: capped(text@, USER_MSG_CAP as int) }));
                        lemma_count_push(st2.events, x, true);
                        lemma_count_push(st2.events, x, false);
                    },
                    Some(Content::Blocks(bs)) => {
                        lemma_blocks_counts(st2, seq0, ty == "user"@, ts, bs@, if bs@.len() < 14 { bs@.len() as int } else { 14 }, line, session);
                    },
                    _ => {},
                }
            }
        }
    }
}

proof fn lemma_without_said_counts(events: Seq<(u32, EnvelopeV)>, seq: u32, meta: bool)
    ensures
        kind_count(without_said(events, seq), meta) == kind_count(events, meta),
    decreases events.len(),
{
    if events.len() > 0 {
        let d = events.drop_last();
        lemma_without_said_counts(d, seq, meta);
        if !(events.last().0 == seq && is_said(events.last().1)) {
            lemma_count_push(without_said(d, seq), events.last(), meta);
        }
    }
}

/// A capture writes at most one session meta and at most one closing
/// message.
pub proof fn law_capture_has_one_meta_and_one_close(lines: Seq<Line>, session: Seq<char>, ese: Seq<char>)
    ensures
        kind_count(finish(lines_fold(lines, lines.len() as int, session, ese), session), true) <= 1,
        kind_count(finish(lines_fold(lines, lines.len() as int, session, ese), session), false) <= 1,
{
    let st = lines_fold(lines, lines.len() as int, session, ese);
    lemma_lines_counts(lines, lines.len() as int, session, ese);
    match st.fin {
        None => {},
        Some((seq, ts, text)) => {
            let w = without_said(st.events, seq);
            lemma_without_said_counts(st.events, seq, true);
            lemma_without_said_counts(st.events, seq, false);
            let f = (seq, env(session, ts, EventV::FinalMsg { text: capped(text, FINAL_MSG_CAP as int) }));
            lemma_count_push(w, f, true);
            lemma_count_push(w, f, false);
        },
    }
}

// ---------------------------------------------------------------- grown transcripts

/// `b` is event `a` as a later state holds it: same seq, and the same
/// envelope unless it is a tool call (which a later error result marks
/// failed).
pub open spec fn kept(a: (u32, EnvelopeV), b: (u32, EnvelopeV)) -> bool {
    &&& a.0 == b.0
    &&& !(a.1.kind is ToolCall) ==> b.1 == a.1
    &&& (a.1.kind is ToolCall) ==> (b.1.kind is ToolCall)
}

/// State `t` extends state `s`: its events begin with `s`'s, kept.
pub open spec fn extends(s: PState, t: PState) -> bool {
    &&& s.events.len() <= t.events.len()
    &&& forall|i: int| 0 <= i < s.events.len() ==> kept(#[trigger] s.events[i], t.events[i])
}

proof fn lemma_push_extends(s: PState, t: PState, e: (u32, EnvelopeV))
    requires
        extends(s, t),
    ensures
        extends(s, PState { events: t.events.push(e), ..t }),
{
    assert forall|i: int| 0 <= i < s.events.len() implies kept(#[trigger] s.events[i], t.events.push(e)[i]) by {
        assert(t.events.push(e)[i] == t.events[i]);
    }
}

proof fn lemma_extends_trans(a: PState, b: PState, c: PState)
    requires
        extends(a, b),
        extends(b, c),
    ensures
        extends(a, c),
{
    assert forall|i: int| 0 <= i < a.events.len() implies kept(#[trigger] a.events[i], c.events[i]) by {
        assert(kept(a.events[i], b.events[i]));
        assert(kept(b.events[i], c.events[i]));
    }
}

/// A step's closing-message candidate is the old one or one at `lo` or later.
pub open spec fn fin_after(s: PState, t: PState, lo: int) -> bool {
    t.fin == s.fin || (t.fin matches Some((q, _, _)) && q >= lo)
}

#[verifier::rlimit(40)]
proof fn lemma_block_extends(st: PState, seq0: int, user: bool, ts: u64, b: Block, bi: int, line: Line, session: Seq<char>)
    requires
        0 <= seq0,
        seq0 + 16 <= u32::MAX + 1,
        0 <= bi < 14,
    ensures
        extends(st, block_step(st, seq0, user, ts, b, bi, line, session)),
        fin_after(st, block_step(st, seq0, user, ts, b, bi, line, session), seq0),
{
    let r = block_step(st, seq0, user, ts, b, bi, line, session);
    let id = PState { ..st };
    assert(extends(st, id));
    match b.ty {
        None => {},
        Some(t) => if t@ == "text"@ {
            match b.text {
                None => {},
                Some(x) => {
                    let seq = (seq0 + 2 + bi) as u32;
                    if user {
                        lemma_push_extends(st, st, (seq, env(session, ts, EventV::UserMsg { text: capped(x@, USER_MSG_CAP as int) })));
                    } else if utf8_bytes(x@) >= SAID_MIN {
                        lemma_push_extends(st, st, (seq, env(session, ts, EventV::Said { text: capped(x@, SAID_CAP as int) })));
                    }
                },
            }
        } else if t@ == "tool_use"@ {
            assert forall|i: int| 0 <= i < st.events.len() implies kept(#[trigger] st.events[i], r.events[i]) by {
                assert(r.events[i] == st.events[i]);
            }
        } else if t@ == "tool_result"@ {
            assert forall|i: int| 0 <= i < st.events.len() implies kept(#[trigger] st.events[i], r.events[i]) by {
            }
        },
    }
}

proof fn lemma_blocks_extends(
    st: PState,
    seq0: int,
    user: bool,
    ts: u64,
    bs: Seq<Block>,
    n: int,
    line: Line,
    session: Seq<char>,
)
    requires
        0 <= seq0,
        seq0 + 16 <= u32::MAX + 1,
        n <= 14,
    ensures
        extends(st, blocks_fold(st, seq0, user, ts, bs, n, line, session)),
        fin_after(st, blocks_fold(st, seq0, user, ts, bs, n, line, session), seq0),
    decreases n,
{
    if n <= 0 {
        assert(extends(st, st));
    } else {
        let mid = blocks_fold(st, seq0, user, ts, bs, n - 1, line, session);
        lemma_blocks_extends(st, seq0, user, ts, bs, n - 1, line, session);
        lemma_block_extends(mid, seq0, user, ts, bs[n - 1], n - 1, line, session);
        lemma_extends_trans(st, mid, blocks_fold(st, seq0, user, ts, bs, n, line, session));
    }
}

#[verifier::rlimit(40)]
proof fn lemma_line_extends(lines: Seq<Line>, n: int, session: Seq<char>, ese: Seq<char>)
    requires
        0 < n <= lines.len(),
        16 * n <= u32::MAX + 1,
    ensures
        extends(lines_fold(lines, n - 1, session, ese), lines_fold(lines, n, session, ese)),
        fin_after(lines_fold(lines, n - 1, session, ese), lines_fold(lines, n, session, ese), 16 * (n - 1)),
{
    let pre = lines_fold(lines, n - 1, session, ese);
    let seq0 = 16 * (n - 1);
    let line = lines[n - 1];
    let ts = match line.timestamp {
        Some(t) => match iso_ms(vstd::utf8::encode_utf8(t@)) {
            Some(x) => x as u64,
            None => pre.last_ts,
        },
        None => pre.last_ts,
    };
    let st1 = PState { last_ts: ts, ..pre };
    assert(extends(pre, st1));
    let st2 = if !st1.meta_done && line.cwd is Some {
        let meta = EventV::SessionMeta { cwd: line.cwd->0@, branch: opt_view(line.git_branch), ese_version: ese };
        lemma_push_extends(pre, st1, (seq0 as u32, env(session, ts, meta)));
        PState { meta_done: true, events: st1.events.push((seq0 as u32, env(session, ts, meta))), ..st1 }
    } else {
        st1
    };
    assert(extends(pre, st2));
    if line.compact_summary {
        let c = ((seq0 + 1) as u32, env(session, ts, EventV::Compaction));
        lemma_push_extends(pre, st2, c);
        let st3 = PState { events: st2.events.push(c), ..st2 };
        if let Some(Content::Text(text)) = line.message {
            lemma_push_extends(pre, st3, ((seq0 + 2) as u32, env(session, ts, EventV::CompactSummary { text: capped(text@, FINAL_MSG_CAP as int) })));
        }
    } else {
        let ty = str_or(line.ty, Seq::empty());
        if ty == "user"@ || ty == "assistant"@ {
            match line.message {
                Some(Content::Text(text)) => if ty == "user"@ {
                    lemma_push_extends(pre, st2, ((seq0 + 2) as u32, env(session, ts, EventV::UserMsg { text: capped(text@, USER_MSG_CAP as int) })));
                },
                Some(Content::Blocks(bs)) => {
                    let k = if bs@.len() < 14 { bs@.len() as int } else { 14 };
                    lemma_blocks_extends(st2, seq0, ty == "user"@, ts, bs@, k, line, session);
                    lemma_extends_trans(pre, st2, blocks_fold(st2, seq0, ty == "user"@, ts, bs@, k, line, session));
                },
                _ => {},
            }
        }
    }
}

proof fn lemma_lines_extend(lines: Seq<Line>, n: int, m: int, session: Seq<char>, ese: Seq<char>)
    requires
        0 <= n <= m <= lines.len(),
        16 * m <= u32::MAX + 1,
    ensures
        extends(lines_fold(lines, n, session, ese), lines_fold(lines, m, session, ese)),
        fin_after(lines_fold(lines, n, session, ese), lines_fold(lines, m, session, ese), 16 * n),
    decreases m - n,
{
    if m == n {
        assert(extends(lines_fold(lines, n, session, ese), lines_fold(lines, m, session, ese)));
    } else {
        lemma_lines_extend(lines, n, m - 1, session, ese);
        lemma_line_extends(lines, m, session, ese);
        lemma_extends_trans(lines_fold(lines, n, session, ese), lines_fold(lines, m - 1, session, ese), lines_fold(lines, m, session, ese));
    }
}

/// Folding the first `n` lines sees only those lines.
proof fn lemma_fold_prefix(t: Seq<Line>, t2: Seq<Line>, n: int, session: Seq<char>, ese: Seq<char>)
    requires
        0 <= n <= t.len() <= t2.len(),
        t2.take(t.len() as int) == t,
    ensures
        lines_fold(t2, n, session, ese) == lines_fold(t, n, session, ese),
    decreases n,
{
    if n > 0 {
        lemma_fold_prefix(t, t2, n - 1, session, ese);
        assert(t2[n - 1] == t2.take(t.len() as int)[n - 1]);
    }
}

proof fn lemma_without_said_members(events: Seq<(u32, EnvelopeV)>, q: u32, x: (u32, EnvelopeV))
    ensures
        without_said(events, q).contains(x) <==> events.contains(x) && !(x.0 == q && is_said(x.1)),
    decreases events.len(),
{
    if events.len() > 0 {
        let d = events.drop_last();
        lemma_without_said_members(d, q, x);
        assert(events =~= d.push(events.last()));
        if events.contains(x) && x != events.last() {
            let k = choose|k: int| 0 <= k < events.len() && events[k] == x;
            assert(d.contains(x)) by {
                assert(k < events.len() - 1);
                assert(d[k] == x);
            }
        }
        let w = without_said(d, q);
        if !(events.last().0 == q && is_said(events.last().1)) {
            assert(w.push(events.last()).contains(x) <==> (w.contains(x) || x == events.last())) by {
                if w.push(events.last()).contains(x) && x != events.last() {
                    let k = choose|k: int| 0 <= k < w.push(events.last()).len() && w.push(events.last())[k] == x;
                    assert(w[k] == x);
                }
                if w.contains(x) {
                    let k = choose|k: int| 0 <= k < w.len() && w[k] == x;
                    assert(w.push(events.last())[k] == x);
                }
                if x == events.last() {
                    assert(w.push(events.last())[w.len() as int] == x);
                }
            }
        }
        if d.contains(x) {
            let k = choose|k: int| 0 <= k < d.len() && d[k] == x;
            assert(events[k] == x);
        }
        if x == events.last() {
            assert(events[events.len() - 1] == x);
        }
    }
}

proof fn lemma_push_members(s: Seq<(u32, EnvelopeV)>, e: (u32, EnvelopeV), x: (u32, EnvelopeV))
    ensures
        s.push(e).contains(x) <==> s.contains(x) || x == e,
{
    if s.push(e).contains(x) && x != e {
        let k = choose|k: int| 0 <= k < s.push(e).len() && s.push(e)[k] == x;
        assert(s[k] == x);
    }
    if s.contains(x) {
        let k = choose|k: int| 0 <= k < s.len() && s[k] == x;
        assert(s.push(e)[k] == x);
    }
    if x == e {
        assert(s.push(e)[s.len() as int] == x);
    }
}

/// An event of `finish` that is not the closing message is an event of
/// the state, not the dropped statement.
proof fn lemma_finish_members(st: PState, session: Seq<char>, x: (u32, EnvelopeV))
    requires
        !(x.1.kind is FinalMsg),
    ensures
        finish(st, session).contains(x) <==> st.events.contains(x) && (st.fin matches Some((q, _, _)) ==> !(x.0 == q && is_said(x.1))),
{
    match st.fin {
        None => {},
        Some((q, ts, text)) => {
            lemma_without_said_members(st.events, q, x);
            lemma_push_members(without_said(st.events, q), (q, env(session, ts, EventV::FinalMsg { text: capped(text, FINAL_MSG_CAP as int) })), x);
        },
    }
}

/// Re-capturing a grown transcript rewrites the earlier events as they
/// were: every event of the shorter transcript's capture other than its
/// closing message and its tool calls (which a later error result may
/// mark failed) is an event of the longer one's, identical.
pub proof fn law_grown_transcript_keeps_its_events(t: Seq<Line>, t2: Seq<Line>, session: Seq<char>, ese: Seq<char>)
    requires
        t.len() <= t2.len() < 0x0800_0000,
        t2.take(t.len() as int) == t,
    ensures
        forall|x: (u32, EnvelopeV)|
            #![trigger finish(lines_fold(t, t.len() as int, session, ese), session).contains(x)]
            finish(lines_fold(t, t.len() as int, session, ese), session).contains(x) && !(x.1.kind is FinalMsg)
                && !(x.1.kind is ToolCall) ==> finish(lines_fold(t2, t2.len() as int, session, ese), session).contains(x),
{
    let n = t.len() as int;
    let s1 = lines_fold(t, n, session, ese);
    let s2 = lines_fold(t2, t2.len() as int, session, ese);
    lemma_fold_prefix(t, t2, n, session, ese);
    lemma_lines_extend(t2, n, t2.len() as int, session, ese);
    lemma_lines_band(t2, n, session, ese);
    assert forall|x: (u32, EnvelopeV)|
        #![trigger finish(lines_fold(t, t.len() as int, session, ese), session).contains(x)]
        finish(lines_fold(t, t.len() as int, session, ese), session).contains(x) && !(x.1.kind is FinalMsg)
            && !(x.1.kind is ToolCall) implies finish(s2, session).contains(x) by {
        lemma_finish_members(s1, session, x);
        lemma_finish_members(s2, session, x);
        let k = choose|k: int| 0 <= k < s1.events.len() && s1.events[k] == x;
        assert(kept(s1.events[k], s2.events[k]));
        assert(s2.events[k] == x);
        assert(s2.events.contains(x));
        assert(x.0 < 16 * n);
    }
}

/// A grown transcript belongs to the same session as the one it grew from,
/// once that one names a session.
pub proof fn law_grown_transcript_keeps_its_session(t: Seq<Line>, t2: Seq<Line>, fallback: Option<Seq<char>>)
    requires
        t.len() <= t2.len(),
        t2.take(t.len() as int) == t,
        exists|i: int| 0 <= i < t.len() && (#[trigger] t[i]).session_id is Some,
    ensures
        session_of(t2, fallback) == session_of(t, fallback),
    decreases t.len(),
{
    let i = choose|i: int| 0 <= i < t.len() && (#[trigger] t[i]).session_id is Some;
    assert(t2[0] == t[0]);
    if t[0].session_id is None {
        assert(i > 0);
        let (d, d2) = (t.drop_first(), t2.drop_first());
        assert(d2.take(d.len() as int) =~= d);
        assert(d[i - 1] == t[i]);
        law_grown_transcript_keeps_its_session(d, d2, fallback);
    }
}

// ---------------------------------------------------------------- distinct ids

/// Block `b` is a tool call that touches a file.
pub open spec fn touches_file(b: Block) -> bool {
    b.ty matches Some(t) && t@ == "tool_use"@ && file_touch(str_or(b.name, "unknown"@), b.input) is Some
}

/// Block `b` of `line` is a tool call that makes a commit.
pub open spec fn makes_commit(b: Block, line: Line) -> bool {
    b.ty matches Some(t) && t@ == "tool_use"@ && commit_of(str_or(b.name, "unknown"@), b.input, line) is Some
}

/// How many of the first `n` blocks touch a file (`file`) or commit.
pub open spec fn block_count(bs: Seq<Block>, n: int, line: Line, file: bool) -> int
    decreases n,
{
    if n <= 0 {
        0
    } else {
        block_count(bs, n - 1, line, file) + if (file && touches_file(bs[n - 1])) || (!file && makes_commit(bs[n - 1], line)) {
            1int
        } else {
            0int
        }
    }
}

proof fn lemma_block_count_mono(bs: Seq<Block>, n: int, m: int, line: Line, file: bool)
    requires
        0 <= n <= m,
    ensures
        block_count(bs, n, line, file) <= block_count(bs, m, line, file),
    decreases m - n,
{
    if n < m {
        lemma_block_count_mono(bs, n, m - 1, line, file);
    }
}

/// A line whose events the seq layout keeps apart: at most twelve content
/// blocks, at most one of them touching a file and at most one committing.
pub open spec fn line_fits_layout(line: Line) -> bool {
    match line.message {
        Some(Content::Blocks(bs)) => bs@.len() <= 12 && block_count(bs@, bs@.len() as int, line, true) <= 1
            && block_count(bs@, bs@.len() as int, line, false) <= 1,
        _ => true,
    }
}

/// No two events share a seq.
pub open spec fn distinct_seqs(events: Seq<(u32, EnvelopeV)>) -> bool {
    forall|i: int, j: int| 0 <= i < j < events.len() ==> (#[trigger] events[i]).0 != (#[trigger] events[j]).0
}

/// The pending closing message's seq holds nothing but its statement.
pub open spec fn fin_alone(st: PState) -> bool {
    st.fin matches Some((q, _, _)) ==> forall|i: int| 0 <= i < st.events.len() && (#[trigger] st.events[i]).0 == q ==> is_said(st.events[i].1)
}

pub open spec fn has_seq(events: Seq<(u32, EnvelopeV)>, q: int) -> bool {
    exists|i: int| 0 <= i < events.len() && (#[trigger] events[i]).0 == q
}

/// What holds after the first `n` blocks of a line at `seq0`.
pub open spec fn blocks_inv(st: PState, seq0: int, bs: Seq<Block>, n: int, line: Line) -> bool {
    &&& distinct_seqs(st.events)
    &&& fin_alone(st)
    &&& forall|i: int| 0 <= i < st.events.len() ==> (#[trigger] st.events[i]).0 < seq0 + 2 + n
        || st.events[i].0 == seq0 + 14 || st.events[i].0 == seq0 + 15
    &&& has_seq(st.events, seq0 + 14) ==> block_count(bs, n, line, false) >= 1
    &&& has_seq(st.events, seq0 + 15) ==> block_count(bs, n, line, true) >= 1
    &&& (st.fin matches Some((q, _, _)) ==> q < seq0 + 2 + n)
}

proof fn lemma_push_distinct(events: Seq<(u32, EnvelopeV)>, e: (u32, EnvelopeV))
    requires
        distinct_seqs(events),
        !has_seq(events, e.0 as int),
    ensures
        distinct_seqs(events.push(e)),
{
    let x = events.push(e);
    assert forall|i: int, j: int| 0 <= i < j < x.len() implies (#[trigger] x[i]).0 != (#[trigger] x[j]).0 by {
        if j == events.len() {
            assert(x[i] == events[i]);
        } else {
            assert(x[i] == events[i] && x[j] == events[j]);
        }
    }
}

/// What one block step does to seqs: earlier events keep their seqs and
/// whether they are statements; new ones take the block's seq, or the
/// line's commit or file seq when the block commits or touches a file.
pub open spec fn step_shape(st: PState, r: PState, seq: int, seq0: int, b: Block, line: Line) -> bool {
    &&& st.events.len() <= r.events.len()
    &&& forall|i: int| 0 <= i < st.events.len() ==> (#[trigger] r.events[i]).0 == st.events[i].0
        && is_said(r.events[i].1) == is_said(st.events[i].1)
    &&& forall|i: int| st.events.len() <= i < r.events.len() ==> (#[trigger] r.events[i]).0 == seq
        || (r.events[i].0 == seq0 + 14 && makes_commit(b, line)) || (r.events[i].0 == seq0 + 15 && touches_file(b))
    &&& distinct_seqs(r.events)
    &&& (r.fin == st.fin || (r.fin matches Some((q, _, _)) && q == seq && forall|i: int|
        0 <= i < r.events.len() && (#[trigger] r.events[i]).0 == seq ==> is_said(r.events[i].1)))
}

#[verifier::rlimit(80)]
proof fn lemma_block_shape(st: PState, seq0: int, user: bool, ts: u64, b: Block, n: int, line: Line, session: Seq<char>)
    requires
        0 <= seq0,
        seq0 + 16 <= u32::MAX + 1,
        0 <= n < 12,
        distinct_seqs(st.events),
        !has_seq(st.events, seq0 + 2 + n),
        touches_file(b) ==> !has_seq(st.events, seq0 + 15),
        makes_commit(b, line) ==> !has_seq(st.events, seq0 + 14),
    ensures
        step_shape(st, block_step(st, seq0, user, ts, b, n, line, session), seq0 + 2 + n, seq0, b, line),
{
    let seq = (seq0 + 2 + n) as u32;
    let r = block_step(st, seq0, user, ts, b, n, line, session);
    match b.ty {
        None => {},
        Some(t) => if t@ == "text"@ {
            match b.text {
                None => {},
                Some(x) => {
                    if user {
                        let e = (seq, env(session, ts, EventV::UserMsg { text: capped(x@, USER_MSG_CAP as int) }));
                        lemma_push_distinct(st.events, e);
                    } else if utf8_bytes(x@) >= SAID_MIN {
                        let e = (seq, env(session, ts, EventV::Said { text: capped(x@, SAID_CAP as int) }));
                        lemma_push_distinct(st.events, e);
                        assert forall|i: int| 0 <= i < r.events.len() && (#[trigger] r.events[i]).0 == seq implies is_said(r.events[i].1) by {
                            if i < st.events.len() {
                                assert(r.events[i] == st.events[i]);
                            }
                        }
                    } else {
                        assert forall|i: int| 0 <= i < r.events.len() && (#[trigger] r.events[i]).0 == seq implies is_said(r.events[i].1) by {
                            assert(r.events[i] == st.events[i]);
                        }
                    }
                },
            }
        } else if t@ == "tool_use"@ {
            let tool = str_or(b.name, "unknown"@);
            let call = EventV::ToolCall { tool, detail: capped(tool_detail(tool, b.input), DETAIL_CAP as int), ok: true };
            let c = (seq, env(session, ts, call));
            let e1 = st.events.push(c);
            lemma_push_distinct(st.events, c);
            let e2 = match file_touch(tool, b.input) {
                Some(path) => e1.push(((seq0 + 15) as u32, env(session, ts, EventV::FileTouch { path }))),
                None => e1,
            };
            if let Some(path) = file_touch(tool, b.input) {
                assert(touches_file(b));
                assert(!has_seq(e1, seq0 + 15)) by {
                    if has_seq(e1, seq0 + 15) {
                        let i = choose|i: int| 0 <= i < e1.len() && (#[trigger] e1[i]).0 == seq0 + 15;
                        assert(e1[i] == st.events[i]);
                    }
                }
                lemma_push_distinct(e1, ((seq0 + 15) as u32, env(session, ts, EventV::FileTouch { path })));
            }
            if let Some((hash, message)) = commit_of(tool, b.input, line) {
                assert(makes_commit(b, line));
                assert(!has_seq(e2, seq0 + 14)) by {
                    if has_seq(e2, seq0 + 14) {
                        let i = choose|i: int| 0 <= i < e2.len() && (#[trigger] e2[i]).0 == seq0 + 14;
                        if i < st.events.len() {
                            assert(e2[i] == st.events[i]);
                        } else if i == st.events.len() {
                            assert(e2[i] == c);
                        } else {
                            assert(e2[i].0 == seq0 + 15);
                        }
                    }
                }
                lemma_push_distinct(e2, ((seq0 + 14) as u32, env(session, ts, EventV::Commit { hash, message })));
            }
            assert forall|i: int| st.events.len() <= i < r.events.len() implies (#[trigger] r.events[i]).0 == seq
                || (r.events[i].0 == seq0 + 14 && makes_commit(b, line)) || (r.events[i].0 == seq0 + 15 && touches_file(b)) by {
                if i == st.events.len() {
                    assert(r.events[i] == c);
                }
            }
        } else if t@ == "tool_result"@ {
            assert forall|i: int, j: int| 0 <= i < j < r.events.len() implies (#[trigger] r.events[i]).0 != (#[trigger] r.events[j]).0 by {
                assert(r.events[i].0 == st.events[i].0 && r.events[j].0 == st.events[j].0);
            }
        },
    }
}

proof fn lemma_block_distinct(st: PState, seq0: int, user: bool, ts: u64, bs: Seq<Block>, n: int, line: Line, session: Seq<char>)
    requires
        0 <= seq0,
        seq0 + 16 <= u32::MAX + 1,
        0 <= n < 12,
        n < bs.len(),
        blocks_inv(st, seq0, bs, n, line),
        block_count(bs, n + 1, line, true) <= 1,
        block_count(bs, n + 1, line, false) <= 1,
    ensures
        blocks_inv(block_step(st, seq0, user, ts, bs[n], n, line, session), seq0, bs, n + 1, line),
{
    let b = bs[n];
    let seq = seq0 + 2 + n;
    assert(block_count(bs, n + 1, line, true) == block_count(bs, n, line, true) + if touches_file(b) { 1int } else { 0int });
    assert(block_count(bs, n + 1, line, false) == block_count(bs, n, line, false) + if makes_commit(b, line) { 1int } else { 0int });
    assert(!has_seq(st.events, seq)) by {
        if has_seq(st.events, seq) {
            let i = choose|i: int| 0 <= i < st.events.len() && (#[trigger] st.events[i]).0 == seq;
        }
    }
    lemma_block_shape(st, seq0, user, ts, b, n, line, session);
    lemma_block_count_mono(bs, 0, n, line, true);
    lemma_block_count_mono(bs, 0, n, line, false);
    let r = block_step(st, seq0, user, ts, b, n, line, session);
    assert forall|i: int| 0 <= i < r.events.len() implies (#[trigger] r.events[i]).0 < seq0 + 2 + n + 1
        || r.events[i].0 == seq0 + 14 || r.events[i].0 == seq0 + 15 by {
        if i < st.events.len() {
            assert(st.events[i].0 == r.events[i].0);
        }
    }
    assert(has_seq(r.events, seq0 + 14) ==> block_count(bs, n + 1, line, false) >= 1) by {
        if has_seq(r.events, seq0 + 14) {
            let i = choose|i: int| 0 <= i < r.events.len() && (#[trigger] r.events[i]).0 == seq0 + 14;
            if i < st.events.len() {
                assert(st.events[i].0 == seq0 + 14);
                assert(has_seq(st.events, seq0 + 14));
                assert(block_count(bs, n, line, false) >= 1);
            } else {
                assert(r.events[i].0 == seq || (r.events[i].0 == seq0 + 14 && makes_commit(b, line))
                    || (r.events[i].0 == seq0 + 15 && touches_file(b)));
                assert(makes_commit(b, line));
            }
        }
    }
    assert(has_seq(r.events, seq0 + 15) ==> block_count(bs, n + 1, line, true) >= 1) by {
        if has_seq(r.events, seq0 + 15) {
            let i = choose|i: int| 0 <= i < r.events.len() && (#[trigger] r.events[i]).0 == seq0 + 15;
            if i < st.events.len() {
                assert(st.events[i].0 == seq0 + 15);
                assert(has_seq(st.events, seq0 + 15));
            } else {
                assert(r.events[i].0 == seq || (r.events[i].0 == seq0 + 14 && makes_commit(b, line))
                    || (r.events[i].0 == seq0 + 15 && touches_file(b)));
            }
        }
    }
    if r.fin == st.fin {
        if let Some((q, _, _)) = st.fin {
            assert forall|i: int| 0 <= i < r.events.len() && (#[trigger] r.events[i]).0 == q implies is_said(r.events[i].1) by {
                if i < st.events.len() {
                    assert(st.events[i].0 == q);
                }
            }
        }
    }
}

proof fn lemma_blocks_distinct(
    st: PState,
    seq0: int,
    user: bool,
    ts: u64,
    bs: Seq<Block>,
    n: int,
    line: Line,
    session: Seq<char>,
)
    requires
        0 <= seq0,
        seq0 + 16 <= u32::MAX + 1,
        0 <= n <= bs.len() <= 12,
        blocks_inv(st, seq0, bs, 0, line),
        block_count(bs, bs.len() as int, line, true) <= 1,
        block_count(bs, bs.len() as int, line, false) <= 1,
    ensures
        blocks_inv(blocks_fold(st, seq0, user, ts, bs, n, line, session), seq0, bs, n, line),
    decreases n,
{
    if n > 0 {
        lemma_blocks_distinct(st, seq0, user, ts, bs, n - 1, line, session);
        lemma_block_count_mono(bs, n, bs.len() as int, line, true);
        lemma_block_count_mono(bs, n, bs.len() as int, line, false);
        lemma_block_distinct(blocks_fold(st, seq0, user, ts, bs, n - 1, line, session), seq0, user, ts, bs, n - 1, line, session);
    }
}

#[verifier::rlimit(60)]
proof fn lemma_lines_distinct(lines: Seq<Line>, n: int, session: Seq<char>, ese: Seq<char>)
    requires
        0 <= n <= lines.len(),
        16 * lines.len() <= u32::MAX + 1,
        forall|i: int| 0 <= i < lines.len() ==> line_fits_layout(#[trigger] lines[i]),
    ensures
        distinct_seqs(lines_fold(lines, n, session, ese).events),
        fin_alone(lines_fold(lines, n, session, ese)),
    decreases n,
{
    if n > 0 {
        lemma_lines_distinct(lines, n - 1, session, ese);
        lemma_lines_band(lines, n - 1, session, ese);
        let pre = lines_fold(lines, n - 1, session, ese);
        let seq0 = 16 * (n - 1);
        let line = lines[n - 1];
        assert(line_fits_layout(line));
        let ts = match line.timestamp {
            Some(t) => match iso_ms(vstd::utf8::encode_utf8(t@)) {
                Some(x) => x as u64,
                None => pre.last_ts,
            },
            None => pre.last_ts,
        };
        let st1 = PState { last_ts: ts, ..pre };
        assert(forall|i: int| 0 <= i < st1.events.len() ==> (#[trigger] st1.events[i]).0 < seq0);
        let st2 = if !st1.meta_done && line.cwd is Some {
            let meta = EventV::SessionMeta { cwd: line.cwd->0@, branch: opt_view(line.git_branch), ese_version: ese };
            let e = (seq0 as u32, env(session, ts, meta));
            lemma_push_distinct(st1.events, e);
            PState { meta_done: true, events: st1.events.push(e), ..st1 }
        } else {
            st1
        };
        assert forall|i: int| 0 <= i < st2.events.len() implies (#[trigger] st2.events[i]).0 < seq0 + 1 by {
            if i < st1.events.len() {
                assert(st2.events[i] == st1.events[i]);
            }
        }
        assert(distinct_seqs(st2.events));
        assert(fin_alone(st2)) by {
            if let Some((q, _, _)) = st2.fin {
                assert forall|i: int| 0 <= i < st2.events.len() && (#[trigger] st2.events[i]).0 == q implies is_said(st2.events[i].1) by {
                    if i < st1.events.len() {
                        assert(st2.events[i] == st1.events[i]);
                    }
                }
            }
        }
        if line.compact_summary {
            let c = ((seq0 + 1) as u32, env(session, ts, EventV::Compaction));
            lemma_push_distinct(st2.events, c);
            let e1 = st2.events.push(c);
            assert forall|i: int| 0 <= i < e1.len() implies (#[trigger] e1[i]).0 < seq0 + 2 by {
                if i < st2.events.len() {
                    assert(e1[i] == st2.events[i]);
                }
            }
            if let Some(Content::Text(text)) = line.message {
                let x = ((seq0 + 2) as u32, env(session, ts, EventV::CompactSummary { text: capped(text@, FINAL_MSG_CAP as int) }));
                lemma_push_distinct(e1, x);
                let e2 = e1.push(x);
                assert forall|i: int| 0 <= i < e2.len() && (#[trigger] e2[i]).0 == (pre.fin->0).0 && pre.fin is Some implies is_said(e2[i].1) by {
                    if i < st2.events.len() {
                        assert(e2[i] == st2.events[i]);
                    } else {
                        assert((pre.fin->0).0 < seq0);
                    }
                }
            } else {
                assert forall|i: int| 0 <= i < e1.len() && (#[trigger] e1[i]).0 == (pre.fin->0).0 && pre.fin is Some implies is_said(e1[i].1) by {
                    if i < st2.events.len() {
                        assert(e1[i] == st2.events[i]);
                    } else {
                        assert((pre.fin->0).0 < seq0);
                    }
                }
            }
        } else {
            let ty = str_or(line.ty, Seq::empty());
            if ty == "user"@ || ty == "assistant"@ {
                match line.message {
                    Some(Content::Text(text)) => if ty == "user"@ {
                        let x = ((seq0 + 2) as u32, env(session, ts, EventV::UserMsg { text: capped(text@, USER_MSG_CAP as int) }));
                        lemma_push_distinct(st2.events, x);
                        let e2 = st2.events.push(x);
                        assert forall|i: int| 0 <= i < e2.len() && (#[trigger] e2[i]).0 == (pre.fin->0).0 && pre.fin is Some implies is_said(e2[i].1) by {
                            if i < st2.events.len() {
                                assert(e2[i] == st2.events[i]);
                            } else {
                                assert((pre.fin->0).0 < seq0);
                            }
                        }
                    },
                    Some(Content::Blocks(bs)) => {
                        let k = bs@.len() as int;
                        assert(!has_seq(st2.events, seq0 + 14)) by {
                            if has_seq(st2.events, seq0 + 14) {
                                let i = choose|i: int| 0 <= i < st2.events.len() && (#[trigger] st2.events[i]).0 == seq0 + 14;
                            }
                        }
                        assert(!has_seq(st2.events, seq0 + 15)) by {
                            if has_seq(st2.events, seq0 + 15) {
                                let i = choose|i: int| 0 <= i < st2.events.len() && (#[trigger] st2.events[i]).0 == seq0 + 15;
                            }
                        }
                        assert(blocks_inv(st2, seq0, bs@, 0, line));
                        lemma_blocks_distinct(st2, seq0, ty == "user"@, ts, bs@, k, line, session);
                    },
                    _ => {},
                }
            }
        }
    }
}

proof fn lemma_without_said_distinct(events: Seq<(u32, EnvelopeV)>, q: u32)
    requires
        distinct_seqs(events),
    ensures
        distinct_seqs(without_said(events, q)),
    decreases events.len(),
{
    if events.len() > 0 {
        let d = events.drop_last();
        assert(distinct_seqs(d)) by {
            assert forall|i: int, j: int| 0 <= i < j < d.len() implies (#[trigger] d[i]).0 != (#[trigger] d[j]).0 by {
                assert(d[i] == events[i] && d[j] == events[j]);
            }
        }
        lemma_without_said_distinct(d, q);
        let w = without_said(d, q);
        if !(events.last().0 == q && is_said(events.last().1)) {
            assert(!has_seq(w, events.last().0 as int)) by {
                if has_seq(w, events.last().0 as int) {
                    let i = choose|i: int| 0 <= i < w.len() && (#[trigger] w[i]).0 == events.last().0;
                    assert(w.contains(w[i]));
                    lemma_without_said_members(d, q, w[i]);
                    let k = choose|k: int| 0 <= k < d.len() && d[k] == w[i];
                    assert(events[k] == d[k]);
                    assert(events[events.len() - 1] == events.last());
                }
            }
            lemma_push_distinct(w, events.last());
        }
    }
}

/// Under the seq layout's bounds the events of a capture have distinct
/// seqs, so distinct ids: no line carries more than twelve content blocks,
/// more than one file-touching tool call or more than one commit. (A line
/// with two Edit calls gives two file touches at the same seq.)
pub proof fn law_capture_ids_are_distinct(lines: Seq<Line>, session: Seq<char>, ese: Seq<char>)
    requires
        lines.len() < 0x0800_0000,
        forall|i: int| 0 <= i < lines.len() ==> line_fits_layout(#[trigger] lines[i]),
    ensures
        distinct_seqs(finish(lines_fold(lines, lines.len() as int, session, ese), session)),
{
    let st = lines_fold(lines, lines.len() as int, session, ese);
    lemma_lines_distinct(lines, lines.len() as int, session, ese);
    match st.fin {
        None => {},
        Some((q, ts, text)) => {
            lemma_without_said_distinct(st.events, q);
            let w = without_said(st.events, q);
            assert(!has_seq(w, q as int)) by {
                if has_seq(w, q as int) {
                    let i = choose|i: int| 0 <= i < w.len() && (#[trigger] w[i]).0 == q;
                    assert(w.contains(w[i]));
                    lemma_without_said_members(st.events, q, w[i]);
                    let k = choose|k: int| 0 <= k < st.events.len() && st.events[k] == w[i];
                    assert(st.events[k].0 == q);
                }
            }
            lemma_push_distinct(w, (q, env(session, ts, EventV::FinalMsg { text: capped(text, FINAL_MSG_CAP as int) })));
        },
    }
}

// ---------------------------------------------------------------- dates read back

proof fn lemma_digit_byte(c: char)
    requires
        '0' <= c <= '9',
    ensures
        (c as u8) as int == c as u32 as int,
        is_digit_byte(c as u8),
{
    let u = c as u32;
    assert(48 <= u <= 57);
    assert((u as u8) as int == u as int) by (bit_vector)
        requires
            48 <= u <= 57,
    ;
}

proof fn lemma_bytes_val(v: Seq<char>, w: Seq<u8>)
    requires
        v.len() == w.len(),
        forall|i: int| 0 <= i < v.len() ==> '0' <= #[trigger] v[i] <= '9',
        forall|i: int| 0 <= i < v.len() ==> #[trigger] w[i] == v[i] as u8,
    ensures
        all_digit_bytes(w),
        bytes_val(w) == crate::window::digits_val(v),
    decreases v.len(),
{
    assert forall|i: int| 0 <= i < w.len() implies is_digit_byte(#[trigger] w[i]) by {
        lemma_digit_byte(v[i]);
    }
    if v.len() > 0 {
        let (dv, dw) = (v.drop_last(), w.drop_last());
        assert forall|i: int| 0 <= i < dv.len() implies '0' <= #[trigger] dv[i] <= '9' by {
            assert(dv[i] == v[i]);
        }
        assert forall|i: int| 0 <= i < dv.len() implies #[trigger] dw[i] == dv[i] as u8 by {
            assert(dv[i] == v[i] && dw[i] == w[i]);
        }
        lemma_bytes_val(dv, dw);
        lemma_digit_byte(v.last());
        assert(w.last() == w[w.len() - 1] && v.last() == v[v.len() - 1]);
    }
}

/// The midnight timestamp of a day, as text: `YYYY-MM-DDT00:00:00Z`.
pub open spec fn midnight_text(c: Civil) -> Seq<char> {
    date_text(c) + seq!['T', '0', '0', ':', '0', '0', ':', '0', '0', 'Z']
}

/// A parsed field of the timestamp `b` is the padded number it was
/// written from.
proof fn lemma_field(s: Seq<char>, b: Seq<u8>, lo: int, hi: int, n: nat)
    requires
        0 <= lo < hi <= s.len() == b.len(),
        forall|i: int| 0 <= i < s.len() ==> #[trigger] b[i] == s[i] as u8,
        s.subrange(lo, hi) == pad(n, (hi - lo) as nat),
        crate::text::dec(n).len() <= hi - lo,
    ensures
        parse_small(b.subrange(lo, hi)) == Some(n as int),
{
    crate::window::lemma_pad(n, (hi - lo) as nat);
    let v = s.subrange(lo, hi);
    let w = b.subrange(lo, hi);
    assert forall|i: int| 0 <= i < v.len() implies '0' <= #[trigger] v[i] <= '9' by {
        assert(crate::window::is_digit(v[i]));
    }
    assert forall|i: int| 0 <= i < v.len() implies #[trigger] w[i] == v[i] as u8 by {
        assert(w[i] == b[lo + i] && v[i] == s[lo + i]);
    }
    lemma_bytes_val(v, w);
    lemma_digit_byte(v[0]);
    assert(w[0] != 43);
}

/// `iso_to_ms` reads back what `date_label` writes: the midnight timestamp
/// of a day's label is that day's first millisecond — for every day whose
/// year prints in four digits.
#[verifier::rlimit(60)]
pub proof fn law_iso_reads_back_date_label(b: int)
    requires
        crate::civil::day_ok(b),
        civil_of(b).y < 10000,
    ensures
        iso_ms(vstd::utf8::encode_utf8(midnight_text(civil_of(b)))) == Some(b * 86_400_000),
{
    let c = civil_of(b);
    lemma_civil_of(b);
    crate::window::lemma_pad(c.y as nat, 4);
    crate::window::lemma_pad(c.m as nat, 2);
    crate::window::lemma_pad(c.d as nat, 2);
    crate::window::lemma_pad(0, 2);
    crate::window::lemma_dec(c.y as nat);
    crate::window::lemma_dec(c.m as nat);
    crate::window::lemma_dec(c.d as nat);
    crate::window::lemma_dec(0);
    let (py, pm, pd) = (pad(c.y as nat, 4), pad(c.m as nat, 2), pad(c.d as nat, 2));
    let z = pad(0, 2);
    let s = midnight_text(c);
    let tail = seq!['T', '0', '0', ':', '0', '0', ':', '0', '0', 'Z'];
    assert(s == py + seq!['-'] + pm + seq!['-'] + pd + tail);
    assert(s.len() == 20);
    assert(z =~= seq!['0', '0']);
    assert forall|i: int| 0 <= i < s.len() implies '\0' <= #[trigger] s[i] <= '\u{7f}' by {
        if i < 4 {
            assert(s[i] == py[i] && crate::window::is_digit(py[i]));
        } else if 5 <= i < 7 {
            assert(s[i] == pm[i - 5] && crate::window::is_digit(pm[i - 5]));
        } else if 8 <= i < 10 {
            assert(s[i] == pd[i - 8] && crate::window::is_digit(pd[i - 8]));
        } else if i >= 10 {
            assert(s[i] == tail[i - 10]);
        }
    }
    assert(vstd::utf8::is_ascii_chars(s));
    vstd::utf8::is_ascii_chars_encode_utf8(s);
    let bytes = vstd::utf8::encode_utf8(s);
    assert forall|i: int| 0 <= i < s.len() implies #[trigger] bytes[i] == s[i] as u8 by {}
    assert(bytes[4] == 45 && bytes[7] == 45 && bytes[10] == 84 && bytes[19] == 90) by {
        assert(s[4] == '-' && s[7] == '-' && s[10] == 'T' && s[19] == 'Z');
        assert(bytes[4] == s[4] as u8 && bytes[7] == s[7] as u8 && bytes[10] == s[10] as u8 && bytes[19] == s[19] as u8);
    }
    assert(s.subrange(0, 4) =~= py);
    assert(s.subrange(5, 7) =~= pm);
    assert(s.subrange(8, 10) =~= pd);
    assert(s.subrange(11, 13) =~= z);
    assert(s.subrange(14, 16) =~= z);
    assert(s.subrange(17, 19) =~= z);
    lemma_field(s, bytes, 0, 4, c.y as nat);
    lemma_field(s, bytes, 5, 7, c.m as nat);
    lemma_field(s, bytes, 8, 10, c.d as nat);
    lemma_field(s, bytes, 11, 13, 0);
    lemma_field(s, bytes, 14, 16, 0);
    lemma_field(s, bytes, 17, 19, 0);
}

// ---------------------------------------------------------------- file touches

proof fn lemma_blocks_extend_from(
    st: PState,
    seq0: int,
    user: bool,
    ts: u64,
    bs: Seq<Block>,
    k: int,
    m: int,
    line: Line,
    session: Seq<char>,
)
    requires
        0 <= seq0,
        seq0 + 16 <= u32::MAX + 1,
        0 <= k <= m <= 14,
    ensures
        extends(blocks_fold(st, seq0, user, ts, bs, k, line, session), blocks_fold(st, seq0, user, ts, bs, m, line, session)),
    decreases m - k,
{
    if k == m {
        assert(extends(blocks_fold(st, seq0, user, ts, bs, k, line, session), blocks_fold(st, seq0, user, ts, bs, m, line, session)));
    } else {
        lemma_blocks_extend_from(st, seq0, user, ts, bs, k, m - 1, line, session);
        let mid = blocks_fold(st, seq0, user, ts, bs, m - 1, line, session);
        lemma_block_extends(mid, seq0, user, ts, bs[m - 1], m - 1, line, session);
        lemma_extends_trans(blocks_fold(st, seq0, user, ts, bs, k, line, session), mid, blocks_fold(st, seq0, user, ts, bs, m, line, session));
    }
}

/// Block `bi` of line `li` is an Edit, Write or NotebookEdit call on `path`
/// that capture reads (a user or assistant line, not a compaction, among
/// its first fourteen blocks).
pub open spec fn edits_file(lines: Seq<Line>, li: int, bi: int, path: Seq<char>) -> bool {
    &&& 0 <= li < lines.len()
    &&& !lines[li].compact_summary
    &&& lines[li].ty matches Some(t) && (t@ == "user"@ || t@ == "assistant"@)
    &&& lines[li].message matches Some(Content::Blocks(bs)) && 0 <= bi < bs@.len() && bi < 14 && {
        let b = bs@[bi];
        &&& b.ty matches Some(ty) && ty@ == "tool_use"@
        &&& b.name matches Some(nm) && (nm@ == "Edit"@ || nm@ == "Write"@ || nm@ == "NotebookEdit"@)
        &&& b.input.file_path matches Some(fp) && fp@ == path
    }
}

/// The state after a block-carrying user or assistant line is its blocks
/// folded over the state before them.
proof fn lemma_line_is_blocks(lines: Seq<Line>, li: int, session: Seq<char>, ese: Seq<char>) -> (r: (PState, u64, bool))
    requires
        0 <= li < lines.len(),
        !lines[li].compact_summary,
        lines[li].ty matches Some(t) && (t@ == "user"@ || t@ == "assistant"@),
        lines[li].message matches Some(Content::Blocks(_)),
    ensures
        ({
            let bs = lines[li].message->0->Blocks_0@;
            let kmax = if bs.len() < 14 { bs.len() as int } else { 14 };
            lines_fold(lines, li + 1, session, ese) == blocks_fold(r.0, 16 * li, r.2, r.1, bs, kmax, lines[li], session)
        }),
{
    let pre = lines_fold(lines, li, session, ese);
    let seq0 = 16 * li;
    let line = lines[li];
    let ts = match line.timestamp {
        Some(t) => match iso_ms(vstd::utf8::encode_utf8(t@)) {
            Some(x) => x as u64,
            None => pre.last_ts,
        },
        None => pre.last_ts,
    };
    let st1 = PState { last_ts: ts, ..pre };
    let st2 = if !st1.meta_done && line.cwd is Some {
        let meta = EventV::SessionMeta { cwd: line.cwd->0@, branch: opt_view(line.git_branch), ese_version: ese };
        PState { meta_done: true, events: st1.events.push((seq0 as u32, env(session, ts, meta))), ..st1 }
    } else {
        st1
    };
    let ty = str_or(line.ty, Seq::empty());
    (st2, ts, ty == "user"@)
}

/// A tool call on a file pushes the call and then the touch.
proof fn lemma_block_touch(st: PState, seq0: int, user: bool, ts: u64, b: Block, bi: int, line: Line, session: Seq<char>, path: Seq<char>)
    requires
        b.ty matches Some(ty) && ty@ == "tool_use"@,
        file_touch(str_or(b.name, "unknown"@), b.input) == Some(path),
    ensures
        block_step(st, seq0, user, ts, b, bi, line, session).events.len() >= st.events.len() + 2,
        block_step(st, seq0, user, ts, b, bi, line, session).events[st.events.len() as int + 1]
            == ((seq0 + 15) as u32, env(session, ts, EventV::FileTouch { path })),
{
    reveal_strlit("tool_use");
    reveal_strlit("text");
    let t = b.ty->0;
    assert(t@ != "text"@) by {
        assert(t@[1] != "text"@[1]);
    }
    let tool = str_or(b.name, "unknown"@);
    let call = EventV::ToolCall { tool, detail: capped(tool_detail(tool, b.input), DETAIL_CAP as int), ok: true };
    let e1 = st.events.push(((seq0 + 2 + bi) as u32, env(session, ts, call)));
    let e2 = e1.push(((seq0 + 15) as u32, env(session, ts, EventV::FileTouch { path })));
    let r = block_step(st, seq0, user, ts, b, bi, line, session);
    assert(r.events == e2 || r.events == e2.push(r.events.last()));
    if r.events != e2 {
        assert(r.events[st.events.len() as int + 1] == e2[st.events.len() as int + 1]);
    }
}

/// Every Edit, Write or NotebookEdit call on a file leaves a file touch of
/// that file in the capture, at its line's file seq (`line * 16 + 15`).
pub proof fn law_file_edits_are_touched(lines: Seq<Line>, session: Seq<char>, ese: Seq<char>, li: int, bi: int, path: Seq<char>)
    requires
        lines.len() < 0x0800_0000,
        edits_file(lines, li, bi, path),
    ensures
        exists|k: int|
            0 <= k < finish(lines_fold(lines, lines.len() as int, session, ese), session).len() && {
                let x = #[trigger] finish(lines_fold(lines, lines.len() as int, session, ese), session)[k];
                x.0 == 16 * li + 15 && x.1.kind == (EventV::FileTouch { path })
            },
{
    let line = lines[li];
    let bs = line.message->0->Blocks_0@;
    let kmax = if bs.len() < 14 { bs.len() as int } else { 14 };
    let seq0 = 16 * li;
    let (st2, ts, user) = lemma_line_is_blocks(lines, li, session, ese);
    let b = bs[bi];
    assert(file_touch(str_or(b.name, "unknown"@), b.input) == Some(path)) by {
        reveal(file_touch);
    }
    let sb = blocks_fold(st2, seq0, user, ts, bs, bi, line, session);
    lemma_block_touch(sb, seq0, user, ts, b, bi, line, session, path);
    let sa = blocks_fold(st2, seq0, user, ts, bs, bi + 1, line, session);
    assert(sa == block_step(sb, seq0, user, ts, b, bi, line, session));
    let idx: int = sb.events.len() as int + 1;
    let x = sa.events[idx];
    assert(x == ((seq0 + 15) as u32, env(session, ts, EventV::FileTouch { path })));
    lemma_blocks_extend_from(st2, seq0, user, ts, bs, bi + 1, kmax, line, session);
    lemma_lines_extend(lines, li + 1, lines.len() as int, session, ese);
    let one = lines_fold(lines, li + 1, session, ese);
    let full = lines_fold(lines, lines.len() as int, session, ese);
    assert(kept(x, one.events[idx]));
    assert(kept(one.events[idx], full.events[idx]));
    assert(full.events[idx] == x);
    assert(full.events.contains(x));
    lemma_finish_members(full, session, x);
    let f = finish(full, session);
    let k = choose|k: int| 0 <= k < f.len() && f[k] == x;
    assert(f[k].0 == 16 * li + 15);
}

/// A file touch names a file that some Edit, Write or NotebookEdit call
/// of the transcript edits, and stands at that call's line.
pub open spec fn touch_sourced(lines: Seq<Line>, x: (u32, EnvelopeV)) -> bool {
    x.1.kind matches EventV::FileTouch { path } ==> exists|li: int, bi: int|
        #[trigger] edits_file(lines, li, bi, path) && x.0 == 16 * li + 15
}

pub open spec fn all_sourced(lines: Seq<Line>, events: Seq<(u32, EnvelopeV)>) -> bool {
    forall|i: int| 0 <= i < events.len() ==> touch_sourced(lines, #[trigger] events[i])
}

proof fn lemma_push_sourced(lines: Seq<Line>, events: Seq<(u32, EnvelopeV)>, e: (u32, EnvelopeV))
    requires
        all_sourced(lines, events),
        touch_sourced(lines, e),
    ensures
        all_sourced(lines, events.push(e)),
{
    assert forall|i: int| 0 <= i < events.push(e).len() implies touch_sourced(lines, #[trigger] events.push(e)[i]) by {
        if i < events.len() {
            assert(events.push(e)[i] == events[i]);
        }
    }
}

/// The tool a call names is one of the three editors only when the call
/// names it.
proof fn lemma_editor_named(name: Option<String>)
    requires
        ({
            let tool = str_or(name, "unknown"@);
            tool == "Edit"@ || tool == "Write"@ || tool == "NotebookEdit"@
        }),
    ensures
        name matches Some(nm) && (nm@ == "Edit"@ || nm@ == "Write"@ || nm@ == "NotebookEdit"@),
{
    reveal_strlit("unknown");
    reveal_strlit("Edit");
    reveal_strlit("Write");
    reveal_strlit("NotebookEdit");
    if name is None {
        assert("unknown"@.len() == 7);
        assert("Edit"@.len() == 4);
        assert("Write"@.len() == 5);
        assert("NotebookEdit"@.len() == 12);
    }
}

/// One block of line `li` keeps every file touch sourced.
proof fn lemma_block_sourced(
    lines: Seq<Line>,
    st: PState,
    li: int,
    user: bool,
    ts: u64,
    bi: int,
    session: Seq<char>,
)
    requires
        lines.len() < 0x0800_0000,
        0 <= li < lines.len(),
        !lines[li].compact_summary,
        lines[li].ty matches Some(t) && (t@ == "user"@ || t@ == "assistant"@),
        lines[li].message matches Some(Content::Blocks(bs)) && 0 <= bi < bs@.len() && bi < 14,
        all_sourced(lines, st.events),
    ensures
        all_sourced(
            lines,
            block_step(st, 16 * li, user, ts, lines[li].message->0->Blocks_0@[bi], bi, lines[li], session).events,
        ),
{
    let line = lines[li];
    let b = line.message->0->Blocks_0@[bi];
    let seq0 = 16 * li;
    let seq = (seq0 + 2 + bi) as u32;
    let r = block_step(st, seq0, user, ts, b, bi, line, session);
    match b.ty {
        None => {},
        Some(t) => {
            if t@ == "text"@ {
                let r2 = text_step(st, seq, user, ts, b, session);
                assert(r == r2);
                match b.text {
                    None => {},
                    Some(x) => {
                        if user {
                            lemma_push_sourced(lines, st.events, (seq, env(session, ts, EventV::UserMsg { text: capped(x@, USER_MSG_CAP as int) })));
                        } else if utf8_bytes(x@) >= SAID_MIN {
                            lemma_push_sourced(lines, st.events, (seq, env(session, ts, EventV::Said { text: capped(x@, SAID_CAP as int) })));
                        }
                    },
                }
            } else if t@ == "tool_use"@ {
                let tool = str_or(b.name, "unknown"@);
                let call = EventV::ToolCall { tool, detail: capped(tool_detail(tool, b.input), DETAIL_CAP as int), ok: true };
                let e1 = st.events.push((seq, env(session, ts, call)));
                lemma_push_sourced(lines, st.events, (seq, env(session, ts, call)));
                let e2 = match file_touch(tool, b.input) {
                    Some(path) => e1.push(((seq0 + 15) as u32, env(session, ts, EventV::FileTouch { path }))),
                    None => e1,
                };
                assert(all_sourced(lines, e2)) by {
                    match file_touch(tool, b.input) {
                        Some(path) => {
                            reveal(file_touch);
                            lemma_editor_named(b.name);
                            assert(edits_file(lines, li, bi, path));
                            let x = ((seq0 + 15) as u32, env(session, ts, EventV::FileTouch { path }));
                            assert(x.1.kind == EventV::FileTouch { path });
                            assert(x.0 == 16 * li + 15);
                            assert(edits_file(lines, li, bi, x.1.kind->FileTouch_path));
                            assert(exists|l2: int, b2: int|
                                #[trigger] edits_file(lines, l2, b2, x.1.kind->FileTouch_path) && x.0 == 16 * l2 + 15);
                            assert(touch_sourced(lines, x));
                            lemma_push_sourced(lines, e1, ((seq0 + 15) as u32, env(session, ts, EventV::FileTouch { path })));
                        },
                        None => {},
                    }
                }
                match commit_of(tool, b.input, line) {
                    Some((hash, message)) => {
                        lemma_push_sourced(lines, e2, ((seq0 + 14) as u32, env(session, ts, EventV::Commit { hash, message })));
                    },
                    None => {},
                }
            } else if t@ == "tool_result"@ {
                let r2 = tool_result_step(st, b, line);
                assert(r == r2);
                match b.tool_use_id {
                    Some(id) => if b.is_error || line.result_error {
                        match site_of(st.sites, id@) {
                            Some(i) => if 0 <= i < st.events.len() {
                                let ev = st.events.update(i, (st.events[i].0, failed(st.events[i].1)));
                                assert forall|j: int| 0 <= j < ev.len() implies touch_sourced(lines, #[trigger] ev[j]) by {
                                    assert(touch_sourced(lines, st.events[j]));
                                }
                            },
                            None => {},
                        }
                    },
                    None => {},
                }
            }
        },
    }
}

proof fn lemma_blocks_sourced(
    lines: Seq<Line>,
    st: PState,
    li: int,
    user: bool,
    ts: u64,
    n: int,
    session: Seq<char>,
)
    requires
        lines.len() < 0x0800_0000,
        0 <= li < lines.len(),
        !lines[li].compact_summary,
        lines[li].ty matches Some(t) && (t@ == "user"@ || t@ == "assistant"@),
        lines[li].message matches Some(Content::Blocks(bs)) && 0 <= n <= bs@.len() && n <= 14,
        all_sourced(lines, st.events),
    ensures
        all_sourced(
            lines,
            blocks_fold(st, 16 * li, user, ts, lines[li].message->0->Blocks_0@, n, lines[li], session).events,
        ),
    decreases n,
{
    if n > 0 {
        let bs = lines[li].message->0->Blocks_0@;
        lemma_blocks_sourced(lines, st, li, user, ts, n - 1, session);
        let pre = blocks_fold(st, 16 * li, user, ts, bs, n - 1, lines[li], session);
        lemma_block_sourced(lines, pre, li, user, ts, n - 1, session);
    }
}

proof fn lemma_line_sourced(lines: Seq<Line>, st: PState, li: int, session: Seq<char>, ese: Seq<char>)
    requires
        lines.len() < 0x0800_0000,
        0 <= li < lines.len(),
        all_sourced(lines, st.events),
    ensures
        all_sourced(lines, line_step(st, li, lines[li], session, ese).events),
{
    let line = lines[li];
    let seq0 = li * 16;
    let ts = match line.timestamp {
        Some(t) => match iso_ms(vstd::utf8::encode_utf8(t@)) {
            Some(x) => x as u64,
            None => st.last_ts,
        },
        None => st.last_ts,
    };
    let st1 = PState { last_ts: ts, ..st };
    let st2 = if !st1.meta_done && line.cwd is Some {
        let meta = EventV::SessionMeta { cwd: line.cwd->0@, branch: opt_view(line.git_branch), ese_version: ese };
        lemma_push_sourced(lines, st1.events, (seq0 as u32, env(session, ts, meta)));
        PState { meta_done: true, events: st1.events.push((seq0 as u32, env(session, ts, meta))), ..st1 }
    } else {
        st1
    };
    assert(all_sourced(lines, st2.events));
    if line.compact_summary {
        let e1 = st2.events.push(((seq0 + 1) as u32, env(session, ts, EventV::Compaction)));
        lemma_push_sourced(lines, st2.events, ((seq0 + 1) as u32, env(session, ts, EventV::Compaction)));
        match line.message {
            Some(Content::Text(text)) => {
                lemma_push_sourced(
                    lines,
                    e1,
                    ((seq0 + 2) as u32, env(session, ts, EventV::CompactSummary { text: capped(text@, FINAL_MSG_CAP as int) })),
                );
            },
            _ => {},
        }
    } else {
        let ty = str_or(line.ty, Seq::empty());
        if ty == "user"@ || ty == "assistant"@ {
            match line.message {
                Some(Content::Text(text)) => if ty == "user"@ {
                    lemma_push_sourced(
                        lines,
                        st2.events,
                        ((seq0 + 2) as u32, env(session, ts, EventV::UserMsg { text: capped(text@, USER_MSG_CAP as int) })),
                    );
                },
                Some(Content::Blocks(bs)) => {
                    reveal_strlit("user");
                    reveal_strlit("assistant");
                    assert(line.ty is Some) by {
                        if line.ty is None {
                            assert(ty.len() == 0);
                        }
                    }
                    lemma_blocks_sourced(
                        lines,
                        st2,
                        li,
                        ty == "user"@,
                        ts,
                        if bs@.len() < 14 { bs@.len() as int } else { 14 },
                        session,
                    );
                    assert(li * 16 == 16 * li);
                },
                _ => {},
            }
        }
    }
}

proof fn lemma_lines_sourced(lines: Seq<Line>, n: int, session: Seq<char>, ese: Seq<char>)
    requires
        lines.len() < 0x0800_0000,
        0 <= n <= lines.len(),
    ensures
        all_sourced(lines, lines_fold(lines, n, session, ese).events),
    decreases n,
{
    if n > 0 {
        lemma_lines_sourced(lines, n - 1, session, ese);
        lemma_line_sourced(lines, lines_fold(lines, n - 1, session, ese), n - 1, session, ese);
    }
}

/// Every file touch that capture records comes from an Edit, Write or
/// NotebookEdit call on that file, at the call's line (`line * 16 + 15`):
/// no other tool, and no other kind of content, makes one.
pub proof fn law_file_touches_come_from_edits(lines: Seq<Line>, session: Seq<char>, ese: Seq<char>)
    requires
        lines.len() < 0x0800_0000,
    ensures
        forall|k: int|
            0 <= k < finish(lines_fold(lines, lines.len() as int, session, ese), session).len()
                && (#[trigger] finish(lines_fold(lines, lines.len() as int, session, ese), session)[k]).1.kind is FileTouch
                ==> exists|li: int, bi: int|
                #[trigger] edits_file(
                    lines,
                    li,
                    bi,
                    finish(lines_fold(lines, lines.len() as int, session, ese), session)[k].1.kind->FileTouch_path,
                ) && finish(lines_fold(lines, lines.len() as int, session, ese), session)[k].0 == 16 * li + 15,
{
    let full = lines_fold(lines, lines.len() as int, session, ese);
    let f = finish(full, session);
    lemma_lines_sourced(lines, lines.len() as int, session, ese);
    assert forall|k: int| 0 <= k < f.len() implies touch_sourced(lines, #[trigger] f[k]) by {
        let x = f[k];
        if x.1.kind is FileTouch {
            assert(f.contains(x));
            lemma_finish_members(full, session, x);
            let j = choose|j: int| 0 <= j < full.events.len() && full.events[j] == x;
            assert(touch_sourced(lines, full.events[j]));
        }
    }
}

} // verus!
