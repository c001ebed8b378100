//! Civil (proleptic Gregorian) dates and their day-bucket index.
//!
//! A bucket is a count of days since 1970-01-01 (UTC). The conversions are
//! Howard Hinnant's era/day-of-era algorithms; their contracts are stated
//! against the textbook calendar: full years of 365 or 366 days, then full
//! months, then the day of the month.
use vstd::prelude::*;

verus! {

// ---------------------------------------------------------------- the calendar

/// Gregorian leap year.
pub open spec fn is_leap(y: int) -> bool {
    y % 4 == 0 && (y % 100 != 0 || y % 400 == 0)
}

/// Days in month `m` (1..=12) of year `y`.
pub open spec fn month_len(y: int, m: int) -> int {
    if m == 2 {
        if is_leap(y) { 29 } else { 28 }
    } else if m == 4 || m == 6 || m == 9 || m == 11 {
        30
    } else {
        31
    }
}

/// Days of year `y` before the first of month `m` (1..=12).
pub open spec fn days_before_month(y: int, m: int) -> int {
    let base: int = if m == 1 { 0 } else if m == 2 { 31 } else if m == 3 { 59 } else if m == 4 { 90 }
        else if m == 5 { 120 } else if m == 6 { 151 } else if m == 7 { 181 } else if m == 8 { 212 }
        else if m == 9 { 243 } else if m == 10 { 273 } else if m == 11 { 304 } else { 334 };
    base + if m > 2 && is_leap(y) { 1int } else { 0int }
}

/// Number of leap years among 1..=n (extended by floor division to all n).
pub open spec fn leaps_through(n: int) -> int {
    n / 4 - n / 100 + n / 400
}

/// Days from 1970-01-01 to the first of January of year `y`.
pub open spec fn days_before_year(y: int) -> int {
    365 * (y - 1970) + leaps_through(y - 1) - leaps_through(1969)
}

/// Days from 1970-01-01 to `y-m-d` (negative before the epoch). Linear in
/// `d`, so an out-of-range day counts on into the following months.
pub open spec fn days_from_civil(y: int, m: int, d: int) -> int {
    days_before_year(y) + days_before_month(y, m) + d - 1
}

/// A real calendar date.
pub open spec fn valid_date(y: int, m: int, d: int) -> bool {
    1 <= m <= 12 && 1 <= d <= month_len(y, m)
}

/// Years whose day counts the conversions can hold in an `i64`.
pub open spec fn year_in_range(y: int) -> bool {
    -0x20_0000_0000_0000 <= y <= 0x20_0000_0000_0000
}

/// Buckets that `from_bucket` can convert without leaving `i64` range.
pub open spec fn bucket_in_range(b: int) -> bool {
    0 <= b <= 0x2000_0000_0000_0000
}

/// The buckets every other calendar operation accepts: a margin of a few
/// years below what `from_bucket` takes.
pub open spec fn day_ok(b: int) -> bool {
    0 <= b <= 0x1000_0000_0000_0000
}

/// A civil date, convertible to/from the day-bucket index.
#[derive(Clone, Copy, PartialEq, Eq, PartialOrd, Ord, Debug, Structural)]
pub struct Civil {
    pub y: i64,
    pub m: u32,
    pub d: u32,
}

impl Civil {
    /// Days since the epoch of this (possibly out-of-range-day) date.
    pub open spec fn days(self) -> int {
        days_from_civil(self.y as int, self.m as int, self.d as int)
    }

    pub open spec fn valid(self) -> bool {
        valid_date(self.y as int, self.m as int, self.d as int)
    }

    /// A valid date on or after the epoch within the calendar's working range.
    pub open spec fn wf(self) -> bool {
        self.valid() && day_ok(self.days())
    }
}

/// The civil date of bucket `b`: the unique valid date `b` days after
/// 1970-01-01 (see [`lemma_civil_of`]).
pub open spec fn civil_of(b: int) -> Civil {
    choose|c: Civil| c.valid() && c.days() == b && year_in_range(c.y as int)
}

// ---------------------------------------------------------------- lemmas

/// Floor division steps up by one exactly at multiples of `d`.
proof fn lemma_div_step(y: int, d: int)
    requires
        d > 0,
    ensures
        y / d - (y - 1) / d == if y % d == 0 { 1int } else { 0int },
{
    vstd::arithmetic::div_mod::lemma_fundamental_div_mod(y, d);
    vstd::arithmetic::div_mod::lemma_mod_bound(y, d);
    let q = y / d;
    let r = y % d;
    assert(q * d == d * q) by (nonlinear_arith);
    assert((q - 1) * d == q * d - d) by (nonlinear_arith);
    if r == 0 {
        vstd::arithmetic::div_mod::lemma_fundamental_div_mod_converse(y - 1, d, q - 1, d - 1);
    } else {
        vstd::arithmetic::div_mod::lemma_fundamental_div_mod_converse(y - 1, d, q, r - 1);
    }
}

pub proof fn lemma_leaps_step(y: int)
    ensures
        leaps_through(y) == leaps_through(y - 1) + if is_leap(y) { 1int } else { 0int },
{
    lemma_div_step(y, 4);
    lemma_div_step(y, 100);
    lemma_div_step(y, 400);
    vstd::arithmetic::div_mod::lemma_fundamental_div_mod(y, 400);
    vstd::arithmetic::div_mod::lemma_fundamental_div_mod(y, 100);
    if y % 400 == 0 {
        vstd::arithmetic::div_mod::lemma_fundamental_div_mod_converse(y, 100, (y / 400) * 4, 0);
        vstd::arithmetic::div_mod::lemma_fundamental_div_mod_converse(y, 4, (y / 400) * 100, 0);
    } else if y % 100 == 0 {
        vstd::arithmetic::div_mod::lemma_fundamental_div_mod_converse(y, 4, (y / 100) * 25, 0);
    }
}

/// Hinnant's day-of-era formula counts the same days as the calendar.
proof fn lemma_hinnant_days(y: int, m: int, d: int, era: int, yoe: int)
    requires
        1 <= m <= 12,
        0 <= yoe < 400,
        era * 400 + yoe == if m <= 2 { y - 1 } else { y },
    ensures
        era * 146097 + (yoe * 365 + yoe / 4 - yoe / 100
            + (153 * (if m > 2 { m - 3 } else { m + 9 }) + 2) / 5 + d - 1) - 719468
            == days_from_civil(y, m, d),
{
    let yy = era * 400 + yoe;
    assert(yy / 4 == era * 100 + yoe / 4);
    assert(yy / 100 == era * 4 + yoe / 100);
    assert(yy / 400 == era);
    lemma_leaps_step(y);
    if m <= 2 {
        assert(yy == y - 1);
    } else {
        assert(yy == y);
        lemma_leaps_step(y);
    }
}

/// Year-of-era and day-of-year bounds for Hinnant's inverse, over one
/// 400-year era (146097 days), decided by bit-blasting.
proof fn lemma_era_split(doe: u32)
    requires
        doe < 146097,
    ensures
        ({
            let yoe = (doe - doe / 1460 + doe / 36524 - doe / 146096) / 365;
            let doy = doe - (365 * yoe + yoe / 4 - yoe / 100);
            &&& yoe < 400
            &&& 365 * yoe + yoe / 4 - yoe / 100 <= doe
            &&& doy < 366
            &&& doy == 365 ==> ((yoe + 1) % 4 == 0 && ((yoe + 1) % 100 != 0 || yoe == 399))
        }),
{
    assert(doe < 146097 ==> {
        let yoe = (doe - doe / 1460 + doe / 36524 - doe / 146096) / 365;
        let doy = doe - (365 * yoe + yoe / 4 - yoe / 100);
        &&& yoe < 400
        &&& 365 * yoe + yoe / 4 - yoe / 100 <= doe
        &&& doy < 366
        &&& doy == 365 ==> ((yoe + 1) % 4 == 0 && ((yoe + 1) % 100 != 0 || yoe == 399))
    }) by (bit_vector);
}

/// Month-of-year and day-of-month bounds for a March-based day of year.
proof fn lemma_month_split(doy: u32)
    requires
        doy < 366,
    ensures
        ({
            let mp = (5 * doy + 2) / 153;
            let d = doy - (153 * mp + 2) / 5 + 1;
            &&& mp < 12
            &&& (153 * mp + 2) / 5 <= doy
            &&& 1 <= d
            &&& (mp == 1 || mp == 3 || mp == 6 || mp == 8) ==> d <= 30
            &&& mp == 11 ==> (d <= 28 || (d == 29 && doy == 365))
            &&& d <= 31
        }),
{
    assert(doy < 366 ==> {
        let mp = (5 * doy + 2) / 153;
        let d = doy - (153 * mp + 2) / 5 + 1;
        &&& mp < 12
        &&& (153 * mp + 2) / 5 <= doy
        &&& 1 <= d
        &&& (mp == 1 || mp == 3 || mp == 6 || mp == 8) ==> d <= 30
        &&& mp == 11 ==> (d <= 28 || (d == 29 && doy == 365))
        &&& d <= 31
    }) by (bit_vector);
}

/// Hinnant's inverse, stated over mathematical integers.
pub open spec fn hinnant_civil(days: int) -> (int, int, int) {
    let z = days + 719468;
    let era = z / 146097;
    let doe = z - era * 146097;
    let yoe = (doe - doe / 1460 + doe / 36524 - doe / 146096) / 365;
    let doy = doe - (365 * yoe + yoe / 4 - yoe / 100);
    let mp = (5 * doy + 2) / 153;
    let d = doy - (153 * mp + 2) / 5 + 1;
    let m = if mp < 10 { mp + 3 } else { mp - 9 };
    (yoe + era * 400 + if m <= 2 { 1int } else { 0int }, m, d)
}

proof fn lemma_hinnant_civil(days: int)
    requires
        bucket_in_range(days),
    ensures
        ({
            let (y, m, d) = hinnant_civil(days);
            &&& valid_date(y, m, d)
            &&& days_from_civil(y, m, d) == days
            &&& 1970 <= y
            &&& year_in_range(y)
        }),
{
    let z = days + 719468;
    let era = z / 146097;
    let doe = z - era * 146097;
    vstd::arithmetic::div_mod::lemma_fundamental_div_mod(z, 146097);
    vstd::arithmetic::div_mod::lemma_mod_bound(z, 146097);
    assert(0 <= era) by {
        vstd::arithmetic::div_mod::lemma_div_pos_is_pos(z, 146097);
    }
    assert(era * 146097 <= z);
    lemma_era_split(doe as u32);
    let yoe = (doe - doe / 1460 + doe / 36524 - doe / 146096) / 365;
    let doy = doe - (365 * yoe + yoe / 4 - yoe / 100);
    lemma_month_split(doy as u32);
    let mp = (5 * doy + 2) / 153;
    let d = doy - (153 * mp + 2) / 5 + 1;
    let m = if mp < 10 { mp + 3 } else { mp - 9 };
    let y = yoe + era * 400 + if m <= 2 { 1int } else { 0int };
    assert(era <= 0x2000_0000_0000_0000int / 146097 + 5);
    // Hinnant's forward formula recomputes the same day of era
    assert(mp == if m > 2 { m - 3 } else { m + 9 });
    lemma_hinnant_days(y, m, d, era, yoe);
    // February 29 only in leap years
    if m == 2 && d == 29 {
        assert(doy == 365);
        let k = yoe + 1;
        assert(y == era * 400 + k);
        vstd::arithmetic::div_mod::lemma_mod_multiples_vanish(era * 100, k, 4);
        vstd::arithmetic::div_mod::lemma_mod_multiples_vanish(era * 4, k, 100);
        vstd::arithmetic::div_mod::lemma_mod_multiples_vanish(era, k, 400);
        assert(era * 100 * 4 == era * 400);
        assert(era * 4 * 100 == era * 400);
        assert(k % 400 == 0 <==> yoe == 399);
    }
}

/// A valid date's day count falls inside its own year.
pub proof fn lemma_date_in_year(y: int, m: int, d: int)
    requires
        valid_date(y, m, d),
    ensures
        days_before_year(y) <= days_from_civil(y, m, d) < days_before_year(y + 1),
{
    lemma_leaps_step(y);
}

/// Later years start later.
pub proof fn lemma_year_order(y1: int, y2: int)
    requires
        y1 < y2,
    ensures
        days_before_year(y1 + 1) <= days_before_year(y2),
    decreases y2 - y1,
{
    if y1 + 1 < y2 {
        lemma_year_order(y1 + 1, y2);
        lemma_leaps_step(y1 + 1);
    }
}

/// Distinct valid dates have distinct day counts.
pub proof fn lemma_days_injective(y1: int, m1: int, d1: int, y2: int, m2: int, d2: int)
    requires
        valid_date(y1, m1, d1),
        valid_date(y2, m2, d2),
        days_from_civil(y1, m1, d1) == days_from_civil(y2, m2, d2),
    ensures
        y1 == y2 && m1 == m2 && d1 == d2,
{
    lemma_date_in_year(y1, m1, d1);
    lemma_date_in_year(y2, m2, d2);
    if y1 < y2 {
        lemma_year_order(y1, y2);
    } else if y2 < y1 {
        lemma_year_order(y2, y1);
    }
    assert(y1 == y2);
}

/// `civil_of(b)` is the valid date `b` days after the epoch.
pub proof fn lemma_civil_of(b: int)
    requires
        bucket_in_range(b),
    ensures
        civil_of(b).valid(),
        civil_of(b).days() == b,
        year_in_range(civil_of(b).y as int),
        1970 <= civil_of(b).y,
        civil_of(b).y == hinnant_civil(b).0,
        civil_of(b).m == hinnant_civil(b).1,
        civil_of(b).d == hinnant_civil(b).2,
{
    lemma_hinnant_civil(b);
    let (y, m, d) = hinnant_civil(b);
    let w = Civil { y: y as i64, m: m as u32, d: d as u32 };
    assert(w.valid() && w.days() == b && year_in_range(w.y as int));
    let c = civil_of(b);
    lemma_days_injective(c.y as int, c.m as int, c.d as int, y, m, d);
}

/// Every bucket `from_bucket` accepts lies in a year well inside the
/// calendar's working range, with room for a neighbouring year.
pub proof fn lemma_year_bound(b: int)
    requires
        bucket_in_range(b),
    ensures
        1970 <= civil_of(b).y < 0x1F_FFFF_FFFF_FFF0,
{
    lemma_civil_of(b);
    let c = civil_of(b);
    lemma_date_in_year(c.y as int, c.m as int, c.d as int);
    let top: int = 0x1F_FFFF_FFFF_FFF0;
    if c.y >= top {
        assert(days_before_year(top) > 0x2000_0000_0000_0000);
        assert(days_before_year(top + 1) > 0x2000_0000_0000_0000);
        if c.y > top {
            lemma_year_order(top, c.y as int);
        }
    }
}

/// The Thursday of the Monday-based week containing bucket `b`.
pub open spec fn iso_thursday(b: int) -> int {
    b + 3 - (b + 3) % 7
}

impl Civil {
    /// The date `days` days after 1970-01-01.
    pub fn from_bucket(days: u64) -> (c: Civil)
        requires
            bucket_in_range(days as int),
        ensures
            c == civil_of(days as int),
            c.valid(),
            c.days() == days,
            1970 <= c.y,
            year_in_range(c.y as int),
    {
        proof {
            lemma_civil_of(days as int);
            lemma_hinnant_civil(days as int);
        }
        let days = days as i64;
        let era = (days + 719_468) / 146_097;
        let doe = days + 719_468 - era * 146_097;
        proof {
            vstd::arithmetic::div_mod::lemma_fundamental_div_mod(days + 719_468, 146_097);
            vstd::arithmetic::div_mod::lemma_mod_bound(days + 719_468, 146_097);
            lemma_era_split(doe as u32);
        }
        let yoe = (doe - doe / 1460 + doe / 36524 - doe / 146_096) / 365;
        let doy = doe - (365 * yoe + yoe / 4 - yoe / 100);
        proof {
            lemma_month_split(doy as u32);
        }
        let mp = (5 * doy + 2) / 153;
        let d = (doy - (153 * mp + 2) / 5 + 1) as u32;
        let m = if mp < 10 { mp + 3 } else { mp - 9 } as u32;
        let leap_shift: i64 = if m <= 2 { 1 } else { 0 };
        Civil { y: yoe + era * 400 + leap_shift, m, d }
    }

    /// Days since 1970-01-01; a date before the epoch wraps below zero.
    pub fn bucket(self) -> (b: u64)
        requires
            1 <= self.m <= 12,
            year_in_range(self.y as int),
        ensures
            0 <= self.days() ==> b == self.days(),
            self.days() < 0 ==> b == self.days() + 0x1_0000_0000_0000_0000,
    {
        let shift: i64 = if self.m <= 2 { 1 } else { 0 };
        let y = self.y - shift;
        let era = y.checked_div_euclid(400).unwrap();
        let yoe = y - era * 400;
        proof {
            vstd::arithmetic::div_mod::lemma_fundamental_div_mod(y as int, 400);
            vstd::arithmetic::div_mod::lemma_mod_bound(y as int, 400);
            lemma_hinnant_days(self.y as int, self.m as int, self.d as int, era as int, yoe as int);
        }
        let mp = if self.m > 2 { self.m - 3 } else { self.m + 9 } as i64;
        let doy = (153 * mp + 2) / 5 + self.d as i64 - 1;
        let doe = yoe * 365 + yoe / 4 - yoe / 100 + doy;
        let n: i64 = era * 146_097 + doe - 719_468;
        proof {
            assert(n < 0 ==> #[verifier::truncate] (n as u64) == n + 0x1_0000_0000_0000_0000) by (bit_vector);
        }
        #[verifier::truncate]
        (n as u64)
    }

    /// 0 = Monday .. 6 = Sunday.
    pub fn weekday(self) -> (w: u32)
        requires
            self.wf(),
            year_in_range(self.y as int),
        ensures
            w == (self.days() + 3) % 7,
            w < 7,
    {
        ((self.bucket() + 3) % 7) as u32
    }

    /// ISO week number and its year: the week belongs to the year of its
    /// Thursday, and week 1 holds that year's first Thursday.
    pub fn iso_week(self) -> (r: (i64, u32))
        requires
            self.wf(),
            year_in_range(self.y as int),
        ensures
            r.0 == civil_of(iso_thursday(self.days())).y,
            r.1 == (iso_thursday(self.days()) - days_before_year(r.0 as int)) / 7 + 1,
            1 <= r.1 <= 53,
    {
        let thursday = self.bucket() + 3 - self.weekday() as u64;
        let c = Civil::from_bucket(thursday);
        proof {
            lemma_date_in_year(c.y as int, c.m as int, c.d as int);
            lemma_year_order(1969, c.y as int);
        }
        let jan1 = Civil { y: c.y, m: 1, d: 1 }.bucket();
        (c.y, ((thursday - jan1) / 7 + 1) as u32)
    }

    pub(crate) fn month_start(self) -> (r: Civil)
        ensures
            r == (Civil { d: 1, ..self }),
    {
        Civil { d: 1, ..self }
    }

    pub(crate) fn quarter_start(self) -> (r: Civil)
        requires
            1 <= self.m <= 12,
        ensures
            r == (Civil { m: ((self.m - 1) / 3 * 3 + 1) as u32, d: 1, ..self }),
    {
        Civil { m: (self.m - 1) / 3 * 3 + 1, d: 1, ..self }
    }
}

/// Converting a bucket to its date and back gives the bucket.
pub proof fn law_bucket_round_trip(b: int)
    requires
        bucket_in_range(b),
    ensures
        civil_of(b).days() == b,
        civil_of(b).valid(),
{
    lemma_civil_of(b);
}

/// Converting a valid date to its bucket and back gives the date.
pub proof fn law_civil_round_trip(c: Civil)
    requires
        c.valid(),
        year_in_range(c.y as int),
        bucket_in_range(c.days()),
    ensures
        civil_of(c.days()) == c,
{
    let b = c.days();
    lemma_civil_of(b);
    let e = civil_of(b);
    lemma_days_injective(c.y as int, c.m as int, c.d as int, e.y as int, e.m as int, e.d as int);
}

/// Later dates have later buckets: `bucket` is strictly monotone in the
/// calendar order of valid dates.
pub proof fn law_bucket_monotone(a: Civil, b: Civil)
    requires
        a.valid(),
        b.valid(),
        a.y < b.y || (a.y == b.y && (a.m < b.m || (a.m == b.m && a.d < b.d))),
    ensures
        a.days() < b.days(),
{
    lemma_date_in_year(a.y as int, a.m as int, a.d as int);
    lemma_date_in_year(b.y as int, b.m as int, b.d as int);
    if a.y < b.y {
        lemma_year_order(a.y as int, b.y as int);
    }
}

} // verus!
