//! The proleptic Gregorian calendar in UTC, as far as monthly buckets need it:
//! which month an instant falls in, and when a month begins.

use chrono::{Datelike, TimeZone};
use vstd::prelude::*;

verus! {

pub const MILLIS_PER_SECOND: i64 = 1000;

pub const MILLIS_PER_DAY: i64 = 86_400_000;

/// First calendar year that has instants.
pub const MIN_YEAR: i32 = -262_143;

/// Last calendar year that has instants.
pub const MAX_YEAR: i32 = 262_142;

/// The first instant: midnight before the first day of `MIN_YEAR`.
pub const MIN_INSTANT: i64 = -8_334_601_228_800_000;

/// The last instant: the last millisecond of `MAX_YEAR`.
pub const MAX_INSTANT: i64 = 8_210_266_876_799_999;

/// Whether `t` is an instant that this library works on.
pub open spec fn valid_instant(t: int) -> bool {
    MIN_INSTANT <= t <= MAX_INSTANT
}

/// Whether `year` has a 29th of February.
pub open spec fn is_leap_year(year: int) -> bool {
    year % 4 == 0 && (year % 100 != 0 || year % 400 == 0)
}

/// Length of month `month` (1 to 12) of `year`, in days.
pub open spec fn days_in_month(year: int, month: int) -> int {
    if month == 2 {
        if is_leap_year(year) {
            29
        } else {
            28
        }
    } else if month == 4 || month == 6 || month == 9 || month == 11 {
        30
    } else {
        31
    }
}

/// Days from 1970-01-01 to the first day of `year`.
#[verifier::opaque]
pub open spec fn days_before_year(year: int) -> int {
    365 * (year - 1970) + (year - 1) / 4 - (year - 1) / 100 + (year - 1) / 400 - 477
}

/// Days from the first day of `year` to the first day of its month `month`.
pub open spec fn days_before_month(year: int, month: int) -> int {
    let leap: int = if is_leap_year(year) {
        1
    } else {
        0
    };
    if month <= 1 {
        0
    } else if month == 2 {
        31
    } else if month == 3 {
        59 + leap
    } else if month == 4 {
        90 + leap
    } else if month == 5 {
        120 + leap
    } else if month == 6 {
        151 + leap
    } else if month == 7 {
        181 + leap
    } else if month == 8 {
        212 + leap
    } else if month == 9 {
        243 + leap
    } else if month == 10 {
        273 + leap
    } else if month == 11 {
        304 + leap
    } else {
        334 + leap
    }
}

/// The instant at which month `month` (1 to 12) of `year` begins.
pub open spec fn month_start_millis(year: int, month: int) -> int {
    (days_before_year(year) + days_before_month(year, month)) * MILLIS_PER_DAY
}

/// The year after month `month` of `year` ends.
pub open spec fn next_month_year(year: int, month: int) -> int {
    if month == 12 {
        year + 1
    } else {
        year
    }
}

/// The month that follows `month`.
pub open spec fn next_month(month: int) -> int {
    if month == 12 {
        1
    } else {
        month + 1
    }
}

/// Whether `t` lies in month `month` of `year`.
pub open spec fn in_month(t: int, year: int, month: int) -> bool {
    &&& 1 <= month <= 12
    &&& month_start_millis(year, month) <= t
    &&& t < month_start_millis(year, month) + days_in_month(year, month) * MILLIS_PER_DAY
}

/// Whether `t` lies in the calendar year `year`.
pub open spec fn in_year(t: int, year: int) -> bool {
    month_start_millis(year, 1) <= t < month_start_millis(year + 1, 1)
}

/// The calendar year that `t` lies in.
pub open spec fn year_of_instant(t: int) -> int {
    choose|year: int| in_year(t, year)
}

/// The month (1 to 12) that `t` lies in.
pub open spec fn month_of_instant(t: int) -> int {
    choose|month: int| in_month(t, year_of_instant(t), month)
}

/// The instant at which the month that holds `t` begins.
pub open spec fn month_floor(t: int) -> int {
    month_start_millis(year_of_instant(t), month_of_instant(t))
}

/// Months counted from month 1 of year 0.
pub open spec fn month_index(year: int, month: int) -> int {
    12 * year + (month - 1)
}

/// A year has 365 days, and one more where it is a leap year.
pub proof fn lemma_year_length(year: int)
    ensures
        days_before_year(year + 1) == days_before_year(year) + days_before_month(year, 12) + 31,
        days_before_year(year + 1) == days_before_year(year) + 365 + if is_leap_year(year) {
            1int
        } else {
            0int
        },
{
    reveal(days_before_year);
    let by4: int = if year % 4 == 0 {
        1
    } else {
        0
    };
    let by100: int = if year % 100 == 0 {
        1
    } else {
        0
    };
    let by400: int = if year % 400 == 0 {
        1
    } else {
        0
    };
    assert(year / 4 - (year - 1) / 4 == by4);
    assert(year / 100 - (year - 1) / 100 == by100);
    assert(year / 400 - (year - 1) / 400 == by400);
    assert(year % 400 == 0 ==> year % 100 == 0);
    assert(year % 100 == 0 ==> year % 4 == 0);
}

/// Later years begin later.
pub proof fn lemma_years_increase(y1: int, y2: int)
    requires
        y1 <= y2,
    ensures
        days_before_year(y1) + 365 * (y2 - y1) <= days_before_year(y2),
    decreases y2 - y1,
{
    if y1 < y2 {
        lemma_years_increase(y1, y2 - 1);
        lemma_year_length(y2 - 1);
    }
}

/// The first and the last instant are the first of the first year and the
/// last of the last, and 1970 begins at instant zero.
pub proof fn lemma_instant_range()
    ensures
        days_before_year(1970) == 0,
        month_start_millis(MIN_YEAR as int, 1) == MIN_INSTANT,
        month_start_millis(MAX_YEAR + 1, 1) == MAX_INSTANT + 1,
{
    reveal(days_before_year);
}

/// An instant lies in one year only.
pub proof fn lemma_year_unique(t: int, y1: int, y2: int)
    requires
        in_year(t, y1),
        in_year(t, y2),
    ensures
        y1 == y2,
{
    if y1 < y2 {
        lemma_years_increase(y1 + 1, y2);
    } else if y2 < y1 {
        lemma_years_increase(y2 + 1, y1);
    }
}

/// Every day lies in some year.
proof fn lemma_year_of_day(day: int) -> (year: int)
    ensures
        days_before_year(year) <= day < days_before_year(year + 1),
    decreases (if day >= 0 {
        day
    } else {
        -day
    }),
{
    if day == 0 {
        lemma_instant_range();
        lemma_year_length(1970);
        1970
    } else if day > 0 {
        let prev = lemma_year_of_day(day - 1);
        if day < days_before_year(prev + 1) {
            prev
        } else {
            lemma_year_length(prev + 1);
            prev + 1
        }
    } else {
        let next = lemma_year_of_day(day + 1);
        if days_before_year(next) <= day {
            next
        } else {
            lemma_year_length(next - 1);
            next - 1
        }
    }
}

/// A month ends where the next one begins.
pub proof fn lemma_next_month_start(year: int, month: int)
    requires
        1 <= month <= 12,
    ensures
        month_start_millis(next_month_year(year, month), next_month(month)) == month_start_millis(
            year,
            month,
        ) + days_in_month(year, month) * MILLIS_PER_DAY,
{
    lemma_year_length(year);
}

/// Later months begin later.
pub proof fn lemma_month_start_increases(y1: int, m1: int, y2: int, m2: int)
    requires
        1 <= m1 <= 12,
        1 <= m2 <= 12,
        month_index(y1, m1) < month_index(y2, m2),
    ensures
        month_start_millis(y1, m1) + days_in_month(y1, m1) * MILLIS_PER_DAY <= month_start_millis(
            y2,
            m2,
        ),
{
    lemma_next_month_start(y1, m1);
    if y1 < y2 {
        lemma_years_increase(y1 + 1, y2);
        lemma_year_length(y1);
    }
}

/// An instant lies in one month only.
pub proof fn lemma_month_unique(t: int, y1: int, m1: int, y2: int, m2: int)
    requires
        in_month(t, y1, m1),
        in_month(t, y2, m2),
    ensures
        y1 == y2,
        m1 == m2,
{
    if month_index(y1, m1) < month_index(y2, m2) {
        lemma_month_start_increases(y1, m1, y2, m2);
    } else if month_index(y2, m2) < month_index(y1, m1) {
        lemma_month_start_increases(y2, m2, y1, m1);
    }
}

/// Every offset into a year lies in one of its months.
proof fn lemma_month_of_offset(offset: int, year: int) -> (month: int)
    requires
        0 <= offset < (days_before_month(year, 12) + 31) * MILLIS_PER_DAY,
    ensures
        1 <= month <= 12,
        days_before_month(year, month) * MILLIS_PER_DAY <= offset,
        offset < (days_before_month(year, month) + days_in_month(year, month)) * MILLIS_PER_DAY,
{
    if offset < days_before_month(year, 2) * MILLIS_PER_DAY {
        1
    } else if offset < days_before_month(year, 3) * MILLIS_PER_DAY {
        2
    } else if offset < days_before_month(year, 4) * MILLIS_PER_DAY {
        3
    } else if offset < days_before_month(year, 5) * MILLIS_PER_DAY {
        4
    } else if offset < days_before_month(year, 6) * MILLIS_PER_DAY {
        5
    } else if offset < days_before_month(year, 7) * MILLIS_PER_DAY {
        6
    } else if offset < days_before_month(year, 8) * MILLIS_PER_DAY {
        7
    } else if offset < days_before_month(year, 9) * MILLIS_PER_DAY {
        8
    } else if offset < days_before_month(year, 10) * MILLIS_PER_DAY {
        9
    } else if offset < days_before_month(year, 11) * MILLIS_PER_DAY {
        10
    } else if offset < days_before_month(year, 12) * MILLIS_PER_DAY {
        11
    } else {
        12
    }
}

/// Every instant of a year lies in one of its months.
proof fn lemma_month_of_year(t: int, year: int) -> (month: int)
    requires
        in_year(t, year),
    ensures
        in_month(t, year, month),
{
    lemma_year_length(year);
    let first = days_before_year(year) * MILLIS_PER_DAY;
    assert(month_start_millis(year, 1) == first);
    assert(month_start_millis(year + 1, 1) == first + (days_before_month(year, 12) + 31)
        * MILLIS_PER_DAY);
    let month = lemma_month_of_offset(t - first, year);
    assert(month_start_millis(year, month) == first + days_before_month(year, month)
        * MILLIS_PER_DAY);
    month
}

/// Every instant lies in exactly one month: the one that `year_of_instant`
/// and `month_of_instant` name.
pub proof fn lemma_civil_month(t: int)
    ensures
        in_year(t, year_of_instant(t)),
        in_month(t, year_of_instant(t), month_of_instant(t)),
        month_floor(t) <= t < month_floor(t) + days_in_month(
            year_of_instant(t),
            month_of_instant(t),
        ) * MILLIS_PER_DAY,
{
    let day = t / (MILLIS_PER_DAY as int);
    let year = lemma_year_of_day(day);
    assert(in_year(t, year));
    let month = lemma_month_of_year(t, year_of_instant(t));
    assert(in_month(t, year_of_instant(t), month));
}

/// The month that holds `t` is the one that `year_of_instant` and
/// `month_of_instant` name.
pub proof fn lemma_civil_month_is(t: int, year: int, month: int)
    requires
        in_month(t, year, month),
    ensures
        year == year_of_instant(t),
        month == month_of_instant(t),
        month_floor(t) == month_start_millis(year, month),
{
    lemma_civil_month(t);
    lemma_month_unique(t, year, month, year_of_instant(t), month_of_instant(t));
}

/// The year of the instant `t`, read off chrono's `DateTime<Utc>`: the
/// contract claims that `Datelike::year` on
/// `DateTime::from_timestamp_millis(t)` names the proleptic Gregorian year
/// whose first instant is at or before `t` and whose successor begins after it.
#[verifier::external_body]
pub(crate) fn year_of(t: i64) -> (year: i32)
    requires
        valid_instant(t as int),
    ensures
        MIN_YEAR <= year <= MAX_YEAR,
        in_year(t as int, year as int),
{
    chrono::DateTime::from_timestamp_millis(t).unwrap().year()
}

/// The month of the instant `t`, read off chrono's `DateTime<Utc>`: the
/// contract claims that `Datelike::month` on
/// `DateTime::from_timestamp_millis(t)` is the number, from 1 to 12, of the
/// proleptic Gregorian month of the year of `t` that holds `t`.
#[verifier::external_body]
pub(crate) fn month_of(t: i64) -> (month: u32)
    requires
        valid_instant(t as int),
    ensures
        in_month(t as int, year_of_instant(t as int), month as int),
{
    chrono::DateTime::from_timestamp_millis(t).unwrap().month()
}

/// The first instant of a month, from chrono's
/// `Utc.with_ymd_and_hms(year, month, 1, 0, 0, 0)` and `timestamp_millis`: the
/// contract claims that it is midnight UTC of the first day of that month of
/// the proleptic Gregorian calendar, counted in milliseconds from 1970.
#[verifier::external_body]
pub(crate) fn month_start(year: i32, month: u32) -> (start: i64)
    requires
        MIN_YEAR <= year <= MAX_YEAR,
        1 <= month <= 12,
    ensures
        start == month_start_millis(year as int, month as int),
{
    chrono::Utc.with_ymd_and_hms(year, month, 1, 0, 0, 0).unwrap().timestamp_millis()
}

/// The current instant, from chrono's `Utc::now` and `timestamp_millis`. The
/// contract claims only that it is an instant that a `DateTime<Utc>` can hold.
#[verifier::external_body]
pub(crate) fn now_millis() -> (now: i64)
    ensures
        valid_instant(now as int),
{
    chrono::Utc::now().timestamp_millis()
}

} // verus!
