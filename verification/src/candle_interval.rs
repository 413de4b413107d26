//! Bucket granularities and their arithmetic: where a bucket starts, how long
//! it lasts, and how many of them a range of instants holds.

use crate::calendar::{
    days_in_month, lemma_civil_month, lemma_civil_month_is, lemma_instant_range,
    lemma_month_start_increases, lemma_next_month_start, lemma_year_unique, month_floor,
    month_index, month_of, month_of_instant, month_start, month_start_millis, next_month,
    next_month_year, valid_instant, year_of, year_of_instant, MAX_INSTANT, MAX_YEAR,
    MILLIS_PER_DAY, MIN_INSTANT, MIN_YEAR,
};
use crate::hashed::{insert_instant, instants_in, new_instant_set};
use ahash::AHashSet;
use vstd::arithmetic::div_mod::{
    lemma_div_is_ordered, lemma_div_multiples_vanish, lemma_fundamental_div_mod,
    lemma_fundamental_div_mod_converse_div, lemma_mod_add_multiples_vanish, lemma_mod_bound,
    lemma_mod_multiples_basic,
};
use vstd::prelude::*;
use vstd::relations::injective_on;
use vstd::set_lib::{lemma_int_range, lemma_map_size, set_int_range};

verus! {

/// A bucket granularity, from the finest to the coarsest.
#[derive(Clone, Copy, Debug, PartialEq, Eq, Hash, PartialOrd, Ord, Structural)]
pub enum CandleInterval {
    Minute,
    ThreeMinutes,
    FiveMinutes,
    FifteenMinutes,
    ThirtyMinutes,
    Hour,
    TwoHours,
    FourHours,
    SixHours,
    EightHours,
    TwelveHours,
    Day,
    ThreeDays,
    SevenDays,
    Month,
    Infinity,
}

pub const MILLIS_PER_MINUTE: i64 = 60_000;

pub const MILLIS_PER_HOUR: i64 = 3_600_000;

impl CandleInterval {
    /// The number that stands for the interval in identifiers.
    pub open spec fn code(self) -> int {
        match self {
            CandleInterval::Minute => 0,
            CandleInterval::Hour => 1,
            CandleInterval::Day => 2,
            CandleInterval::Month => 3,
            CandleInterval::ThreeMinutes => 4,
            CandleInterval::FiveMinutes => 5,
            CandleInterval::FifteenMinutes => 6,
            CandleInterval::ThirtyMinutes => 7,
            CandleInterval::TwoHours => 8,
            CandleInterval::FourHours => 9,
            CandleInterval::SixHours => 10,
            CandleInterval::EightHours => 11,
            CandleInterval::TwelveHours => 12,
            CandleInterval::ThreeDays => 13,
            CandleInterval::SevenDays => 14,
            CandleInterval::Infinity => 15,
        }
    }

    /// The place of the interval among all of them, by granularity.
    pub open spec fn rank(self) -> int {
        match self {
            CandleInterval::Minute => 0,
            CandleInterval::ThreeMinutes => 1,
            CandleInterval::FiveMinutes => 2,
            CandleInterval::FifteenMinutes => 3,
            CandleInterval::ThirtyMinutes => 4,
            CandleInterval::Hour => 5,
            CandleInterval::TwoHours => 6,
            CandleInterval::FourHours => 7,
            CandleInterval::SixHours => 8,
            CandleInterval::EightHours => 9,
            CandleInterval::TwelveHours => 10,
            CandleInterval::Day => 11,
            CandleInterval::ThreeDays => 12,
            CandleInterval::SevenDays => 13,
            CandleInterval::Month => 14,
            CandleInterval::Infinity => 15,
        }
    }

    /// Whether every bucket of the interval has the same length.
    pub open spec fn is_fixed(self) -> bool {
        self != CandleInterval::Month && self != CandleInterval::Infinity
    }

    /// The length of a bucket of a fixed interval, in milliseconds.
    pub open spec fn period(self) -> int {
        match self {
            CandleInterval::Minute => MILLIS_PER_MINUTE as int,
            CandleInterval::ThreeMinutes => 3 * MILLIS_PER_MINUTE,
            CandleInterval::FiveMinutes => 5 * MILLIS_PER_MINUTE,
            CandleInterval::FifteenMinutes => 15 * MILLIS_PER_MINUTE,
            CandleInterval::ThirtyMinutes => 30 * MILLIS_PER_MINUTE,
            CandleInterval::Hour => MILLIS_PER_HOUR as int,
            CandleInterval::TwoHours => 2 * MILLIS_PER_HOUR,
            CandleInterval::FourHours => 4 * MILLIS_PER_HOUR,
            CandleInterval::SixHours => 6 * MILLIS_PER_HOUR,
            CandleInterval::EightHours => 8 * MILLIS_PER_HOUR,
            CandleInterval::TwelveHours => 12 * MILLIS_PER_HOUR,
            CandleInterval::Day => MILLIS_PER_DAY as int,
            CandleInterval::ThreeDays => 3 * MILLIS_PER_DAY,
            CandleInterval::SevenDays => 7 * MILLIS_PER_DAY,
            CandleInterval::Month => 0,
            CandleInterval::Infinity => 0,
        }
    }

    /// The start of the bucket that holds `t`: the largest bucket boundary at
    /// or before `t`. The one bucket of `Infinity` starts at the epoch.
    pub open spec fn start_of(self, t: int) -> int {
        match self {
            CandleInterval::Month => month_floor(t),
            CandleInterval::Infinity => 0,
            _ => t - t % self.period(),
        }
    }

    /// The length of the bucket that holds `t`, in milliseconds. The one
    /// bucket of `Infinity` has the longest length there is.
    pub open spec fn duration_of(self, t: int) -> int {
        match self {
            CandleInterval::Month => days_in_month(year_of_instant(t), month_of_instant(t))
                * MILLIS_PER_DAY,
            CandleInterval::Infinity => i64::MAX as int,
            _ => self.period(),
        }
    }

    /// The end of the bucket that holds `t`, which is the start of the next.
    pub open spec fn end_of(self, t: int) -> int {
        self.start_of(t) + self.duration_of(t)
    }

    /// How many buckets lie between the bucket starts `first` and `end`.
    pub open spec fn span_count(self, first: int, end: int) -> int {
        match self {
            CandleInterval::Month => month_index_of(end) - month_index_of(first),
            _ => (end - first) / self.period(),
        }
    }

    /// How many buckets lie between the start of the bucket that holds `from`
    /// and the end of the bucket that holds `to`.
    pub open spec fn count_between(self, from: int, to: int) -> int {
        self.span_count(self.start_of(from), self.end_of(to))
    }

    /// Whether `t` is the start of a bucket.
    pub open spec fn is_start(self, t: int) -> bool {
        self.start_of(t) == t
    }

    /// The bucket starts from the bucket that holds `from` to the bucket that
    /// holds `to`, both included. The first is a member even where `to` lies
    /// before it.
    pub open spec fn starts_between(self, from: int, to: int) -> Set<int> {
        Set::new(
            |b: int|
                b == self.start_of(from) || (self.start_of(from) <= b <= self.start_of(to)
                    && self.is_start(b)),
        )
    }

    /// Whether `t` is an instant whose bucket starts at an instant.
    pub open spec fn covers(self, t: int) -> bool {
        valid_instant(t) && valid_instant(self.start_of(t))
    }

    /// Whether `t` is an instant whose bucket starts and ends at instants.
    pub open spec fn covers_whole(self, t: int) -> bool {
        self.covers(t) && self.end_of(t) <= MAX_INSTANT
    }

    /// The number that stands for the interval in identifiers.
    pub fn discriminant(&self) -> (code: u8)
        ensures
            code == self.code(),
    {
        match self {
            CandleInterval::Minute => 0,
            CandleInterval::Hour => 1,
            CandleInterval::Day => 2,
            CandleInterval::Month => 3,
            CandleInterval::ThreeMinutes => 4,
            CandleInterval::FiveMinutes => 5,
            CandleInterval::FifteenMinutes => 6,
            CandleInterval::ThirtyMinutes => 7,
            CandleInterval::TwoHours => 8,
            CandleInterval::FourHours => 9,
            CandleInterval::SixHours => 10,
            CandleInterval::EightHours => 11,
            CandleInterval::TwelveHours => 12,
            CandleInterval::ThreeDays => 13,
            CandleInterval::SevenDays => 14,
            CandleInterval::Infinity => 15,
        }
    }

    /// The place of the interval among all of them, by granularity.
    pub fn granularity(&self) -> (rank: u8)
        ensures
            rank == self.rank(),
    {
        match self {
            CandleInterval::Minute => 0,
            CandleInterval::ThreeMinutes => 1,
            CandleInterval::FiveMinutes => 2,
            CandleInterval::FifteenMinutes => 3,
            CandleInterval::ThirtyMinutes => 4,
            CandleInterval::Hour => 5,
            CandleInterval::TwoHours => 6,
            CandleInterval::FourHours => 7,
            CandleInterval::SixHours => 8,
            CandleInterval::EightHours => 9,
            CandleInterval::TwelveHours => 10,
            CandleInterval::Day => 11,
            CandleInterval::ThreeDays => 12,
            CandleInterval::SevenDays => 13,
            CandleInterval::Month => 14,
            CandleInterval::Infinity => 15,
        }
    }

    /// The interval that `code` stands for, if there is one.
    pub fn from_discriminant(code: u8) -> (interval: Option<CandleInterval>)
        ensures
            code <= 15 <==> interval is Some,
            interval matches Some(i) ==> i.code() == code,
    {
        match code {
            0 => Some(CandleInterval::Minute),
            1 => Some(CandleInterval::Hour),
            2 => Some(CandleInterval::Day),
            3 => Some(CandleInterval::Month),
            4 => Some(CandleInterval::ThreeMinutes),
            5 => Some(CandleInterval::FiveMinutes),
            6 => Some(CandleInterval::FifteenMinutes),
            7 => Some(CandleInterval::ThirtyMinutes),
            8 => Some(CandleInterval::TwoHours),
            9 => Some(CandleInterval::FourHours),
            10 => Some(CandleInterval::SixHours),
            11 => Some(CandleInterval::EightHours),
            12 => Some(CandleInterval::TwelveHours),
            13 => Some(CandleInterval::ThreeDays),
            14 => Some(CandleInterval::SevenDays),
            15 => Some(CandleInterval::Infinity),
            _ => None,
        }
    }

    /// The length of a bucket of a fixed interval; `None` for `Month` and
    /// `Infinity`.
    pub fn fixed_period(&self) -> (period: Option<i64>)
        ensures
            self.is_fixed() <==> period is Some,
            period matches Some(p) ==> p == self.period() && 0 < p <= 7 * MILLIS_PER_DAY,
    {
        match self {
            CandleInterval::Minute => Some(MILLIS_PER_MINUTE),
            CandleInterval::ThreeMinutes => Some(3 * MILLIS_PER_MINUTE),
            CandleInterval::FiveMinutes => Some(5 * MILLIS_PER_MINUTE),
            CandleInterval::FifteenMinutes => Some(15 * MILLIS_PER_MINUTE),
            CandleInterval::ThirtyMinutes => Some(30 * MILLIS_PER_MINUTE),
            CandleInterval::Hour => Some(MILLIS_PER_HOUR),
            CandleInterval::TwoHours => Some(2 * MILLIS_PER_HOUR),
            CandleInterval::FourHours => Some(4 * MILLIS_PER_HOUR),
            CandleInterval::SixHours => Some(6 * MILLIS_PER_HOUR),
            CandleInterval::EightHours => Some(8 * MILLIS_PER_HOUR),
            CandleInterval::TwelveHours => Some(12 * MILLIS_PER_HOUR),
            CandleInterval::Day => Some(MILLIS_PER_DAY),
            CandleInterval::ThreeDays => Some(3 * MILLIS_PER_DAY),
            CandleInterval::SevenDays => Some(7 * MILLIS_PER_DAY),
            CandleInterval::Month => None,
            CandleInterval::Infinity => None,
        }
    }

    /// The start of the bucket that holds `datetime`.
    pub fn get_start_date(&self, datetime: i64) -> (start: i64)
        requires
            self.covers(datetime as int),
        ensures
            start == self.start_of(datetime as int),
    {
        match self.fixed_period() {
            Some(period) => {
                let offset: i64 = match datetime.checked_rem_euclid(period) {
                    Some(r) => r,
                    None => 0,
                };
                datetime - offset
            },
            None => {
                if *self == CandleInterval::Infinity {
                    0
                } else {
                    let year: i32 = year_of(datetime);
                    let month: u32 = month_of(datetime);
                    proof {
                        lemma_civil_month(datetime as int);
                        lemma_year_unique(
                            datetime as int,
                            year as int,
                            year_of_instant(datetime as int),
                        );
                        lemma_civil_month_is(datetime as int, year as int, month as int);
                    }
                    month_start(year, month)
                }
            },
        }
    }

    /// The length of the bucket that holds `datetime`, in milliseconds.
    pub fn get_duration(&self, datetime: i64) -> (duration: i64)
        requires
            valid_instant(datetime as int),
            *self == CandleInterval::Month ==> self.end_of(datetime as int) <= MAX_INSTANT,
        ensures
            duration == self.duration_of(datetime as int),
            duration > 0,
    {
        match self.fixed_period() {
            Some(period) => period,
            None => {
                if *self == CandleInterval::Infinity {
                    i64::MAX
                } else {
                    let year: i32 = year_of(datetime);
                    let month: u32 = month_of(datetime);
                    proof {
                        lemma_civil_month(datetime as int);
                        lemma_year_unique(
                            datetime as int,
                            year as int,
                            year_of_instant(datetime as int),
                        );
                        lemma_civil_month_is(datetime as int, year as int, month as int);
                        lemma_next_month_start(year as int, month as int);
                        lemma_instant_range();
                    }
                    let start_of_month: i64 = month_start(year, month);
                    let next_month: u32 = if month == 12 {
                        1
                    } else {
                        month + 1
                    };
                    let next_year: i32 = if month == 12 {
                        year + 1
                    } else {
                        year
                    };
                    let end_of_month: i64 = month_start(next_year, next_month);
                    end_of_month - start_of_month
                }
            },
        }
    }

    /// The end of the bucket that holds `datetime`.
    pub fn get_end_date(&self, datetime: i64) -> (end: i64)
        requires
            self.covers_whole(datetime as int),
        ensures
            end == self.end_of(datetime as int),
    {
        let start: i64 = self.get_start_date(datetime);
        let duration: i64 = self.get_duration(datetime);
        start + duration
    }

    /// How many buckets lie between the start of the bucket that holds
    /// `date_from` and the end of the bucket that holds `date_to`; none or
    /// less where the second lies before the first.
    pub fn count_dates(&self, date_from: i64, date_to: i64) -> (count: i64)
        requires
            self.covers(date_from as int),
            self.covers_whole(date_to as int),
        ensures
            count == self.count_between(date_from as int, date_to as int),
    {
        let first: i64 = self.get_start_date(date_from);
        let end: i64 = self.get_end_date(date_to);
        match self.fixed_period() {
            Some(period) => {
                proof {
                    lemma_div_bounds(end - first, period as int);
                }
                match (end - first).checked_div_euclid(period) {
                    Some(count) => count,
                    None => 0,
                }
            },
            None => {
                proof {
                    lemma_civil_month(first as int);
                    lemma_civil_month(end as int);
                }
                let year_from: i32 = year_of(first);
                let month_from: u32 = month_of(first);
                let year_to: i32 = year_of(end);
                let month_to: u32 = month_of(end);
                proof {
                    lemma_year_unique(
                        first as int,
                        year_from as int,
                        year_of_instant(first as int),
                    );
                    lemma_civil_month_is(first as int, year_from as int, month_from as int);
                    lemma_year_unique(end as int, year_to as int, year_of_instant(end as int));
                    lemma_civil_month_is(end as int, year_to as int, month_to as int);
                }
                let year_diff: i64 = year_to as i64 - year_from as i64;
                let month_diff: i64 = month_to as i64 - month_from as i64;
                year_diff * 12 + month_diff
            },
        }
    }

    /// How many buckets lie between the start of the bucket that holds
    /// `date_from` and the end of the bucket that holds `date_to`.
    pub fn get_dates_count(&self, date_from: i64, date_to: i64) -> (count: usize)
        requires
            self.covers(date_from as int),
            self.covers_whole(date_to as int),
            self.start_of(date_from as int) <= self.end_of(date_to as int),
            self.count_between(date_from as int, date_to as int) <= usize::MAX,
        ensures
            count == self.count_between(date_from as int, date_to as int),
    {
        proof {
            lemma_start_idempotent(*self, date_from as int);
            lemma_end_is_start(*self, date_to as int);
            lemma_span_step(
                *self,
                self.start_of(date_from as int),
                self.end_of(date_to as int),
            );
        }
        self.count_dates(date_from, date_to) as usize
    }

    /// Whether `datetime` is an instant whose bucket starts at an instant.
    pub fn covers_date(&self, datetime: i64) -> (covered: bool)
        ensures
            covered == self.covers(datetime as int),
    {
        if datetime < MIN_INSTANT || datetime > MAX_INSTANT {
            return false;
        }
        match self.fixed_period() {
            Some(period) => {
                let offset: i64 = match datetime.checked_rem_euclid(period) {
                    Some(r) => r,
                    None => 0,
                };
                datetime - offset >= MIN_INSTANT
            },
            None => {
                proof {
                    lemma_covers(*self, datetime as int);
                }
                true
            },
        }
    }

    /// Whether `datetime` is an instant whose bucket starts and ends at
    /// instants.
    pub fn covers_whole_date(&self, datetime: i64) -> (covered: bool)
        ensures
            covered == self.covers_whole(datetime as int),
    {
        if !self.covers_date(datetime) {
            return false;
        }
        match self.fixed_period() {
            Some(period) => self.get_start_date(datetime) <= MAX_INSTANT - period,
            None => {
                if *self == CandleInterval::Infinity {
                    false
                } else {
                    let year: i32 = year_of(datetime);
                    let month: u32 = month_of(datetime);
                    proof {
                        lemma_civil_month(datetime as int);
                        lemma_year_unique(
                            datetime as int,
                            year as int,
                            year_of_instant(datetime as int),
                        );
                        lemma_civil_month_is(datetime as int, year as int, month as int);
                        lemma_next_month_start(year as int, month as int);
                        lemma_instant_range();
                        if year != MAX_YEAR || month != 12 {
                            lemma_month_start_increases(
                                year as int,
                                month as int,
                                MAX_YEAR as int,
                                12,
                            );
                            lemma_next_month_start(MAX_YEAR as int, 12);
                        }
                    }
                    year != MAX_YEAR || month != 12
                }
            },
        }
    }

    /// The start of every bucket from the one that holds `datetime_from` to
    /// the one that holds `datetime_to`.
    pub fn get_start_dates(&self, datetime_from: i64, datetime_to: i64) -> (dates: AHashSet<i64>)
        requires
            self.covers(datetime_from as int),
            self.covers(datetime_to as int),
        ensures
            instants_in(dates) == self.starts_between(datetime_from as int, datetime_to as int),
    {
        let mut dates: AHashSet<i64> = new_instant_set();
        let date_from: i64 = self.get_start_date(datetime_from);
        insert_instant(&mut dates, date_from);
        let date_to: i64 = self.get_start_date(datetime_to);
        proof {
            lemma_start_idempotent(*self, datetime_from as int);
            lemma_start_idempotent(*self, datetime_to as int);
        }
        let mut last_date: i64 = self.get_start_date(date_from);
        assert(instants_in(dates) =~= Set::new(
            |b: int| b == date_from || (date_from <= b <= last_date && self.is_start(b)),
        ));
        while last_date < date_to
            invariant
                valid_instant(date_from as int),
                valid_instant(date_to as int),
                self.is_start(date_from as int),
                self.is_start(date_to as int),
                self.is_start(last_date as int),
                date_from <= last_date,
                last_date <= date_to || last_date == date_from,
                instants_in(dates) == Set::new(
                    |b: int| b == date_from || (date_from <= b <= last_date && self.is_start(b)),
                ),
            decreases date_to - last_date,
        {
            proof {
                lemma_next_start(*self, last_date as int, date_to as int);
            }
            let next_date: i64 = self.get_start_date(last_date) + self.get_duration(last_date);
            let ghost before = last_date;
            last_date = self.get_start_date(next_date);
            insert_instant(&mut dates, last_date);
            assert(instants_in(dates) =~= Set::new(
                |b: int| b == date_from || (date_from <= b <= last_date && self.is_start(b)),
            )) by {
                assert forall|b: int| before < b < last_date implies !self.is_start(b) by {
                    lemma_same_bucket(*self, before as int, b);
                }
            }
        }
        assert(instants_in(dates) =~= self.starts_between(
            datetime_from as int,
            datetime_to as int,
        ));
        dates
    }
}

/// Every instant of a bucket has the bucket's start as its own.
pub proof fn lemma_same_bucket(interval: CandleInterval, start: int, t: int)
    requires
        interval.is_start(start),
        start <= t < start + interval.duration_of(start),
    ensures
        interval.start_of(t) == start,
{
    match interval {
        CandleInterval::Month => {
            lemma_civil_month(start);
            lemma_civil_month_is(t, year_of_instant(start), month_of_instant(start));
        },
        CandleInterval::Infinity => {},
        _ => {
            let p = interval.period();
            lemma_round_to_multiple(start, p);
            lemma_round_to_multiple(t, p);
            assert((start / p) * p == p * (start / p)) by (nonlinear_arith);
            lemma_fundamental_div_mod_converse_div(t, p, start / p, t - start);
        },
    }
}

/// Where a bucket ends the next one starts, and no bucket starts in between.
pub proof fn lemma_next_start(interval: CandleInterval, start: int, later: int)
    requires
        interval.is_start(start),
        interval.is_start(later),
        start < later,
    ensures
        interval != CandleInterval::Infinity,
        interval.end_of(start) <= later,
        interval.is_start(interval.end_of(start)),
        interval.end_of(start) == start + interval.duration_of(start),
        interval.duration_of(start) > 0,
{
    let end = interval.end_of(start);
    match interval {
        CandleInterval::Month => {
            lemma_month_bucket(start);
            let year = next_month_year(year_of_instant(start), month_of_instant(start));
            let month = next_month(month_of_instant(start));
            lemma_next_month_start(year, month);
            lemma_civil_month_is(end, year, month);
        },
        CandleInterval::Infinity => {},
        _ => {
            let p = interval.period();
            lemma_round_to_multiple(start, p);
            lemma_round_to_multiple(start + p, p);
            lemma_mod_add_multiples_vanish(start, p);
        },
    }
    if later < end {
        lemma_same_bucket(interval, start, later);
    }

}

/// Later instants lie in buckets that start no earlier.
pub proof fn lemma_start_monotonic(interval: CandleInterval, a: int, b: int)
    requires
        a <= b,
    ensures
        interval.start_of(a) <= interval.start_of(b),
{
    match interval {
        CandleInterval::Month => {
            lemma_civil_month(a);
            lemma_civil_month(b);
            if month_index_of(b) < month_index_of(a) {
                lemma_month_start_increases(
                    year_of_instant(b),
                    month_of_instant(b),
                    year_of_instant(a),
                    month_of_instant(a),
                );
            } else if month_index_of(a) < month_index_of(b) {
                lemma_month_start_increases(
                    year_of_instant(a),
                    month_of_instant(a),
                    year_of_instant(b),
                    month_of_instant(b),
                );
            }
        },
        CandleInterval::Infinity => {},
        _ => {
            let p = interval.period();
            lemma_round_to_multiple(a, p);
            lemma_round_to_multiple(b, p);
            lemma_div_is_ordered(a, b, p);
            assert(p * (a / p) <= p * (b / p)) by (nonlinear_arith)
                requires
                    p > 0,
                    a / p <= b / p,
            ;
        },
    }
}

/// The bucket of an instant ends at or before any later bucket start.
pub proof fn lemma_end_before_later_start(interval: CandleInterval, t: int, later: int)
    requires
        interval != CandleInterval::Infinity,
        interval.is_start(later),
        t < later,
    ensures
        interval.start_of(t) <= t,
        interval.end_of(t) <= later,
        interval.is_start(interval.end_of(t)),
        interval.end_of(t) == interval.end_of(interval.start_of(t)),
{
    lemma_start_idempotent(interval, t);
    lemma_start_contains(interval, t);
    lemma_next_start(interval, interval.start_of(t), later);
}

/// Where a bucket ends, a bucket starts; and no bucket is longer than 31 days.
pub proof fn lemma_end_is_start(interval: CandleInterval, t: int)
    requires
        interval != CandleInterval::Infinity,
    ensures
        interval.is_start(interval.end_of(t)),
        0 < interval.duration_of(t) <= 31 * MILLIS_PER_DAY,
        interval.start_of(t) <= t < interval.end_of(t),
{
    lemma_start_contains(interval, t);
    match interval {
        CandleInterval::Month => {
            lemma_month_bucket(t);
            let year = next_month_year(year_of_instant(t), month_of_instant(t));
            let month = next_month(month_of_instant(t));
            lemma_next_month_start(year, month);
            lemma_civil_month_is(interval.end_of(t), year, month);
        },
        CandleInterval::Infinity => {},
        _ => {
            let p = interval.period();
            let start = interval.start_of(t);
            lemma_round_to_multiple(t, p);
            lemma_round_to_multiple(start + p, p);
            lemma_mod_add_multiples_vanish(start, p);
        },
    }
}

/// The bucket of an instant starts at an instant: always for the intervals
/// whose buckets fit into a day or are months, and from a week after the
/// first instant on for the buckets of three and of seven days.
pub proof fn lemma_covers(interval: CandleInterval, t: int)
    requires
        valid_instant(t),
        interval == CandleInterval::ThreeDays || interval == CandleInterval::SevenDays ==> t
            >= MIN_INSTANT + 7 * MILLIS_PER_DAY,
    ensures
        interval.covers(t),
{
    match interval {
        CandleInterval::Infinity => {},
        CandleInterval::ThreeDays | CandleInterval::SevenDays => {
            lemma_round_to_multiple(t, interval.period());
        },
        CandleInterval::Month => {
            lemma_instant_range();
            lemma_next_month_start(MIN_YEAR as int, 1);
            lemma_civil_month_is(MIN_INSTANT as int, MIN_YEAR as int, 1);
            lemma_start_monotonic(interval, MIN_INSTANT as int, t);
            lemma_start_contains(interval, t);
        },
        _ => {
            let p = interval.period();
            lemma_round_to_multiple(t, p);
            match interval {
                CandleInterval::Minute => lemma_first_instant_is_start(60_000),
                CandleInterval::ThreeMinutes => lemma_first_instant_is_start(180_000),
                CandleInterval::FiveMinutes => lemma_first_instant_is_start(300_000),
                CandleInterval::FifteenMinutes => lemma_first_instant_is_start(900_000),
                CandleInterval::ThirtyMinutes => lemma_first_instant_is_start(1_800_000),
                CandleInterval::Hour => lemma_first_instant_is_start(3_600_000),
                CandleInterval::TwoHours => lemma_first_instant_is_start(7_200_000),
                CandleInterval::FourHours => lemma_first_instant_is_start(14_400_000),
                CandleInterval::SixHours => lemma_first_instant_is_start(21_600_000),
                CandleInterval::EightHours => lemma_first_instant_is_start(28_800_000),
                CandleInterval::TwelveHours => lemma_first_instant_is_start(43_200_000),
                CandleInterval::Day => lemma_first_instant_is_start(86_400_000),
                _ => {},
            }
            lemma_start_monotonic(interval, MIN_INSTANT as int, t);
        },
    }
}

/// The first instant is a multiple of every length that a day is a multiple
/// of.
proof fn lemma_first_instant_is_start(p: int)
    requires
        p > 0,
        MILLIS_PER_DAY as int % p == 0,
    ensures
        MIN_INSTANT as int % p == 0,
{
    let per_day = MILLIS_PER_DAY as int / p;
    lemma_fundamental_div_mod(MILLIS_PER_DAY as int, p);
    assert(MIN_INSTANT == (-96_465_292 * per_day) * p) by (nonlinear_arith)
        requires
            MIN_INSTANT == -96_465_292 * MILLIS_PER_DAY,
            MILLIS_PER_DAY == p * per_day,
    ;
    lemma_mod_multiples_basic(-96_465_292 * per_day, p);
}

/// The bucket of an instant ends at an instant, where the instant lies a
/// month or more before the last.
pub proof fn lemma_covers_whole(interval: CandleInterval, t: int)
    requires
        interval != CandleInterval::Infinity,
        interval.covers(t),
        t <= MAX_INSTANT - 31 * MILLIS_PER_DAY,
    ensures
        interval.covers_whole(t),
        interval.covers(interval.end_of(t)),
{
    lemma_end_is_start(interval, t);
}

/// A quotient by a positive number lies no further from zero than what is
/// divided.
proof fn lemma_div_bounds(x: int, d: int)
    requires
        d > 0,
    ensures
        x >= 0 ==> 0 <= x / d <= x,
        x < 0 ==> x <= x / d < 0,
{
    lemma_fundamental_div_mod(x, d);
    lemma_mod_bound(x, d);
    let q = x / d;
    if x >= 0 {
        assert(0 <= q <= x) by (nonlinear_arith)
            requires
                d > 0,
                x == d * q + x % d,
                0 <= x % d < d,
                x >= 0,
        ;
    } else {
        assert(x <= q < 0) by (nonlinear_arith)
            requires
                d > 0,
                x == d * q + x % d,
                0 <= x % d < d,
                x < 0,
        ;
    }
}

/// Rounding down to a multiple of `p` gives the largest multiple at or below
/// `t`, and rounding a multiple changes nothing.
pub proof fn lemma_round_to_multiple(t: int, p: int)
    requires
        p > 0,
    ensures
        t - t % p == p * (t / p),
        (t - t % p) % p == 0,
        t - t % p <= t < t - t % p + p,
{
    lemma_fundamental_div_mod(t, p);
    lemma_mod_bound(t, p);
    lemma_mod_multiples_basic(t / p, p);
    assert((t / p) * p == p * (t / p)) by (nonlinear_arith);
}

/// Flooring twice is flooring once: the start of a bucket is its own start.
pub proof fn lemma_start_idempotent(interval: CandleInterval, t: int)
    ensures
        interval.start_of(interval.start_of(t)) == interval.start_of(t),
{
    match interval {
        CandleInterval::Month => {
            lemma_month_floor_is_start(t);
        },
        CandleInterval::Infinity => {},
        _ => {
            lemma_round_to_multiple(t, interval.period());
        },
    }
}

/// A bucket holds the instants from its start up to, and without, the start
/// plus its length. The one bucket of `Infinity` starts at the epoch, so it
/// holds no instant before 1970.
pub proof fn lemma_start_contains(interval: CandleInterval, t: int)
    requires
        interval == CandleInterval::Infinity ==> 0 <= t < i64::MAX,
    ensures
        interval.start_of(t) <= t < interval.start_of(t) + interval.duration_of(
            interval.start_of(t),
        ),
        interval.duration_of(interval.start_of(t)) == interval.duration_of(t),
{
    match interval {
        CandleInterval::Month => {
            lemma_civil_month(t);
            lemma_month_floor_is_start(t);
        },
        CandleInterval::Infinity => {},
        _ => {
            lemma_round_to_multiple(t, interval.period());
        },
    }
}

/// The start of a monthly bucket is midnight of the first day of the month
/// that holds the instant, in the same year, and the bucket is as long as
/// that month has days: 28, 29, 30 or 31.
pub proof fn lemma_month_bucket(t: int)
    ensures
        CandleInterval::Month.start_of(t) == month_start_millis(
            year_of_instant(t),
            month_of_instant(t),
        ),
        CandleInterval::Month.start_of(t) % (MILLIS_PER_DAY as int) == 0,
        year_of_instant(CandleInterval::Month.start_of(t)) == year_of_instant(t),
        month_of_instant(CandleInterval::Month.start_of(t)) == month_of_instant(t),
        1 <= month_of_instant(t) <= 12,
        CandleInterval::Month.duration_of(t) == days_in_month(
            year_of_instant(t),
            month_of_instant(t),
        ) * MILLIS_PER_DAY,
        28 <= days_in_month(year_of_instant(t), month_of_instant(t)) <= 31,
        CandleInterval::Month.end_of(t) == month_start_millis(
            next_month_year(year_of_instant(t), month_of_instant(t)),
            next_month(month_of_instant(t)),
        ),
{
    lemma_civil_month(t);
    lemma_month_floor_is_start(t);
    lemma_next_month_start(year_of_instant(t), month_of_instant(t));
}

/// The first instant of the month that holds `t` lies in that month.
proof fn lemma_month_floor_is_start(t: int)
    ensures
        year_of_instant(month_floor(t)) == year_of_instant(t),
        month_of_instant(month_floor(t)) == month_of_instant(t),
        month_floor(month_floor(t)) == month_floor(t),
{
    lemma_civil_month(t);
    lemma_civil_month_is(month_floor(t), year_of_instant(t), month_of_instant(t));
}

/// The month that is `index` months after month 1 of year 0 begins here.
pub open spec fn month_start_at(index: int) -> int {
    month_start_millis(index / 12, index % 12 + 1)
}

/// The place of the month that holds `t`, counted from month 1 of year 0.
pub open spec fn month_index_of(t: int) -> int {
    month_index(year_of_instant(t), month_of_instant(t))
}

/// Months begin in the order of their indices, and the start of a monthly
/// bucket is the start of the month with the bucket's index.
proof fn lemma_month_indices(k1: int, k2: int)
    ensures
        CandleInterval::Month.is_start(month_start_at(k1)),
        month_index_of(month_start_at(k1)) == k1,
        k1 < k2 ==> month_start_at(k1) < month_start_at(k2),
{
    let y1 = k1 / 12;
    let m1 = k1 % 12 + 1;
    lemma_next_month_start(y1, m1);
    lemma_civil_month_is(month_start_at(k1), y1, m1);
    if k1 < k2 {
        lemma_month_start_increases(y1, m1, k2 / 12, k2 % 12 + 1);
    }
}

/// The start of a monthly bucket is the start of the month with its index.
proof fn lemma_month_start_by_index(t: int)
    requires
        CandleInterval::Month.is_start(t),
    ensures
        month_start_at(month_index_of(t)) == t,
{
    lemma_civil_month(t);
}

/// The closed-form count of the buckets of a range is the number of bucket
/// starts that walking the range bucket by bucket meets.
pub proof fn lemma_count_is_number_of_starts(interval: CandleInterval, from: int, to: int)
    requires
        interval != CandleInterval::Infinity,
        interval.start_of(from) <= interval.start_of(to),
    ensures
        interval.starts_between(from, to).finite(),
        interval.starts_between(from, to).len() == interval.count_between(from, to),
{
    let first = interval.start_of(from);
    let last = interval.start_of(to);
    let starts = interval.starts_between(from, to);
    lemma_start_idempotent(interval, from);
    lemma_start_idempotent(interval, to);
    if interval == CandleInterval::Month {
        let lo = month_index_of(first);
        let hi = month_index_of(last) + 1;
        let f = |k: int| month_start_at(k);
        let indices = set_int_range(lo, hi);
        lemma_month_start_by_index(first);
        lemma_month_start_by_index(last);
        if hi <= lo {
            lemma_month_indices(hi - 1, lo);
        }
        lemma_int_range(lo, hi);
        assert(injective_on(f, indices)) by {
            assert forall|k1: int, k2: int|
                indices.contains(k1) && indices.contains(k2) && #[trigger] f(k1) == #[trigger] f(
                    k2,
                ) implies k1 == k2 by {
                lemma_month_indices(k1, k2);
                lemma_month_indices(k2, k1);
            }
        }
        assert forall|b: int| starts.contains(b) implies #[trigger] indices.map(f).contains(b) by {
            let k = month_index_of(b);
            lemma_month_start_by_index(b);
            lemma_month_indices(k, lo);
            lemma_month_indices(hi - 1, k);
            assert(indices.contains(k) && b == f(k));
        }
        assert forall|b: int| #[trigger] indices.map(f).contains(b) implies starts.contains(b) by {
            let k = choose|k: int| indices.contains(k) && b == f(k);
            lemma_month_indices(k, hi - 1);
            lemma_month_indices(lo, k);
        }
        assert(indices.map(f) =~= starts);
        lemma_map_size(indices, starts, f);
        lemma_month_bucket(to);
        let end = interval.end_of(to);
        let year = next_month_year(year_of_instant(to), month_of_instant(to));
        let month = next_month(month_of_instant(to));
        lemma_next_month_start(year, month);
        lemma_civil_month_is(end, year, month);
    } else {
        let p = interval.period();
        let lo = from / p;
        let hi = to / p + 1;
        let f = |k: int| k * p;
        let indices = set_int_range(lo, hi);
        lemma_round_to_multiple(from, p);
        lemma_round_to_multiple(to, p);
        assert(lo < hi) by (nonlinear_arith)
            requires
                p > 0,
                p * lo <= p * (hi - 1),
        ;
        lemma_int_range(lo, hi);
        assert(injective_on(f, indices)) by {
            assert forall|k1: int, k2: int|
                indices.contains(k1) && indices.contains(k2) && #[trigger] f(k1) == #[trigger] f(
                    k2,
                ) implies k1 == k2 by {
                assert(k1 == k2) by (nonlinear_arith)
                    requires
                        p > 0,
                        k1 * p == k2 * p,
                ;
            }
        }
        assert forall|b: int| starts.contains(b) implies #[trigger] indices.map(f).contains(b) by {
            let k = b / p;
            lemma_round_to_multiple(b, p);
            assert(lo <= k < hi) by (nonlinear_arith)
                requires
                    p > 0,
                    p * lo <= p * k <= p * (hi - 1),
            ;
            assert(k * p == p * k) by (nonlinear_arith);
            assert(indices.contains(k) && b == f(k));
        }
        assert forall|b: int| #[trigger] indices.map(f).contains(b) implies starts.contains(b) by {
            let k = choose|k: int| indices.contains(k) && b == f(k);
            lemma_mod_multiples_basic(k, p);
            assert(p * lo <= k * p <= p * (hi - 1)) by (nonlinear_arith)
                requires
                    p > 0,
                    lo <= k < hi,
            ;
        }
        assert(indices.map(f) =~= starts);
        lemma_map_size(indices, starts, f);
        assert(interval.end_of(to) - first == p * (hi - lo)) by (nonlinear_arith)
            requires
                interval.end_of(to) == p * (hi - 1) + p,
                first == p * lo,
        ;
        lemma_div_multiples_vanish(hi - lo, p);
    }
}

/// The month after the one that holds `t` has the next index.
proof fn lemma_month_index_of_end(t: int)
    ensures
        month_index_of(CandleInterval::Month.end_of(t)) == month_index_of(t) + 1,
{
    lemma_month_bucket(t);
    let year = next_month_year(year_of_instant(t), month_of_instant(t));
    let month = next_month(month_of_instant(t));
    lemma_next_month_start(year, month);
    lemma_civil_month_is(CandleInterval::Month.end_of(t), year, month);
}

/// Monthly bucket starts lie in the order of their indices.
proof fn lemma_month_span(first: int, end: int)
    requires
        CandleInterval::Month.is_start(first),
        CandleInterval::Month.is_start(end),
    ensures
        first < end <==> month_index_of(first) < month_index_of(end),
{
    lemma_month_start_by_index(first);
    lemma_month_start_by_index(end);
    lemma_month_indices(month_index_of(first), month_index_of(end));
    lemma_month_indices(month_index_of(end), month_index_of(first));
}

/// The buckets of a fixed interval between two of its bucket starts.
proof fn lemma_fixed_span(p: int, first: int, end: int)
    requires
        p > 0,
        first % p == 0,
        end % p == 0,
    ensures
        first < end ==> (end - first) / p >= 1,
        first >= end ==> (end - first) / p <= 0,
        (end - (first + p)) / p == (end - first) / p - 1,
        (end + p - first) / p == (end - first) / p + 1,
{
    lemma_round_to_multiple(first, p);
    lemma_round_to_multiple(end, p);
    let a = first / p;
    let b = end / p;
    assert(end - first == p * (b - a)) by (nonlinear_arith)
        requires
            first == p * a,
            end == p * b,
    ;
    assert(end - (first + p) == p * (b - a - 1)) by (nonlinear_arith)
        requires
            first == p * a,
            end == p * b,
    ;
    assert(end + p - first == p * (b - a + 1)) by (nonlinear_arith)
        requires
            first == p * a,
            end == p * b,
    ;
    lemma_div_multiples_vanish(b - a, p);
    lemma_div_multiples_vanish(b - a - 1, p);
    lemma_div_multiples_vanish(b - a + 1, p);
    if first < end {
        assert(b - a >= 1) by (nonlinear_arith)
            requires
                p > 0,
                p * a < p * b,
        ;
    } else {
        assert(b - a <= 0) by (nonlinear_arith)
            requires
                p > 0,
                p * a >= p * b,
        ;
    }
}

/// Between two bucket starts, the later bucket starts one bucket further on
/// and leaves one bucket less to walk; and the bucket after the last is one
/// bucket more.
pub proof fn lemma_span_step(interval: CandleInterval, first: int, end: int)
    requires
        interval != CandleInterval::Infinity,
        interval.is_start(first),
        interval.is_start(end),
    ensures
        first < end ==> interval.span_count(first, end) >= 1,
        first >= end ==> interval.span_count(first, end) <= 0,
        interval.end_of(first) == first + interval.duration_of(first),
        interval.span_count(interval.end_of(first), end) == interval.span_count(first, end) - 1,
        interval.span_count(first, interval.end_of(end)) == interval.span_count(first, end) + 1,
{
    if interval == CandleInterval::Month {
        lemma_month_index_of_end(first);
        lemma_month_index_of_end(end);
        lemma_month_span(first, end);
    } else {
        let p = interval.period();
        lemma_round_to_multiple(first, p);
        lemma_round_to_multiple(end, p);
        lemma_fixed_span(p, first, end);
    }
}

/// Whether `t` is an instant whose bucket starts at an instant, at each of
/// `intervals`.
pub open spec fn all_cover(intervals: Seq<CandleInterval>, t: int) -> bool {
    forall|i: int| 0 <= i < intervals.len() ==> (#[trigger] intervals[i]).covers(t)
}

/// Whether `t` is an instant whose bucket starts and ends at instants, at
/// each of `intervals`.
pub open spec fn all_cover_whole(intervals: Seq<CandleInterval>, t: int) -> bool {
    forall|i: int| 0 <= i < intervals.len() ==> (#[trigger] intervals[i]).covers_whole(t)
}

/// Whether `intervals` holds each interval once at most, the finer before
/// the coarser.
pub open spec fn sorted_by_granularity(intervals: Seq<CandleInterval>) -> bool {
    forall|i: int, j: int|
        0 <= i < j < intervals.len() ==> (#[trigger] intervals[i]).rank() < (
        #[trigger] intervals[j]).rank()
}

/// The intervals of `intervals`, each once, the finer before the coarser.
pub fn sorted_unique(intervals: &Vec<CandleInterval>) -> (sorted: Vec<CandleInterval>)
    ensures
        sorted_by_granularity(sorted@),
        forall|interval: CandleInterval|
            sorted@.contains(interval) <==> intervals@.contains(interval),
{
    let mut sorted: Vec<CandleInterval> = Vec::new();
    let mut rank: u8 = 0;
    while rank < 16
        invariant
            rank <= 16,
            sorted_by_granularity(sorted@),
            forall|i: int| 0 <= i < sorted@.len() ==> (#[trigger] sorted@[i]).rank() < rank,
            forall|interval: CandleInterval|
                sorted@.contains(interval) <==> (intervals@.contains(interval) && interval.rank()
                    < rank),
        decreases 16 - rank,
    {
        let mut found: Option<CandleInterval> = None;
        let mut i: usize = 0;
        while i < intervals.len()
            invariant
                i <= intervals.len(),
                found matches Some(f) ==> f.rank() == rank && intervals@.contains(f),
                found is None ==> forall|j: int|
                    0 <= j < i ==> (#[trigger] intervals@[j]).rank() != rank,
            decreases intervals.len() - i,
        {
            if intervals[i].granularity() == rank {
                found = Some(intervals[i]);
                assert(intervals@[i as int] == intervals[i as int]);
            }
            i = i + 1;
        }
        let ghost before = sorted@;
        match found {
            Some(interval) => {
                sorted.push(interval);
                assert forall|other: CandleInterval| sorted@.contains(other) <==> (
                intervals@.contains(other) && other.rank() < rank + 1) by {
                    if before.contains(other) {
                        let j = choose|j: int| 0 <= j < before.len() && before[j] == other;
                        assert(sorted@[j] == other);
                    }
                    assert(sorted@[before.len() as int] == interval);
                    if other.rank() == rank {
                        assert(other == interval);
                    }
                }
            },
            None => {
                assert forall|other: CandleInterval| sorted@.contains(other) <==> (
                intervals@.contains(other) && other.rank() < rank + 1) by {
                    if intervals@.contains(other) && other.rank() == rank {
                        let j = choose|j: int| 0 <= j < intervals@.len() && intervals@[j] == other;
                        assert(intervals@[j].rank() != rank);
                    }
                }
            },
        }
        rank = rank + 1;
    }
    sorted
}

} // verus!
