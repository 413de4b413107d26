//! The bucket starts of one instant at many intervals.

use crate::candle_interval::{all_cover, all_cover_whole, CandleInterval};
use crate::hashed::{
    floor_table_get, floor_table_insert, floors_in, new_floor_table, FloorTable, Floors,
};
use vstd::prelude::*;

verus! {

/// Whether `floors` evicts a candle of `interval` that starts at `date`: it
/// does where it has a bucket start for the interval, and the candle starts
/// at or before it.
pub open spec fn evicted_by(interval: CandleInterval, date: int, floors: Floors) -> bool {
    floors.contains_key(interval) && date <= floors[interval]
}

/// Whether `floors` evicts a candle of `interval` that starts at `date`.
pub fn is_evicted(interval: CandleInterval, date: i64, floors: &FloorTable) -> (evicted: bool)
    ensures
        evicted == evicted_by(interval, date as int, floors_in(*floors)),
{
    match floor_table_get(floors, &interval) {
        Some(floor) => date <= floor,
        None => false,
    }
}

/// Whether the bucket of `interval` that holds `start` begins no later than
/// the bucket that holds `end` ends, where there is an `end`.
pub open spec fn starts_within(interval: CandleInterval, start: int, end: Option<int>) -> bool {
    match end {
        Some(e) => interval.start_of(start) <= interval.end_of(e),
        None => true,
    }
}

/// For each of `intervals`, the start of its bucket that holds `start`; with
/// an `end`, only for the intervals whose bucket begins no later than the
/// bucket of `end` ends.
pub open spec fn candle_dates(
    intervals: Seq<CandleInterval>,
    start: int,
    end: Option<int>,
) -> Floors {
    Map::new(
        |interval: CandleInterval|
            intervals.contains(interval) && starts_within(interval, start, end),
        |interval: CandleInterval| interval.start_of(start),
    )
}

/// The start of the bucket that holds `start_date`, for each of `intervals`.
pub fn calculate_candle_dates(
    intervals: &[CandleInterval],
    start_date: i64,
    end_date: Option<i64>,
) -> (dates: FloorTable)
    requires
        all_cover(intervals@, start_date as int),
        end_date matches Some(end) ==> all_cover_whole(intervals@, end as int),
    ensures
        floors_in(dates) == candle_dates(
            intervals@,
            start_date as int,
            match end_date {
                Some(end) => Some(end as int),
                None => None,
            },
        ),
{
    let ghost end: Option<int> = match end_date {
        Some(end) => Some(end as int),
        None => None,
    };
    let mut dates: FloorTable = new_floor_table(intervals.len());
    let mut i: usize = 0;
    assert(floors_in(dates) =~= candle_dates(intervals@.subrange(0, 0), start_date as int, end));
    while i < intervals.len()
        invariant
            i <= intervals.len(),
            all_cover(intervals@, start_date as int),
            end_date matches Some(end) ==> all_cover_whole(intervals@, end as int),
            end == match end_date {
                Some(end) => Some(end as int),
                None => None,
            },
            floors_in(dates) == candle_dates(
                intervals@.subrange(0, i as int),
                start_date as int,
                end,
            ),
        decreases intervals.len() - i,
    {
        let interval: CandleInterval = intervals[i];
        let interval_start_date: i64 = interval.get_start_date(start_date);
        let within: bool = match end_date {
            Some(end_date) => interval_start_date <= interval.get_end_date(end_date),
            None => true,
        };
        let ghost before = intervals@.subrange(0, i as int);
        let ghost after = intervals@.subrange(0, i + 1);
        assert(after =~= before.push(interval));
        assert forall|other: CandleInterval| after.contains(other) <==> (before.contains(other)
            || other == interval) by {
            if before.contains(other) {
                let j = choose|j: int| 0 <= j < before.len() && before[j] == other;
                assert(after[j] == other);
            }
            assert(after[i as int] == interval);
        }
        if within {
            floor_table_insert(&mut dates, interval, interval_start_date);
        }
        assert(floors_in(dates) =~= candle_dates(after, start_date as int, end));
        i = i + 1;
    }
    assert(intervals@.subrange(0, i as int) =~= intervals@);
    dates
}

} // verus!
