use candles::candle_interval::CandleInterval;
use candles::utils::{calculate_candle_dates, is_evicted};
use chrono::{DateTime, TimeZone, Utc};

#[test]
fn calculate_candle_dates_1() {
    let intervals = [
        CandleInterval::Minute,
        CandleInterval::ThreeMinutes,
        CandleInterval::FiveMinutes,
        CandleInterval::FifteenMinutes,
        CandleInterval::ThirtyMinutes,
        CandleInterval::Hour,
        CandleInterval::TwoHours,
        CandleInterval::FourHours,
        CandleInterval::SixHours,
        CandleInterval::EightHours,
        CandleInterval::TwelveHours,
        CandleInterval::Day,
        CandleInterval::ThreeDays,
        CandleInterval::SevenDays,
        CandleInterval::Month,
    ];
    let initial_date: DateTime<Utc> = Utc.with_ymd_and_hms(2000, 1, 1, 0, 0, 0).unwrap();
    let dates = calculate_candle_dates(&intervals, initial_date.timestamp_millis(), None);

    assert_eq!(intervals.len(), dates.len());

    for candle_type in intervals.iter() {
        let date = dates.get(candle_type);
        assert_eq!(date, Some(&candle_type.get_start_date(initial_date.timestamp_millis())))
    }
}

#[test]
fn dates_with_an_end_keep_the_intervals_that_start_in_time() {
    let intervals = [CandleInterval::Minute, CandleInterval::Day];
    let start = Utc.with_ymd_and_hms(2000, 1, 1, 12, 0, 30).unwrap().timestamp_millis();
    let end = Utc.with_ymd_and_hms(2000, 1, 1, 6, 0, 0).unwrap().timestamp_millis();

    let dates = calculate_candle_dates(&intervals, start, Some(end));

    assert_eq!(dates.len(), 1);
    assert_eq!(dates.get(&CandleInterval::Day), Some(&946_684_800_000));
    assert_eq!(dates.get(&CandleInterval::Minute), None);
    let later = calculate_candle_dates(&intervals, start, Some(start));
    assert_eq!(later.len(), 2);
    assert_eq!(later.get(&CandleInterval::Minute), Some(&946_728_000_000));
}

#[test]
fn eviction_goes_by_the_bucket_start_of_the_interval() {
    let intervals = [CandleInterval::Hour];
    let dates = calculate_candle_dates(&intervals, 7_200_000, None);
    assert!(is_evicted(CandleInterval::Hour, 7_200_000, &dates));
    assert!(is_evicted(CandleInterval::Hour, 3_600_000, &dates));
    assert!(!is_evicted(CandleInterval::Hour, 10_800_000, &dates));
    assert!(!is_evicted(CandleInterval::Day, 0, &dates));
}
