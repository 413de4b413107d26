use ahash::AHashSet;
use candles::candle_interval::CandleInterval;
use chrono::{DateTime, Datelike, Duration, TimeZone, Timelike, Utc};

fn at(millis: i64) -> DateTime<Utc> {
    DateTime::from_timestamp_millis(millis).unwrap()
}

#[test]
fn count_minute() {
    let candle_type = CandleInterval::Minute;
    let duration = Duration::minutes(15);
    let from: DateTime<Utc> = Utc.with_ymd_and_hms(2000, 1, 1, 0, 0, 0).unwrap();
    let to: DateTime<Utc> = from + duration - Duration::seconds(1);

    let count = candle_type.get_dates_count(from.timestamp_millis(), to.timestamp_millis());

    assert_eq!(count, duration.num_minutes() as usize);
}

#[test]
fn count_hour() {
    let candle_type = CandleInterval::Hour;
    let duration = Duration::hours(15);
    let from: DateTime<Utc> = Utc.with_ymd_and_hms(2000, 1, 1, 0, 0, 0).unwrap();
    let to: DateTime<Utc> = from + duration - Duration::seconds(1);

    let count = candle_type.get_dates_count(from.timestamp_millis(), to.timestamp_millis());

    assert_eq!(count, duration.num_hours() as usize);
}

#[test]
fn count_day() {
    let candle_type = CandleInterval::Day;
    let duration = Duration::days(15);
    let from: DateTime<Utc> = Utc.with_ymd_and_hms(2000, 1, 1, 0, 0, 0).unwrap();
    let to: DateTime<Utc> = from + duration - Duration::seconds(1);

    let count = candle_type.get_dates_count(from.timestamp_millis(), to.timestamp_millis());

    assert_eq!(count, duration.num_days() as usize);
}

#[test]
fn count_month() {
    let candle_type = CandleInterval::Month;
    let num_months = 12;
    let from: DateTime<Utc> = Utc.with_ymd_and_hms(2000, 1, 1, 0, 0, 0).unwrap();
    let to: DateTime<Utc> = Utc.with_ymd_and_hms(2000, num_months, 1, 0, 0, 0).unwrap();

    let count = candle_type.get_dates_count(from.timestamp_millis(), to.timestamp_millis());

    assert_eq!(count, num_months as usize);
}

#[test]
fn get_date_for_minute() {
    let candle_type = CandleInterval::Minute;
    let src_date: DateTime<Utc> = Utc.with_ymd_and_hms(2000, 1, 1, 1, 1, 34).unwrap();

    let start_date = at(candle_type.get_start_date(src_date.timestamp_millis()));

    assert_eq!(start_date.year(), src_date.year());
    assert_eq!(start_date.month(), src_date.month());
    assert_eq!(start_date.day(), src_date.day());
    assert_eq!(start_date.hour(), src_date.hour());
    assert_eq!(start_date.hour(), src_date.hour());
    assert_eq!(start_date.minute(), src_date.minute());
    assert_eq!(start_date.second(), 0);
}

#[test]
fn get_date_for_hour() {
    let candle_type = CandleInterval::Hour;
    let src_date: DateTime<Utc> = Utc.with_ymd_and_hms(2000, 1, 1, 1, 23, 34).unwrap();

    let start_date = at(candle_type.get_start_date(src_date.timestamp_millis()));

    assert_eq!(start_date.year(), src_date.year());
    assert_eq!(start_date.month(), src_date.month());
    assert_eq!(start_date.day(), src_date.day());
    assert_eq!(start_date.hour(), src_date.hour());
    assert_eq!(start_date.minute(), 0);
    assert_eq!(start_date.second(), 0);
}

#[test]
fn get_date_for_day() {
    let candle_type = CandleInterval::Day;
    let src_date: DateTime<Utc> = Utc.with_ymd_and_hms(2000, 1, 1, 3, 23, 34).unwrap();

    let start_date = at(candle_type.get_start_date(src_date.timestamp_millis()));

    assert_eq!(start_date.year(), src_date.year());
    assert_eq!(start_date.month(), src_date.month());
    assert_eq!(start_date.day(), src_date.day());
    assert_eq!(start_date.hour(), 0);
    assert_eq!(start_date.minute(), 0);
    assert_eq!(start_date.second(), 0);
}

#[test]
fn get_start_date_for_month() {
    let candle_type = CandleInterval::Month;
    let src_date: DateTime<Utc> = Utc.with_ymd_and_hms(2000, 1, 12, 3, 23, 34).unwrap();

    let start_date = at(candle_type.get_start_date(src_date.timestamp_millis()));

    assert_eq!(start_date.year(), src_date.year());
    assert_eq!(start_date.month(), src_date.month());
    assert_eq!(start_date.day(), 1);
    assert_eq!(start_date.hour(), 0);
    assert_eq!(start_date.minute(), 0);
    assert_eq!(start_date.second(), 0);
}

#[test]
fn get_end_date_for_month() {
    let candle_type = CandleInterval::Month;
    let src_date: DateTime<Utc> = Utc.with_ymd_and_hms(2000, 12, 12, 3, 23, 34).unwrap();

    let end_date = at(candle_type.get_end_date(src_date.timestamp_millis()));

    assert_eq!(end_date.year(), src_date.year() + 1);
    assert_eq!(end_date.month(), 1);
    assert_eq!(end_date.day(), 1);
    assert_eq!(end_date.hour(), 0);
    assert_eq!(end_date.minute(), 0);
    assert_eq!(end_date.second(), 0);
}

#[test]
fn get_start_dates_for_minute() {
    let duration = Duration::minutes(15);
    let from: i64 = Utc.with_ymd_and_hms(2000, 1, 1, 0, 0, 0).unwrap().timestamp_millis();
    let to: i64 = from + duration.num_milliseconds();
    let candle_type = CandleInterval::Minute;

    let dates = candle_type.get_start_dates(from, to);
    let dates: AHashSet<i64> = dates.into_iter().collect();

    assert!(dates.contains(&candle_type.get_start_date(from)));
    assert!(dates.contains(&candle_type.get_start_date(to)));
    assert_eq!(dates.len(), (duration.num_minutes() + 1) as usize);

    for _ in 0..duration.num_minutes() {
        let date = candle_type.get_start_date(from) + candle_type.get_duration(from);
        assert!(dates.contains(&date));
    }
}

#[test]
fn get_start_dates_for_hour() {
    let duration = Duration::hours(15);
    let from: i64 = Utc.with_ymd_and_hms(2000, 1, 1, 0, 0, 0).unwrap().timestamp_millis();
    let to: i64 = from + duration.num_milliseconds();
    let candle_type = CandleInterval::Hour;

    let dates = candle_type.get_start_dates(from, to);
    let dates: AHashSet<i64> = dates.into_iter().collect();

    assert!(dates.contains(&candle_type.get_start_date(from)));
    assert!(dates.contains(&candle_type.get_start_date(to)));
    assert_eq!(dates.len(), (duration.num_hours() + 1) as usize);

    for _ in 0..duration.num_hours() {
        let date = candle_type.get_start_date(from) + candle_type.get_duration(from);
        assert!(dates.contains(&date));
    }
}

#[test]
fn get_start_dates_for_day() {
    let duration = Duration::days(15);
    let from: i64 = Utc.with_ymd_and_hms(2000, 1, 1, 0, 0, 0).unwrap().timestamp_millis();
    let to: i64 = from + duration.num_milliseconds();
    let candle_type = CandleInterval::Day;

    let dates = candle_type.get_start_dates(from, to);
    let dates: AHashSet<i64> = dates.into_iter().collect();

    assert!(dates.contains(&candle_type.get_start_date(from)));
    assert!(dates.contains(&candle_type.get_start_date(to)));
    assert_eq!(dates.len(), (duration.num_days() + 1) as usize);

    for _ in 0..duration.num_days() {
        let date = candle_type.get_start_date(from) + candle_type.get_duration(from);
        assert!(dates.contains(&date));
    }
}

#[test]
fn get_start_dates_for_month() {
    let num_months = 12;
    let from: i64 = Utc.with_ymd_and_hms(2000, 1, 1, 0, 0, 0).unwrap().timestamp_millis();
    let to: i64 = Utc.with_ymd_and_hms(2000, num_months, 1, 0, 0, 0).unwrap().timestamp_millis();
    let candle_type = CandleInterval::Month;

    let dates = candle_type.get_start_dates(from, to);
    let dates: AHashSet<i64> = dates.into_iter().collect();

    assert!(dates.contains(&candle_type.get_start_date(from)));
    assert!(dates.contains(&candle_type.get_start_date(to)));
    assert_eq!(dates.len(), num_months as usize);

    for _ in 0..num_months {
        let date = candle_type.get_start_date(from) + candle_type.get_duration(from);
        assert!(dates.contains(&date));
    }
}
