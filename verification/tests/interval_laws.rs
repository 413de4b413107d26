use candles::candle_interval::{sorted_unique, CandleInterval};
use chrono::{DateTime, Datelike, Months, TimeZone, Utc};

const ALL: [CandleInterval; 16] = [
    CandleInterval::Minute,
    CandleInterval::ThreeMinutes,
    CandleInterval::FiveMinutes,
    CandleInterval::FifteenMinutes,
    CandleInterval::ThirtyMinutes,
    CandleInterval::Hour,
    CandleInterval::TwoHours,
    CandleInterval::FourHours,
    CandleInterval::SixHours,
    CandleInterval::EightHours,
    CandleInterval::TwelveHours,
    CandleInterval::Day,
    CandleInterval::ThreeDays,
    CandleInterval::SevenDays,
    CandleInterval::Month,
    CandleInterval::Infinity,
];

const SAMPLES: [i64; 12] = [
    0,
    1,
    59_999,
    60_000,
    946_684_800_000,
    951_782_399_999,
    1_702_055_569_123,
    4_107_542_400_000,
    253_402_300_799_999,
    -1,
    -2_208_988_800_001,
    -62_167_219_200_000,
];

#[test]
fn discriminants_are_fixed() {
    let codes: Vec<u8> = ALL.iter().map(|i| i.discriminant()).collect();
    assert_eq!(codes, vec![0, 4, 5, 6, 7, 1, 8, 9, 10, 11, 12, 2, 13, 14, 3, 15]);
    for interval in ALL {
        assert_eq!(CandleInterval::from_discriminant(interval.discriminant()), Some(interval));
    }
    assert_eq!(CandleInterval::from_discriminant(16), None);
    assert_eq!(CandleInterval::from_discriminant(255), None);
}

#[test]
fn granularity_orders_the_intervals() {
    let ranks: Vec<u8> = ALL.iter().map(|i| i.granularity()).collect();
    assert_eq!(ranks, (0..16).collect::<Vec<u8>>());
    let mut shuffled = vec![ALL[9], ALL[2], ALL[15], ALL[2], ALL[0], ALL[14], ALL[9]];
    assert_eq!(sorted_unique(&shuffled), vec![ALL[0], ALL[2], ALL[9], ALL[14], ALL[15]]);
    shuffled.sort();
    shuffled.dedup();
    assert_eq!(sorted_unique(&shuffled), shuffled);
    assert!(sorted_unique(&vec![]).is_empty());
}

#[test]
fn fixed_periods() {
    let minutes = [1, 3, 5, 15, 30, 60, 120, 240, 360, 480, 720, 1440, 4320, 10080];
    for (interval, m) in ALL.iter().zip(minutes) {
        assert_eq!(interval.fixed_period(), Some(m * 60_000));
        assert_eq!(interval.get_duration(0), m * 60_000);
    }
    assert_eq!(CandleInterval::Month.fixed_period(), None);
    assert_eq!(CandleInterval::Infinity.fixed_period(), None);
    assert_eq!(CandleInterval::Infinity.get_duration(12345), i64::MAX);
}

#[test]
fn flooring_twice_is_flooring_once() {
    for interval in ALL {
        for t in SAMPLES {
            let start = interval.get_start_date(t);
            assert_eq!(interval.get_start_date(start), start, "{:?} {}", interval, t);
        }
    }
}

#[test]
fn a_bucket_holds_its_instants() {
    for interval in ALL {
        if interval == CandleInterval::Infinity {
            continue;
        }
        for t in SAMPLES {
            let start = interval.get_start_date(t);
            assert!(start <= t, "{:?} {}", interval, t);
            assert!(t < start + interval.get_duration(start), "{:?} {}", interval, t);
            assert_eq!(interval.get_end_date(t), start + interval.get_duration(start));
        }
    }
    for t in [0, 1, 946_684_800_000, 253_402_300_799_999] {
        assert_eq!(CandleInterval::Infinity.get_start_date(t), 0);
    }
    assert_eq!(CandleInterval::Infinity.get_start_date(-5), 0);
}

#[test]
fn starts_are_exact() {
    let t = 1_702_055_569_123;
    assert_eq!(CandleInterval::Minute.get_start_date(t), 1_702_055_520_000);
    assert_eq!(CandleInterval::FifteenMinutes.get_start_date(t), 1_702_055_700_000 - 900_000);
    assert_eq!(CandleInterval::Hour.get_start_date(t), 1_702_054_800_000);
    assert_eq!(CandleInterval::Day.get_start_date(t), 1_701_993_600_000);
    assert_eq!(CandleInterval::ThreeDays.get_start_date(t), 1_701_907_200_000);
    assert_eq!(CandleInterval::SevenDays.get_start_date(t), 1_701_907_200_000);
    assert_eq!(CandleInterval::Month.get_start_date(t), 1_701_388_800_000);
    assert_eq!(CandleInterval::Minute.get_start_date(-1), -60_000);
    assert_eq!(CandleInterval::Day.get_start_date(-1), -86_400_000);
    assert_eq!(CandleInterval::Month.get_start_date(-1), -2_678_400_000);
}

#[test]
fn month_buckets_follow_the_calendar() {
    for t in SAMPLES {
        let date: DateTime<Utc> = DateTime::from_timestamp_millis(t).unwrap();
        let first = Utc.with_ymd_and_hms(date.year(), date.month(), 1, 0, 0, 0).unwrap();
        let next = first + Months::new(1);
        assert_eq!(CandleInterval::Month.get_start_date(t), first.timestamp_millis());
        assert_eq!(CandleInterval::Month.get_end_date(t), next.timestamp_millis());
        assert_eq!(
            CandleInterval::Month.get_duration(t),
            next.timestamp_millis() - first.timestamp_millis()
        );
    }
}

#[test]
fn months_have_their_days() {
    let day = 86_400_000;
    let days = |y: i32, m: u32| {
        let t = Utc.with_ymd_and_hms(y, m, 15, 12, 0, 0).unwrap().timestamp_millis();
        CandleInterval::Month.get_duration(t) / day
    };
    assert_eq!(
        (1..=12).map(|m| days(2023, m)).collect::<Vec<i64>>(),
        vec![31, 28, 31, 30, 31, 30, 31, 31, 30, 31, 30, 31]
    );
    assert_eq!(days(2024, 2), 29);
    assert_eq!(days(2000, 2), 29);
    assert_eq!(days(1900, 2), 28);
    assert_eq!(days(2100, 2), 28);
    assert_eq!(days(0, 2), 29);
    assert_eq!(days(-1, 2), 28);
    assert_eq!(days(-4, 2), 29);
    assert_eq!(days(-100, 2), 28);
}

#[test]
fn the_calendar_reaches_far() {
    for (y, m) in [(-262_143, 1), (-100_000, 7), (-1, 12), (1, 1), (1969, 12), (100_000, 2), (262_142, 11)] {
        let first = Utc.with_ymd_and_hms(y, m, 1, 0, 0, 0).unwrap().timestamp_millis();
        assert_eq!(CandleInterval::Month.get_start_date(first + 86_400_000 * 20 + 5), first);
        assert_eq!(CandleInterval::Month.get_start_date(first), first);
    }
    let last = Utc.with_ymd_and_hms(262_142, 12, 1, 0, 0, 0).unwrap().timestamp_millis();
    assert_eq!(CandleInterval::Month.get_start_date(8_210_266_876_799_999), last);
    assert_eq!(CandleInterval::Month.get_start_date(-8_334_601_228_800_000), -8_334_601_228_800_000);
}

#[test]
fn the_count_is_the_number_of_starts() {
    let from = Utc.with_ymd_and_hms(2019, 12, 30, 22, 58, 1).unwrap().timestamp_millis();
    let to = Utc.with_ymd_and_hms(2020, 1, 2, 1, 2, 3).unwrap().timestamp_millis();
    for interval in ALL {
        if interval == CandleInterval::Infinity {
            continue;
        }
        for (a, b) in [(from, to), (from, from), (to, to), (-to, 250_000_000 - to), (-5, 5)] {
            let count = interval.get_dates_count(a, b);
            let starts = interval.get_start_dates(a, b);
            assert_eq!(count, starts.len(), "{:?}", interval);
            assert!(starts.contains(&interval.get_start_date(a)));
            assert!(starts.contains(&interval.get_start_date(b)));
            assert!(starts.iter().all(|s| interval.get_start_date(*s) == *s));
        }
    }
    assert_eq!(CandleInterval::Hour.get_dates_count(from, to), 52);
    assert_eq!(CandleInterval::Day.get_dates_count(from, to), 4);
    assert_eq!(CandleInterval::Month.get_dates_count(from, to), 2);
    assert_eq!(CandleInterval::Minute.get_dates_count(from, from), 1);
}

#[test]
fn starts_of_a_backward_range_hold_the_first_only() {
    let from = Utc.with_ymd_and_hms(2020, 1, 2, 1, 2, 3).unwrap().timestamp_millis();
    let to = Utc.with_ymd_and_hms(2019, 12, 30, 22, 58, 1).unwrap().timestamp_millis();
    let starts = CandleInterval::Hour.get_start_dates(from, to);
    assert_eq!(starts.len(), 1);
    assert!(starts.contains(&CandleInterval::Hour.get_start_date(from)));
    let forever = CandleInterval::Infinity.get_start_dates(to, from);
    assert_eq!(forever.len(), 1);
    assert!(forever.contains(&0));
}
