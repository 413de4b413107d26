use candles::candle_interval::CandleInterval;
use candles::candle_pager::CandlePager;
use chrono::{DateTime, Duration, TimeZone, Utc};

fn millis(text: &str) -> i64 {
    Utc.timestamp_millis_opt(text.parse().unwrap()).unwrap().timestamp_millis()
}

#[test]
fn get_next_candle_id() {
    let mut pager = CandlePager::new(
        "test".to_string(),
        CandleInterval::Minute,
        Utc.with_ymd_and_hms(2000, 1, 1, 0, 0, 0).unwrap().timestamp_millis(),
        Utc.with_ymd_and_hms(2000, 1, 2, 0, 0, 0).unwrap().timestamp_millis(),
        None,
        2,
    );

    assert_eq!(pager.move_candle_id(), Some("0test946684800".to_string()));
    assert_eq!(1, pager.get_last_item_no());

    assert_eq!(pager.move_candle_id(), Some("0test946684860".to_string()));
    assert_eq!(2, pager.get_last_item_no());

    let id = pager.move_candle_id();
    assert_eq!(id, None);
}

#[test]
fn get_next_page_id() {
    let mut pager = CandlePager::new(
        "test".to_string(),
        CandleInterval::Minute,
        Utc.with_ymd_and_hms(2000, 1, 1, 0, 0, 0).unwrap().timestamp_millis(),
        Utc.with_ymd_and_hms(2000, 1, 2, 0, 0, 0).unwrap().timestamp_millis(),
        None,
        3,
    );

    assert_eq!(pager.get_next_page_id(), Some("946685040000".to_string()));
    pager.move_candle_id();
    assert_eq!(pager.get_next_page_id(), Some("946685040000".to_string()));
    pager.move_candle_id();
    pager.move_candle_id();
    assert_eq!(pager.get_next_page_id(), Some("946685040000".to_string()));
}

#[test]
fn get_page_candle_ids() {
    let pager = CandlePager::new(
        "BTCUSDT".to_string(),
        CandleInterval::Minute,
        Utc.with_ymd_and_hms(2000, 1, 1, 0, 0, 0).unwrap().timestamp_millis(),
        Utc.with_ymd_and_hms(2000, 1, 2, 0, 0, 0).unwrap().timestamp_millis(),
        None,
        5,
    );

    let ids = pager.get_page_candle_ids();

    assert_eq!(ids.len(), pager.get_limit());
}

#[test]
fn test_1() {
    let pager = CandlePager::new(
        "BTCUSDT".to_string(),
        CandleInterval::Hour,
        millis("1696547451000"),
        millis("1697627451000"),
        None,
        1500,
    );

    let ids = pager.get_page_candle_ids();

    assert_eq!(301, ids.len());
    assert_eq!(None, pager.get_next_page_id());
}

#[test]
fn test_2() {
    let pager = CandlePager::new(
        "BTCUSDT".to_string(),
        CandleInterval::FourHours,
        millis("1701275150000"),
        millis("1701275486000"),
        None,
        1500,
    );

    let ids = pager.get_page_candle_ids();
    assert_eq!(1, ids.len());
}

#[test]
fn test_4() {
    let from: DateTime<Utc> = Utc.with_ymd_and_hms(2023, 1, 1, 0, 0, 0).unwrap();
    let to: DateTime<Utc> = Utc.with_ymd_and_hms(2023, 12, 6, 0, 0, 0).unwrap();

    let pager = CandlePager::new(
        "BTCUSDT".to_string(),
        CandleInterval::Month,
        from.timestamp_millis(),
        to.timestamp_millis(),
        None,
        10000,
    );

    let ids = pager.get_page_candle_ids();
    assert_eq!(ids.len(), 12);
}

#[test]
fn test_5() {
    let from_date = millis("1697564165000");
    let to_date = millis("1701884165000");

    let mut pager = CandlePager::new(
        "BTCUSDT".to_string(),
        CandleInterval::FourHours,
        from_date,
        to_date,
        None,
        10000,
    );

    let ids = pager.get_page_candle_ids();
    let mut count = 0;

    while let Some(_) = pager.move_candle_id() {
        count += 1;
    }

    assert_eq!(ids.len(), count);
}

#[test]
fn test_6() {
    let to_date = Utc.timestamp_millis_opt("1702055569000".parse().unwrap()).unwrap();
    let from_date = to_date - Duration::minutes(5);

    let mut pager = CandlePager::new(
        "BTCUSDT".to_string(),
        CandleInterval::Minute,
        from_date.timestamp_millis(),
        to_date.timestamp_millis(),
        None,
        10000,
    );

    let ids = pager.get_page_candle_ids();
    let mut count = 0;
    let mut last_move_date = from_date;

    while let Some(id) = pager.move_candle_id() {
        count += 1;
        last_move_date = Utc
            .timestamp_millis_opt(id.replace("0BTCUSDT", "").parse::<i64>().unwrap() * 1000)
            .unwrap();
    }

    let last_get_date = Utc
        .timestamp_millis_opt(
            ids[ids.len() - 1].replace("0BTCUSDT", "").parse::<i64>().unwrap() * 1000,
        )
        .unwrap();

    assert_eq!(last_move_date, last_get_date);
    assert_eq!(ids.len(), count);
}

#[test]
fn test_7() {
    let to_date = Utc.timestamp_millis_opt("1702055569000".parse().unwrap()).unwrap();
    let from_date = to_date - Duration::minutes(60);

    let mut pager = CandlePager::new(
        "BTCUSDT".to_string(),
        CandleInterval::Minute,
        from_date.timestamp_millis(),
        to_date.timestamp_millis(),
        None,
        10000,
    );

    let ids = pager.get_page_candle_ids();
    let mut count = 0;
    let mut last_move_date = from_date;

    while let Some(id) = pager.move_candle_id() {
        count += 1;
        last_move_date = Utc
            .timestamp_millis_opt(id.replace("0BTCUSDT", "").parse::<i64>().unwrap() * 1000)
            .unwrap();
    }

    let last_get_date = Utc
        .timestamp_millis_opt(
            ids[ids.len() - 1].replace("0BTCUSDT", "").parse::<i64>().unwrap() * 1000,
        )
        .unwrap();

    assert_eq!(last_move_date, last_get_date);
    assert_eq!(ids.len(), count);
}

#[test]
fn pager_keeps_instrument_and_limit() {
    let pager = CandlePager::new(
        "ETHUSDT".to_string(),
        CandleInterval::Day,
        0,
        86_400_000,
        None,
        7,
    );
    assert_eq!(pager.get_instrument(), "ETHUSDT");
    assert_eq!(pager.get_limit(), 7);
    assert_eq!(pager.get_last_item_no(), 0);
}

#[test]
fn total_count_is_page_length_when_limit_allows() {
    let from = Utc.with_ymd_and_hms(2021, 3, 4, 5, 6, 7).unwrap().timestamp_millis();
    let to = Utc.with_ymd_and_hms(2021, 3, 9, 1, 0, 0).unwrap().timestamp_millis();
    for interval in [
        CandleInterval::Hour,
        CandleInterval::TwoHours,
        CandleInterval::Day,
        CandleInterval::ThreeDays,
        CandleInterval::SevenDays,
        CandleInterval::Month,
    ] {
        let pager = CandlePager::new("X".to_string(), interval, from, to, None, 100_000);
        let total = pager.total_bucket_count();
        assert_eq!(pager.get_page_candle_ids().len(), total);
    }
    let hours = CandlePager::new("X".to_string(), CandleInterval::Hour, from, to, None, 100_000);
    assert_eq!(hours.total_bucket_count(), 117);
    let tight = CandlePager::new("X".to_string(), CandleInterval::Hour, from, to, None, 117);
    assert_eq!(tight.get_page_candle_ids().len(), 117);
    assert_eq!(tight.get_next_page_id(), None);
}

#[test]
fn draining_gives_the_page() {
    let from = Utc.with_ymd_and_hms(2019, 11, 30, 23, 59, 59).unwrap().timestamp_millis();
    let to = Utc.with_ymd_and_hms(2020, 3, 1, 0, 0, 0).unwrap().timestamp_millis();
    for (interval, limit) in [
        (CandleInterval::Month, 3usize),
        (CandleInterval::Month, 100),
        (CandleInterval::Day, 10),
        (CandleInterval::Day, 1000),
        (CandleInterval::TwelveHours, 0),
        (CandleInterval::SevenDays, 50),
    ] {
        let mut pager = CandlePager::new("ABC".to_string(), interval, from, to, None, limit);
        let page = pager.get_page_candle_ids();
        let mut drained = Vec::new();
        while let Some(id) = pager.move_candle_id() {
            drained.push(id);
        }
        assert_eq!(page, drained);
    }
    let pager = CandlePager::new("ABC".to_string(), CandleInterval::Month, from, to, None, 100);
    assert_eq!(
        pager.get_page_candle_ids(),
        vec![
            "3ABC1572566400".to_string(),
            "3ABC1575158400".to_string(),
            "3ABC1577836800".to_string(),
            "3ABC1580515200".to_string(),
            "3ABC1583020800".to_string(),
        ]
    );
}

#[test]
fn move_page_id_moves_the_window() {
    let from = Utc.with_ymd_and_hms(2000, 1, 1, 0, 0, 0).unwrap().timestamp_millis();
    let to = Utc.with_ymd_and_hms(2000, 1, 1, 0, 10, 0).unwrap().timestamp_millis();
    let mut pager = CandlePager::new("p".to_string(), CandleInterval::Minute, from, to, None, 3);
    assert_eq!(pager.total_bucket_count(), 11);
    assert_eq!(pager.move_page_id(), Some("946685040000".to_string()));
    assert_eq!(pager.total_bucket_count(), 7);
    assert_eq!(
        pager.get_page_candle_ids(),
        vec!["0p946685040".to_string(), "0p946685100".to_string(), "0p946685160".to_string()]
    );
    assert_eq!(pager.move_page_id(), Some("946685280000".to_string()));
    assert_eq!(pager.move_page_id(), None);
    assert_eq!(pager.total_bucket_count(), 3);
}

#[test]
fn cursor_takes_precedence_on_every_step() {
    let from = Utc.with_ymd_and_hms(2000, 1, 1, 0, 0, 0).unwrap().timestamp_millis();
    let to = Utc.with_ymd_and_hms(2000, 1, 1, 1, 0, 0).unwrap().timestamp_millis();
    let mut pager = CandlePager::new(
        "c".to_string(),
        CandleInterval::Minute,
        from,
        to,
        Some("946685040000".to_string()),
        3,
    );
    assert_eq!(
        pager.get_page_candle_ids(),
        vec!["0c946685040".to_string(), "0c946685100".to_string(), "0c946685160".to_string()]
    );
    assert_eq!(pager.move_candle_id(), Some("0c946685040".to_string()));
    assert_eq!(pager.move_candle_id(), Some("0c946685040".to_string()));
    assert_eq!(pager.move_candle_id(), Some("0c946685040".to_string()));
    assert_eq!(pager.move_candle_id(), None);
}

#[test]
fn full_page_hands_out_nothing() {
    let mut pager = CandlePager::new("z".to_string(), CandleInterval::Hour, 0, 0, None, 1);
    assert_eq!(pager.move_candle_id(), Some("1z0".to_string()));
    assert_eq!(pager.move_candle_id(), None);
    assert!(pager.get_page_candle_ids().is_empty());
}
