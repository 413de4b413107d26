use candles::bid_ask_candle::{BidAskCandle, BidAskCandleData};
use candles::bid_ask_candles_cache::BidAskCandlesCache;
use candles::candle_interval::CandleInterval;
use chrono::{TimeZone, Utc};

fn moment(y: i32, mo: u32, d: u32, h: u32, mi: u32, s: u32) -> i64 {
    Utc.with_ymd_and_hms(y, mo, d, h, mi, s).unwrap().timestamp_millis()
}

#[test]
fn price_data_takes_prices_and_adds_volume() {
    let mut data = BidAskCandleData::new(10, 100, 5);
    assert_eq!(
        (data.open, data.close, data.high, data.low, data.datetime, data.volume),
        (100, 100, 100, 100, 10, 5)
    );
    data.update(20, 90, 3);
    data.update(30, 110, 4);
    data.update(40, 95, 0);
    assert_eq!(
        (data.open, data.close, data.high, data.low, data.datetime, data.volume),
        (100, 95, 110, 90, 40, 12)
    );
    assert_eq!(data.get_candle_date(CandleInterval::Minute), 0);
}

#[test]
fn price_data_treats_zero_as_not_set() {
    let mut data = BidAskCandleData::new(0, 0, 0);
    data.update(1, 8, 2);
    assert_eq!((data.open, data.close, data.high, data.low, data.volume), (8, 8, 8, 8, 2));
}

#[test]
fn volume_stops_at_the_largest_number() {
    let mut data = BidAskCandleData::new(0, 1, i64::MAX - 1);
    data.update(1, 1, 5);
    assert_eq!(data.volume, i64::MAX);
    let mut negative = BidAskCandleData::new(0, 1, i64::MIN + 1);
    negative.update(1, 1, -5);
    assert_eq!(negative.volume, i64::MIN);
}

#[test]
fn candle_updates_both_sides() {
    let date = moment(2020, 2, 2, 2, 2, 2);
    let mut candle = BidAskCandle {
        index: CandleInterval::Hour,
        date,
        instrument: "EURUSD".to_string(),
        bid_data: BidAskCandleData::new(date, 10, 1),
        ask_data: BidAskCandleData::new(date, 12, 2),
    };
    candle.update(date + 1, 9, 13, 3, 4);
    assert_eq!((candle.bid_data.low, candle.bid_data.close, candle.bid_data.volume), (9, 9, 4));
    assert_eq!((candle.ask_data.high, candle.ask_data.close, candle.ask_data.volume), (13, 13, 6));
    assert_eq!(candle.get_id(), "1EURUSD1580608800");
    assert_eq!(candle.clone().instrument, "EURUSD");
}

#[test]
fn price_cache_sorts_and_dedups_intervals() {
    let cache = BidAskCandlesCache::new(vec![
        CandleInterval::Infinity,
        CandleInterval::SevenDays,
        CandleInterval::Minute,
        CandleInterval::SevenDays,
    ]);
    assert_eq!(
        cache.intervals,
        vec![CandleInterval::Minute, CandleInterval::SevenDays, CandleInterval::Infinity]
    );
    assert!(cache.is_empty());
    assert_eq!(cache.len(), 0);
    assert!(cache.get_all().is_empty());
    assert!(cache.get_after(0).is_none());
}

#[test]
fn insert_keeps_the_candle_under_its_id() {
    let mut cache = BidAskCandlesCache::new(vec![CandleInterval::Minute]);
    let date = moment(2000, 1, 1, 0, 0, 0);
    let candle = BidAskCandle {
        index: CandleInterval::Minute,
        date,
        instrument: "BTCUSDT".to_string(),
        bid_data: BidAskCandleData::new(date, 1, 1),
        ask_data: BidAskCandleData::new(date, 2, 1),
    };
    cache.insert(candle);
    assert_eq!(cache.len(), 1);
    assert!(cache.contains("0BTCUSDT946684800"));
    assert!(!cache.contains("0BTCUSDT946684860"));
    assert_eq!(cache.get("0BTCUSDT946684800").unwrap().ask_data.close, 2);
    assert!(cache.get("1BTCUSDT946684800").is_none());
    assert_eq!(cache.last_update_date, None);
}

#[test]
fn a_quote_goes_into_one_candle_for_each_interval() {
    let mut cache = BidAskCandlesCache::new(vec![CandleInterval::Minute, CandleInterval::Day]);
    let first = moment(2000, 1, 1, 0, 0, 10);
    let second = moment(2000, 1, 1, 0, 1, 20);

    cache.insert_or_update_at(first, "BTCUSDT", 100, 101, 1, 2, 55);
    cache.insert_or_update(second, "BTCUSDT", 98, 103, 3, 4);

    assert_eq!(cache.len(), 3);
    assert!(cache.last_update_date.unwrap() > 1_577_836_800_000);
    let day = cache.get("2BTCUSDT946684800").unwrap();
    assert_eq!(day.index, CandleInterval::Day);
    assert_eq!(day.date, 946684800000);
    assert_eq!(day.instrument, "BTCUSDT");
    assert_eq!(
        (day.bid_data.open, day.bid_data.close, day.bid_data.high, day.bid_data.low),
        (100, 98, 100, 98)
    );
    assert_eq!((day.bid_data.volume, day.bid_data.datetime), (4, second));
    assert_eq!(
        (day.ask_data.open, day.ask_data.close, day.ask_data.high, day.ask_data.low),
        (101, 103, 103, 101)
    );
    assert_eq!(day.ask_data.volume, 6);
    let minute = cache.get("0BTCUSDT946684800").unwrap();
    assert_eq!((minute.bid_data.close, minute.bid_data.volume), (100, 1));
    assert_eq!(cache.get("0BTCUSDT946684860").unwrap().bid_data.open, 98);
}

fn filled() -> BidAskCandlesCache {
    let mut cache = BidAskCandlesCache::new(vec![CandleInterval::Hour, CandleInterval::Day]);
    for day in 1..4 {
        for hour in 0..3 {
            cache.insert_or_update_at(moment(2022, 6, day, hour, 10, 0), "X", 1, 2, 1, 1, 0);
        }
    }
    cache
}

fn ids_after(cache: &BidAskCandlesCache, date: i64) -> Vec<String> {
    let mut ids: Vec<String> = cache
        .get_after(date)
        .map(|found| found.iter().map(|c| c.get_id()).collect())
        .unwrap_or_default();
    ids.sort();
    ids
}

#[test]
fn price_get_after_uses_the_bucket_start_of_each_interval() {
    let cache = filled();
    assert_eq!(cache.len(), 12);
    let ids = ids_after(&cache, moment(2022, 6, 3, 1, 59, 59));
    assert_eq!(
        ids,
        vec!["1X1654218000".to_string(), "1X1654221600".to_string(), "2X1654214400".to_string()]
    );
}

#[test]
fn price_remove_before_counts_what_it_drops() {
    let date = moment(2022, 6, 3, 1, 59, 59);
    let mut cache = filled();
    assert_eq!(cache.remove_before(date, Some(CandleInterval::Hour)), 8);
    assert_eq!(cache.len(), 4);
    assert!(cache.contains("1X1654221600"));
    assert!(!cache.contains("1X1654218000"));
    assert!(cache.contains("2X1654041600"));

    let mut all = filled();
    assert_eq!(all.remove_before(date, None), 11);
    assert_eq!(ids_after(&all, date), vec!["1X1654221600".to_string()]);
    assert_eq!(all.remove_before(date, None), 0);
}
