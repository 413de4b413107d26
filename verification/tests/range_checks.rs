use candles::account_candle::{AccountCandle, AccountData};
use candles::account_candles_cache::AccountCandlesCache;
use candles::bid_ask_candle::{BidAskCandle, BidAskCandleData};
use candles::bid_ask_candles_cache::BidAskCandlesCache;
use candles::calendar::{MAX_INSTANT, MIN_INSTANT};
use candles::candle_index::CandleIndex;
use candles::candle_interval::CandleInterval;
use candles::candle_pager::{fits_length, CandlePager};

const DAY: i64 = 86_400_000;

#[test]
fn every_instant_is_covered_but_at_the_edges() {
    for t in [MIN_INSTANT, MIN_INSTANT + 1, -1, 0, 1, MAX_INSTANT - 1, MAX_INSTANT] {
        for interval in [
            CandleInterval::Minute,
            CandleInterval::Hour,
            CandleInterval::Day,
            CandleInterval::Month,
            CandleInterval::Infinity,
        ] {
            assert!(interval.covers_date(t), "{:?} {}", interval, t);
        }
    }
    assert!(!CandleInterval::Minute.covers_date(MIN_INSTANT - 1));
    assert!(!CandleInterval::Month.covers_date(MAX_INSTANT + 1));
    assert!(!CandleInterval::Infinity.covers_date(i64::MAX));
    assert!(!CandleInterval::Infinity.covers_date(i64::MIN));
    assert!(!CandleInterval::ThreeDays.covers_date(MIN_INSTANT));
    assert!(!CandleInterval::ThreeDays.covers_date(MIN_INSTANT + DAY - 1));
    assert!(CandleInterval::ThreeDays.covers_date(MIN_INSTANT + DAY));
    assert_eq!(CandleInterval::ThreeDays.get_start_date(MIN_INSTANT + 3 * DAY), MIN_INSTANT + DAY);
    assert!(CandleInterval::SevenDays.covers_date(MIN_INSTANT));
    assert_eq!(CandleInterval::SevenDays.get_start_date(MIN_INSTANT + 6 * DAY), MIN_INSTANT);
}

#[test]
fn whole_buckets_end_before_the_last_instant() {
    assert!(CandleInterval::Minute.covers_whole_date(0));
    assert!(CandleInterval::Minute.covers_whole_date(MAX_INSTANT - 60_000));
    assert!(!CandleInterval::Minute.covers_whole_date(MAX_INSTANT));
    assert!(!CandleInterval::Day.covers_whole_date(MAX_INSTANT - DAY + 1));
    assert!(CandleInterval::Day.covers_whole_date(MAX_INSTANT - DAY));
    assert!(CandleInterval::Month.covers_whole_date(MAX_INSTANT - 31 * DAY));
    assert_eq!(CandleInterval::Month.get_end_date(MAX_INSTANT - 31 * DAY), MAX_INSTANT - 31 * DAY + 1);
    assert!(!CandleInterval::Month.covers_whole_date(MAX_INSTANT - 31 * DAY + 1));
    assert!(!CandleInterval::Month.covers_whole_date(MAX_INSTANT));
    assert!(!CandleInterval::Infinity.covers_whole_date(0));
    assert!(!CandleInterval::Hour.covers_whole_date(MAX_INSTANT + 1));
}

#[test]
fn counts_may_run_backwards() {
    assert_eq!(CandleInterval::Minute.count_dates(0, 0), 1);
    assert_eq!(CandleInterval::Minute.count_dates(60_000, 0), 0);
    assert_eq!(CandleInterval::Minute.count_dates(600_000, 0), -9);
    assert_eq!(CandleInterval::Minute.count_dates(-60_001, 59_999), 3);
    assert_eq!(CandleInterval::Month.count_dates(0, 0), 1);
    assert_eq!(CandleInterval::Month.count_dates(366 * DAY, 0), -11);
    assert_eq!(CandleInterval::Month.count_dates(-1, 31 * DAY), 3);
    assert!(fits_length(0));
    assert!(fits_length(12));
    assert!(!fits_length(-1));
    assert_eq!(fits_length(i64::MAX), usize::MAX as u128 >= i64::MAX as u128);
}

#[test]
fn try_new_makes_a_pager_where_new_can() {
    let made = |interval, from, to, page_id: Option<&str>| {
        CandlePager::try_new("x".to_string(), interval, from, to, page_id.map(str::to_string), 4)
    };
    let pager = made(CandleInterval::Hour, 3_600_001, 7_300_000, None).unwrap();
    assert_eq!(pager.get_page_candle_ids(), vec!["1x3600".to_string(), "1x7200".to_string()]);
    assert_eq!(pager.get_limit(), 4);
    assert!(made(CandleInterval::Hour, 0, 0, None).is_some());
    assert!(made(CandleInterval::Hour, 3_599_999, 0, None).is_some());
    assert!(made(CandleInterval::Hour, 3_600_000, 0, None).is_none());
    assert!(made(CandleInterval::Hour, MIN_INSTANT - 1, 0, None).is_none());
    assert!(made(CandleInterval::Hour, 0, MAX_INSTANT + 1, None).is_none());
    assert!(made(CandleInterval::Hour, 0, 0, Some("3600000")).is_some());
    assert!(made(CandleInterval::Hour, 0, 0, Some("")).is_none());
    assert!(made(CandleInterval::Hour, 0, 0, Some("12x")).is_none());
    assert!(made(CandleInterval::Hour, 0, 0, Some("9223372036854775807")).is_none());
    assert!(made(CandleInterval::Infinity, -5, 5, None).is_some());
}

#[test]
fn pager_says_what_it_can_do() {
    let pager = CandlePager::new("x".to_string(), CandleInterval::Day, 0, 5 * DAY, None, 3);
    assert!(pager.can_count() && pager.can_turn_page() && pager.can_step() && pager.can_list_page());

    let forever = CandlePager::new("x".to_string(), CandleInterval::Infinity, 0, 5, None, 3);
    assert!(!forever.can_count());
    assert!(!forever.can_turn_page());
    assert!(!forever.can_step());
    assert!(!forever.can_list_page());
    let empty = CandlePager::new("x".to_string(), CandleInterval::Infinity, 0, 5, None, 0);
    assert!(empty.can_step() && empty.can_list_page());
    assert!(!empty.can_count());

    let last_day = MAX_INSTANT - DAY + 1;
    let late = CandlePager::new("x".to_string(), CandleInterval::Day, last_day - DAY, last_day - DAY, None, 3);
    assert!(late.can_count() && late.can_turn_page() && late.can_step());
    assert!(!late.can_list_page());
    let latest = CandlePager::new("x".to_string(), CandleInterval::Day, last_day, last_day, None, 3);
    assert!(!latest.can_count() && !latest.can_step() && !latest.can_list_page());
}

#[test]
fn caches_say_what_they_cover_and_follow() {
    let mut accounts = AccountCandlesCache::new(vec![CandleInterval::Minute, CandleInterval::ThreeDays]);
    assert!(accounts.covers_date(0));
    assert!(!accounts.covers_date(MIN_INSTANT));
    assert!(!accounts.covers_date(MAX_INSTANT + 1));
    assert!(accounts.follows_all());
    accounts.update_or_create_at(0, "a", AccountData { equity: 1, balance: 1, pnl: 1 }, 0);
    assert!(accounts.follows_all());
    let index = CandleIndex::new("a", CandleInterval::Hour, 0);
    accounts.insert_or_replace(AccountCandle::new_at(index, &AccountData { equity: 1, balance: 1, pnl: 1 }, 0));
    assert!(!accounts.follows_all());
    assert_eq!(accounts.remove_before(0, Some(CandleInterval::Hour)), 1);
    assert!(accounts.follows_all());
    assert!(AccountCandlesCache::new(vec![]).covers_date(i64::MIN));

    let mut prices = BidAskCandlesCache::new(vec![CandleInterval::Day]);
    assert!(prices.covers_date(MIN_INSTANT) && prices.follows_all());
    assert!(!prices.covers_date(MIN_INSTANT - 1));
    prices.insert(BidAskCandle {
        index: CandleInterval::Month,
        date: 0,
        instrument: "x".to_string(),
        bid_data: BidAskCandleData::new(0, 1, 1),
        ask_data: BidAskCandleData::new(0, 1, 1),
    });
    assert!(!prices.follows_all());
}
