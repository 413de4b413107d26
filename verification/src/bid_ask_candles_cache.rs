//! The candles of many instruments at many intervals: one quote of an
//! instrument goes into one candle for each interval that the cache follows.

use crate::bid_ask_candle::{BidAskCandle, BidAskCandleData, BidAskCandleView};
use crate::calendar::{now_millis, valid_instant};
use crate::candle_index::identifier;
use crate::candle_interval::{
    lemma_start_idempotent, all_cover, sorted_by_granularity, sorted_unique, CandleInterval,
};
use crate::hashed::{
    floor_table_get, floor_table_insert, floors_in, lists_prices, new_floor_table, new_price_map,
    price_candles_in, price_map_entries, price_map_get, price_map_get_mut, price_map_insert,
    price_map_len, price_map_retain, prices_kept, FloorTable, Floors, PriceMap, PriceRecords,
};
use crate::utils::{calculate_candle_dates, candle_dates};
use vstd::prelude::*;
use vstd::set_lib::lemma_len_subset;
use vstd::string::StringExecFns;

verus! {

/// The candle of `instrument` at `interval` over the bucket that holds
/// `datetime`, after one quote only.
pub open spec fn first_quote(
    instrument: Seq<char>,
    interval: CandleInterval,
    datetime: i64,
    bid: i64,
    ask: i64,
    bid_vol: i64,
    ask_vol: i64,
) -> BidAskCandleView {
    BidAskCandleView {
        index: interval,
        date: interval.start_of(datetime as int),
        instrument,
        bid_data: BidAskCandleData::seeded(datetime, bid, bid_vol),
        ask_data: BidAskCandleData::seeded(datetime, ask, ask_vol),
    }
}

/// What `records` holds after one quote of `instrument` at `datetime` went
/// into its candle at each of `intervals`, in their order: a candle that is
/// there is updated, one that is not is made.
pub open spec fn quoted(
    records: PriceRecords,
    intervals: Seq<CandleInterval>,
    instrument: Seq<char>,
    datetime: i64,
    bid: i64,
    ask: i64,
    bid_vol: i64,
    ask_vol: i64,
) -> PriceRecords
    decreases intervals.len(),
{
    if intervals.len() == 0 {
        records
    } else {
        let before = quoted(
            records,
            intervals.drop_last(),
            instrument,
            datetime,
            bid,
            ask,
            bid_vol,
            ask_vol,
        );
        let interval = intervals.last();
        let id = identifier(interval, instrument, interval.start_of(datetime as int));
        before.insert(
            id,
            if before.contains_key(id) {
                before[id].updated(datetime, bid, ask, bid_vol, ask_vol)
            } else {
                first_quote(instrument, interval, datetime, bid, ask, bid_vol, ask_vol)
            },
        )
    }
}

/// The bucket starts by which candles are evicted at `date`: that of
/// `interval` alone, or, where none is given, that of each of `intervals`.
pub open spec fn price_eviction_floors(
    intervals: Seq<CandleInterval>,
    date: int,
    interval: Option<CandleInterval>,
) -> Floors {
    match interval {
        Some(one) => Map::<CandleInterval, int>::empty().insert(one, one.start_of(date)),
        None => candle_dates(intervals, date, None),
    }
}

/// The candles of `records` that start at or after the bucket start that
/// `floors` has for their interval.
pub open spec fn prices_after(records: PriceRecords, floors: Floors) -> PriceRecords {
    Map::new(
        |k: Seq<char>|
            records.contains_key(k) && floors.contains_key(records[k].index) && records[k].date
                >= floors[records[k].index],
        |k: Seq<char>| records[k],
    )
}

/// Whether `candles` are the candles of `records`, each once, in the order
/// of `keys`.
pub open spec fn prices_listed_by(
    records: PriceRecords,
    keys: Seq<Seq<char>>,
    candles: Seq<&BidAskCandle>,
) -> bool {
    &&& keys.no_duplicates()
    &&& keys.to_set() == records.dom()
    &&& keys.len() == candles.len()
    &&& forall|i: int| 0 <= i < keys.len() ==> (#[trigger] candles[i])@ == records[keys[i]]
}

/// Whether `candles` are the candles of `records`, each once, in some order.
pub open spec fn lists_price_candles(records: PriceRecords, candles: Seq<&BidAskCandle>) -> bool {
    exists|keys: Seq<Seq<char>>| prices_listed_by(records, keys, candles)
}

/// Whether every candle of `records` is at one of `intervals`.
pub open spec fn all_prices_followed(
    records: PriceRecords,
    intervals: Seq<CandleInterval>,
) -> bool {
    forall|k: Seq<char>| records.contains_key(k) ==> intervals.contains(#[trigger] records[k].index)
}

/// The candles of many instruments, at the intervals in `intervals`.
pub struct BidAskCandlesCache {
    candles_by_ids: PriceMap,
    pub intervals: Vec<CandleInterval>,
    pub last_update_date: Option<i64>,
}

impl BidAskCandlesCache {
    /// The candles that the cache holds, each under its text.
    pub closed spec fn records(&self) -> PriceRecords {
        price_candles_in(self.candles_by_ids)
    }

    /// The intervals that the cache follows.
    pub closed spec fn followed(&self) -> Seq<CandleInterval> {
        self.intervals@
    }

    /// When the cache last took a quote.
    pub closed spec fn last_update(&self) -> Option<i64> {
        self.last_update_date
    }

    /// An empty cache that follows the intervals of `candle_intervals`, each
    /// once, the finer before the coarser.
    pub fn new(candle_intervals: Vec<CandleInterval>) -> (cache: BidAskCandlesCache)
        ensures
            cache.records() == PriceRecords::empty(),
            sorted_by_granularity(cache.followed()),
            forall|interval: CandleInterval|
                cache.followed().contains(interval) <==> candle_intervals@.contains(interval),
            cache.last_update() is None,
    {
        BidAskCandlesCache {
            candles_by_ids: new_price_map(),
            intervals: sorted_unique(&candle_intervals),
            last_update_date: None,
        }
    }

    /// The map that holds the candles.
    pub fn get_all(&self) -> (map: &PriceMap)
        ensures
            price_candles_in(*map) == self.records(),
    {
        &self.candles_by_ids
    }

    /// How many candles the cache holds.
    pub fn len(&self) -> (count: usize)
        ensures
            self.records().dom().finite(),
            count == self.records().len(),
    {
        price_map_len(&self.candles_by_ids)
    }

    /// Whether the cache holds no candle.
    pub fn is_empty(&self) -> (empty: bool)
        ensures
            empty == (self.records().len() == 0),
    {
        price_map_len(&self.candles_by_ids) == 0
    }

    /// Whether the cache holds a candle under `candle_id`.
    pub fn contains(&self, candle_id: &str) -> (held: bool)
        ensures
            held == self.records().contains_key(candle_id@),
    {
        price_map_get(&self.candles_by_ids, candle_id).is_some()
    }

    /// Puts `candle` into the cache under its text, in place of the candle
    /// that was there.
    pub fn insert(&mut self, candle: BidAskCandle)
        requires
            candle.index.covers(candle.date as int),
        ensures
            final(self).records() == old(self).records().insert(candle@.id(), candle@),
            final(self).followed() == old(self).followed(),
            final(self).last_update() == old(self).last_update(),
    {
        let id = candle.get_id();
        price_map_insert(&mut self.candles_by_ids, id, candle);
    }

    /// Takes one quote of `instrument`, made at `datetime`, into its candle
    /// at each interval that the cache follows, and notes `now` as the time
    /// of the last quote.
    pub fn insert_or_update_at(
        &mut self,
        datetime: i64,
        instrument: &str,
        bid: i64,
        ask: i64,
        bid_vol: i64,
        ask_vol: i64,
        now: i64,
    )
        requires
            all_cover(old(self).followed(), datetime as int),
        ensures
            final(self).records() == quoted(
                old(self).records(),
                old(self).followed(),
                instrument@,
                datetime,
                bid,
                ask,
                bid_vol,
                ask_vol,
            ),
            final(self).followed() == old(self).followed(),
            final(self).last_update() == Some(now),
            all_prices_followed(old(self).records(), old(self).followed())
                ==> all_prices_followed(final(self).records(), final(self).followed()),
    {
        let mut i: usize = 0;
        assert(self.intervals@.subrange(0, 0) =~= Seq::<CandleInterval>::empty());
        while i < self.intervals.len()
            invariant
                i <= self.intervals.len(),
                self.intervals == old(self).intervals,
                self.last_update_date == old(self).last_update_date,
                all_cover(self.intervals@, datetime as int),
                self.records() == quoted(
                    old(self).records(),
                    self.intervals@.subrange(0, i as int),
                    instrument@,
                    datetime,
                    bid,
                    ask,
                    bid_vol,
                    ask_vol,
                ),
                all_prices_followed(old(self).records(), old(self).followed())
                    ==> all_prices_followed(self.records(), self.followed()),
            decreases self.intervals.len() - i,
        {
            let interval: CandleInterval = self.intervals[i];
            assert(self.followed().contains(interval)) by {
                assert(self.intervals@[i as int] == interval);
            }
            proof {
                lemma_start_idempotent(interval, datetime as int);
            }
            let candle_datetime: i64 = interval.get_start_date(datetime);
            let id = BidAskCandle::generate_id(instrument, &interval, candle_datetime);
            let ghost before = self.intervals@.subrange(0, i as int);
            let ghost after = self.intervals@.subrange(0, i + 1);
            assert(after.drop_last() =~= before);
            match price_map_get_mut(&mut self.candles_by_ids, id.as_str()) {
                Some(candle) => {
                    candle.update(datetime, bid, ask, bid_vol, ask_vol);
                },
                None => {
                    price_map_insert(
                        &mut self.candles_by_ids,
                        id,
                        BidAskCandle {
                            ask_data: BidAskCandleData::new(datetime, ask, ask_vol),
                            bid_data: BidAskCandleData::new(datetime, bid, bid_vol),
                            index: interval,
                            instrument: String::from_str(instrument),
                            date: candle_datetime,
                        },
                    );
                },
            }
            i = i + 1;
        }
        assert(self.intervals@.subrange(0, i as int) =~= self.intervals@);
        self.last_update_date = Some(now);
    }

    /// Takes one quote of `instrument`, made at `datetime`, into its candle
    /// at each interval that the cache follows, and notes the time.
    pub fn insert_or_update(
        &mut self,
        datetime: i64,
        instrument: &str,
        bid: i64,
        ask: i64,
        bid_vol: i64,
        ask_vol: i64,
    )
        requires
            all_cover(old(self).followed(), datetime as int),
        ensures
            final(self).records() == quoted(
                old(self).records(),
                old(self).followed(),
                instrument@,
                datetime,
                bid,
                ask,
                bid_vol,
                ask_vol,
            ),
            final(self).followed() == old(self).followed(),
            final(self).last_update() matches Some(now) && valid_instant(now as int),
            all_prices_followed(old(self).records(), old(self).followed())
                ==> all_prices_followed(final(self).records(), final(self).followed()),
    {
        self.insert_or_update_at(datetime, instrument, bid, ask, bid_vol, ask_vol, now_millis());
    }

    /// Whether the bucket of `date` starts at an instant, at every interval
    /// that the cache follows.
    pub fn covers_date(&self, date: i64) -> (covered: bool)
        ensures
            covered == all_cover(self.followed(), date as int),
    {
        let mut i: usize = 0;
        while i < self.intervals.len()
            invariant
                i <= self.intervals.len(),
                all_cover(self.intervals@.subrange(0, i as int), date as int),
            decreases self.intervals.len() - i,
        {
            if !self.intervals[i].covers_date(date) {
                assert(!self.intervals@[i as int].covers(date as int));
                return false;
            }
            assert forall|j: int| 0 <= j < i + 1 implies (#[trigger] self.intervals@.subrange(
                0,
                i + 1,
            )[j]).covers(date as int) by {
                if j < i {
                    assert(self.intervals@.subrange(0, i as int)[j] == self.intervals@[j]);
                }
            }
            i = i + 1;
        }
        assert(self.intervals@.subrange(0, i as int) =~= self.intervals@);
        true
    }

    /// Whether every candle in the cache is at an interval that the cache
    /// follows.
    #[verifier::loop_isolation(false)]
    pub fn follows_all(&self) -> (all: bool)
        ensures
            all == all_prices_followed(self.records(), self.followed()),
    {
        let entries = price_map_entries(&self.candles_by_ids);
        let ghost records = self.records();
        let mut i: usize = 0;
        while i < entries.len()
            invariant
                i <= entries.len(),
                forall|j: int|
                    0 <= j < i ==> self.followed().contains(
                        records[#[trigger] entries@[j].0@].index,
                    ),
            decreases entries.len() - i,
        {
            let (_key, candle) = entries[i];
            let ghost key = entries@[i as int].0@;
            assert(records.contains_key(key) && records[key] == candle@);
            let mut found: bool = false;
            let mut k: usize = 0;
            while k < self.intervals.len()
                invariant
                    k <= self.intervals.len(),
                    found <==> exists|m: int| 0 <= m < k && self.intervals@[m] == candle.index,
                decreases self.intervals.len() - k,
            {
                if self.intervals[k] == candle.index {
                    found = true;
                }
                k = k + 1;
            }
            if !found {
                return false;
            }
            i = i + 1;
        }
        assert forall|key: Seq<char>| records.contains_key(key) implies self.followed().contains(
            #[trigger] records[key].index,
        ) by {
            let j = choose|j: int| 0 <= j < entries@.len() && #[trigger] entries@[j].0@ == key;
        }
        true
    }

    /// The candles that start at or after the start of the bucket that holds
    /// `datetime`, each at its own interval, in no order; none where the
    /// cache is empty.
    #[verifier::loop_isolation(false)]
    pub fn get_after(&self, datetime: i64) -> (candles: Option<Vec<&BidAskCandle>>)
        requires
            all_cover(self.followed(), datetime as int),
            all_prices_followed(self.records(), self.followed()),
        ensures
            match candles {
                Some(found) => self.records().len() > 0 && lists_price_candles(
                    prices_after(
                        self.records(),
                        candle_dates(self.followed(), datetime as int, None),
                    ),
                    found@,
                ),
                None => self.records().len() == 0,
            },
    {
        if price_map_len(&self.candles_by_ids) == 0 {
            return None;
        }
        let table: FloorTable = calculate_candle_dates(self.intervals.as_slice(), datetime, None);
        let entries = price_map_entries(&self.candles_by_ids);
        let ghost records = self.records();
        let ghost floors = floors_in(table);
        let ghost after = prices_after(records, floors);
        let mut candles: Vec<&BidAskCandle> = Vec::new();
        let ghost mut keys: Seq<Seq<char>> = Seq::empty();
        let mut i: usize = 0;
        while i < entries.len()
            invariant
                i <= entries.len(),
                keys.len() == candles@.len(),
                keys.no_duplicates(),
                forall|j: int|
                    0 <= j < keys.len() ==> records.contains_key(#[trigger] keys[j]) && candles@[j]@
                        == records[keys[j]],
                forall|k: Seq<char>|
                    keys.contains(k) <==> (after.contains_key(k) && exists|j: int|
                        0 <= j < i && #[trigger] entries@[j].0@ == k),
            decreases entries.len() - i,
        {
            let (_id, candle) = entries[i];
            let ghost key = entries@[i as int].0@;
            assert(records.contains_key(key) && records[key] == candle@);
            assert(self.followed().contains(records[key].index));
            let current_date: i64 = match floor_table_get(&table, &candle.index) {
                Some(floor) => floor,
                None => 0,
            };
            let ghost before = keys;
            assert(!before.contains(key)) by {
                if before.contains(key) {
                    let j = choose|j: int| 0 <= j < i && #[trigger] entries@[j].0@ == key;
                    assert(entries@[j].0@ != entries@[i as int].0@);
                }
            }
            if candle.date >= current_date {
                candles.push(candle);
                proof {
                    keys = keys.push(key);
                    assert forall|a: int, b: int|
                        0 <= a < keys.len() && 0 <= b < keys.len() && a != b implies keys[a]
                        != keys[b] by {
                        if a < before.len() {
                            assert(before.contains(keys[a]));
                        }
                        if b < before.len() {
                            assert(before.contains(keys[b]));
                        }
                    }
                }
            }
            proof {
                assert forall|k: Seq<char>|
                    keys.contains(k) <==> (after.contains_key(k) && exists|j: int|
                        0 <= j < i + 1 && #[trigger] entries@[j].0@ == k) by {
                    if before.contains(k) {
                        let j = choose|j: int| 0 <= j < before.len() && before[j] == k;
                        assert(keys[j] == k);
                    }
                    if keys.contains(k) && !before.contains(k) {
                        let j = choose|j: int| 0 <= j < keys.len() && keys[j] == k;
                        if j < before.len() {
                            assert(before[j] == k);
                        }
                        assert(entries@[i as int].0@ == k);
                    }
                    if after.contains_key(k) && exists|j: int|
                        0 <= j < i + 1 && #[trigger] entries@[j].0@ == k {
                        let j = choose|j: int| 0 <= j < i + 1 && #[trigger] entries@[j].0@ == k;
                        if j == i {
                            assert(keys[keys.len() - 1] == k);
                        } else {
                            assert(before.contains(k));
                        }
                    }
                }
            }
            i = i + 1;
        }
        proof {
            assert forall|k: Seq<char>| keys.to_set().contains(k) <==> after.dom().contains(k) by {
                if after.dom().contains(k) {
                    let j = choose|j: int|
                        0 <= j < entries@.len() && #[trigger] entries@[j].0@ == k;
                }
            }
            assert(keys.to_set() =~= after.dom());
            assert(prices_listed_by(after, keys, candles@));
            assert(lists_price_candles(after, candles@));
        }
        Some(candles)
    }

    /// Drops the candles that start at or before the start of the bucket
    /// that holds `datetime`: those of `candle_type`, or, where none is
    /// given, those of every interval that the cache follows, each by its own
    /// bucket start. The result is the number of candles dropped.
    pub fn remove_before(
        &mut self,
        datetime: i64,
        candle_type: Option<CandleInterval>,
    ) -> (removed: i32)
        requires
            old(self).records().len() <= i32::MAX,
            match candle_type {
                Some(one) => one.covers(datetime as int),
                None => {
                    &&& all_cover(old(self).followed(), datetime as int)
                    &&& all_prices_followed(old(self).records(), old(self).followed())
                },
            },
        ensures
            final(self).records() == prices_kept(
                old(self).records(),
                price_eviction_floors(old(self).followed(), datetime as int, candle_type),
            ),
            removed == old(self).records().len() - final(self).records().len(),
            final(self).followed() == old(self).followed(),
            final(self).last_update() == old(self).last_update(),
            all_prices_followed(old(self).records(), old(self).followed()) ==> all_prices_followed(
                final(self).records(),
                final(self).followed(),
            ),
    {
        let dates: FloorTable = match candle_type {
            Some(one) => {
                let mut dates: FloorTable = new_floor_table(1);
                floor_table_insert(&mut dates, one, one.get_start_date(datetime));
                assert(floors_in(dates) =~= price_eviction_floors(
                    self.followed(),
                    datetime as int,
                    candle_type,
                ));
                dates
            },
            None => calculate_candle_dates(self.intervals.as_slice(), datetime, None),
        };
        let before: usize = price_map_len(&self.candles_by_ids);
        price_map_retain(&mut self.candles_by_ids, &dates);
        let after: usize = price_map_len(&self.candles_by_ids);
        proof {
            let kept = self.records();
            assert(kept.dom().subset_of(old(self).records().dom()));
            lemma_len_subset(kept.dom(), old(self).records().dom());
        }
        (before - after) as i32
    }

    /// The candle under `id`.
    pub fn get(&self, id: &str) -> (candle: Option<&BidAskCandle>)
        ensures
            match candle {
                Some(c) => self.records().contains_key(id@) && c@ == self.records()[id@],
                None => !self.records().contains_key(id@),
            },
    {
        price_map_get(&self.candles_by_ids, id)
    }
}

} // verus!
