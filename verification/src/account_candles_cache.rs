//! The candles of many accounts at many intervals: one update of an account
//! goes into one candle for each interval that the cache follows.

use crate::account_candle::{AccountCandle, AccountCandleView, AccountData};
use crate::calendar::{now_millis, valid_instant};
use crate::candle_index::{index_key, CandleIndex, IndexKey};
use crate::candle_interval::{all_cover, sorted_by_granularity, sorted_unique, CandleInterval};
use crate::hashed::{
    account_candles_in, account_map_entries, account_map_get, account_map_get_mut,
    account_map_insert, account_map_len, account_map_retain, accounts_kept, floor_table_get,
    floor_table_insert, floors_in, new_account_map, new_floor_table, AccountMap, AccountRecords,
    FloorTable, Floors,
};
use crate::utils::{calculate_candle_dates, candle_dates, evicted_by};
use vstd::prelude::*;
use vstd::set_lib::lemma_len_subset;

verus! {

/// What `records` holds after the candle at `key` has taken `data` at `now`:
/// the candle that was there, updated, or a new one, seeded.
pub open spec fn taken_in(
    records: AccountRecords,
    key: IndexKey,
    data: AccountData,
    now: i64,
) -> AccountRecords {
    records.insert(
        key,
        if records.contains_key(key) {
            records[key].updated(data, now)
        } else {
            AccountCandleView::seeded(key, data, now)
        },
    )
}

/// What `records` holds after one observation of `ref_id` at `date` went
/// into its candle at each of `intervals`, in their order.
pub open spec fn fanned_out(
    records: AccountRecords,
    intervals: Seq<CandleInterval>,
    ref_id: Seq<char>,
    date: int,
    data: AccountData,
    now: i64,
) -> AccountRecords
    decreases intervals.len(),
{
    if intervals.len() == 0 {
        records
    } else {
        taken_in(
            fanned_out(records, intervals.drop_last(), ref_id, date, data, now),
            index_key(ref_id, intervals.last(), date),
            data,
            now,
        )
    }
}

/// The bucket starts by which candles are evicted at `date`: that of
/// `interval` alone, or, where none is given, that of each of `intervals`.
pub open spec fn eviction_floors(
    intervals: Seq<CandleInterval>,
    date: int,
    interval: Option<CandleInterval>,
) -> Floors {
    match interval {
        Some(one) => Map::<CandleInterval, int>::empty().insert(one, one.start_of(date)),
        None => candle_dates(intervals, date, None),
    }
}

/// Whether a candle of `interval` that starts at `date` starts at or after
/// the bucket start that `floors` has for its interval.
pub open spec fn at_or_after(interval: CandleInterval, date: int, floors: Floors) -> bool {
    floors.contains_key(interval) && date >= floors[interval]
}

/// The candles of `records` that start at or after the bucket start that
/// `floors` has for their interval.
pub open spec fn accounts_after(records: AccountRecords, floors: Floors) -> AccountRecords {
    Map::new(
        |k: IndexKey|
            records.contains_key(k) && at_or_after(records[k].interval, records[k].date, floors),
        |k: IndexKey| records[k],
    )
}

/// Whether `candles` are the candles of `records`, each once, in the order
/// of `keys`.
pub open spec fn listed_by(
    records: AccountRecords,
    keys: Seq<IndexKey>,
    candles: Seq<&AccountCandle>,
) -> bool {
    &&& keys.no_duplicates()
    &&& keys.to_set() == records.dom()
    &&& keys.len() == candles.len()
    &&& forall|i: int| 0 <= i < keys.len() ==> (#[trigger] candles[i])@ == records[keys[i]]
}

/// Whether `candles` are the candles of `records`, each once, in some order.
pub open spec fn lists(records: AccountRecords, candles: Seq<&AccountCandle>) -> bool {
    exists|keys: Seq<IndexKey>| listed_by(records, keys, candles)
}

/// Whether every candle of `records` is at one of `intervals`.
pub open spec fn all_followed(records: AccountRecords, intervals: Seq<CandleInterval>) -> bool {
    forall|k: IndexKey|
        records.contains_key(k) ==> intervals.contains(#[trigger] records[k].interval)
}

/// The candles of many accounts, at the intervals in `intervals`.
pub struct AccountCandlesCache {
    candles_by_indexes: AccountMap,
    pub intervals: Vec<CandleInterval>,
    pub last_update_date: Option<i64>,
}

impl AccountCandlesCache {
    /// The candles that the cache holds, each under its identity.
    pub closed spec fn records(&self) -> AccountRecords {
        account_candles_in(self.candles_by_indexes)
    }

    /// The intervals that the cache follows.
    pub closed spec fn followed(&self) -> Seq<CandleInterval> {
        self.intervals@
    }

    /// When the cache last took an update.
    pub closed spec fn last_update(&self) -> Option<i64> {
        self.last_update_date
    }

    /// An empty cache that follows the intervals of `candle_intervals`, each
    /// once, the finer before the coarser.
    pub fn new(candle_intervals: Vec<CandleInterval>) -> (cache: AccountCandlesCache)
        ensures
            cache.records() == AccountRecords::empty(),
            sorted_by_granularity(cache.followed()),
            forall|interval: CandleInterval|
                cache.followed().contains(interval) <==> candle_intervals@.contains(interval),
            cache.last_update() is None,
    {
        AccountCandlesCache {
            candles_by_indexes: new_account_map(),
            intervals: sorted_unique(&candle_intervals),
            last_update_date: None,
        }
    }

    /// The map that holds the candles.
    pub fn get_all(&self) -> (map: &AccountMap)
        ensures
            account_candles_in(*map) == self.records(),
    {
        &self.candles_by_indexes
    }

    /// How many candles the cache holds.
    pub fn len(&self) -> (count: usize)
        ensures
            self.records().dom().finite(),
            count == self.records().len(),
    {
        account_map_len(&self.candles_by_indexes)
    }

    /// Whether the cache holds no candle.
    pub fn is_empty(&self) -> (empty: bool)
        ensures
            empty == (self.records().len() == 0),
    {
        account_map_len(&self.candles_by_indexes) == 0
    }

    /// Whether the cache holds a candle under `index`.
    pub fn contains(&self, index: &CandleIndex) -> (held: bool)
        ensures
            held == self.records().contains_key(index@),
    {
        account_map_get(&self.candles_by_indexes, index).is_some()
    }

    /// Puts `candle` into the cache under its identity, and gives back the
    /// candle that was there.
    pub fn insert_or_replace(&mut self, candle: AccountCandle) -> (previous: Option<AccountCandle>)
        requires
            candle.interval.covers(candle.date as int),
        ensures
            final(self).records() == old(self).records().insert(candle@.key(), candle@),
            final(self).followed() == old(self).followed(),
            final(self).last_update() == old(self).last_update(),
            match previous {
                Some(p) => old(self).records().contains_key(candle@.key())
                    && p@ == old(self).records()[candle@.key()],
                None => !old(self).records().contains_key(candle@.key()),
            },
    {
        let index = candle.index();
        account_map_insert(&mut self.candles_by_indexes, index, candle)
    }

    /// The candle under `index`, to be changed in place: the cache ends up
    /// holding under `index` what the caller leaves in the candle.
    pub fn get_mut(&mut self, index: &CandleIndex) -> (candle: Option<&mut AccountCandle>)
        ensures
            final(self).followed() == old(self).followed(),
            final(self).last_update() == old(self).last_update(),
            match candle {
                Some(c) => {
                    &&& old(self).records().contains_key(index@)
                    &&& c@ == old(self).records()[index@]
                    &&& final(self).records() == old(self).records().insert(index@, final(c)@)
                },
                None => {
                    &&& !old(self).records().contains_key(index@)
                    &&& final(self).records() == old(self).records()
                },
            },
    {
        account_map_get_mut(&mut self.candles_by_indexes, index)
    }

    /// The candle under `index`.
    pub fn get(&self, index: &CandleIndex) -> (candle: Option<&AccountCandle>)
        ensures
            match candle {
                Some(c) => self.records().contains_key(index@) && c@ == self.records()[index@],
                None => !self.records().contains_key(index@),
            },
    {
        account_map_get(&self.candles_by_indexes, index)
    }

    /// Takes one observation of `ref_id`, made at `date`, into its candle at
    /// each interval that the cache follows, at `now`: a candle that is there
    /// is updated, one that is not is made.
    pub fn update_or_create_at(&mut self, date: i64, ref_id: &str, data: AccountData, now: i64)
        requires
            all_cover(old(self).followed(), date as int),
        ensures
            final(self).records() == fanned_out(
                old(self).records(),
                old(self).followed(),
                ref_id@,
                date as int,
                data,
                now,
            ),
            final(self).followed() == old(self).followed(),
            final(self).last_update() == Some(now),
            all_followed(old(self).records(), old(self).followed()) ==> all_followed(
                final(self).records(),
                final(self).followed(),
            ),
    {
        let mut i: usize = 0;
        assert(self.intervals@.subrange(0, 0) =~= Seq::<CandleInterval>::empty());
        while i < self.intervals.len()
            invariant
                i <= self.intervals.len(),
                self.intervals == old(self).intervals,
                self.last_update_date == old(self).last_update_date,
                all_cover(self.intervals@, date as int),
                self.records() == fanned_out(
                    old(self).records(),
                    self.intervals@.subrange(0, i as int),
                    ref_id@,
                    date as int,
                    data,
                    now,
                ),
                all_followed(old(self).records(), old(self).followed()) ==> all_followed(
                    self.records(),
                    self.followed(),
                ),
            decreases self.intervals.len() - i,
        {
            let interval: CandleInterval = self.intervals[i];
            assert(self.followed().contains(interval)) by {
                assert(self.intervals@[i as int] == interval);
            }
            let index = CandleIndex::new(ref_id, interval, date);
            let ghost before = self.intervals@.subrange(0, i as int);
            let ghost after = self.intervals@.subrange(0, i + 1);
            assert(after.drop_last() =~= before);
            match account_map_get_mut(&mut self.candles_by_indexes, &index) {
                Some(candle) => {
                    candle.update_at(&data, now);
                },
                None => {
                    account_map_insert(
                        &mut self.candles_by_indexes,
                        index.clone(),
                        AccountCandle::new_at(index, &data, now),
                    );
                },
            }
            i = i + 1;
        }
        assert(self.intervals@.subrange(0, i as int) =~= self.intervals@);
        self.last_update_date = Some(now);
    }

    /// Takes one observation of `ref_id`, made at `date`, into its candle at
    /// each interval that the cache follows, now.
    pub fn update_or_create(&mut self, date: i64, ref_id: &str, data: AccountData)
        requires
            all_cover(old(self).followed(), date as int),
        ensures
            final(self).last_update() matches Some(now) && valid_instant(now as int)
                && final(self).records() == fanned_out(
                old(self).records(),
                old(self).followed(),
                ref_id@,
                date as int,
                data,
                now,
            ),
            final(self).followed() == old(self).followed(),
            all_followed(old(self).records(), old(self).followed()) ==> all_followed(
                final(self).records(),
                final(self).followed(),
            ),
    {
        self.update_or_create_at(date, ref_id, data, now_millis());
    }

    /// Whether the bucket of `date` starts at an instant, at every interval
    /// that the cache follows.
    pub fn covers_date(&self, date: i64) -> (covered: bool)
        ensures
            covered == all_cover(self.followed(), date as int),
    {
        let mut i: usize = 0;
        while i < self.intervals.len()
            invariant
                i <= self.intervals.len(),
                all_cover(self.intervals@.subrange(0, i as int), date as int),
            decreases self.intervals.len() - i,
        {
            if !self.intervals[i].covers_date(date) {
                assert(!self.intervals@[i as int].covers(date as int));
                return false;
            }
            assert forall|j: int| 0 <= j < i + 1 implies (#[trigger] self.intervals@.subrange(
                0,
                i + 1,
            )[j]).covers(date as int) by {
                if j < i {
                    assert(self.intervals@.subrange(0, i as int)[j] == self.intervals@[j]);
                }
            }
            i = i + 1;
        }
        assert(self.intervals@.subrange(0, i as int) =~= self.intervals@);
        true
    }

    /// Whether every candle in the cache is at an interval that the cache
    /// follows.
    #[verifier::loop_isolation(false)]
    pub fn follows_all(&self) -> (all: bool)
        ensures
            all == all_followed(self.records(), self.followed()),
    {
        let entries = account_map_entries(&self.candles_by_indexes);
        let ghost records = self.records();
        let mut i: usize = 0;
        while i < entries.len()
            invariant
                i <= entries.len(),
                forall|j: int|
                    0 <= j < i ==> self.followed().contains(
                        records[#[trigger] entries@[j].0@].interval,
                    ),
            decreases entries.len() - i,
        {
            let (_key, candle) = entries[i];
            let ghost key = entries@[i as int].0@;
            assert(records.contains_key(key) && records[key] == candle@);
            let mut found: bool = false;
            let mut k: usize = 0;
            while k < self.intervals.len()
                invariant
                    k <= self.intervals.len(),
                    found <==> exists|m: int| 0 <= m < k && self.intervals@[m] == candle.interval,
                decreases self.intervals.len() - k,
            {
                if self.intervals[k] == candle.interval {
                    found = true;
                }
                k = k + 1;
            }
            if !found {
                return false;
            }
            i = i + 1;
        }
        assert forall|key: IndexKey| records.contains_key(key) implies self.followed().contains(
            #[trigger] records[key].interval,
        ) by {
            let j = choose|j: int| 0 <= j < entries@.len() && #[trigger] entries@[j].0@ == key;
        }
        true
    }

    /// The candles that start at or after the start of the bucket that holds
    /// `date`, each at its own interval, in no order; none where the cache is
    /// empty.
    #[verifier::loop_isolation(false)]
    pub fn get_after(&self, date: i64) -> (candles: Option<Vec<&AccountCandle>>)
        requires
            all_cover(self.followed(), date as int),
            all_followed(self.records(), self.followed()),
        ensures
            match candles {
                Some(found) => self.records().len() > 0 && lists(
                    accounts_after(
                        self.records(),
                        candle_dates(self.followed(), date as int, None),
                    ),
                    found@,
                ),
                None => self.records().len() == 0,
            },
    {
        if account_map_len(&self.candles_by_indexes) == 0 {
            return None;
        }
        let table: FloorTable = calculate_candle_dates(self.intervals.as_slice(), date, None);
        let entries = account_map_entries(&self.candles_by_indexes);
        let ghost records = self.records();
        let ghost floors = floors_in(table);
        let ghost after = accounts_after(records, floors);
        let mut candles: Vec<&AccountCandle> = Vec::new();
        let ghost mut keys: Seq<IndexKey> = Seq::empty();
        let mut i: usize = 0;
        while i < entries.len()
            invariant
                i <= entries.len(),
                keys.len() == candles@.len(),
                keys.no_duplicates(),
                forall|j: int|
                    0 <= j < keys.len() ==> records.contains_key(#[trigger] keys[j]) && candles@[j]@
                        == records[keys[j]],
                forall|k: IndexKey|
                    keys.contains(k) <==> (after.contains_key(k) && exists|j: int|
                        0 <= j < i && #[trigger] entries@[j].0@ == k),
            decreases entries.len() - i,
        {
            let (index, candle) = entries[i];
            let ghost key = entries@[i as int].0@;
            assert(records.contains_key(key) && records[key] == candle@);
            assert(self.followed().contains(records[key].interval));
            let current_date: i64 = match floor_table_get(&table, &candle.interval) {
                Some(floor) => floor,
                None => 0,
            };
            let ghost before = keys;
            assert(!before.contains(key)) by {
                if before.contains(key) {
                    let j = choose|j: int| 0 <= j < i && #[trigger] entries@[j].0@ == key;
                    assert(entries@[j].0@ != entries@[i as int].0@);
                }
            }
            if candle.date >= current_date {
                candles.push(candle);
                proof {
                    keys = keys.push(key);
                    assert forall|a: int, b: int|
                        0 <= a < keys.len() && 0 <= b < keys.len() && a != b implies keys[a]
                        != keys[b] by {
                        if a < before.len() {
                            assert(before.contains(keys[a]));
                        }
                        if b < before.len() {
                            assert(before.contains(keys[b]));
                        }
                    }
                }
            }
            proof {
                assert forall|k: IndexKey|
                    keys.contains(k) <==> (after.contains_key(k) && exists|j: int|
                        0 <= j < i + 1 && #[trigger] entries@[j].0@ == k) by {
                    if before.contains(k) {
                        let j = choose|j: int| 0 <= j < before.len() && before[j] == k;
                        assert(keys[j] == k);
                    }
                    if keys.contains(k) && !before.contains(k) {
                        let j = choose|j: int| 0 <= j < keys.len() && keys[j] == k;
                        if j < before.len() {
                            assert(before[j] == k);
                        }
                        assert(entries@[i as int].0@ == k);
                    }
                    if after.contains_key(k) && exists|j: int|
                        0 <= j < i + 1 && #[trigger] entries@[j].0@ == k {
                        let j = choose|j: int| 0 <= j < i + 1 && #[trigger] entries@[j].0@ == k;
                        if j == i {
                            assert(keys[keys.len() - 1] == k);
                        } else {
                            assert(before.contains(k));
                        }
                    }
                }
            }
            i = i + 1;
        }
        proof {
            assert forall|k: IndexKey| keys.to_set().contains(k) <==> after.dom().contains(k) by {
                if after.dom().contains(k) {
                    let j = choose|j: int|
                        0 <= j < entries@.len() && #[trigger] entries@[j].0@ == k;
                }
            }
            assert(keys.to_set() =~= after.dom());
            assert(listed_by(after, keys, candles@));
            assert(lists(after, candles@));
        }
        Some(candles)
    }

    /// Drops the candles that start at or before the start of the bucket
    /// that holds `date`: those of `interval`, or, where none is given, those
    /// of every interval that the cache follows, each by its own bucket
    /// start. The result is the number of candles dropped.
    pub fn remove_before(&mut self, date: i64, interval: Option<CandleInterval>) -> (removed: i32)
        requires
            old(self).records().len() <= i32::MAX,
            match interval {
                Some(one) => one.covers(date as int),
                None => {
                    &&& all_cover(old(self).followed(), date as int)
                    &&& all_followed(old(self).records(), old(self).followed())
                },
            },
        ensures
            final(self).records() == accounts_kept(
                old(self).records(),
                eviction_floors(old(self).followed(), date as int, interval),
            ),
            removed == old(self).records().len() - final(self).records().len(),
            final(self).followed() == old(self).followed(),
            final(self).last_update() == old(self).last_update(),
            all_followed(old(self).records(), old(self).followed()) ==> all_followed(
                final(self).records(),
                final(self).followed(),
            ),
    {
        let dates: FloorTable = match interval {
            Some(one) => {
                let mut dates: FloorTable = new_floor_table(1);
                floor_table_insert(&mut dates, one, one.get_start_date(date));
                assert(floors_in(dates) =~= eviction_floors(
                    self.followed(),
                    date as int,
                    interval,
                ));
                dates
            },
            None => calculate_candle_dates(self.intervals.as_slice(), date, None),
        };
        let before: usize = account_map_len(&self.candles_by_indexes);
        account_map_retain(&mut self.candles_by_indexes, &dates);
        let after: usize = account_map_len(&self.candles_by_indexes);
        proof {
            let kept = self.records();
            assert(kept.dom().subset_of(old(self).records().dom()));
            lemma_len_subset(kept.dom(), old(self).records().dom());
        }
        (before - after) as i32
    }
}

/// One observation changes the candle of its account at each interval once,
/// and nothing else: after it, the candle under the identity of the account
/// at a followed interval and the bucket of the date is the one that was
/// there with the observation taken in once, or a new one seeded with it;
/// under any other identity the cache holds what it held.
pub proof fn lemma_fan_out_once(
    records: AccountRecords,
    intervals: Seq<CandleInterval>,
    ref_id: Seq<char>,
    date: int,
    data: AccountData,
    now: i64,
    key: IndexKey,
)
    requires
        sorted_by_granularity(intervals),
    ensures
        ({
            let after = fanned_out(records, intervals, ref_id, date, data, now);
            let touched = intervals.contains(key.interval) && key == index_key(
                ref_id,
                key.interval,
                date,
            );
            if touched {
                after.contains_key(key) && after[key] == taken_in(records, key, data, now)[key]
            } else {
                after.contains_key(key) == records.contains_key(key) && (records.contains_key(key)
                    ==> after[key] == records[key])
            }
        }),
    decreases intervals.len(),
{
    let after = fanned_out(records, intervals, ref_id, date, data, now);
    if intervals.len() > 0 {
        let earlier = intervals.drop_last();
        let last = intervals.last();
        assert forall|i: int, j: int| 0 <= i < j < earlier.len() implies (
        #[trigger] earlier[i]).rank() < (#[trigger] earlier[j]).rank() by {
            assert(earlier[i] == intervals[i] && earlier[j] == intervals[j]);
        }
        lemma_fan_out_once(records, earlier, ref_id, date, data, now, key);
        assert(intervals[intervals.len() - 1] == last);
        if earlier.contains(key.interval) {
            let j = choose|j: int| 0 <= j < earlier.len() && earlier[j] == key.interval;
            assert(intervals[j] == key.interval);
            assert(intervals[j].rank() < intervals[intervals.len() - 1].rank());
        }
        if intervals.contains(key.interval) && key.interval != last {
            let j = choose|j: int| 0 <= j < intervals.len() && intervals[j] == key.interval;
            assert(earlier[j] == key.interval);
        }
    }
}

/// What eviction at an instant leaves, and what the query for the candles
/// after the same instant finds, are told apart by the same bucket starts:
/// a candle that starts exactly at its bucket start is evicted, so after the
/// eviction the query finds what it found before without the evicted
/// candles, which are the candles that start after their bucket start.
pub proof fn lemma_evicted_are_not_after(records: AccountRecords, floors: Floors)
    ensures
        accounts_after(accounts_kept(records, floors), floors) == accounts_after(
            records,
            floors,
        ).remove_keys(
            Set::new(
                |k: IndexKey|
                    records.contains_key(k) && evicted_by(
                        records[k].interval,
                        records[k].date,
                        floors,
                    ),
            ),
        ),
        forall|k: IndexKey| #[trigger]
            accounts_after(accounts_kept(records, floors), floors).contains_key(k) <==> (
            records.contains_key(k) && floors.contains_key(records[k].interval) && records[k].date
                > floors[records[k].interval]),
{
    let left = accounts_after(accounts_kept(records, floors), floors);
    let right = accounts_after(records, floors).remove_keys(
        Set::new(
            |k: IndexKey|
                records.contains_key(k) && evicted_by(records[k].interval, records[k].date, floors),
        ),
    );
    assert(left =~= right);
}

} // verus!
