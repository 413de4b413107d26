//! The hashed collections that the library keeps its data in. They come from
//! `ahash`; what this module says of them is taken on trust.

use crate::account_candle::{AccountCandle, AccountCandleView};
use crate::bid_ask_candle::{BidAskCandle, BidAskCandleView};
use crate::candle_index::{CandleIndex, IndexKey};
use crate::candle_interval::CandleInterval;
use crate::utils::{evicted_by, is_evicted};
use ahash::{AHashMap, AHashSet, RandomState};
use vstd::prelude::*;

verus! {

/// The hasher of `ahash`, which its maps and sets are built with.
#[verifier::external_type_specification]
#[verifier::external_body]
pub struct ExRandomState(RandomState);

/// The hashed set of `ahash`.
#[verifier::external_type_specification]
#[verifier::external_body]
#[verifier::reject_recursive_types(T)]
#[verifier::reject_recursive_types(S)]
pub struct ExAHashSet<T, S>(AHashSet<T, S>);

/// The hashed map of `ahash`.
#[verifier::external_type_specification]
#[verifier::external_body]
#[verifier::reject_recursive_types(K)]
#[verifier::reject_recursive_types(V)]
#[verifier::reject_recursive_types(S)]
pub struct ExAHashMap<K, V, S>(AHashMap<K, V, S>);

/// The instants that a set holds.
pub uninterp spec fn instants_in(set: AHashSet<i64>) -> Set<int>;

/// An empty set of instants, from `AHashSet::new`.
#[verifier::external_body]
pub(crate) fn new_instant_set() -> (set: AHashSet<i64>)
    ensures
        instants_in(set) == Set::<int>::empty(),
{
    AHashSet::new()
}

/// Puts `t` into the set, with `insert` of the std `HashSet` that an
/// `AHashSet` dereferences to: afterwards the set holds what it held and `t`,
/// and the result says whether `t` was new to it.
#[verifier::external_body]
pub(crate) fn insert_instant(set: &mut AHashSet<i64>, t: i64) -> (fresh: bool)
    ensures
        instants_in(*final(set)) == instants_in(*old(set)).insert(t as int),
        fresh == !instants_in(*old(set)).contains(t as int),
{
    set.insert(t)
}

/// A table of bucket starts, one for an interval.
pub type FloorTable = AHashMap<CandleInterval, i64>;

/// What a table of bucket starts holds, as plain values.
pub type Floors = Map<CandleInterval, int>;

/// The bucket starts that a table holds, each under its interval.
pub uninterp spec fn floors_in(table: FloorTable) -> Floors;

/// An empty table of bucket starts with room for `capacity` of them, from
/// `AHashMap::with_capacity`.
#[verifier::external_body]
pub(crate) fn new_floor_table(capacity: usize) -> (table: FloorTable)
    ensures
        floors_in(table) == Floors::empty(),
{
    AHashMap::with_capacity(capacity)
}

/// Puts `floor` under `interval` with `AHashMap::insert`, in place of what
/// was there.
#[verifier::external_body]
pub(crate) fn floor_table_insert(table: &mut FloorTable, interval: CandleInterval, floor: i64)
    ensures
        floors_in(*final(table)) == floors_in(*old(table)).insert(interval, floor as int),
{
    table.insert(interval, floor);
}

/// The bucket start under `interval`, from `AHashMap::get`.
#[verifier::external_body]
pub(crate) fn floor_table_get(table: &FloorTable, interval: &CandleInterval) -> (floor: Option<i64>)
    ensures
        match floor {
            Some(f) => floors_in(*table).contains_key(*interval) && floors_in(*table)[*interval]
                == f,
            None => !floors_in(*table).contains_key(*interval),
        },
{
    table.get(interval).copied()
}

/// The map that an account cache keeps its candles in.
pub type AccountMap = AHashMap<CandleIndex, AccountCandle>;

/// What an account cache holds, as plain values.
pub type AccountRecords = Map<IndexKey, AccountCandleView>;

/// The account candles that a map holds, each under the identity that it was
/// put in with.
pub uninterp spec fn account_candles_in(map: AccountMap) -> AccountRecords;

/// An empty map of account candles, from `AHashMap::new`.
#[verifier::external_body]
pub(crate) fn new_account_map() -> (candles: AccountMap)
    ensures
        account_candles_in(candles) == AccountRecords::empty(),
{
    AHashMap::new()
}

/// Whether `keys` are finitely many, and `count` in number.
pub open spec fn counts<K>(keys: Set<K>, count: int) -> bool {
    keys.finite() && keys.len() == count
}

/// How many candles the map holds, from `len` of the std `HashMap` that an
/// `AHashMap` dereferences to. A map holds finitely many.
#[verifier::external_body]
pub(crate) fn account_map_len(map: &AccountMap) -> (count: usize)
    ensures
        counts(account_candles_in(*map).dom(), count as int),
{
    map.len()
}

/// Puts `candle` under `index` with `AHashMap::insert`, and gives back the
/// candle that was there. Two indexes are one key where their reference,
/// interval and start are equal, which is what the derived `Eq` and `Hash` of
/// `CandleIndex` go by.
#[verifier::external_body]
pub(crate) fn account_map_insert(
    map: &mut AccountMap,
    index: CandleIndex,
    candle: AccountCandle,
) -> (previous: Option<AccountCandle>)
    ensures
        account_candles_in(*final(map)) == account_candles_in(*old(map)).insert(index@, candle@),
        match previous {
            Some(p) => account_candles_in(*old(map)).contains_key(index@) && p@
                == account_candles_in(*old(map))[index@],
            None => !account_candles_in(*old(map)).contains_key(index@),
        },
{
    map.insert(index, candle)
}

/// The candle under `index`, from `AHashMap::get`.
#[verifier::external_body]
pub(crate) fn account_map_get<'a>(
    map: &'a AccountMap,
    index: &CandleIndex,
) -> (candle: Option<&'a AccountCandle>)
    ensures
        match candle {
            Some(c) => account_candles_in(*map).contains_key(index@) && c@ == account_candles_in(
                *map,
            )[index@],
            None => !account_candles_in(*map).contains_key(index@),
        },
{
    map.get(index)
}

/// The candle under `index`, to be changed in place, from
/// `AHashMap::get_mut`: the map ends up holding under `index` what the caller
/// leaves in the candle, and everything else as it was.
#[verifier::external_body]
pub(crate) fn account_map_get_mut<'a>(
    map: &'a mut AccountMap,
    index: &CandleIndex,
) -> (candle: Option<&'a mut AccountCandle>)
    ensures
        match candle {
            Some(c) => {
                &&& account_candles_in(*old(map)).contains_key(index@)
                &&& c@ == account_candles_in(*old(map))[index@]
                &&& account_candles_in(*final(map)) == account_candles_in(*old(map)).insert(
                    index@,
                    final(c)@,
                )
            },
            None => {
                &&& !account_candles_in(*old(map)).contains_key(index@)
                &&& account_candles_in(*final(map)) == account_candles_in(*old(map))
            },
        },
{
    map.get_mut(index)
}

/// Whether `entries` lists what `records` holds: every key once, in some
/// order, each with what is kept under it.
pub open spec fn lists_accounts(
    records: AccountRecords,
    entries: Seq<(&CandleIndex, &AccountCandle)>,
) -> bool {
    &&& forall|i: int|
        0 <= i < entries.len() ==> records.contains_key(#[trigger] entries[i].0@)
            && records[entries[i].0@] == entries[i].1@
    &&& forall|i: int, j: int|
        0 <= i < j < entries.len() ==> #[trigger] entries[i].0@ != #[trigger] entries[j].0@
    &&& forall|k: IndexKey|
        records.contains_key(k) ==> exists|i: int|
            0 <= i < entries.len() && #[trigger] entries[i].0@ == k
}

/// Everything that the map holds, from `iter` of the std `HashMap` that an
/// `AHashMap` dereferences to, in the order in which the map is walked,
/// of which nothing is claimed.
#[verifier::external_body]
pub(crate) fn account_map_entries<'a>(
    map: &'a AccountMap,
) -> (entries: Vec<(&'a CandleIndex, &'a AccountCandle)>)
    ensures
        lists_accounts(account_candles_in(*map), entries@),
{
    map.iter().collect()
}

/// What is left of `records` when the candles that `floors` evicts are gone.
pub open spec fn accounts_kept(records: AccountRecords, floors: Floors) -> AccountRecords {
    Map::new(
        |k: IndexKey|
            records.contains_key(k) && !evicted_by(records[k].interval, records[k].date, floors),
        |k: IndexKey| records[k],
    )
}

/// Drops the candles that `floors` evicts, with `retain` of the std
/// `HashMap` that an `AHashMap` dereferences to: a candle stays if
/// `is_evicted` says no of its interval and date.
#[verifier::external_body]
pub(crate) fn account_map_retain(map: &mut AccountMap, floors: &FloorTable)
    ensures
        account_candles_in(*final(map)) == accounts_kept(
            account_candles_in(*old(map)),
            floors_in(*floors),
        ),
{
    map.retain(|_index, candle| !is_evicted(candle.interval, candle.date, floors));
}

/// The map that a price cache keeps its candles in.
pub type PriceMap = AHashMap<String, BidAskCandle>;

/// What a price cache holds, as plain values.
pub type PriceRecords = Map<Seq<char>, BidAskCandleView>;

/// The price candles that a map holds, each under the text that it was put
/// in with.
pub uninterp spec fn price_candles_in(map: PriceMap) -> PriceRecords;

/// An empty map of price candles, from `AHashMap::new`.
#[verifier::external_body]
pub(crate) fn new_price_map() -> (candles: PriceMap)
    ensures
        price_candles_in(candles) == PriceRecords::empty(),
{
    AHashMap::new()
}

/// How many candles the map holds, from `len` of the std `HashMap` that an
/// `AHashMap` dereferences to. A map holds finitely many.
#[verifier::external_body]
pub(crate) fn price_map_len(map: &PriceMap) -> (count: usize)
    ensures
        counts(price_candles_in(*map).dom(), count as int),
{
    map.len()
}

/// Puts `candle` under `id` with `AHashMap::insert`, and gives back the
/// candle that was there. Two texts are one key where they hold the same
/// characters.
#[verifier::external_body]
pub(crate) fn price_map_insert(
    map: &mut PriceMap,
    id: String,
    candle: BidAskCandle,
) -> (previous: Option<BidAskCandle>)
    ensures
        price_candles_in(*final(map)) == price_candles_in(*old(map)).insert(id@, candle@),
        match previous {
            Some(p) => price_candles_in(*old(map)).contains_key(id@) && p@ == price_candles_in(
                *old(map),
            )[id@],
            None => !price_candles_in(*old(map)).contains_key(id@),
        },
{
    map.insert(id, candle)
}

/// The candle under `id`, from `AHashMap::get`.
#[verifier::external_body]
pub(crate) fn price_map_get<'a>(map: &'a PriceMap, id: &str) -> (candle: Option<&'a BidAskCandle>)
    ensures
        match candle {
            Some(c) => price_candles_in(*map).contains_key(id@)
                && c@ == price_candles_in(*map)[id@],
            None => !price_candles_in(*map).contains_key(id@),
        },
{
    map.get(id)
}

/// The candle under `id`, to be changed in place, from `AHashMap::get_mut`:
/// the map ends up holding under `id` what the caller leaves in the candle,
/// and everything else as it was.
#[verifier::external_body]
pub(crate) fn price_map_get_mut<'a>(
    map: &'a mut PriceMap,
    id: &str,
) -> (candle: Option<&'a mut BidAskCandle>)
    ensures
        match candle {
            Some(c) => {
                &&& price_candles_in(*old(map)).contains_key(id@)
                &&& c@ == price_candles_in(*old(map))[id@]
                &&& price_candles_in(*final(map)) == price_candles_in(*old(map)).insert(
                    id@,
                    final(c)@,
                )
            },
            None => {
                &&& !price_candles_in(*old(map)).contains_key(id@)
                &&& price_candles_in(*final(map)) == price_candles_in(*old(map))
            },
        },
{
    map.get_mut(id)
}

/// Whether `entries` lists what `records` holds: every key once, in some
/// order, each with what is kept under it.
pub open spec fn lists_prices(
    records: PriceRecords,
    entries: Seq<(&String, &BidAskCandle)>,
) -> bool {
    &&& forall|i: int|
        0 <= i < entries.len() ==> records.contains_key(#[trigger] entries[i].0@)
            && records[entries[i].0@] == entries[i].1@
    &&& forall|i: int, j: int|
        0 <= i < j < entries.len() ==> #[trigger] entries[i].0@ != #[trigger] entries[j].0@
    &&& forall|k: Seq<char>|
        records.contains_key(k) ==> exists|i: int|
            0 <= i < entries.len() && #[trigger] entries[i].0@ == k
}

/// Everything that the map holds, from `iter` of the std `HashMap` that an
/// `AHashMap` dereferences to, in the order in which the map is walked,
/// of which nothing is claimed.
#[verifier::external_body]
pub(crate) fn price_map_entries<'a>(
    map: &'a PriceMap,
) -> (entries: Vec<(&'a String, &'a BidAskCandle)>)
    ensures
        lists_prices(price_candles_in(*map), entries@),
{
    map.iter().collect()
}

/// What is left of `records` when the candles that `floors` evicts are gone.
pub open spec fn prices_kept(records: PriceRecords, floors: Floors) -> PriceRecords {
    Map::new(
        |k: Seq<char>|
            records.contains_key(k) && !evicted_by(records[k].index, records[k].date, floors),
        |k: Seq<char>| records[k],
    )
}

/// Drops the candles that `floors` evicts, with `retain` of the std
/// `HashMap` that an `AHashMap` dereferences to: a candle stays if
/// `is_evicted` says no of its interval and date.
#[verifier::external_body]
pub(crate) fn price_map_retain(map: &mut PriceMap, floors: &FloorTable)
    ensures
        price_candles_in(*final(map)) == prices_kept(
            price_candles_in(*old(map)),
            floors_in(*floors),
        ),
{
    map.retain(|_id, candle| !is_evicted(candle.index, candle.date, floors));
}

} // verus!
