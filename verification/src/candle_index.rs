//! The identity of a candle: whose it is, at which granularity, and in which
//! bucket.

use crate::calendar::MILLIS_PER_SECOND;
use crate::candle_interval::CandleInterval;
use crate::text::{append_decimal, decimal};
use vstd::prelude::*;
use vstd::string::StringExecFns;

verus! {

/// The text form of a candle's identity: the interval's code, the reference,
/// and the bucket's start in whole seconds since 1970, with nothing between
/// them.
pub open spec fn identifier(interval: CandleInterval, ref_id: Seq<char>, start: int) -> Seq<char> {
    decimal(interval.code()) + ref_id + decimal(start / (MILLIS_PER_SECOND as int))
}

/// Writes the text form of a candle's identity.
pub fn write_identifier(interval: CandleInterval, ref_id: &str, start: i64) -> (id: String)
    ensures
        id@ == identifier(interval, ref_id@, start as int),
{
    let mut id = String::new();
    append_decimal(&mut id, interval.discriminant() as i64);
    id.append(ref_id);
    let seconds: i64 = match start.checked_div_euclid(MILLIS_PER_SECOND) {
        Some(s) => s,
        None => 0,
    };
    append_decimal(&mut id, seconds);
    assert(id@ =~= identifier(interval, ref_id@, start as int));
    id
}

/// What a `CandleIndex` holds, as plain values.
pub struct IndexKey {
    pub ref_id: Seq<char>,
    pub interval: CandleInterval,
    pub start: int,
}

/// The identity of a candle.
#[derive(Debug, Eq, Hash, PartialEq)]
pub struct CandleIndex {
    pub ref_id: String,
    pub candle_interval: CandleInterval,
    pub interval_start_date: i64,
}

impl View for CandleIndex {
    type V = IndexKey;

    open spec fn view(&self) -> IndexKey {
        IndexKey {
            ref_id: self.ref_id@,
            interval: self.candle_interval,
            start: self.interval_start_date as int,
        }
    }
}

impl Clone for CandleIndex {
    fn clone(&self) -> (copy: CandleIndex)
        ensures
            copy@ == self@,
    {
        CandleIndex {
            ref_id: self.ref_id.clone(),
            candle_interval: self.candle_interval,
            interval_start_date: self.interval_start_date,
        }
    }
}

/// The identity of the candle of `ref_id` at `interval` whose bucket holds `t`.
pub open spec fn index_key(ref_id: Seq<char>, interval: CandleInterval, t: int) -> IndexKey {
    IndexKey { ref_id, interval, start: interval.start_of(t) }
}

impl CandleIndex {
    /// The identity of the candle of `ref_id` at `candle_interval` whose
    /// bucket holds `date`.
    pub fn new(ref_id: &str, candle_interval: CandleInterval, date: i64) -> (index: CandleIndex)
        requires
            candle_interval.covers(date as int),
        ensures
            index@ == index_key(ref_id@, candle_interval, date as int),
    {
        let interval_start_date: i64 = candle_interval.get_start_date(date);
        CandleIndex { ref_id: String::from_str(ref_id), candle_interval, interval_start_date }
    }

    /// The text form of the identity.
    pub fn as_string(&self) -> (id: String)
        ensures
            id@ == identifier(self.candle_interval, self.ref_id@, self.interval_start_date as int),
    {
        write_identifier(self.candle_interval, self.ref_id.as_str(), self.interval_start_date)
    }
}

} // verus!
