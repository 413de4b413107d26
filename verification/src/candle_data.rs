//! The open, close, high and low of a stream of values, and the lowest value
//! since the high was set.
//!
//! Values are integers, counted in the smallest unit of what is measured. A
//! field that holds zero counts as not set yet.

use crate::calendar::{now_millis, valid_instant};
use crate::candle_interval::CandleInterval;
use vstd::prelude::*;

verus! {

/// The aggregate of the values seen in one bucket.
#[derive(Debug, Clone, Copy)]
pub struct CandleData {
    pub open: i64,
    pub close: i64,
    pub high: i64,
    pub low: i64,
    pub low_after_high: i64,
    /// When the aggregate last took a value.
    pub timestamp: i64,
}

impl Default for CandleData {
    fn default() -> (data: CandleData)
        ensures
            data == (CandleData {
                open: 0,
                close: 0,
                high: 0,
                low: 0,
                low_after_high: 0,
                timestamp: 0,
            }),
    {
        CandleData { open: 0, close: 0, high: 0, low: 0, low_after_high: 0, timestamp: 0 }
    }
}

impl CandleData {
    /// The aggregate of the one value `value`, taken at `now`.
    pub open spec fn seeded(value: i64, now: i64) -> CandleData {
        CandleData {
            open: value,
            close: value,
            high: value,
            low: value,
            low_after_high: value,
            timestamp: now,
        }
    }

    /// The aggregate after it has taken `value` at `now`.
    pub open spec fn updated(self, value: i64, now: i64) -> CandleData {
        let new_high = self.high < value || self.high == 0;
        let low_after_high = if new_high {
            value
        } else {
            self.low_after_high
        };
        CandleData {
            open: if self.open == 0 {
                value
            } else {
                self.open
            },
            close: value,
            high: if new_high {
                value
            } else {
                self.high
            },
            low: if self.low > value || self.low == 0 {
                value
            } else {
                self.low
            },
            low_after_high: if low_after_high > value || low_after_high == 0 {
                value
            } else {
                low_after_high
            },
            timestamp: now,
        }
    }

    /// The aggregate of the one value `value`, taken at `now`.
    pub fn new_at(value: i64, now: i64) -> (data: CandleData)
        ensures
            data == CandleData::seeded(value, now),
    {
        CandleData {
            open: value,
            close: value,
            high: value,
            low: value,
            low_after_high: value,
            timestamp: now,
        }
    }

    /// The aggregate of the one value `value`, taken now.
    pub fn new(value: i64) -> (data: CandleData)
        ensures
            data == CandleData::seeded(value, data.timestamp),
            valid_instant(data.timestamp as int),
    {
        CandleData::new_at(value, now_millis())
    }

    /// Takes `value` into the aggregate, at `now`.
    pub fn update_at(&mut self, value: i64, now: i64)
        ensures
            *final(self) == old(self).updated(value, now),
    {
        self.close = value;
        self.timestamp = now;

        if self.open == 0 {
            self.open = value;
        }
        if self.high < value || self.high == 0 {
            self.high = value;
            self.low_after_high = value;
        }
        if self.low > value || self.low == 0 {
            self.low = value;
        }
        if self.low_after_high > value || self.low_after_high == 0 {
            self.low_after_high = value
        }
    }

    /// Takes `value` into the aggregate, now.
    pub fn update(&mut self, value: i64)
        ensures
            *final(self) == old(self).updated(value, final(self).timestamp),
            valid_instant(final(self).timestamp as int),
    {
        self.update_at(value, now_millis());
    }

    /// The start of the bucket of `candle_type` in which the aggregate last
    /// took a value.
    pub fn get_candle_date(&self, candle_type: CandleInterval) -> (start: i64)
        requires
            candle_type.covers(self.timestamp as int),
        ensures
            start == candle_type.start_of(self.timestamp as int),
    {
        candle_type.get_start_date(self.timestamp)
    }
}

/// The aggregate of a run of values, the first of which seeds it. All are
/// taken at `now`.
pub open spec fn aggregate_of(values: Seq<i64>, now: i64) -> CandleData
    decreases values.len(),
{
    if values.len() <= 1 {
        CandleData::seeded(values[0], now)
    } else {
        aggregate_of(values.drop_last(), now).updated(values.last(), now)
    }
}

/// Whether `m` is the largest of `values`.
pub open spec fn is_max_of(m: i64, values: Seq<i64>) -> bool {
    &&& exists|i: int| 0 <= i < values.len() && values[i] == m
    &&& forall|i: int| 0 <= i < values.len() ==> values[i] <= m
}

/// Whether `m` is the smallest of `values`.
pub open spec fn is_min_of(m: i64, values: Seq<i64>) -> bool {
    &&& exists|i: int| 0 <= i < values.len() && values[i] == m
    &&& forall|i: int| 0 <= i < values.len() ==> values[i] >= m
}

/// After a run of values, none of them zero, the aggregate opens with the
/// first and closes with the last, its high is the largest and its low the
/// smallest of them, and its low after the high is the smallest of the values
/// from the one that first reached the high onwards. The result is the place
/// of that value.
pub proof fn lemma_aggregate_of_values(values: Seq<i64>, now: i64) -> (peak: int)
    requires
        values.len() > 0,
        forall|i: int| 0 <= i < values.len() ==> values[i] != 0,
    ensures
        aggregate_of(values, now).open == values[0],
        aggregate_of(values, now).close == values.last(),
        is_max_of(aggregate_of(values, now).high, values),
        is_min_of(aggregate_of(values, now).low, values),
        0 <= peak < values.len(),
        values[peak] == aggregate_of(values, now).high,
        forall|i: int| 0 <= i < peak ==> values[i] < values[peak],
        is_min_of(
            aggregate_of(values, now).low_after_high,
            values.subrange(peak, values.len() as int),
        ),
    decreases values.len(),
{
    let len = values.len() as int;
    let after = aggregate_of(values, now);
    if len == 1 {
        assert(values[0] == after.high);
        assert(values.subrange(0, len)[0] == after.low_after_high);
        0
    } else {
        let earlier = values.drop_last();
        let before = aggregate_of(earlier, now);
        let last = values[len - 1];
        assert forall|i: int| 0 <= i < earlier.len() implies earlier[i] != 0 by {
            assert(earlier[i] == values[i]);
        }
        let earlier_peak = lemma_aggregate_of_values(earlier, now);
        let high_at = choose|i: int| 0 <= i < earlier.len() && earlier[i] == before.high;
        let low_at = choose|i: int| 0 <= i < earlier.len() && earlier[i] == before.low;
        let since = earlier.subrange(earlier_peak, len - 1);
        let low_after_at = choose|i: int| 0 <= i < since.len() && since[i] == before.low_after_high;
        assert(earlier[high_at] == values[high_at]);
        assert(earlier[low_at] == values[low_at]);
        assert(since[low_after_at] == values[earlier_peak + low_after_at]);
        assert(after == before.updated(last, now));
        assert forall|i: int| 0 <= i < len implies values[i] <= after.high && values[i]
            >= after.low by {
            if i < len - 1 {
                assert(earlier[i] == values[i]);
            }
        }
        assert(values[if before.high < last {
            len - 1
        } else {
            high_at
        }] == after.high);
        assert(values[if before.low > last {
            len - 1
        } else {
            low_at
        }] == after.low);
        let peak = if before.high < last {
            len - 1
        } else {
            earlier_peak
        };
        let tail = values.subrange(peak, len);
        assert forall|i: int| 0 <= i < peak implies values[i] < values[peak] by {
            assert(earlier[i] == values[i]);
        }
        if before.high < last {
            assert(tail[0] == after.low_after_high);
        } else {
            assert forall|i: int| 0 <= i < tail.len() implies tail[i] >= after.low_after_high by {
                if i < tail.len() - 1 {
                    assert(since[i] == tail[i]);
                }
            }
            assert(tail[if before.low_after_high > last {
                tail.len() - 1
            } else {
                low_after_at
            }] == after.low_after_high);
        }
        peak
    }
}

} // verus!
