//! The candle of an account: the aggregates of its balance, its equity and
//! its profit and loss over one bucket.

use crate::calendar::{now_millis, valid_instant};
use crate::candle_data::CandleData;
use crate::candle_index::{CandleIndex, IndexKey};
use crate::candle_interval::CandleInterval;
use vstd::prelude::*;

verus! {

/// One observation of an account.
#[derive(Debug, Clone, Copy)]
pub struct AccountData {
    pub equity: i64,
    pub balance: i64,
    pub pnl: i64,
}

/// What an `AccountCandle` holds, as plain values.
pub struct AccountCandleView {
    pub interval: CandleInterval,
    pub date: int,
    pub ref_id: Seq<char>,
    pub balance_data: CandleData,
    pub equity_data: CandleData,
    pub pnl_data: CandleData,
}

impl AccountCandleView {
    /// The candle at `key` that has seen `data` only, at `now`.
    pub open spec fn seeded(key: IndexKey, data: AccountData, now: i64) -> AccountCandleView {
        AccountCandleView {
            interval: key.interval,
            date: key.start,
            ref_id: key.ref_id,
            balance_data: CandleData::seeded(data.balance, now),
            equity_data: CandleData::seeded(data.equity, now),
            pnl_data: CandleData::seeded(data.pnl, now),
        }
    }

    /// The candle after it has taken `data`, at `now`.
    pub open spec fn updated(self, data: AccountData, now: i64) -> AccountCandleView {
        AccountCandleView {
            balance_data: self.balance_data.updated(data.balance, now),
            equity_data: self.equity_data.updated(data.equity, now),
            pnl_data: self.pnl_data.updated(data.pnl, now),
            ..self
        }
    }

    /// The identity under which the candle is kept: its own reference and
    /// interval, and the start of the bucket that holds its date.
    pub open spec fn key(self) -> IndexKey {
        IndexKey {
            ref_id: self.ref_id,
            interval: self.interval,
            start: self.interval.start_of(self.date),
        }
    }
}

/// The candle of one account over one bucket.
#[derive(Debug, Clone)]
pub struct AccountCandle {
    pub interval: CandleInterval,
    pub date: i64,
    pub ref_id: String,
    pub balance_data: CandleData,
    pub equity_data: CandleData,
    pub pnl_data: CandleData,
}

impl View for AccountCandle {
    type V = AccountCandleView;

    open spec fn view(&self) -> AccountCandleView {
        AccountCandleView {
            interval: self.interval,
            date: self.date as int,
            ref_id: self.ref_id@,
            balance_data: self.balance_data,
            equity_data: self.equity_data,
            pnl_data: self.pnl_data,
        }
    }
}

impl AccountCandle {
    /// The candle at `index` that has seen `data` only, at `now`.
    pub fn new_at(index: CandleIndex, data: &AccountData, now: i64) -> (candle: AccountCandle)
        ensures
            candle@ == AccountCandleView::seeded(index@, *data, now),
    {
        AccountCandle {
            interval: index.candle_interval,
            date: index.interval_start_date,
            ref_id: index.ref_id,
            balance_data: CandleData::new_at(data.balance, now),
            equity_data: CandleData::new_at(data.equity, now),
            pnl_data: CandleData::new_at(data.pnl, now),
        }
    }

    /// The candle at `index` that has seen `data` only, now.
    pub fn new(index: CandleIndex, data: &AccountData) -> (candle: AccountCandle)
        ensures
            candle@ == AccountCandleView::seeded(index@, *data, candle.balance_data.timestamp),
            valid_instant(candle.balance_data.timestamp as int),
    {
        AccountCandle::new_at(index, data, now_millis())
    }

    /// Takes `data` into the three aggregates, at `now`.
    pub fn update_at(&mut self, data: &AccountData, now: i64)
        ensures
            final(self)@ == old(self)@.updated(*data, now),
    {
        self.balance_data.update_at(data.balance, now);
        self.equity_data.update_at(data.equity, now);
        self.pnl_data.update_at(data.pnl, now);
    }

    /// Takes `data` into the three aggregates, now.
    pub fn update(&mut self, data: &AccountData)
        ensures
            final(self)@ == old(self)@.updated(*data, final(self).balance_data.timestamp),
            valid_instant(final(self).balance_data.timestamp as int),
    {
        self.update_at(data, now_millis());
    }

    /// The identity under which the candle is kept.
    pub fn index(&self) -> (index: CandleIndex)
        requires
            self.interval.covers(self.date as int),
        ensures
            index@ == self@.key(),
    {
        CandleIndex::new(self.ref_id.as_str(), self.interval, self.date)
    }
}

} // verus!
