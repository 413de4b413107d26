//! The candle of an instrument: the aggregates of its bid and of its ask over
//! one bucket, each with the volume traded.

use crate::candle_index::{identifier, write_identifier};
use crate::candle_interval::CandleInterval;
use vstd::prelude::*;

verus! {

/// The sum of two volumes, held at the largest or the smallest `i64` where it
/// would pass it.
pub open spec fn volume_sum(a: i64, b: i64) -> i64 {
    if a + b > i64::MAX {
        i64::MAX
    } else if a + b < i64::MIN {
        i64::MIN
    } else {
        (a + b) as i64
    }
}

/// The aggregate of the prices of one side of the book in one bucket.
#[derive(Debug, Clone, Copy)]
pub struct BidAskCandleData {
    pub open: i64,
    pub close: i64,
    pub high: i64,
    pub low: i64,
    /// When the aggregate last took a price.
    pub datetime: i64,
    pub volume: i64,
}

impl BidAskCandleData {
    /// The aggregate of the one price `price`, taken at `datetime`.
    pub open spec fn seeded(datetime: i64, price: i64, volume: i64) -> BidAskCandleData {
        BidAskCandleData { open: price, close: price, high: price, low: price, datetime, volume }
    }

    /// The aggregate after it has taken `price` at `datetime`. A field that
    /// holds zero counts as not set yet.
    pub open spec fn updated(self, datetime: i64, price: i64, volume: i64) -> BidAskCandleData {
        BidAskCandleData {
            open: if self.open == 0 {
                price
            } else {
                self.open
            },
            close: price,
            high: if self.high < price || self.high == 0 {
                price
            } else {
                self.high
            },
            low: if self.low > price || self.low == 0 {
                price
            } else {
                self.low
            },
            datetime,
            volume: volume_sum(self.volume, volume),
        }
    }

    /// The aggregate of the one price `price`, taken at `datetime`.
    pub fn new(datetime: i64, price: i64, volume: i64) -> (data: BidAskCandleData)
        ensures
            data == BidAskCandleData::seeded(datetime, price, volume),
    {
        BidAskCandleData { open: price, close: price, high: price, low: price, datetime, volume }
    }

    /// Takes `price` into the aggregate, at `datetime`, and adds `volume` to
    /// its volume.
    pub fn update(&mut self, datetime: i64, price: i64, volume: i64)
        ensures
            *final(self) == old(self).updated(datetime, price, volume),
    {
        self.close = price;
        self.volume = match self.volume.checked_add(volume) {
            Some(sum) => sum,
            None => if volume > 0 {
                i64::MAX
            } else {
                i64::MIN
            },
        };
        self.datetime = datetime;

        if self.open == 0 {
            self.open = price;
        }
        if self.high < price || self.high == 0 {
            self.high = price;
        }
        if self.low > price || self.low == 0 {
            self.low = price;
        }
    }

    /// The start of the bucket of `candle_type` in which the aggregate last
    /// took a price.
    pub fn get_candle_date(&self, candle_type: CandleInterval) -> (start: i64)
        requires
            candle_type.covers(self.datetime as int),
        ensures
            start == candle_type.start_of(self.datetime as int),
    {
        candle_type.get_start_date(self.datetime)
    }
}

/// What a `BidAskCandle` holds, as plain values.
pub struct BidAskCandleView {
    pub index: CandleInterval,
    pub date: int,
    pub instrument: Seq<char>,
    pub bid_data: BidAskCandleData,
    pub ask_data: BidAskCandleData,
}

impl BidAskCandleView {
    /// The candle after it has taken a bid and an ask at `datetime`.
    pub open spec fn updated(
        self,
        datetime: i64,
        bid: i64,
        ask: i64,
        bid_vol: i64,
        ask_vol: i64,
    ) -> BidAskCandleView {
        BidAskCandleView {
            bid_data: self.bid_data.updated(datetime, bid, bid_vol),
            ask_data: self.ask_data.updated(datetime, ask, ask_vol),
            ..self
        }
    }

    /// The text under which the candle is kept.
    pub open spec fn id(self) -> Seq<char> {
        identifier(self.index, self.instrument, self.index.start_of(self.date))
    }
}

/// The candle of one instrument over one bucket.
#[derive(Clone)]
pub struct BidAskCandle {
    pub index: CandleInterval,
    pub date: i64,
    pub instrument: String,
    pub bid_data: BidAskCandleData,
    pub ask_data: BidAskCandleData,
}

impl View for BidAskCandle {
    type V = BidAskCandleView;

    open spec fn view(&self) -> BidAskCandleView {
        BidAskCandleView {
            index: self.index,
            date: self.date as int,
            instrument: self.instrument@,
            bid_data: self.bid_data,
            ask_data: self.ask_data,
        }
    }
}

impl BidAskCandle {
    /// Takes a bid and an ask into the candle, at `datetime`.
    pub fn update(&mut self, datetime: i64, bid: i64, ask: i64, bid_vol: i64, ask_vol: i64)
        ensures
            final(self)@ == old(self)@.updated(datetime, bid, ask, bid_vol, ask_vol),
    {
        self.bid_data.update(datetime, bid, bid_vol);
        self.ask_data.update(datetime, ask, ask_vol);
    }

    /// The text that stands for the candle of `instrument` at `candle_type`
    /// whose bucket holds `datetime`.
    pub fn generate_id(
        instrument: &str,
        candle_type: &CandleInterval,
        datetime: i64,
    ) -> (id: String)
        requires
            candle_type.covers(datetime as int),
        ensures
            id@ == identifier(*candle_type, instrument@, candle_type.start_of(datetime as int)),
    {
        write_identifier(*candle_type, instrument, candle_type.get_start_date(datetime))
    }

    /// The text under which the candle is kept.
    pub fn get_id(&self) -> (id: String)
        requires
            self.index.covers(self.date as int),
        ensures
            id@ == self@.id(),
    {
        BidAskCandle::generate_id(self.instrument.as_str(), &self.index, self.date)
    }
}

} // verus!
