//! Rolling OHLC candle aggregates over many time granularities: bucket
//! arithmetic, per-interval caches and a cursor-based pager of bucket
//! identifiers.
//!
//! Instants are UTC, counted in milliseconds since 1970-01-01T00:00:00Z and
//! held as `i64`; durations are milliseconds too.

pub mod account_candle;
pub mod account_candles_cache;
pub mod bid_ask_candle;
pub mod bid_ask_candles_cache;
pub mod calendar;
pub mod candle_data;
pub mod candle_index;
pub mod candle_interval;
pub mod candle_pager;
pub mod hashed;
pub mod text;
pub mod utils;
