//! A bounded, time-bucketed series of market prices with a lag-k
//! autocorrelation statistic derived from its returns.
//!
//! Prices are fixed-point integers (a positive number of price units), and
//! the statistic is a fixed-point integer scaled by [`sample::SCALE`].
//! The rolling store keeps at most its configured capacity of period-aligned
//! buckets; the engine consumes an ascending snapshot of the store.

pub mod sample;
pub mod autocorrelation;
pub mod cycle;
pub mod extremes;
pub mod series;
