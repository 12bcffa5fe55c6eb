//! Converts timestamped kline CSV records into a compact fixed-width binary
//! time series: each entry is stored as eight little-endian bytes, a `u32`
//! timestamp in seconds followed by a `u32` price in thousandths.

pub mod appender;
pub mod codec;
pub mod decode;
pub mod entry;
pub mod listing;
pub mod normalize;
pub mod sample;
