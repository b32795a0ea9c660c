//! A limit-order matching engine for a single instrument, together with a
//! venue-fed market-data book and a fixed-point decimal codec for the wire
//! boundary. Prices and quantities are integers throughout; decimals appear
//! only in the strings the venue sends and receives.

pub mod fixed_point;
pub mod level;
pub mod match_core;
pub mod matching;
pub mod order;
pub mod venue_book;
