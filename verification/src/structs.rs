//! The data types that the ledger, the store and the engines exchange.

pub mod resolution;
pub mod candle;
pub mod openbook;
pub mod coingecko;
pub mod trader;
