//! The fill ledger, the candle store and the queries over them.

pub mod ledger;
pub mod store;
pub mod initialize;
pub mod insert;
pub mod snapshot;
pub mod ranking;
pub mod fetch;
