//! Candle aggregation, candle storage and market analytics over a ledger of
//! trade fills.
//!
//! - `database::ledger`: the fill ledger, an ordered, append-only log of
//!   executed fills.
//! - `aggregator`: reduces the fills of one bucket of one market to one
//!   candle.
//! - `database::store`: the candle store, with at most one candle for each
//!   market, start time and resolution, written by a batch merge that applies
//!   as a whole or not at all.
//! - `database::insert`: the text of the statement that merges a batch into a
//!   relational store.
//! - `database::snapshot` and `database::ranking`: the last price, the
//!   24-hour high, low, close and volumes of a market, and the accounts that
//!   traded the most in a window, computed from the ledger on demand.
//! - `database::fetch`: the read operations over the ledger and the store.
//!
//! Prices, sizes and quantities are fixed-point integers; times are
//! nanoseconds since the Unix epoch in UTC. Each data type has a view that
//! holds its names as sequences of characters and its sums as natural
//! numbers, and the contracts speak of these views.
//!
//! One hazard is left to the caller: the merge overwrites the stored candle
//! of a bucket with the candle it is given, so a candle made from a part of
//! the fills of its bucket must never be merged.

pub mod structs;
pub mod text;
pub mod fills;
pub mod aggregator;
pub mod database;
