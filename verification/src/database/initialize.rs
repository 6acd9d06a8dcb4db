//! Setting up the candle table.

use vstd::prelude::*;
use crate::database::store::CandleStore;

verus! {

/// Creates the candle table: an empty store that keeps at most one candle
/// for each market, start time and resolution.
pub fn create_candles_table() -> (store: CandleStore)
    ensures
        store.wf(),
        store@.len() == 0,
{
    CandleStore::new()
}

} // verus!
