use vstd::prelude::*;
use crate::structs::resolution::Resolution;

verus! {

/// One price and volume summary for one time bucket of one market.
#[derive(Debug, PartialEq, Eq)]
pub struct Candle {
    pub market_name: String,
    pub start_time: i64,
    pub end_time: i64,
    pub resolution: Resolution,
    pub open: u64,
    pub close: u64,
    pub high: u64,
    pub low: u64,
    pub volume: u128,
    pub complete: bool,
}

/// What a candle holds, with the market name as a sequence of characters
/// and the volume as a natural number.
pub struct CandleView {
    pub market_name: Seq<char>,
    pub start_time: i64,
    pub end_time: i64,
    pub resolution: Resolution,
    pub open: u64,
    pub close: u64,
    pub high: u64,
    pub low: u64,
    pub volume: nat,
    pub complete: bool,
}

/// The identity of a bucket: at most one candle is stored for each.
pub struct CandleKey {
    pub market_name: Seq<char>,
    pub start_time: i64,
    pub resolution: Resolution,
}

impl CandleView {
    pub open spec fn key(self) -> CandleKey {
        CandleKey {
            market_name: self.market_name,
            start_time: self.start_time,
            resolution: self.resolution,
        }
    }

    /// The bucket ends one duration after it starts, and the four prices are
    /// ordered as prices of one set of fills are.
    pub open spec fn wf(self) -> bool {
        &&& self.end_time == self.start_time + self.resolution.nanos()
        &&& self.low <= self.open <= self.high
        &&& self.low <= self.close <= self.high
    }
}

impl View for Candle {
    type V = CandleView;

    open spec fn view(&self) -> CandleView {
        CandleView {
            market_name: self.market_name@,
            start_time: self.start_time,
            end_time: self.end_time,
            resolution: self.resolution,
            open: self.open,
            close: self.close,
            high: self.high,
            low: self.low,
            volume: self.volume as nat,
            complete: self.complete,
        }
    }
}

impl Clone for Candle {
    fn clone(&self) -> (c: Self)
        ensures
            c@ == self@,
    {
        Candle {
            market_name: self.market_name.clone(),
            start_time: self.start_time,
            end_time: self.end_time,
            resolution: self.resolution,
            open: self.open,
            close: self.close,
            high: self.high,
            low: self.low,
            volume: self.volume,
            complete: self.complete,
        }
    }
}

} // verus!
