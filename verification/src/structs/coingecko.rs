use vstd::prelude::*;

verus! {

/// The order book of one market in the shape that the listing feed asks for.
#[derive(Debug)]
pub struct CoinGeckoOrderBook {
    pub ticker_id: String,
    /// Milliseconds since the Unix epoch, as text.
    pub timestamp: String,
    pub bids: Vec<(String, String)>,
    pub asks: Vec<(String, String)>,
}

/// The levels of one side of a book, each a price and a size as text.
pub open spec fn level_views(levels: Seq<(String, String)>) -> Seq<(Seq<char>, Seq<char>)> {
    levels.map_values(|l: (String, String)| (l.0@, l.1@))
}

fn clone_levels(levels: &Vec<(String, String)>) -> (copy: Vec<(String, String)>)
    ensures
        level_views(copy@) == level_views(levels@),
{
    let mut copy: Vec<(String, String)> = Vec::new();
    let mut i: usize = 0;
    while i < levels.len()
        invariant
            i <= levels.len(),
            level_views(copy@) == level_views(levels@.take(i as int)),
        decreases levels.len() - i,
    {
        let ghost before = level_views(copy@);
        copy.push((levels[i].0.clone(), levels[i].1.clone()));
        assert(level_views(copy@) =~= before.push((levels@[i as int].0@, levels@[i as int].1@)));
        assert(level_views(levels@.take(i + 1)) =~= level_views(levels@.take(i as int)).push(
            (levels@[i as int].0@, levels@[i as int].1@),
        ));
        i += 1;
    }
    assert(levels@.take(i as int) =~= levels@);
    copy
}

impl Clone for CoinGeckoOrderBook {
    fn clone(&self) -> (book: Self)
        ensures
            book.ticker_id@ == self.ticker_id@,
            book.timestamp@ == self.timestamp@,
            level_views(book.bids@) == level_views(self.bids@),
            level_views(book.asks@) == level_views(self.asks@),
    {
        CoinGeckoOrderBook {
            ticker_id: self.ticker_id.clone(),
            timestamp: self.timestamp.clone(),
            bids: clone_levels(&self.bids),
            asks: clone_levels(&self.asks),
        }
    }
}

/// One traded pair of the listing feed.
#[derive(Debug)]
pub struct CoinGeckoPair {
    pub ticker_id: String,
    pub base: String,
    pub target: String,
    pub pool_id: String,
}

impl Clone for CoinGeckoPair {
    fn clone(&self) -> (pair: Self)
        ensures
            pair.ticker_id@ == self.ticker_id@,
            pair.base@ == self.base@,
            pair.target@ == self.target@,
            pair.pool_id@ == self.pool_id@,
    {
        CoinGeckoPair {
            ticker_id: self.ticker_id.clone(),
            base: self.base.clone(),
            target: self.target.clone(),
            pool_id: self.pool_id.clone(),
        }
    }
}

/// The day's figures of one market in the shape of the listing feed.
#[derive(Debug)]
pub struct CoinGeckoTicker {
    pub ticker_id: String,
    pub address: String,
    pub base_currency: String,
    pub target_currency: String,
    pub last_price: String,
    pub base_volume: String,
    pub target_volume: String,
    pub high: String,
    pub low: String,
}

impl Clone for CoinGeckoTicker {
    fn clone(&self) -> (ticker: Self)
        ensures
            ticker.ticker_id@ == self.ticker_id@,
            ticker.address@ == self.address@,
            ticker.base_currency@ == self.base_currency@,
            ticker.target_currency@ == self.target_currency@,
            ticker.last_price@ == self.last_price@,
            ticker.base_volume@ == self.base_volume@,
            ticker.target_volume@ == self.target_volume@,
            ticker.high@ == self.high@,
            ticker.low@ == self.low@,
    {
        CoinGeckoTicker {
            ticker_id: self.ticker_id.clone(),
            address: self.address.clone(),
            base_currency: self.base_currency.clone(),
            target_currency: self.target_currency.clone(),
            last_price: self.last_price.clone(),
            base_volume: self.base_volume.clone(),
            target_volume: self.target_volume.clone(),
            high: self.high.clone(),
            low: self.low.clone(),
        }
    }
}

/// The traded volume of one market over the last 24 hours.
#[derive(Debug, PartialEq, Eq)]
pub struct PgCoinGecko24HourVolume {
    pub address: String,
    /// The sum of the sizes.
    pub base_size: u128,
    /// The sum of size times price.
    pub quote_size: u128,
}

/// A volume row with the market as a sequence of characters and the two
/// sums as natural numbers.
pub struct VolumeView {
    pub address: Seq<char>,
    pub base_size: nat,
    pub quote_size: nat,
}

impl View for PgCoinGecko24HourVolume {
    type V = VolumeView;

    open spec fn view(&self) -> VolumeView {
        VolumeView {
            address: self.address@,
            base_size: self.base_size as nat,
            quote_size: self.quote_size as nat,
        }
    }
}

impl Default for PgCoinGecko24HourVolume {
    fn default() -> (v: Self)
        ensures
            v@ == (VolumeView { address: Seq::empty(), base_size: 0, quote_size: 0 }),
    {
        PgCoinGecko24HourVolume { address: String::new(), base_size: 0, quote_size: 0 }
    }
}

/// The last price of one market and its high, low and close over the last 24
/// hours.
#[derive(Debug, PartialEq, Eq)]
pub struct PgCoinGecko24HighLow {
    pub address: String,
    /// The price of the latest fill of all time.
    pub last_price: u64,
    pub high: u64,
    pub low: u64,
    pub close: u64,
}

/// A price row with the market as a sequence of characters.
pub struct HighLowView {
    pub address: Seq<char>,
    pub last_price: u64,
    pub high: u64,
    pub low: u64,
    pub close: u64,
}

impl View for PgCoinGecko24HighLow {
    type V = HighLowView;

    open spec fn view(&self) -> HighLowView {
        HighLowView {
            address: self.address@,
            last_price: self.last_price,
            high: self.high,
            low: self.low,
            close: self.close,
        }
    }
}

impl Default for PgCoinGecko24HighLow {
    fn default() -> (v: Self)
        ensures
            v@ == (HighLowView {
                address: Seq::empty(),
                last_price: 0,
                high: 0,
                low: 0,
                close: 0,
            }),
    {
        PgCoinGecko24HighLow { address: String::new(), last_price: 0, high: 0, low: 0, close: 0 }
    }
}

} // verus!
