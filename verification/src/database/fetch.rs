//! The read operations: fills from the ledger, candles from the store, and
//! the snapshots and rankings that are computed from the ledger on demand.

use vstd::prelude::*;
use crate::aggregator::bucket_fills;
use crate::database::ledger::FillLedger;
use crate::database::ranking::{
    fetch_top_traders, in_window, is_ranking, trader_views, AccountingMode, TOP_TRADERS_LIMIT,
};
use crate::database::snapshot::{market_high_low, market_volume, price_snapshot, volume_snapshot};
use crate::database::store::{
    ascending, candle_views, lemma_lookup_at, lookup, unique_keys, CandleStore,
};
use crate::fills::{earliest, fill_views, lemma_filter_step, maker_of, ordered};
use crate::structs::candle::{Candle, CandleKey, CandleView};
use crate::structs::coingecko::{PgCoinGecko24HighLow, PgCoinGecko24HourVolume};
use crate::structs::openbook::PgOpenBookFill;
use crate::structs::resolution::Resolution;
use crate::structs::trader::PgTrader;

verus! {

/// The most candles that `fetch_earliest_candles` returns. A guard on the
/// size of one answer: callers that need more page by time range.
pub const EARLIEST_CANDLES_LIMIT: usize = 2000;

/// The candles of a market at a resolution.
pub open spec fn of_market(market: Seq<char>, resolution: Resolution) -> spec_fn(
    CandleView,
) -> bool {
    |c: CandleView| c.market_name == market && c.resolution == resolution
}

/// The complete candles of a market at a resolution.
pub open spec fn finished(market: Seq<char>, resolution: Resolution) -> spec_fn(
    CandleView,
) -> bool {
    |c: CandleView| c.market_name == market && c.resolution == resolution && c.complete
}

/// The candles of a market at a resolution that start at `start_time` or
/// later and end at `end_time` or earlier.
pub open spec fn within(
    market: Seq<char>,
    resolution: Resolution,
    start_time: i64,
    end_time: i64,
) -> spec_fn(CandleView) -> bool {
    |c: CandleView|
        c.market_name == market && c.resolution == resolution && c.start_time >= start_time
            && c.end_time <= end_time
}

/// The first `limit` rows, or all of them where there are no more.
pub open spec fn at_most(rows: Seq<CandleView>, limit: int) -> Seq<CandleView> {
    if rows.len() <= limit {
        rows
    } else {
        rows.take(limit)
    }
}

/// Each row starts strictly before the next.
pub open spec fn strictly_ascending(rows: Seq<CandleView>) -> bool {
    forall|i: int, j: int|
        0 <= i < j < rows.len() ==> (#[trigger] rows[i]).start_time < (
        #[trigger] rows[j]).start_time
}

/// Of a store's rows, those of one market and one resolution start at
/// distinct times, so any selection of them ascends strictly.
pub proof fn lemma_selection_strictly_ascending(
    rows: Seq<CandleView>,
    pred: spec_fn(CandleView) -> bool,
    market: Seq<char>,
    resolution: Resolution,
)
    requires
        unique_keys(rows),
        ascending(rows),
        forall|c: CandleView| #[trigger]
            pred(c) ==> c.market_name == market && c.resolution == resolution,
    ensures
        strictly_ascending(rows.filter(pred)),
    decreases rows.len(),
{
    reveal(Seq::filter);
    if rows.len() > 0 {
        let rest = rows.drop_last();
        assert forall|i: int, j: int| 0 <= i < j < rest.len() implies (#[trigger] rest[i]).key()
            != (#[trigger] rest[j]).key() && rest[i].start_time <= rest[j].start_time by {
            assert(rest[i] == rows[i] && rest[j] == rows[j]);
        }
        lemma_selection_strictly_ascending(rest, pred, market, resolution);
        let kept = rest.filter(pred);
        if pred(rows.last()) {
            let all = kept.push(rows.last());
            assert forall|i: int, j: int| 0 <= i < j < all.len() implies (
            #[trigger] all[i]).start_time < (#[trigger] all[j]).start_time by {
                if j < kept.len() {
                    assert(all[i] == kept[i] && all[j] == kept[j]);
                } else {
                    rest.lemma_filter_contains_rev(pred, kept[i]);
                    rest.lemma_filter_pred(pred, i);
                    let k = choose|k: int| 0 <= k < rest.len() && rest[k] == kept[i];
                    let n = rows.len() - 1;
                    assert(rows[k] == kept[i] && rows[n] == rows.last());
                    assert(rows[k].key() != rows[n].key());
                    assert(rows[k].start_time <= rows[n].start_time);
                }
            }
        }
    }
}

/// Two sequences that ascend strictly and hold the same rows are the same
/// sequence.
proof fn lemma_strictly_ascending_equal(x: Seq<CandleView>, y: Seq<CandleView>)
    requires
        strictly_ascending(x),
        strictly_ascending(y),
        forall|i: int| 0 <= i < x.len() ==> y.contains(#[trigger] x[i]),
        forall|j: int| 0 <= j < y.len() ==> x.contains(#[trigger] y[j]),
    ensures
        x == y,
    decreases x.len(),
{
    if x.len() == 0 {
        if y.len() > 0 {
            assert(x.contains(y[0]));
        }
        assert(x =~= y);
    } else {
        assert(y.contains(x[0]));
        let n = x.len() - 1;
        let m = y.len() - 1;
        assert(y.contains(x[n]));
        let j = choose|j: int| 0 <= j < y.len() && y[j] == x[n];
        assert(x.contains(y[m]));
        let i = choose|i: int| 0 <= i < x.len() && x[i] == y[m];
        assert(i == n && j == m) by {
            if j < m {
                assert(y[j].start_time < y[m].start_time);
            }
            if i < n {
                assert(x[i].start_time < x[n].start_time);
            }
        }
        let x0 = x.drop_last();
        let y0 = y.drop_last();
        assert forall|a: int| 0 <= a < x0.len() implies y0.contains(#[trigger] x0[a]) by {
            assert(x0[a] == x[a]);
            assert(y.contains(x[a]));
            let b = choose|b: int| 0 <= b < y.len() && y[b] == x[a];
            assert(x[a].start_time < x[n].start_time);
            assert(b < m);
            assert(y0[b] == x0[a]);
        }
        assert forall|b: int| 0 <= b < y0.len() implies x0.contains(#[trigger] y0[b]) by {
            assert(y0[b] == y[b]);
            assert(x.contains(y[b]));
            let a = choose|a: int| 0 <= a < x.len() && x[a] == y[b];
            assert(y[b].start_time < y[m].start_time);
            assert(a < n);
            assert(x0[a] == y0[b]);
        }
        assert forall|a: int, b: int| 0 <= a < b < x0.len() implies (
        #[trigger] x0[a]).start_time < (#[trigger] x0[b]).start_time by {
            assert(x0[a] == x[a] && x0[b] == x[b]);
        }
        assert forall|a: int, b: int| 0 <= a < b < y0.len() implies (
        #[trigger] y0[a]).start_time < (#[trigger] y0[b]).start_time by {
            assert(y0[a] == y[a] && y0[b] == y[b]);
        }
        lemma_strictly_ascending_equal(x0, y0);
        assert(x =~= x0.push(x[n]));
        assert(y =~= y0.push(y[m]));
    }
}

/// What a query selects is decided by the rows of the store bucket by
/// bucket: two stores that hold the same candle for every bucket give the
/// same candles of a market at a resolution, in the same order, whatever the
/// order in which their rows were merged.
pub proof fn lemma_selection_determined(
    a: Seq<CandleView>,
    b: Seq<CandleView>,
    pred: spec_fn(CandleView) -> bool,
    market: Seq<char>,
    resolution: Resolution,
)
    requires
        unique_keys(a),
        ascending(a),
        unique_keys(b),
        ascending(b),
        forall|key: CandleKey| #[trigger] lookup(a, key) == lookup(b, key),
        forall|c: CandleView| #[trigger]
            pred(c) ==> c.market_name == market && c.resolution == resolution,
    ensures
        a.filter(pred) == b.filter(pred),
{
    let fa = a.filter(pred);
    let fb = b.filter(pred);
    lemma_selection_strictly_ascending(a, pred, market, resolution);
    lemma_selection_strictly_ascending(b, pred, market, resolution);
    assert forall|i: int| 0 <= i < fa.len() implies fb.contains(#[trigger] fa[i]) by {
        lemma_held_by_both(a, b, pred, fa[i]);
    }
    assert forall|j: int| 0 <= j < fb.len() implies fa.contains(#[trigger] fb[j]) by {
        lemma_held_by_both(b, a, pred, fb[j]);
    }
    lemma_strictly_ascending_equal(fa, fb);
}

proof fn lemma_held_by_both(
    a: Seq<CandleView>,
    b: Seq<CandleView>,
    pred: spec_fn(CandleView) -> bool,
    row: CandleView,
)
    requires
        unique_keys(a),
        lookup(a, row.key()) == lookup(b, row.key()),
        a.filter(pred).contains(row),
    ensures
        b.filter(pred).contains(row),
{
    a.lemma_filter_contains_rev(pred, row);
    let k = choose|k: int| 0 <= k < a.filter(pred).len() && a.filter(pred)[k] == row;
    a.lemma_filter_pred(pred, k);
    let i = choose|i: int| 0 <= i < a.len() && a[i] == row;
    lemma_lookup_at(a, i);
    let j = choose|j: int| 0 <= j < b.len() && (#[trigger] b[j]).key() == row.key();
    assert(b[j] == row);
    b.lemma_filter_contains(pred, j);
}

/// The earliest maker fill of a market, or `None` where the ledger holds
/// none.
pub fn fetch_earliest_fill(
    ledger: &FillLedger,
    market_address_string: &str,
) -> (result: Option<PgOpenBookFill>)
    requires
        ledger.wf(),
    ensures
        match result {
            Some(fill) => ledger@.filter(maker_of(market_address_string@)).len() > 0 && fill@
                == earliest(ledger@.filter(maker_of(market_address_string@))),
            None => ledger@.filter(maker_of(market_address_string@)).len() == 0,
        },
{
    ledger.earliest_fill(market_address_string, true)
}

/// The maker fills of a market with a time in `[start_time, end_time)`,
/// ascending by time and then by sequence number: the fills that count for
/// the bucket with these bounds.
pub fn fetch_fills_from(
    ledger: &FillLedger,
    market_address_string: &str,
    start_time: i64,
    end_time: i64,
) -> (fills: Vec<PgOpenBookFill>)
    requires
        ledger.wf(),
    ensures
        fill_views(fills@) == bucket_fills(
            ledger@,
            market_address_string@,
            start_time as int,
            end_time as int,
        ),
        ordered(fill_views(fills@)),
{
    ledger.fills_in_range(market_address_string, start_time, end_time, true)
}

/// The most recent complete candle of a market at a resolution: of the
/// complete ones, the one that starts last.
pub fn fetch_latest_finished_candle(
    store: &CandleStore,
    market_name: &str,
    resolution: Resolution,
) -> (result: Option<Candle>)
    requires
        store.wf(),
    ensures
        match result {
            Some(candle) => {
                let complete = store@.filter(finished(market_name@, resolution));
                &&& complete.len() > 0
                &&& candle@ == complete.last()
                &&& forall|i: int|
                    0 <= i < complete.len() - 1 ==> (#[trigger] complete[i]).start_time
                        < candle@.start_time
            },
            None => store@.filter(finished(market_name@, resolution)).len() == 0,
        },
{
    let market = String::from_str(market_name);
    let ghost rows = store@;
    let ghost pred = finished(market_name@, resolution);
    let n = store.len();
    let mut found = false;
    let mut latest: usize = 0;
    let mut i: usize = 0;
    assert(rows.take(0).filter(pred).len() == 0) by {
        reveal(Seq::filter);
    }
    while i < n
        invariant
            i <= n == rows.len(),
            rows == store@,
            pred == finished(market_name@, resolution),
            market@ == market_name@,
            found == (rows.take(i as int).filter(pred).len() > 0),
            found ==> latest < i && rows[latest as int] == rows.take(i as int).filter(pred).last(),
        decreases n - i,
    {
        let candle = store.get(i);
        proof {
            lemma_filter_step(rows, i as int, pred);
        }
        if candle.complete && candle.resolution == resolution && candle.market_name == market {
            found = true;
            latest = i;
        }
        i += 1;
    }
    proof {
        assert(rows.take(i as int) =~= rows);
        store.lemma_one_candle_per_bucket();
        lemma_selection_strictly_ascending(rows, pred, market_name@, resolution);
    }
    if found {
        Some(store.get(latest).clone())
    } else {
        None
    }
}

/// The candles that `pred` selects, in the order of the store, and no more
/// than `limit` of them.
fn select_candles(
    store: &CandleStore,
    market: &String,
    resolution: Resolution,
    range: Option<(i64, i64)>,
    limit: usize,
) -> (candles: Vec<Candle>)
    ensures
        candle_views(candles@) == at_most(
            store@.filter(
                match range {
                    Some((start_time, end_time)) => within(
                        market@,
                        resolution,
                        start_time,
                        end_time,
                    ),
                    None => of_market(market@, resolution),
                },
            ),
            limit as int,
        ),
{
    let ghost rows = store@;
    let ghost pred = match range {
        Some((start_time, end_time)) => within(market@, resolution, start_time, end_time),
        None => of_market(market@, resolution),
    };
    let mut candles: Vec<Candle> = Vec::new();
    let n = store.len();
    let mut i: usize = 0;
    assert(rows.take(0).filter(pred) =~= candle_views(candles@)) by {
        reveal(Seq::filter);
    }
    while i < n && candles.len() < limit
        invariant
            i <= n == rows.len(),
            rows == store@,
            pred == match range {
                Some((start_time, end_time)) => within(market@, resolution, start_time, end_time),
                None => of_market(market@, resolution),
            },
            candle_views(candles@) == rows.take(i as int).filter(pred),
            candles.len() <= limit,
        decreases n - i,
    {
        let candle = store.get(i);
        proof {
            lemma_filter_step(rows, i as int, pred);
        }
        let in_range = match range {
            Some((start_time, end_time)) => candle.start_time >= start_time && candle.end_time
                <= end_time,
            None => true,
        };
        if in_range && candle.resolution == resolution && candle.market_name == *market {
            let ghost before = candle_views(candles@);
            candles.push(candle.clone());
            assert(candle_views(candles@) =~= before.push(candle@));
        }
        i += 1;
    }
    proof {
        let head = rows.take(i as int);
        let tail = rows.skip(i as int);
        assert(rows =~= head + tail);
        Seq::filter_distributes_over_add(head, tail, pred);
        if i == n {
            assert(tail.filter(pred).len() == 0) by {
                reveal(Seq::filter);
            }
            assert(rows.filter(pred) =~= head.filter(pred));
        } else {
            assert(rows.filter(pred).take(limit as int) =~= head.filter(pred));
        }
    }
    candles
}

/// The earliest candles of a market at a resolution, ascending by start
/// time: the first 2000, or all of them where there are no more.
pub fn fetch_earliest_candles(
    store: &CandleStore,
    market_name: &str,
    resolution: Resolution,
) -> (candles: Vec<Candle>)
    requires
        store.wf(),
    ensures
        candle_views(candles@) == at_most(
            store@.filter(of_market(market_name@, resolution)),
            EARLIEST_CANDLES_LIMIT as int,
        ),
        strictly_ascending(candle_views(candles@)),
{
    let market = String::from_str(market_name);
    let candles = select_candles(store, &market, resolution, None, EARLIEST_CANDLES_LIMIT);
    proof {
        store.lemma_one_candle_per_bucket();
        let pred = of_market(market_name@, resolution);
        lemma_selection_strictly_ascending(store@, pred, market_name@, resolution);
    }
    candles
}

/// The candles of a market at a resolution that start at `start_time` or
/// later and end at `end_time` or earlier, ascending by start time.
pub fn fetch_candles_from(
    store: &CandleStore,
    market_name: &str,
    resolution: Resolution,
    start_time: i64,
    end_time: i64,
) -> (candles: Vec<Candle>)
    requires
        store.wf(),
    ensures
        candle_views(candles@) == store@.filter(
            within(market_name@, resolution, start_time, end_time),
        ),
        strictly_ascending(candle_views(candles@)),
{
    let market = String::from_str(market_name);
    let candles = select_candles(
        store,
        &market,
        resolution,
        Some((start_time, end_time)),
        store.len(),
    );
    proof {
        store.lemma_one_candle_per_bucket();
        let pred = within(market_name@, resolution, start_time, end_time);
        lemma_selection_strictly_ascending(store@, pred, market_name@, resolution);
        store@.lemma_filter_len(pred);
    }
    candles
}

/// The accounts that traded the most base volume in a market over
/// `[start_time, end_time)`: the ask size of an account sums what its asks
/// paid, its bid size what its bids received. Descending by the two
/// together, the first 10,000 at most.
pub fn fetch_top_traders_by_base_volume_from(
    ledger: &FillLedger,
    market_address_string: &str,
    start_time: i64,
    end_time: i64,
) -> (traders: Vec<PgTrader>)
    ensures
        is_ranking(
            ledger@.filter(in_window(market_address_string@, start_time, end_time)),
            AccountingMode::ByBase,
            trader_views(traders@),
            TOP_TRADERS_LIMIT as int,
        ),
{
    fetch_top_traders(
        ledger,
        market_address_string,
        start_time,
        end_time,
        AccountingMode::ByBase,
    )
}

/// The accounts that traded the most quote volume in a market over
/// `[start_time, end_time)`: the two native quantities change roles, so the
/// ask size sums what the bids received and the bid size what the asks paid.
/// Descending by the two together, the first 10,000 at most.
pub fn fetch_top_traders_by_quote_volume_from(
    ledger: &FillLedger,
    market_address_string: &str,
    start_time: i64,
    end_time: i64,
) -> (traders: Vec<PgTrader>)
    ensures
        is_ranking(
            ledger@.filter(in_window(market_address_string@, start_time, end_time)),
            AccountingMode::ByQuote,
            trader_views(traders@),
            TOP_TRADERS_LIMIT as int,
        ),
{
    fetch_top_traders(
        ledger,
        market_address_string,
        start_time,
        end_time,
        AccountingMode::ByQuote,
    )
}

/// The 24-hour volumes of a batch of markets: one row for each market asked
/// for, in the order asked, with both volumes 0 for a market without a maker
/// fill in the 24 hours that end at `now`.
pub fn fetch_coingecko_24h_volume(
    ledger: &FillLedger,
    market_address_strings: &Vec<&str>,
    now: i64,
) -> (volumes: Vec<PgCoinGecko24HourVolume>)
    requires
        ledger.wf(),
    ensures
        volumes@.len() == market_address_strings@.len(),
        forall|i: int|
            0 <= i < volumes@.len() ==> (#[trigger] volumes@[i])@ == volume_snapshot(
                ledger@,
                market_address_strings@[i]@,
                now,
            ),
{
    let mut volumes: Vec<PgCoinGecko24HourVolume> = Vec::new();
    let mut i: usize = 0;
    while i < market_address_strings.len()
        invariant
            i <= market_address_strings@.len(),
            ledger.wf(),
            volumes@.len() == i,
            forall|k: int|
                0 <= k < i ==> (#[trigger] volumes@[k])@ == volume_snapshot(
                    ledger@,
                    market_address_strings@[k]@,
                    now,
                ),
        decreases market_address_strings.len() - i,
    {
        volumes.push(market_volume(ledger, market_address_strings[i], now));
        i += 1;
    }
    volumes
}

/// The price snapshots of a batch of markets: one row for each market asked
/// for, in the order asked. A market without a maker fill in the 24 hours
/// that end at `now` reports its last price as high, low and close; a market
/// without any maker fill reports 0 throughout.
pub fn fetch_coingecko_24h_high_low(
    ledger: &FillLedger,
    market_address_strings: &Vec<&str>,
    now: i64,
) -> (snapshots: Vec<PgCoinGecko24HighLow>)
    ensures
        snapshots@.len() == market_address_strings@.len(),
        forall|i: int|
            0 <= i < snapshots@.len() ==> (#[trigger] snapshots@[i])@ == price_snapshot(
                ledger@,
                market_address_strings@[i]@,
                now,
            ),
{
    let mut snapshots: Vec<PgCoinGecko24HighLow> = Vec::new();
    let mut i: usize = 0;
    while i < market_address_strings.len()
        invariant
            i <= market_address_strings@.len(),
            snapshots@.len() == i,
            forall|k: int|
                0 <= k < i ==> (#[trigger] snapshots@[k])@ == price_snapshot(
                    ledger@,
                    market_address_strings@[k]@,
                    now,
                ),
        decreases market_address_strings.len() - i,
    {
        snapshots.push(market_high_low(ledger, market_address_strings[i], now));
        i += 1;
    }
    snapshots
}

} // verus!
