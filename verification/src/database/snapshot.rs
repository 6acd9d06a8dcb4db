//! The market snapshot engine: the last price of a market and its high, low,
//! close and volumes over the last 24 hours, computed from the ledger.

use vstd::prelude::*;
use crate::database::ledger::FillLedger;
use crate::fills::{
    highest_price, latest, lemma_filter_step, lemma_latest_is_maximal, lemma_price_bounds,
    lemma_total_notional_filter, lemma_total_notional_prefix, lemma_total_size_bound,
    lowest_price, maker_of, total_notional, total_size,
};
use crate::structs::coingecko::{
    HighLowView, PgCoinGecko24HighLow, PgCoinGecko24HourVolume, VolumeView,
};
use crate::structs::openbook::FillView;

verus! {

/// Nanoseconds in 24 hours.
pub const DAY_NANOS: i64 = 86_400_000_000_000;

/// The maker legs of a market in the 24 hours that end at `now`: those with
/// a time of `now` less 24 hours or later.
pub open spec fn in_last_day(market: Seq<char>, now: i64) -> spec_fn(FillView) -> bool {
    |f: FillView| f.maker && f.market_key == market && f.time >= now - DAY_NANOS
}

/// The 24-hour volumes of a market: the sum of the sizes and the sum of size
/// times price over its maker legs of the last 24 hours, both 0 where there
/// are none.
pub open spec fn volume_snapshot(log: Seq<FillView>, market: Seq<char>, now: i64) -> VolumeView {
    let recent = log.filter(in_last_day(market, now));
    VolumeView {
        address: market,
        base_size: total_size(recent),
        quote_size: total_notional(recent),
    }
}

/// The last price of a market: the price of its latest maker leg of all
/// time, 0 where the ledger holds none.
pub open spec fn last_price(log: Seq<FillView>, market: Seq<char>) -> u64 {
    let all = log.filter(maker_of(market));
    if all.len() == 0 {
        0
    } else {
        latest(all).price
    }
}

/// The price snapshot of a market: its last price, and the high, the low and
/// the close of its maker legs of the last 24 hours. Where there are none,
/// all three fall back to the last price.
pub open spec fn price_snapshot(log: Seq<FillView>, market: Seq<char>, now: i64) -> HighLowView {
    let recent = log.filter(in_last_day(market, now));
    let last = last_price(log, market);
    if recent.len() == 0 {
        HighLowView { address: market, last_price: last, high: last, low: last, close: last }
    } else {
        HighLowView {
            address: market,
            last_price: last,
            high: highest_price(recent),
            low: lowest_price(recent),
            close: latest(recent).price,
        }
    }
}

/// Snapshot fallback: for a market that traded at some time but not in the
/// last 24 hours, high, low and close are the last price, which is the price
/// of its latest maker leg, and both volumes are 0.
pub proof fn lemma_snapshot_fallback(log: Seq<FillView>, market: Seq<char>, now: i64)
    requires
        log.filter(in_last_day(market, now)).len() == 0,
        log.filter(maker_of(market)).len() > 0,
    ensures
        price_snapshot(log, market, now).last_price == latest(log.filter(maker_of(market))).price,
        price_snapshot(log, market, now).high == price_snapshot(log, market, now).last_price,
        price_snapshot(log, market, now).low == price_snapshot(log, market, now).last_price,
        price_snapshot(log, market, now).close == price_snapshot(log, market, now).last_price,
        volume_snapshot(log, market, now).base_size == 0,
        volume_snapshot(log, market, now).quote_size == 0,
{
}

/// In every snapshot the close lies between the low and the high.
pub proof fn lemma_snapshot_bounds(log: Seq<FillView>, market: Seq<char>, now: i64)
    ensures
        price_snapshot(log, market, now).low <= price_snapshot(log, market, now).close
            <= price_snapshot(log, market, now).high,
{
    let recent = log.filter(in_last_day(market, now));
    if recent.len() > 0 {
        lemma_latest_is_maximal(recent);
        lemma_price_bounds(recent);
        let k = choose|k: int| 0 <= k < recent.len() && recent[k] == latest(recent);
        assert(lowest_price(recent) <= recent[k].price <= highest_price(recent));
    }
}

/// The 24-hour volumes of one market.
pub fn market_volume(ledger: &FillLedger, market_address: &str, now: i64) -> (volume:
    PgCoinGecko24HourVolume)
    requires
        ledger.wf(),
    ensures
        volume@ == volume_snapshot(ledger@, market_address@, now),
{
    let market = String::from_str(market_address);
    let ghost log = ledger@;
    let ghost pred = in_last_day(market_address@, now);
    let n = ledger.len();
    let mut base_size: u128 = 0;
    let mut quote_size: u128 = 0;
    let mut i: usize = 0;
    assert(log.take(0).filter(pred).len() == 0) by {
        reveal(Seq::filter);
    }
    while i < n
        invariant
            i <= n == log.len(),
            log == ledger@,
            ledger.wf(),
            pred == in_last_day(market_address@, now),
            market@ == market_address@,
            base_size == total_size(log.take(i as int).filter(pred)),
            quote_size == total_notional(log.take(i as int).filter(pred)),
        decreases n - i,
    {
        let fill = ledger.get(i);
        proof {
            lemma_filter_step(log, i as int, pred);
            let next = log.take(i + 1).filter(pred);
            lemma_total_size_bound(next);
            log.take(i + 1).lemma_filter_len(pred);
            lemma_total_notional_filter(log.take(i + 1), pred);
            lemma_total_notional_prefix(log, i + 1);
            ledger.lemma_wf();
            if pred(fill@) {
                assert(next.drop_last() =~= log.take(i as int).filter(pred));
                assert(next.last() == fill@);
            }
            assert(next.len() * u64::MAX <= u128::MAX) by (nonlinear_arith)
                requires
                    next.len() <= usize::MAX,
            ;
        }
        if fill.maker && fill.market_key == market && fill.time as i128 >= now as i128
            - DAY_NANOS as i128 {
            assert((fill.size as nat) * (fill.price as nat) <= u128::MAX) by (nonlinear_arith)
                requires
                    fill.size <= u64::MAX,
                    fill.price <= u64::MAX,
            ;
            base_size = base_size + fill.size as u128;
            quote_size = quote_size + (fill.size as u128) * (fill.price as u128);
        }
        i += 1;
    }
    assert(log.take(i as int) =~= log);
    PgCoinGecko24HourVolume { address: market, base_size, quote_size }
}

/// The price snapshot of one market.
pub fn market_high_low(ledger: &FillLedger, market_address: &str, now: i64) -> (snapshot:
    PgCoinGecko24HighLow)
    ensures
        snapshot@ == price_snapshot(ledger@, market_address@, now),
{
    let market = String::from_str(market_address);
    let ghost log = ledger@;
    let ghost all = maker_of(market_address@);
    let ghost recent = in_last_day(market_address@, now);
    let n = ledger.len();
    let mut traded = false;
    let mut last_time: i64 = 0;
    let mut last_seq: u64 = 0;
    let mut last: u64 = 0;
    let mut traded_recently = false;
    let mut close_time: i64 = 0;
    let mut close_seq: u64 = 0;
    let mut close: u64 = 0;
    let mut high: u64 = 0;
    let mut low: u64 = 0;
    let mut i: usize = 0;
    assert(log.take(0).filter(all).len() == 0 && log.take(0).filter(recent).len() == 0) by {
        reveal(Seq::filter);
    }
    while i < n
        invariant
            i <= n == log.len(),
            log == ledger@,
            all == maker_of(market_address@),
            recent == in_last_day(market_address@, now),
            market@ == market_address@,
            traded == (log.take(i as int).filter(all).len() > 0),
            !traded ==> last == 0,
            traded ==> {
                let seen = log.take(i as int).filter(all);
                &&& last_time == latest(seen).time
                &&& last_seq == latest(seen).seq_num
                &&& last == latest(seen).price
            },
            traded_recently == (log.take(i as int).filter(recent).len() > 0),
            traded_recently ==> {
                let seen = log.take(i as int).filter(recent);
                &&& close_time == latest(seen).time
                &&& close_seq == latest(seen).seq_num
                &&& close == latest(seen).price
                &&& high == highest_price(seen)
                &&& low == lowest_price(seen)
            },
        decreases n - i,
    {
        let fill = ledger.get(i);
        proof {
            lemma_filter_step(log, i as int, all);
            lemma_filter_step(log, i as int, recent);
            let seen_all = log.take(i as int).filter(all);
            let seen_recent = log.take(i as int).filter(recent);
            assert(highest_price(Seq::<FillView>::empty()) == 0);
            assert(seen_recent.len() == 0 ==> seen_recent =~= Seq::<FillView>::empty());
            if all(fill@) {
                assert(seen_all.push(fill@).drop_last() =~= seen_all);
                assert(seen_all.push(fill@).last() == fill@);
            }
            if recent(fill@) {
                assert(seen_recent.push(fill@).drop_last() =~= seen_recent);
                assert(seen_recent.push(fill@).last() == fill@);
            }
        }
        if fill.maker && fill.market_key == market {
            if !traded || !(fill.time < last_time || (fill.time == last_time && fill.seq_num
                < last_seq)) {
                last_time = fill.time;
                last_seq = fill.seq_num;
                last = fill.price;
            }
            traded = true;
            if fill.time as i128 >= now as i128 - DAY_NANOS as i128 {
                if !traded_recently {
                    close_time = fill.time;
                    close_seq = fill.seq_num;
                    close = fill.price;
                    high = fill.price;
                    low = fill.price;
                } else {
                    if !(fill.time < close_time || (fill.time == close_time && fill.seq_num
                        < close_seq)) {
                        close_time = fill.time;
                        close_seq = fill.seq_num;
                        close = fill.price;
                    }
                    if fill.price > high {
                        high = fill.price;
                    }
                    if fill.price < low {
                        low = fill.price;
                    }
                }
                traded_recently = true;
            }
        }
        i += 1;
    }
    assert(log.take(i as int) =~= log);
    if traded_recently {
        PgCoinGecko24HighLow { address: market, last_price: last, high, low, close }
    } else {
        PgCoinGecko24HighLow {
            address: market,
            last_price: last,
            high: last,
            low: last,
            close: last,
        }
    }
}

} // verus!
