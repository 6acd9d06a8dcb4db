//! The candle aggregator: reduces the fills of one bucket of one market to
//! one candle.
//!
//! The caller hands over every fill that may belong to the bucket, on every
//! call: a candle made from a part of them is wrong in its open, high and low,
//! and the merge-write overwrites what is stored with what it is given.

use vstd::prelude::*;
use crate::fills::{
    earliest, fill_views, highest_price, in_range, latest, lemma_earliest_is_minimal,
    lemma_filter_refines, lemma_filter_step, lemma_latest_is_maximal, lemma_price_bounds,
    lemma_total_size_bound, lowest_price, precedes, total_size,
};
use crate::structs::candle::{Candle, CandleKey, CandleView};
use crate::structs::openbook::{FillView, PgOpenBookFill};
use crate::structs::resolution::Resolution;

verus! {

/// What to make of a bucket in which no fill landed.
#[derive(Clone, Copy, Debug, PartialEq, Eq, Structural)]
pub enum EmptyBucketPolicy {
    /// No candle: the aggregation fails with `AggregateError::EmptyBucket`.
    Omit,
    /// A flat candle without volume at the close of the bucket before.
    CarryForward { prior_close: u64 },
}

/// Why no candle was made.
#[derive(Clone, Copy, Debug, PartialEq, Eq, Structural)]
pub enum AggregateError {
    /// The end of the bucket lies beyond the last instant that a time can
    /// hold.
    BucketOutOfRange,
    /// No fill landed in the bucket and the policy asks for no candle.
    EmptyBucket,
}

/// The fills that count for a bucket: the maker legs of the market whose time
/// lies in `[start_time, end_time)`. The taker leg of a trade repeats its
/// maker leg and is left out.
pub open spec fn in_bucket(market: Seq<char>, start_time: int, end_time: int) -> spec_fn(
    FillView,
) -> bool {
    in_range(market, start_time, end_time, true)
}

/// The fills of `fills` that count for a bucket, in the order of `fills`.
pub open spec fn bucket_fills(
    fills: Seq<FillView>,
    market: Seq<char>,
    start_time: int,
    end_time: int,
) -> Seq<FillView> {
    fills.filter(in_bucket(market, start_time, end_time))
}

/// The candle of a bucket.
pub open spec fn aggregate_spec(
    fills: Seq<FillView>,
    market: Seq<char>,
    resolution: Resolution,
    start_time: i64,
    now: i64,
    policy: EmptyBucketPolicy,
) -> Result<CandleView, AggregateError> {
    let end_time = start_time + resolution.nanos();
    let counted = bucket_fills(fills, market, start_time as int, end_time);
    if end_time > i64::MAX {
        Err(AggregateError::BucketOutOfRange)
    } else if counted.len() == 0 {
        match policy {
            EmptyBucketPolicy::Omit => Err(AggregateError::EmptyBucket),
            EmptyBucketPolicy::CarryForward { prior_close } => Ok(
                CandleView {
                    market_name: market,
                    start_time,
                    end_time: end_time as i64,
                    resolution,
                    open: prior_close,
                    close: prior_close,
                    high: prior_close,
                    low: prior_close,
                    volume: 0,
                    complete: end_time < now,
                },
            ),
        }
    } else {
        Ok(
            CandleView {
                market_name: market,
                start_time,
                end_time: end_time as i64,
                resolution,
                open: earliest(counted).price,
                close: latest(counted).price,
                high: highest_price(counted),
                low: lowest_price(counted),
                volume: total_size(counted),
                complete: end_time < now,
            },
        )
    }
}

/// The maker legs among the fills.
pub open spec fn maker_legs(fills: Seq<FillView>) -> Seq<FillView> {
    fills.filter(|f: FillView| f.maker)
}

/// No double counting: the taker legs contribute nothing. Aggregating the
/// maker and the taker legs together gives what the maker legs alone give.
pub proof fn lemma_taker_legs_do_not_count(
    fills: Seq<FillView>,
    market: Seq<char>,
    resolution: Resolution,
    start_time: i64,
    now: i64,
    policy: EmptyBucketPolicy,
)
    ensures
        aggregate_spec(maker_legs(fills), market, resolution, start_time, now, policy)
            == aggregate_spec(fills, market, resolution, start_time, now, policy),
{
    lemma_filter_refines(
        fills,
        |f: FillView| f.maker,
        in_bucket(market, start_time as int, start_time + resolution.nanos()),
    );
}

/// The candle of a bucket is the candle of the fills that count for it: to
/// select them before aggregating, as a reader of the ledger does, changes
/// nothing.
pub proof fn lemma_aggregate_of_bucket_fills(
    fills: Seq<FillView>,
    market: Seq<char>,
    resolution: Resolution,
    start_time: i64,
    now: i64,
    policy: EmptyBucketPolicy,
)
    ensures
        aggregate_spec(
            bucket_fills(fills, market, start_time as int, start_time + resolution.nanos()),
            market,
            resolution,
            start_time,
            now,
            policy,
        ) == aggregate_spec(fills, market, resolution, start_time, now, policy),
{
    let pred = in_bucket(market, start_time as int, start_time + resolution.nanos());
    lemma_filter_refines(fills, pred, pred);
}

/// Open and close ordering: the open of a candle is the price of a counted
/// fill that no counted fill precedes, by time and then by sequence number,
/// and its close is the price of a counted fill that precedes none.
pub proof fn lemma_open_close_ordering(
    fills: Seq<FillView>,
    market: Seq<char>,
    resolution: Resolution,
    start_time: i64,
    now: i64,
    policy: EmptyBucketPolicy,
)
    requires
        start_time + resolution.nanos() <= i64::MAX,
        bucket_fills(fills, market, start_time as int, start_time + resolution.nanos()).len() > 0,
    ensures
        ({
            let counted = bucket_fills(
                fills,
                market,
                start_time as int,
                start_time + resolution.nanos(),
            );
            let result = aggregate_spec(fills, market, resolution, start_time, now, policy);
            &&& result is Ok
            &&& exists|i: int|
                0 <= i < counted.len() && (#[trigger] counted[i]).price == result->Ok_0.open
                    && forall|j: int|
                    0 <= j < counted.len() ==> !precedes(#[trigger] counted[j], counted[i])
            &&& exists|i: int|
                0 <= i < counted.len() && (#[trigger] counted[i]).price == result->Ok_0.close
                    && forall|j: int|
                    0 <= j < counted.len() ==> !precedes(counted[i], #[trigger] counted[j])
        }),
{
    let counted = bucket_fills(fills, market, start_time as int, start_time + resolution.nanos());
    lemma_earliest_is_minimal(counted);
    lemma_latest_is_maximal(counted);
    let first = choose|i: int| 0 <= i < counted.len() && counted[i] == earliest(counted);
    let last = choose|i: int| 0 <= i < counted.len() && counted[i] == latest(counted);
    assert(counted[first].price == earliest(counted).price);
    assert(counted[last].price == latest(counted).price);
}

/// Every candle of the aggregator is well formed: its bucket ends one
/// duration after it starts, and its open and close lie between its low and
/// its high.
pub proof fn lemma_aggregate_wf(
    fills: Seq<FillView>,
    market: Seq<char>,
    resolution: Resolution,
    start_time: i64,
    now: i64,
    policy: EmptyBucketPolicy,
)
    ensures
        aggregate_spec(fills, market, resolution, start_time, now, policy) matches Ok(candle)
            ==> candle.wf() && candle.key() == (CandleKey {
            market_name: market,
            start_time,
            resolution,
        }),
{
    let counted = bucket_fills(fills, market, start_time as int, start_time + resolution.nanos());
    if counted.len() > 0 {
        lemma_earliest_is_minimal(counted);
        lemma_latest_is_maximal(counted);
        lemma_price_bounds(counted);
        let first = choose|i: int| 0 <= i < counted.len() && counted[i] == earliest(counted);
        let last = choose|i: int| 0 <= i < counted.len() && counted[i] == latest(counted);
        assert(lowest_price(counted) <= counted[first].price <= highest_price(counted));
        assert(lowest_price(counted) <= counted[last].price <= highest_price(counted));
    }
}

/// Aggregates the fills of one bucket into its candle.
///
/// `fills` may come in any order and may hold fills of other markets, other
/// buckets and taker legs: only the maker legs of `market_name` with a time
/// in `[start_time, start_time + duration)` count. The candle is complete
/// once the end of the bucket lies strictly before `now`.
pub fn aggregate_candle(
    fills: &Vec<PgOpenBookFill>,
    market_name: &str,
    resolution: Resolution,
    start_time: i64,
    now: i64,
    policy: EmptyBucketPolicy,
) -> (result: Result<Candle, AggregateError>)
    ensures
        match result {
            Ok(candle) => aggregate_spec(
                fill_views(fills@),
                market_name@,
                resolution,
                start_time,
                now,
                policy,
            ) == Ok::<CandleView, AggregateError>(candle@),
            Err(e) => aggregate_spec(
                fill_views(fills@),
                market_name@,
                resolution,
                start_time,
                now,
                policy,
            ) == Err::<CandleView, AggregateError>(e),
        },
{
    let duration = resolution.get_duration();
    if start_time > i64::MAX - duration {
        return Err(AggregateError::BucketOutOfRange);
    }
    let end_time = start_time + duration;
    let market = String::from_str(market_name);
    let ghost views = fill_views(fills@);
    let ghost pred = in_bucket(market_name@, start_time as int, end_time as int);

    let mut found = false;
    let mut open_time: i64 = 0;
    let mut open_seq: u64 = 0;
    let mut open: u64 = 0;
    let mut close_time: i64 = 0;
    let mut close_seq: u64 = 0;
    let mut close: u64 = 0;
    let mut high: u64 = 0;
    let mut low: u64 = 0;
    let mut volume: u128 = 0;
    let mut i: usize = 0;
    assert(views.take(0).filter(pred).len() == 0) by {
        reveal(Seq::filter);
    }
    while i < fills.len()
        invariant
            i <= fills.len(),
            views == fill_views(fills@),
            pred == in_bucket(market_name@, start_time as int, end_time as int),
            market@ == market_name@,
            found == (views.take(i as int).filter(pred).len() > 0),
            found ==> {
                let counted = views.take(i as int).filter(pred);
                &&& open_time == earliest(counted).time
                &&& open_seq == earliest(counted).seq_num
                &&& open == earliest(counted).price
                &&& close_time == latest(counted).time
                &&& close_seq == latest(counted).seq_num
                &&& close == latest(counted).price
                &&& high == highest_price(counted)
                &&& low == lowest_price(counted)
            },
            volume == total_size(views.take(i as int).filter(pred)),
            volume <= i * u64::MAX,
        decreases fills.len() - i,
    {
        let fill = &fills[i];
        proof {
            lemma_filter_step(views, i as int, pred);
            assert(views[i as int] == fill@);
            let before = views.take(i as int).filter(pred);
            lemma_total_size_bound(before);
            if pred(fill@) {
                assert(highest_price(Seq::<FillView>::empty()) == 0);
                assert(before.len() == 0 ==> before =~= Seq::<FillView>::empty());
                assert(before.push(fill@).drop_last() =~= before);
                assert(before.push(fill@).last() == fill@);
            }
        }
        if fill.maker && fill.market_key == market && start_time <= fill.time && fill.time
            < end_time {
            if !found {
                found = true;
                open_time = fill.time;
                open_seq = fill.seq_num;
                open = fill.price;
                close_time = fill.time;
                close_seq = fill.seq_num;
                close = fill.price;
                high = fill.price;
                low = fill.price;
            } else {
                if fill.time < open_time || (fill.time == open_time && fill.seq_num < open_seq) {
                    open_time = fill.time;
                    open_seq = fill.seq_num;
                    open = fill.price;
                }
                if !(fill.time < close_time || (fill.time == close_time && fill.seq_num
                    < close_seq)) {
                    close_time = fill.time;
                    close_seq = fill.seq_num;
                    close = fill.price;
                }
                if fill.price > high {
                    high = fill.price;
                }
                if fill.price < low {
                    low = fill.price;
                }
            }
            volume = volume + fill.size as u128;
        }
        i += 1;
    }
    assert(views.take(i as int) =~= views);
    if !found {
        match policy {
            EmptyBucketPolicy::Omit => Err(AggregateError::EmptyBucket),
            EmptyBucketPolicy::CarryForward { prior_close } => Ok(
                Candle {
                    market_name: market,
                    start_time,
                    end_time,
                    resolution,
                    open: prior_close,
                    close: prior_close,
                    high: prior_close,
                    low: prior_close,
                    volume: 0,
                    complete: end_time < now,
                },
            ),
        }
    } else {
        Ok(
            Candle {
                market_name: market,
                start_time,
                end_time,
                resolution,
                open,
                close,
                high,
                low,
                volume,
                complete: end_time < now,
            },
        )
    }
}

} // verus!
