//! Orders and sums over sequences of fills: which fill is the earliest and
//! which the latest, the highest and the lowest price, the traded size and the
//! traded notional.

use vstd::prelude::*;
use crate::structs::openbook::{FillView, PgOpenBookFill};

verus! {

/// The views of a sequence of fills.
pub open spec fn fill_views(fills: Seq<PgOpenBookFill>) -> Seq<FillView> {
    fills.map_values(|f: PgOpenBookFill| f@)
}

/// The fills of a market: all of them, or the maker legs alone.
pub open spec fn fills_of(market: Seq<char>, maker_only: bool) -> spec_fn(FillView) -> bool {
    |f: FillView| (f.maker || !maker_only) && f.market_key == market
}

/// The fills of a market with a time in `[start_time, end_time)`: all of
/// them, or the maker legs alone.
pub open spec fn in_range(
    market: Seq<char>,
    start_time: int,
    end_time: int,
    maker_only: bool,
) -> spec_fn(FillView) -> bool {
    |f: FillView|
        (f.maker || !maker_only) && f.market_key == market && start_time <= f.time < end_time
}

/// The maker legs of a market. The taker leg of a trade repeats its maker
/// leg, so prices and volumes are taken from the maker legs alone.
pub open spec fn maker_of(market: Seq<char>) -> spec_fn(FillView) -> bool {
    fills_of(market, true)
}

/// `a` comes strictly before `b`: at an earlier time, or at the same time
/// with a smaller sequence number.
pub open spec fn precedes(a: FillView, b: FillView) -> bool {
    a.time < b.time || (a.time == b.time && a.seq_num < b.seq_num)
}

/// The fill that no other precedes; of several such, the first in the
/// sequence. Meant for a sequence that is not empty.
pub open spec fn earliest(s: Seq<FillView>) -> FillView
    decreases s.len(),
{
    if s.len() <= 1 {
        s[0]
    } else {
        let e = earliest(s.drop_last());
        if precedes(s.last(), e) {
            s.last()
        } else {
            e
        }
    }
}

/// The fill that precedes no other; of several such, the last in the
/// sequence. Meant for a sequence that is not empty.
pub open spec fn latest(s: Seq<FillView>) -> FillView
    decreases s.len(),
{
    if s.len() <= 1 {
        s[0]
    } else {
        let l = latest(s.drop_last());
        if precedes(s.last(), l) {
            l
        } else {
            s.last()
        }
    }
}

/// The greatest price, 0 for the empty sequence.
pub open spec fn highest_price(s: Seq<FillView>) -> u64
    decreases s.len(),
{
    if s.len() == 0 {
        0
    } else {
        let h = highest_price(s.drop_last());
        if s.last().price > h {
            s.last().price
        } else {
            h
        }
    }
}

/// The least price, 0 for the empty sequence.
pub open spec fn lowest_price(s: Seq<FillView>) -> u64
    decreases s.len(),
{
    if s.len() == 0 {
        0
    } else if s.len() == 1 {
        s[0].price
    } else {
        let l = lowest_price(s.drop_last());
        if s.last().price < l {
            s.last().price
        } else {
            l
        }
    }
}

/// The sum of the sizes.
pub open spec fn total_size(s: Seq<FillView>) -> nat
    decreases s.len(),
{
    if s.len() == 0 {
        0
    } else {
        total_size(s.drop_last()) + s.last().size as nat
    }
}

/// The sum of size times price.
pub open spec fn total_notional(s: Seq<FillView>) -> nat
    decreases s.len(),
{
    if s.len() == 0 {
        0
    } else {
        total_notional(s.drop_last()) + (s.last().size as nat) * (s.last().price as nat)
    }
}

/// Filtering the first `i + 1` items is filtering the first `i` and then
/// deciding on item `i`.
pub proof fn lemma_filter_step<A>(s: Seq<A>, i: int, pred: spec_fn(A) -> bool)
    requires
        0 <= i < s.len(),
    ensures
        s.take(i + 1).filter(pred) == if pred(s[i]) {
            s.take(i).filter(pred).push(s[i])
        } else {
            s.take(i).filter(pred)
        },
{
    reveal(Seq::filter);
    assert(s.take(i + 1).drop_last() =~= s.take(i));
}

/// Selecting by `outer` first loses nothing that `inner` selects, where
/// everything that `inner` selects is selected by `outer` too.
pub proof fn lemma_filter_refines<A>(
    s: Seq<A>,
    outer: spec_fn(A) -> bool,
    inner: spec_fn(A) -> bool,
)
    requires
        forall|x: A| #[trigger] inner(x) ==> outer(x),
    ensures
        s.filter(outer).filter(inner) == s.filter(inner),
    decreases s.len(),
{
    reveal(Seq::filter);
    if s.len() > 0 {
        let rest = s.drop_last();
        lemma_filter_refines(rest, outer, inner);
        if outer(s.last()) {
            let kept = rest.filter(outer);
            assert(kept.push(s.last()).drop_last() =~= kept);
            assert(kept.push(s.last()).last() == s.last());
        }
    }
}

/// The earliest fill is one of the fills, and none precedes it.
pub proof fn lemma_earliest_is_minimal(s: Seq<FillView>)
    requires
        s.len() > 0,
    ensures
        s.contains(earliest(s)),
        forall|j: int| 0 <= j < s.len() ==> !precedes(#[trigger] s[j], earliest(s)),
    decreases s.len(),
{
    if s.len() == 1 {
        assert(s[0] == earliest(s));
    } else {
        let rest = s.drop_last();
        lemma_earliest_is_minimal(rest);
        let e = earliest(rest);
        let k = choose|k: int| 0 <= k < rest.len() && rest[k] == e;
        assert(s[k] == e);
        assert(s[s.len() - 1] == s.last());
        assert forall|j: int| 0 <= j < s.len() implies !precedes(#[trigger] s[j], earliest(s)) by {
            if j < rest.len() {
                assert(rest[j] == s[j]);
            }
        }
    }
}

/// The latest fill is one of the fills, and it precedes none.
pub proof fn lemma_latest_is_maximal(s: Seq<FillView>)
    requires
        s.len() > 0,
    ensures
        s.contains(latest(s)),
        forall|j: int| 0 <= j < s.len() ==> !precedes(latest(s), #[trigger] s[j]),
    decreases s.len(),
{
    if s.len() == 1 {
        assert(s[0] == latest(s));
    } else {
        let rest = s.drop_last();
        lemma_latest_is_maximal(rest);
        let l = latest(rest);
        let k = choose|k: int| 0 <= k < rest.len() && rest[k] == l;
        assert(s[k] == l);
        assert(s[s.len() - 1] == s.last());
        assert forall|j: int| 0 <= j < s.len() implies !precedes(latest(s), #[trigger] s[j]) by {
            if j < rest.len() {
                assert(rest[j] == s[j]);
            }
        }
    }
}

/// The highest price is the price of one of the fills and no fill has a
/// higher one; likewise the lowest.
pub proof fn lemma_price_bounds(s: Seq<FillView>)
    requires
        s.len() > 0,
    ensures
        exists|i: int| 0 <= i < s.len() && #[trigger] s[i].price == highest_price(s),
        exists|i: int| 0 <= i < s.len() && #[trigger] s[i].price == lowest_price(s),
        forall|j: int|
            0 <= j < s.len() ==> lowest_price(s) <= #[trigger] s[j].price <= highest_price(s),
    decreases s.len(),
{
    if s.len() == 1 {
        assert(highest_price(s.drop_last()) == 0);
        assert(s[0].price == highest_price(s));
        assert(s[0].price == lowest_price(s));
    } else {
        let rest = s.drop_last();
        lemma_price_bounds(rest);
        let h = choose|i: int|
            0 <= i < rest.len() && #[trigger] rest[i].price == highest_price(rest);
        let l = choose|i: int|
            0 <= i < rest.len() && #[trigger] rest[i].price == lowest_price(rest);
        let n = s.len() - 1;
        assert(s[h] == rest[h] && s[l] == rest[l] && s[n] == s.last());
        if s.last().price > highest_price(rest) {
            assert(s[n].price == highest_price(s));
        } else {
            assert(s[h].price == highest_price(s));
        }
        if s.last().price < lowest_price(rest) {
            assert(s[n].price == lowest_price(s));
        } else {
            assert(s[l].price == lowest_price(s));
        }
        assert forall|j: int| 0 <= j < s.len() implies lowest_price(s) <= #[trigger] s[j].price
            <= highest_price(s) by {
            if j < rest.len() {
                assert(rest[j] == s[j]);
            }
        }
    }
}

/// The sizes of `n` fills sum to at most `n` times the greatest size that a
/// fill can hold.
pub proof fn lemma_total_size_bound(s: Seq<FillView>)
    ensures
        total_size(s) <= s.len() * u64::MAX,
    decreases s.len(),
{
    if s.len() > 0 {
        lemma_total_size_bound(s.drop_last());
    }
}

/// No fill comes before one that stands earlier in the sequence: the
/// sequence ascends by time and then by sequence number.
pub open spec fn ordered(s: Seq<FillView>) -> bool {
    forall|i: int, j: int| 0 <= i < j < s.len() ==> !precedes(#[trigger] s[j], #[trigger] s[i])
}

/// What is selected from an ascending sequence ascends too.
pub proof fn lemma_filter_ordered(s: Seq<FillView>, pred: spec_fn(FillView) -> bool)
    requires
        ordered(s),
    ensures
        ordered(s.filter(pred)),
    decreases s.len(),
{
    reveal(Seq::filter);
    if s.len() > 0 {
        let rest = s.drop_last();
        assert forall|i: int, j: int| 0 <= i < j < rest.len() implies !precedes(
            #[trigger] rest[j],
            #[trigger] rest[i],
        ) by {
            assert(rest[i] == s[i] && rest[j] == s[j]);
        }
        lemma_filter_ordered(rest, pred);
        let kept = rest.filter(pred);
        if pred(s.last()) {
            let all = kept.push(s.last());
            assert forall|i: int, j: int| 0 <= i < j < all.len() implies !precedes(
                #[trigger] all[j],
                #[trigger] all[i],
            ) by {
                if j < kept.len() {
                    assert(all[i] == kept[i] && all[j] == kept[j]);
                } else {
                    rest.lemma_filter_contains_rev(pred, kept[i]);
                    let k = choose|k: int| 0 <= k < rest.len() && rest[k] == kept[i];
                    assert(s[k] == kept[i]);
                    assert(s[s.len() - 1] == s.last());
                }
            }
        }
    }
}

/// In an ascending sequence the first fill is the earliest and the last is
/// the latest.
pub proof fn lemma_ends_of_ordered(s: Seq<FillView>)
    requires
        ordered(s),
        s.len() > 0,
    ensures
        earliest(s) == s[0],
        latest(s) == s.last(),
    decreases s.len(),
{
    if s.len() > 1 {
        let rest = s.drop_last();
        assert forall|i: int, j: int| 0 <= i < j < rest.len() implies !precedes(
            #[trigger] rest[j],
            #[trigger] rest[i],
        ) by {
            assert(rest[i] == s[i] && rest[j] == s[j]);
        }
        lemma_ends_of_ordered(rest);
        assert(rest[0] == s[0]);
        assert(rest.last() == s[s.len() - 2]);
        assert(s.last() == s[s.len() - 1]);
    }
}

/// A part of the fills trades no more notional than all of them.
pub proof fn lemma_total_notional_filter(s: Seq<FillView>, pred: spec_fn(FillView) -> bool)
    ensures
        total_notional(s.filter(pred)) <= total_notional(s),
    decreases s.len(),
{
    reveal(Seq::filter);
    if s.len() > 0 {
        let rest = s.drop_last();
        lemma_total_notional_filter(rest, pred);
        if pred(s.last()) {
            let kept = rest.filter(pred);
            assert(kept.push(s.last()).drop_last() =~= kept);
        }
    }
}

/// The first fills of a sequence trade no more notional than all of them.
pub proof fn lemma_total_notional_prefix(s: Seq<FillView>, n: int)
    requires
        0 <= n <= s.len(),
    ensures
        total_notional(s.take(n)) <= total_notional(s),
    decreases s.len(),
{
    if n < s.len() {
        lemma_total_notional_prefix(s.drop_last(), n);
        assert(s.drop_last().take(n) =~= s.take(n));
    } else {
        assert(s.take(n) =~= s);
    }
}

} // verus!
