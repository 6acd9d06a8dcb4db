//! The trader ranking engine: the volume that each account traded in a
//! window, by side, and the accounts with the most.

use vstd::prelude::*;
use vstd::seq_lib::seq_to_set_is_finite;
use crate::database::ledger::FillLedger;
use crate::fills::{in_range, lemma_filter_step};
use crate::structs::openbook::{FillView, PgOpenBookFill};
use crate::structs::trader::{PgTrader, TraderView};

verus! {

/// The most accounts that a ranking holds.
pub const TOP_TRADERS_LIMIT: usize = 10_000;

/// Which of the two native quantities of a fill counts for which side.
#[derive(Clone, Copy, Debug, PartialEq, Eq, Structural)]
pub enum AccountingMode {
    /// Asks count what they paid, bids what they received.
    ByBase,
    /// The two quantities change roles: the ask size sums what the bids
    /// received, the bid size what the asks paid.
    ByQuote,
}

/// The fills of a market with a time in `[start_time, end_time)`, maker and
/// taker legs alike: each leg belongs to the account that traded it.
pub open spec fn in_window(market: Seq<char>, start_time: i64, end_time: i64) -> spec_fn(
    FillView,
) -> bool {
    in_range(market, start_time as int, end_time as int, false)
}

/// What one fill adds to the ask size of its account.
pub open spec fn ask_part(f: FillView, mode: AccountingMode) -> u64 {
    match mode {
        AccountingMode::ByBase => if !f.bid {
            f.native_quantity_paid
        } else {
            0
        },
        AccountingMode::ByQuote => if f.bid {
            f.native_quantity_received
        } else {
            0
        },
    }
}

/// What one fill adds to the bid size of its account.
pub open spec fn bid_part(f: FillView, mode: AccountingMode) -> u64 {
    match mode {
        AccountingMode::ByBase => if f.bid {
            f.native_quantity_received
        } else {
            0
        },
        AccountingMode::ByQuote => if !f.bid {
            f.native_quantity_paid
        } else {
            0
        },
    }
}

/// The ask size of an account over the fills `w`.
pub open spec fn ask_volume(w: Seq<FillView>, owner: Seq<char>, mode: AccountingMode) -> nat
    decreases w.len(),
{
    if w.len() == 0 {
        0
    } else {
        ask_volume(w.drop_last(), owner, mode) + if w.last().open_orders_owner == owner {
            ask_part(w.last(), mode) as nat
        } else {
            0
        }
    }
}

/// The bid size of an account over the fills `w`.
pub open spec fn bid_volume(w: Seq<FillView>, owner: Seq<char>, mode: AccountingMode) -> nat
    decreases w.len(),
{
    if w.len() == 0 {
        0
    } else {
        bid_volume(w.drop_last(), owner, mode) + if w.last().open_orders_owner == owner {
            bid_part(w.last(), mode) as nat
        } else {
            0
        }
    }
}

/// The account has a fill among `w`.
pub open spec fn traded(w: Seq<FillView>, owner: Seq<char>) -> bool {
    exists|i: int| 0 <= i < w.len() && (#[trigger] w[i]).open_orders_owner == owner
}

/// The place among `w` of the first fill of the account, for an account that
/// traded.
pub open spec fn first_trade(w: Seq<FillView>, owner: Seq<char>) -> int
    decreases w.len(),
{
    if w.len() == 0 {
        0
    } else if traded(w.drop_last(), owner) {
        first_trade(w.drop_last(), owner)
    } else {
        w.len() - 1
    }
}

/// The distinct accounts with a fill among `w`.
pub open spec fn accounts(w: Seq<FillView>) -> Set<Seq<char>> {
    Set::new(|owner: Seq<char>| traded(w, owner))
}

/// The row of an account over the fills `w`.
pub open spec fn trader_row(
    w: Seq<FillView>,
    owner: Seq<char>,
    mode: AccountingMode,
) -> TraderView {
    TraderView {
        open_orders_owner: owner,
        raw_ask_size: ask_volume(w, owner, mode),
        raw_bid_size: bid_volume(w, owner, mode),
    }
}

/// The views of a sequence of trader rows.
pub open spec fn trader_views(traders: Seq<PgTrader>) -> Seq<TraderView> {
    traders.map_values(|t: PgTrader| t@)
}

/// Some row is of the account.
pub open spec fn listed(rows: Seq<TraderView>, owner: Seq<char>) -> bool {
    exists|k: int| 0 <= k < rows.len() && (#[trigger] rows[k]).open_orders_owner == owner
}

/// No two rows are of the same account.
pub open spec fn distinct_owners(rows: Seq<TraderView>) -> bool {
    forall|i: int, j: int|
        0 <= i < j < rows.len() ==> (#[trigger] rows[i]).open_orders_owner != (
        #[trigger] rows[j]).open_orders_owner
}

/// The rows descend by combined volume.
pub open spec fn descending(rows: Seq<TraderView>) -> bool {
    forall|i: int, j: int|
        0 <= i < j < rows.len() ==> (#[trigger] rows[i]).total() >= (#[trigger] rows[j]).total()
}

/// Every row is the row of an account that traded among `w`.
pub open spec fn rows_of(w: Seq<FillView>, mode: AccountingMode, rows: Seq<TraderView>) -> bool {
    forall|k: int|
        0 <= k < rows.len() ==> traded(w, (#[trigger] rows[k]).open_orders_owner) && rows[k]
            == trader_row(w, rows[k].open_orders_owner, mode)
}

/// The row `a` ranks before the row `b`: it has the greater combined volume,
/// or the same and its account traded first.
pub open spec fn ranks_before(w: Seq<FillView>, a: TraderView, b: TraderView) -> bool {
    a.total() > b.total() || (a.total() == b.total() && first_trade(w, a.open_orders_owner)
        < first_trade(w, b.open_orders_owner))
}

/// `rows` ranks the accounts that traded among `w`: one row for each of the
/// `limit` accounts with the greatest combined volume, or for all accounts
/// where they are no more than `limit`, in descending order of combined
/// volume. Of accounts of equal volume the one that traded first comes first,
/// in the rows and at the cut.
pub open spec fn is_ranking(
    w: Seq<FillView>,
    mode: AccountingMode,
    rows: Seq<TraderView>,
    limit: int,
) -> bool {
    &&& rows_of(w, mode, rows)
    &&& distinct_owners(rows)
    &&& descending(rows)
    &&& forall|i: int, j: int|
        0 <= i < j < rows.len() ==> ranks_before(w, #[trigger] rows[i], #[trigger] rows[j])
    &&& accounts(w).finite()
    &&& rows.len() == if accounts(w).len() <= limit {
        accounts(w).len() as int
    } else {
        limit
    }
    &&& forall|owner: Seq<char>, k: int|
        #![trigger traded(w, owner), rows[k]]
        traded(w, owner) && !listed(rows, owner) && 0 <= k < rows.len() ==> ranks_before(
            w,
            rows[k],
            trader_row(w, owner, mode),
        )
}

/// Ranking cutoff: where more than `limit` accounts traded, a ranking holds
/// exactly `limit` rows, in descending order, and no account that it leaves
/// out traded more than one that it holds.
pub proof fn lemma_ranking_cutoff(
    w: Seq<FillView>,
    mode: AccountingMode,
    rows: Seq<TraderView>,
    limit: int,
)
    requires
        is_ranking(w, mode, rows, limit),
        accounts(w).len() > limit,
    ensures
        rows.len() == limit,
        descending(rows),
        forall|owner: Seq<char>, k: int|
            #![trigger traded(w, owner), rows[k]]
            traded(w, owner) && !listed(rows, owner) && 0 <= k < rows.len() ==> trader_row(
                w,
                owner,
                mode,
            ).total() <= rows[k].total(),
{
}

/// The place of the first fill of an account that traded is a place of `w`,
/// and one more fill moves it for no account that traded before.
pub proof fn lemma_first_trade_push(w: Seq<FillView>, f: FillView, owner: Seq<char>)
    ensures
        traded(w, owner) ==> 0 <= first_trade(w, owner) < w.len(),
        first_trade(w.push(f), owner) == if traded(w, owner) {
            first_trade(w, owner)
        } else {
            w.len() as int
        },
    decreases w.len(),
{
    assert(w.push(f).drop_last() =~= w);
    if w.len() > 0 {
        let rest = w.drop_last();
        lemma_first_trade_push(rest, w.last(), owner);
        if traded(rest, owner) {
            let i = choose|i: int|
                0 <= i < rest.len() && (#[trigger] rest[i]).open_orders_owner == owner;
            assert(w[i] == rest[i]);
        }
    }
}

/// The rows stand in the order in which their accounts first traded.
pub open spec fn in_order_of_first_trade(w: Seq<FillView>, rows: Seq<TraderView>) -> bool {
    forall|a: int, b: int|
        0 <= a < b < rows.len() ==> first_trade(w, (#[trigger] rows[a]).open_orders_owner)
            < first_trade(w, (#[trigger] rows[b]).open_orders_owner)
}

/// The place among `rows` of the row of an account that is listed.
pub open spec fn place_of(rows: Seq<TraderView>, owner: Seq<char>) -> int {
    choose|k: int| 0 <= k < rows.len() && (#[trigger] rows[k]).open_orders_owner == owner
}

proof fn lemma_place_of(rows: Seq<TraderView>, k: int)
    requires
        distinct_owners(rows),
        0 <= k < rows.len(),
    ensures
        place_of(rows, rows[k].open_orders_owner) == k,
{
    let p = place_of(rows, rows[k].open_orders_owner);
    if p < k {
        assert(rows[p].open_orders_owner != rows[k].open_orders_owner);
    } else if k < p {
        assert(rows[k].open_orders_owner != rows[p].open_orders_owner);
    }
}

/// One more fill adds its parts to the sizes of its own account and leaves
/// the sizes of every other account as they were.
pub proof fn lemma_volumes_push(
    w: Seq<FillView>,
    f: FillView,
    owner: Seq<char>,
    mode: AccountingMode,
)
    ensures
        ask_volume(w.push(f), owner, mode) == ask_volume(w, owner, mode) + if f.open_orders_owner
            == owner {
            ask_part(f, mode) as nat
        } else {
            0
        },
        bid_volume(w.push(f), owner, mode) == bid_volume(w, owner, mode) + if f.open_orders_owner
            == owner {
            bid_part(f, mode) as nat
        } else {
            0
        },
        traded(w.push(f), owner) <==> traded(w, owner) || f.open_orders_owner == owner,
{
    let all = w.push(f);
    assert(all.drop_last() =~= w);
    assert(all.last() == f);
    if traded(w, owner) {
        let i = choose|i: int| 0 <= i < w.len() && (#[trigger] w[i]).open_orders_owner == owner;
        assert(all[i] == w[i]);
    }
    if f.open_orders_owner == owner {
        assert(all[w.len() as int] == f);
    }
    if traded(all, owner) {
        let i = choose|i: int| 0 <= i < all.len() && (#[trigger] all[i]).open_orders_owner == owner;
        if i < w.len() {
            assert(w[i] == all[i]);
        }
    }
}

/// An account without a fill has no volume.
pub proof fn lemma_untraded_volumes(w: Seq<FillView>, owner: Seq<char>, mode: AccountingMode)
    requires
        !traded(w, owner),
    ensures
        ask_volume(w, owner, mode) == 0,
        bid_volume(w, owner, mode) == 0,
    decreases w.len(),
{
    if w.len() > 0 {
        let rest = w.drop_last();
        assert(w[w.len() - 1] == w.last());
        assert(!traded(rest, owner)) by {
            if traded(rest, owner) {
                let i = choose|i: int|
                    0 <= i < rest.len() && (#[trigger] rest[i]).open_orders_owner == owner;
                assert(w[i] == rest[i]);
            }
        }
        lemma_untraded_volumes(rest, owner, mode);
    }
}

/// Each fill counts for one side only, so the two sizes of an account
/// together are at most the number of fills times the greatest quantity that
/// a fill can hold.
pub proof fn lemma_volumes_bound(w: Seq<FillView>, owner: Seq<char>, mode: AccountingMode)
    ensures
        ask_volume(w, owner, mode) + bid_volume(w, owner, mode) <= w.len() * u64::MAX,
    decreases w.len(),
{
    if w.len() > 0 {
        lemma_volumes_bound(w.drop_last(), owner, mode);
    }
}

/// What a fill adds to the ask size and to the bid size of its account.
fn parts(fill: &PgOpenBookFill, mode: AccountingMode) -> (p: (u64, u64))
    ensures
        p.0 == ask_part(fill@, mode),
        p.1 == bid_part(fill@, mode),
{
    match mode {
        AccountingMode::ByBase => if fill.bid {
            (0, fill.native_quantity_received)
        } else {
            (fill.native_quantity_paid, 0)
        },
        AccountingMode::ByQuote => if fill.bid {
            (fill.native_quantity_received, 0)
        } else {
            (0, fill.native_quantity_paid)
        },
    }
}

/// The accounts that traded in the window, each with its two sizes, in the
/// order in which they first appear in the ledger.
fn group_by_account(
    ledger: &FillLedger,
    market_address_string: &str,
    start_time: i64,
    end_time: i64,
    mode: AccountingMode,
) -> (groups: Vec<PgTrader>)
    ensures
        rows_of(
            ledger@.filter(in_window(market_address_string@, start_time, end_time)),
            mode,
            trader_views(groups@),
        ),
        distinct_owners(trader_views(groups@)),
        in_order_of_first_trade(
            ledger@.filter(in_window(market_address_string@, start_time, end_time)),
            trader_views(groups@),
        ),
        forall|owner: Seq<char>| #[trigger]
            traded(
                ledger@.filter(in_window(market_address_string@, start_time, end_time)),
                owner,
            ) ==> listed(trader_views(groups@), owner),
        ledger@.filter(in_window(market_address_string@, start_time, end_time)).len()
            <= usize::MAX,
{
    let market = String::from_str(market_address_string);
    let ghost log = ledger@;
    let ghost pred = in_window(market_address_string@, start_time, end_time);
    let mut groups: Vec<PgTrader> = Vec::new();
    let n = ledger.len();
    let mut i: usize = 0;
    proof {
        reveal(Seq::filter);
        assert(log.take(0).filter(pred).len() == 0);
    }
    while i < n
        invariant
            i <= n == log.len(),
            log == ledger@,
            pred == in_window(market_address_string@, start_time, end_time),
            market@ == market_address_string@,
            log.take(i as int).filter(pred).len() <= i,
            rows_of(log.take(i as int).filter(pred), mode, trader_views(groups@)),
            distinct_owners(trader_views(groups@)),
            in_order_of_first_trade(log.take(i as int).filter(pred), trader_views(groups@)),
            forall|owner: Seq<char>| #[trigger]
                traded(log.take(i as int).filter(pred), owner) ==> listed(
                    trader_views(groups@),
                    owner,
                ),
        decreases n - i,
    {
        let fill = ledger.get(i);
        let ghost w = log.take(i as int).filter(pred);
        let ghost g = trader_views(groups@);
        proof {
            lemma_filter_step(log, i as int, pred);
        }
        if fill.market_key == market && start_time <= fill.time && fill.time < end_time {
            let ghost next = w.push(fill@);
            let ghost owner = fill@.open_orders_owner;
            let (ask, bid) = parts(fill, mode);
            let mut k: usize = 0;
            while k < groups.len() && !(groups[k].open_orders_owner == fill.open_orders_owner)
                invariant
                    k <= groups.len(),
                    g == trader_views(groups@),
                    owner == fill@.open_orders_owner,
                    forall|a: int| 0 <= a < k ==> (#[trigger] g[a]).open_orders_owner != owner,
                decreases groups.len() - k,
            {
                k += 1;
            }
            proof {
                lemma_volumes_bound(next, owner, mode);
                lemma_volumes_push(w, fill@, owner, mode);
                assert(next.len() * u64::MAX <= u128::MAX) by (nonlinear_arith)
                    requires
                        next.len() <= usize::MAX,
                ;
            }
            if k < groups.len() {
                let stored = &groups[k];
                assert(stored@ == g[k as int]);
                let updated = PgTrader {
                    open_orders_owner: stored.open_orders_owner.clone(),
                    raw_ask_size: stored.raw_ask_size + ask as u128,
                    raw_bid_size: stored.raw_bid_size + bid as u128,
                };
                groups.set(k, updated);
                proof {
                    let g2 = trader_views(groups@);
                    assert(g2 =~= g.update(k as int, trader_row(next, owner, mode)));
                    assert forall|a: int| 0 <= a < g2.len() implies traded(
                        next,
                        (#[trigger] g2[a]).open_orders_owner,
                    ) && g2[a] == trader_row(next, g2[a].open_orders_owner, mode) by {
                        lemma_volumes_push(w, fill@, g[a].open_orders_owner, mode);
                        if a != k {
                            assert(g[a].open_orders_owner != g[k as int].open_orders_owner);
                        }
                    }
                    assert forall|a: int, b: int| 0 <= a < b < g2.len() implies (
                    #[trigger] g2[a]).open_orders_owner != (#[trigger] g2[b]).open_orders_owner
                        && first_trade(next, g2[a].open_orders_owner) < first_trade(
                        next,
                        g2[b].open_orders_owner,
                    ) by {
                        assert(g[a].open_orders_owner != g[b].open_orders_owner);
                        lemma_first_trade_push(w, fill@, g[a].open_orders_owner);
                        lemma_first_trade_push(w, fill@, g[b].open_orders_owner);
                    }
                    assert forall|o: Seq<char>| #[trigger] traded(next, o) implies listed(
                        g2,
                        o,
                    ) by {
                        lemma_volumes_push(w, fill@, o, mode);
                        if o == owner {
                            assert(g2[k as int].open_orders_owner == o);
                        } else {
                            assert(listed(g, o));
                            let a = choose|a: int|
                                0 <= a < g.len() && (#[trigger] g[a]).open_orders_owner == o;
                            assert(g2[a].open_orders_owner == o);
                        }
                    }
                }
            } else {
                proof {
                    assert(!traded(w, owner)) by {
                        if traded(w, owner) {
                            assert(listed(g, owner));
                        }
                    }
                    lemma_untraded_volumes(w, owner, mode);
                }
                groups.push(
                    PgTrader {
                        open_orders_owner: fill.open_orders_owner.clone(),
                        raw_ask_size: ask as u128,
                        raw_bid_size: bid as u128,
                    },
                );
                proof {
                    let g2 = trader_views(groups@);
                    assert(g2 =~= g.push(trader_row(next, owner, mode)));
                    assert forall|a: int| 0 <= a < g2.len() implies traded(
                        next,
                        (#[trigger] g2[a]).open_orders_owner,
                    ) && g2[a] == trader_row(next, g2[a].open_orders_owner, mode) by {
                        lemma_volumes_push(w, fill@, g2[a].open_orders_owner, mode);
                        if a < g.len() {
                            assert(g2[a] == g[a]);
                        }
                    }
                    assert forall|a: int, b: int| 0 <= a < b < g2.len() implies (
                    #[trigger] g2[a]).open_orders_owner != (#[trigger] g2[b]).open_orders_owner
                        && first_trade(next, g2[a].open_orders_owner) < first_trade(
                        next,
                        g2[b].open_orders_owner,
                    ) by {
                        assert(g2[a] == g[a]);
                        lemma_first_trade_push(w, fill@, g[a].open_orders_owner);
                        if b < g.len() {
                            assert(g2[b] == g[b]);
                            assert(g[a].open_orders_owner != g[b].open_orders_owner);
                            lemma_first_trade_push(w, fill@, g[b].open_orders_owner);
                        } else {
                            lemma_first_trade_push(w, fill@, owner);
                        }
                    }
                    assert forall|o: Seq<char>| #[trigger] traded(next, o) implies listed(
                        g2,
                        o,
                    ) by {
                        lemma_volumes_push(w, fill@, o, mode);
                        if o == owner {
                            assert(g2[g.len() as int].open_orders_owner == o);
                        } else {
                            assert(listed(g, o));
                            let a = choose|a: int|
                                0 <= a < g.len() && (#[trigger] g[a]).open_orders_owner == o;
                            assert(g2[a].open_orders_owner == o);
                        }
                    }
                }
            }
        }
        i += 1;
    }
    assert(log.take(i as int) =~= log);
    groups
}

/// The rows in descending order of combined volume; rows of equal volume
/// keep the order they came in.
fn sort_descending(groups: &Vec<PgTrader>) -> (ranked: Vec<PgTrader>)
    requires
        distinct_owners(trader_views(groups@)),
        forall|k: int|
            0 <= k < groups@.len() ==> (#[trigger] trader_views(groups@)[k]).total() <= u128::MAX,
    ensures
        descending(trader_views(ranked@)),
        distinct_owners(trader_views(ranked@)),
        ranked@.len() == groups@.len(),
        forall|k: int|
            0 <= k < ranked@.len() ==> trader_views(groups@).contains(
                #[trigger] trader_views(ranked@)[k],
            ),
        forall|m: int|
            0 <= m < groups@.len() ==> trader_views(ranked@).contains(
                #[trigger] trader_views(groups@)[m],
            ),
        forall|a: int, b: int|
            0 <= a < b < ranked@.len() && (#[trigger] trader_views(ranked@)[a]).total() == (
            #[trigger] trader_views(ranked@)[b]).total() ==> place_of(
                trader_views(groups@),
                trader_views(ranked@)[a].open_orders_owner,
            ) < place_of(trader_views(groups@), trader_views(ranked@)[b].open_orders_owner),
{
    let ghost g = trader_views(groups@);
    let mut ranked: Vec<PgTrader> = Vec::new();
    // from[k] is the place among the groups of the row at place k of the ranking
    let ghost mut from: Seq<int> = Seq::empty();
    let mut j: usize = 0;
    while j < groups.len()
        invariant
            j <= groups.len(),
            g == trader_views(groups@),
            distinct_owners(g),
            forall|k: int| 0 <= k < g.len() ==> (#[trigger] g[k]).total() <= u128::MAX,
            ranked@.len() == j,
            from.len() == j,
            descending(trader_views(ranked@)),
            forall|k: int|
                0 <= k < j ==> 0 <= #[trigger] from[k] < j && trader_views(ranked@)[k]
                    == g[from[k]],
            forall|a: int, b: int| 0 <= a < b < j ==> #[trigger] from[a] != #[trigger] from[b],
            forall|a: int, b: int|
                0 <= a < b < j && (#[trigger] trader_views(ranked@)[a]).total() == (
                #[trigger] trader_views(ranked@)[b]).total() ==> from[a] < from[b],
            forall|m: int| 0 <= m < j ==> #[trigger] from.contains(m),
        decreases groups.len() - j,
    {
        let group = &groups[j];
        assert(group@ == g[j as int]);
        let total = group.raw_ask_size + group.raw_bid_size;
        let ghost r = trader_views(ranked@);
        assert forall|k: int| 0 <= k < j implies (#[trigger] ranked@[k])@.total() <= u128::MAX by {
            assert(r[k] == g[from[k]]);
        }
        let mut p: usize = 0;
        while p < ranked.len() && ranked[p].raw_ask_size + ranked[p].raw_bid_size >= total
            invariant
                p <= ranked.len(),
                ranked@.len() == j,
                forall|k: int| 0 <= k < j ==> (#[trigger] ranked@[k])@.total() <= u128::MAX,
                forall|k: int| 0 <= k < p ==> (#[trigger] ranked@[k])@.total() >= total,
            decreases ranked.len() - p,
        {
            p += 1;
        }
        assert forall|k: int| 0 <= k < p implies (#[trigger] r[k]).total() >= total by {
            assert(r[k] == ranked@[k]@);
        }
        assert(p < j ==> r[p as int].total() < total) by {
            if p < j {
                assert(r[p as int] == ranked@[p as int]@);
            }
        }
        ranked.insert(p, group.clone());
        proof {
            let r2 = trader_views(ranked@);
            let at = p as int;
            let from2 = from.insert(at, j as int);
            assert(r2 =~= r.insert(at, g[j as int]));
            assert forall|k: int| 0 <= k < r2.len() implies #[trigger] r2[k] == (if k < at {
                r[k]
            } else if k == at {
                g[j as int]
            } else {
                r[k - 1]
            }) && #[trigger] from2[k] == (if k < at {
                from[k]
            } else if k == at {
                j as int
            } else {
                from[k - 1]
            }) by {}
            assert forall|a: int, b: int| 0 <= a < b < r2.len() implies (#[trigger] r2[a]).total()
                >= (#[trigger] r2[b]).total() by {
                let a0 = if a < at { a } else { a - 1 };
                let b0 = if b < at { b } else { b - 1 };
                if a != at && b != at {
                    assert(r[a0].total() >= r[b0].total());
                } else if a == at {
                    if at < b0 {
                        assert(r[at].total() >= r[b0].total());
                    }
                } else {
                    assert(r[a0].total() >= total);
                }
            }
            assert forall|a: int, b: int| 0 <= a < b < j + 1 implies #[trigger] from2[a]
                != #[trigger] from2[b] by {
                let a0 = if a < at { a } else { a - 1 };
                let b0 = if b < at { b } else { b - 1 };
                if a != at && b != at {
                    assert(from[a0] != from[b0]);
                }
            }
            assert forall|a: int, b: int|
                0 <= a < b < j + 1 && (#[trigger] r2[a]).total() == (
                #[trigger] r2[b]).total() implies from2[a] < from2[b] by {
                let a0 = if a < at { a } else { a - 1 };
                let b0 = if b < at { b } else { b - 1 };
                if a != at && b != at {
                    assert(r[a0].total() == r[b0].total());
                } else if a == at {
                    if at < b0 {
                        assert(r[at].total() >= r[b0].total());
                    }
                    assert(r[at].total() < total);
                }
            }
            assert forall|m: int| 0 <= m < j + 1 implies #[trigger] from2.contains(m) by {
                if m == j {
                    assert(from2[at] == m);
                } else {
                    assert(from.contains(m));
                    let k = choose|k: int| 0 <= k < from.len() && from[k] == m;
                    let k2 = if k < at { k } else { k + 1 };
                    assert(from2[k2] == m);
                }
            }
            from = from2;
        }
        j += 1;
    }
    proof {
        let r = trader_views(ranked@);
        assert forall|a: int, b: int| 0 <= a < b < r.len() implies (
        #[trigger] r[a]).open_orders_owner != (#[trigger] r[b]).open_orders_owner by {
            let x = from[a];
            let y = from[b];
            if x < y {
                assert(g[x].open_orders_owner != g[y].open_orders_owner);
            } else {
                assert(g[y].open_orders_owner != g[x].open_orders_owner);
            }
        }
        assert forall|k: int| 0 <= k < r.len() implies g.contains(#[trigger] r[k]) by {
            assert(g[from[k]] == r[k]);
        }
        assert forall|m: int| 0 <= m < g.len() implies r.contains(#[trigger] g[m]) by {
            assert(from.contains(m));
            let k = choose|k: int| 0 <= k < from.len() && from[k] == m;
            assert(r[k] == g[m]);
        }
        assert forall|a: int, b: int|
            0 <= a < b < r.len() && (#[trigger] r[a]).total() == (
            #[trigger] r[b]).total() implies place_of(g, r[a].open_orders_owner) < place_of(
            g,
            r[b].open_orders_owner,
        ) by {
            lemma_place_of(g, from[a]);
            lemma_place_of(g, from[b]);
        }
    }
    ranked
}

/// In a stable descending sort of rows that stand in the order of their
/// first trades, an earlier row ranks before a later one.
proof fn lemma_ranks_before(
    w: Seq<FillView>,
    g: Seq<TraderView>,
    r: Seq<TraderView>,
    a: int,
    b: int,
)
    requires
        0 <= a < b < r.len(),
        distinct_owners(g),
        in_order_of_first_trade(w, g),
        descending(r),
        forall|k: int| 0 <= k < r.len() ==> g.contains(#[trigger] r[k]),
        forall|x: int, y: int|
            0 <= x < y < r.len() && (#[trigger] r[x]).total() == (#[trigger] r[y]).total()
                ==> place_of(g, r[x].open_orders_owner) < place_of(g, r[y].open_orders_owner),
    ensures
        ranks_before(w, r[a], r[b]),
{
    assert(r[a].total() >= r[b].total());
    if r[a].total() == r[b].total() {
        assert(g.contains(r[a]) && g.contains(r[b]));
        let x = choose|x: int| 0 <= x < g.len() && g[x] == r[a];
        let y = choose|y: int| 0 <= y < g.len() && g[y] == r[b];
        lemma_place_of(g, x);
        lemma_place_of(g, y);
        assert(first_trade(w, g[x].open_orders_owner) < first_trade(w, g[y].open_orders_owner));
    }
}

/// The accounts that traded the most in a market over `[start_time,
/// end_time)`: for each its ask size and its bid size in the given mode, in
/// descending order of the two together, the first 10,000 at most.
pub fn fetch_top_traders(
    ledger: &FillLedger,
    market_address_string: &str,
    start_time: i64,
    end_time: i64,
    mode: AccountingMode,
) -> (traders: Vec<PgTrader>)
    ensures
        is_ranking(
            ledger@.filter(in_window(market_address_string@, start_time, end_time)),
            mode,
            trader_views(traders@),
            TOP_TRADERS_LIMIT as int,
        ),
{
    let ghost w = ledger@.filter(in_window(market_address_string@, start_time, end_time));
    let groups = group_by_account(ledger, market_address_string, start_time, end_time, mode);
    let ghost g = trader_views(groups@);
    proof {
        assert forall|k: int| 0 <= k < g.len() implies (#[trigger] g[k]).total() <= u128::MAX by {
            lemma_volumes_bound(w, g[k].open_orders_owner, mode);
            assert(w.len() * u64::MAX <= u128::MAX) by (nonlinear_arith)
                requires
                    w.len() <= usize::MAX,
            ;
        }
    }
    let mut traders = sort_descending(&groups);
    let ghost r = trader_views(traders@);
    traders.truncate(TOP_TRADERS_LIMIT);
    proof {
        let rows = trader_views(traders@);
        let kept = rows.len() as int;
        assert(rows =~= r.take(kept));
        assert forall|k: int| 0 <= k < rows.len() implies traded(
            w,
            (#[trigger] rows[k]).open_orders_owner,
        ) && rows[k] == trader_row(w, rows[k].open_orders_owner, mode) by {
            assert(rows[k] == r[k]);
            assert(g.contains(r[k]));
            let m = choose|m: int| 0 <= m < g.len() && g[m] == r[k];
            assert(traded(w, g[m].open_orders_owner));
        }
        assert forall|a: int, b: int| 0 <= a < b < rows.len() implies (
        #[trigger] rows[a]).open_orders_owner != (#[trigger] rows[b]).open_orders_owner
            && rows[a].total() >= rows[b].total() && ranks_before(w, rows[a], rows[b]) by {
            assert(rows[a] == r[a] && rows[b] == r[b]);
            lemma_ranks_before(w, g, r, a, b);
        }
        // the accounts are the owners of the groups, one group for each
        let owners = g.map_values(|t: TraderView| t.open_orders_owner);
        assert(owners.no_duplicates()) by {
            assert forall|a: int, b: int| 0 <= a < owners.len() && 0 <= b < owners.len() && a
                != b implies owners[a] != owners[b] by {
                if a < b {
                    assert(g[a].open_orders_owner != g[b].open_orders_owner);
                } else {
                    assert(g[b].open_orders_owner != g[a].open_orders_owner);
                }
            }
        }
        assert(owners.to_set() =~= accounts(w)) by {
            assert forall|o: Seq<char>| owners.to_set().contains(o) <==> accounts(w).contains(
                o,
            ) by {
                if owners.contains(o) {
                    let m = choose|m: int| 0 <= m < owners.len() && owners[m] == o;
                    assert(traded(w, g[m].open_orders_owner));
                }
                if traded(w, o) {
                    assert(listed(g, o));
                    let m = choose|m: int|
                        0 <= m < g.len() && (#[trigger] g[m]).open_orders_owner == o;
                    assert(owners[m] == o);
                }
            }
        }
        owners.unique_seq_to_set();
        seq_to_set_is_finite(owners);
        assert forall|owner: Seq<char>, k: int|
            #![trigger traded(w, owner), rows[k]]
            traded(w, owner) && !listed(rows, owner) && 0 <= k < rows.len() implies ranks_before(
            w,
            rows[k],
            trader_row(w, owner, mode),
        ) by {
            assert(listed(g, owner));
            let m = choose|m: int| 0 <= m < g.len() && (#[trigger] g[m]).open_orders_owner == owner;
            assert(r.contains(g[m]));
            let at = choose|at: int| 0 <= at < r.len() && r[at] == g[m];
            if at < kept {
                assert(rows[at].open_orders_owner == owner);
            }
            assert(rows[k] == r[k]);
            assert(r[k].total() >= r[at].total());
            lemma_ranks_before(w, g, r, k, at);
        }
    }
    traders
}

} // verus!
