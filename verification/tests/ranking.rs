use openbook_candles::database::fetch::{
    fetch_top_traders_by_base_volume_from, fetch_top_traders_by_quote_volume_from,
};
use openbook_candles::database::ledger::FillLedger;
use openbook_candles::database::ranking::{fetch_top_traders, AccountingMode, TOP_TRADERS_LIMIT};
use openbook_candles::structs::openbook::PgOpenBookFill;
use openbook_candles::structs::trader::PgTrader;

fn fill(market: &str, owner: &str, time: i64, bid: bool, paid: u64, received: u64) -> PgOpenBookFill {
    PgOpenBookFill {
        time,
        market_key: market.to_string(),
        open_orders_owner: owner.to_string(),
        bid,
        maker: time % 2 == 0,
        price: 1,
        size: 1,
        native_quantity_paid: paid,
        native_quantity_received: received,
        seq_num: 0,
    }
}

fn ledger_of(fills: Vec<PgOpenBookFill>) -> FillLedger {
    let mut ledger = FillLedger::new();
    for f in fills {
        assert_eq!(ledger.append(f), Ok(()));
    }
    ledger
}

fn trader(owner: &str, ask: u128, bid: u128) -> PgTrader {
    PgTrader { open_orders_owner: owner.to_string(), raw_ask_size: ask, raw_bid_size: bid }
}

fn sample() -> FillLedger {
    ledger_of(vec![
        fill("m", "early", 5, false, 1000, 1000),
        fill("m", "alice", 10, false, 7, 100),
        fill("m", "bob", 11, true, 50, 3),
        fill("x", "alice", 12, false, 900, 900),
        fill("m", "alice", 13, true, 20, 5),
        fill("m", "carol", 14, false, 40, 1),
        fill("m", "bob", 15, true, 60, 4),
        fill("m", "alice", 19, false, 2, 30),
        fill("m", "late", 20, false, 1000, 1000),
    ])
}

#[test]
fn limit_is_ten_thousand() {
    assert_eq!(TOP_TRADERS_LIMIT, 10_000);
}

#[test]
fn base_volume_sums_what_asks_paid_and_bids_received() {
    let got = fetch_top_traders_by_base_volume_from(&sample(), "m", 10, 20);
    assert_eq!(got, vec![trader("carol", 40, 0), trader("alice", 9, 5), trader("bob", 0, 7)]);
}

#[test]
fn quote_volume_swaps_the_roles_of_the_two_quantities() {
    let got = fetch_top_traders_by_quote_volume_from(&sample(), "m", 10, 20);
    assert_eq!(got, vec![trader("carol", 0, 40), trader("alice", 5, 9), trader("bob", 7, 0)]);
}

#[test]
fn both_modes_go_through_one_ranking() {
    let ledger = sample();
    assert_eq!(
        fetch_top_traders(&ledger, "m", 10, 20, AccountingMode::ByBase),
        fetch_top_traders_by_base_volume_from(&ledger, "m", 10, 20)
    );
    assert_eq!(
        fetch_top_traders(&ledger, "m", 10, 20, AccountingMode::ByQuote),
        fetch_top_traders_by_quote_volume_from(&ledger, "m", 10, 20)
    );
}

#[test]
fn window_is_half_open_and_of_one_market() {
    let ledger = sample();
    let wide = fetch_top_traders_by_base_volume_from(&ledger, "m", 5, 21);
    assert_eq!(wide.len(), 5);
    assert_eq!(wide[0].raw_ask_size, 1000);
    assert_eq!(wide[1].raw_ask_size, 1000);
    let other = fetch_top_traders_by_base_volume_from(&ledger, "x", 0, 100);
    assert_eq!(other, vec![trader("alice", 900, 0)]);
    assert!(fetch_top_traders_by_base_volume_from(&ledger, "m", 20, 10).is_empty());
    assert!(fetch_top_traders_by_base_volume_from(&ledger, "none", 0, 100).is_empty());
}

#[test]
fn accounts_of_equal_volume_keep_the_order_of_their_first_trades() {
    let ledger = ledger_of(vec![
        fill("m", "a", 1, false, 5, 0),
        fill("m", "b", 2, true, 0, 2),
        fill("m", "c", 3, false, 9, 0),
        fill("m", "d", 4, true, 0, 5),
        fill("m", "b", 5, true, 0, 3),
    ]);
    let got = fetch_top_traders_by_base_volume_from(&ledger, "m", 0, 10);
    assert_eq!(
        got,
        vec![trader("c", 9, 0), trader("a", 5, 0), trader("b", 0, 5), trader("d", 0, 5)]
    );
}

#[test]
fn cut_among_accounts_of_equal_volume_keeps_those_that_traded_first() {
    let mut ledger = FillLedger::new();
    for i in 0..10_002u64 {
        let owner = format!("account-{}", i);
        assert_eq!(ledger.append(fill("m", &owner, i as i64, false, 3, 0)), Ok(()));
    }
    let got = fetch_top_traders_by_base_volume_from(&ledger, "m", 0, 20_000);
    assert_eq!(got.len(), 10_000);
    for (k, t) in got.iter().enumerate() {
        assert_eq!(t, &trader(&format!("account-{}", k), 3, 0));
    }
}

#[test]
fn sizes_reach_beyond_64_bits() {
    let ledger = ledger_of(vec![
        fill("m", "a", 1, false, u64::MAX, 0),
        fill("m", "a", 2, false, u64::MAX, 0),
        fill("m", "a", 3, true, 0, u64::MAX),
    ]);
    let got = fetch_top_traders_by_base_volume_from(&ledger, "m", 0, 10);
    assert_eq!(got, vec![trader("a", 2 * (u64::MAX as u128), u64::MAX as u128)]);
}

#[test]
fn ranking_is_cut_off_at_the_top_ten_thousand() {
    let accounts = 10_003u64;
    let mut ledger = FillLedger::new();
    for i in 0..accounts {
        // volumes 1..=10_003 in an order that is neither ascending nor descending
        let volume = (i * 7919) % accounts + 1;
        let owner = format!("account-{}", i);
        assert_eq!(ledger.append(fill("m", &owner, i as i64, i % 2 == 0, volume, volume)), Ok(()));
    }
    let got = fetch_top_traders_by_base_volume_from(&ledger, "m", 0, accounts as i64);
    assert_eq!(got.len(), 10_000);
    for (k, t) in got.iter().enumerate() {
        assert_eq!(t.raw_ask_size + t.raw_bid_size, (accounts as u128) - (k as u128));
    }
    // the three that are left out are the three that traded least
    assert_eq!(got[9_999].raw_ask_size + got[9_999].raw_bid_size, 4);
    let mut owners: Vec<&str> = got.iter().map(|t| t.open_orders_owner.as_str()).collect();
    owners.sort();
    owners.dedup();
    assert_eq!(owners.len(), 10_000);
}

#[test]
fn ranking_of_exactly_ten_thousand_accounts_holds_them_all() {
    let mut ledger = FillLedger::new();
    for i in 0..10_000u64 {
        let owner = format!("account-{}", i);
        assert_eq!(ledger.append(fill("m", &owner, i as i64, false, i, 0)), Ok(()));
    }
    let got = fetch_top_traders_by_quote_volume_from(&ledger, "m", 0, 10_000);
    assert_eq!(got.len(), 10_000);
    assert_eq!(got[0], trader("account-9999", 0, 9_999));
    assert_eq!(got[9_999], trader("account-0", 0, 0));
}
