use openbook_candles::database::fetch::{fetch_earliest_fill, fetch_fills_from};
use openbook_candles::database::ledger::{FillLedger, LedgerError};
use openbook_candles::structs::openbook::PgOpenBookFill;

fn fill(market: &str, time: i64, seq: u64, price: u64, size: u64, maker: bool) -> PgOpenBookFill {
    PgOpenBookFill {
        time,
        market_key: market.to_string(),
        open_orders_owner: "alice".to_string(),
        bid: false,
        maker,
        price,
        size,
        native_quantity_paid: 0,
        native_quantity_received: 0,
        seq_num: seq,
    }
}

fn ledger_of(fills: Vec<PgOpenBookFill>) -> FillLedger {
    let mut ledger = FillLedger::new();
    for f in fills {
        assert_eq!(ledger.append(f), Ok(()));
    }
    ledger
}

#[test]
fn new_ledger_is_empty() {
    let ledger = FillLedger::new();
    assert_eq!(ledger.len(), 0);
    assert_eq!(fetch_earliest_fill(&ledger, "m"), None);
    assert!(fetch_fills_from(&ledger, "m", i64::MIN, i64::MAX).is_empty());
}

#[test]
fn append_keeps_fills_in_order() {
    let ledger = ledger_of(vec![
        fill("m", 1, 1, 10, 1, true),
        fill("m", 1, 1, 11, 1, false),
        fill("m", 1, 2, 12, 1, true),
        fill("m", 2, 0, 13, 1, true),
    ]);
    assert_eq!(ledger.len(), 4);
    assert_eq!(ledger.get(0).price, 10);
    assert_eq!(ledger.get(1).price, 11);
    assert_eq!(ledger.get(3).price, 13);
}

#[test]
fn append_refuses_a_fill_before_the_last() {
    let mut ledger = ledger_of(vec![fill("m", 5, 5, 10, 1, true)]);
    assert_eq!(ledger.append(fill("m", 4, 9, 10, 1, true)), Err(LedgerError::OutOfOrder));
    assert_eq!(ledger.append(fill("m", 5, 4, 10, 1, true)), Err(LedgerError::OutOfOrder));
    assert_eq!(ledger.len(), 1);
    assert_eq!(ledger.append(fill("m", 5, 5, 11, 1, true)), Ok(()));
    assert_eq!(ledger.append(fill("m", 5, 6, 12, 1, true)), Ok(()));
    assert_eq!(ledger.len(), 3);
}

#[test]
fn append_refuses_notional_beyond_128_bits() {
    let mut ledger = FillLedger::new();
    // (2^64 - 1)^2 = 2^128 - 2^65 + 1, so 2^65 - 2 of notional are left
    assert_eq!(ledger.append(fill("m", 0, 0, u64::MAX, u64::MAX, true)), Ok(()));
    assert_eq!(ledger.append(fill("m", 1, 0, 1u64 << 33, (1u64 << 32) - 1, false)), Ok(()));
    assert_eq!(ledger.append(fill("m", 2, 0, 1u64 << 32, 1, true)), Ok(()));
    // 2^65 - 2 - (2^65 - 2^33) - 2^32 = 2^32 - 2 are left
    assert_eq!(
        ledger.append(fill("m", 3, 0, (1u64 << 32) - 1, 1, true)),
        Err(LedgerError::NotionalOverflow)
    );
    assert_eq!(ledger.len(), 3);
    assert_eq!(ledger.append(fill("m", 3, 0, (1u64 << 32) - 2, 1, true)), Ok(()));
    assert_eq!(ledger.append(fill("m", 4, 0, 7, 0, true)), Ok(()));
    assert_eq!(ledger.append(fill("m", 5, 0, 1, 1, true)), Err(LedgerError::NotionalOverflow));
    assert_eq!(ledger.len(), 5);
}

#[test]
fn out_of_order_is_reported_before_overflow() {
    let mut ledger = ledger_of(vec![fill("m", 5, 0, u64::MAX, u64::MAX, true)]);
    assert_eq!(
        ledger.append(fill("m", 4, 0, u64::MAX, u64::MAX, true)),
        Err(LedgerError::OutOfOrder)
    );
}

#[test]
fn earliest_fill_is_the_first_maker_fill_of_the_market() {
    let ledger = ledger_of(vec![
        fill("other", 1, 1, 1, 1, true),
        fill("m", 2, 1, 2, 1, false),
        fill("m", 3, 2, 3, 1, true),
        fill("m", 3, 3, 4, 1, true),
        fill("m", 9, 0, 5, 1, true),
    ]);
    let got = fetch_earliest_fill(&ledger, "m").unwrap();
    assert_eq!(got, fill("m", 3, 2, 3, 1, true));
    assert_eq!(fetch_earliest_fill(&ledger, "other").unwrap().price, 1);
    assert_eq!(fetch_earliest_fill(&ledger, "none"), None);
}

#[test]
fn earliest_fill_is_none_for_a_market_with_taker_fills_only() {
    let ledger = ledger_of(vec![fill("m", 2, 1, 2, 1, false)]);
    assert_eq!(fetch_earliest_fill(&ledger, "m"), None);
}

#[test]
fn fills_from_takes_maker_fills_of_the_half_open_range() {
    let ledger = ledger_of(vec![
        fill("m", 9, 0, 1, 1, true),
        fill("m", 10, 0, 2, 1, true),
        fill("m", 10, 1, 3, 1, false),
        fill("x", 11, 0, 4, 1, true),
        fill("m", 15, 0, 5, 1, true),
        fill("m", 19, 7, 6, 1, true),
        fill("m", 20, 0, 7, 1, true),
    ]);
    let got = fetch_fills_from(&ledger, "m", 10, 20);
    let prices: Vec<u64> = got.iter().map(|f| f.price).collect();
    assert_eq!(prices, vec![2, 5, 6]);
    assert_eq!(got[2], fill("m", 19, 7, 6, 1, true));
    assert!(fetch_fills_from(&ledger, "m", 20, 10).is_empty());
    assert!(fetch_fills_from(&ledger, "m", 16, 19).is_empty());
}

#[test]
fn ledger_reads_all_fills_or_maker_fills_alone() {
    let ledger = ledger_of(vec![
        fill("m", 1, 0, 1, 1, false),
        fill("x", 2, 0, 2, 1, true),
        fill("m", 3, 0, 3, 1, true),
        fill("m", 4, 0, 4, 1, false),
        fill("m", 5, 0, 5, 1, true),
    ]);
    assert_eq!(ledger.earliest_fill("m", false).unwrap().price, 1);
    assert_eq!(ledger.earliest_fill("m", true).unwrap().price, 3);
    assert_eq!(ledger.earliest_fill("x", false).unwrap().price, 2);
    assert_eq!(ledger.earliest_fill("none", false), None);
    let all: Vec<u64> = ledger.fills_in_range("m", 1, 5, false).iter().map(|f| f.price).collect();
    assert_eq!(all, vec![1, 3, 4]);
    let makers: Vec<u64> = ledger.fills_in_range("m", 1, 6, true).iter().map(|f| f.price).collect();
    assert_eq!(makers, vec![3, 5]);
    assert_eq!(ledger.fills_in_range("m", 1, 6, true), fetch_fills_from(&ledger, "m", 1, 6));
    assert_eq!(ledger.earliest_fill("m", true), fetch_earliest_fill(&ledger, "m"));
}

#[test]
fn ledger_that_reached_the_end_of_a_bucket_takes_no_more_fills_of_it() {
    let mut ledger = FillLedger::new();
    assert!(!ledger.has_reached(i64::MIN));
    assert_eq!(ledger.append(fill("m", 10, 0, 1, 1, true)), Ok(()));
    assert!(ledger.has_reached(10));
    assert!(!ledger.has_reached(11));
    assert_eq!(ledger.append(fill("x", 20, 0, 1, 1, true)), Ok(()));
    assert!(ledger.has_reached(20));
    let before = fetch_fills_from(&ledger, "m", 0, 20);
    assert_eq!(ledger.append(fill("m", 19, 0, 1, 1, true)), Err(LedgerError::OutOfOrder));
    assert_eq!(ledger.append(fill("m", 20, 0, 1, 1, true)), Ok(()));
    assert_eq!(fetch_fills_from(&ledger, "m", 0, 20), before);
}
