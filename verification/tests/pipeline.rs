use openbook_candles::aggregator::{aggregate_candle, EmptyBucketPolicy};
use openbook_candles::database::fetch::{
    fetch_candles_from, fetch_fills_from, fetch_latest_finished_candle,
};
use openbook_candles::database::initialize::create_candles_table;
use openbook_candles::database::insert::build_candles_upsert_statement;
use openbook_candles::database::ledger::FillLedger;
use openbook_candles::structs::candle::Candle;
use openbook_candles::structs::openbook::PgOpenBookFill;
use openbook_candles::structs::resolution::Resolution;

const MINUTE: i64 = 60_000_000_000;

fn leg(second: i64, seq: u64, price: u64, size: u64, maker: bool) -> PgOpenBookFill {
    PgOpenBookFill {
        time: second * 1_000_000_000,
        market_key: "SOL/USDC".to_string(),
        open_orders_owner: if maker { "maker".to_string() } else { "taker".to_string() },
        bid: maker,
        maker,
        price,
        size,
        native_quantity_paid: size,
        native_quantity_received: size * price,
        seq_num: seq,
    }
}

fn candles_of(ledger: &FillLedger, buckets: i64, now: i64) -> Vec<Candle> {
    let mut candles = Vec::new();
    let mut prior_close = 0;
    for b in 0..buckets {
        let start = b * MINUTE;
        let fills = fetch_fills_from(ledger, "SOL/USDC", start, start + MINUTE);
        let candle = aggregate_candle(
            &fills,
            "SOL/USDC",
            Resolution::R1m,
            start,
            now,
            EmptyBucketPolicy::CarryForward { prior_close },
        )
        .unwrap();
        prior_close = candle.close;
        candles.push(candle);
    }
    candles
}

#[test]
fn fills_become_candles_and_candles_are_stored_once() {
    let mut ledger = FillLedger::new();
    let trades = [(1, 100, 2), (30, 104, 1), (59, 101, 3), (125, 99, 5), (130, 103, 1)];
    for (n, (second, price, size)) in trades.iter().enumerate() {
        assert_eq!(ledger.append(leg(*second, n as u64, *price, *size, true)), Ok(()));
        assert_eq!(ledger.append(leg(*second, n as u64, *price, *size, false)), Ok(()));
    }
    let mut store = create_candles_table();

    // at 02:10 the first two buckets are over, the third is not
    let first = candles_of(&ledger, 3, 130 * 1_000_000_000);
    assert_eq!(store.merge_upsert(&first), Ok(()));
    let stored = fetch_candles_from(&store, "SOL/USDC", Resolution::R1m, 0, 3 * MINUTE);
    assert_eq!(stored, first);
    let summary: Vec<(u64, u64, u64, u64, u128, bool)> = stored
        .iter()
        .map(|c| (c.open, c.close, c.high, c.low, c.volume, c.complete))
        .collect();
    assert_eq!(
        summary,
        vec![
            (100, 101, 104, 100, 6, true),
            (101, 101, 101, 101, 0, true),
            (99, 103, 103, 99, 6, false),
        ]
    );
    let latest = fetch_latest_finished_candle(&store, "SOL/USDC", Resolution::R1m).unwrap();
    assert_eq!(latest.start_time, MINUTE);

    // one more trade in the third bucket, then the same buckets again
    assert_eq!(ledger.append(leg(170, 9, 90, 4, true)), Ok(()));
    let second = candles_of(&ledger, 3, 181 * 1_000_000_000);
    assert_eq!(store.merge_upsert(&second), Ok(()));
    assert_eq!(store.len(), 3);
    let stored = fetch_candles_from(&store, "SOL/USDC", Resolution::R1m, 0, 3 * MINUTE);
    assert_eq!(stored, second);
    assert_eq!(stored[0], first[0]);
    assert_eq!(stored[1], first[1]);
    let third = &stored[2];
    assert_eq!(
        (third.open, third.close, third.high, third.low, third.volume, third.complete),
        (99, 90, 103, 90, 10, true)
    );
    let latest = fetch_latest_finished_candle(&store, "SOL/USDC", Resolution::R1m).unwrap();
    assert_eq!(latest.start_time, 2 * MINUTE);

    let stmt = build_candles_upsert_statement(&second);
    assert!(stmt.contains("('SOL/USDC', '1970-01-01T00:00:00+00:00', '1970-01-01T00:01:00+00:00', '1M', 100, 101, 104, 100, 6, true), "));
    assert!(stmt.contains(", ('SOL/USDC', '1970-01-01T00:02:00+00:00', '1970-01-01T00:03:00+00:00', '1M', 99, 90, 103, 90, 10, true) ON CONFLICT"));
}
