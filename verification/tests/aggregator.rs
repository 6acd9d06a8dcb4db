use openbook_candles::aggregator::{aggregate_candle, AggregateError, EmptyBucketPolicy};
use openbook_candles::structs::candle::Candle;
use openbook_candles::structs::openbook::PgOpenBookFill;
use openbook_candles::structs::resolution::Resolution;

const MINUTE: i64 = 60_000_000_000;

fn fill(minute: i64, price: u64, size: u64, seq: u64, maker: bool) -> PgOpenBookFill {
    PgOpenBookFill {
        time: minute * MINUTE,
        market_key: "SOL/USDC".to_string(),
        open_orders_owner: "alice".to_string(),
        bid: true,
        maker,
        price,
        size,
        native_quantity_paid: 0,
        native_quantity_received: 0,
        seq_num: seq,
    }
}

fn candle(open: u64, close: u64, high: u64, low: u64, volume: u128, complete: bool) -> Candle {
    Candle {
        market_name: "SOL/USDC".to_string(),
        start_time: 0,
        end_time: 10 * MINUTE,
        resolution: Resolution::R5m,
        open,
        close,
        high,
        low,
        volume,
        complete,
    }
}

fn ten_minutes(fills: &Vec<PgOpenBookFill>, now: i64) -> Result<Candle, AggregateError> {
    aggregate_candle(fills, "SOL/USDC", Resolution::R10m, 0, now, EmptyBucketPolicy::Omit)
}

#[test]
fn end_to_end_example() {
    let fills = vec![
        fill(0, 10, 1, 1, true),
        fill(5, 12, 2, 2, true),
        fill(9, 11, 1, 3, true),
    ];
    let got = ten_minutes(&fills, 0).unwrap();
    assert_eq!(got.open, 10);
    assert_eq!(got.close, 11);
    assert_eq!(got.high, 12);
    assert_eq!(got.low, 10);
    assert_eq!(got.volume, 4);
    assert_eq!(got.market_name, "SOL/USDC");
    assert_eq!(got.start_time, 0);
    assert_eq!(got.end_time, 10 * MINUTE);
    assert_eq!(got.resolution, Resolution::R10m);
    assert!(!got.complete);
}

#[test]
fn order_of_the_input_does_not_matter() {
    let fills = vec![
        fill(9, 11, 1, 3, true),
        fill(0, 10, 1, 1, true),
        fill(5, 12, 2, 2, true),
    ];
    let got = ten_minutes(&fills, 0).unwrap();
    assert_eq!((got.open, got.close, got.high, got.low, got.volume), (10, 11, 12, 10, 4));
}

#[test]
fn equal_times_are_ordered_by_sequence_number() {
    let fills = vec![
        fill(1, 30, 1, 7, true),
        fill(1, 20, 1, 5, true),
        fill(1, 25, 1, 6, true),
    ];
    let got = ten_minutes(&fills, 0).unwrap();
    assert_eq!(got.open, 20);
    assert_eq!(got.close, 30);
    assert_eq!(got.high, 30);
    assert_eq!(got.low, 20);
}

#[test]
fn equal_time_and_sequence_number_take_first_for_open_and_last_for_close() {
    let fills = vec![fill(1, 20, 1, 5, true), fill(1, 30, 1, 5, true), fill(1, 25, 1, 5, true)];
    let got = ten_minutes(&fills, 0).unwrap();
    assert_eq!(got.open, 20);
    assert_eq!(got.close, 25);
}

#[test]
fn taker_legs_do_not_count() {
    let makers = vec![fill(0, 10, 1, 1, true), fill(5, 12, 2, 2, true)];
    let both = vec![
        fill(0, 99, 1, 0, false),
        fill(0, 10, 1, 1, true),
        fill(0, 10, 1, 1, false),
        fill(5, 12, 2, 2, true),
        fill(5, 12, 2, 2, false),
        fill(6, 1, 50, 9, false),
    ];
    let alone = ten_minutes(&makers, 0).unwrap();
    let together = ten_minutes(&both, 0).unwrap();
    assert_eq!(alone, together);
    assert_eq!(together.volume, 3);
    assert_eq!(together.high, 12);
    assert_eq!(together.low, 10);
    assert_eq!(together.close, 12);
}

#[test]
fn fills_outside_the_bucket_or_of_another_market_do_not_count() {
    let mut other = fill(2, 500, 5, 2, true);
    other.market_key = "BTC/USDC".to_string();
    let mut before = fill(0, 700, 5, 0, true);
    before.time = -1;
    let fills = vec![
        before,
        fill(0, 10, 1, 1, true),
        other,
        fill(9, 11, 1, 3, true),
        fill(10, 900, 5, 4, true),
    ];
    let got = ten_minutes(&fills, 0).unwrap();
    assert_eq!((got.open, got.close, got.high, got.low, got.volume), (10, 11, 11, 10, 2));
}

#[test]
fn bucket_is_complete_once_its_end_is_strictly_past() {
    let fills = vec![fill(0, 10, 1, 1, true)];
    let at = |now: i64| {
        aggregate_candle(&fills, "SOL/USDC", Resolution::R1m, 0, now, EmptyBucketPolicy::Omit)
            .unwrap()
            .complete
    };
    assert!(!at(MINUTE - 1));
    assert!(!at(MINUTE));
    assert!(at(MINUTE + 1));
}

#[test]
fn empty_bucket_is_an_error_when_omitted() {
    let got = ten_minutes(&Vec::new(), 0);
    assert_eq!(got, Err(AggregateError::EmptyBucket));
    let takers = vec![fill(0, 10, 1, 1, false)];
    assert_eq!(ten_minutes(&takers, 0), Err(AggregateError::EmptyBucket));
}

#[test]
fn empty_bucket_carries_the_prior_close_forward() {
    let got = aggregate_candle(
        &Vec::new(),
        "SOL/USDC",
        Resolution::R5m,
        5 * MINUTE,
        11 * MINUTE,
        EmptyBucketPolicy::CarryForward { prior_close: 42 },
    )
    .unwrap();
    let mut expected = candle(42, 42, 42, 42, 0, true);
    expected.start_time = 5 * MINUTE;
    assert_eq!(got, expected);
}

#[test]
fn carry_forward_is_not_used_when_fills_exist() {
    let fills = vec![fill(0, 10, 3, 1, true)];
    let got = aggregate_candle(
        &fills,
        "SOL/USDC",
        Resolution::R5m,
        0,
        0,
        EmptyBucketPolicy::CarryForward { prior_close: 42 },
    )
    .unwrap();
    let mut expected = candle(10, 10, 10, 10, 3, false);
    expected.end_time = 5 * MINUTE;
    assert_eq!(got, expected);
}

#[test]
fn bucket_that_ends_beyond_the_last_instant_is_refused() {
    let fills = vec![fill(0, 10, 1, 1, true)];
    let got = aggregate_candle(
        &fills,
        "SOL/USDC",
        Resolution::R1m,
        i64::MAX - MINUTE + 1,
        0,
        EmptyBucketPolicy::CarryForward { prior_close: 1 },
    );
    assert_eq!(got, Err(AggregateError::BucketOutOfRange));
    let last = aggregate_candle(
        &fills,
        "SOL/USDC",
        Resolution::R1m,
        i64::MAX - MINUTE,
        0,
        EmptyBucketPolicy::CarryForward { prior_close: 1 },
    )
    .unwrap();
    assert_eq!(last.end_time, i64::MAX);
    assert_eq!(last.open, 1);
}

#[test]
fn volume_sums_beyond_64_bits() {
    let fills = vec![fill(0, 1, u64::MAX, 1, true), fill(1, 1, u64::MAX, 2, true)];
    let got = ten_minutes(&fills, 0).unwrap();
    assert_eq!(got.volume, 2 * (u64::MAX as u128));
}

#[test]
fn same_fills_give_the_same_candle() {
    let fills = vec![fill(0, 10, 1, 1, true), fill(5, 12, 2, 2, true)];
    assert_eq!(ten_minutes(&fills, 7), ten_minutes(&fills.clone(), 7));
}
