use openbook_candles::database::fetch::{fetch_coingecko_24h_high_low, fetch_coingecko_24h_volume};
use openbook_candles::database::ledger::FillLedger;
use openbook_candles::database::snapshot::{market_high_low, market_volume, DAY_NANOS};
use openbook_candles::structs::coingecko::{PgCoinGecko24HighLow, PgCoinGecko24HourVolume};
use openbook_candles::structs::openbook::PgOpenBookFill;

const HOUR: i64 = 3_600_000_000_000;

fn fill(market: &str, time: i64, seq: u64, price: u64, size: u64, maker: bool) -> PgOpenBookFill {
    PgOpenBookFill {
        time,
        market_key: market.to_string(),
        open_orders_owner: "alice".to_string(),
        bid: true,
        maker,
        price,
        size,
        native_quantity_paid: 0,
        native_quantity_received: 0,
        seq_num: seq,
    }
}

fn ledger_of(fills: Vec<PgOpenBookFill>) -> FillLedger {
    let mut ledger = FillLedger::new();
    for f in fills {
        assert_eq!(ledger.append(f), Ok(()));
    }
    ledger
}

fn prices(address: &str, last_price: u64, high: u64, low: u64, close: u64) -> PgCoinGecko24HighLow {
    PgCoinGecko24HighLow { address: address.to_string(), last_price, high, low, close }
}

fn volume(address: &str, base_size: u128, quote_size: u128) -> PgCoinGecko24HourVolume {
    PgCoinGecko24HourVolume { address: address.to_string(), base_size, quote_size }
}

fn sample() -> FillLedger {
    ledger_of(vec![
        fill("old", 1 * HOUR, 1, 70, 5, true),
        fill("old", 2 * HOUR, 1, 80, 5, true),
        fill("old", 2 * HOUR, 2, 75, 5, true),
        fill("m", 10 * HOUR, 1, 200, 1, true),
        fill("m", 50 * HOUR, 1, 100, 2, true),
        fill("m", 50 * HOUR, 1, 999, 2, false),
        fill("m", 60 * HOUR, 3, 130, 3, true),
        fill("m", 60 * HOUR, 4, 90, 4, true),
        fill("m", 60 * HOUR, 5, 120, 5, true),
        fill("takers", 61 * HOUR, 1, 5, 5, false),
    ])
}

#[test]
fn day_is_24_hours_of_nanoseconds() {
    assert_eq!(DAY_NANOS, 24 * HOUR);
}

#[test]
fn high_low_close_are_taken_from_the_last_24_hours() {
    let got = market_high_low(&sample(), "m", 70 * HOUR);
    assert_eq!(got, prices("m", 120, 130, 90, 120));
}

#[test]
fn window_includes_the_fill_exactly_24_hours_old() {
    let ledger = sample();
    let at = market_high_low(&ledger, "m", 74 * HOUR);
    assert_eq!(at, prices("m", 120, 130, 90, 120));
    let wide = market_high_low(&ledger, "m", 34 * HOUR);
    assert_eq!(wide, prices("m", 120, 200, 90, 120));
    let later = market_high_low(&ledger, "m", 84 * HOUR);
    assert_eq!(later, prices("m", 120, 130, 90, 120));
    let edge = market_volume(&ledger, "m", 74 * HOUR);
    assert_eq!(edge, volume("m", 14, 200 + 390 + 360 + 600));
    let past_edge = market_volume(&ledger, "m", 74 * HOUR + 1);
    assert_eq!(past_edge, volume("m", 12, 390 + 360 + 600));
}

#[test]
fn snapshot_falls_back_to_the_last_price() {
    let ledger = sample();
    let got = market_high_low(&ledger, "old", 70 * HOUR);
    assert_eq!(got, prices("old", 75, 75, 75, 75));
    let vol = market_volume(&ledger, "old", 70 * HOUR);
    assert_eq!(vol, volume("old", 0, 0));
}

#[test]
fn market_without_maker_fills_reports_zero() {
    let ledger = sample();
    assert_eq!(market_high_low(&ledger, "none", 70 * HOUR), prices("none", 0, 0, 0, 0));
    assert_eq!(market_high_low(&ledger, "takers", 70 * HOUR), prices("takers", 0, 0, 0, 0));
    assert_eq!(market_volume(&ledger, "takers", 70 * HOUR), volume("takers", 0, 0));
    let defaults = PgCoinGecko24HighLow::default();
    assert_eq!(defaults, prices("", 0, 0, 0, 0));
    assert_eq!(PgCoinGecko24HourVolume::default(), volume("", 0, 0));
}

#[test]
fn volumes_sum_size_and_size_times_price_over_maker_fills() {
    let got = market_volume(&sample(), "m", 70 * HOUR);
    assert_eq!(got, volume("m", 2 + 3 + 4 + 5, 200 + 390 + 360 + 600));
}

#[test]
fn one_row_for_each_market_asked_for() {
    let ledger = sample();
    let markets = vec!["m", "none", "old", "m"];
    let vols = fetch_coingecko_24h_volume(&ledger, &markets, 70 * HOUR);
    assert_eq!(
        vols,
        vec![volume("m", 14, 1550), volume("none", 0, 0), volume("old", 0, 0), volume("m", 14, 1550)]
    );
    let snaps = fetch_coingecko_24h_high_low(&ledger, &markets, 70 * HOUR);
    assert_eq!(
        snaps,
        vec![
            prices("m", 120, 130, 90, 120),
            prices("none", 0, 0, 0, 0),
            prices("old", 75, 75, 75, 75),
            prices("m", 120, 130, 90, 120),
        ]
    );
    assert!(fetch_coingecko_24h_volume(&ledger, &Vec::new(), 0).is_empty());
    assert!(fetch_coingecko_24h_high_low(&ledger, &Vec::new(), 0).is_empty());
}

#[test]
fn window_reaches_before_the_first_instant_without_overflow() {
    let ledger = ledger_of(vec![fill("m", i64::MIN, 0, 7, 3, true), fill("m", 0, 0, 9, 1, true)]);
    let early = market_high_low(&ledger, "m", i64::MIN + HOUR);
    assert_eq!(early, prices("m", 9, 9, 7, 9));
    assert_eq!(market_volume(&ledger, "m", i64::MIN), volume("m", 4, 30));
    assert_eq!(market_volume(&ledger, "m", i64::MAX), volume("m", 0, 0));
}

#[test]
fn volumes_reach_beyond_64_bits() {
    let ledger =
        ledger_of(vec![fill("m", 0, 0, u64::MAX, 2, true), fill("m", 1, 0, u64::MAX, u64::MAX, true)]);
    let got = market_volume(&ledger, "m", 2);
    let max = u64::MAX as u128;
    assert_eq!(got, volume("m", max + 2, 2 * max + max * max));
}
