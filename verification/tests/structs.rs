use openbook_candles::structs::coingecko::{CoinGeckoOrderBook, CoinGeckoPair, CoinGeckoTicker};
use openbook_candles::structs::openbook::{token_factor, MarketState, PgOpenBookFill, MAX_DECIMALS};
use openbook_candles::structs::resolution::{Resolution, MINUTE_NANOS};
use openbook_candles::structs::candle::Candle;
use openbook_candles::structs::trader::PgTrader;
use openbook_candles::text::{push_decimal, push_quoted};

fn decimal_string(n: u128) -> String {
    let mut out = String::new();
    push_decimal(&mut out, n);
    out
}

const ALL: [Resolution; 10] = [
    Resolution::R1m,
    Resolution::R3m,
    Resolution::R5m,
    Resolution::R10m,
    Resolution::R15m,
    Resolution::R30m,
    Resolution::R1h,
    Resolution::R2h,
    Resolution::R4h,
    Resolution::R1d,
];

#[test]
fn token_factor_is_ten_to_the_decimals() {
    assert_eq!(token_factor(0), Some(1));
    assert_eq!(token_factor(1), Some(10));
    assert_eq!(token_factor(6), Some(1_000_000));
    assert_eq!(token_factor(9), Some(1_000_000_000));
    assert_eq!(token_factor(19), Some(10_000_000_000_000_000_000));
}

#[test]
fn token_factor_is_none_beyond_19_decimals() {
    assert_eq!(MAX_DECIMALS, 19);
    assert_eq!(token_factor(20), None);
    assert_eq!(token_factor(64), None);
    assert_eq!(token_factor(255), None);
}

#[test]
fn resolution_keys() {
    let keys: Vec<String> = ALL.iter().map(|r| r.to_string()).collect();
    assert_eq!(keys, vec!["1M", "3M", "5M", "10M", "15M", "30M", "1H", "2H", "4H", "1D"]);
}

#[test]
fn resolution_durations() {
    let minutes: Vec<i64> = ALL.iter().map(|r| r.get_duration() / MINUTE_NANOS).collect();
    assert_eq!(minutes, vec![1, 3, 5, 10, 15, 30, 60, 120, 240, 1440]);
    assert_eq!(MINUTE_NANOS, 60_000_000_000);
    assert_eq!(Resolution::R1d.get_duration(), 86_400_000_000_000);
}

#[test]
fn resolution_is_found_again_from_its_key() {
    for r in ALL {
        assert_eq!(Resolution::from_key(&r.to_string()), Some(r));
    }
    assert_eq!(Resolution::from_key(""), None);
    assert_eq!(Resolution::from_key("1m"), None);
    assert_eq!(Resolution::from_key("1M "), None);
    assert_eq!(Resolution::from_key("7M"), None);
}

#[test]
fn decimal_text_of_numbers() {
    assert_eq!(decimal_string(0), "0");
    assert_eq!(decimal_string(9), "9");
    assert_eq!(decimal_string(10), "10");
    assert_eq!(decimal_string(1_002_003), "1002003");
    assert_eq!(decimal_string(u128::MAX), u128::MAX.to_string());
    let mut out = String::from("x=");
    push_decimal(&mut out, 405);
    assert_eq!(out, "x=405");
}

#[test]
fn quoted_text_doubles_apostrophes_only() {
    let mut out = String::from(">");
    push_quoted(&mut out, "");
    assert_eq!(out, ">''");
    push_quoted(&mut out, "'");
    assert_eq!(out, ">''''''");
    push_quoted(&mut out, "it's \"x\" \\ ;--");
    assert_eq!(out, ">'''''''it''s \"x\" \\ ;--'");
}

#[test]
fn clones_are_equal() {
    let candle = Candle {
        market_name: "m".to_string(),
        start_time: 1,
        end_time: 2,
        resolution: Resolution::R4h,
        open: 3,
        close: 4,
        high: 5,
        low: 6,
        volume: 7,
        complete: true,
    };
    assert_eq!(candle.clone(), candle);
    let fill = PgOpenBookFill {
        time: 1,
        market_key: "m".to_string(),
        open_orders_owner: "o".to_string(),
        bid: true,
        maker: false,
        price: 2,
        size: 3,
        native_quantity_paid: 4,
        native_quantity_received: 5,
        seq_num: 6,
    };
    assert_eq!(fill.clone(), fill);
    let trader =
        PgTrader { open_orders_owner: "o".to_string(), raw_ask_size: 1, raw_bid_size: 2 };
    assert_eq!(trader.clone(), trader);
}

#[test]
fn listing_types_clone_field_by_field() {
    let book = CoinGeckoOrderBook {
        ticker_id: "SOL_USDC".to_string(),
        timestamp: "1700000000000".to_string(),
        bids: vec![("10.5".to_string(), "2".to_string()), ("10.4".to_string(), "1".to_string())],
        asks: vec![("10.6".to_string(), "3".to_string())],
    };
    let copy = book.clone();
    assert_eq!(copy.ticker_id, book.ticker_id);
    assert_eq!(copy.timestamp, book.timestamp);
    assert_eq!(copy.bids, book.bids);
    assert_eq!(copy.asks, book.asks);
    let pair = CoinGeckoPair {
        ticker_id: "SOL_USDC".to_string(),
        base: "SOL".to_string(),
        target: "USDC".to_string(),
        pool_id: "pool".to_string(),
    };
    let copy = pair.clone();
    assert_eq!(
        (copy.ticker_id, copy.base, copy.target, copy.pool_id),
        (pair.ticker_id, pair.base, pair.target, pair.pool_id)
    );
    let ticker = CoinGeckoTicker {
        ticker_id: "a".to_string(),
        address: "b".to_string(),
        base_currency: "c".to_string(),
        target_currency: "d".to_string(),
        last_price: "e".to_string(),
        base_volume: "f".to_string(),
        target_volume: "g".to_string(),
        high: "h".to_string(),
        low: "i".to_string(),
    };
    let copy = ticker.clone();
    assert_eq!(copy.ticker_id, "a");
    assert_eq!(copy.address, "b");
    assert_eq!(copy.base_currency, "c");
    assert_eq!(copy.target_currency, "d");
    assert_eq!(copy.last_price, "e");
    assert_eq!(copy.base_volume, "f");
    assert_eq!(copy.target_volume, "g");
    assert_eq!(copy.high, "h");
    assert_eq!(copy.low, "i");
}

#[test]
fn market_state_is_copied() {
    let state = MarketState {
        account_flags: 3,
        own_address: [1, 2, 3, 4],
        vault_signer_nonce: 0,
        coin_mint: [0; 4],
        pc_mint: [0; 4],
        coin_vault: [0; 4],
        coin_deposits_total: 0,
        coin_fees_accrued: 0,
        pc_vault: [0; 4],
        pc_deposits_total: 0,
        pc_fees_accrued: 0,
        pc_dust_threshold: 0,
        req_q: [0; 4],
        event_q: [0; 4],
        bids: [0; 4],
        asks: [0; 4],
        coin_lot_size: 100,
        pc_lot_size: 10,
        fee_rate_bps: 0,
        referrer_rebates_accrued: 0,
    };
    let copy = state;
    assert_eq!(copy.own_address, state.own_address);
    assert_eq!(copy.coin_lot_size, 100);
    assert_eq!(copy.pc_lot_size, 10);
}

#[test]
fn market_state_is_read_from_its_account_data() {
    let mut data: Vec<u8> = Vec::new();
    for word in 0..47u64 {
        data.extend_from_slice(&(word * 0x0102_0304_0506_0708 + 1).to_le_bytes());
    }
    let at = |i: u64| i * 0x0102_0304_0506_0708 + 1;
    let state = MarketState::from_bytes(&data).unwrap();
    assert_eq!(state.account_flags, at(0));
    assert_eq!(state.own_address, [at(1), at(2), at(3), at(4)]);
    assert_eq!(state.vault_signer_nonce, at(5));
    assert_eq!(state.coin_mint, [at(6), at(7), at(8), at(9)]);
    assert_eq!(state.pc_mint, [at(10), at(11), at(12), at(13)]);
    assert_eq!(state.coin_vault, [at(14), at(15), at(16), at(17)]);
    assert_eq!(state.coin_deposits_total, at(18));
    assert_eq!(state.coin_fees_accrued, at(19));
    assert_eq!(state.pc_vault, [at(20), at(21), at(22), at(23)]);
    assert_eq!(state.pc_deposits_total, at(24));
    assert_eq!(state.pc_fees_accrued, at(25));
    assert_eq!(state.pc_dust_threshold, at(26));
    assert_eq!(state.req_q, [at(27), at(28), at(29), at(30)]);
    assert_eq!(state.event_q, [at(31), at(32), at(33), at(34)]);
    assert_eq!(state.bids, [at(35), at(36), at(37), at(38)]);
    assert_eq!(state.asks, [at(39), at(40), at(41), at(42)]);
    assert_eq!(state.coin_lot_size, at(43));
    assert_eq!(state.pc_lot_size, at(44));
    assert_eq!(state.fee_rate_bps, at(45));
    assert_eq!(state.referrer_rebates_accrued, at(46));
}

#[test]
fn market_state_of_another_length_is_refused() {
    assert!(MarketState::from_bytes(&[]).is_none());
    assert!(MarketState::from_bytes(&[0u8; 375]).is_none());
    assert!(MarketState::from_bytes(&[0u8; 377]).is_none());
    assert!(MarketState::from_bytes(&[0u8; 376]).is_some());
}
