use vstd::prelude::*;
use vstd::arithmetic::power::{lemma_pow_increases, pow};
use vstd::bytes::{spec_u64_from_le_bytes, u64_from_le_bytes};
use vstd::slice::slice_subrange;

verus! {

/// One executed leg of a trade, as the ledger records it. A trade leaves two
/// fills, one for the maker and one for the taker.
#[derive(Debug, PartialEq, Eq)]
pub struct PgOpenBookFill {
    /// Nanoseconds since the Unix epoch.
    pub time: i64,
    pub market_key: String,
    pub open_orders_owner: String,
    /// The side of the leg: `true` for a bid, `false` for an ask.
    pub bid: bool,
    pub maker: bool,
    pub price: u64,
    pub size: u64,
    pub native_quantity_paid: u64,
    pub native_quantity_received: u64,
    /// Orders fills of one instant.
    pub seq_num: u64,
}

/// What a fill holds, with its two names as sequences of characters.
pub struct FillView {
    pub time: i64,
    pub market_key: Seq<char>,
    pub open_orders_owner: Seq<char>,
    pub bid: bool,
    pub maker: bool,
    pub price: u64,
    pub size: u64,
    pub native_quantity_paid: u64,
    pub native_quantity_received: u64,
    pub seq_num: u64,
}

impl View for PgOpenBookFill {
    type V = FillView;

    open spec fn view(&self) -> FillView {
        FillView {
            time: self.time,
            market_key: self.market_key@,
            open_orders_owner: self.open_orders_owner@,
            bid: self.bid,
            maker: self.maker,
            price: self.price,
            size: self.size,
            native_quantity_paid: self.native_quantity_paid,
            native_quantity_received: self.native_quantity_received,
            seq_num: self.seq_num,
        }
    }
}

impl Clone for PgOpenBookFill {
    fn clone(&self) -> (fill: Self)
        ensures
            fill@ == self@,
    {
        PgOpenBookFill {
            time: self.time,
            market_key: self.market_key.clone(),
            open_orders_owner: self.open_orders_owner.clone(),
            bid: self.bid,
            maker: self.maker,
            price: self.price,
            size: self.size,
            native_quantity_paid: self.native_quantity_paid,
            native_quantity_received: self.native_quantity_received,
            seq_num: self.seq_num,
        }
    }
}

/// The on-chain state of a market, field by field in the order of its
/// account data.
#[derive(Copy, Clone, Debug)]
pub struct MarketState {
    pub account_flags: u64,
    pub own_address: [u64; 4],
    pub vault_signer_nonce: u64,
    pub coin_mint: [u64; 4],
    pub pc_mint: [u64; 4],
    pub coin_vault: [u64; 4],
    pub coin_deposits_total: u64,
    pub coin_fees_accrued: u64,
    pub pc_vault: [u64; 4],
    pub pc_deposits_total: u64,
    pub pc_fees_accrued: u64,
    pub pc_dust_threshold: u64,
    pub req_q: [u64; 4],
    pub event_q: [u64; 4],
    pub bids: [u64; 4],
    pub asks: [u64; 4],
    pub coin_lot_size: u64,
    pub pc_lot_size: u64,
    pub fee_rate_bps: u64,
    pub referrer_rebates_accrued: u64,
}

/// The number of bytes of a market's account data: 47 words of 8 bytes.
pub const MARKET_STATE_LEN: usize = 376;

/// The word at place `index` of the account data: 8 bytes, the least
/// significant first.
pub open spec fn word_at(data: Seq<u8>, index: int) -> u64 {
    spec_u64_from_le_bytes(data.subrange(8 * index, 8 * index + 8))
}

/// The four words from place `index` on.
pub open spec fn words_at(data: Seq<u8>, index: int) -> Seq<u64> {
    seq![
        word_at(data, index),
        word_at(data, index + 1),
        word_at(data, index + 2),
        word_at(data, index + 3),
    ]
}

/// `state` is what the account data holds: each field at its place, in the
/// order of the fields.
pub open spec fn decodes(data: Seq<u8>, state: MarketState) -> bool {
    &&& state.account_flags == word_at(data, 0)
    &&& state.own_address@ == words_at(data, 1)
    &&& state.vault_signer_nonce == word_at(data, 5)
    &&& state.coin_mint@ == words_at(data, 6)
    &&& state.pc_mint@ == words_at(data, 10)
    &&& state.coin_vault@ == words_at(data, 14)
    &&& state.coin_deposits_total == word_at(data, 18)
    &&& state.coin_fees_accrued == word_at(data, 19)
    &&& state.pc_vault@ == words_at(data, 20)
    &&& state.pc_deposits_total == word_at(data, 24)
    &&& state.pc_fees_accrued == word_at(data, 25)
    &&& state.pc_dust_threshold == word_at(data, 26)
    &&& state.req_q@ == words_at(data, 27)
    &&& state.event_q@ == words_at(data, 31)
    &&& state.bids@ == words_at(data, 35)
    &&& state.asks@ == words_at(data, 39)
    &&& state.coin_lot_size == word_at(data, 43)
    &&& state.pc_lot_size == word_at(data, 44)
    &&& state.fee_rate_bps == word_at(data, 45)
    &&& state.referrer_rebates_accrued == word_at(data, 46)
}

fn read_word(data: &[u8], index: usize) -> (word: u64)
    requires
        data@.len() == MARKET_STATE_LEN,
        index < 47,
    ensures
        word == word_at(data@, index as int),
{
    u64_from_le_bytes(slice_subrange(data, 8 * index, 8 * index + 8))
}

fn read_words(data: &[u8], index: usize) -> (words: [u64; 4])
    requires
        data@.len() == MARKET_STATE_LEN,
        index + 3 < 47,
    ensures
        words@ == words_at(data@, index as int),
{
    let words = [
        read_word(data, index),
        read_word(data, index + 1),
        read_word(data, index + 2),
        read_word(data, index + 3),
    ];
    assert(words@ =~= words_at(data@, index as int));
    words
}

impl MarketState {
    /// Reads the state of a market from its account data, which is exactly
    /// 376 bytes long.
    pub fn from_bytes(data: &[u8]) -> (result: Option<MarketState>)
        ensures
            result is Some <==> data@.len() == MARKET_STATE_LEN,
            result matches Some(state) ==> decodes(data@, state),
    {
        if data.len() != MARKET_STATE_LEN {
            return None;
        }
        Some(
            MarketState {
                account_flags: read_word(data, 0),
                own_address: read_words(data, 1),
                vault_signer_nonce: read_word(data, 5),
                coin_mint: read_words(data, 6),
                pc_mint: read_words(data, 10),
                coin_vault: read_words(data, 14),
                coin_deposits_total: read_word(data, 18),
                coin_fees_accrued: read_word(data, 19),
                pc_vault: read_words(data, 20),
                pc_deposits_total: read_word(data, 24),
                pc_fees_accrued: read_word(data, 25),
                pc_dust_threshold: read_word(data, 26),
                req_q: read_words(data, 27),
                event_q: read_words(data, 31),
                bids: read_words(data, 35),
                asks: read_words(data, 39),
                coin_lot_size: read_word(data, 43),
                pc_lot_size: read_word(data, 44),
                fee_rate_bps: read_word(data, 45),
                referrer_rebates_accrued: read_word(data, 46),
            },
        )
    }
}

/// The largest number of decimals whose factor fits in 64 bits.
pub const MAX_DECIMALS: u8 = 19;

/// `num_traits::checked_pow` on `u64`: the power where it fits in 64 bits,
/// `None` where a multiplication on the way overflows, which for a power of a
/// natural number happens exactly where the power itself does not fit.
#[verifier::external_body]
fn checked_pow_u64(base: u64, exp: usize) -> (power: Option<u64>)
    ensures
        power == if pow(base as int, exp as nat) <= u64::MAX {
            Some(pow(base as int, exp as nat) as u64)
        } else {
            None
        },
{
    num_traits::checked_pow(base, exp)
}

proof fn lemma_powers_of_ten()
    ensures
        pow(10, 19) == 10_000_000_000_000_000_000int,
        pow(10, 20) == 100_000_000_000_000_000_000int,
{
    reveal(pow);
    assert(pow(10, 0) == 1);
    assert(pow(10, 1) == 10);
    assert(pow(10, 2) == 100);
    assert(pow(10, 3) == 1_000);
    assert(pow(10, 4) == 10_000);
    assert(pow(10, 5) == 100_000);
    assert(pow(10, 6) == 1_000_000);
    assert(pow(10, 7) == 10_000_000);
    assert(pow(10, 8) == 100_000_000);
    assert(pow(10, 9) == 1_000_000_000);
    assert(pow(10, 10) == 10_000_000_000int);
    assert(pow(10, 11) == 100_000_000_000int);
    assert(pow(10, 12) == 1_000_000_000_000int);
    assert(pow(10, 13) == 10_000_000_000_000int);
    assert(pow(10, 14) == 100_000_000_000_000int);
    assert(pow(10, 15) == 1_000_000_000_000_000int);
    assert(pow(10, 16) == 10_000_000_000_000_000int);
    assert(pow(10, 17) == 100_000_000_000_000_000int);
    assert(pow(10, 18) == 1_000_000_000_000_000_000int);
    assert(pow(10, 19) == 10_000_000_000_000_000_000int);
    assert(pow(10, 20) == 100_000_000_000_000_000_000int);
}

/// The number of native units in one whole token of `decimals` decimals:
/// ten to that power, or `None` where it does not fit in 64 bits.
pub fn token_factor(decimals: u8) -> (factor: Option<u64>)
    ensures
        factor == if decimals <= MAX_DECIMALS {
            Some(pow(10, decimals as nat) as u64)
        } else {
            None
        },
        decimals <= MAX_DECIMALS ==> pow(10, decimals as nat) <= u64::MAX,
{
    proof {
        lemma_powers_of_ten();
        if decimals <= MAX_DECIMALS {
            lemma_pow_increases(10, decimals as nat, 19);
        } else {
            lemma_pow_increases(10, 20, decimals as nat);
        }
    }
    checked_pow_u64(10, decimals as usize)
}

} // verus!
