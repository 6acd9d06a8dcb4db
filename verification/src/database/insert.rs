//! The text of the batch merge-write: one statement that inserts every candle
//! of a batch, or overwrites the stored prices of a bucket that exists.

use vstd::prelude::*;
use crate::structs::candle::{Candle, CandleView};
use crate::text::{
    decimal_text, lemma_quoted_round_trip, push_char, push_decimal, push_quoted, quoted,
    read_literal,
};

verus! {

/// The head of the statement: the table and its columns.
pub const UPSERT_HEAD: &'static str =
    "INSERT INTO openbook.candles (market_name, start_time, end_time, resolution, open, close, high, low, volume, complete) VALUES";

/// The tail of the statement: on a bucket that exists, the prices, the volume
/// and the completion mark are overwritten.
pub const UPSERT_CONFLICT: &'static str = "ON CONFLICT (market_name, start_time, resolution) 
    DO UPDATE SET 
    open=excluded.open, 
    close=excluded.close, 
    high=excluded.high, 
    low=excluded.low,
    volume=excluded.volume,
    complete=excluded.complete
    ";

/// The RFC 3339 text of the instant that lies `nanos` nanoseconds after the
/// Unix epoch, in UTC, as chrono writes it.
pub uninterp spec fn rfc3339_text(nanos: i64) -> Seq<char>;

/// `chrono::DateTime::<Utc>::from_timestamp_nanos` followed by
/// `DateTime::to_rfc3339`. The first takes every `i64`, the second writes the
/// instant with offset `+00:00`; the text depends on `nanos` alone.
#[verifier::external_body]
fn to_rfc3339(nanos: i64) -> (text: String)
    ensures
        text@ == rfc3339_text(nanos),
{
    chrono::DateTime::from_timestamp_nanos(nanos).to_rfc3339()
}

/// `true` or `false`.
pub open spec fn bool_text(b: bool) -> Seq<char> {
    if b {
        seq!['t', 'r', 'u', 'e']
    } else {
        seq!['f', 'a', 'l', 's', 'e']
    }
}

/// What follows the market name in the value list of a candle: the texts of
/// its two times and its resolution as quoted literals, then its numbers in
/// decimal and its completion mark, each after a comma and a space.
pub open spec fn values_tail(c: CandleView, start_time: Seq<char>, end_time: Seq<char>) -> Seq<
    char,
> {
    seq![',', ' '] + quoted(start_time) + seq![',', ' '] + quoted(end_time) + seq![',', ' ']
        + quoted(c.resolution.key()) + seq![',', ' '] + decimal_text(c.open as nat) + seq![
        ',',
        ' ',
    ] + decimal_text(c.close as nat) + seq![',', ' '] + decimal_text(c.high as nat) + seq![
        ',',
        ' ',
    ] + decimal_text(c.low as nat) + seq![',', ' '] + decimal_text(c.volume) + seq![
        ',',
        ' ',
    ] + bool_text(c.complete) + seq![')']
}

/// One candle as a parenthesised list of values, given the texts of its two
/// times: the market name as a quoted literal, then the rest.
pub open spec fn values_text(c: CandleView, start_time: Seq<char>, end_time: Seq<char>) -> Seq<
    char,
> {
    seq!['('] + quoted(c.market_name) + values_tail(c, start_time, end_time)
}

/// Whatever characters a market name holds, its literal in a value list
/// reads back as the name and ends where the next value begins: a name
/// cannot close its literal early and pass for further values or rows.
pub proof fn lemma_market_name_reads_back(
    c: CandleView,
    start_time: Seq<char>,
    end_time: Seq<char>,
)
    ensures
        read_literal(values_text(c, start_time, end_time), 1) == Some(
            (c.market_name, 1 + quoted(c.market_name).len() as int),
        ),
        values_text(c, start_time, end_time)[1 + quoted(c.market_name).len() as int] == ',',
{
    let tail = values_tail(c, start_time, end_time);
    assert(tail[0] == ',');
    lemma_quoted_round_trip(seq!['('], c.market_name, tail);
}

/// One candle as a list of values, with its times in RFC 3339.
pub open spec fn candle_text(c: CandleView) -> Seq<char> {
    values_text(c, rfc3339_text(c.start_time), rfc3339_text(c.end_time))
}

/// The value lists of a batch: a space before the first, a comma and a space
/// before each of the others.
pub open spec fn batch_text(candles: Seq<Candle>) -> Seq<char>
    decreases candles.len(),
{
    if candles.len() == 0 {
        Seq::empty()
    } else if candles.len() == 1 {
        seq![' '] + candle_text(candles[0]@)
    } else {
        batch_text(candles.drop_last()) + seq![',', ' '] + candle_text(candles.last()@)
    }
}

/// The whole statement for a batch.
pub open spec fn upsert_statement_text(candles: Seq<Candle>) -> Seq<char> {
    UPSERT_HEAD@ + batch_text(candles) + seq![' '] + UPSERT_CONFLICT@
}

fn push_separator(out: &mut String)
    ensures
        final(out)@ == old(out)@ + seq![',', ' '],
{
    push_char(out, ',');
    push_char(out, ' ');
    assert(out@ =~= old(out)@ + seq![',', ' ']);
}

fn push_bool(out: &mut String, b: bool)
    ensures
        final(out)@ == old(out)@ + bool_text(b),
{
    if b {
        push_char(out, 't');
        push_char(out, 'r');
        push_char(out, 'u');
        push_char(out, 'e');
    } else {
        push_char(out, 'f');
        push_char(out, 'a');
        push_char(out, 'l');
        push_char(out, 's');
        push_char(out, 'e');
    }
    assert(out@ =~= old(out)@ + bool_text(b));
}

/// One candle as a list of values, with the given texts for its two times.
pub fn candle_values(candle: &Candle, start_time: &str, end_time: &str) -> (text: String)
    ensures
        text@ == values_text(candle@, start_time@, end_time@),
{
    let mut tail = String::new();
    push_separator(&mut tail);
    assert(tail@ =~= seq![',', ' ']);
    push_quoted(&mut tail, start_time);
    push_separator(&mut tail);
    push_quoted(&mut tail, end_time);
    push_separator(&mut tail);
    let key = candle.resolution.to_string();
    push_quoted(&mut tail, key.as_str());
    push_separator(&mut tail);
    push_decimal(&mut tail, candle.open as u128);
    push_separator(&mut tail);
    push_decimal(&mut tail, candle.close as u128);
    push_separator(&mut tail);
    push_decimal(&mut tail, candle.high as u128);
    push_separator(&mut tail);
    push_decimal(&mut tail, candle.low as u128);
    push_separator(&mut tail);
    push_decimal(&mut tail, candle.volume);
    push_separator(&mut tail);
    push_bool(&mut tail, candle.complete);
    let ghost inner = tail@;
    push_char(&mut tail, ')');
    assert(tail@ =~= inner + seq![')']);

    let mut text = String::new();
    push_char(&mut text, '(');
    assert(text@ =~= seq!['(']);
    push_quoted(&mut text, candle.market_name.as_str());
    text.append(tail.as_str());
    text
}

/// Builds the statement that merges a batch of candles into the candle table.
///
/// Every text value is written as a quoted literal with its apostrophes
/// doubled, so no market name can end its literal early. For an empty batch
/// the statement holds no value list and is not valid SQL: callers skip the
/// write.
pub fn build_candles_upsert_statement(candles: &Vec<Candle>) -> (stmt: String)
    ensures
        stmt@ == upsert_statement_text(candles@),
{
    let mut stmt = String::from_str(UPSERT_HEAD);
    let mut idx: usize = 0;
    while idx < candles.len()
        invariant
            idx <= candles.len(),
            stmt@ == UPSERT_HEAD@ + batch_text(candles@.take(idx as int)),
        decreases candles.len() - idx,
    {
        let candle = &candles[idx];
        let start_time = to_rfc3339(candle.start_time);
        let end_time = to_rfc3339(candle.end_time);
        if idx == 0 {
            push_char(&mut stmt, ' ');
        } else {
            push_separator(&mut stmt);
        }
        let values = candle_values(candle, start_time.as_str(), end_time.as_str());
        stmt.append(values.as_str());
        proof {
            let next = candles@.take(idx + 1);
            assert(next.drop_last() =~= candles@.take(idx as int));
            assert(next.last() == candles@[idx as int]);
            assert(values@ == candle_text(candle@));
            assert(stmt@ =~= UPSERT_HEAD@ + batch_text(next));
        }
        idx += 1;
    }
    assert(candles@.take(idx as int) =~= candles@);
    push_char(&mut stmt, ' ');
    stmt.append(UPSERT_CONFLICT);
    assert(stmt@ =~= upsert_statement_text(candles@));
    stmt
}

} // verus!
