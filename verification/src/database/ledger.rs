//! The fill ledger: the ordered, append-only log of executed fills that the
//! queries read.

use vstd::prelude::*;
use crate::aggregator::bucket_fills;
use crate::fills::{
    earliest, fill_views, fills_of, in_range, lemma_ends_of_ordered, lemma_filter_ordered,
    lemma_filter_step, ordered, precedes, total_notional,
};
use crate::structs::openbook::{FillView, PgOpenBookFill};

verus! {

/// Why a fill was not taken into the ledger.
#[derive(Clone, Copy, Debug, PartialEq, Eq, Structural)]
pub enum LedgerError {
    /// The fill comes before the last fill of the ledger.
    OutOfOrder,
    /// With the fill the notional of the whole ledger, the sum of size times
    /// price, would no longer fit in 128 bits.
    NotionalOverflow,
}

/// An append-only log of fills, ascending by time and then by sequence
/// number, whose whole notional fits in 128 bits.
pub struct FillLedger {
    fills: Vec<PgOpenBookFill>,
    notional: u128,
}

/// Why `fill` cannot follow the fills `log`, if it cannot.
pub open spec fn append_error(log: Seq<FillView>, fill: FillView) -> Option<LedgerError> {
    if log.len() > 0 && precedes(fill, log.last()) {
        Some(LedgerError::OutOfOrder)
    } else if total_notional(log) + (fill.size as nat) * (fill.price as nat) > u128::MAX {
        Some(LedgerError::NotionalOverflow)
    } else {
        None
    }
}

/// Once a ledger holds a fill at or after the end of a bucket, no fill that
/// it takes later lands in the bucket: the fills that count for the bucket,
/// and so its candle, are final.
pub proof fn lemma_closed_bucket_is_final(
    log: Seq<FillView>,
    fill: FillView,
    market: Seq<char>,
    start_time: int,
    end_time: int,
)
    requires
        log.len() > 0,
        log.last().time >= end_time,
        append_error(log, fill) is None,
    ensures
        bucket_fills(log.push(fill), market, start_time, end_time) == bucket_fills(
            log,
            market,
            start_time,
            end_time,
        ),
{
    reveal(Seq::filter);
    assert(log.push(fill).drop_last() =~= log);
}

impl View for FillLedger {
    type V = Seq<FillView>;

    closed spec fn view(&self) -> Seq<FillView> {
        fill_views(self.fills@)
    }
}

impl FillLedger {
    /// The fills ascend and the running notional is their notional.
    pub closed spec fn wf(&self) -> bool {
        &&& ordered(self@)
        &&& self.notional == total_notional(self@)
    }

    /// What the invariant gives to those who read the ledger.
    pub proof fn lemma_wf(&self)
        requires
            self.wf(),
        ensures
            ordered(self@),
            total_notional(self@) <= u128::MAX,
    {
    }

    /// The empty ledger.
    pub fn new() -> (ledger: Self)
        ensures
            ledger.wf(),
            ledger@.len() == 0,
    {
        FillLedger { fills: Vec::new(), notional: 0 }
    }

    /// The number of fills.
    pub fn len(&self) -> (n: usize)
        ensures
            n == self@.len(),
    {
        self.fills.len()
    }

    /// The fill at position `i`.
    pub fn get(&self, i: usize) -> (fill: &PgOpenBookFill)
        requires
            i < self@.len(),
        ensures
            fill@ == self@[i as int],
    {
        &self.fills[i]
    }

    /// Whether the ledger holds a fill at `time` or later. A ledger that has
    /// reached the end of a bucket takes no more fills of that bucket.
    pub fn has_reached(&self, time: i64) -> (reached: bool)
        ensures
            reached == (self@.len() > 0 && self@.last().time >= time),
    {
        let n = self.fills.len();
        if n == 0 {
            false
        } else {
            assert(self.fills@[n - 1]@ == self@.last());
            self.fills[n - 1].time >= time
        }
    }

    /// Appends a fill that does not come before the last one. A fill that
    /// does, or one whose notional the ledger cannot hold, leaves the ledger
    /// as it was.
    pub fn append(&mut self, fill: PgOpenBookFill) -> (result: Result<(), LedgerError>)
        requires
            old(self).wf(),
        ensures
            final(self).wf(),
            match result {
                Ok(()) => {
                    &&& append_error(old(self)@, fill@) is None
                    &&& final(self)@ == old(self)@.push(fill@)
                },
                Err(e) => {
                    &&& append_error(old(self)@, fill@) == Some(e)
                    &&& final(self)@ == old(self)@
                },
            },
    {
        let n = self.fills.len();
        if n > 0 {
            let last = &self.fills[n - 1];
            assert(last@ == self@.last());
            if fill.time < last.time || (fill.time == last.time && fill.seq_num < last.seq_num) {
                return Err(LedgerError::OutOfOrder);
            }
        }
        assert((fill.size as nat) * (fill.price as nat) <= u128::MAX) by (nonlinear_arith)
            requires
                fill.size <= u64::MAX,
                fill.price <= u64::MAX,
        ;
        let amount = (fill.size as u128) * (fill.price as u128);
        match self.notional.checked_add(amount) {
            None => Err(LedgerError::NotionalOverflow),
            Some(notional) => {
                let ghost before = self@;
                let ghost added = fill@;
                self.fills.push(fill);
                self.notional = notional;
                proof {
                    let after = self@;
                    assert(after =~= before.push(added));
                    assert(after.drop_last() =~= before);
                    assert forall|i: int, j: int| 0 <= i < j < after.len() implies !precedes(
                        #[trigger] after[j],
                        #[trigger] after[i],
                    ) by {
                        if j < before.len() {
                            assert(after[i] == before[i] && after[j] == before[j]);
                        } else {
                            assert(after[i] == before[i]);
                            if i < before.len() - 1 {
                                assert(!precedes(before[before.len() - 1], before[i]));
                            }
                        }
                    }
                }
                Ok(())
            },
        }
    }

    /// The earliest fill of a market, of all its fills or of its maker legs
    /// alone, or `None` where the ledger holds none.
    pub fn earliest_fill(&self, market: &str, maker_only: bool) -> (result: Option<
        PgOpenBookFill,
    >)
        requires
            self.wf(),
        ensures
            match result {
                Some(fill) => self@.filter(fills_of(market@, maker_only)).len() > 0 && fill@
                    == earliest(self@.filter(fills_of(market@, maker_only))),
                None => self@.filter(fills_of(market@, maker_only)).len() == 0,
            },
    {
        let wanted = String::from_str(market);
        let ghost log = self@;
        let ghost pred = fills_of(market@, maker_only);
        let n = self.fills.len();
        let mut i: usize = 0;
        assert(log.take(0).filter(pred).len() == 0) by {
            reveal(Seq::filter);
        }
        while i < n
            invariant
                i <= n == log.len(),
                log == self@,
                self.wf(),
                pred == fills_of(market@, maker_only),
                wanted@ == market@,
                log.take(i as int).filter(pred).len() == 0,
            decreases n - i,
        {
            let fill = &self.fills[i];
            proof {
                assert(fill@ == log[i as int]);
                lemma_filter_step(log, i as int, pred);
            }
            if (fill.maker || !maker_only) && fill.market_key == wanted {
                proof {
                    let head = log.take(i + 1);
                    let tail = log.skip(i + 1);
                    assert(log =~= head + tail);
                    Seq::filter_distributes_over_add(head, tail, pred);
                    assert(head.filter(pred) =~= seq![fill@]);
                    let counted = log.filter(pred);
                    assert(counted[0] == fill@);
                    lemma_filter_ordered(log, pred);
                    lemma_ends_of_ordered(counted);
                }
                return Some(fill.clone());
            }
            i += 1;
        }
        assert(log.take(i as int) =~= log);
        None
    }

    /// The fills of a market with a time in `[start_time, end_time)`, all of
    /// them or the maker legs alone, ascending by time and then by sequence
    /// number.
    pub fn fills_in_range(
        &self,
        market: &str,
        start_time: i64,
        end_time: i64,
        maker_only: bool,
    ) -> (fills: Vec<PgOpenBookFill>)
        requires
            self.wf(),
        ensures
            fill_views(fills@) == self@.filter(
                in_range(market@, start_time as int, end_time as int, maker_only),
            ),
            ordered(fill_views(fills@)),
    {
        let wanted = String::from_str(market);
        let ghost log = self@;
        let ghost pred = in_range(market@, start_time as int, end_time as int, maker_only);
        let mut fills: Vec<PgOpenBookFill> = Vec::new();
        let n = self.fills.len();
        let mut i: usize = 0;
        assert(log.take(0).filter(pred) =~= fill_views(fills@)) by {
            reveal(Seq::filter);
        }
        while i < n
            invariant
                i <= n == log.len(),
                log == self@,
                pred == in_range(market@, start_time as int, end_time as int, maker_only),
                wanted@ == market@,
                fill_views(fills@) == log.take(i as int).filter(pred),
            decreases n - i,
        {
            let fill = &self.fills[i];
            proof {
                assert(fill@ == log[i as int]);
                lemma_filter_step(log, i as int, pred);
            }
            if (fill.maker || !maker_only) && fill.market_key == wanted && start_time
                <= fill.time && fill.time < end_time {
                let ghost before = fill_views(fills@);
                fills.push(fill.clone());
                assert(fill_views(fills@) =~= before.push(fill@));
            }
            i += 1;
        }
        proof {
            assert(log.take(i as int) =~= log);
            lemma_filter_ordered(log, pred);
        }
        fills
    }
}

} // verus!
