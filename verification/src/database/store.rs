//! The candle store: at most one candle for each bucket, kept ascending by
//! start time, written only by the batch merge.

use vstd::prelude::*;
use crate::structs::candle::{Candle, CandleKey, CandleView};

verus! {

/// The views of a sequence of candles.
pub open spec fn candle_views(candles: Seq<Candle>) -> Seq<CandleView> {
    candles.map_values(|c: Candle| c@)
}

/// No two rows are of the same bucket.
pub open spec fn unique_keys(rows: Seq<CandleView>) -> bool {
    forall|i: int, j: int|
        0 <= i < j < rows.len() ==> (#[trigger] rows[i]).key() != (#[trigger] rows[j]).key()
}

/// The rows ascend by start time.
pub open spec fn ascending(rows: Seq<CandleView>) -> bool {
    forall|i: int, j: int|
        0 <= i < j < rows.len() ==> (#[trigger] rows[i]).start_time <= (
        #[trigger] rows[j]).start_time
}

/// Some row is of the bucket `key`.
pub open spec fn has_key(rows: Seq<CandleView>, key: CandleKey) -> bool {
    exists|i: int| 0 <= i < rows.len() && (#[trigger] rows[i]).key() == key
}

/// The row of the bucket `key`, where there is one.
pub open spec fn lookup(rows: Seq<CandleView>, key: CandleKey) -> Option<CandleView> {
    if has_key(rows, key) {
        Some(rows[choose|i: int| 0 <= i < rows.len() && (#[trigger] rows[i]).key() == key])
    } else {
        None
    }
}

/// A stored row after a candle of the same bucket was merged into it: the
/// four prices, the volume and the completion mark are the given ones, the
/// rest stays.
pub open spec fn overwritten(stored: CandleView, given: CandleView) -> CandleView {
    CandleView {
        open: given.open,
        close: given.close,
        high: given.high,
        low: given.low,
        volume: given.volume,
        complete: given.complete,
        ..stored
    }
}

/// The row of a bucket after a merge, from the row that was stored and the
/// candle that the batch holds for the bucket.
pub open spec fn merged_row(stored: Option<CandleView>, given: Option<CandleView>) -> Option<
    CandleView,
> {
    match (stored, given) {
        (Some(s), Some(g)) => Some(overwritten(s, g)),
        (None, Some(g)) => Some(g),
        (s, None) => s,
    }
}

/// `after` is what merging `batch` into `before` leaves, bucket by bucket.
pub open spec fn is_merge(
    before: Seq<CandleView>,
    batch: Seq<CandleView>,
    after: Seq<CandleView>,
) -> bool {
    forall|key: CandleKey| #[trigger]
        lookup(after, key) == merged_row(lookup(before, key), lookup(batch, key))
}

/// With unique keys, the row of a bucket is the one row that has its key.
pub proof fn lemma_lookup_at(rows: Seq<CandleView>, i: int)
    requires
        unique_keys(rows),
        0 <= i < rows.len(),
    ensures
        lookup(rows, rows[i].key()) == Some(rows[i]),
{
    let key = rows[i].key();
    let j = choose|j: int| 0 <= j < rows.len() && (#[trigger] rows[j]).key() == key;
    assert(j == i) by {
        if j < i {
            assert(rows[j].key() != rows[i].key());
        } else if i < j {
            assert(rows[i].key() != rows[j].key());
        }
    }
}

/// One more row of a new bucket changes the row of that bucket alone.
pub proof fn lemma_lookup_push(rows: Seq<CandleView>, row: CandleView, key: CandleKey)
    requires
        unique_keys(rows.push(row)),
    ensures
        unique_keys(rows),
        lookup(rows.push(row), key) == if key == row.key() {
            Some(row)
        } else {
            lookup(rows, key)
        },
{
    let all = rows.push(row);
    let n = rows.len() as int;
    assert(all[n] == row);
    assert forall|i: int, j: int| 0 <= i < j < rows.len() implies (#[trigger] rows[i]).key() != (
    #[trigger] rows[j]).key() by {
        assert(all[i] == rows[i] && all[j] == rows[j]);
    }
    if key == row.key() {
        lemma_lookup_at(all, n);
    } else if has_key(rows, key) {
        let i = choose|i: int| 0 <= i < rows.len() && (#[trigger] rows[i]).key() == key;
        assert(all[i] == rows[i]);
        lemma_lookup_at(all, i);
        lemma_lookup_at(rows, i);
    } else {
        if has_key(all, key) {
            let i = choose|i: int| 0 <= i < all.len() && (#[trigger] all[i]).key() == key;
            assert(i < n);
            assert(rows[i] == all[i]);
        }
    }
}

/// Why a batch was not merged.
#[derive(Clone, Copy, Debug, PartialEq, Eq, Structural)]
pub enum StoreError {
    /// Two candles of the batch are of the same bucket.
    DuplicateKey,
}

/// The stored candles.
pub struct CandleStore {
    candles: Vec<Candle>,
}

impl View for CandleStore {
    type V = Seq<CandleView>;

    closed spec fn view(&self) -> Seq<CandleView> {
        candle_views(self.candles@)
    }
}

fn same_key(a: &Candle, b: &Candle) -> (same: bool)
    ensures
        same == (a@.key() == b@.key()),
{
    a.start_time == b.start_time && a.resolution == b.resolution && a.market_name == b.market_name
}

/// Whether no two candles of the batch are of the same bucket.
pub fn has_unique_keys(candles: &Vec<Candle>) -> (unique: bool)
    ensures
        unique == unique_keys(candle_views(candles@)),
{
    let ghost rows = candle_views(candles@);
    let mut j: usize = 0;
    while j < candles.len()
        invariant
            j <= candles.len(),
            rows == candle_views(candles@),
            forall|a: int, b: int|
                0 <= a < b < j ==> (#[trigger] rows[a]).key() != (#[trigger] rows[b]).key(),
        decreases candles.len() - j,
    {
        let mut i: usize = 0;
        while i < j
            invariant
                i <= j < candles.len(),
                rows == candle_views(candles@),
                forall|a: int| 0 <= a < i ==> (#[trigger] rows[a]).key() != rows[j as int].key(),
            decreases j - i,
        {
            if same_key(&candles[i], &candles[j]) {
                assert(rows[i as int].key() == rows[j as int].key());
                return false;
            }
            i += 1;
        }
        j += 1;
    }
    true
}

impl CandleStore {
    /// At most one candle for each bucket, and the candles ascend by start
    /// time.
    pub closed spec fn wf(&self) -> bool {
        &&& unique_keys(self@)
        &&& ascending(self@)
    }

    /// Uniqueness: a store holds at most one candle for each market, start
    /// time and resolution, and its candles ascend by start time.
    pub proof fn lemma_one_candle_per_bucket(&self)
        requires
            self.wf(),
        ensures
            unique_keys(self@),
            ascending(self@),
    {
    }

    /// The empty store.
    pub fn new() -> (store: Self)
        ensures
            store.wf(),
            store@.len() == 0,
    {
        CandleStore { candles: Vec::new() }
    }

    /// The number of candles.
    pub fn len(&self) -> (n: usize)
        ensures
            n == self@.len(),
    {
        self.candles.len()
    }

    /// The candle at position `i`.
    pub fn get(&self, i: usize) -> (candle: &Candle)
        requires
            i < self@.len(),
        ensures
            candle@ == self@[i as int],
    {
        &self.candles[i]
    }

    /// Merges one candle: overwrites the prices, the volume and the
    /// completion mark of the stored candle of its bucket, or inserts it
    /// where its start time puts it.
    fn upsert(&mut self, candle: &Candle)
        requires
            old(self).wf(),
        ensures
            final(self).wf(),
            forall|key: CandleKey| #[trigger]
                lookup(final(self)@, key) == if key == candle@.key() {
                    merged_row(lookup(old(self)@, key), Some(candle@))
                } else {
                    lookup(old(self)@, key)
                },
    {
        let ghost before = self@;
        let n = self.candles.len();
        let mut i: usize = 0;
        while i < n && !same_key(&self.candles[i], candle)
            invariant
                i <= n == self.candles.len(),
                self@ == before,
                forall|a: int| 0 <= a < i ==> (#[trigger] before[a]).key() != candle@.key(),
            decreases n - i,
        {
            i += 1;
        }
        if i < n {
            let stored = &self.candles[i];
            let updated = Candle {
                market_name: stored.market_name.clone(),
                start_time: stored.start_time,
                end_time: stored.end_time,
                resolution: stored.resolution,
                open: candle.open,
                close: candle.close,
                high: candle.high,
                low: candle.low,
                volume: candle.volume,
                complete: candle.complete,
            };
            assert(updated@ == overwritten(before[i as int], candle@));
            self.candles.set(i, updated);
            proof {
                let after = self@;
                assert(after =~= before.update(i as int, overwritten(before[i as int], candle@)));
                assert forall|a: int| 0 <= a < after.len() implies (#[trigger] after[a]).key()
                    == before[a].key() && after[a].start_time == before[a].start_time by {}
                assert(unique_keys(after)) by {
                    assert forall|a: int, b: int| 0 <= a < b < after.len() implies (
                    #[trigger] after[a]).key() != (#[trigger] after[b]).key() by {
                        assert(before[a].key() != before[b].key());
                    }
                }
                assert(ascending(after)) by {
                    assert forall|a: int, b: int| 0 <= a < b < after.len() implies (
                    #[trigger] after[a]).start_time <= (#[trigger] after[b]).start_time by {
                        assert(before[a].start_time <= before[b].start_time);
                    }
                }
                assert forall|key: CandleKey| #[trigger]
                    lookup(after, key) == if key == candle@.key() {
                        merged_row(lookup(before, key), Some(candle@))
                    } else {
                        lookup(before, key)
                    } by {
                    if key == candle@.key() {
                        lemma_lookup_at(before, i as int);
                        lemma_lookup_at(after, i as int);
                    } else if has_key(before, key) {
                        let a = choose|a: int|
                            0 <= a < before.len() && (#[trigger] before[a]).key() == key;
                        lemma_lookup_at(before, a);
                        lemma_lookup_at(after, a);
                    } else {
                        if has_key(after, key) {
                            let a = choose|a: int|
                                0 <= a < after.len() && (#[trigger] after[a]).key() == key;
                            assert(before[a].key() == key);
                        }
                    }
                }
            }
        } else {
            let mut at: usize = 0;
            while at < n && self.candles[at].start_time <= candle.start_time
                invariant
                    at <= n == self.candles.len(),
                    self@ == before,
                    forall|a: int|
                        0 <= a < at ==> (#[trigger] before[a]).start_time <= candle.start_time,
                decreases n - at,
            {
                at += 1;
            }
            self.candles.insert(at, candle.clone());
            proof {
                let after = self@;
                let p = at as int;
                assert(after =~= before.insert(p, candle@));
                assert forall|a: int| 0 <= a < after.len() implies #[trigger] after[a] == (if a
                    < p {
                    before[a]
                } else if a == p {
                    candle@
                } else {
                    before[a - 1]
                }) by {}
                assert(unique_keys(after)) by {
                    assert forall|a: int, b: int| 0 <= a < b < after.len() implies (
                    #[trigger] after[a]).key() != (#[trigger] after[b]).key() by {
                        let a0 = if a < p { a } else { a - 1 };
                        let b0 = if b < p { b } else { b - 1 };
                        if a != p && b != p {
                            assert(before[a0].key() != before[b0].key());
                        } else if a == p {
                            assert(before[b0].key() != candle@.key());
                        } else {
                            assert(before[a0].key() != candle@.key());
                        }
                    }
                }
                assert(ascending(after)) by {
                    assert forall|a: int, b: int| 0 <= a < b < after.len() implies (
                    #[trigger] after[a]).start_time <= (#[trigger] after[b]).start_time by {
                        let a0 = if a < p { a } else { a - 1 };
                        let b0 = if b < p { b } else { b - 1 };
                        if a != p && b != p {
                            assert(before[a0].start_time <= before[b0].start_time);
                        } else if a == p {
                            if p < n {
                                assert(before[p].start_time <= before[b0].start_time);
                            }
                        } else {
                            assert(before[a0].start_time <= candle@.start_time);
                        }
                    }
                }
                assert forall|key: CandleKey| #[trigger]
                    lookup(after, key) == if key == candle@.key() {
                        merged_row(lookup(before, key), Some(candle@))
                    } else {
                        lookup(before, key)
                    } by {
                    if key == candle@.key() {
                        assert(!has_key(before, key));
                        lemma_lookup_at(after, p);
                    } else if has_key(before, key) {
                        let a = choose|a: int|
                            0 <= a < before.len() && (#[trigger] before[a]).key() == key;
                        let a1 = if a < p { a } else { a + 1 };
                        assert(after[a1] == before[a]);
                        lemma_lookup_at(before, a);
                        lemma_lookup_at(after, a1);
                    } else {
                        if has_key(after, key) {
                            let a = choose|a: int|
                                0 <= a < after.len() && (#[trigger] after[a]).key() == key;
                            let a0 = if a < p { a } else { a - 1 };
                            assert(before[a0].key() == key);
                        }
                    }
                }
            }
        }
    }

    /// Merges a batch of candles into the store, all of it or none of it.
    ///
    /// For each candle: where the store holds a candle of the same market,
    /// start time and resolution, its prices, volume and completion mark are
    /// overwritten; where it holds none, the candle is inserted. A batch with
    /// two candles of one bucket is refused and leaves the store as it was.
    ///
    /// What is merged replaces what was stored: hand over candles made from
    /// all the fills of their bucket, never from a part of them.
    pub fn merge_upsert(&mut self, candles: &Vec<Candle>) -> (result: Result<(), StoreError>)
        requires
            old(self).wf(),
        ensures
            final(self).wf(),
            match result {
                Ok(()) => unique_keys(candle_views(candles@)) && is_merge(
                    old(self)@,
                    candle_views(candles@),
                    final(self)@,
                ),
                Err(e) => e == StoreError::DuplicateKey && !unique_keys(candle_views(candles@))
                    && final(self)@ == old(self)@,
            },
    {
        if !has_unique_keys(candles) {
            return Err(StoreError::DuplicateKey);
        }
        let ghost before = self@;
        let ghost batch = candle_views(candles@);
        let mut i: usize = 0;
        assert forall|key: CandleKey| #[trigger]
            lookup(before, key) == merged_row(lookup(before, key), lookup(batch.take(0), key)) by {
            assert(!has_key(batch.take(0), key));
        }
        while i < candles.len()
            invariant
                i <= candles.len(),
                batch == candle_views(candles@),
                unique_keys(batch),
                self.wf(),
                is_merge(before, batch.take(i as int), self@),
            decreases candles.len() - i,
        {
            let ghost current = self@;
            self.upsert(&candles[i]);
            proof {
                let row = batch[i as int];
                let done = batch.take(i as int);
                assert(batch.take(i + 1) =~= done.push(row));
                assert(unique_keys(done.push(row))) by {
                    let next = done.push(row);
                    assert forall|a: int, b: int| 0 <= a < b < next.len() implies (
                    #[trigger] next[a]).key() != (#[trigger] next[b]).key() by {
                        assert(next[a] == batch[a] && next[b] == batch[b]);
                    }
                }
                assert forall|key: CandleKey| #[trigger]
                    lookup(self@, key) == merged_row(
                        lookup(before, key),
                        lookup(batch.take(i + 1), key),
                    ) by {
                    lemma_lookup_push(done, row, key);
                    assert(lookup(current, key) == merged_row(
                        lookup(before, key),
                        lookup(done, key),
                    ));
                    if key == row.key() {
                        if has_key(done, key) {
                            let a = choose|a: int|
                                0 <= a < done.len() && (#[trigger] done[a]).key() == key;
                            assert(done[a] == batch[a]);
                            assert(batch[a].key() != batch[i as int].key());
                        }
                    }
                }
            }
            i += 1;
        }
        assert(batch.take(i as int) =~= batch);
        Ok(())
    }
}

/// Idempotence: merging the same batch a second time leaves every bucket as
/// the first merge left it.
pub proof fn lemma_merge_idempotent(
    before: Seq<CandleView>,
    batch: Seq<CandleView>,
    once: Seq<CandleView>,
    twice: Seq<CandleView>,
)
    requires
        is_merge(before, batch, once),
        is_merge(once, batch, twice),
    ensures
        forall|key: CandleKey| #[trigger] lookup(twice, key) == lookup(once, key),
{
    assert forall|key: CandleKey| #[trigger] lookup(twice, key) == lookup(once, key) by {
        assert(lookup(once, key) == merged_row(lookup(before, key), lookup(batch, key)));
        assert(lookup(twice, key) == merged_row(lookup(once, key), lookup(batch, key)));
    }
}

/// The order of repeated merges does not matter for a bucket that gets the
/// same candle from both batches: merged first one way and then the other,
/// the bucket ends with the same row.
pub proof fn lemma_merge_order_irrelevant(
    before: Seq<CandleView>,
    first: Seq<CandleView>,
    second: Seq<CandleView>,
    first_then_second: Seq<CandleView>,
    second_then_first: Seq<CandleView>,
    after_first: Seq<CandleView>,
    after_second: Seq<CandleView>,
    key: CandleKey,
)
    requires
        is_merge(before, first, after_first),
        is_merge(after_first, second, first_then_second),
        is_merge(before, second, after_second),
        is_merge(after_second, first, second_then_first),
        lookup(first, key) is Some,
        lookup(first, key) == lookup(second, key),
    ensures
        lookup(first_then_second, key) == lookup(second_then_first, key),
{
    assert(lookup(after_first, key) == merged_row(lookup(before, key), lookup(first, key)));
    assert(lookup(first_then_second, key) == merged_row(
        lookup(after_first, key),
        lookup(second, key),
    ));
    assert(lookup(after_second, key) == merged_row(lookup(before, key), lookup(second, key)));
    assert(lookup(second_then_first, key) == merged_row(
        lookup(after_second, key),
        lookup(first, key),
    ));
}

} // verus!
