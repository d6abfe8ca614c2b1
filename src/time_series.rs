//! Time-bucketed statistics: the value moved per bucket, and the number of
//! transactions per bucket whose converted value exceeds a threshold.
use crate::buckets::{bucket_of, bucket_start, value_or_zero, BucketTable};
use crate::ledger::{transaction_total, tx_total, Block, StatsError, Transaction};
use crate::rates::{converted_exceeds, exceeds, Rate, RateTable};
use vstd::prelude::*;

verus! {

/// The value that a sequence of transactions moves.
pub open spec fn txs_volume(txs: Seq<Transaction>) -> nat
    decreases txs.len(),
{
    if txs.len() == 0 {
        0
    } else {
        txs_volume(txs.drop_last()) + tx_total(txs.last())
    }
}

/// How many of the transactions are worth more than `threshold` at `rate`.
pub open spec fn large_count(txs: Seq<Transaction>, rate: Rate, threshold: nat) -> nat
    decreases txs.len(),
{
    if txs.len() == 0 {
        0
    } else {
        large_count(txs.drop_last(), rate, threshold) + if exceeds(tx_total(txs.last()), rate, threshold) {
            1nat
        } else {
            0nat
        }
    }
}

/// The volume table after one more block: its bucket gains the value that its
/// transactions move. A block without transactions opens no bucket.
pub open spec fn volume_step(m: Map<int, nat>, width: u32, b: Block) -> Map<int, nat> {
    if b.transactions@.len() > 0 {
        let k = bucket_start(b.timestamp, width);
        m.insert(k, value_or_zero(m, k) + txs_volume(b.transactions@))
    } else {
        m
    }
}

/// The count table after one more block converted at `rate` (none where its
/// day has no rate, and then the block is left out): its bucket gains the number
/// of its transactions worth more than `threshold`. A bucket is opened only by
/// such a transaction.
pub open spec fn count_step(m: Map<int, nat>, width: u32, threshold: nat, rate: Option<Rate>, b: Block) -> Map<int, nat> {
    match rate {
        None => m,
        Some(q) => {
            let n = large_count(b.transactions@, q, threshold);
            let k = bucket_start(b.timestamp, width);
            if n > 0 {
                m.insert(k, value_or_zero(m, k) + n)
            } else {
                m
            }
        },
    }
}

pub proof fn lemma_volume_prefix(txs: Seq<Transaction>, i: int, j: int)
    requires
        0 <= i <= j <= txs.len(),
    ensures
        txs_volume(txs.take(i)) <= txs_volume(txs.take(j)),
    decreases j - i,
{
    if i < j {
        lemma_volume_prefix(txs, i, j - 1);
        assert(txs.take(j).drop_last() =~= txs.take(j - 1));
    }
}

/// The value that a block's transactions move, or `None` where it does not fit in 64 bits.
pub fn block_volume(txs: &Vec<Transaction>) -> (r: Option<u64>)
    ensures
        match r {
            Some(v) => v == txs_volume(txs@),
            None => txs_volume(txs@) > u64::MAX,
        },
{
    let mut acc: u64 = 0;
    let mut i: usize = 0;
    while i < txs.len()
        invariant
            i <= txs@.len(),
            acc == txs_volume(txs@.take(i as int)),
        decreases txs.len() - i,
    {
        assert(txs@.take(i + 1).drop_last() =~= txs@.take(i as int));
        assert(txs@.take(i + 1).last() == txs@[i as int]);
        let t = transaction_total(&txs[i]);
        let s = match t {
            Some(v) => acc.checked_add(v),
            None => None,
        };
        match s {
            Some(v) => {
                acc = v;
            },
            None => {
                proof {
                    lemma_volume_prefix(txs@, i + 1, txs@.len() as int);
                    assert(txs@.take(txs@.len() as int) =~= txs@);
                }
                return None;
            },
        }
        i = i + 1;
    }
    assert(txs@.take(txs@.len() as int) =~= txs@);
    Some(acc)
}

/// Whether some transaction moves more than 64 bits can hold.
pub open spec fn some_total_overflows(txs: Seq<Transaction>) -> bool {
    exists|i: int| 0 <= i < txs.len() && tx_total(#[trigger] txs[i]) > u64::MAX
}

/// The number of transactions worth more than `threshold` at `rate`; fails
/// exactly where some transaction moves more than 64 bits can hold.
pub fn count_large(txs: &Vec<Transaction>, rate: Rate, threshold: u64) -> (r: Result<u64, StatsError>)
    ensures
        r is Ok <==> !some_total_overflows(txs@),
        r matches Ok(n) ==> n == large_count(txs@, rate, threshold as nat),
        r is Err ==> r == Err::<u64, StatsError>(StatsError::Overflow),
{
    let mut n: u64 = 0;
    let mut i: usize = 0;
    while i < txs.len()
        invariant
            i <= txs@.len(),
            n <= i,
            n == large_count(txs@.take(i as int), rate, threshold as nat),
            forall|m: int| 0 <= m < i ==> tx_total(#[trigger] txs@[m]) <= u64::MAX,
        decreases txs.len() - i,
    {
        assert(txs@.take(i + 1).drop_last() =~= txs@.take(i as int));
        assert(txs@.take(i + 1).last() == txs@[i as int]);
        let total = match transaction_total(&txs[i]) {
            Some(v) => v,
            None => {
                return Err(StatsError::Overflow);
            },
        };
        if converted_exceeds(total, rate, threshold) {
            n = n + 1;
        }
        i = i + 1;
    }
    assert(txs@.take(txs@.len() as int) =~= txs@);
    Ok(n)
}

/// Value moved per time bucket.
pub struct VolumeSeries {
    pub width: u32,
    pub table: BucketTable,
}

impl VolumeSeries {
    pub open spec fn wf(&self) -> bool {
        &&& self.width > 0
        &&& self.table.wf()
        &&& forall|k: int| #[trigger] self.table@.contains_key(k) ==> k % (self.width as int) == 0
    }

    pub open spec fn view(&self) -> Map<int, nat> {
        self.table@
    }

    /// An empty series over buckets of `width` seconds.
    pub fn new(width: u32) -> (r: VolumeSeries)
        requires
            width > 0,
        ensures
            r.wf(),
            r.width == width,
            r@ == Map::<int, nat>::empty(),
    {
        VolumeSeries { width, table: BucketTable::new() }
    }

    /// Adds the value that a block's transactions move to the block's bucket.
    /// Fails, leaving the series as it was, exactly where the bucket's sum would
    /// not fit in 64 bits.
    pub fn add_block(&mut self, b: &Block) -> (r: Result<(), StatsError>)
        requires
            old(self).wf(),
        ensures
            final(self).wf(),
            final(self).width == old(self).width,
            r is Ok <==> (b.transactions@.len() == 0 || value_or_zero(old(self)@, bucket_start(b.timestamp, old(self).width))
                + txs_volume(b.transactions@) <= u64::MAX),
            r is Ok ==> final(self)@ == volume_step(old(self)@, old(self).width, *b),
            r is Err ==> final(self)@ == old(self)@,
    {
        if b.transactions.len() == 0 {
            return Ok(());
        }
        let key = bucket_of(b.timestamp, self.width);
        let v = match block_volume(&b.transactions) {
            Some(v) => v,
            None => {
                return Err(StatsError::Overflow);
            },
        };
        self.table.add(key, v)
    }

    /// The buckets, ascending, as pairs of bucket start and value moved; every
    /// start is a multiple of the width.
    pub fn table(&self) -> (r: Vec<(u64, u64)>)
        requires
            self.wf(),
        ensures
            r@ == self.table.entries@,
            forall|i: int| 0 <= i < r@.len() ==> (#[trigger] r@[i]).0 % (self.width as u64) == 0,
    {
        let r = self.table.to_vec();
        assert forall|i: int| 0 <= i < r@.len() implies (#[trigger] r@[i]).0 % (self.width as u64) == 0 by {
            assert(self.table@.contains_key(self.table.entries@[i].0 as int));
        }
        r
    }
}

/// Number of transactions per time bucket whose converted value exceeds a threshold.
pub struct LargeCountSeries {
    pub width: u32,
    pub threshold: u64,
    pub table: BucketTable,
}

impl LargeCountSeries {
    pub open spec fn wf(&self) -> bool {
        &&& self.width > 0
        &&& self.table.wf()
        &&& forall|k: int| #[trigger] self.table@.contains_key(k) ==> k % (self.width as int) == 0
    }

    pub open spec fn view(&self) -> Map<int, nat> {
        self.table@
    }

    /// An empty series over buckets of `width` seconds, counting transactions
    /// worth more than `threshold` currency units.
    pub fn new(threshold: u64, width: u32) -> (r: LargeCountSeries)
        requires
            width > 0,
        ensures
            r.wf(),
            r.width == width,
            r.threshold == threshold,
            r@ == Map::<int, nat>::empty(),
    {
        LargeCountSeries { width, threshold, table: BucketTable::new() }
    }

    /// Counts the block's transactions worth more than the threshold at the
    /// rate of the block's day; a block whose day has no rate is left out. Fails,
    /// leaving the series as it was, exactly where a transaction's total or the
    /// bucket's count would not fit in 64 bits.
    pub fn add_block(&mut self, b: &Block, rates: &RateTable) -> (r: Result<(), StatsError>)
        requires
            old(self).wf(),
            rates.wf(),
        ensures
            final(self).wf(),
            final(self).width == old(self).width,
            final(self).threshold == old(self).threshold,
            rates.rate_at(b.timestamp) is None ==> r is Ok,
            rates.rate_at(b.timestamp) matches Some(q) ==> (r is Ok <==> (!some_total_overflows(b.transactions@)
                && value_or_zero(old(self)@, bucket_start(b.timestamp, old(self).width))
                + large_count(b.transactions@, q, old(self).threshold as nat) <= u64::MAX)),
            r is Ok ==> final(self)@ == count_step(old(self)@, old(self).width, old(self).threshold as nat,
                rates.rate_at(b.timestamp), *b),
            r is Err ==> final(self)@ == old(self)@,
    {
        let rate = match rates.lookup(b.timestamp) {
            Some(q) => q,
            None => {
                return Ok(());
            },
        };
        let n = count_large(&b.transactions, rate, self.threshold)?;
        if n == 0 {
            return Ok(());
        }
        let key = bucket_of(b.timestamp, self.width);
        self.table.add(key, n)
    }

    /// The buckets, ascending, as pairs of bucket start and count; every start
    /// is a multiple of the width.
    pub fn table(&self) -> (r: Vec<(u64, u64)>)
        requires
            self.wf(),
        ensures
            r@ == self.table.entries@,
            forall|i: int| 0 <= i < r@.len() ==> (#[trigger] r@[i]).0 % (self.width as u64) == 0,
    {
        let r = self.table.to_vec();
        assert forall|i: int| 0 <= i < r@.len() implies (#[trigger] r@[i]).0 % (self.width as u64) == 0 by {
            assert(self.table@.contains_key(self.table.entries@[i].0 as int));
        }
        r
    }
}

} // verus!
