//! Histogram of transaction values over logarithmic bins.
use crate::binning::{edge_at_most, lemma_edge_mono, n_at_most, LogBins};
use crate::ledger::{tx_total, transaction_total, Block, StatsError, Transaction};
use crate::rates::{Rate, RateTable};
use vstd::prelude::*;

verus! {

/// Counts after one more value: the bin it falls in gains one; a value below
/// the first edge changes nothing.
pub open spec fn record(counts: Seq<nat>, edges: Seq<u128>, scale: nat, amount: nat, rate: Rate) -> Seq<nat> {
    let k = n_at_most(edges, amount, rate, scale);
    if k > 0 {
        counts.update(k - 1, counts[k - 1] + 1)
    } else {
        counts
    }
}

/// Counts after the total value of each transaction, in order.
pub open spec fn record_txs(counts: Seq<nat>, edges: Seq<u128>, scale: nat, txs: Seq<Transaction>, rate: Rate) -> Seq<nat>
    decreases txs.len(),
{
    if txs.len() == 0 {
        counts
    } else {
        record(record_txs(counts, edges, scale, txs.drop_last(), rate), edges, scale, tx_total(txs.last()), rate)
    }
}

/// Whether recording these transactions meets a total or a count beyond 64 bits.
pub open spec fn txs_overflow(counts: Seq<nat>, edges: Seq<u128>, scale: nat, txs: Seq<Transaction>, rate: Rate) -> bool {
    ||| exists|i: int| 0 <= i < txs.len() && tx_total(#[trigger] txs[i]) > u64::MAX
    ||| exists|j: int| 0 <= j < counts.len() && #[trigger] record_txs(counts, edges, scale, txs, rate)[j] > u64::MAX
}

/// The histogram of a sequence of blocks, unconverted.
pub open spec fn record_blocks(counts: Seq<nat>, edges: Seq<u128>, scale: nat, blocks: Seq<Block>) -> Seq<nat>
    decreases blocks.len(),
{
    if blocks.len() == 0 {
        counts
    } else {
        record_txs(record_blocks(counts, edges, scale, blocks.drop_last()), edges, scale, blocks.last().transactions@, Rate { num: 1, den: 1 })
    }
}

/// The histogram of a sequence of blocks, each converted at the rate of its
/// day; a block whose day has no rate is left out.
pub open spec fn record_blocks_converted(counts: Seq<nat>, edges: Seq<u128>, scale: nat, blocks: Seq<Block>, rates: RateTable) -> Seq<nat>
    decreases blocks.len(),
{
    if blocks.len() == 0 {
        counts
    } else {
        let prev = record_blocks_converted(counts, edges, scale, blocks.drop_last(), rates);
        match rates.rate_at(blocks.last().timestamp) {
            Some(q) => record_txs(prev, edges, scale, blocks.last().transactions@, q),
            None => prev,
        }
    }
}

/// The number of transactions whose value, converted at `rate`, is positive.
pub open spec fn positive_txs(txs: Seq<Transaction>, rate: Rate) -> nat
    decreases txs.len(),
{
    if txs.len() == 0 {
        0
    } else {
        positive_txs(txs.drop_last(), rate) + if tx_total(txs.last()) * rate.num > 0 { 1nat } else { 0nat }
    }
}

/// The number of transactions, over a sequence of blocks, that move a positive value.
pub open spec fn positive_txs_in_blocks(blocks: Seq<Block>) -> nat
    decreases blocks.len(),
{
    if blocks.len() == 0 {
        0
    } else {
        positive_txs_in_blocks(blocks.drop_last()) + positive_txs(blocks.last().transactions@, Rate { num: 1, den: 1 })
    }
}

/// The number of transactions, over the blocks whose day has a rate, whose
/// converted value is positive.
pub open spec fn positive_converted_in_blocks(blocks: Seq<Block>, rates: RateTable) -> nat
    decreases blocks.len(),
{
    if blocks.len() == 0 {
        0
    } else {
        positive_converted_in_blocks(blocks.drop_last(), rates) + match rates.rate_at(blocks.last().timestamp) {
            Some(q) => positive_txs(blocks.last().transactions@, q),
            None => 0,
        }
    }
}

/// The sum of a sequence of counts.
pub open spec fn sum(s: Seq<nat>) -> nat
    decreases s.len(),
{
    if s.len() == 0 {
        0
    } else {
        sum(s.drop_last()) + s.last()
    }
}

/// The non-empty bins of a table of counts, in ascending order, keyed by bin index.
pub open spec fn nonzero_bins(first: i64, counts: Seq<u64>) -> Seq<(i64, u64)>
    decreases counts.len(),
{
    if counts.len() == 0 {
        Seq::empty()
    } else {
        let rest = nonzero_bins(first, counts.drop_last());
        if counts.last() == 0 {
            rest
        } else {
            rest.push(((first + counts.len() - 1) as i64, counts.last()))
        }
    }
}

pub proof fn lemma_n_at_most_bound(edges: Seq<u128>, amount: nat, rate: Rate, scale: nat)
    ensures
        n_at_most(edges, amount, rate, scale) <= edges.len(),
    decreases edges.len(),
{
    if edges.len() > 0 {
        lemma_n_at_most_bound(edges.drop_last(), amount, rate, scale);
    }
}

pub proof fn lemma_record_txs_len(counts: Seq<nat>, edges: Seq<u128>, scale: nat, txs: Seq<Transaction>, rate: Rate)
    requires
        counts.len() == edges.len(),
    ensures
        record_txs(counts, edges, scale, txs, rate).len() == counts.len(),
    decreases txs.len(),
{
    if txs.len() > 0 {
        lemma_record_txs_len(counts, edges, scale, txs.drop_last(), rate);
        lemma_n_at_most_bound(edges, tx_total(txs.last()), rate, scale);
    }
}

/// No count decreases as more transactions are recorded.
pub proof fn lemma_record_txs_grows(counts: Seq<nat>, edges: Seq<u128>, scale: nat, txs: Seq<Transaction>, rate: Rate, i: int, j: int, k: int)
    requires
        counts.len() == edges.len(),
        0 <= i <= j <= txs.len(),
        0 <= k < counts.len(),
    ensures
        record_txs(counts, edges, scale, txs.take(i), rate)[k] <= record_txs(counts, edges, scale, txs.take(j), rate)[k],
    decreases j - i,
{
    if i < j {
        lemma_record_txs_grows(counts, edges, scale, txs, rate, i, j - 1, k);
        assert(txs.take(j).drop_last() =~= txs.take(j - 1));
        lemma_record_txs_len(counts, edges, scale, txs.take(j - 1), rate);
        lemma_n_at_most_bound(edges, tx_total(txs.take(j).last()), rate, scale);
    }
}

pub proof fn lemma_sum_bump(s: Seq<nat>, k: int)
    requires
        0 <= k < s.len(),
    ensures
        sum(s.update(k, s[k] + 1)) == sum(s) + 1,
    decreases s.len(),
{
    let t = s.update(k, s[k] + 1);
    assert(t.drop_last() =~= if k == s.len() - 1 { s.drop_last() } else { s.drop_last().update(k, s[k] + 1) });
    if k < s.len() - 1 {
        lemma_sum_bump(s.drop_last(), k);
    }
}

pub proof fn lemma_sum_zeros(n: nat)
    ensures
        sum(Seq::new(n, |i: int| 0nat)) == 0,
    decreases n,
{
    if n > 0 {
        assert(Seq::new(n, |i: int| 0nat).drop_last() =~= Seq::new((n - 1) as nat, |i: int| 0nat));
        lemma_sum_zeros((n - 1) as nat);
    }
}

/// Over ascending edges, a value lies in some bin exactly when it reaches the first edge.
pub proof fn lemma_n_at_most_first(edges: Seq<u128>, amount: nat, rate: Rate, scale: nat)
    requires
        edges.len() >= 1,
        forall|i: int, j: int| 0 <= i <= j < edges.len() ==> edges[i] <= edges[j],
    ensures
        (n_at_most(edges, amount, rate, scale) > 0) == edge_at_most(edges[0], amount, rate, scale),
    decreases edges.len(),
{
    let prev = edges.drop_last();
    if edges.len() == 1 {
        assert(n_at_most(prev, amount, rate, scale) == 0);
    } else {
        assert(prev[0] == edges[0]);
        lemma_n_at_most_first(prev, amount, rate, scale);
        if edge_at_most(edges.last(), amount, rate, scale) {
            lemma_edge_mono(edges[0], edges.last(), amount, rate, scale);
        }
    }
}

/// Where the first edge lies at or below `1 / den`, the least positive value
/// that a conversion at `rate` can give, a value reaches the first edge exactly
/// when it is positive.
pub proof fn lemma_first_edge_reached(e0: u128, amount: nat, rate: Rate, scale: nat)
    requires
        e0 >= 1,
        rate.wf(),
        e0 * rate.den <= scale,
    ensures
        edge_at_most(e0, amount, rate, scale) == (amount * rate.num > 0),
{
    let m = amount * rate.num;
    if m > 0 {
        assert(scale <= m * scale) by (nonlinear_arith)
            requires m >= 1;
    } else {
        assert(e0 * rate.den > 0) by (nonlinear_arith)
            requires e0 >= 1, rate.den >= 1;
        assert(m * scale == 0) by (nonlinear_arith)
            requires m == 0;
    }
}

/// Recording transactions adds to the counts exactly one for each transaction
/// whose converted value is positive, where the first edge lies at or below
/// the least positive converted value.
pub proof fn lemma_record_txs_sum(counts: Seq<nat>, edges: Seq<u128>, scale: nat, txs: Seq<Transaction>, rate: Rate)
    requires
        counts.len() == edges.len(),
        edges.len() >= 1,
        edges[0] >= 1,
        rate.wf(),
        edges[0] * rate.den <= scale,
        forall|i: int, j: int| 0 <= i <= j < edges.len() ==> edges[i] <= edges[j],
    ensures
        sum(record_txs(counts, edges, scale, txs, rate)) == sum(counts) + positive_txs(txs, rate),
    decreases txs.len(),
{
    if txs.len() > 0 {
        let prev = record_txs(counts, edges, scale, txs.drop_last(), rate);
        lemma_record_txs_sum(counts, edges, scale, txs.drop_last(), rate);
        lemma_record_txs_len(counts, edges, scale, txs.drop_last(), rate);
        let amount = tx_total(txs.last());
        lemma_n_at_most_first(edges, amount, rate, scale);
        lemma_first_edge_reached(edges[0], amount, rate, scale);
        lemma_n_at_most_bound(edges, amount, rate, scale);
        let k = n_at_most(edges, amount, rate, scale);
        if k > 0 {
            lemma_sum_bump(prev, k - 1);
        }
    }
}

/// The histogram of unconverted values over a table whose first edge is one
/// unit (bin 0, edge `10^0`) counts every transaction of positive value once
/// and leaves out those of value zero: its counts add up to the number of
/// transactions with a positive total.
pub proof fn lemma_counts_match_positive_transactions(bins: LogBins, blocks: Seq<Block>)
    requires
        bins.wf(),
        bins.edges@[0] <= bins.scale,
    ensures
        sum(record_blocks(Seq::new(bins.edges@.len(), |i: int| 0nat), bins.edges@, bins.scale as nat, blocks))
            == positive_txs_in_blocks(blocks),
        record_blocks(Seq::new(bins.edges@.len(), |i: int| 0nat), bins.edges@, bins.scale as nat, blocks).len()
            == bins.edges@.len(),
    decreases blocks.len(),
{
    let zeros = Seq::new(bins.edges@.len(), |i: int| 0nat);
    let unit = Rate { num: 1, den: 1 };
    if blocks.len() == 0 {
        lemma_sum_zeros(bins.edges@.len());
    } else {
        lemma_counts_match_positive_transactions(bins, blocks.drop_last());
        let prev = record_blocks(zeros, bins.edges@, bins.scale as nat, blocks.drop_last());
        lemma_record_txs_sum(prev, bins.edges@, bins.scale as nat, blocks.last().transactions@, unit);
        lemma_record_txs_len(prev, bins.edges@, bins.scale as nat, blocks.last().transactions@, unit);
    }
}

/// The histogram of converted values counts, over the blocks whose day has a
/// rate, every transaction whose converted value is positive exactly once, in
/// negative bins too, where the table's first edge lies at or below the least
/// positive value that any of the table's rates can give (`1 / den`).
pub proof fn lemma_converted_counts_match_positive_transactions(bins: LogBins, blocks: Seq<Block>, rates: RateTable)
    requires
        bins.wf(),
        rates.wf(),
        forall|d: int| #[trigger] rates.rate_on(d) matches Some(q) ==> bins.edges@[0] * q.den <= bins.scale,
    ensures
        sum(record_blocks_converted(Seq::new(bins.edges@.len(), |i: int| 0nat), bins.edges@, bins.scale as nat, blocks, rates))
            == positive_converted_in_blocks(blocks, rates),
        record_blocks_converted(Seq::new(bins.edges@.len(), |i: int| 0nat), bins.edges@, bins.scale as nat, blocks, rates).len()
            == bins.edges@.len(),
    decreases blocks.len(),
{
    let zeros = Seq::new(bins.edges@.len(), |i: int| 0nat);
    if blocks.len() == 0 {
        lemma_sum_zeros(bins.edges@.len());
    } else {
        lemma_converted_counts_match_positive_transactions(bins, blocks.drop_last(), rates);
        let prev = record_blocks_converted(zeros, bins.edges@, bins.scale as nat, blocks.drop_last(), rates);
        let ts = blocks.last().timestamp;
        if let Some(q) = rates.rate_at(ts) {
            assert(rates.rate_on(crate::rates::day_of(ts)) == Some(q));
            let off = crate::rates::day_of(ts) - rates.first_day;
            assert(rates.rates@[off] is Some);
            lemma_record_txs_sum(prev, bins.edges@, bins.scale as nat, blocks.last().transactions@, q);
            lemma_record_txs_len(prev, bins.edges@, bins.scale as nat, blocks.last().transactions@, q);
        }
    }
}

/// What a histogram lists is determined by its bins and counts: two histograms
/// over the same bins holding the same counts list the same table, so a run
/// fed the same blocks with the same parameters emits the same table.
pub proof fn lemma_histogram_determined(x: Histogram, y: Histogram)
    requires
        x.wf(),
        y.wf(),
        x.bins.first == y.bins.first,
        x@ == y@,
    ensures
        x.counts@ == y.counts@,
        nonzero_bins(x.bins.first, x.counts@) == nonzero_bins(y.bins.first, y.counts@),
{
    assert(x@.len() == x.counts@.len() && y@.len() == y.counts@.len());
    assert forall|i: int| 0 <= i < x.counts@.len() implies x.counts@[i] == y.counts@[i] by {
        assert(x@[i] == x.counts@[i] as nat);
        assert(y@[i] == y.counts@[i] as nat);
    }
    assert(x.counts@ =~= y.counts@);
}

/// A histogram under construction: one count per bin of its edge table.
pub struct Histogram {
    pub bins: LogBins,
    pub counts: Vec<u64>,
}

impl Histogram {
    pub open spec fn wf(&self) -> bool {
        self.bins.wf() && self.counts@.len() == self.bins.edges@.len()
    }

    /// The count of each bin, from the table's first bin on.
    pub open spec fn view(&self) -> Seq<nat> {
        self.counts@.map_values(|c: u64| c as nat)
    }

    /// An empty histogram over the given bins.
    pub fn new(bins: LogBins) -> (r: Histogram)
        requires
            bins.wf(),
        ensures
            r.wf(),
            r.bins == bins,
            r@ == Seq::new(bins.edges@.len(), |i: int| 0nat),
    {
        let mut counts: Vec<u64> = Vec::new();
        let n = bins.edges.len();
        while counts.len() < n
            invariant
                counts@.len() <= n,
                forall|i: int| 0 <= i < counts@.len() ==> counts@[i] == 0,
            decreases n - counts.len(),
        {
            counts.push(0);
        }
        let r = Histogram { bins, counts };
        assert(r@ =~= Seq::new(r.bins.edges@.len(), |i: int| 0nat));
        r
    }

    /// Records the total value of each transaction, converted at `rate`. Fails
    /// exactly when a total or a count would not fit in 64 bits; the histogram
    /// is then left in an unspecified state.
    pub fn add_transactions(&mut self, txs: &Vec<Transaction>, rate: Rate) -> (r: Result<(), StatsError>)
        requires
            old(self).wf(),
            rate.wf(),
        ensures
            final(self).wf(),
            final(self).bins == old(self).bins,
            r is Ok <==> !txs_overflow(old(self)@, old(self).bins.edges@, old(self).bins.scale as nat, txs@, rate),
            r is Ok ==> final(self)@ == record_txs(old(self)@, old(self).bins.edges@, old(self).bins.scale as nat, txs@, rate),
            r is Err ==> r == Err::<(), StatsError>(StatsError::Overflow),
    {
        let ghost start = self@;
        let ghost edges = self.bins.edges@;
        let ghost sc = self.bins.scale as nat;
        let mut i: usize = 0;
        while i < txs.len()
            invariant
                self.wf(),
                self.bins == old(self).bins,
                start == old(self)@,
                start.len() == edges.len(),
                edges == self.bins.edges@,
                sc == self.bins.scale as nat,
                rate.wf(),
                i <= txs@.len(),
                self@ == record_txs(start, edges, sc, txs@.take(i as int), rate),
                forall|m: int| 0 <= m < i ==> tx_total(#[trigger] txs@[m]) <= u64::MAX,
            decreases txs.len() - i,
        {
            assert(txs@.take(i + 1).drop_last() =~= txs@.take(i as int));
            let total = match transaction_total(&txs[i]) {
                Some(v) => v,
                None => {
                    return Err(StatsError::Overflow);
                },
            };
            let k = self.bins.slot(total, rate);
            if k > 0 {
                let c = self.counts[k - 1];
                if c == u64::MAX {
                    proof {
                        let partial = record_txs(start, edges, sc, txs@.take(i + 1), rate);
                        assert(partial[k - 1] > u64::MAX);
                        lemma_record_txs_grows(start, edges, sc, txs@, rate, i + 1, txs@.len() as int, k - 1);
                        assert(txs@.take(txs@.len() as int) =~= txs@);
                        lemma_record_txs_len(start, edges, sc, txs@, rate);
                    }
                    return Err(StatsError::Overflow);
                }
                self.counts.set(k - 1, c + 1);
            }
            assert(self@ =~= record_txs(start, edges, sc, txs@.take(i + 1), rate));
            i = i + 1;
        }
        assert(txs@.take(txs@.len() as int) =~= txs@);
        proof {
            lemma_record_txs_len(start, edges, sc, txs@, rate);
            assert forall|j: int| 0 <= j < start.len() implies !(#[trigger] record_txs(start, edges, sc, txs@, rate)[j] > u64::MAX) by {
                assert(self@[j] == self.counts@[j] as nat);
            }
        }
        Ok(())
    }

    /// Records every transaction of a block at its own value.
    pub fn add_block(&mut self, b: &Block) -> (r: Result<(), StatsError>)
        requires
            old(self).wf(),
        ensures
            final(self).wf(),
            final(self).bins == old(self).bins,
            r is Ok <==> !txs_overflow(old(self)@, old(self).bins.edges@, old(self).bins.scale as nat, b.transactions@, Rate { num: 1, den: 1 }),
            r is Ok ==> final(self)@ == record_txs(old(self)@, old(self).bins.edges@, old(self).bins.scale as nat, b.transactions@, Rate { num: 1, den: 1 }),
            r is Ok && old(self).bins.edges@[0] <= old(self).bins.scale
                ==> sum(final(self)@) == sum(old(self)@) + positive_txs(b.transactions@, Rate { num: 1, den: 1 }),
    {
        let r = self.add_transactions(&b.transactions, Rate::unit());
        proof {
            if r is Ok && old(self).bins.edges@[0] <= old(self).bins.scale {
                lemma_record_txs_sum(old(self)@, old(self).bins.edges@, old(self).bins.scale as nat, b.transactions@, Rate { num: 1, den: 1 });
            }
        }
        r
    }

    /// Records every transaction of a block converted at the rate of the block's
    /// day; a block whose day has no rate is left out. Where the first edge lies
    /// at or below `1 / den`, every transaction whose converted value is positive
    /// lands in exactly one bin, and no other does.
    pub fn add_block_converted(&mut self, b: &Block, rates: &RateTable) -> (r: Result<(), StatsError>)
        requires
            old(self).wf(),
            rates.wf(),
        ensures
            final(self).wf(),
            final(self).bins == old(self).bins,
            rates.rate_at(b.timestamp) is None ==> r is Ok && final(self)@ == old(self)@,
            rates.rate_at(b.timestamp) matches Some(q) ==> {
                &&& (r is Ok <==> !txs_overflow(old(self)@, old(self).bins.edges@, old(self).bins.scale as nat, b.transactions@, q))
                &&& (r is Ok ==> final(self)@ == record_txs(old(self)@, old(self).bins.edges@, old(self).bins.scale as nat, b.transactions@, q))
                &&& (r is Ok && old(self).bins.edges@[0] * q.den <= old(self).bins.scale
                    ==> sum(final(self)@) == sum(old(self)@) + positive_txs(b.transactions@, q))
            },
    {
        match rates.lookup(b.timestamp) {
            Some(q) => {
                let r = self.add_transactions(&b.transactions, q);
                proof {
                    if r is Ok && old(self).bins.edges@[0] * q.den <= old(self).bins.scale {
                        lemma_record_txs_sum(old(self)@, old(self).bins.edges@, old(self).bins.scale as nat, b.transactions@, q);
                    }
                }
                r
            },
            None => Ok(()),
        }
    }

    /// The non-empty bins, in ascending order, as pairs of bin index and count.
    pub fn table(&self) -> (r: Vec<(i64, u64)>)
        requires
            self.wf(),
        ensures
            r@ == nonzero_bins(self.bins.first, self.counts@),
    {
        let mut out: Vec<(i64, u64)> = Vec::new();
        let mut j: usize = 0;
        while j < self.counts.len()
            invariant
                self.wf(),
                j <= self.counts@.len(),
                out@ == nonzero_bins(self.bins.first, self.counts@.take(j as int)),
            decreases self.counts.len() - j,
        {
            assert(self.counts@.take(j + 1).drop_last() =~= self.counts@.take(j as int));
            let c = self.counts[j];
            if c != 0 {
                out.push((self.bins.first + j as i64, c));
            }
            j = j + 1;
        }
        assert(self.counts@.take(self.counts@.len() as int) =~= self.counts@);
        out
    }
}

} // verus!
