//! Wallets holding large cumulative balances: every wallet's total received
//! value over the whole scan, and at each time-bucket boundary the number of
//! wallets whose total, converted at the current rate, exceeds a threshold.
use crate::buckets::{bucket_of, bucket_start, BucketTable};
use crate::ledger::{Block, Output, StatsError, Transaction, WalletId};
use crate::rates::{converted_exceeds, exceeds, Rate, RateTable};
use vstd::prelude::*;

verus! {

/// The balance of a wallet; zero for one never credited.
pub open spec fn balance_of(bal: Seq<nat>, w: int) -> nat {
    if 0 <= w < bal.len() {
        bal[w]
    } else {
        0
    }
}

/// Balances after `v` is credited to wallet `w`.
pub open spec fn credit(bal: Seq<nat>, w: WalletId, v: nat) -> Seq<nat> {
    let p = if w < bal.len() {
        bal
    } else {
        bal + Seq::new((w + 1 - bal.len()) as nat, |i: int| 0nat)
    };
    p.update(w as int, p[w as int] + v)
}

/// Balances after a sequence of credits, in order.
pub open spec fn credit_all(bal: Seq<nat>, cs: Seq<(WalletId, u64)>) -> Seq<nat>
    decreases cs.len(),
{
    if cs.len() == 0 {
        bal
    } else {
        let c = cs.last();
        credit(credit_all(bal, cs.drop_last()), c.0, c.1 as nat)
    }
}

/// The credits that one output makes: its value to each wallet it names, once per naming.
pub open spec fn output_credits(o: Output) -> Seq<(WalletId, u64)> {
    o.addresses@.map_values(|a: WalletId| (a, o.value))
}

pub open spec fn outputs_credits(outs: Seq<Output>) -> Seq<(WalletId, u64)>
    decreases outs.len(),
{
    if outs.len() == 0 {
        Seq::empty()
    } else {
        outputs_credits(outs.drop_last()) + output_credits(outs.last())
    }
}

/// The credits that a block's transactions make, in order.
pub open spec fn txs_credits(txs: Seq<Transaction>) -> Seq<(WalletId, u64)>
    decreases txs.len(),
{
    if txs.len() == 0 {
        Seq::empty()
    } else {
        txs_credits(txs.drop_last()) + outputs_credits(txs.last().outputs@)
    }
}

/// Whether some balance does not fit in 64 bits.
pub open spec fn too_large(bal: Seq<nat>) -> bool {
    exists|w: int| 0 <= w < bal.len() && #[trigger] bal[w] > u64::MAX
}

/// How many balances exceed `threshold` currency units at `rate`.
pub open spec fn count_above(bal: Seq<nat>, rate: Rate, threshold: nat) -> nat
    decreases bal.len(),
{
    if bal.len() == 0 {
        0
    } else {
        count_above(bal.drop_last(), rate, threshold) + if exceeds(bal.last(), rate, threshold) {
            1nat
        } else {
            0nat
        }
    }
}

/// No balance decreases under a credit.
pub proof fn lemma_credit_grows(bal: Seq<nat>, w: WalletId, v: nat, x: int)
    ensures
        balance_of(credit(bal, w, v), x) >= balance_of(bal, x),
        credit(bal, w, v).len() >= bal.len(),
        credit(bal, w, v).len() > w,
{
}

/// No balance decreases under a sequence of credits.
pub proof fn lemma_credit_all_grows(bal: Seq<nat>, cs: Seq<(WalletId, u64)>, x: int)
    ensures
        balance_of(credit_all(bal, cs), x) >= balance_of(bal, x),
        credit_all(bal, cs).len() >= bal.len(),
    decreases cs.len(),
{
    if cs.len() > 0 {
        lemma_credit_all_grows(bal, cs.drop_last(), x);
        lemma_credit_grows(credit_all(bal, cs.drop_last()), cs.last().0, cs.last().1 as nat, x);
    }
}

/// Crediting two sequences one after the other is crediting their concatenation.
pub proof fn lemma_credit_all_concat(bal: Seq<nat>, s: Seq<(WalletId, u64)>, t: Seq<(WalletId, u64)>)
    ensures
        credit_all(bal, s + t) == credit_all(credit_all(bal, s), t),
    decreases t.len(),
{
    if t.len() == 0 {
        assert(s + t =~= s);
    } else {
        assert((s + t).drop_last() =~= s + t.drop_last());
        lemma_credit_all_concat(bal, s, t.drop_last());
    }
}

/// A balance too large for 64 bits stays too large under further credits.
pub proof fn lemma_too_large_persists(bal: Seq<nat>, cs: Seq<(WalletId, u64)>)
    requires
        too_large(bal),
    ensures
        too_large(credit_all(bal, cs)),
{
    let w = choose|w: int| 0 <= w < bal.len() && #[trigger] bal[w] > u64::MAX;
    lemma_credit_all_grows(bal, cs, w);
    assert(credit_all(bal, cs)[w] > u64::MAX);
}

/// Where a prefix of the credits already overflows, so do all of them.
pub proof fn lemma_prefix_too_large(bal: Seq<nat>, pre: Seq<(WalletId, u64)>, all: Seq<(WalletId, u64)>)
    requires
        pre.len() <= all.len(),
        pre == all.take(pre.len() as int),
        too_large(credit_all(bal, pre)),
    ensures
        too_large(credit_all(bal, all)),
{
    let rest = all.skip(pre.len() as int);
    assert(pre + rest =~= all);
    lemma_credit_all_concat(bal, pre, rest);
    lemma_too_large_persists(credit_all(bal, pre), rest);
}

/// The state of the reducer: balances by wallet, the open bucket with the rate
/// of its latest block (none before the first rated block), and the counts
/// recorded at bucket boundaries.
pub struct WalletSeries {
    pub threshold: u64,
    pub width: u32,
    pub balances: Vec<u64>,
    pub open: Option<(u64, Rate)>,
    pub table: BucketTable,
}

impl WalletSeries {
    pub open spec fn wf(&self) -> bool {
        &&& self.width > 0
        &&& self.table.wf()
        &&& self.open matches Some(o) ==> o.1.wf() && o.0 <= u32::MAX && o.0 % (self.width as u64) == 0
        &&& forall|k: int| #[trigger] self.table@.contains_key(k) ==> k % (self.width as int) == 0
    }

    /// The balance of every wallet, by identifier.
    pub open spec fn view(&self) -> Seq<nat> {
        self.balances@.map_values(|v: u64| v as nat)
    }

    /// An empty reducer counting wallets above `threshold` currency units at the
    /// boundaries of buckets of `width` seconds.
    pub fn new(threshold: u64, width: u32) -> (r: WalletSeries)
        requires
            width > 0,
        ensures
            r.wf(),
            r.threshold == threshold,
            r.width == width,
            r@ == Seq::<nat>::empty(),
            r.open is None,
            r.table@ == Map::<int, nat>::empty(),
    {
        WalletSeries { threshold, width, balances: Vec::new(), open: None, table: BucketTable::new() }
    }

    /// The number of wallets whose balance exceeds the threshold at `rate`.
    pub fn count_wallets_above(&self, rate: Rate) -> (r: u64)
        ensures
            r == count_above(self@, rate, self.threshold as nat),
    {
        let mut n: u64 = 0;
        let mut i: usize = 0;
        while i < self.balances.len()
            invariant
                i <= self.balances@.len(),
                n <= i,
                n == count_above(self@.take(i as int), rate, self.threshold as nat),
            decreases self.balances.len() - i,
        {
            assert(self@.take(i + 1).drop_last() =~= self@.take(i as int));
            if converted_exceeds(self.balances[i], rate, self.threshold) {
                n = n + 1;
            }
            i = i + 1;
        }
        assert(self@.take(self@.len() as int) =~= self@);
        n
    }

    /// Credits `v` to wallet `w`; fails, leaving the balances as they were,
    /// where the balance would not fit in 64 bits.
    fn credit_one(&mut self, w: WalletId, v: u64) -> (r: Result<(), StatsError>)
        requires
            old(self).wf(),
        ensures
            final(self).wf(),
            final(self).threshold == old(self).threshold,
            final(self).width == old(self).width,
            final(self).open == old(self).open,
            final(self).table == old(self).table,
            r is Ok <==> !too_large(credit(old(self)@, w, v as nat)),
            r is Ok ==> final(self)@ == credit(old(self)@, w, v as nat),
            r is Err ==> final(self)@ == old(self)@ && r == Err::<(), StatsError>(StatsError::Overflow),
    {
        let ghost target = credit(old(self)@, w, v as nat);
        let cur: u64 = if (w as u128) < (self.balances.len() as u128) {
            self.balances[w as usize]
        } else {
            0
        };
        match cur.checked_add(v) {
            None => {
                proof {
                    lemma_credit_grows(old(self)@, w, v as nat, w as int);
                    assert(target[w as int] > u64::MAX);
                }
                Err(StatsError::Overflow)
            },
            Some(s) => {
                while (self.balances.len() as u128) <= (w as u128)
                    invariant
                        old(self)@.len() <= self@.len(),
                        old(self)@.len() <= w ==> self@.len() <= w + 1,
                        w < old(self)@.len() ==> self@ == old(self)@,
                        forall|i: int| 0 <= i < old(self)@.len() ==> self@[i] == old(self)@[i],
                        forall|i: int| old(self)@.len() <= i < self@.len() ==> self@[i] == 0,
                        self.threshold == old(self).threshold,
                        self.width == old(self).width,
                        self.open == old(self).open,
                        self.table == old(self).table,
                    decreases w + 1 - self.balances.len(),
                {
                    let ghost before = self@;
                    self.balances.push(0);
                    assert(self@ =~= before.push(0nat));
                }
                let ghost grown = self@;
                self.balances.set(w as usize, s);
                proof {
                    let p = if w < old(self)@.len() {
                        old(self)@
                    } else {
                        old(self)@ + Seq::new((w + 1 - old(self)@.len()) as nat, |i: int| 0nat)
                    };
                    assert(grown =~= p);
                    assert(cur == p[w as int]);
                    assert(self@ =~= target);
                }
                Ok(())
            },
        }
    }
}

impl WalletSeries {
    /// The balances are those of `start` after the credits `cs`, unless a
    /// balance would not fit in 64 bits, which is then the one failure.
    pub open spec fn credited(&self, start: Seq<nat>, cs: Seq<(WalletId, u64)>, r: Result<(), StatsError>) -> bool {
        &&& (r is Ok <==> !too_large(credit_all(start, cs)))
        &&& (r is Ok ==> self@ == credit_all(start, cs))
        &&& (r is Err ==> r == Err::<(), StatsError>(StatsError::Overflow))
    }

    pub open spec fn same_but_balances(&self, other: &WalletSeries) -> bool {
        &&& self.wf()
        &&& self.threshold == other.threshold
        &&& self.width == other.width
        &&& self.open == other.open
        &&& self.table == other.table
    }

    fn credit_output(&mut self, o: &Output) -> (r: Result<(), StatsError>)
        requires
            old(self).wf(),
        ensures
            final(self).same_but_balances(old(self)),
            final(self).credited(old(self)@, output_credits(*o), r),
    {
        let ghost start = self@;
        let ghost cs = output_credits(*o);
        let mut k: usize = 0;
        while k < o.addresses.len()
            invariant
                self.same_but_balances(old(self)),
                start == old(self)@,
                cs == output_credits(*o),
                cs.len() == o.addresses@.len(),
                k <= o.addresses@.len(),
                self@ == credit_all(start, cs.take(k as int)),
            decreases o.addresses.len() - k,
        {
            assert(cs.take(k + 1).drop_last() =~= cs.take(k as int));
            assert(cs[k as int] == (o.addresses@[k as int], o.value));
            let r = self.credit_one(o.addresses[k], o.value);
            if r.is_err() {
                proof {
                    assert(self@ == credit_all(start, cs.take(k as int)));
                    lemma_prefix_too_large(start, cs.take(k + 1), cs);
                }
                return r;
            }
            k = k + 1;
        }
        assert(cs.take(cs.len() as int) =~= cs);
        Ok(())
    }

    fn credit_outputs(&mut self, outs: &Vec<Output>) -> (r: Result<(), StatsError>)
        requires
            old(self).wf(),
        ensures
            final(self).same_but_balances(old(self)),
            final(self).credited(old(self)@, outputs_credits(outs@), r),
    {
        let ghost start = self@;
        let mut j: usize = 0;
        while j < outs.len()
            invariant
                self.same_but_balances(old(self)),
                start == old(self)@,
                j <= outs@.len(),
                self@ == credit_all(start, outputs_credits(outs@.take(j as int))),
            decreases outs.len() - j,
        {
            assert(outs@.take(j + 1).drop_last() =~= outs@.take(j as int));
            let ghost pre = outputs_credits(outs@.take(j as int));
            let ghost next = outputs_credits(outs@.take(j + 1));
            assert(next == pre + output_credits(outs@[j as int]));
            proof {
                lemma_credit_all_concat(start, pre, output_credits(outs@[j as int]));
                lemma_outputs_credits_prefix(outs@, j + 1);
            }
            let r = self.credit_output(&outs[j]);
            if r.is_err() {
                proof {
                    assert(outs@.take(outs@.len() as int) =~= outs@);
                    lemma_prefix_too_large(start, next, outputs_credits(outs@));
                }
                return r;
            }
            j = j + 1;
        }
        assert(outs@.take(outs@.len() as int) =~= outs@);
        Ok(())
    }

    /// Credits every output of every transaction to each wallet it names.
    /// Fails exactly where a balance would not fit in 64 bits; the balances are
    /// then left in an unspecified state.
    pub fn credit_transactions(&mut self, txs: &Vec<Transaction>) -> (r: Result<(), StatsError>)
        requires
            old(self).wf(),
        ensures
            final(self).same_but_balances(old(self)),
            final(self).credited(old(self)@, txs_credits(txs@), r),
    {
        let ghost start = self@;
        let mut i: usize = 0;
        while i < txs.len()
            invariant
                self.same_but_balances(old(self)),
                start == old(self)@,
                i <= txs@.len(),
                self@ == credit_all(start, txs_credits(txs@.take(i as int))),
            decreases txs.len() - i,
        {
            assert(txs@.take(i + 1).drop_last() =~= txs@.take(i as int));
            let ghost pre = txs_credits(txs@.take(i as int));
            let ghost next = txs_credits(txs@.take(i + 1));
            assert(next == pre + outputs_credits(txs@[i as int].outputs@));
            proof {
                lemma_credit_all_concat(start, pre, outputs_credits(txs@[i as int].outputs@));
                lemma_txs_credits_prefix(txs@, i + 1);
            }
            let r = self.credit_outputs(&txs[i].outputs);
            if r.is_err() {
                proof {
                    assert(txs@.take(txs@.len() as int) =~= txs@);
                    lemma_prefix_too_large(start, next, txs_credits(txs@));
                }
                return r;
            }
            i = i + 1;
        }
        assert(txs@.take(txs@.len() as int) =~= txs@);
        Ok(())
    }
}

impl WalletSeries {
    /// Takes a block into account. A block whose day has no rate is skipped
    /// entirely. For a rated block: where a bucket is open and the block falls in
    /// another, the number of wallets whose balance exceeds the threshold at the
    /// block's rate is recorded at the start of the block's bucket; the block's
    /// bucket becomes the open one; then every output of the block is credited to
    /// each wallet it names. Fails exactly where a balance would not fit in 64 bits.
    pub fn add_block(&mut self, b: &Block, rates: &RateTable) -> (r: Result<(), StatsError>)
        requires
            old(self).wf(),
            rates.wf(),
        ensures
            final(self).wf(),
            final(self).threshold == old(self).threshold,
            final(self).width == old(self).width,
            rates.rate_at(b.timestamp) is None ==> r is Ok && final(self)@ == old(self)@
                && final(self).open == old(self).open && final(self).table@ == old(self).table@,
            rates.rate_at(b.timestamp) matches Some(q) ==> {
                let k = bucket_start(b.timestamp, old(self).width);
                &&& final(self).open == Some((k as u64, q))
                &&& final(self).table@ == if old(self).open matches Some(o) && o.0 != k {
                    old(self).table@.insert(k, count_above(old(self)@, q, old(self).threshold as nat))
                } else {
                    old(self).table@
                }
                &&& final(self).credited(old(self)@, txs_credits(b.transactions@), r)
            },
    {
        let q = match rates.lookup(b.timestamp) {
            Some(q) => q,
            None => {
                return Ok(());
            },
        };
        let k = bucket_of(b.timestamp, self.width);
        if let Some(o) = self.open {
            if o.0 != k {
                let n = self.count_wallets_above(q);
                self.table.put(k, n);
            }
        }
        self.open = Some((k, q));
        self.credit_transactions(&b.transactions)
    }

    /// Closes the open bucket, if any: the number of wallets whose balance
    /// exceeds the threshold at the rate of the latest rated block is recorded
    /// at the start of the next bucket. Where timestamps went backwards, that key
    /// may already hold a boundary count; the end-of-stream count replaces it,
    /// being the later of the two. Returns the recorded counts, ascending,
    /// as pairs of bucket start and count; every start is a multiple of the width.
    pub fn finish(&mut self) -> (r: Vec<(u64, u64)>)
        requires
            old(self).wf(),
        ensures
            final(self).wf(),
            final(self)@ == old(self)@,
            final(self).open is None,
            final(self).table@ == match old(self).open {
                Some(o) => old(self).table@.insert(o.0 + old(self).width,
                    count_above(old(self)@, o.1, old(self).threshold as nat)),
                None => old(self).table@,
            },
            r@ == final(self).table.entries@,
            forall|i: int| 0 <= i < r@.len() ==> (#[trigger] r@[i]).0 % (old(self).width as u64) == 0,
    {
        if let Some(o) = self.open {
            let n = self.count_wallets_above(o.1);
            let key = o.0 + self.width as u64;
            proof {
                vstd::arithmetic::div_mod::lemma_mod_add_multiples_vanish(o.0 as int, self.width as int);
            }
            self.table.put(key, n);
            self.open = None;
        }
        let r = self.table.to_vec();
        assert forall|i: int| 0 <= i < r@.len() implies (#[trigger] r@[i]).0 % (self.width as u64) == 0 by {
            assert(self.table@.contains_key(self.table.entries@[i].0 as int));
        }
        r
    }
}

/// Across a rated block, no wallet's cumulative balance decreases: each is at
/// least what it was before the block's credits.
pub proof fn lemma_balances_never_decrease(bal: Seq<nat>, b: Block, w: int)
    ensures
        balance_of(credit_all(bal, txs_credits(b.transactions@)), w) >= balance_of(bal, w),
{
    lemma_credit_all_grows(bal, txs_credits(b.transactions@), w);
}

/// Wallets with a zero balance are never counted, so appending them changes no count.
pub proof fn lemma_count_above_zeros(bal: Seq<nat>, k: nat, rate: Rate, threshold: nat)
    ensures
        count_above(bal + Seq::new(k, |i: int| 0nat), rate, threshold) == count_above(bal, rate, threshold),
    decreases k,
{
    let z = Seq::new(k, |i: int| 0nat);
    if k == 0 {
        assert(bal + z =~= bal);
    } else {
        let zp = Seq::new((k - 1) as nat, |i: int| 0nat);
        assert((bal + z).drop_last() =~= bal + zp);
        assert((bal + z).last() == 0);
        assert(0 * rate.num == 0);
        lemma_count_above_zeros(bal, (k - 1) as nat, rate, threshold);
    }
}

/// Raising one balance never lowers the count.
pub proof fn lemma_count_above_raise(bal: Seq<nat>, w: int, v: nat, rate: Rate, threshold: nat)
    requires
        0 <= w < bal.len(),
        v >= bal[w],
    ensures
        count_above(bal.update(w, v), rate, threshold) >= count_above(bal, rate, threshold),
    decreases bal.len(),
{
    let up = bal.update(w, v);
    if w == bal.len() - 1 {
        assert(up.drop_last() =~= bal.drop_last());
        assert(v * rate.num >= bal[w] * rate.num) by (nonlinear_arith)
            requires v >= bal[w];
    } else {
        assert(up.drop_last() =~= bal.drop_last().update(w, v));
        lemma_count_above_raise(bal.drop_last(), w, v, rate, threshold);
    }
}

/// At a fixed rate, the number of wallets above the threshold never falls as
/// balances accumulate: crediting any sequence of transfers keeps every wallet
/// that was counted, so consecutive boundary counts at one rate never decrease.
pub proof fn lemma_count_never_falls(bal: Seq<nat>, cs: Seq<(WalletId, u64)>, rate: Rate, threshold: nat)
    ensures
        count_above(credit_all(bal, cs), rate, threshold) >= count_above(bal, rate, threshold),
    decreases cs.len(),
{
    if cs.len() > 0 {
        lemma_count_never_falls(bal, cs.drop_last(), rate, threshold);
        let prev = credit_all(bal, cs.drop_last());
        let (w, v) = cs.last();
        let p = if w < prev.len() {
            prev
        } else {
            prev + Seq::new((w + 1 - prev.len()) as nat, |i: int| 0nat)
        };
        if w >= prev.len() {
            lemma_count_above_zeros(prev, (w + 1 - prev.len()) as nat, rate, threshold);
        }
        lemma_count_above_raise(p, w as int, p[w as int] + v as nat, rate, threshold);
    }
}

/// The credits of a prefix of the outputs are a prefix of the credits of all.
pub proof fn lemma_outputs_credits_prefix(outs: Seq<Output>, j: int)
    requires
        0 <= j <= outs.len(),
    ensures
        outputs_credits(outs.take(j)).len() <= outputs_credits(outs).len(),
        outputs_credits(outs.take(j)) == outputs_credits(outs).take(outputs_credits(outs.take(j)).len() as int),
    decreases outs.len() - j,
{
    if j == outs.len() {
        assert(outs.take(j) =~= outs);
        assert(outputs_credits(outs).take(outputs_credits(outs).len() as int) =~= outputs_credits(outs));
    } else {
        lemma_outputs_credits_prefix(outs, j + 1);
        assert(outs.take(j + 1).drop_last() =~= outs.take(j));
        let a = outputs_credits(outs.take(j));
        let b = outputs_credits(outs.take(j + 1));
        assert(b.take(a.len() as int) =~= a);
        assert(outputs_credits(outs).take(a.len() as int) =~= b.take(a.len() as int));
    }
}

/// The credits of a prefix of the transactions are a prefix of the credits of all.
pub proof fn lemma_txs_credits_prefix(txs: Seq<Transaction>, i: int)
    requires
        0 <= i <= txs.len(),
    ensures
        txs_credits(txs.take(i)).len() <= txs_credits(txs).len(),
        txs_credits(txs.take(i)) == txs_credits(txs).take(txs_credits(txs.take(i)).len() as int),
    decreases txs.len() - i,
{
    if i == txs.len() {
        assert(txs.take(i) =~= txs);
        assert(txs_credits(txs).take(txs_credits(txs).len() as int) =~= txs_credits(txs));
    } else {
        lemma_txs_credits_prefix(txs, i + 1);
        assert(txs.take(i + 1).drop_last() =~= txs.take(i));
        let a = txs_credits(txs.take(i));
        let b = txs_credits(txs.take(i + 1));
        assert(b.take(a.len() as int) =~= a);
        assert(txs_credits(txs).take(a.len() as int) =~= b.take(a.len() as int));
    }
}

} // verus!
