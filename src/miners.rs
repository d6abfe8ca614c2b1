//! Miner diversity: how many distinct wallets received the reward of the most
//! recent blocks, sampled at a fixed stride.
use crate::ledger::{Block, Output, StatsError, WalletId};
use std::collections::HashSet;
use std::collections::VecDeque;
use vstd::prelude::*;

verus! {

broadcast use vstd::std_specs::hash::group_hash_axioms, vstd::std_specs::vecdeque::group_vec_dequeue_axioms;

/// The position of the output of highest value; of several equal ones, the last.
pub open spec fn reward_index(outs: Seq<Output>) -> int
    decreases outs.len(),
{
    if outs.len() <= 1 {
        0
    } else {
        let p = reward_index(outs.drop_last());
        if outs.last().value >= outs[p].value {
            outs.len() - 1
        } else {
            p
        }
    }
}

/// The window after one more wallet: appended at the back, and the oldest one
/// evicted where the window then holds more than `n`.
pub open spec fn push_capped(w: Seq<WalletId>, a: WalletId, n: nat) -> Seq<WalletId> {
    if w.len() + 1 > n {
        w.push(a).drop_first()
    } else {
        w.push(a)
    }
}

/// The window after each of `addrs`, in order.
pub open spec fn push_all(w: Seq<WalletId>, addrs: Seq<WalletId>, n: nat) -> Seq<WalletId>
    decreases addrs.len(),
{
    if addrs.len() == 0 {
        w
    } else {
        push_capped(push_all(w, addrs.drop_last(), n), addrs.last(), n)
    }
}

/// Whether a sample is taken before the block at position `seen`.
pub open spec fn sample_due(seen: nat, window_size: nat, stride: nat) -> bool {
    seen >= window_size && seen % stride == 0
}

/// The position of the output of highest value (the last of equal ones).
pub fn reward_output(outs: &Vec<Output>) -> (r: usize)
    requires
        outs@.len() >= 1,
    ensures
        r == reward_index(outs@),
        r < outs@.len(),
{
    let mut best: usize = 0;
    let mut j: usize = 1;
    while j < outs.len()
        invariant
            1 <= j <= outs@.len(),
            best < j,
            best == reward_index(outs@.take(j as int)),
        decreases outs.len() - j,
    {
        assert(outs@.take(j + 1).drop_last() =~= outs@.take(j as int));
        if outs[j].value >= outs[best].value {
            best = j;
        }
        j = j + 1;
    }
    assert(outs@.take(outs@.len() as int) =~= outs@);
    best
}

/// The most recent reward wallets and the samples taken so far.
pub struct MinerWindow {
    pub window_size: usize,
    pub stride: usize,
    pub window: VecDeque<WalletId>,
    pub seen: u64,
    pub samples: Vec<(u32, u64, u64)>,
}

impl MinerWindow {
    /// The window never holds more than its size, and no sample counts more
    /// wallets than the window size or than the blocks seen before it.
    pub open spec fn wf(&self) -> bool {
        &&& self.stride > 0
        &&& self.window@.len() <= self.window_size
        &&& forall|i: int| 0 <= i < self.samples@.len() ==> {
            &&& (#[trigger] self.samples@[i]).2 <= self.window_size
            &&& self.samples@[i].2 <= self.samples@[i].1
        }
    }

    /// An empty window of `window_size` wallets, sampled every `stride` blocks.
    pub fn new(window_size: usize, stride: usize) -> (r: MinerWindow)
        requires
            stride > 0,
        ensures
            r.wf(),
            r.window_size == window_size,
            r.stride == stride,
            r.window@ == Seq::<WalletId>::empty(),
            r.seen == 0,
            r.samples@ == Seq::<(u32, u64, u64)>::empty(),
    {
        MinerWindow { window_size, stride, window: VecDeque::new(), seen: 0, samples: Vec::new() }
    }

    /// The number of distinct wallets in the window.
    pub fn distinct(&self) -> (r: u64)
        ensures
            r == self.window@.to_set().len(),
    {
        let mut set: HashSet<WalletId> = HashSet::new();
        let mut i: usize = 0;
        while i < self.window.len()
            invariant
                i <= self.window@.len(),
                set@ == self.window@.take(i as int).to_set(),
            decreases self.window.len() - i,
        {
            let a = self.window[i];
            set.insert(a);
            proof {
                let prev = self.window@.take(i as int);
                let next = self.window@.take(i + 1);
                assert(next =~= prev.push(a));
                assert forall|x: WalletId| set@.contains(x) == next.to_set().contains(x) by {
                    if x == a {
                        assert(next[i as int] == a);
                    } else if prev.to_set().contains(x) {
                        let k = choose|k: int| 0 <= k < prev.len() && prev[k] == x;
                        assert(next[k] == x);
                    } else if next.to_set().contains(x) {
                        let k = choose|k: int| 0 <= k < next.len() && next[k] == x;
                        assert(prev[k] == x);
                    }
                }
                assert(set@ =~= next.to_set());
            }
            i = i + 1;
        }
        assert(self.window@.take(self.window@.len() as int) =~= self.window@);
        set.len() as u64
    }

    /// Takes the block into account: first a sample of the distinct wallets in the
    /// window, where one is due before this block, then every wallet of the
    /// highest-valued output of the block's reward transaction (its first),
    /// evicting the oldest beyond the window size. A block without transactions,
    /// or whose reward transaction has no outputs, is malformed: the reducer
    /// fails and the window is left as it was.
    pub fn add_block(&mut self, b: &Block) -> (r: Result<(), StatsError>)
        requires
            old(self).wf(),
        ensures
            final(self).wf(),
            final(self).window_size == old(self).window_size,
            final(self).stride == old(self).stride,
            b.transactions@.len() == 0 ==> r == Err::<(), StatsError>(StatsError::NoRewardTransaction),
            b.transactions@.len() > 0 && b.transactions@[0].outputs@.len() == 0
                ==> r == Err::<(), StatsError>(StatsError::NoRewardOutputs),
            b.transactions@.len() > 0 && b.transactions@[0].outputs@.len() > 0 && old(self).seen == u64::MAX
                ==> r == Err::<(), StatsError>(StatsError::Overflow),
            b.transactions@.len() > 0 && b.transactions@[0].outputs@.len() > 0 && old(self).seen < u64::MAX
                ==> r is Ok,
            r is Err ==> final(self).window@ == old(self).window@ && final(self).seen == old(self).seen
                && final(self).samples@ == old(self).samples@,
            r is Ok ==> {
                let outs = b.transactions@[0].outputs@;
                &&& final(self).seen == old(self).seen + 1
                &&& final(self).window@ == push_all(old(self).window@, outs[reward_index(outs)].addresses@,
                    old(self).window_size as nat)
                &&& final(self).samples@ == if sample_due(old(self).seen as nat, old(self).window_size as nat, old(self).stride as nat) {
                    old(self).samples@.push((b.timestamp, old(self).seen, old(self).window@.to_set().len() as u64))
                } else {
                    old(self).samples@
                }
            },
    {
        if b.transactions.len() == 0 {
            return Err(StatsError::NoRewardTransaction);
        }
        let outs = &b.transactions[0].outputs;
        if outs.len() == 0 {
            return Err(StatsError::NoRewardOutputs);
        }
        if self.seen == u64::MAX {
            return Err(StatsError::Overflow);
        }
        if self.seen >= self.window_size as u64 && self.seen % (self.stride as u64) == 0 {
            let count = self.distinct();
            proof {
                self.window@.lemma_cardinality_of_set();
            }
            self.samples.push((b.timestamp, self.seen, count));
        }
        let best = reward_output(outs);
        let addrs = &outs[best].addresses;
        let ghost start = self.window@;
        let ghost taken = self.samples@;
        let mut k: usize = 0;
        while k < addrs.len()
            invariant
                self.wf(),
                self.window_size == old(self).window_size,
                self.stride == old(self).stride,
                self.seen == old(self).seen,
                self.seen < u64::MAX,
                self.samples@ == taken,
                k <= addrs@.len(),
                self.window@ == push_all(start, addrs@.take(k as int), self.window_size as nat),
            decreases addrs.len() - k,
        {
            assert(addrs@.take(k + 1).drop_last() =~= addrs@.take(k as int));
            self.window.push_back(addrs[k]);
            if self.window.len() > self.window_size {
                self.window.pop_front();
            }
            assert(self.window@ =~= push_all(start, addrs@.take(k + 1), self.window_size as nat));
            k = k + 1;
        }
        assert(addrs@.take(addrs@.len() as int) =~= addrs@);
        self.seen = self.seen + 1;
        Ok(())
    }

    /// The samples, in order, as triples of block timestamp, number of blocks
    /// seen before it, and number of distinct wallets in the window; no count
    /// exceeds the window size or the number of blocks seen.
    pub fn samples(&self) -> (r: Vec<(u32, u64, u64)>)
        requires
            self.wf(),
        ensures
            r@ == self.samples@,
            forall|i: int| 0 <= i < r@.len() ==> (#[trigger] r@[i]).2 <= self.window_size && r@[i].2 <= r@[i].1,
    {
        let mut out: Vec<(u32, u64, u64)> = Vec::new();
        let mut i: usize = 0;
        while i < self.samples.len()
            invariant
                i <= self.samples@.len(),
                out@ == self.samples@.take(i as int),
            decreases self.samples.len() - i,
        {
            out.push(self.samples[i]);
            assert(out@ =~= self.samples@.take(i + 1));
            i = i + 1;
        }
        assert(self.samples@.take(self.samples@.len() as int) =~= self.samples@);
        out
    }
}

} // verus!
