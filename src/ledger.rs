//! Blocks, transactions and outputs, and the value that a transaction moves.
use vstd::prelude::*;

verus! {

/// A wallet, as a canonical identifier: two outputs paying the same address
/// carry the same identifier. Identifiers are dense: they are handed out as
/// 0, 1, 2, ... in order of first appearance, since the running-balance reducer
/// keeps one balance per identifier up to the largest one seen.
pub type WalletId = u64;

/// One output of a transaction: an amount in the smallest currency unit and
/// the wallets it pays (possibly none, possibly several).
pub struct Output {
    pub value: u64,
    pub addresses: Vec<WalletId>,
}

/// A transaction, as the ordered list of its outputs.
pub struct Transaction {
    pub outputs: Vec<Output>,
}

/// A block: its timestamp in seconds since the epoch and its transactions.
pub struct Block {
    pub timestamp: u32,
    pub transactions: Vec<Transaction>,
}

/// Why a reducer stopped.
#[derive(Clone, Copy, Debug, PartialEq, Eq, Structural)]
pub enum StatsError {
    /// An amount or a counter does not fit in 64 bits.
    Overflow,
    /// A block has no transactions, so no reward transaction.
    NoRewardTransaction,
    /// The reward transaction of a block has no outputs.
    NoRewardOutputs,
}

/// The sum of the values of a sequence of outputs.
pub open spec fn outputs_sum(outs: Seq<Output>) -> nat
    decreases outs.len(),
{
    if outs.len() == 0 {
        0
    } else {
        (outputs_sum(outs.drop_last()) + outs.last().value) as nat
    }
}

/// The total value that a transaction moves: the sum of its outputs.
pub open spec fn tx_total(t: Transaction) -> nat {
    outputs_sum(t.outputs@)
}

/// A longer prefix never sums to less.
pub proof fn lemma_outputs_sum_prefix(outs: Seq<Output>, i: int, j: int)
    requires
        0 <= i <= j <= outs.len(),
    ensures
        outputs_sum(outs.take(i)) <= outputs_sum(outs.take(j)),
    decreases j - i,
{
    if i < j {
        lemma_outputs_sum_prefix(outs, i, j - 1);
        assert(outs.take(j).drop_last() =~= outs.take(j - 1));
    }
}

/// The total value of a transaction, or `None` when it does not fit in 64 bits.
pub fn transaction_total(t: &Transaction) -> (r: Option<u64>)
    ensures
        match r {
            Some(v) => v == tx_total(*t),
            None => tx_total(*t) > u64::MAX,
        },
{
    let outs = &t.outputs;
    let mut acc: u64 = 0;
    let mut i: usize = 0;
    while i < outs.len()
        invariant
            i <= outs.len(),
            acc == outputs_sum(outs@.take(i as int)),
            outs@ == t.outputs@,
        decreases outs.len() - i,
    {
        assert(outs@.take(i + 1).drop_last() =~= outs@.take(i as int));
        assert(outputs_sum(outs@.take(i + 1)) == acc + outs@[i as int].value);
        match acc.checked_add(outs[i].value) {
            Some(s) => {
                acc = s;
            },
            None => {
                proof {
                    lemma_outputs_sum_prefix(outs@, i + 1, outs@.len() as int);
                    assert(outs@.take(outs@.len() as int) =~= outs@);
                    assert(acc + outs@[i as int].value > u64::MAX);
                    assert(outputs_sum(outs@) > u64::MAX);
                }
                return None;
            },
        }
        i = i + 1;
    }
    assert(outs@.take(outs@.len() as int) =~= outs@);
    Some(acc)
}

} // verus!
