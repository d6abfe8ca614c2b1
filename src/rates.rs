//! Exchange rates as exact fractions, and a table of them by UTC calendar day.
use vstd::prelude::*;

verus! {

/// Number of seconds in one UTC calendar day.
pub const SECONDS_PER_DAY: u32 = 86400;

/// The UTC calendar day (days since the epoch) on which a timestamp falls.
pub open spec fn day_of(timestamp: u32) -> int {
    (timestamp / SECONDS_PER_DAY) as int
}

/// The UTC calendar day (days since the epoch) on which a timestamp falls.
pub fn utc_day(timestamp: u32) -> (r: u32)
    ensures
        r == day_of(timestamp),
{
    timestamp / SECONDS_PER_DAY
}

/// A conversion rate: one smallest ledger unit is worth `num / den` currency units.
#[derive(Clone, Copy, Debug, PartialEq, Eq, Structural)]
pub struct Rate {
    pub num: u64,
    pub den: u64,
}

impl Rate {
    pub open spec fn wf(self) -> bool {
        self.den > 0
    }

    /// The rate that leaves an amount as it is.
    pub fn unit() -> (r: Rate)
        ensures
            r == (Rate { num: 1, den: 1 }),
    {
        Rate { num: 1, den: 1 }
    }
}

/// Whether `amount` ledger units, converted at `rate`, are worth strictly more
/// than `threshold` currency units: `amount * num / den > threshold`.
pub open spec fn exceeds(amount: nat, rate: Rate, threshold: nat) -> bool {
    amount * rate.num > threshold * rate.den
}

/// Whether `amount`, converted at `rate`, is worth strictly more than `threshold`.
pub fn converted_exceeds(amount: u64, rate: Rate, threshold: u64) -> (r: bool)
    ensures
        r == exceeds(amount as nat, rate, threshold as nat),
{
    let a = amount as u128;
    let n = rate.num as u128;
    let t = threshold as u128;
    let d = rate.den as u128;
    proof {
        assert(a * n <= u64::MAX as u128 * u64::MAX as u128) by (nonlinear_arith)
            requires a <= u64::MAX, n <= u64::MAX;
        assert(t * d <= u64::MAX as u128 * u64::MAX as u128) by (nonlinear_arith)
            requires t <= u64::MAX, d <= u64::MAX;
    }
    a * n > t * d
}

/// Exchange rates by UTC calendar day, from a first day on. A day may have no rate.
pub struct RateTable {
    pub first_day: u32,
    pub rates: Vec<Option<Rate>>,
}

impl RateTable {
    pub open spec fn wf(&self) -> bool {
        &&& self.first_day + self.rates@.len() <= u32::MAX + 1
        &&& forall|i: int| 0 <= i < self.rates@.len() && #[trigger] self.rates@[i] is Some
            ==> self.rates@[i]->Some_0.wf()
    }

    /// The rate recorded for a day, if any.
    pub open spec fn rate_on(&self, day: int) -> Option<Rate> {
        if self.first_day <= day < self.first_day + self.rates@.len() {
            self.rates@[day - self.first_day]
        } else {
            None
        }
    }

    /// The rate that applies to a block with this timestamp, if any.
    pub open spec fn rate_at(&self, timestamp: u32) -> Option<Rate> {
        self.rate_on(day_of(timestamp))
    }

    /// An empty table whose days start at `first_day`.
    pub fn new(first_day: u32) -> (r: RateTable)
        ensures
            r.wf(),
            r.first_day == first_day,
            forall|d: int| r.rate_on(d) is None,
    {
        RateTable { first_day, rates: Vec::new() }
    }

    /// Records the rate of one day. A day before the table's first day is refused
    /// and leaves the table as it was.
    pub fn set(&mut self, day: u32, rate: Rate) -> (r: bool)
        requires
            old(self).wf(),
            rate.wf(),
        ensures
            final(self).wf(),
            final(self).first_day == old(self).first_day,
            r == (day >= old(self).first_day),
            r ==> forall|d: int| #[trigger] final(self).rate_on(d)
                == if d == day { Some(rate) } else { old(self).rate_on(d) },
            !r ==> forall|d: int| #[trigger] final(self).rate_on(d) == old(self).rate_on(d),
    {
        if day < self.first_day {
            return false;
        }
        let off = (day - self.first_day) as usize;
        while self.rates.len() <= off
            invariant
                self.wf(),
                self.first_day == old(self).first_day,
                off == day - self.first_day,
                old(self).rates@.len() <= self.rates@.len(),
                forall|d: int| #[trigger] self.rate_on(d) == old(self).rate_on(d),
            decreases off + 1 - self.rates.len(),
        {
            let ghost before = *self;
            self.rates.push(None);
            proof {
                assert forall|d: int| #[trigger] self.rate_on(d) == old(self).rate_on(d) by {
                    assert(before.rate_on(d) == old(self).rate_on(d));
                    if self.first_day <= d < self.first_day + before.rates@.len() {
                        assert(self.rates@[d - self.first_day] == before.rates@[d - self.first_day]);
                    }
                }
            }
        }
        let ghost before = *self;
        self.rates.set(off, Some(rate));
        proof {
            assert forall|d: int| #[trigger] self.rate_on(d)
                == if d == day { Some(rate) } else { old(self).rate_on(d) } by {
                assert(before.rate_on(d) == old(self).rate_on(d));
                if d != day && self.first_day <= d < self.first_day + self.rates@.len() {
                    assert(self.rates@[d - self.first_day] == before.rates@[d - self.first_day]);
                }
            }
        }
        true
    }

    /// The rate that applies to a block with this timestamp: the rate of the
    /// UTC calendar day it falls on, if the table has one.
    pub fn lookup(&self, timestamp: u32) -> (r: Option<Rate>)
        requires
            self.wf(),
        ensures
            r == self.rate_at(timestamp),
            r matches Some(q) ==> q.wf(),
    {
        let day = utc_day(timestamp);
        if day < self.first_day {
            return None;
        }
        let off = (day - self.first_day) as usize;
        if off < self.rates.len() {
            self.rates[off]
        } else {
            None
        }
    }
}

} // verus!
