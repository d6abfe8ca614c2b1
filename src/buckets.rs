//! A sparse table from bucket keys to aggregates, kept in ascending key order.
use crate::ledger::StatsError;
use vstd::prelude::*;

verus! {

/// The start of the time bucket of width `width` that holds `timestamp`.
pub open spec fn bucket_start(timestamp: u32, width: u32) -> int
    recommends
        width > 0,
{
    (timestamp / width) * width
}

/// The start of the time bucket of width `width` that holds `timestamp`: a
/// multiple of `width`, at most `timestamp`.
pub fn bucket_of(timestamp: u32, width: u32) -> (r: u64)
    requires
        width > 0,
    ensures
        r == bucket_start(timestamp, width),
        r % (width as u64) == 0,
        r <= timestamp,
{
    let q = timestamp / width;
    proof {
        assert(q * width <= timestamp) by (nonlinear_arith)
            requires q == timestamp / width, width > 0;
        vstd::arithmetic::div_mod::lemma_mod_multiples_basic(q as int, width as int);
    }
    (q as u64) * (width as u64)
}

/// The aggregate of a key in a table, zero where the key is absent.
pub open spec fn value_or_zero(m: Map<int, nat>, key: int) -> nat {
    if m.contains_key(key) {
        m[key]
    } else {
        0
    }
}

/// Entries strictly ascending by key.
pub open spec fn ascending(s: Seq<(u64, u64)>) -> bool {
    forall|i: int, j: int| 0 <= i < j < s.len() ==> (#[trigger] s[i]).0 < (#[trigger] s[j]).0
}

/// The entries list exactly the keys of `m`, each with its aggregate.
pub open spec fn spells(s: Seq<(u64, u64)>, m: Map<int, nat>) -> bool {
    &&& forall|i: int| 0 <= i < s.len()
        ==> m.contains_key((#[trigger] s[i]).0 as int) && m[s[i].0 as int] == s[i].1
    &&& forall|k: int| #[trigger] m.contains_key(k) ==> exists|i: int| 0 <= i < s.len() && (#[trigger] s[i]).0 == k
}

/// Two ascending lists of entries that spell the same map are the same list.
pub proof fn lemma_spelling_unique(a: Seq<(u64, u64)>, b: Seq<(u64, u64)>, m: Map<int, nat>)
    requires
        ascending(a),
        ascending(b),
        spells(a, m),
        spells(b, m),
    ensures
        a == b,
    decreases a.len() + b.len(),
{
    if a.len() == 0 || b.len() == 0 {
        if a.len() > 0 {
            assert(m.contains_key(a[0].0 as int));
        }
        if b.len() > 0 {
            assert(m.contains_key(b[0].0 as int));
        }
        assert(a =~= b);
    } else {
        let la = a.last();
        let lb = b.last();
        assert(m.contains_key(la.0 as int));
        assert(m.contains_key(lb.0 as int));
        let j = choose|j: int| 0 <= j < b.len() && (#[trigger] b[j]).0 == la.0;
        let i = choose|i: int| 0 <= i < a.len() && (#[trigger] a[i]).0 == lb.0;
        if j < b.len() - 1 {
            assert(b[j].0 < b[b.len() - 1].0);
        }
        if i < a.len() - 1 {
            assert(a[i].0 < a[a.len() - 1].0);
        }
        assert(la.0 == lb.0);
        let m2 = m.remove(la.0 as int);
        let a2 = a.drop_last();
        let b2 = b.drop_last();
        assert forall|k: int| #[trigger] m2.contains_key(k) implies exists|i: int| 0 <= i < a2.len() && (#[trigger] a2[i]).0 == k by {
            let i = choose|i: int| 0 <= i < a.len() && (#[trigger] a[i]).0 == k;
            assert(a2[i].0 == k);
        }
        assert forall|k: int| #[trigger] m2.contains_key(k) implies exists|i: int| 0 <= i < b2.len() && (#[trigger] b2[i]).0 == k by {
            let i = choose|i: int| 0 <= i < b.len() && (#[trigger] b[i]).0 == k;
            assert(b2[i].0 == k);
        }
        assert forall|i: int| 0 <= i < a2.len() implies m2.contains_key((#[trigger] a2[i]).0 as int) && m2[a2[i].0 as int] == a2[i].1 by {
            assert(a[i].0 < la.0);
        }
        assert forall|i: int| 0 <= i < b2.len() implies m2.contains_key((#[trigger] b2[i]).0 as int) && m2[b2[i].0 as int] == b2[i].1 by {
            assert(b[i].0 < lb.0);
        }
        lemma_spelling_unique(a2, b2, m2);
        assert(la.1 == m[la.0 as int] && lb.1 == m[lb.0 as int]);
        assert(la == lb);
        assert(a =~= a2.push(la));
        assert(b =~= b2.push(lb));
    }
}

/// Keys and aggregates, ascending by key, with the map that they spell.
pub struct BucketTable {
    pub entries: Vec<(u64, u64)>,
    pub model: Ghost<Map<int, nat>>,
}

impl BucketTable {
    pub open spec fn view(&self) -> Map<int, nat> {
        self.model@
    }

    pub open spec fn wf(&self) -> bool {
        ascending(self.entries@) && spells(self.entries@, self.model@)
    }

    /// The entries, ascending by key.
    pub fn to_vec(&self) -> (r: Vec<(u64, u64)>)
        ensures
            r@ == self.entries@,
    {
        let mut out: Vec<(u64, u64)> = Vec::new();
        let mut i: usize = 0;
        while i < self.entries.len()
            invariant
                i <= self.entries@.len(),
                out@ == self.entries@.take(i as int),
            decreases self.entries.len() - i,
        {
            out.push(self.entries[i]);
            assert(out@ =~= self.entries@.take(i + 1));
            i = i + 1;
        }
        assert(self.entries@.take(self.entries@.len() as int) =~= self.entries@);
        out
    }

    /// An empty table.
    pub fn new() -> (r: BucketTable)
        ensures
            r.wf(),
            r@ == Map::<int, nat>::empty(),
    {
        BucketTable { entries: Vec::new(), model: Ghost(Map::empty()) }
    }

    /// The position of the first entry whose key is not below `key`.
    fn position(&self, key: u64) -> (p: usize)
        requires
            self.wf(),
        ensures
            p <= self.entries@.len(),
            forall|i: int| 0 <= i < p ==> (#[trigger] self.entries@[i]).0 < key,
            forall|i: int| p <= i < self.entries@.len() ==> (#[trigger] self.entries@[i]).0 >= key,
    {
        let mut lo: usize = 0;
        let mut hi: usize = self.entries.len();
        while lo < hi
            invariant
                self.wf(),
                lo <= hi <= self.entries@.len(),
                forall|i: int| 0 <= i < lo ==> (#[trigger] self.entries@[i]).0 < key,
                forall|i: int| hi <= i < self.entries@.len() ==> (#[trigger] self.entries@[i]).0 >= key,
            decreases hi - lo,
        {
            let mid = lo + (hi - lo) / 2;
            if self.entries[mid].0 < key {
                assert forall|i: int| 0 <= i <= mid implies (#[trigger] self.entries@[i]).0 < key by {
                    if i < mid {
                        assert(self.entries@[i].0 < self.entries@[mid as int].0);
                    }
                }
                lo = mid + 1;
            } else {
                assert forall|i: int| mid <= i < self.entries@.len() implies (#[trigger] self.entries@[i]).0 >= key by {
                    if i > mid {
                        assert(self.entries@[mid as int].0 < self.entries@[i].0);
                    }
                }
                hi = mid;
            }
        }
        lo
    }

    /// Sets the aggregate of `key` to `value`, replacing any earlier one.
    pub fn put(&mut self, key: u64, value: u64)
        requires
            old(self).wf(),
        ensures
            final(self).wf(),
            final(self)@ == old(self)@.insert(key as int, value as nat),
    {
        let p = self.position(key);
        if p < self.entries.len() && self.entries[p].0 == key {
            self.entries.set(p, (key, value));
            self.model = Ghost(self.model@.insert(key as int, value as nat));
            assert forall|k: int| #[trigger] self.model@.contains_key(k)
                implies exists|i: int| 0 <= i < self.entries@.len() && (#[trigger] self.entries@[i]).0 == k by {
                if k != key {
                    assert(old(self).model@.contains_key(k));
                    let i = choose|i: int| 0 <= i < old(self).entries@.len() && (#[trigger] old(self).entries@[i]).0 == k;
                    assert(self.entries@[i].0 == k);
                } else {
                    assert(self.entries@[p as int].0 == k);
                }
            }
        } else {
            self.entries.insert(p, (key, value));
            self.model = Ghost(self.model@.insert(key as int, value as nat));
            assert(forall|i: int| 0 <= i < p ==> self.entries@[i] == old(self).entries@[i]);
            assert(forall|i: int| p < i < self.entries@.len() ==> self.entries@[i] == old(self).entries@[i - 1]);
            assert forall|i: int| 0 <= i < self.entries@.len() implies
                self.model@.contains_key((#[trigger] self.entries@[i]).0 as int)
                && self.model@[self.entries@[i].0 as int] == self.entries@[i].1 by {
                if i < p {
                    assert(old(self).entries@[i].0 < key);
                } else if i > p {
                    assert(old(self).entries@[i - 1].0 >= key);
                    assert(old(self).entries@[i - 1].0 != key);
                }
            }
            assert forall|k: int| #[trigger] self.model@.contains_key(k)
                implies exists|i: int| 0 <= i < self.entries@.len() && (#[trigger] self.entries@[i]).0 == k by {
                if k != key {
                    assert(old(self).model@.contains_key(k));
                    let i = choose|i: int| 0 <= i < old(self).entries@.len() && (#[trigger] old(self).entries@[i]).0 == k;
                    if i < p {
                        assert(self.entries@[i].0 == k);
                    } else {
                        assert(self.entries@[i + 1].0 == k);
                    }
                } else {
                    assert(self.entries@[p as int].0 == k);
                }
            }
        }
    }

    /// The aggregate of `key`, zero where the table has no entry for it.
    pub fn get(&self, key: u64) -> (r: u64)
        requires
            self.wf(),
        ensures
            r == value_or_zero(self@, key as int),
    {
        let p = self.position(key);
        if p < self.entries.len() && self.entries[p].0 == key {
            self.entries[p].1
        } else {
            proof {
                if self@.contains_key(key as int) {
                    let i = choose|i: int| 0 <= i < self.entries@.len() && (#[trigger] self.entries@[i]).0 == key;
                    assert(i < p || i > p);
                    if i > p {
                        assert(self.entries@[p as int].0 < self.entries@[i].0);
                    }
                }
            }
            0
        }
    }

    /// Adds `amount` to the aggregate of `key`, creating the entry where it is
    /// absent. Fails, and leaves the table as it was, where the sum would not
    /// fit in 64 bits.
    pub fn add(&mut self, key: u64, amount: u64) -> (r: Result<(), StatsError>)
        requires
            old(self).wf(),
        ensures
            final(self).wf(),
            r is Ok <==> value_or_zero(old(self)@, key as int) + amount <= u64::MAX,
            r is Ok ==> final(self)@ == old(self)@.insert(key as int, (value_or_zero(old(self)@, key as int) + amount) as nat),
            r is Err ==> final(self)@ == old(self)@ && r == Err::<(), StatsError>(StatsError::Overflow),
    {
        let cur = self.get(key);
        match cur.checked_add(amount) {
            Some(v) => {
                self.put(key, v);
                Ok(())
            },
            None => Err(StatsError::Overflow),
        }
    }
}

/// What a table lists is determined by what it maps: two tables holding the
/// same aggregates for the same keys list the same entries in the same order,
/// so a reducer fed the same blocks with the same parameters emits the same table.
pub proof fn lemma_table_determined(x: BucketTable, y: BucketTable)
    requires
        x.wf(),
        y.wf(),
        x@ == y@,
    ensures
        x.entries@ == y.entries@,
{
    lemma_spelling_unique(x.entries@, y.entries@, x@);
}

} // verus!
