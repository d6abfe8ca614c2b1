//! Logarithmic bins given by a table of integer lower edges.
//!
//! Edges count in units of `1 / scale`, so that a table reaches below one unit.
//! Bin `first + j` holds the values `x` with `edges[j] / scale <= x < edges[j + 1] / scale`;
//! for a bin width `w` the table holds `edges[j] = ceil(scale * 10^((first + j) * w))`,
//! which puts a positive `x` in bin `floor(log10(x) / w)`. A value below
//! `edges[0] / scale` lies in no bin. Values may be converted at a rate first:
//! then `x` is `amount * num / den`. Every comparison is exact.
use crate::rates::Rate;
use vstd::prelude::*;

verus! {

/// Whether the edge `e / scale` lies at or below `amount` converted at `rate`.
pub open spec fn edge_at_most(e: u128, amount: nat, rate: Rate, scale: nat) -> bool {
    e * rate.den <= amount * rate.num * scale
}

/// How many edges lie at or below `amount` converted at `rate`.
pub open spec fn n_at_most(edges: Seq<u128>, amount: nat, rate: Rate, scale: nat) -> nat
    decreases edges.len(),
{
    if edges.len() == 0 {
        0
    } else {
        n_at_most(edges.drop_last(), amount, rate, scale) + if edge_at_most(edges.last(), amount, rate, scale) {
            1nat
        } else {
            0nat
        }
    }
}

/// A table of bin edges in units of `1 / scale`, ascending, that starts at bin `first`.
pub struct LogBins {
    pub first: i64,
    pub scale: u64,
    pub edges: Vec<u128>,
}

impl LogBins {
    pub open spec fn wf(&self) -> bool {
        &&& self.edges@.len() >= 1
        &&& self.edges@[0] >= 1
        &&& self.scale >= 1
        &&& forall|i: int, j: int| 0 <= i <= j < self.edges@.len()
            ==> self.edges@[i] <= self.edges@[j]
        &&& self.first + self.edges@.len() <= i64::MAX
        &&& self.edges@.len() <= i64::MAX
    }

    /// The number of edges at or below `amount` converted at `rate`: the value
    /// lies in bin `first + r - 1`, or in none when `r == 0`.
    pub fn slot(&self, amount: u64, rate: Rate) -> (r: usize)
        requires
            self.wf(),
            rate.wf(),
        ensures
            r == n_at_most(self.edges@, amount as nat, rate, self.scale as nat),
            r <= self.edges@.len(),
    {
        let mut lo: usize = 0;
        let mut hi: usize = self.edges.len();
        while lo < hi
            invariant
                self.wf(),
                rate.wf(),
                lo <= hi <= self.edges@.len(),
                forall|i: int| 0 <= i < lo ==> edge_at_most(#[trigger] self.edges@[i], amount as nat, rate, self.scale as nat),
                forall|i: int| hi <= i < self.edges@.len() ==> !edge_at_most(#[trigger] self.edges@[i], amount as nat, rate, self.scale as nat),
            decreases hi - lo,
        {
            let mid = lo + (hi - lo) / 2;
            if at_most(self.edges[mid], amount, rate, self.scale) {
                proof {
                    assert forall|i: int| 0 <= i <= mid implies edge_at_most(#[trigger] self.edges@[i], amount as nat, rate, self.scale as nat) by {
                        assert(self.edges@[i] <= self.edges@[mid as int]);
                        lemma_edge_mono(self.edges@[i], self.edges@[mid as int], amount as nat, rate, self.scale as nat);
                    }
                }
                lo = mid + 1;
            } else {
                proof {
                    assert forall|i: int| mid <= i < self.edges@.len() implies !edge_at_most(#[trigger] self.edges@[i], amount as nat, rate, self.scale as nat) by {
                        assert(self.edges@[mid as int] <= self.edges@[i]);
                        if edge_at_most(self.edges@[i], amount as nat, rate, self.scale as nat) {
                            lemma_edge_mono(self.edges@[mid as int], self.edges@[i], amount as nat, rate, self.scale as nat);
                        }
                    }
                }
                hi = mid;
            }
        }
        proof {
            lemma_n_at_most_partition(self.edges@, amount as nat, rate, self.scale as nat, lo as int);
        }
        lo
    }
}

/// A smaller edge lies at or below whatever a larger one does.
pub proof fn lemma_edge_mono(a: u128, b: u128, amount: nat, rate: Rate, scale: nat)
    requires
        a <= b,
        edge_at_most(b, amount, rate, scale),
    ensures
        edge_at_most(a, amount, rate, scale),
{
    assert(a * rate.den <= b * rate.den) by (nonlinear_arith)
        requires a <= b;
}

/// Where the edges at or below a value form a prefix of length `p`, there are `p` of them.
pub proof fn lemma_n_at_most_partition(edges: Seq<u128>, amount: nat, rate: Rate, scale: nat, p: int)
    requires
        0 <= p <= edges.len(),
        forall|i: int| 0 <= i < p ==> edge_at_most(#[trigger] edges[i], amount, rate, scale),
        forall|i: int| p <= i < edges.len() ==> !edge_at_most(#[trigger] edges[i], amount, rate, scale),
    ensures
        n_at_most(edges, amount, rate, scale) == p,
    decreases edges.len(),
{
    if edges.len() > 0 {
        let prev = edges.drop_last();
        if p == edges.len() {
            assert(edge_at_most(edges[edges.len() - 1], amount, rate, scale));
            lemma_n_at_most_partition(prev, amount, rate, scale, p - 1);
        } else {
            assert(!edge_at_most(edges[edges.len() - 1], amount, rate, scale));
            lemma_n_at_most_partition(prev, amount, rate, scale, p);
        }
    }
}

/// Whether the edge `e / scale` lies at or below `amount` converted at `rate`.
/// The product `amount * num * scale` may pass 128 bits, so the test is made as
/// `e <= floor(amount * num * scale / den)`, with the quotient built in parts.
pub fn at_most(e: u128, amount: u64, rate: Rate, scale: u64) -> (r: bool)
    requires
        rate.wf(),
    ensures
        r == edge_at_most(e, amount as nat, rate, scale as nat),
{
    let a = amount as u128;
    let n = rate.num as u128;
    let d = rate.den as u128;
    let s = scale as u128;
    proof {
        assert(a * n <= u64::MAX as u128 * u64::MAX as u128) by (nonlinear_arith)
            requires a <= u64::MAX, n <= u64::MAX;
    }
    let l = a * n;
    let ql = l / d;
    let rl = l % d;
    proof {
        assert(rl * s <= u64::MAX as u128 * u64::MAX as u128) by (nonlinear_arith)
            requires rl < d, d <= u64::MAX, s <= u64::MAX;
    }
    let rs = rl * s;
    let lo = rs / d;
    let ghost x: int = l * s;
    let ghost t: int = ql * s + lo;
    proof {
        let rr = rs % d;
        vstd::arithmetic::div_mod::lemma_fundamental_div_mod(l as int, d as int);
        vstd::arithmetic::div_mod::lemma_fundamental_div_mod(rs as int, d as int);
        vstd::arithmetic::div_mod::lemma_mod_pos_bound(rs as int, d as int);
        assert(l == ql * d + rl) by (nonlinear_arith)
            requires l == d * (l / d) + l % d, ql == l / d, rl == l % d;
        assert(rs == lo * d + rr && 0 <= rr < d) by (nonlinear_arith)
            requires rs == d * (rs / d) + rs % d, lo == rs / d, rr == rs % d, 0 <= rs % d < d;
        assert(x == t * d + rr) by (nonlinear_arith)
            requires x == l * s, l == ql * d + rl, rs == rl * s, rs == lo * d + rr, t == ql * s + lo;
        assert((e * d <= x) == (e <= t)) by (nonlinear_arith)
            requires x == t * d + rr, 0 <= rr < d, d > 0, e >= 0, t >= 0;
        assert(e * d == e * rate.den);
        assert(x == amount * rate.num * scale);
    }
    match ql.checked_mul(s) {
        None => {
            assert(e <= t);
            true
        },
        Some(hs) => match hs.checked_add(lo) {
            None => {
                assert(e <= t);
                true
            },
            Some(total) => e <= total,
        },
    }
}

} // verus!
