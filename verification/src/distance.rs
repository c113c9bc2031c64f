//! Compressed distance graph over the interesting nodes of a network.
//!
//! Index 0 is reserved for the start node. The distance table keeps, for
//! every ordered pair of distinct interesting nodes, the exact travel cost
//! between them, or `None` where no route exists (a possibility the type must
//! represent even though a connected network never produces it).

use vstd::prelude::*;

verus! {

/// Width of the opened-set bitmask: the engine supports at most this many
/// interesting nodes.
pub const MASK_WIDTH: usize = 32;

/// Errors raised while compressing a raw network into a `DistanceGraph`.
#[derive(Debug, PartialEq, Eq, Structural, Clone, Copy)]
pub enum GraphError {
    /// A node is unreachable from the start, or two interesting nodes are
    /// mutually unreachable.
    Disconnected,
    /// More interesting nodes than the opened-set bitmask can hold.
    TooManyInterestingNodes,
}

/// Ordered list of interesting nodes (start first) with their flow rates and
/// the pairwise travel costs between them.
pub struct DistanceGraph {
    rates: Vec<u64>,
    dist: Vec<Vec<Option<u64>>>,
}

impl DistanceGraph {
    /// Number of interesting nodes, start included.
    pub closed spec fn n(self) -> int {
        self.rates@.len() as int
    }

    /// Flow rate of interesting node `i`.
    pub closed spec fn rate(self, i: int) -> u64 {
        self.rates@[i]
    }

    /// Travel cost from interesting node `i` to interesting node `j`.
    pub closed spec fn d(self, i: int, j: int) -> Option<u64> {
        self.dist@[i]@[j]
    }

    /// The distance table is square with one row per interesting node.
    pub closed spec fn square(self) -> bool {
        &&& self.dist@.len() == self.n()
        &&& forall|i: int| 0 <= i < self.n() ==> (#[trigger] self.dist@[i])@.len() == self.n()
    }

    /// Well-formedness: a square table over at least the start node, nothing
    /// beyond the bitmask width, no self-distances, and every recorded
    /// distance at least 1.
    pub open spec fn wf(self) -> bool {
        &&& 1 <= self.n() <= MASK_WIDTH
        &&& self.square()
        &&& forall|i: int| 0 <= i < self.n() ==> #[trigger] self.d(i, i) is None
        &&& forall|i: int, j: int|
            0 <= i < self.n() && 0 <= j < self.n() && #[trigger] self.d(i, j) is Some
                ==> self.d(i, j)->0 >= 1
    }

    /// Sum of the rates of the first `k` interesting nodes.
    pub open spec fn rate_sum_to(self, k: int) -> int
        decreases k,
    {
        if k <= 0 {
            0
        } else {
            self.rate_sum_to(k - 1) + self.rate(k - 1)
        }
    }

    /// Sum of all rates: an upper bound on the release rate any agent can reach.
    pub open spec fn total_rate(self) -> int {
        self.rate_sum_to(self.n())
    }

    /// The arithmetic of a search with this budget stays within `u64`.
    pub open spec fn fits(self, budget: u64) -> bool {
        budget * self.total_rate() <= u64::MAX
    }

    /// The arithmetic of a two-agent combination with this budget stays
    /// within `u64`.
    pub open spec fn fits_dual(self, budget: u64) -> bool {
        2 * (budget * self.total_rate()) <= u64::MAX
    }

    /// Builds a distance graph from its parts, validating well-formedness:
    /// `Some` exactly when the parts form a well-formed graph.
    pub fn new(rates: Vec<u64>, dist: Vec<Vec<Option<u64>>>) -> (r: Option<DistanceGraph>)
        ensures
            r is Some <==> {
                &&& 1 <= rates@.len() <= MASK_WIDTH
                &&& dist@.len() == rates@.len()
                &&& forall|i: int|
                    0 <= i < rates@.len() ==> (#[trigger] dist@[i])@.len() == rates@.len()
                &&& forall|i: int| 0 <= i < rates@.len() ==> #[trigger] dist@[i]@[i] is None
                &&& forall|i: int, j: int|
                    0 <= i < rates@.len() && 0 <= j < rates@.len()
                        && #[trigger] dist@[i]@[j] is Some ==> dist@[i]@[j]->0 >= 1
            },
            r is Some ==> {
                &&& r->0.wf()
                &&& r->0.n() == rates@.len()
                &&& forall|i: int| 0 <= i < rates@.len() ==> #[trigger] r->0.rate(i) == rates@[i]
                &&& forall|i: int, j: int|
                    0 <= i < rates@.len() && 0 <= j < rates@.len()
                        ==> #[trigger] r->0.d(i, j) == dist@[i]@[j]
            },
    {
        let n = rates.len();
        if n < 1 || n > MASK_WIDTH || dist.len() != n {
            return None;
        }
        for i in 0..n
            invariant
                n == rates@.len() == dist@.len(),
                forall|k: int| 0 <= k < i ==> (#[trigger] dist@[k])@.len() == n,
                forall|k: int| 0 <= k < i ==> #[trigger] dist@[k]@[k] is None,
                forall|k: int, j: int|
                    0 <= k < i && 0 <= j < n && #[trigger] dist@[k]@[j] is Some
                        ==> dist@[k]@[j]->0 >= 1,
        {
            let row = &dist[i];
            if row.len() != n {
                return None;
            }
            if row[i].is_some() {
                return None;
            }
            for j in 0..n
                invariant
                    n == rates@.len() == dist@.len(),
                    i < n,
                    (#[trigger] dist@[i as int])@.len() == n,
                    row == dist@[i as int],
                    forall|jj: int|
                        0 <= jj < j && #[trigger] dist@[i as int]@[jj] is Some
                            ==> dist@[i as int]@[jj]->0 >= 1,
            {
                match row[j] {
                    Some(v) => {
                        if v < 1 {
                            return None;
                        }
                    },
                    None => {},
                }
            }
        }
        Some(DistanceGraph { rates, dist })
    }

    /// Number of interesting nodes.
    pub fn node_count(&self) -> (r: usize)
        ensures
            r == self.n(),
    {
        self.rates.len()
    }

    /// Flow rate of interesting node `i`.
    pub fn rate_at(&self, i: usize) -> (r: u64)
        requires
            0 <= i < self.n(),
        ensures
            r == self.rate(i as int),
    {
        self.rates[i]
    }

    /// Travel cost from `i` to `j`, `None` for `i == j` or an unreachable pair.
    pub fn dist_at(&self, i: usize, j: usize) -> (r: Option<u64>)
        requires
            self.wf(),
            0 <= i < self.n(),
            0 <= j < self.n(),
        ensures
            r == self.d(i as int, j as int),
    {
        self.dist[i][j]
    }

    /// Runtime check for `fits`: whether a search with this budget stays
    /// within `u64` arithmetic.
    pub fn budget_fits(&self, budget: u64) -> (r: bool)
        requires
            self.wf(),
        ensures
            r == self.fits(budget),
    {
        let n = self.rates.len();
        let mut total: u128 = 0;
        for i in 0..n
            invariant
                n == self.n(),
                n <= MASK_WIDTH,
                total == self.rate_sum_to(i as int),
                total <= i * (u64::MAX as int),
        {
            total = total + self.rates[i] as u128;
        }
        if budget == 0 {
            proof {
                self.lemma_total_rate_nonneg();
            }
            return true;
        }
        if total > u64::MAX as u128 {
            proof {
                vstd::arithmetic::mul::lemma_mul_inequality(
                    1,
                    budget as int,
                    self.total_rate(),
                );
            }
            return false;
        }
        proof {
            self.lemma_total_rate_nonneg();
            vstd::arithmetic::mul::lemma_mul_upper_bound(
                budget as int,
                u64::MAX as int,
                self.total_rate(),
                u64::MAX as int,
            );
        }
        (budget as u128) * total <= u64::MAX as u128
    }

    /// Runtime check for `fits_dual`.
    pub fn budget_fits_dual(&self, budget: u64) -> (r: bool)
        requires
            self.wf(),
        ensures
            r == self.fits_dual(budget),
    {
        let n = self.rates.len();
        let mut total: u128 = 0;
        for i in 0..n
            invariant
                n == self.n(),
                n <= MASK_WIDTH,
                total == self.rate_sum_to(i as int),
                total <= i * (u64::MAX as int),
        {
            total = total + self.rates[i] as u128;
        }
        if budget == 0 {
            proof {
                self.lemma_total_rate_nonneg();
            }
            return true;
        }
        if total > u64::MAX as u128 {
            proof {
                vstd::arithmetic::mul::lemma_mul_inequality(
                    1,
                    budget as int,
                    self.total_rate(),
                );
            }
            return false;
        }
        proof {
            self.lemma_total_rate_nonneg();
            vstd::arithmetic::mul::lemma_mul_upper_bound(
                budget as int,
                u64::MAX as int,
                self.total_rate(),
                u64::MAX as int,
            );
        }
        (budget as u128) * total <= 0x7fff_ffff_ffff_ffffu128
    }

    proof fn lemma_rate_sum_nonneg(self, k: int)
        ensures
            self.rate_sum_to(k) >= 0,
        decreases k,
    {
        if k > 0 {
            self.lemma_rate_sum_nonneg(k - 1);
        }
    }

    /// The total rate is never negative.
    pub proof fn lemma_total_rate_nonneg(self)
        ensures
            self.total_rate() >= 0,
    {
        self.lemma_rate_sum_nonneg(self.n());
    }
}

} // verus!
