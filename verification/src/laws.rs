//! General properties of the search engine, proved once and for all from
//! the contracts of `search`, `best_total` and `combine`.

use vstd::prelude::*;

use crate::distance::DistanceGraph;
use crate::search::{covered, lemma_budget_monotone, lemma_zero_budget, mask_of, path_ok, value_of};
use crate::table::BestByMask;

verus! {

/// More time never reduces the optimum: whenever `r1` and `r2` satisfy the
/// contract of `best_total` for budgets `b1 <= b2` on the same graph,
/// `r1 <= r2`.
pub proof fn lemma_best_total_monotone(dg: DistanceGraph, b1: u64, b2: u64, r1: u64, r2: u64)
    requires
        dg.wf(),
        b1 <= b2,
        exists|p: Seq<int>| path_ok(dg, b1, p) && value_of(dg, b1, p) == r1,
        forall|p: Seq<int>| #[trigger] path_ok(dg, b2, p) ==> value_of(dg, b2, p) <= r2,
    ensures
        r1 <= r2,
{
    let p = choose|p: Seq<int>| path_ok(dg, b1, p) && value_of(dg, b1, p) == r1;
    lemma_budget_monotone(dg, b1, b2, p);
}

/// With no time at all the optimum is zero: whenever `r` satisfies the
/// contract of `best_total` for budget 0, `r == 0`.
pub proof fn lemma_best_total_zero(dg: DistanceGraph, r: u64)
    requires
        dg.wf(),
        exists|p: Seq<int>| path_ok(dg, 0u64, p) && value_of(dg, 0u64, p) == r,
    ensures
        r == 0,
{
    let p = choose|p: Seq<int>| path_ok(dg, 0u64, p) && value_of(dg, 0u64, p) == r;
    lemma_zero_budget(dg, p);
}

/// Table monotonicity over budgets: every bitmask achievable under the
/// smaller budget is present in the larger budget's table, with at least
/// the same value. `t1` is any table sound for `b1`, `t2` any table
/// complete for `b2`, as `search` ensures of its result.
pub proof fn lemma_table_monotone(
    dg: DistanceGraph,
    b1: u64,
    b2: u64,
    t1: BestByMask,
    t2: BestByMask,
)
    requires
        dg.wf(),
        b1 <= b2,
        forall|m: u32| #[trigger]
            t1.spec_has(m) ==> exists|p: Seq<int>|
                path_ok(dg, b1, p) && mask_of(dg, b1, p) == m && value_of(dg, b1, p)
                    == t1.spec_get(m),
        forall|p: Seq<int>| #[trigger] path_ok(dg, b2, p) ==> covered(t2, dg, b2, p),
    ensures
        forall|m: u32| #[trigger]
            t1.spec_has(m) ==> t2.spec_has(m) && t1.spec_get(m) <= t2.spec_get(m),
{
    assert forall|m: u32| #[trigger] t1.spec_has(m) implies t2.spec_has(m) && t1.spec_get(m)
        <= t2.spec_get(m) by {
        let p = choose|p: Seq<int>|
            path_ok(dg, b1, p) && mask_of(dg, b1, p) == m && value_of(dg, b1, p) == t1.spec_get(m);
        lemma_budget_monotone(dg, b1, b2, p);
        assert(covered(t2, dg, b2, p));
    }
}

/// One agent may always do nothing: when the all-zero bitmask has an entry,
/// any `r` meeting the pair bound of `combine`'s contract dominates every
/// single entry of the table.
pub proof fn lemma_combine_covers_single(t: BestByMask, r: u64, m: u32)
    requires
        t.spec_has(0u32),
        t.spec_has(m),
        forall|m1: u32, m2: u32|
            #[trigger] t.spec_has(m1) && #[trigger] t.spec_has(m2) && (m1 & m2) == 0u32
                ==> t.spec_get(m1) + t.spec_get(m2) <= r,
    ensures
        t.spec_get(m) <= r,
{
    assert((m & 0u32) == 0u32) by (bit_vector);
    assert(t.spec_get(m) + t.spec_get(0u32) <= r);
}

} // verus!
