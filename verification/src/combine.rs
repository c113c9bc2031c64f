//! Two-agent combination: the best sum of two entries of a `BestByMask`
//! whose bitmasks are disjoint, modeling two agents opening non-overlapping
//! sets of nodes in the same network.

use vstd::prelude::*;

use crate::distance::DistanceGraph;
use crate::search::{mask_of, path_ok, search, value_of};
use crate::table::BestByMask;

verus! {

/// Entries are ordered by non-increasing value.
pub open spec fn sorted_desc(s: Seq<(u32, u64)>) -> bool {
    forall|a: int, b: int| 0 <= a < b < s.len() ==> (#[trigger] s[a]).1 >= (#[trigger] s[b]).1
}

/// Sorts (bitmask, value) pairs by non-increasing value, keeping the same
/// collection of pairs.
fn sort_desc(v: &Vec<(u32, u64)>) -> (r: Vec<(u32, u64)>)
    ensures
        r@.len() == v@.len(),
        sorted_desc(r@),
        r@.to_multiset() == v@.to_multiset(),
{
    broadcast use vstd::seq_lib::group_to_multiset_ensures;
    broadcast use vstd::seq_lib::to_multiset_insert;

    let mut r: Vec<(u32, u64)> = Vec::new();
    let end = v.len();
    for i in 0..end
        invariant
            end == v@.len(),
            r@.len() == i,
            sorted_desc(r@),
            r@.to_multiset() == v@.take(i as int).to_multiset(),
    {
        let x = v[i];
        let mut pos: usize = 0;
        while pos < r.len() && r[pos].1 >= x.1
            invariant
                0 <= pos <= r@.len(),
                forall|kk: int| 0 <= kk < pos ==> (#[trigger] r@[kk]).1 >= x.1,
            decreases r@.len() - pos,
        {
            pos = pos + 1;
        }
        let ghost rbefore = r@;
        r.insert(pos, x);
        proof {
            vstd::seq_lib::to_multiset_insert(rbefore, pos as int, x);
            vstd::seq_lib::to_multiset_build(v@.take(i as int), x);
            assert(r@ == rbefore.insert(pos as int, x));
            assert(v@.take(i as int + 1) =~= v@.take(i as int).push(x));
            assert(r@.to_multiset() =~= v@.take(i as int + 1).to_multiset());
            assert forall|a: int, b: int| 0 <= a < b < r@.len() implies (#[trigger] r@[a]).1 >= (
            #[trigger] r@[b]).1 by {
                if a < pos {
                    assert(r@[a] == rbefore[a]);
                }
                if b < pos {
                    assert(r@[b] == rbefore[b]);
                }
                if a > pos {
                    assert(r@[a] == rbefore[a - 1]);
                }
                if b > pos {
                    assert(r@[b] == rbefore[b - 1]);
                }
                if b == pos {
                    assert(r@[b] == x);
                }
                if a == pos {
                    assert(r@[a] == x);
                    assert(pos < rbefore.len() && rbefore[pos as int].1 < x.1);
                    assert(rbefore[b - 1].1 <= rbefore[pos as int].1);
                }
            }
        }
    }
    proof {
        assert(v@.take(end as int) =~= v@);
    }
    r
}

proof fn lemma_and_comm(x: u32, y: u32)
    ensures
        (x & y) == (y & x),
{
    assert((x & y) == (y & x)) by (bit_vector);
}

proof fn lemma_self_disjoint(x: u32)
    requires
        (x & x) == 0u32,
    ensures
        x == 0u32,
{
    assert((x & x) == 0u32 ==> x == 0u32) by (bit_vector);
}

proof fn lemma_zero_disjoint()
    ensures
        (0u32 & 0u32) == 0u32,
{
    assert((0u32 & 0u32) == 0u32) by (bit_vector);
}

/// The best combined release of two table entries with disjoint bitmasks:
/// the maximum of `best[a] + best[b]` over all entry pairs with `a & b == 0`
/// (`a == b` only qualifies for the all-zero mask), or 0 where no pair
/// qualifies.
#[verifier::loop_isolation(false)]
#[verifier::rlimit(100)]
pub fn combine(t: &BestByMask) -> (r: u64)
    requires
        t.wf(),
        forall|m1: u32, m2: u32|
            #[trigger] t.spec_has(m1) && #[trigger] t.spec_has(m2) ==> t.spec_get(m1) + t.spec_get(
                m2,
            ) <= u64::MAX,
    ensures
        forall|m1: u32, m2: u32|
            #[trigger] t.spec_has(m1) && #[trigger] t.spec_has(m2) && (m1 & m2) == 0u32
                ==> t.spec_get(m1) + t.spec_get(m2) <= r,
        r == 0 || exists|m1: u32, m2: u32|
            #[trigger] t.spec_has(m1) && #[trigger] t.spec_has(m2) && (m1 & m2) == 0u32
                && t.spec_get(m1) + t.spec_get(m2) == r,
{
    broadcast use vstd::seq_lib::group_to_multiset_ensures;

    let cnt = t.count();
    let mut v: Vec<(u32, u64)> = Vec::new();
    for k in 0..cnt
        invariant
            v@.len() == k,
            forall|kk: int| 0 <= kk < k ==> (#[trigger] v@[kk]) == t.entry(kk),
    {
        v.push(t.entry_at(k));
    }
    let s = sort_desc(&v);
    proof {
        // every sorted entry is a table entry, and every table entry shows up
        assert forall|a: int| 0 <= a < s@.len() implies t.spec_has((#[trigger] s@[a]).0)
            && t.spec_get(s@[a].0) == s@[a].1 by {
            assert(s@.contains(s@[a]));
            assert(s@.to_multiset().count(s@[a]) > 0);
            assert(v@.contains(s@[a]));
            let k = choose|k: int| 0 <= k < v@.len() && v@[k] == s@[a];
            assert(t.entry(k) == s@[a]);
            t.lemma_entry(k);
        }
        assert forall|m: u32| #[trigger] t.spec_has(m) implies exists|a: int|
            0 <= a < s@.len() && s@[a] == (m, t.spec_get(m)) by {
            let k = choose|k: int| 0 <= k < t.len() && (#[trigger] t.entry(k)).0 == m;
            t.lemma_entry(k);
            assert(v@[k] == (m, t.spec_get(m)));
            assert(v@.contains(v@[k]));
            assert(s@.to_multiset().count(v@[k]) > 0);
            assert(s@.contains(v@[k]));
            let a = choose|a: int| 0 <= a < s@.len() && s@[a] == v@[k];
            assert(s@[a] == (m, t.spec_get(m)));
        }
    }
    let mut best: u64 = 0;
    let ghost mut gm1: u32 = 0u32;
    let ghost mut gm2: u32 = 0u32;
    match t.get(0u32) {
        Some(v0) => {
            proof {
                lemma_zero_disjoint();
            }
            best = v0 + v0;
        },
        None => {},
    }
    let slen = s.len();
    let mut i: usize = 0;
    while i < slen
        invariant
            0 <= i <= slen,
            best == 0 || (t.spec_has(gm1) && t.spec_has(gm2) && (gm1 & gm2) == 0u32 && t.spec_get(
                gm1,
            ) + t.spec_get(gm2) == best),
            t.spec_has(0u32) ==> t.spec_get(0u32) + t.spec_get(0u32) <= best,
            forall|a: int, b: int|
                0 <= a < b < slen && a < i && ((#[trigger] s@[a]).0 & (#[trigger] s@[b]).0)
                    == 0u32 ==> s@[a].1 + s@[b].1 <= best,
        decreases slen - i,
    {
        if s[i].1 + s[i].1 <= best {
            let ghost iold = i as int;
            proof {
                assert forall|a: int, b: int|
                    0 <= a < b < slen && ((#[trigger] s@[a]).0 & (#[trigger] s@[b]).0)
                        == 0u32 implies s@[a].1 + s@[b].1 <= best by {
                    if a >= iold {
                        assert(s@[a].1 <= s@[iold].1);
                        assert(s@[b].1 <= s@[iold].1);
                    }
                }
            }
            i = slen;
        } else {
            let mut j: usize = i + 1;
            while j < slen
                invariant
                    i < j <= slen,
                    i < slen,
                    best == 0 || (t.spec_has(gm1) && t.spec_has(gm2) && (gm1 & gm2) == 0u32
                        && t.spec_get(gm1) + t.spec_get(gm2) == best),
                    t.spec_has(0u32) ==> t.spec_get(0u32) + t.spec_get(0u32) <= best,
                    forall|a: int, b: int|
                        0 <= a < b < slen && a < i && ((#[trigger] s@[a]).0 & (#[trigger] s@[b]).0)
                            == 0u32 ==> s@[a].1 + s@[b].1 <= best,
                    forall|b: int|
                        i < b < j && ((s@[i as int].0) & ((#[trigger] s@[b]).0)) == 0u32 ==> s@[
                            i as int
                        ].1 + s@[b].1 <= best,
                decreases slen - j,
            {
                let sum = s[i].1 + s[j].1;
                if sum <= best {
                    let ghost jold = j as int;
                    proof {
                        assert forall|b: int|
                            i < b < slen && ((s@[i as int].0) & ((#[trigger] s@[b]).0))
                                == 0u32 implies s@[i as int].1 + s@[b].1 <= best by {
                            if b >= jold {
                                assert(s@[b].1 <= s@[jold].1);
                            }
                        }
                    }
                    j = slen;
                } else {
                    if s[i].0 & s[j].0 == 0u32 {
                        best = sum;
                        proof {
                            gm1 = s@[i as int].0;
                            gm2 = s@[j as int].0;
                        }
                    }
                    j = j + 1;
                }
            }
            proof {
                assert forall|a: int, b: int|
                    0 <= a < b < slen && a < i + 1 && ((#[trigger] s@[a]).0 & (#[trigger] s@[b]).0)
                        == 0u32 implies s@[a].1 + s@[b].1 <= best by {
                    if a == i as int {
                        assert(s@[b].1 + s@[a].1 <= best);
                    }
                }
            }
            i = i + 1;
        }
    }
    proof {
        assert forall|m1: u32, m2: u32|
            #[trigger] t.spec_has(m1) && #[trigger] t.spec_has(m2) && (m1 & m2)
                == 0u32 implies t.spec_get(m1) + t.spec_get(m2) <= best by {
            if m1 == m2 {
                lemma_self_disjoint(m1);
            } else {
                let a = choose|a: int| 0 <= a < s@.len() && s@[a] == (m1, t.spec_get(m1));
                let b = choose|b: int| 0 <= b < s@.len() && s@[b] == (m2, t.spec_get(m2));
                assert(a != b);
                lemma_and_comm(m1, m2);
                if a < b {
                    assert(s@[a].1 + s@[b].1 <= best);
                } else {
                    assert(s@[b].1 + s@[a].1 <= best);
                }
            }
        }
    }
    best
}

/// The best combined release of two cooperating agents sharing one budget:
/// runs the single-agent search and combines two disjoint opened sets. The
/// result is the maximum of `value_of(p1) + value_of(p2)` over all pairs of
/// affordable paths whose opened sets do not overlap.
pub fn best_dual_total(dg: &DistanceGraph, budget: u64) -> (r: u64)
    requires
        dg.wf(),
        dg.fits_dual(budget),
    ensures
        forall|p1: Seq<int>, p2: Seq<int>|
            #[trigger] path_ok(*dg, budget, p1) && #[trigger] path_ok(*dg, budget, p2) && (mask_of(
                *dg,
                budget,
                p1,
            ) & mask_of(*dg, budget, p2)) == 0u32 ==> value_of(*dg, budget, p1) + value_of(
                *dg,
                budget,
                p2,
            ) <= r,
        exists|p1: Seq<int>, p2: Seq<int>|
            #[trigger] path_ok(*dg, budget, p1) && #[trigger] path_ok(*dg, budget, p2) && (mask_of(
                *dg,
                budget,
                p1,
            ) & mask_of(*dg, budget, p2)) == 0u32 && value_of(*dg, budget, p1) + value_of(
                *dg,
                budget,
                p2,
            ) == r,
{
    proof {
        dg.lemma_total_rate_nonneg();
        vstd::arithmetic::mul::lemma_mul_nonnegative(budget as int, dg.total_rate());
    }
    let table = search(dg, budget);
    proof {
        assert forall|m1: u32, m2: u32|
            #[trigger] table.spec_has(m1) && #[trigger] table.spec_has(m2) implies table.spec_get(
            m1,
        ) + table.spec_get(m2) <= u64::MAX by {
            let p1 = choose|p1: Seq<int>|
                path_ok(*dg, budget, p1) && mask_of(*dg, budget, p1) == m1 && value_of(
                    *dg,
                    budget,
                    p1,
                ) == table.spec_get(m1);
            let p2 = choose|p2: Seq<int>|
                path_ok(*dg, budget, p2) && mask_of(*dg, budget, p2) == m2 && value_of(
                    *dg,
                    budget,
                    p2,
                ) == table.spec_get(m2);
            crate::search::lemma_value_bound(*dg, budget, p1);
            crate::search::lemma_value_bound(*dg, budget, p2);
        }
    }
    let r = combine(&table);
    proof {
        assert forall|p1: Seq<int>, p2: Seq<int>|
            #[trigger] path_ok(*dg, budget, p1) && #[trigger] path_ok(*dg, budget, p2) && (mask_of(
                *dg,
                budget,
                p1,
            ) & mask_of(*dg, budget, p2)) == 0u32 implies value_of(*dg, budget, p1) + value_of(
            *dg,
            budget,
            p2,
        ) <= r by {
            assert(crate::search::covered(table, *dg, budget, p1));
            assert(crate::search::covered(table, *dg, budget, p2));
        }
        if r == 0 {
            let e: Seq<int> = Seq::empty();
            assert(path_ok(*dg, budget, e));
            vstd::arithmetic::mul::lemma_mul_basics(budget as int);
            assert(value_of(*dg, budget, e) == 0);
            assert(mask_of(*dg, budget, e) == 0u32);
            lemma_zero_disjoint();
            assert(path_ok(*dg, budget, e) && path_ok(*dg, budget, e) && (mask_of(*dg, budget, e)
                & mask_of(*dg, budget, e)) == 0u32 && value_of(*dg, budget, e) + value_of(
                *dg,
                budget,
                e,
            ) == r);
        } else {
            let (m1, m2) = choose|m1: u32, m2: u32|
                #[trigger] table.spec_has(m1) && #[trigger] table.spec_has(m2) && (m1 & m2)
                    == 0u32 && table.spec_get(m1) + table.spec_get(m2) == r;
            let p1 = choose|p1: Seq<int>|
                path_ok(*dg, budget, p1) && mask_of(*dg, budget, p1) == m1 && value_of(
                    *dg,
                    budget,
                    p1,
                ) == table.spec_get(m1);
            let p2 = choose|p2: Seq<int>|
                path_ok(*dg, budget, p2) && mask_of(*dg, budget, p2) == m2 && value_of(
                    *dg,
                    budget,
                    p2,
                ) == table.spec_get(m2);
            assert(path_ok(*dg, budget, p1) && path_ok(*dg, budget, p2) && (mask_of(
                *dg,
                budget,
                p1,
            ) & mask_of(*dg, budget, p2)) == 0u32 && value_of(*dg, budget, p1) + value_of(
                *dg,
                budget,
                p2,
            ) == r);
        }
    }
    r
}

} // verus!
