//! Single-agent search over a `DistanceGraph`.
//!
//! The meaning of a search is fixed by *paths*: a path is the sequence of
//! interesting nodes an agent opens, in order. `path_ok` says a path is
//! affordable within the budget, `value_of` is the total release accumulated
//! by the budget's end when the agent follows the path and then idles, and
//! `mask_of` is the set of nodes it opened, as a bitmask. `search` returns,
//! for every reachable bitmask, the best value over all affordable paths
//! opening exactly that set.

use vstd::prelude::*;

use crate::distance::DistanceGraph;
use crate::table::BestByMask;

verus! {

/// Whether bit `j` of mask `m` is set.
pub open spec fn bit(m: u32, j: int) -> bool {
    0 <= j < 32 && ((m >> (j as u32)) & 1u32) == 1u32
}

/// The mask with exactly bit `j` set.
pub open spec fn bmask(j: int) -> u32 {
    1u32 << (j as u32)
}

proof fn lemma_bit_or(m: u32, j: int, i: int)
    requires
        0 <= j < 32,
        0 <= i < 32,
    ensures
        bit(m | bmask(j), i) == (bit(m, i) || i == j),
{
    let ju = j as u32;
    let iu = i as u32;
    assert((((m | (1u32 << ju)) >> iu) & 1u32 == 1u32) == (((m >> iu) & 1u32 == 1u32) || iu == ju))
        by (bit_vector)
        requires
            ju < 32 && iu < 32,
    ;
}

proof fn lemma_bit_zero(i: int)
    ensures
        !bit(0u32, i),
{
    if 0 <= i < 32 {
        let iu = i as u32;
        assert(((0u32 >> iu) & 1u32) != 1u32) by (bit_vector);
    }
}

/// Search state after some prefix of a path: current node, remaining time,
/// opened set, release banked so far and current release rate.
pub struct SearchState {
    pub at: int,
    pub time_left: int,
    pub opened: u32,
    pub released: int,
    pub rate: int,
}

/// The state a search starts from: at the start node with the whole budget,
/// nothing opened, nothing released.
pub open spec fn init_state(budget: u64) -> SearchState {
    SearchState { at: 0, time_left: budget as int, opened: 0u32, released: 0, rate: 0 }
}

/// A move from state `s` to open node `j` is legal: `j` is a fresh node and
/// travelling there plus the one minute of opening fits in the remaining time.
pub open spec fn visit_ok(dg: DistanceGraph, s: SearchState, j: int) -> bool {
    &&& 0 <= j < dg.n()
    &&& !bit(s.opened, j)
    &&& dg.d(s.at, j) is Some
    &&& dg.d(s.at, j)->0 + 1 <= s.time_left
}

/// The state after moving from `s` to node `j` and opening it. The old rate
/// applies for the travel and opening time; `j`'s rate only counts afterward.
pub open spec fn visit(dg: DistanceGraph, s: SearchState, j: int) -> SearchState {
    let c = dg.d(s.at, j)->0 + 1;
    SearchState {
        at: j,
        time_left: s.time_left - c,
        opened: s.opened | bmask(j),
        released: s.released + c * s.rate,
        rate: s.rate + dg.rate(j),
    }
}

/// The state reached after following the whole path `p`.
pub open spec fn state_of(dg: DistanceGraph, budget: u64, p: Seq<int>) -> SearchState
    decreases p.len(),
{
    if p.len() == 0 {
        init_state(budget)
    } else {
        visit(dg, state_of(dg, budget, p.drop_last()), p.last())
    }
}

/// The path is affordable: every visit in turn is legal.
pub open spec fn path_ok(dg: DistanceGraph, budget: u64, p: Seq<int>) -> bool
    decreases p.len(),
{
    p.len() == 0 || {
        &&& path_ok(dg, budget, p.drop_last())
        &&& visit_ok(dg, state_of(dg, budget, p.drop_last()), p.last())
    }
}

/// Total release by the budget's end: what the path banked, plus the final
/// rate flowing for all remaining time.
pub open spec fn value_of(dg: DistanceGraph, budget: u64, p: Seq<int>) -> int {
    state_of(dg, budget, p).released + state_of(dg, budget, p).time_left * state_of(
        dg,
        budget,
        p,
    ).rate
}

/// The set of nodes the path opened, as a bitmask.
pub open spec fn mask_of(dg: DistanceGraph, budget: u64, p: Seq<int>) -> u32 {
    state_of(dg, budget, p).opened
}

/// Sum of the rates of the opened nodes among the first `k`.
pub closed spec fn mask_rate_to(dg: DistanceGraph, m: u32, k: int) -> int
    decreases k,
{
    if k <= 0 {
        0
    } else {
        mask_rate_to(dg, m, k - 1) + if bit(m, k - 1) {
            dg.rate(k - 1) as int
        } else {
            0
        }
    }
}

/// Sum of the rates of all opened nodes.
pub closed spec fn mask_rate(dg: DistanceGraph, m: u32) -> int {
    mask_rate_to(dg, m, dg.n())
}

proof fn lemma_mask_rate_to_zero(dg: DistanceGraph, k: int)
    ensures
        mask_rate_to(dg, 0u32, k) == 0,
    decreases k,
{
    if k > 0 {
        lemma_mask_rate_to_zero(dg, k - 1);
        lemma_bit_zero(k - 1);
    }
}

proof fn lemma_mask_rate_to_insert(dg: DistanceGraph, m: u32, j: int, k: int)
    requires
        0 <= j < 32,
        !bit(m, j),
    ensures
        mask_rate_to(dg, m | bmask(j), k) == mask_rate_to(dg, m, k) + if j < k {
            dg.rate(j) as int
        } else {
            0
        },
    decreases k,
{
    if k > 0 {
        lemma_mask_rate_to_insert(dg, m, j, k - 1);
        if k - 1 < 32 {
            lemma_bit_or(m, j, k - 1);
        }
    }
}

proof fn lemma_mask_rate_to_bounds(dg: DistanceGraph, m: u32, k: int)
    ensures
        0 <= mask_rate_to(dg, m, k),
        mask_rate_to(dg, m, k) <= dg.rate_sum_to(k),
    decreases k,
{
    if k > 0 {
        lemma_mask_rate_to_bounds(dg, m, k - 1);
    }
}

/// Everything an affordable path guarantees of the state it reaches: the
/// agent stands on an interesting node, time never exceeds the budget, the
/// rate is the sum of the opened nodes' rates, the opened bits are exactly
/// the path's members, and the value stays within `budget * mask_rate`.
pub proof fn lemma_state(dg: DistanceGraph, budget: u64, p: Seq<int>)
    requires
        dg.wf(),
        path_ok(dg, budget, p),
    ensures
        ({
            let s = state_of(dg, budget, p);
            &&& 0 <= s.at < dg.n()
            &&& (p.len() > 0 ==> s.at == p.last())
            &&& 0 <= s.time_left <= budget
            &&& 0 <= s.released
            &&& 0 <= s.rate
            &&& s.rate == mask_rate(dg, s.opened)
            &&& s.released + s.time_left * s.rate <= budget * mask_rate(dg, s.opened)
            &&& forall|j: int| bit(s.opened, j) <==> p.contains(j)
            &&& forall|k: int| 0 <= k < p.len() ==> 0 <= #[trigger] p[k] < dg.n()
        }),
    decreases p.len(),
{
    if p.len() == 0 {
        lemma_mask_rate_to_zero(dg, dg.n());
        assert(forall|j: int| !bit(0u32, j)) by {
            assert forall|j: int| !bit(0u32, j) by {
                lemma_bit_zero(j);
            }
        }
    } else {
        let q = p.drop_last();
        let j = p.last();
        lemma_state(dg, budget, q);
        let sq = state_of(dg, budget, q);
        let s = state_of(dg, budget, p);
        let d = dg.d(sq.at, j)->0 as int;
        let c = d + 1;
        let rj = dg.rate(j) as int;
        assert(d >= 1);
        // rate matches the opened mask
        lemma_mask_rate_to_insert(dg, sq.opened, j, dg.n());
        // the opened bits are exactly the path members
        assert forall|i: int| bit(s.opened, i) <==> p.contains(i) by {
            if 0 <= i < 32 {
                lemma_bit_or(sq.opened, j, i);
            }
            assert(bit(s.opened, i) == (bit(sq.opened, i) || i == j));
            assert(bit(sq.opened, i) <==> q.contains(i));
            if p.contains(i) {
                let k = choose|k: int| 0 <= k < p.len() && p[k] == i;
                if k < p.len() - 1 {
                    assert(q[k] == i);
                    assert(q.contains(i));
                } else {
                    assert(i == j);
                }
            }
            if q.contains(i) {
                let k = choose|k: int| 0 <= k < q.len() && q[k] == i;
                assert(p[k] == i);
                assert(p.contains(i));
            }
            if i == j {
                assert(p[p.len() - 1] == j);
                assert(p.contains(i));
            }
        }
        // value bound
        let mq = mask_rate(dg, sq.opened);
        assert(c * sq.rate + (sq.time_left - c) * (sq.rate + rj) == sq.time_left * sq.rate + (
        sq.time_left - c) * rj) by (nonlinear_arith);
        vstd::arithmetic::mul::lemma_mul_inequality(s.time_left, budget as int, rj);
        assert(budget * mq + budget * rj == budget * (mq + rj)) by (nonlinear_arith);
        vstd::arithmetic::mul::lemma_mul_nonnegative(c, sq.rate);
        // released stays nonnegative and elements stay in range
        assert(forall|k: int| 0 <= k < q.len() ==> q[k] == p[k]);
    }
}

/// An affordable path's value lies between 0 and `budget * total_rate`.
pub proof fn lemma_value_bound(dg: DistanceGraph, budget: u64, p: Seq<int>)
    requires
        dg.wf(),
        path_ok(dg, budget, p),
    ensures
        0 <= value_of(dg, budget, p),
        value_of(dg, budget, p) <= budget * dg.total_rate(),
{
    lemma_state(dg, budget, p);
    let s = state_of(dg, budget, p);
    lemma_mask_rate_to_bounds(dg, s.opened, dg.n());
    vstd::arithmetic::mul::lemma_mul_nonnegative(s.time_left, s.rate);
    if budget > 0 {
        vstd::arithmetic::mul::lemma_mul_left_inequality(
            budget as int,
            mask_rate(dg, s.opened),
            dg.total_rate(),
        );
    } else {
        vstd::arithmetic::mul::lemma_mul_basics(mask_rate(dg, s.opened));
        vstd::arithmetic::mul::lemma_mul_basics(dg.total_rate());
    }
}

/// Every prefix of an affordable path is affordable.
pub proof fn lemma_path_ok_prefix(dg: DistanceGraph, budget: u64, p: Seq<int>, i: int)
    requires
        path_ok(dg, budget, p),
        0 <= i <= p.len(),
    ensures
        path_ok(dg, budget, p.take(i)),
    decreases p.len(),
{
    if i == p.len() {
        assert(p.take(i) =~= p);
    } else {
        let q = p.drop_last();
        assert(p.take(i) =~= q.take(i));
        lemma_path_ok_prefix(dg, budget, q, i);
    }
}

/// An affordable path never revisits a node, so it opens at most `n` nodes.
pub proof fn lemma_path_len(dg: DistanceGraph, budget: u64, p: Seq<int>)
    requires
        dg.wf(),
        path_ok(dg, budget, p),
    ensures
        p.no_duplicates(),
        p.len() <= dg.n(),
{
    assert forall|k1: int, k2: int| 0 <= k1 < k2 < p.len() implies p[k1] != p[k2] by {
        lemma_path_ok_prefix(dg, budget, p, k2 + 1);
        lemma_path_ok_prefix(dg, budget, p, k2);
        let pre = p.take(k2);
        lemma_state(dg, budget, pre);
        assert(pre[k1] == p[k1]);
        assert(pre.contains(p[k1]));
        assert(bit(state_of(dg, budget, pre).opened, p[k1]));
        let upto = p.take(k2 + 1);
        assert(upto.drop_last() =~= pre);
        assert(upto.last() == p[k2]);
        assert(visit_ok(dg, state_of(dg, budget, pre), p[k2]));
    }
    lemma_state(dg, budget, p);
    p.unique_seq_to_set();
    vstd::set_lib::lemma_int_range(0, dg.n());
    assert(p.to_set().subset_of(vstd::set_lib::set_int_range(0, dg.n()))) by {
        assert forall|x: int| p.to_set().contains(x) implies vstd::set_lib::set_int_range(
            0,
            dg.n(),
        ).contains(x) by {
            assert(p.contains(x));
        }
    }
    vstd::set_lib::lemma_len_subset(p.to_set(), vstd::set_lib::set_int_range(0, dg.n()));
}

/// Raising the budget keeps every affordable path affordable, keeps its
/// opened set, and never lowers its value.
pub proof fn lemma_budget_monotone(dg: DistanceGraph, b1: u64, b2: u64, p: Seq<int>)
    requires
        dg.wf(),
        b1 <= b2,
        path_ok(dg, b1, p),
    ensures
        path_ok(dg, b2, p),
        state_of(dg, b2, p).at == state_of(dg, b1, p).at,
        state_of(dg, b2, p).opened == state_of(dg, b1, p).opened,
        state_of(dg, b2, p).rate == state_of(dg, b1, p).rate,
        state_of(dg, b2, p).released == state_of(dg, b1, p).released,
        state_of(dg, b2, p).time_left == state_of(dg, b1, p).time_left + (b2 - b1),
        mask_of(dg, b2, p) == mask_of(dg, b1, p),
        value_of(dg, b2, p) >= value_of(dg, b1, p),
    decreases p.len(),
{
    if p.len() > 0 {
        lemma_budget_monotone(dg, b1, b2, p.drop_last());
    }
    lemma_state(dg, b1, p);
    let s1 = state_of(dg, b1, p);
    let s2 = state_of(dg, b2, p);
    assert(s2.time_left * s2.rate - s1.time_left * s1.rate == (b2 - b1) * s1.rate)
        by (nonlinear_arith)
        requires
            s2.rate == s1.rate && s2.time_left == s1.time_left + (b2 - b1),
    ;
    vstd::arithmetic::mul::lemma_mul_nonnegative(b2 - b1, s1.rate);
}

/// The table records the path's bitmask with at least the path's value.
pub open spec fn covered(t: BestByMask, dg: DistanceGraph, budget: u64, p: Seq<int>) -> bool {
    &&& t.spec_has(mask_of(dg, budget, p))
    &&& value_of(dg, budget, p) <= t.spec_get(mask_of(dg, budget, p))
}

/// One queue entry of the breadth-first exploration: the executable fields
/// mirror the state of the ghost path that reached it.
struct QueueEntry {
    at: usize,
    time_left: u64,
    opened: u32,
    released: u64,
    rate: u64,
    path: Ghost<Seq<int>>,
}

spec fn entry_inv(dg: DistanceGraph, budget: u64, e: QueueEntry) -> bool {
    &&& path_ok(dg, budget, e.path@)
    &&& state_of(dg, budget, e.path@) == (SearchState {
        at: e.at as int,
        time_left: e.time_left as int,
        opened: e.opened,
        released: e.released as int,
        rate: e.rate as int,
    })
}

proof fn lemma_bit01(m: u32, j: int)
    requires
        0 <= j < 32,
    ensures
        bit(m, j) <==> ((m >> (j as u32)) & 1u32) != 0u32,
{
    let ju = j as u32;
    assert(((m >> ju) & 1u32) == 0u32 || ((m >> ju) & 1u32) == 1u32) by (bit_vector);
}

/// Explores every affordable path by breadth-first levels (one level per
/// node opened) and returns, for every reachable opened-set bitmask, the
/// best total release over all affordable paths opening exactly that set.
#[verifier::loop_isolation(false)]
#[verifier::rlimit(100)]
pub fn search(dg: &DistanceGraph, budget: u64) -> (r: BestByMask)
    requires
        dg.wf(),
        dg.fits(budget),
    ensures
        r.wf(),
        forall|m: u32| #[trigger]
            r.spec_has(m) ==> exists|p: Seq<int>|
                path_ok(*dg, budget, p) && mask_of(*dg, budget, p) == m && value_of(
                    *dg,
                    budget,
                    p,
                ) == r.spec_get(m),
        forall|p: Seq<int>| #[trigger] path_ok(*dg, budget, p) ==> covered(r, *dg, budget, p),
{
    let n = dg.node_count();
    let mut table = BestByMask::new();
    let init = QueueEntry {
        at: 0usize,
        time_left: budget,
        opened: 0u32,
        released: 0u64,
        rate: 0u64,
        path: Ghost(Seq::empty()),
    };
    proof {
        vstd::arithmetic::mul::lemma_mul_basics(budget as int);
        assert(entry_inv(*dg, budget, init));
        assert(value_of(*dg, budget, init.path@) == 0);
        assert(mask_of(*dg, budget, init.path@) == 0u32);
    }
    table.set_max(0u32, 0u64);
    let mut cur: Vec<QueueEntry> = Vec::new();
    cur.push(init);
    proof {
        assert forall|p: Seq<int>|
            #[trigger] path_ok(*dg, budget, p) && p.len() == 0 implies exists|i: int|
            0 <= i < cur@.len() && cur@[i].path@ == p by {
            assert(p =~= Seq::<int>::empty());
            assert(cur@[0].path@ == p);
        }
        assert forall|p: Seq<int>|
            #[trigger] path_ok(*dg, budget, p) && p.len() <= 0 implies covered(
            table,
            *dg,
            budget,
            p,
        ) by {
            assert(p =~= Seq::<int>::empty());
            assert(mask_of(*dg, budget, p) == 0u32);
            assert(value_of(*dg, budget, p) == 0);
        }
    }
    let width = crate::distance::MASK_WIDTH;
    for lvl in 0..(width + 1)
        invariant
            table.wf(),
            forall|m: u32| #[trigger]
                table.spec_has(m) ==> exists|p: Seq<int>|
                    path_ok(*dg, budget, p) && mask_of(*dg, budget, p) == m && value_of(
                        *dg,
                        budget,
                        p,
                    ) == table.spec_get(m),
            forall|p: Seq<int>|
                #[trigger] path_ok(*dg, budget, p) && p.len() <= lvl ==> covered(
                    table,
                    *dg,
                    budget,
                    p,
                ),
            forall|i: int|
                0 <= i < cur@.len() ==> entry_inv(*dg, budget, #[trigger] cur@[i]) && cur@[i].path@.len()
                    == lvl,
            forall|p: Seq<int>|
                #[trigger] path_ok(*dg, budget, p) && p.len() == lvl ==> exists|i: int|
                    0 <= i < cur@.len() && cur@[i].path@ == p,
    {
        let mut next: Vec<QueueEntry> = Vec::new();
        let clen = cur.len();
        for qi in 0..clen
            invariant
                table.wf(),
                forall|m: u32| #[trigger]
                    table.spec_has(m) ==> exists|p: Seq<int>|
                        path_ok(*dg, budget, p) && mask_of(*dg, budget, p) == m && value_of(
                            *dg,
                            budget,
                            p,
                        ) == table.spec_get(m),
                forall|p: Seq<int>|
                    #[trigger] path_ok(*dg, budget, p) && p.len() <= lvl ==> covered(
                        table,
                        *dg,
                        budget,
                        p,
                    ),
                forall|k: int|
                    0 <= k < next@.len() ==> entry_inv(*dg, budget, #[trigger] next@[k])
                        && next@[k].path@.len() == lvl + 1,
                forall|k: int|
                    0 <= k < next@.len() ==> covered(table, *dg, budget, (#[trigger] next@[k]).path@),
                forall|p: Seq<int>|
                    #[trigger] path_ok(*dg, budget, p) && p.len() == lvl + 1 && (exists|i: int|
                        0 <= i < qi && (#[trigger] cur@[i]).path@ == p.drop_last()) ==> exists|k: int|
                        0 <= k < next@.len() && next@[k].path@ == p,
        {
            let e_at = cur[qi].at;
            let e_time = cur[qi].time_left;
            let e_opened = cur[qi].opened;
            let e_released = cur[qi].released;
            let e_rate = cur[qi].rate;
            let ghost epath = cur@[qi as int].path@;
            proof {
                lemma_state(*dg, budget, epath);
            }
            for j in 0..n
                invariant
                    table.wf(),
                    forall|m: u32| #[trigger]
                        table.spec_has(m) ==> exists|p: Seq<int>|
                            path_ok(*dg, budget, p) && mask_of(*dg, budget, p) == m && value_of(
                                *dg,
                                budget,
                                p,
                            ) == table.spec_get(m),
                    forall|p: Seq<int>|
                        #[trigger] path_ok(*dg, budget, p) && p.len() <= lvl ==> covered(
                            table,
                            *dg,
                            budget,
                            p,
                        ),
                    forall|k: int|
                        0 <= k < next@.len() ==> entry_inv(*dg, budget, #[trigger] next@[k])
                            && next@[k].path@.len() == lvl + 1,
                    forall|k: int|
                        0 <= k < next@.len() ==> covered(
                            table,
                            *dg,
                            budget,
                            (#[trigger] next@[k]).path@,
                        ),
                    forall|p: Seq<int>|
                        #[trigger] path_ok(*dg, budget, p) && p.len() == lvl + 1 && (exists|i: int|
                            0 <= i < qi && (#[trigger] cur@[i]).path@ == p.drop_last()) ==> exists|
                            k: int,
                        |
                            0 <= k < next@.len() && next@[k].path@ == p,
                    forall|p: Seq<int>|
                        #[trigger] path_ok(*dg, budget, p) && p.len() == lvl + 1 && p.drop_last()
                            == epath && p.last() < j ==> exists|k: int|
                            0 <= k < next@.len() && next@[k].path@ == p,
            {
                let ghost onext = next@;
                let legal: bool;
                let mut dist_found: u64 = 0;
                if (e_opened >> (j as u32)) & 1u32 != 0u32 {
                    legal = false;
                } else {
                    match dg.dist_at(e_at, j) {
                        Some(d) => {
                            if e_time >= 1 && d <= e_time - 1 {
                                legal = true;
                                dist_found = d;
                            } else {
                                legal = false;
                            }
                        },
                        None => {
                            legal = false;
                        },
                    }
                }
                proof {
                    lemma_bit01(e_opened, j as int);
                }
                if legal {
                    let d = dist_found;
                    let ghost cp = epath.push(j as int);
                    proof {
                        assert(cp.drop_last() =~= epath);
                        assert(cp.last() == j as int);
                        assert(visit_ok(*dg, state_of(*dg, budget, epath), j as int));
                        assert(path_ok(*dg, budget, cp));
                        lemma_state(*dg, budget, cp);
                        lemma_value_bound(*dg, budget, cp);
                        let s = state_of(*dg, budget, epath);
                        let sc = state_of(*dg, budget, cp);
                        assert(sc == visit(*dg, s, j as int));
                        // the arithmetic below stays within u64
                        vstd::arithmetic::mul::lemma_mul_nonnegative(
                            sc.time_left,
                            sc.rate,
                        );
                        vstd::arithmetic::mul::lemma_mul_nonnegative(
                            (d + 1) as int,
                            s.rate,
                        );
                        assert(sc.released + sc.time_left * sc.rate <= budget * dg.total_rate());
                        assert(s.time_left == e_time as int);
                        assert(1 <= budget as int);
                        dg.lemma_total_rate_nonneg();
                        vstd::arithmetic::mul::lemma_mul_inequality(
                            1,
                            budget as int,
                            dg.total_rate(),
                        );
                        lemma_mask_rate_to_bounds(*dg, sc.opened, dg.n());
                    }
                    let cost = d + 1;
                    let nt = e_time - cost;
                    let nr = e_released + cost * e_rate;
                    let nrate = e_rate + dg.rate_at(j);
                    let nop = e_opened | (1u32 << (j as u32));
                    let closeout = nr + nt * nrate;
                    let ghost tbefore = table;
                    table.set_max(nop, closeout);
                    let child = QueueEntry {
                        at: j,
                        time_left: nt,
                        opened: nop,
                        released: nr,
                        rate: nrate,
                        path: Ghost(cp),
                    };
                    proof {
                        assert(entry_inv(*dg, budget, child));
                        assert(mask_of(*dg, budget, cp) == nop);
                        assert(value_of(*dg, budget, cp) == closeout as int);
                        // the table still only holds achieved values
                        assert forall|m: u32| #[trigger] table.spec_has(m) implies exists|
                            p: Seq<int>,
                        |
                            path_ok(*dg, budget, p) && mask_of(*dg, budget, p) == m && value_of(
                                *dg,
                                budget,
                                p,
                            ) == table.spec_get(m) by {
                            if m == nop {
                                if tbefore.spec_has(nop) && tbefore.spec_get(nop) >= closeout {
                                    let p0 = choose|p0: Seq<int>|
                                        path_ok(*dg, budget, p0) && mask_of(*dg, budget, p0) == m
                                            && value_of(*dg, budget, p0) == tbefore.spec_get(m);
                                    assert(path_ok(*dg, budget, p0) && mask_of(*dg, budget, p0)
                                        == m && value_of(*dg, budget, p0) == table.spec_get(m));
                                } else {
                                    assert(table.spec_get(nop) == closeout);
                                    assert(path_ok(*dg, budget, cp) && mask_of(*dg, budget, cp)
                                        == m && value_of(*dg, budget, cp) == table.spec_get(m));
                                }
                            } else {
                                let p0 = choose|p0: Seq<int>|
                                    path_ok(*dg, budget, p0) && mask_of(*dg, budget, p0) == m
                                        && value_of(*dg, budget, p0) == tbefore.spec_get(m);
                                assert(path_ok(*dg, budget, p0) && mask_of(*dg, budget, p0) == m
                                    && value_of(*dg, budget, p0) == table.spec_get(m));
                            }
                        }
                        // existing coverage is kept: values never shrink
                        assert forall|p: Seq<int>|
                            #[trigger] path_ok(*dg, budget, p) && covered(
                                tbefore,
                                *dg,
                                budget,
                                p,
                            ) implies covered(table, *dg, budget, p) by {
                            let m = mask_of(*dg, budget, p);
                            if m == nop {
                                assert(table.spec_get(m) >= tbefore.spec_get(m));
                            } else {
                                assert(table.spec_get(m) == tbefore.spec_get(m));
                            }
                        }
                    }
                    next.push(child);
                }
                proof {
                    assert forall|p: Seq<int>|
                        #[trigger] path_ok(*dg, budget, p) && p.len() == lvl + 1 && p.drop_last()
                            == epath && p.last() < j + 1 implies exists|k: int|
                        0 <= k < next@.len() && next@[k].path@ == p by {
                        if p.last() == j {
                            assert(p =~= epath.push(j as int));
                            assert(visit_ok(*dg, state_of(*dg, budget, epath), j as int));
                            if !legal {
                                assert(false);
                            }
                            assert(next@[next@.len() - 1].path@ == p);
                        } else {
                            assert(p.last() < j);
                            let k0 = choose|k: int|
                                0 <= k < onext.len() && (#[trigger] onext[k]).path@ == p;
                            assert(next@[k0].path@ == p);
                        }
                    }
                    assert forall|p: Seq<int>|
                        #[trigger] path_ok(*dg, budget, p) && p.len() == lvl + 1 && (exists|i: int|
                            0 <= i < qi && (#[trigger] cur@[i]).path@ == p.drop_last()) implies exists|
                        k: int,
                    |
                        0 <= k < next@.len() && next@[k].path@ == p by {
                        let k0 = choose|k: int|
                            0 <= k < onext.len() && (#[trigger] onext[k]).path@ == p;
                        assert(next@[k0].path@ == p);
                    }
                }
            }
            proof {
                assert forall|p: Seq<int>|
                    #[trigger] path_ok(*dg, budget, p) && p.len() == lvl + 1 && (exists|i: int|
                        0 <= i < qi + 1 && (#[trigger] cur@[i]).path@ == p.drop_last()) implies exists|
                    k: int,
                |
                    0 <= k < next@.len() && next@[k].path@ == p by {
                    let i = choose|i: int|
                        0 <= i < qi + 1 && (#[trigger] cur@[i]).path@ == p.drop_last();
                    if i == qi {
                        lemma_state(*dg, budget, p);
                        assert(p.last() < n);
                        assert(p[p.len() - 1] == p.last());
                    }
                }
            }
        }
        proof {
            // every affordable path one level deeper is now in `next` and
            // recorded in the table
            assert forall|p: Seq<int>|
                #[trigger] path_ok(*dg, budget, p) && p.len() == lvl + 1 implies covered(
                table,
                *dg,
                budget,
                p,
            ) && exists|k: int| 0 <= k < next@.len() && next@[k].path@ == p by {
                assert(path_ok(*dg, budget, p.drop_last()));
                assert(p.drop_last().len() == lvl);
                let i = choose|i: int| 0 <= i < cur@.len() && (#[trigger] cur@[i]).path@ == p.drop_last();
                assert(0 <= i < clen && cur@[i].path@ == p.drop_last());
                let k = choose|k: int| 0 <= k < next@.len() && (#[trigger] next@[k]).path@ == p;
                assert(covered(table, *dg, budget, next@[k].path@));
            }
        }
        cur = next;
    }
    proof {
        assert forall|p: Seq<int>| #[trigger] path_ok(*dg, budget, p) implies covered(
            table,
            *dg,
            budget,
            p,
        ) by {
            lemma_path_len(*dg, budget, p);
        }
    }
    table
}

/// The single best total release achievable within the budget, over all
/// affordable paths.
#[verifier::loop_isolation(false)]
pub fn best_total(dg: &DistanceGraph, budget: u64) -> (r: u64)
    requires
        dg.wf(),
        dg.fits(budget),
    ensures
        exists|p: Seq<int>|
            path_ok(*dg, budget, p) && value_of(*dg, budget, p) == r,
        forall|p: Seq<int>| #[trigger] path_ok(*dg, budget, p) ==> value_of(*dg, budget, p) <= r,
{
    let t = search(dg, budget);
    let cnt = t.count();
    let mut best: u64 = 0;
    let ghost mut wit: Seq<int> = Seq::empty();
    proof {
        vstd::arithmetic::mul::lemma_mul_basics(budget as int);
        assert(path_ok(*dg, budget, wit));
        assert(value_of(*dg, budget, wit) == 0);
    }
    for k in 0..cnt
        invariant
            path_ok(*dg, budget, wit),
            value_of(*dg, budget, wit) == best as int,
            forall|kk: int| 0 <= kk < k ==> (#[trigger] t.entry(kk)).1 <= best,
    {
        let (m, v) = t.entry_at(k);
        if v > best {
            best = v;
            proof {
                t.lemma_entry(k as int);
                assert(t.spec_has(m));
                wit = choose|p: Seq<int>|
                    path_ok(*dg, budget, p) && mask_of(*dg, budget, p) == m && value_of(
                        *dg,
                        budget,
                        p,
                    ) == t.spec_get(m);
            }
        }
    }
    proof {
        assert forall|p: Seq<int>| #[trigger] path_ok(*dg, budget, p) implies value_of(
            *dg,
            budget,
            p,
        ) <= best by {
            assert(covered(t, *dg, budget, p));
            let m = mask_of(*dg, budget, p);
            let kk = choose|kk: int| 0 <= kk < t.len() && (#[trigger] t.entry(kk)).0 == m;
            t.lemma_entry(kk);
        }
    }
    best
}

/// With no time at all, only the empty path is affordable, and it releases
/// nothing.
pub proof fn lemma_zero_budget(dg: DistanceGraph, p: Seq<int>)
    requires
        dg.wf(),
        path_ok(dg, 0u64, p),
    ensures
        p.len() == 0,
        value_of(dg, 0u64, p) == 0,
{
    if p.len() > 0 {
        lemma_state(dg, 0u64, p.drop_last());
    }
}


/// Per-level best optimistic scores, keyed by remaining time.
pub struct TimeScores {
    items: Vec<(u64, u128)>,
}

impl TimeScores {
    /// The table entries.
    pub closed spec fn entries(self) -> Seq<(u64, u128)> {
        self.items@
    }

    /// Each remaining-time key appears at most once.
    pub open spec fn wf(self) -> bool {
        forall|k1: int, k2: int|
            0 <= k1 < k2 < self.entries().len() ==> (#[trigger] self.entries()[k1]).0 != (
            #[trigger] self.entries()[k2]).0
    }

    /// Whether a level has a score.
    pub open spec fn spec_has(self, t: u64) -> bool {
        exists|k: int| 0 <= k < self.entries().len() && (#[trigger] self.entries()[k]).0 == t
    }

    /// An empty score table.
    pub fn new() -> (r: TimeScores)
        ensures
            r.wf(),
    {
        TimeScores { items: Vec::new() }
    }

    /// The score recorded for a level.
    pub fn get(&self, t: u64) -> (r: Option<u128>)
        requires
            self.wf(),
        ensures
            r is Some <==> self.spec_has(t),
    {
        let end = self.items.len();
        for k in 0..end
            invariant
                end == self.entries().len(),
                forall|kk: int| 0 <= kk < k ==> (#[trigger] self.entries()[kk]).0 != t,
        {
            if self.items[k].0 == t {
                return Some(self.items[k].1);
            }
        }
        None
    }

    /// Raises a level's best score to at least `v`.
    pub fn set_max(&mut self, t: u64, v: u128) -> (r: u128)
        requires
            old(self).wf(),
        ensures
            final(self).wf(),
            final(self).spec_has(t),
            r >= v,
    {
        let end = self.items.len();
        for k in 0..end
            invariant
                end == self.entries().len(),
                self.wf(),
                *self == *old(self),
                forall|kk: int| 0 <= kk < k ==> (#[trigger] self.entries()[kk]).0 != t,
        {
            if self.items[k].0 == t {
                if v > self.items[k].1 {
                    let ghost prior = self.entries();
                    self.items[k] = (t, v);
                    proof {
                        assert forall|k1: int, k2: int|
                            0 <= k1 < k2 < self.entries().len() implies (
                        #[trigger] self.entries()[k1]).0 != (#[trigger] self.entries()[k2]).0 by {
                            assert(prior[k1].0 != prior[k2].0);
                        }
                        assert(self.entries()[k as int].0 == t);
                    }
                    return v;
                }
                return self.items[k].1;
            }
        }
        let ghost prior = self.entries();
        self.items.push((t, v));
        proof {
            assert forall|k1: int, k2: int| 0 <= k1 < k2 < self.entries().len() implies (
            #[trigger] self.entries()[k1]).0 != (#[trigger] self.entries()[k2]).0 by {
                if k2 == self.entries().len() - 1 {
                    assert(prior[k1].0 != t);
                } else {
                    assert(prior[k1].0 != prior[k2].0);
                }
            }
            assert(self.entries()[self.entries().len() - 1].0 == t);
        }
        v
    }
}

/// The (node, time left, opened set) triples already expanded.
pub struct SeenTriples {
    items: Vec<(usize, u64, u32)>,
}

impl SeenTriples {
    /// The recorded triples.
    pub closed spec fn entries(self) -> Seq<(usize, u64, u32)> {
        self.items@
    }

    /// An empty record.
    pub fn new() -> (r: SeenTriples)
        ensures
            r.entries() == Seq::<(usize, u64, u32)>::empty(),
    {
        SeenTriples { items: Vec::new() }
    }

    /// Whether the triple was recorded before.
    pub fn contains(&self, at: usize, time_left: u64, opened: u32) -> (r: bool)
        ensures
            r == self.entries().contains((at, time_left, opened)),
    {
        let end = self.items.len();
        for k in 0..end
            invariant
                end == self.entries().len(),
                forall|kk: int| 0 <= kk < k ==> (#[trigger] self.entries()[kk]) != (
                    at,
                    time_left,
                    opened,
                ),
        {
            let e = self.items[k];
            if e.0 == at && e.1 == time_left && e.2 == opened {
                proof {
                    assert(self.entries()[k as int] == (at, time_left, opened));
                }
                return true;
            }
        }
        proof {
            if self.entries().contains((at, time_left, opened)) {
                let k = choose|k: int|
                    0 <= k < self.entries().len() && (#[trigger] self.entries()[k]) == (
                        at,
                        time_left,
                        opened,
                    );
                assert(false);
            }
        }
        false
    }

    /// Records a triple.
    pub fn insert(&mut self, at: usize, time_left: u64, opened: u32)
        ensures
            final(self).entries() == old(self).entries().push((at, time_left, opened)),
    {
        self.items.push((at, time_left, opened));
    }
}

/// Branch-and-bound variant of the search: an optimistic score (banked
/// release plus remaining time plus current rate) is kept per remaining-time
/// level, a state whose score falls more than `slack` below its level's best
/// is not expanded, and an already-expanded (node, time, opened) triple is
/// not expanded again. A performance mode: every entry of the result is
/// still achieved by some affordable path, but entries of the exhaustive
/// `search` may be missing or lower here.
#[verifier::loop_isolation(false)]
#[verifier::rlimit(100)]
pub fn search_pruned(dg: &DistanceGraph, budget: u64, slack: u64) -> (r: BestByMask)
    requires
        dg.wf(),
        dg.fits(budget),
    ensures
        r.wf(),
        r.spec_has(0u32),
        forall|m: u32| #[trigger]
            r.spec_has(m) ==> exists|p: Seq<int>|
                path_ok(*dg, budget, p) && mask_of(*dg, budget, p) == m && value_of(
                    *dg,
                    budget,
                    p,
                ) == r.spec_get(m),
{
    let n = dg.node_count();
    let mut table = BestByMask::new();
    let mut scores = TimeScores::new();
    let mut seen = SeenTriples::new();
    let init = QueueEntry {
        at: 0usize,
        time_left: budget,
        opened: 0u32,
        released: 0u64,
        rate: 0u64,
        path: Ghost(Seq::empty()),
    };
    proof {
        vstd::arithmetic::mul::lemma_mul_basics(budget as int);
        assert(entry_inv(*dg, budget, init));
        assert(value_of(*dg, budget, init.path@) == 0);
        assert(mask_of(*dg, budget, init.path@) == 0u32);
    }
    table.set_max(0u32, 0u64);
    let mut cur: Vec<QueueEntry> = Vec::new();
    cur.push(init);
    let width = crate::distance::MASK_WIDTH;
    for _lvl in 0..(width + 1)
        invariant
            table.wf(),
            scores.wf(),
            table.spec_has(0u32),
            forall|m: u32| #[trigger]
                table.spec_has(m) ==> exists|p: Seq<int>|
                    path_ok(*dg, budget, p) && mask_of(*dg, budget, p) == m && value_of(
                        *dg,
                        budget,
                        p,
                    ) == table.spec_get(m),
            forall|i: int| 0 <= i < cur@.len() ==> entry_inv(*dg, budget, #[trigger] cur@[i]),
    {
        let mut next: Vec<QueueEntry> = Vec::new();
        let clen = cur.len();
        for qi in 0..clen
            invariant
                table.wf(),
                scores.wf(),
                table.spec_has(0u32),
                forall|m: u32| #[trigger]
                    table.spec_has(m) ==> exists|p: Seq<int>|
                        path_ok(*dg, budget, p) && mask_of(*dg, budget, p) == m && value_of(
                            *dg,
                            budget,
                            p,
                        ) == table.spec_get(m),
                forall|i: int| 0 <= i < cur@.len() ==> entry_inv(*dg, budget, #[trigger] cur@[i]),
                forall|k: int| 0 <= k < next@.len() ==> entry_inv(*dg, budget, #[trigger] next@[k]),
        {
            let e_at = cur[qi].at;
            let e_time = cur[qi].time_left;
            let e_opened = cur[qi].opened;
            let e_released = cur[qi].released;
            let e_rate = cur[qi].rate;
            let ghost epath = cur@[qi as int].path@;
            proof {
                lemma_state(*dg, budget, epath);
            }
            if !seen.contains(e_at, e_time, e_opened) {
                seen.insert(e_at, e_time, e_opened);
                let sc: u128 = e_released as u128 + e_time as u128 + e_rate as u128;
                let best_here = scores.set_max(e_time, sc);
                if sc + slack as u128 >= best_here {
                    for j in 0..n
                        invariant
                            table.wf(),
                            scores.wf(),
                            table.spec_has(0u32),
                            forall|m: u32| #[trigger]
                                table.spec_has(m) ==> exists|p: Seq<int>|
                                    path_ok(*dg, budget, p) && mask_of(*dg, budget, p) == m
                                        && value_of(*dg, budget, p) == table.spec_get(m),
                            forall|i: int|
                                0 <= i < cur@.len() ==> entry_inv(*dg, budget, #[trigger] cur@[i]),
                            forall|k: int|
                                0 <= k < next@.len() ==> entry_inv(
                                    *dg,
                                    budget,
                                    #[trigger] next@[k],
                                ),
                    {
                        let legal: bool;
                        let mut dist_found: u64 = 0;
                        if (e_opened >> (j as u32)) & 1u32 != 0u32 {
                            legal = false;
                        } else {
                            match dg.dist_at(e_at, j) {
                                Some(d) => {
                                    if e_time >= 1 && d <= e_time - 1 {
                                        legal = true;
                                        dist_found = d;
                                    } else {
                                        legal = false;
                                    }
                                },
                                None => {
                                    legal = false;
                                },
                            }
                        }
                        proof {
                            lemma_bit01(e_opened, j as int);
                        }
                        if legal {
                            let d = dist_found;
                            let ghost cp = epath.push(j as int);
                            proof {
                                assert(cp.drop_last() =~= epath);
                                assert(cp.last() == j as int);
                                assert(visit_ok(*dg, state_of(*dg, budget, epath), j as int));
                                assert(path_ok(*dg, budget, cp));
                                lemma_state(*dg, budget, cp);
                                lemma_value_bound(*dg, budget, cp);
                                let s = state_of(*dg, budget, epath);
                                let sc2 = state_of(*dg, budget, cp);
                                assert(sc2 == visit(*dg, s, j as int));
                                vstd::arithmetic::mul::lemma_mul_nonnegative(
                                    sc2.time_left,
                                    sc2.rate,
                                );
                                vstd::arithmetic::mul::lemma_mul_nonnegative(
                                    (d + 1) as int,
                                    s.rate,
                                );
                                assert(sc2.released + sc2.time_left * sc2.rate <= budget
                                    * dg.total_rate());
                                assert(s.time_left == e_time as int);
                                assert(1 <= budget as int);
                                dg.lemma_total_rate_nonneg();
                                vstd::arithmetic::mul::lemma_mul_inequality(
                                    1,
                                    budget as int,
                                    dg.total_rate(),
                                );
                                lemma_mask_rate_to_bounds(*dg, sc2.opened, dg.n());
                            }
                            let cost = d + 1;
                            let nt = e_time - cost;
                            let nr = e_released + cost * e_rate;
                            let nrate = e_rate + dg.rate_at(j);
                            let nop = e_opened | (1u32 << (j as u32));
                            let closeout = nr + nt * nrate;
                            let ghost tbefore = table;
                            table.set_max(nop, closeout);
                            let child = QueueEntry {
                                at: j,
                                time_left: nt,
                                opened: nop,
                                released: nr,
                                rate: nrate,
                                path: Ghost(cp),
                            };
                            proof {
                                assert(entry_inv(*dg, budget, child));
                                assert(mask_of(*dg, budget, cp) == nop);
                                assert(value_of(*dg, budget, cp) == closeout as int);
                                assert forall|m: u32| #[trigger] table.spec_has(m) implies exists|
                                    p: Seq<int>,
                                |
                                    path_ok(*dg, budget, p) && mask_of(*dg, budget, p) == m
                                        && value_of(*dg, budget, p) == table.spec_get(m) by {
                                    if m == nop {
                                        if tbefore.spec_has(nop) && tbefore.spec_get(nop)
                                            >= closeout {
                                            let p0 = choose|p0: Seq<int>|
                                                path_ok(*dg, budget, p0) && mask_of(
                                                    *dg,
                                                    budget,
                                                    p0,
                                                ) == m && value_of(*dg, budget, p0)
                                                    == tbefore.spec_get(m);
                                            assert(path_ok(*dg, budget, p0) && mask_of(
                                                *dg,
                                                budget,
                                                p0,
                                            ) == m && value_of(*dg, budget, p0) == table.spec_get(
                                                m,
                                            ));
                                        } else {
                                            assert(table.spec_get(nop) == closeout);
                                            assert(path_ok(*dg, budget, cp) && mask_of(
                                                *dg,
                                                budget,
                                                cp,
                                            ) == m && value_of(*dg, budget, cp) == table.spec_get(
                                                m,
                                            ));
                                        }
                                    } else {
                                        let p0 = choose|p0: Seq<int>|
                                            path_ok(*dg, budget, p0) && mask_of(*dg, budget, p0)
                                                == m && value_of(*dg, budget, p0)
                                                == tbefore.spec_get(m);
                                        assert(path_ok(*dg, budget, p0) && mask_of(
                                            *dg,
                                            budget,
                                            p0,
                                        ) == m && value_of(*dg, budget, p0) == table.spec_get(m));
                                    }
                                }
                            }
                            next.push(child);
                        }
                    }
                }
            }
        }
        cur = next;
    }
    table
}

} // verus!
