//! Graph compression: breadth-first hop distances over the raw network,
//! restricted to the interesting nodes (non-zero rate, plus the start node).

use vstd::prelude::*;

use crate::distance::{DistanceGraph, GraphError, MASK_WIDTH};
use crate::graph::NodeGraph;

verus! {

/// `dst` lies within `k` hops of `src`.
pub open spec fn reach(g: NodeGraph, src: int, dst: int, k: nat) -> bool
    decreases k,
{
    if k == 0 {
        src == dst
    } else {
        reach(g, src, dst, (k - 1) as nat) || exists|m: int|
            0 <= m < g.n() && reach(g, src, m, (k - 1) as nat) && #[trigger] g.edge(m, dst)
    }
}

/// `d` is the exact hop distance from `src` to `dst`.
pub open spec fn is_dist(g: NodeGraph, src: int, dst: int, d: int) -> bool {
    &&& d >= 0
    &&& reach(g, src, dst, d as nat)
    &&& (d == 0 || !reach(g, src, dst, (d - 1) as nat))
}

/// No number of hops leads from `src` to `dst`.
pub open spec fn unreachable(g: NodeGraph, src: int, dst: int) -> bool {
    forall|k: nat| !reach(g, src, dst, k)
}

proof fn lemma_reach_mono(g: NodeGraph, src: int, dst: int, k1: nat, k2: nat)
    requires
        reach(g, src, dst, k1),
        k1 <= k2,
    ensures
        reach(g, src, dst, k2),
    decreases k2,
{
    if k2 > k1 {
        lemma_reach_mono(g, src, dst, k1, (k2 - 1) as nat);
    }
}

proof fn lemma_min_dist(g: NodeGraph, src: int, dst: int, k: nat)
    requires
        reach(g, src, dst, k),
    ensures
        exists|d: int| 0 <= d <= k && #[trigger] is_dist(g, src, dst, d),
    decreases k,
{
    if k == 0 {
        assert(is_dist(g, src, dst, 0));
    } else if reach(g, src, dst, (k - 1) as nat) {
        lemma_min_dist(g, src, dst, (k - 1) as nat);
    } else {
        assert(is_dist(g, src, dst, k as int));
    }
}

proof fn lemma_dist_unique(g: NodeGraph, src: int, dst: int, d1: int, d2: int)
    requires
        is_dist(g, src, dst, d1),
        is_dist(g, src, dst, d2),
    ensures
        d1 == d2,
{
    if d1 < d2 {
        lemma_reach_mono(g, src, dst, d1 as nat, (d2 - 1) as nat);
    }
    if d2 < d1 {
        lemma_reach_mono(g, src, dst, d2 as nat, (d1 - 1) as nat);
    }
}

spec fn count_some(s: Seq<Option<u64>>) -> int
    decreases s.len(),
{
    if s.len() == 0 {
        0
    } else {
        count_some(s.drop_last()) + if s.last() is Some {
            1int
        } else {
            0int
        }
    }
}

proof fn lemma_count_some_le_len(s: Seq<Option<u64>>)
    ensures
        0 <= count_some(s) <= s.len(),
    decreases s.len(),
{
    if s.len() > 0 {
        lemma_count_some_le_len(s.drop_last());
    }
}

proof fn lemma_count_some_update(s: Seq<Option<u64>>, i: int, v: u64)
    requires
        0 <= i < s.len(),
        s[i] is None,
    ensures
        count_some(s.update(i, Some(v))) == count_some(s) + 1,
    decreases s.len(),
{
    let t = s.update(i, Some(v));
    if i == s.len() - 1 {
        assert(t.drop_last() =~= s.drop_last());
    } else {
        assert(t.drop_last() =~= s.drop_last().update(i, Some(v)));
        lemma_count_some_update(s.drop_last(), i, v);
        assert(t.last() == s.last());
    }
}

/// A node is in the frontier sequence.
spec fn in_frontier(f: Seq<usize>, v: int) -> bool {
    exists|fi: int| 0 <= fi < f.len() && (#[trigger] f[fi]) as int == v
}

/// Breadth-first hop distances from `src` to every node: `Some(d)` is the
/// exact distance, `None` means unreachable.
#[verifier::loop_isolation(false)]
#[verifier::rlimit(100)]
pub fn bfs_dists(g: &NodeGraph, src: usize) -> (dist: Vec<Option<u64>>)
    requires
        g.wf(),
        0 <= src < g.n(),
    ensures
        dist@.len() == g.n(),
        forall|v: int|
            0 <= v < g.n() && (#[trigger] dist@[v]) is Some ==> is_dist(
                *g,
                src as int,
                v,
                dist@[v]->0 as int,
            ),
        forall|v: int|
            0 <= v < g.n() && (#[trigger] dist@[v]) is None ==> unreachable(*g, src as int, v),
{
    let n = g.node_count();
    let mut dist: Vec<Option<u64>> = Vec::new();
    for _z in 0..n
        invariant
            dist@.len() == _z,
            count_some(dist@) == 0,
            forall|v: int| 0 <= v < _z ==> (#[trigger] dist@[v]) is None,
    {
        let ghost before = dist@;
        dist.push(None);
        proof {
            assert(dist@.drop_last() =~= before);
        }
    }
    let ghost pre = dist@;
    dist[src] = Some(0);
    proof {
        lemma_count_some_update(pre, src as int, 0);
    }
    let mut labeled: usize = 1;
    let mut frontier: Vec<usize> = Vec::new();
    frontier.push(src);
    let mut level: u64 = 0;
    proof {
        assert(reach(*g, src as int, src as int, 0));
        assert(is_dist(*g, src as int, src as int, 0));
        assert forall|v: int|
            0 <= v < g.n() && (#[trigger] dist@[v]) is Some && dist@[v]->0 == 0 implies in_frontier(
            frontier@,
            v,
        ) by {
            assert(v == src as int);
            assert(frontier@[0] as int == v);
        }
        assert forall|v: int, dv: int|
            0 <= v < g.n() && #[trigger] is_dist(*g, src as int, v, dv) && dv <= 0 implies (
        #[trigger] dist@[v]) is Some by {
            assert(reach(*g, src as int, v, 0));
            assert(v == src as int);
        }
    }
    while frontier.len() > 0
        invariant
            dist@.len() == g.n(),
            labeled == count_some(dist@),
            frontier@.len() > 0 ==> level < labeled,
            labeled <= g.n(),
            // recorded distances are exact and no deeper than the level
            forall|v: int|
                0 <= v < g.n() && (#[trigger] dist@[v]) is Some ==> is_dist(
                    *g,
                    src as int,
                    v,
                    dist@[v]->0 as int,
                ) && dist@[v]->0 <= level,
            // the frontier is exactly the nodes at the current level
            forall|fi: int|
                0 <= fi < frontier@.len() ==> (#[trigger] frontier@[fi]) < g.n(),
            forall|fi: int|
                0 <= fi < frontier@.len() ==> (#[trigger] dist@[frontier@[fi] as int]) is Some
                    && dist@[frontier@[fi] as int]->0 == level,
            forall|v: int|
                0 <= v < g.n() && (#[trigger] dist@[v]) is Some && dist@[v]->0 == level
                    ==> in_frontier(frontier@, v),
            // every node within `level` hops is labeled
            forall|v: int, dv: int|
                0 <= v < g.n() && #[trigger] is_dist(*g, src as int, v, dv) && dv <= level ==> (
                #[trigger] dist@[v]) is Some,
            // nodes strictly below the level have all neighbors labeled
            forall|v: int, w: int|
                0 <= v < g.n() && (#[trigger] dist@[v]) is Some && dist@[v]->0 < level && #[trigger] g.edge(
                    v,
                    w,
                ) && 0 <= w < g.n() ==> dist@[w] is Some,
        decreases g.n() - labeled + (if frontier@.len() > 0 { 1int } else { 0int }),
    {
        let mut next: Vec<usize> = Vec::new();
        let ghost lab0 = labeled as int;
        let flen = frontier.len();
        for fi in 0..flen
            invariant
                dist@.len() == g.n(),
                labeled == count_some(dist@),
                labeled == lab0 + next@.len(),
                labeled <= g.n(),
                level < labeled,
                forall|v: int|
                    0 <= v < g.n() && (#[trigger] dist@[v]) is Some ==> is_dist(
                        *g,
                        src as int,
                        v,
                        dist@[v]->0 as int,
                    ) && dist@[v]->0 <= level + 1,
                forall|fi2: int|
                    0 <= fi2 < frontier@.len() ==> (#[trigger] dist@[frontier@[fi2] as int]) is Some
                        && dist@[frontier@[fi2] as int]->0 == level,
                forall|v: int|
                    0 <= v < g.n() && (#[trigger] dist@[v]) is Some && dist@[v]->0 == level
                        ==> in_frontier(frontier@, v),
                // next holds exactly the nodes labeled level + 1
                forall|ni: int|
                    0 <= ni < next@.len() ==> (#[trigger] next@[ni]) < g.n(),
                forall|ni: int|
                    0 <= ni < next@.len() ==> (#[trigger] dist@[next@[ni] as int]) is Some
                        && dist@[next@[ni] as int]->0 == level + 1,
                forall|v: int|
                    0 <= v < g.n() && (#[trigger] dist@[v]) is Some && dist@[v]->0 == level + 1
                        ==> in_frontier(next@, v),
                forall|v: int, dv: int|
                    0 <= v < g.n() && #[trigger] is_dist(*g, src as int, v, dv) && dv <= level
                        ==> (#[trigger] dist@[v]) is Some,
                // processed frontier nodes have all neighbors labeled
                forall|v: int, w: int|
                    0 <= v < g.n() && (#[trigger] dist@[v]) is Some && dist@[v]->0 < level
                        && #[trigger] g.edge(v, w) && 0 <= w < g.n() ==> dist@[w] is Some,
                forall|fi2: int, w: int|
                    0 <= fi2 < fi && 0 <= w < g.n() && #[trigger] g.edge(
                        frontier@[fi2] as int,
                        w,
                    ) ==> dist@[w] is Some,
        {
            let u = frontier[fi];
            let deg = g.degree(u);
            for wi in 0..deg
                invariant
                    dist@.len() == g.n(),
                    labeled == count_some(dist@),
                    labeled == lab0 + next@.len(),
                    labeled <= g.n(),
                    level < labeled,
                    deg == g.adj(u as int).len(),
                    u < g.n(),
                    dist@[u as int] is Some && dist@[u as int]->0 == level,
                    forall|v: int|
                        0 <= v < g.n() && (#[trigger] dist@[v]) is Some ==> is_dist(
                            *g,
                            src as int,
                            v,
                            dist@[v]->0 as int,
                        ) && dist@[v]->0 <= level + 1,
                    forall|fi2: int|
                        0 <= fi2 < frontier@.len() ==> (#[trigger] dist@[frontier@[fi2] as int]) is Some
                            && dist@[frontier@[fi2] as int]->0 == level,
                    forall|v: int|
                        0 <= v < g.n() && (#[trigger] dist@[v]) is Some && dist@[v]->0 == level
                            ==> in_frontier(frontier@, v),
                    forall|ni: int|
                        0 <= ni < next@.len() ==> (#[trigger] next@[ni]) < g.n(),
                    forall|ni: int|
                        0 <= ni < next@.len() ==> (#[trigger] dist@[next@[ni] as int]) is Some
                            && dist@[next@[ni] as int]->0 == level + 1,
                    forall|v: int|
                        0 <= v < g.n() && (#[trigger] dist@[v]) is Some && dist@[v]->0 == level + 1
                            ==> in_frontier(next@, v),
                    forall|v: int, dv: int|
                        0 <= v < g.n() && #[trigger] is_dist(*g, src as int, v, dv) && dv <= level
                            ==> (#[trigger] dist@[v]) is Some,
                    forall|v: int, w: int|
                        0 <= v < g.n() && (#[trigger] dist@[v]) is Some && dist@[v]->0 < level
                            && #[trigger] g.edge(v, w) && 0 <= w < g.n() ==> dist@[w] is Some,
                    forall|fi2: int, w: int|
                        0 <= fi2 < fi && 0 <= w < g.n() && #[trigger] g.edge(
                            frontier@[fi2] as int,
                            w,
                        ) ==> dist@[w] is Some,
                    // neighbors of u seen so far are labeled
                    forall|k: int|
                        0 <= k < wi ==> (#[trigger] dist@[g.adj(u as int)[k] as int]) is Some,
                    forall|fi2: int|
                        0 <= fi2 < frontier@.len() ==> (#[trigger] frontier@[fi2]) < g.n(),
            {
                let w = g.neighbor(u, wi);
                let ghost onext = next@;
                if dist[w].is_none() {
                    proof {
                        // u is at `level`, so w is reachable in level + 1 hops
                        assert(reach(*g, src as int, u as int, level as nat));
                        assert(g.edge(u as int, w as int));
                        assert(reach(*g, src as int, w as int, (level + 1) as nat));
                        // and in no fewer, else it would already be labeled
                        if reach(*g, src as int, w as int, level as nat) {
                            lemma_min_dist(*g, src as int, w as int, level as nat);
                            assert(false);
                        }
                        assert(is_dist(*g, src as int, w as int, level + 1));
                        lemma_count_some_update(dist@, w as int, (level + 1) as u64);
                    }
                    dist[w] = Some(level + 1);
                    proof {
                        lemma_count_some_le_len(dist@);
                    }
                    labeled = labeled + 1;
                    next.push(w);
                    proof {
                        assert forall|v: int|
                            0 <= v < g.n() && (#[trigger] dist@[v]) is Some && dist@[v]->0 == level
                                + 1 implies in_frontier(next@, v) by {
                            if v == w as int {
                                assert(next@[next@.len() - 1] as int == v);
                            } else {
                                let ni = choose|ni: int|
                                    0 <= ni < onext.len() && (#[trigger] onext[ni]) as int == v;
                                assert(next@[ni] as int == v);
                            }
                        }
                    }
                }
            }
            proof {
                // all of u's neighbors are now labeled
                assert forall|w: int|
                    0 <= w < g.n() && #[trigger] g.edge(u as int, w) implies dist@[w] is Some by {
                    let k = choose|k: int|
                        0 <= k < g.adj(u as int).len() && (#[trigger] g.adj(u as int)[k]) as int
                            == w;
                    assert(dist@[g.adj(u as int)[k] as int] is Some);
                }
            }
        }
        proof {
            // after expanding the whole frontier, everything within
            // level + 1 hops is labeled
            assert forall|v: int, dv: int|
                0 <= v < g.n() && #[trigger] is_dist(*g, src as int, v, dv) && dv <= level
                    + 1 implies (#[trigger] dist@[v]) is Some by {
                if dv == level + 1 {
                    assert(reach(*g, src as int, v, (level + 1) as nat));
                    assert(!reach(*g, src as int, v, level as nat));
                    let m = choose|m: int|
                        0 <= m < g.n() && reach(*g, src as int, m, level as nat) && #[trigger] g.edge(
                            m,
                            v,
                        );
                    lemma_min_dist(*g, src as int, m, level as nat);
                    let dm = choose|dm: int| 0 <= dm <= level && #[trigger] is_dist(*g, src as int, m, dm);
                    assert(dist@[m] is Some);
                    lemma_dist_unique(*g, src as int, m, dist@[m]->0 as int, dm);
                    if dm < level {
                        assert(dist@[v] is Some);
                    } else {
                        assert(in_frontier(frontier@, m));
                        let fi2 = choose|fi2: int|
                            0 <= fi2 < frontier@.len() && (#[trigger] frontier@[fi2]) as int == m;
                        assert(dist@[v] is Some);
                    }
                }
            }
            // nodes at the old level were all in the frontier, so the closure
            // property now extends to them
            assert forall|v: int, w: int|
                0 <= v < g.n() && (#[trigger] dist@[v]) is Some && dist@[v]->0 < level + 1
                    && #[trigger] g.edge(v, w) && 0 <= w < g.n() implies dist@[w] is Some by {
                if dist@[v]->0 == level {
                    assert(in_frontier(frontier@, v));
                    let fi2 = choose|fi2: int|
                        0 <= fi2 < frontier@.len() && (#[trigger] frontier@[fi2]) as int == v;
                }
            }
        }
        frontier = next;
        level = level + 1;
    }
    proof {
        assert forall|v: int| 0 <= v < g.n() && (#[trigger] dist@[v]) is Some implies dist@[v]->0
            < level by {
            if dist@[v]->0 == level {
                assert(in_frontier(frontier@, v));
            }
        }
        // an empty frontier means the labeled set is closed under edges, so
        // unlabeled nodes are unreachable at every hop count
        assert(is_dist(*g, src as int, src as int, 0)) by {
            assert(reach(*g, src as int, src as int, 0));
        }
        assert(dist@[src as int] is Some);
        assert forall|v: int, k: nat|
            0 <= v < g.n() && dist@[v] is None implies !(#[trigger] reach(*g, src as int, v, k)) by {
            lemma_bfs_closure(*g, src as int, dist@, level as int, k);
        }
    }
    dist
}

/// The interesting nodes beyond the start among the first `k`: non-zero
/// rate, in increasing node order.
pub open spec fn others(g: NodeGraph, start: int, k: int) -> Seq<usize>
    decreases k,
{
    if k <= 0 {
        Seq::empty()
    } else {
        others(g, start, k - 1) + if k - 1 != start && g.rate(k - 1) > 0 {
            seq![(k - 1) as usize]
        } else {
            Seq::empty()
        }
    }
}

/// The interesting nodes: the start node first, then every node with a
/// non-zero rate in increasing node order.
pub open spec fn interesting_ids(g: NodeGraph, start: usize) -> Seq<usize> {
    seq![start] + others(g, start as int, g.n())
}

proof fn lemma_others(g: NodeGraph, start: int, k: int)
    requires
        k <= usize::MAX,
    ensures
        forall|idx: int|
            0 <= idx < others(g, start, k).len() ==> {
                &&& ((#[trigger] others(g, start, k)[idx]) as int) < k
                &&& (others(g, start, k)[idx] as int) != start
                &&& g.rate(others(g, start, k)[idx] as int) > 0
            },
        forall|i: int|
            0 <= i < k && i != start && g.rate(i) > 0 ==> exists|idx: int|
                0 <= idx < others(g, start, k).len() && (#[trigger] others(g, start, k)[idx]) as int
                    == i,
        forall|i1: int, i2: int|
            0 <= i1 < i2 < others(g, start, k).len() ==> (#[trigger] others(g, start, k)[i1]) < (
            #[trigger] others(g, start, k)[i2]),
    decreases k,
{
    if k > 0 {
        lemma_others(g, start, k - 1);
        let prev = others(g, start, k - 1);
        let here = others(g, start, k);
        assert forall|i: int|
            0 <= i < k && i != start && g.rate(i) > 0 implies exists|idx: int|
            0 <= idx < here.len() && (#[trigger] here[idx]) as int == i by {
            if i < k - 1 {
                let idx = choose|idx: int|
                    0 <= idx < prev.len() && (#[trigger] prev[idx]) as int == i;
                assert(here[idx] as int == i);
            } else {
                assert(here[here.len() - 1] as int == i);
            }
        }
    }
}

/// Shape of the interesting-node list: the start node first, then exactly
/// the nodes with non-zero rate, each once, in increasing order.
pub proof fn lemma_interesting_ids(g: NodeGraph, start: usize)
    requires
        0 <= (start as int) < g.n(),
    ensures
        ({
            let ids = interesting_ids(g, start);
            &&& ids.len() >= 1
            &&& ids[0] == start
            &&& forall|a: int| 0 <= a < ids.len() ==> 0 <= ((#[trigger] ids[a]) as int) < g.n()
            &&& forall|a: int|
                1 <= a < ids.len() ==> ((#[trigger] ids[a]) as int) != (start as int) && g.rate(
                    ids[a] as int,
                ) > 0
            &&& ids.no_duplicates()
            &&& forall|i: int|
                0 <= i < g.n() && (i == start || g.rate(i) > 0) ==> exists|a: int|
                    0 <= a < ids.len() && (#[trigger] ids[a]) as int == i
        }),
{
    g.lemma_n_in_range();
    lemma_others(g, start as int, g.n());
    let ids = interesting_ids(g, start);
    let oth = others(g, start as int, g.n());
    assert forall|a1: int, a2: int| 0 <= a1 < a2 < ids.len() implies ids[a1] != ids[a2] by {
        if a1 == 0 {
            assert(ids[a2] == oth[a2 - 1]);
        } else {
            assert(ids[a1] == oth[a1 - 1] && ids[a2] == oth[a2 - 1]);
            assert(oth[a1 - 1] < oth[a2 - 1]);
        }
    }
    assert forall|i: int|
        0 <= i < g.n() && (i == start || g.rate(i) > 0) implies exists|a: int|
        0 <= a < ids.len() && (#[trigger] ids[a]) as int == i by {
        if i == start {
            assert(ids[0] as int == i);
        } else {
            let idx = choose|idx: int| 0 <= idx < oth.len() && (#[trigger] oth[idx]) as int == i;
            assert(ids[idx + 1] as int == i);
        }
    }
}

/// Compresses the raw network into a `DistanceGraph` over the interesting
/// nodes, with exact pairwise hop distances. Fails when more interesting
/// nodes exist than the bitmask width allows, or when some node cannot be
/// reached from the start or some interesting pair is mutually unreachable.
#[verifier::loop_isolation(false)]
#[verifier::rlimit(100)]
pub fn compress(g: &NodeGraph, start: usize) -> (r: Result<DistanceGraph, GraphError>)
    requires
        g.wf(),
        0 <= (start as int) < g.n(),
    ensures
        ({
            let ids = interesting_ids(*g, start);
            &&& ((r is Err && r->Err_0 == GraphError::TooManyInterestingNodes) <==> ids.len()
                > MASK_WIDTH)
            &&& (r is Ok <==> {
                &&& ids.len() <= MASK_WIDTH
                &&& forall|v: int| 0 <= v < g.n() ==> !unreachable(*g, start as int, v)
                &&& forall|a: int, b: int|
                    0 <= a < ids.len() && 0 <= b < ids.len() ==> !unreachable(
                        *g,
                        #[trigger] ids[a] as int,
                        #[trigger] ids[b] as int,
                    )
            })
            &&& (r is Ok ==> {
                let dg = r->Ok_0;
                &&& dg.wf()
                &&& dg.n() == ids.len()
                &&& forall|a: int| 0 <= a < ids.len() ==> #[trigger] dg.rate(a) == g.rate(ids[a] as int)
                &&& forall|a: int, b: int|
                    0 <= a < ids.len() && 0 <= b < ids.len() && a != b ==> (#[trigger] dg.d(a, b)) is Some
                        && is_dist(*g, ids[a] as int, ids[b] as int, dg.d(a, b)->0 as int)
            })
        }),
{
    proof {
        lemma_interesting_ids(*g, start);
    }
    let n = g.node_count();
    let mut ids: Vec<usize> = Vec::new();
    ids.push(start);
    for i in 0..n
        invariant
            ids@ == seq![start] + others(*g, start as int, i as int),
    {
        let ghost snap = ids@;
        if i != start && g.rate_of(i) > 0 {
            ids.push(i);
            proof {
                assert(others(*g, start as int, i as int + 1) =~= others(
                    *g,
                    start as int,
                    i as int,
                ) + seq![i]);
                assert(ids@ =~= seq![start] + others(*g, start as int, i as int + 1));
            }
        } else {
            proof {
                assert(others(*g, start as int, i as int + 1) =~= others(
                    *g,
                    start as int,
                    i as int,
                ));
            }
        }
    }
    proof {
        assert(ids@ == interesting_ids(*g, start));
    }
    let m = ids.len();
    if m > MASK_WIDTH {
        return Err(GraphError::TooManyInterestingNodes);
    }
    // every node must be reachable from the start
    let from_start = bfs_dists(g, start);
    for v in 0..n
        invariant
            forall|v2: int| 0 <= v2 < v ==> !unreachable(*g, start as int, v2),
    {
        if from_start[v].is_none() {
            return Err(GraphError::Disconnected);
        }
        proof {
            let d = from_start@[v as int]->0;
            assert(reach(*g, start as int, v as int, d as nat));
        }
    }
    // pairwise distances between interesting nodes
    let mut rates: Vec<u64> = Vec::new();
    let mut dist: Vec<Vec<Option<u64>>> = Vec::new();
    for a in 0..m
        invariant
            m == ids@.len(),
            rates@.len() == a,
            dist@.len() == a,
            forall|x: int| 0 <= x < a ==> #[trigger] rates@[x] == g.rate(ids@[x] as int),
            forall|x: int| 0 <= x < a ==> (#[trigger] dist@[x])@.len() == m,
            forall|x: int| 0 <= x < a ==> #[trigger] dist@[x]@[x] is None,
            forall|x: int, y: int|
                0 <= x < a && 0 <= y < m && x != y ==> (#[trigger] dist@[x]@[y]) is Some && is_dist(
                    *g,
                    ids@[x] as int,
                    ids@[y] as int,
                    dist@[x]@[y]->0 as int,
                ) && dist@[x]@[y]->0 >= 1,
    {
        rates.push(g.rate_of(ids[a]));
        let da = bfs_dists(g, ids[a]);
        let mut row: Vec<Option<u64>> = Vec::new();
        for b in 0..m
            invariant
                m == ids@.len(),
                a < m,
                row@.len() == b,
                da@.len() == g.n(),
                forall|v2: int|
                    0 <= v2 < g.n() && (#[trigger] da@[v2]) is Some ==> is_dist(
                        *g,
                        ids@[a as int] as int,
                        v2,
                        da@[v2]->0 as int,
                    ),
                forall|v2: int|
                    0 <= v2 < g.n() && (#[trigger] da@[v2]) is None ==> unreachable(
                        *g,
                        ids@[a as int] as int,
                        v2,
                    ),
                forall|y: int| 0 <= y < b && y == a ==> (#[trigger] row@[y]) is None,
                forall|y: int|
                    0 <= y < b && y != a ==> (#[trigger] row@[y]) is Some && is_dist(
                        *g,
                        ids@[a as int] as int,
                        ids@[y] as int,
                        row@[y]->0 as int,
                    ) && row@[y]->0 >= 1,
        {
            if b == a {
                row.push(None);
            } else {
                match da[ids[b]] {
                    Some(d) => {
                        proof {
                            // distinct interesting nodes are at least one hop
                            // apart
                            if d == 0 {
                                assert(reach(
                                    *g,
                                    ids@[a as int] as int,
                                    ids@[b as int] as int,
                                    0,
                                ));
                                assert(false);
                            }
                        }
                        row.push(Some(d));
                    },
                    None => {
                        return Err(GraphError::Disconnected);
                    },
                }
            }
        }
        dist.push(row);
    }
    // assemble the graph; the parts are well-formed by construction
    let built = DistanceGraph::new(rates, dist);
    match built {
        Some(dg) => {
            proof {
                assert forall|a: int, b: int|
                    0 <= a < m && 0 <= b < m implies !unreachable(
                    *g,
                    #[trigger] ids@[a] as int,
                    #[trigger] ids@[b] as int,
                ) by {
                    if a == b {
                        assert(reach(*g, ids@[a] as int, ids@[b] as int, 0));
                    } else {
                        let d = dist@[a]@[b]->0;
                        assert(reach(*g, ids@[a] as int, ids@[b] as int, d as nat));
                    }
                }
            }
            Ok(dg)
        },
        None => {
            proof {
                assert(false);
            }
            Err(GraphError::Disconnected)
        },
    }
}

/// When every labeled node's neighbors are labeled and nothing sits at the
/// top level, reachability never leaves the labeled set.
proof fn lemma_bfs_closure(g: NodeGraph, src: int, dist: Seq<Option<u64>>, level: int, k: nat)
    requires
        g.wf(),
        dist.len() == g.n(),
        0 <= src < g.n(),
        dist[src] is Some,
        forall|v: int, w: int|
            0 <= v < g.n() && (#[trigger] dist[v]) is Some && dist[v]->0 < level && #[trigger] g.edge(
                v,
                w,
            ) && 0 <= w < g.n() ==> dist[w] is Some,
        forall|v: int|
            0 <= v < g.n() && (#[trigger] dist[v]) is Some ==> dist[v]->0 < level,
    ensures
        forall|v: int| 0 <= v < g.n() && #[trigger] reach(g, src, v, k) ==> dist[v] is Some,
    decreases k,
{
    if k > 0 {
        lemma_bfs_closure(g, src, dist, level, (k - 1) as nat);
        assert forall|v: int| 0 <= v < g.n() && #[trigger] reach(g, src, v, k) implies dist[v] is Some by {
            if !reach(g, src, v, (k - 1) as nat) {
                let m = choose|m: int|
                    0 <= m < g.n() && reach(g, src, m, (k - 1) as nat) && #[trigger] g.edge(m, v);
                assert(dist[m] is Some);
            }
        }
    }
}

} // verus!
