use aoc22::combine::{best_dual_total, combine};
use aoc22::compress::{bfs_dists, compress};
use aoc22::distance::{DistanceGraph, GraphError};
use aoc22::graph::NodeGraph;
use aoc22::search::{best_total, search};
use aoc22::table::BestByMask;

/// The ten-room network: rates in room order, and the tunnel pairs.
fn sample_network() -> NodeGraph {
    let rates: [u64; 10] = [0, 13, 2, 20, 3, 0, 0, 22, 0, 21];
    // rooms: 0 AA, 1 BB, 2 CC, 3 DD, 4 EE, 5 FF, 6 GG, 7 HH, 8 II, 9 JJ
    let edges: [(usize, usize); 10] = [
        (0, 3),
        (0, 8),
        (0, 1),
        (1, 2),
        (2, 3),
        (3, 4),
        (4, 5),
        (5, 6),
        (6, 7),
        (8, 9),
    ];
    let mut g = NodeGraph::new();
    for r in rates {
        g.push_node(r);
    }
    for (a, b) in edges {
        assert!(g.add_edge(a, b));
        assert!(g.add_edge(b, a));
    }
    g
}

#[test]
fn bfs_finds_hop_distances() {
    let g = sample_network();
    let d = bfs_dists(&g, 0);
    assert_eq!(d[0], Some(0));
    assert_eq!(d[1], Some(1));
    assert_eq!(d[2], Some(2));
    assert_eq!(d[3], Some(1));
    assert_eq!(d[7], Some(5));
    assert_eq!(d[9], Some(2));
}

#[test]
fn compress_keeps_interesting_nodes() {
    let g = sample_network();
    let dg = compress(&g, 0).ok().unwrap();
    // start plus the six rooms with a non-zero rate
    assert_eq!(dg.node_count(), 7);
    assert_eq!(dg.rate_at(0), 0);
    // interesting nodes keep increasing room order after the start
    assert_eq!(dg.rate_at(1), 13);
    assert_eq!(dg.rate_at(2), 2);
    assert_eq!(dg.rate_at(3), 20);
    assert_eq!(dg.rate_at(4), 3);
    assert_eq!(dg.rate_at(5), 22);
    assert_eq!(dg.rate_at(6), 21);
    assert_eq!(dg.dist_at(0, 0), None);
    assert_eq!(dg.dist_at(0, 1), Some(1));
    assert_eq!(dg.dist_at(1, 6), Some(3));
}

#[test]
fn single_agent_scenario() {
    let g = sample_network();
    let dg = compress(&g, 0).ok().unwrap();
    assert!(dg.budget_fits(30));
    assert_eq!(best_total(&dg, 30), 1651);
}

#[test]
fn dual_agent_scenario() {
    let g = sample_network();
    let dg = compress(&g, 0).ok().unwrap();
    assert!(dg.budget_fits_dual(26));
    assert_eq!(best_dual_total(&dg, 26), 1707);
}

#[test]
fn degenerate_graph_yields_zero() {
    let mut g = NodeGraph::new();
    g.push_node(0);
    let dg = compress(&g, 0).ok().unwrap();
    assert_eq!(dg.node_count(), 1);
    for budget in [0u64, 1, 5, 30, 1000] {
        assert_eq!(best_total(&dg, budget), 0);
        assert_eq!(best_dual_total(&dg, budget), 0);
    }
}

#[test]
fn one_minute_is_never_enough() {
    // every flow room sits one minute from the start
    let mut g = NodeGraph::new();
    g.push_node(0);
    for r in [5u64, 7, 11] {
        let id = g.push_node(r);
        assert!(g.add_edge(0, id));
        assert!(g.add_edge(id, 0));
    }
    let dg = compress(&g, 0).ok().unwrap();
    assert_eq!(best_total(&dg, 1), 0);
    assert_eq!(best_total(&dg, 0), 0);
    // two minutes are enough to open one valve, which then never flows
    assert_eq!(best_total(&dg, 2), 0);
    // three minutes: open the best valve, it flows for one minute
    assert_eq!(best_total(&dg, 3), 11);
}

#[test]
fn budget_monotonicity_on_sample() {
    let g = sample_network();
    let dg = compress(&g, 0).ok().unwrap();
    let mut prev = 0;
    for budget in 0..31u64 {
        let cur = best_total(&dg, budget);
        assert!(cur >= prev);
        prev = cur;
    }
}

#[test]
fn table_monotonicity_on_sample() {
    let g = sample_network();
    let dg = compress(&g, 0).ok().unwrap();
    let t1 = search(&dg, 20);
    let t2 = search(&dg, 26);
    for k in 0..t1.count() {
        let (m, v) = t1.entry_at(k);
        let v2 = t2.get(m).expect("mask lost with a larger budget");
        assert!(v2 >= v);
    }
}

#[test]
fn combine_matches_exhaustive_pairs() {
    let g = sample_network();
    let dg = compress(&g, 0).ok().unwrap();
    let t = search(&dg, 10);
    let mut best = 0u64;
    for i in 0..t.count() {
        for j in 0..t.count() {
            let (mi, vi) = t.entry_at(i);
            let (mj, vj) = t.entry_at(j);
            if mi & mj == 0 {
                best = best.max(vi + vj);
            }
        }
    }
    assert_eq!(combine(&t), best);
}

#[test]
fn combine_dominates_single_agent() {
    let g = sample_network();
    let dg = compress(&g, 0).ok().unwrap();
    let t = search(&dg, 26);
    let single = best_total(&dg, 26);
    assert!(combine(&t) >= single);
}

#[test]
fn too_many_interesting_nodes_is_refused() {
    let mut g = NodeGraph::new();
    g.push_node(0);
    let mut prev = 0;
    for k in 0..33usize {
        let id = g.push_node(k as u64 + 1);
        assert!(g.add_edge(prev, id));
        assert!(g.add_edge(id, prev));
        prev = id;
    }
    assert_eq!(compress(&g, 0).err().unwrap(), GraphError::TooManyInterestingNodes);
}

#[test]
fn disconnected_graph_is_refused() {
    let mut g = NodeGraph::new();
    g.push_node(0);
    g.push_node(9);
    // no edge between the two rooms
    assert_eq!(compress(&g, 0).err().unwrap(), GraphError::Disconnected);
}

#[test]
fn table_keeps_the_maximum() {
    let mut t = BestByMask::new();
    t.set_max(0b01, 10);
    t.set_max(0b01, 7);
    t.set_max(0b01, 12);
    t.set_max(0b10, 3);
    assert_eq!(t.get(0b01), Some(12));
    assert_eq!(t.get(0b10), Some(3));
    assert_eq!(t.get(0b11), None);
    assert_eq!(t.count(), 2);
}

#[test]
fn distance_graph_validates_parts() {
    // a one-node graph is fine
    assert!(DistanceGraph::new(vec![0], vec![vec![None]]).is_some());
    // a self-distance is refused
    assert!(DistanceGraph::new(vec![0], vec![vec![Some(1)]]).is_none());
    // a zero distance is refused
    assert!(
        DistanceGraph::new(vec![0, 1], vec![vec![None, Some(0)], vec![Some(1), None]]).is_none()
    );
    // a ragged table is refused
    assert!(DistanceGraph::new(vec![0, 1], vec![vec![None], vec![Some(1), None]]).is_none());
}

#[test]
fn pruned_search_is_sound() {
    let g = sample_network();
    let dg = compress(&g, 0).ok().unwrap();
    let exact = search(&dg, 26);
    for slack in [0u64, 1, 5, u64::MAX] {
        let pruned = aoc22::search::search_pruned(&dg, 26, slack);
        // every pruned entry is achievable, so the exact table dominates it
        for k in 0..pruned.count() {
            let (m, v) = pruned.entry_at(k);
            let ve = exact.get(m).expect("pruned table invented a bitmask");
            assert!(v <= ve);
        }
        assert!(pruned.get(0).is_some());
        // with unlimited slack nothing is pruned away by the score bound
        if slack == u64::MAX {
            assert_eq!(pruned.count(), exact.count());
        }
    }
}
