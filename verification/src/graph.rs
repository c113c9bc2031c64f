//! Raw network of nodes: one flow rate per node and unweighted directed
//! edges to neighboring nodes. Built by pushing nodes and edges; the
//! compressor turns it into a `DistanceGraph` over the interesting nodes.

use vstd::prelude::*;

verus! {

/// A node of the raw network.
struct Node {
    rate: u64,
    next: Vec<usize>,
}

/// Raw adjacency representation of the network.
pub struct NodeGraph {
    nodes: Vec<Node>,
}

impl NodeGraph {
    /// Number of nodes.
    pub closed spec fn n(self) -> int {
        self.nodes@.len() as int
    }

    /// Flow rate of node `i`.
    pub closed spec fn rate(self, i: int) -> u64 {
        self.nodes@[i].rate
    }

    /// The neighbor list of node `i`.
    pub closed spec fn adj(self, i: int) -> Seq<usize> {
        self.nodes@[i].next@
    }

    /// There is an edge from `i` to `j`.
    pub open spec fn edge(self, i: int, j: int) -> bool {
        exists|k: int| 0 <= k < self.adj(i).len() && (#[trigger] self.adj(i)[k]) as int == j
    }

    /// Every recorded neighbor is a node of the graph.
    pub open spec fn wf(self) -> bool {
        forall|i: int, k: int|
            0 <= i < self.n() && 0 <= k < self.adj(i).len() ==> (#[trigger] self.adj(i)[k]) < self.n()
    }

    /// The node count fits the machine.
    pub proof fn lemma_n_in_range(self)
        ensures
            0 <= self.n() <= usize::MAX,
    {
        vstd::std_specs::vec::axiom_spec_len(&self.nodes);
    }

    /// An empty network.
    pub fn new() -> (r: NodeGraph)
        ensures
            r.wf(),
            r.n() == 0,
    {
        NodeGraph { nodes: Vec::new() }
    }

    /// Number of nodes.
    pub fn node_count(&self) -> (r: usize)
        ensures
            r == self.n(),
    {
        self.nodes.len()
    }

    /// Adds a node with the given flow rate and no edges; returns its id.
    pub fn push_node(&mut self, rate: u64) -> (id: usize)
        requires
            old(self).wf(),
        ensures
            final(self).wf(),
            id == old(self).n(),
            final(self).n() == old(self).n() + 1,
            forall|i: int| 0 <= i < old(self).n() ==> #[trigger] final(self).rate(i) == old(self).rate(i),
            final(self).rate(id as int) == rate,
            forall|i: int| 0 <= i < old(self).n() ==> #[trigger] final(self).adj(i) == old(self).adj(i),
            final(self).adj(id as int) == Seq::<usize>::empty(),
    {
        let id = self.nodes.len();
        self.nodes.push(Node { rate, next: Vec::new() });
        proof {
            assert forall|i: int| 0 <= i < old(self).n() implies #[trigger] self.adj(i) == old(
                self,
            ).adj(i) by {
                assert(self.nodes@[i] == old(self).nodes@[i]);
            }
        }
        id
    }

    /// Adds a directed edge from `a` to `b`. Returns whether both ends are
    /// nodes of the graph; otherwise nothing changes.
    pub fn add_edge(&mut self, a: usize, b: usize) -> (r: bool)
        requires
            old(self).wf(),
        ensures
            final(self).wf(),
            r == (a < old(self).n() && b < old(self).n()),
            final(self).n() == old(self).n(),
            forall|i: int| 0 <= i < old(self).n() ==> #[trigger] final(self).rate(i) == old(self).rate(i),
            r ==> final(self).adj(a as int) == old(self).adj(a as int).push(b),
            forall|i: int|
                0 <= i < old(self).n() && i != a ==> #[trigger] final(self).adj(i) == old(
                self,
                ).adj(i),
            !r ==> final(self).adj(a as int) == old(self).adj(a as int),
    {
        let n = self.nodes.len();
        if a < n && b < n {
            let node = &mut self.nodes[a];
            node.next.push(b);
            proof {
                assert(self.nodes@[a as int].next@ == old(self).nodes@[a as int].next@.push(b));
                assert forall|i: int| 0 <= i < self.n() && i != a implies #[trigger] self.adj(i)
                    == old(self).adj(i) by {
                    assert(self.nodes@[i] == old(self).nodes@[i]);
                }
                assert forall|i: int, k: int|
                    0 <= i < self.n() && 0 <= k < self.adj(i).len() implies (
                #[trigger] self.adj(i)[k]) < self.n() by {
                    if i == a && k == self.adj(i).len() - 1 {
                    } else {
                        assert(self.adj(i)[k] == old(self).adj(i)[k]);
                    }
                }
            }
            true
        } else {
            false
        }
    }

    /// Flow rate of node `i`.
    pub fn rate_of(&self, i: usize) -> (r: u64)
        requires
            0 <= i < self.n(),
        ensures
            r == self.rate(i as int),
    {
        self.nodes[i].rate
    }

    /// Number of neighbors of node `i`.
    pub fn degree(&self, i: usize) -> (r: usize)
        requires
            0 <= i < self.n(),
        ensures
            r == self.adj(i as int).len(),
    {
        self.nodes[i].next.len()
    }

    /// The `k`-th neighbor of node `i`.
    pub fn neighbor(&self, i: usize, k: usize) -> (r: usize)
        requires
            self.wf(),
            0 <= i < self.n(),
            0 <= k < self.adj(i as int).len(),
        ensures
            r == self.adj(i as int)[k as int],
            r < self.n(),
            self.edge(i as int, r as int),
    {
        self.nodes[i].next[k]
    }
}

} // verus!
