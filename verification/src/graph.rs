use vstd::prelude::*;

verus! {

// Graphs are finite and arena-indexed: a graph with `n` nodes names them by
// the ids `0 .. n`, and every edge carries the ids of its endpoints together
// with a non-negative integer cost.

/// A directed edge between two node ids, with a non-negative cost.
#[derive(Clone, Copy, Debug, PartialEq, Eq, Structural)]
pub struct Edge {
    pub from: usize,
    pub to: usize,
    pub cost: u32,
}

/// Anything that carries a non-negative cost.
pub trait WithCost {
    spec fn spec_cost(&self) -> int;

    fn cost(&self) -> (c: u32)
        ensures
            c as int == self.spec_cost(),
    ;
}

impl WithCost for Edge {
    open spec fn spec_cost(&self) -> int {
        self.cost as int
    }

    fn cost(&self) -> u32 {
        self.cost
    }
}

/// A directed edge that reports its endpoints.
pub trait DirectedEdge {
    spec fn spec_from(&self) -> int;

    spec fn spec_to(&self) -> int;

    fn from_node(&self) -> (n: usize)
        ensures
            n as int == self.spec_from(),
    ;

    fn to_node(&self) -> (n: usize)
        ensures
            n as int == self.spec_to(),
    ;
}

impl DirectedEdge for Edge {
    open spec fn spec_from(&self) -> int {
        self.from as int
    }

    open spec fn spec_to(&self) -> int {
        self.to as int
    }

    fn from_node(&self) -> usize {
        self.from
    }

    fn to_node(&self) -> usize {
        self.to
    }
}

/// Explicit finite graph with enumerable nodes.
///
/// The two spec functions are the mathematical model a search is verified
/// against: `node_count` gives the node ids `0 .. node_count`, and
/// `out_edges(u)` gives node `u`'s outgoing edges as `(destination, cost)`
/// pairs, in the order the executable `edges` method reports them.
pub trait Graph {
    /// Number of nodes; the valid node ids are `0 .. node_count()`.
    spec fn node_count(&self) -> nat;

    /// The outgoing edges of node `u`, as `(destination, cost)` pairs.
    spec fn out_edges(&self, u: int) -> Seq<(usize, u32)>;

    /// Representation invariant a value must satisfy before it is queried.
    spec fn inv(&self) -> bool;

    /// All nodes of the graph, which are exactly the ids `0 .. node_count()`.
    fn nodes(&self) -> (r: Vec<usize>)
        requires
            self.inv(),
        ensures
            r@.len() == self.node_count(),
            forall|i: int| 0 <= i < r@.len() ==> r@[i] == i,
    ;

    /// The outgoing edges of node `u`, matching the model `out_edges(u)`.
    fn edges(&self, u: usize) -> (r: Vec<Edge>)
        requires
            self.inv(),
            u < self.node_count(),
        ensures
            r@.len() == self.out_edges(u as int).len(),
            forall|j: int|
                0 <= j < r@.len() ==> {
                    &&& (#[trigger] r@[j]).from == u
                    &&& r@[j].to == self.out_edges(u as int)[j].0
                    &&& r@[j].cost == self.out_edges(u as int)[j].1
                },
    ;
}

/// Implicit graph, potentially with an unenumerable node space: only the
/// edges of a node and the endpoints of an edge are exposed, never a full
/// node enumeration.
pub trait ImplicitGraph {
    fn edges(&self, node: usize) -> Vec<Edge>;

    fn endpoints(&self, edge: &Edge) -> (usize, usize);
}

/// Well-formedness of a graph's model: every edge of a valid node leads to a
/// valid node, and invalid ids have no edges at all.
pub open spec fn graph_wf<G: Graph>(g: &G) -> bool {
    &&& forall|u: int, j: int|
        0 <= u < g.node_count() && 0 <= j < g.out_edges(u).len() ==> (#[trigger] g.out_edges(u)[j]).0
            < g.node_count()
    &&& forall|u: int| !(0 <= u < g.node_count()) ==> (#[trigger] g.out_edges(u)).len() == 0
}

/// Basic graph with adjacency vector representation.
pub struct SimpleGraph {
    n_nodes: usize,
    adj: Vec<Vec<Edge>>,
}

impl SimpleGraph {
    pub closed spec fn wf(&self) -> bool {
        &&& self.adj@.len() == self.n_nodes
        &&& forall|u: int, j: int|
            0 <= u < self.adj@.len() && 0 <= j < self.adj@[u]@.len() ==> {
                &&& (#[trigger] self.adj@[u]@[j]).from == u
                &&& self.adj@[u]@[j].to < self.n_nodes
            }
    }

    /// A graph over the node ids `0 .. node_count`, initially without edges.
    pub fn new(node_count: usize) -> (g: SimpleGraph)
        ensures
            g.inv(),
            graph_wf(&g),
            g.node_count() == node_count,
            forall|u: int| (#[trigger] g.out_edges(u)).len() == 0,
    {
        let mut adj: Vec<Vec<Edge>> = Vec::new();
        let mut i: usize = 0;
        while i < node_count
            invariant
                i <= node_count,
                adj@.len() == i,
                forall|k: int| 0 <= k < i ==> (#[trigger] adj@[k])@.len() == 0,
            decreases node_count - i,
        {
            adj.push(Vec::new());
            i = i + 1;
        }
        SimpleGraph { n_nodes: node_count, adj }
    }

    /// Add a directed edge from `from` to `to` with the given cost.  The
    /// edge is rejected, and the graph left unchanged, exactly when one of
    /// its endpoints is not a valid node id.
    pub fn add_edge(&mut self, from: usize, to: usize, cost: u32) -> (ok: bool)
        requires
            old(self).inv(),
        ensures
            final(self).inv(),
            graph_wf(old(self)) ==> graph_wf(final(self)),
            final(self).node_count() == old(self).node_count(),
            ok <==> (from < old(self).node_count() && to < old(self).node_count()),
            !ok ==> *final(self) == *old(self),
            ok ==> final(self).out_edges(from as int) == old(self).out_edges(from as int).push(
                (to, cost),
            ),
            ok ==> forall|u: int|
                u != from ==> (#[trigger] final(self).out_edges(u)) == old(self).out_edges(u),
    {
        if from < self.n_nodes && to < self.n_nodes {
            let e = Edge { from, to, cost };
            self.adj[from].push(e);
            proof {
                assert forall|u: int| u != from implies (#[trigger] self.out_edges(u)) == old(
                    self,
                ).out_edges(u) by {
                    if 0 <= u < self.adj@.len() {
                        assert(self.adj@[u] == old(self).adj@[u]);
                    }
                }
                assert(self.out_edges(from as int) =~= old(self).out_edges(from as int).push(
                    (to, cost),
                ));
            }
            true
        } else {
            false
        }
    }
}

impl Graph for SimpleGraph {
    closed spec fn node_count(&self) -> nat {
        self.n_nodes as nat
    }

    closed spec fn out_edges(&self, u: int) -> Seq<(usize, u32)> {
        if 0 <= u < self.adj@.len() {
            self.adj@[u]@.map_values(|e: Edge| (e.to, e.cost))
        } else {
            Seq::empty()
        }
    }

    closed spec fn inv(&self) -> bool {
        self.wf()
    }

    fn nodes(&self) -> (r: Vec<usize>) {
        let mut r: Vec<usize> = Vec::new();
        let mut i: usize = 0;
        while i < self.n_nodes
            invariant
                i <= self.n_nodes,
                r@.len() == i,
                forall|k: int| 0 <= k < i ==> r@[k] == k,
            decreases self.n_nodes - i,
        {
            r.push(i);
            i = i + 1;
        }
        r
    }

    fn edges(&self, u: usize) -> (r: Vec<Edge>) {
        let r = self.adj[u].clone();
        proof {
            assert(r@ =~= self.adj@[u as int]@);
        }
        r
    }
}

} // verus!
