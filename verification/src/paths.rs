use crate::graph::Graph;
use vstd::prelude::*;

verus! {

// Spec-level model of walks through a graph and of predecessor chains.  The
// search's contracts are stated over these: a returned route is a costed walk
// from start to goal, and optimality compares its cost against every costed
// walk between the same endpoints.

/// Some edge of `g` leads from node `u` to node `v` at cost `c`.
pub open spec fn has_edge<G: Graph>(g: &G, u: int, v: usize, c: u32) -> bool {
    exists|j: int| 0 <= j < g.out_edges(u).len() && (#[trigger] g.out_edges(u)[j]) == (v, c)
}

/// `p` is a walk through `g` whose edge costs add up to `c`.
pub open spec fn walk_costed<G: Graph>(g: &G, p: Seq<usize>, c: int) -> bool
    decreases p.len(),
{
    if p.len() == 0 {
        false
    } else if p.len() == 1 {
        c == 0 && (p[0] as int) < g.node_count()
    } else {
        &&& (p[0] as int) < g.node_count()
        &&& exists|ce: u32|
            #[trigger] has_edge(g, p[0] as int, p[1], ce) && walk_costed(g, p.drop_first(), c - ce)
    }
}

/// `p` is a costed walk leading from node `from` to node `to`.
pub open spec fn connects<G: Graph>(g: &G, p: Seq<usize>, c: int, from: int, to: int) -> bool {
    &&& walk_costed(g, p, c)
    &&& p[0] as int == from
    &&& p[p.len() - 1] as int == to
}

/// Extending a costed walk by one edge off its last node.
pub proof fn lemma_walk_append<G: Graph>(g: &G, p: Seq<usize>, c: int, v: usize, ce: u32)
    requires
        walk_costed(g, p, c),
        has_edge(g, p[p.len() - 1] as int, v, ce),
        (v as int) < g.node_count(),
    ensures
        walk_costed(g, p.push(v), c + ce),
    decreases p.len(),
{
    if p.len() == 1 {
        assert(p.push(v).drop_first() =~= seq![v]);
        assert(walk_costed(g, seq![v], 0));
        assert(has_edge(g, p.push(v)[0] as int, p.push(v)[1], ce) && walk_costed(
            g,
            p.push(v).drop_first(),
            c + ce - ce,
        ));
    } else {
        let ce0 = choose|ce0: u32|
            #[trigger] has_edge(g, p[0] as int, p[1], ce0) && walk_costed(
                g,
                p.drop_first(),
                c - ce0,
            );
        assert(p.drop_first()[p.drop_first().len() - 1] == p[p.len() - 1]);
        lemma_walk_append(g, p.drop_first(), c - ce0, v, ce);
        assert(p.push(v).drop_first() =~= p.drop_first().push(v));
        assert(has_edge(g, p.push(v)[0] as int, p.push(v)[1], ce0) && walk_costed(
            g,
            p.push(v).drop_first(),
            c + ce - ce0,
        ));
    }
}

/// A walk that begins inside a set closed under outgoing edges ends inside it.
pub proof fn lemma_closed_walk<G: Graph>(g: &G, closed: Set<int>, p: Seq<usize>, c: int)
    requires
        walk_costed(g, p, c),
        closed.contains(p[0] as int),
        forall|u: int, j: int|
            closed.contains(u) && 0 <= j < g.out_edges(u).len() ==> closed.contains(
                (#[trigger] g.out_edges(u)[j]).0 as int,
            ),
    ensures
        closed.contains(p[p.len() - 1] as int),
    decreases p.len(),
{
    if p.len() > 1 {
        let ce = choose|ce: u32|
            #[trigger] has_edge(g, p[0] as int, p[1], ce) && walk_costed(g, p.drop_first(), c - ce);
        let j = choose|j: int|
            0 <= j < g.out_edges(p[0] as int).len() && (#[trigger] g.out_edges(p[0] as int)[j]) == (
                p[1],
                ce,
            );
        assert(closed.contains(p[1] as int));
        lemma_closed_walk(g, closed, p.drop_first(), c - ce);
    }
}

/// Follow a predecessor map back from node `v`, collecting the visited nodes
/// root-first; `None` when no root is reached within `fuel` steps.
pub open spec fn chain_from(prev: Seq<Option<usize>>, v: int, fuel: nat) -> Option<Seq<usize>>
    decreases fuel,
{
    if !(0 <= v < prev.len()) {
        None
    } else {
        match prev[v] {
            None => Some(seq![v as usize]),
            Some(u) => if fuel == 0 {
                None
            } else {
                match chain_from(prev, u as int, (fuel - 1) as nat) {
                    None => None,
                    Some(p) => Some(p.push(v as usize)),
                }
            },
        }
    }
}

/// Shape of a complete predecessor chain: it ends at the queried node, stays
/// within the map's bounds, starts at a root, and follows the map backward.
pub proof fn lemma_chain_shape(prev: Seq<Option<usize>>, v: int, fuel: nat)
    requires
        prev.len() <= usize::MAX,
        chain_from(prev, v, fuel) is Some,
    ensures
        ({
            let p = chain_from(prev, v, fuel)->Some_0;
            &&& p.len() >= 1
            &&& p[p.len() - 1] as int == v
            &&& forall|i: int| 0 <= i < p.len() ==> ((#[trigger] p[i]) as int) < prev.len()
            &&& prev[p[0] as int] is None
        }),
    decreases fuel,
{
    let p = chain_from(prev, v, fuel)->Some_0;
    assert(0 <= v < prev.len());
    match prev[v] {
        None => {
            assert(p == seq![v as usize]);
            assert(p[0] as int == v);
        },
        Some(u) => {
            assert(fuel > 0);
            assert(chain_from(prev, u as int, (fuel - 1) as nat) is Some);
            lemma_chain_shape(prev, u as int, (fuel - 1) as nat);
            let q = chain_from(prev, u as int, (fuel - 1) as nat)->Some_0;
            assert(p == q.push(v as usize));
            assert(p[p.len() - 1] as int == v);
            assert forall|i: int| 0 <= i < p.len() implies ((#[trigger] p[i]) as int) < prev.len() by {
                if i < p.len() - 1 {
                    assert(p[i] == q[i]);
                }
            }
            assert(p[0] == q[0]);
            assert(prev[p[0] as int] is None);
        },
    }
}

/// A complete chain stays complete, and unchanged, under any amount of fuel
/// that still covers its length.
pub proof fn lemma_chain_fuel(prev: Seq<Option<usize>>, v: int, f1: nat, f2: nat)
    requires
        chain_from(prev, v, f1) is Some,
        f2 >= chain_from(prev, v, f1)->Some_0.len() - 1,
    ensures
        chain_from(prev, v, f2) == chain_from(prev, v, f1),
    decreases f1,
{
    match prev[v] {
        None => {},
        Some(u) => {
            let q = chain_from(prev, u as int, (f1 - 1) as nat)->Some_0;
            assert(chain_from(prev, v, f1)->Some_0.len() == q.len() + 1);
            lemma_chain_fuel(prev, u as int, (f1 - 1) as nat, (f2 - 1) as nat);
        },
    }
}

/// Updating the predecessor map at a node a chain never visits leaves that
/// chain unchanged.
pub proof fn lemma_chain_stable(
    prev1: Seq<Option<usize>>,
    prev2: Seq<Option<usize>>,
    v: int,
    fuel: nat,
    w: int,
)
    requires
        prev1.len() <= usize::MAX,
        chain_from(prev1, v, fuel) is Some,
        prev1.len() == prev2.len(),
        forall|x: int| 0 <= x < prev1.len() && x != w ==> prev1[x] == prev2[x],
        forall|i: int|
            0 <= i < chain_from(prev1, v, fuel)->Some_0.len() ==> (#[trigger] chain_from(
                prev1,
                v,
                fuel,
            )->Some_0[i]) as int != w,
    ensures
        chain_from(prev2, v, fuel) == chain_from(prev1, v, fuel),
    decreases fuel,
{
    let p = chain_from(prev1, v, fuel)->Some_0;
    lemma_chain_shape(prev1, v, fuel);
    assert(p[p.len() - 1] as int == v);
    assert(v != w);
    match prev1[v] {
        None => {},
        Some(u) => {
            let q = chain_from(prev1, u as int, (fuel - 1) as nat)->Some_0;
            assert forall|i: int|
                0 <= i < q.len() implies (#[trigger] q[i]) as int != w by {
                assert(p[i] == q[i]);
            }
            lemma_chain_stable(prev1, prev2, u as int, (fuel - 1) as nat, w);
        },
    }
}

} // verus!
