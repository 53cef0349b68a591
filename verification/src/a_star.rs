use crate::frontier::{prio_lt, Frontier};
use crate::graph::{graph_wf, Graph};
use crate::paths::{
    chain_from, connects, has_edge, lemma_chain_fuel, lemma_chain_shape, lemma_chain_stable,
    lemma_closed_walk, lemma_walk_append, walk_costed,
};
use vstd::prelude::*;
use vstd::set_lib::{lemma_int_range, lemma_len_subset, set_int_range};

verus! {

/// A caller-supplied estimate of the remaining cost from a node to the goal.
pub trait Heuristic {
    /// The estimate as a mathematical value.
    spec fn estimate(&self, u: int) -> int;

    /// Evaluate the estimate at node `u`.
    fn eval(&self, u: usize) -> (r: u32)
        ensures
            r as int == self.estimate(u as int),
    ;
}

/// The heuristic that estimates zero everywhere; best-first search with it
/// expands nodes in plain uniform-cost (Dijkstra) order.
pub struct ZeroHeuristic {}

impl Heuristic for ZeroHeuristic {
    open spec fn estimate(&self, u: int) -> int {
        0
    }

    fn eval(&self, u: usize) -> u32 {
        0
    }
}

/// `p` is a route from `from` to `to`: a walk at some total cost.
pub open spec fn is_route<G: Graph>(g: &G, p: Seq<usize>, from: int, to: int) -> bool {
    exists|c: int| #[trigger] connects(g, p, c, from, to)
}

/// Placeholder for an online, incremental search variant; intentionally
/// carries no behaviour.
pub struct AStarState {}

/// The predecessor chain from `v` is complete and describes a costed walk
/// from `start` to `v` whose earlier nodes all lie in `closed` and whose
/// length is at most `bound`.
#[verifier::opaque]
pub(crate) open spec fn chain_ok<G: Graph>(
    g: &G,
    prevv: Seq<Option<usize>>,
    start: usize,
    v: int,
    cost: int,
    closed: Set<int>,
    bound: int,
) -> bool {
    let ch = chain_from(prevv, v, g.node_count());
    &&& ch is Some
    &&& ch->Some_0.len() <= bound
    &&& ch->Some_0[0] == start
    &&& walk_costed(g, ch->Some_0, cost)
    &&& forall|i: int|
        0 <= i < ch->Some_0.len() - 1 ==> closed.contains((#[trigger] ch->Some_0[i]) as int)
}

/// The first `upto` edges out of `u` all lead to a closed node or to a node
/// held by the frontier.
pub(crate) open spec fn covered_upto<G: Graph>(
    g: &G,
    m: Map<usize, (u64, u64)>,
    closed: Set<int>,
    u: int,
    upto: int,
) -> bool {
    forall|j: int|
        0 <= j < upto && j < g.out_edges(u).len() ==> {
            let t = (#[trigger] g.out_edges(u)[j]).0;
            closed.contains(t as int) || m.contains_key(t)
        }
}

/// Everything the search maintains about its state: the bookkeeping vectors
/// mirror the ghost closed set, frontier entries are valid unclosed nodes
/// whose priorities satisfy `f == g + h`, recorded costs are bounded, the
/// predecessor map encodes costed walks, and closed nodes carry their
/// finalized costs.
#[verifier::opaque]
pub(crate) open spec fn search_inv<G: Graph, H: Heuristic>(
    g: &G,
    h: &H,
    start: usize,
    goal: usize,
    m: Map<usize, (u64, u64)>,
    closedv: Seq<bool>,
    prevv: Seq<Option<usize>>,
    closed: Set<int>,
    gc: Map<int, int>,
) -> bool {
    let n = g.node_count();
    &&& closedv.len() == n
    &&& prevv.len() == n
    &&& closed.finite()
    &&& forall|i: int| 0 <= i < n ==> ((#[trigger] closedv[i]) <==> closed.contains(i))
    &&& forall|i: int| #[trigger] closed.contains(i) ==> 0 <= i < n
    &&& !closed.contains(goal as int)
    &&& forall|k: usize| #[trigger] m.contains_key(k) ==> (k as int) < n && !closed.contains(k as int)
    &&& forall|k: usize| #[trigger]
        m.contains_key(k) ==> m[k].0 as int == m[k].1 as int + h.estimate(k as int)
    &&& forall|k: usize| #[trigger]
        m.contains_key(k) ==> m[k].1 as int <= closed.len() * (u32::MAX as int)
    &&& closed.contains(start as int) || (m.contains_key(start) && m[start].1 == 0)
    &&& forall|v: int|
        0 <= v < n && (#[trigger] prevv[v]) is Some ==> ((prevv[v]->Some_0) as int) < n
            && closed.contains((prevv[v]->Some_0) as int)
    &&& forall|k: usize| #[trigger]
        m.contains_key(k) ==> chain_ok(
            g,
            prevv,
            start,
            k as int,
            m[k].1 as int,
            closed,
            closed.len() as int + 1,
        )
    &&& forall|u: int| #[trigger]
        closed.contains(u) ==> gc.contains_key(u) && chain_ok(
            g,
            prevv,
            start,
            u,
            gc[u],
            closed,
            closed.len() as int,
        )
    &&& (start == goal ==> closed =~= Set::<int>::empty())
    &&& (start == goal ==> forall|v: int| 0 <= v < n ==> (#[trigger] prevv[v]) is None)
    &&& (start == goal ==> forall|k: usize| #[trigger] m.contains_key(k) ==> k == start)
}

/// Walk a predecessor map backward from `from` until a node without a
/// predecessor is reached, then return the visited nodes in forward order,
/// ending at `from`.
#[verifier::loop_isolation(false)]
pub fn trace_prev(prev_map: &Vec<Option<usize>>, from: usize) -> (r: Vec<usize>)
    requires
        (from as int) < prev_map@.len(),
        chain_from(prev_map@, from as int, prev_map@.len() as nat) is Some,
    ensures
        Some(r@) == chain_from(prev_map@, from as int, prev_map@.len() as nat),
{
    let _len_fits = prev_map.len();
    let ghost n = prev_map@.len() as nat;
    let ghost full = chain_from(prev_map@, from as int, n)->Some_0;
    proof {
        assert(prev_map@.len() <= usize::MAX);
    }
    proof {
        lemma_chain_shape(prev_map@, from as int, n);
    }
    let mut path: Vec<usize> = Vec::new();
    path.push(from);
    let mut current: usize = from;
    let mut fuel: Ghost<nat> = Ghost(n);
    while prev_map[current].is_some()
        invariant
            prev_map@.len() == n,
            path@.len() >= 1,
            1 <= path@.len() <= full.len(),
            path@[path@.len() - 1] == current,
            (current as int) < prev_map@.len(),
            chain_from(prev_map@, current as int, fuel@) is Some,
            chain_from(prev_map@, current as int, fuel@)->Some_0 == full.take(
                full.len() - path@.len() + 1,
            ),
            forall|k: int| 0 <= k < path@.len() ==> path@[k] == full[full.len() - 1 - k],
        decreases fuel@,
    {
        let u = prev_map[current].unwrap();
        proof {
            let pc = chain_from(prev_map@, current as int, fuel@)->Some_0;
            assert(fuel@ > 0);
            let qc = chain_from(prev_map@, u as int, (fuel@ - 1) as nat)->Some_0;
            assert(pc == qc.push(current));
            assert(qc =~= full.take(full.len() - path@.len() + 1).take(
                full.len() - path@.len() as int,
            ));
            assert(qc =~= full.take(full.len() - path@.len() as int));
            lemma_chain_shape(prev_map@, u as int, (fuel@ - 1) as nat);
            assert(qc[qc.len() - 1] == u);
            assert(u == full[full.len() - 1 - path@.len() as int]);
        }
        path.push(u);
        current = u;
        fuel = Ghost((fuel@ - 1) as nat);
    }
    proof {
        let pc = chain_from(prev_map@, current as int, fuel@)->Some_0;
        assert(pc == seq![current]);
        assert(pc.len() == 1);
        assert(full.take(full.len() - path@.len() + 1).len() == 1);
        assert(path@.len() == full.len());
    }
    let mut r: Vec<usize> = Vec::new();
    let mut i: usize = path.len();
    while i > 0
        invariant
            i <= path@.len(),
            r@.len() == path@.len() - i,
            forall|k: int| 0 <= k < r@.len() ==> r@[k] == path@[path@.len() - 1 - k],
        decreases i,
    {
        i = i - 1;
        r.push(path[i]);
    }
    proof {
        assert forall|k: int| 0 <= k < r@.len() implies r@[k] == full[k] by {
            assert(r@[k] == path@[path@.len() - 1 - k]);
            assert(path@[path@.len() - 1 - k] == full[full.len() - 1 - (path@.len() - 1 - k)]);
        }
        assert(r@ =~= full);
    }
    r
}

/// A recorded chain is untouched by a predecessor-map update at an unclosed
/// node `vv` distinct from the chain's endpoint.
proof fn lemma_chain_ok_stable<G: Graph>(
    g: &G,
    prev_pre: Seq<Option<usize>>,
    prev_post: Seq<Option<usize>>,
    start: usize,
    x: int,
    cost: int,
    closed: Set<int>,
    bound: int,
    vv: int,
)
    requires
        prev_pre.len() <= usize::MAX,
        chain_ok(g, prev_pre, start, x, cost, closed, bound),
        prev_post.len() == prev_pre.len(),
        0 <= vv < prev_pre.len(),
        forall|i: int| 0 <= i < prev_pre.len() && i != vv ==> prev_pre[i] == prev_post[i],
        !closed.contains(vv),
        x != vv,
    ensures
        chain_ok(g, prev_post, start, x, cost, closed, bound),
{
    reveal(chain_ok);
    let nn = g.node_count();
    let p = chain_from(prev_pre, x, nn)->Some_0;
    lemma_chain_shape(prev_pre, x, nn);
    assert forall|i2: int| 0 <= i2 < p.len() implies ((#[trigger] p[i2]) as int) != vv by {
        if i2 < p.len() - 1 {
            assert(closed.contains(p[i2] as int));
        } else {
            assert(p[i2] as int == x);
        }
    }
    lemma_chain_stable(prev_pre, prev_post, x, nn, vv);
}

/// After pointing the predecessor of `v` at `current`, every recorded chain
/// survives, and `v` gains a chain through `current` costing `gnext`.
#[verifier::rlimit(100)]
proof fn lemma_relax_chains<G: Graph>(
    g: &G,
    start: usize,
    current: usize,
    v: usize,
    ce: u32,
    gcur: u64,
    gnext: u64,
    m_pre: Map<usize, (u64, u64)>,
    prev_pre: Seq<Option<usize>>,
    prev_post: Seq<Option<usize>>,
    closed: Set<int>,
    gc: Map<int, int>,
    jj: int,
)
    requires
        g.node_count() <= u32::MAX as nat,
        prev_pre.len() == g.node_count(),
        closed.len() <= g.node_count(),
        closed.contains(current as int),
        !closed.contains(v as int),
        (v as int) < g.node_count(),
        (current as int) < g.node_count(),
        0 <= jj < g.out_edges(current as int).len(),
        g.out_edges(current as int)[jj] == (v, ce),
        gnext == gcur + ce,
        prev_post == prev_pre.update(v as int, Some(current)),
        gc.contains_key(current as int),
        gc[current as int] == gcur as int,
        forall|u2: int| #[trigger]
            closed.contains(u2) ==> gc.contains_key(u2) && chain_ok(
                g,
                prev_pre,
                start,
                u2,
                gc[u2],
                closed,
                closed.len() as int,
            ),
        forall|k: usize| #[trigger]
            m_pre.contains_key(k) ==> chain_ok(
                g,
                prev_pre,
                start,
                k as int,
                m_pre[k].1 as int,
                closed,
                closed.len() as int + 1,
            ),
    ensures
        forall|u2: int| #[trigger]
            closed.contains(u2) ==> chain_ok(
                g,
                prev_post,
                start,
                u2,
                gc[u2],
                closed,
                closed.len() as int,
            ),
        chain_ok(g, prev_post, start, v as int, gnext as int, closed, closed.len() as int + 1),
        forall|k: usize| #[trigger]
            m_pre.contains_key(k) && k != v ==> chain_ok(
                g,
                prev_post,
                start,
                k as int,
                m_pre[k].1 as int,
                closed,
                closed.len() as int + 1,
            ),
{
    let nn = g.node_count();
    let vv = v as int;
    assert forall|u2: int| #[trigger]
        closed.contains(u2) implies chain_ok(
        g,
        prev_post,
        start,
        u2,
        gc[u2],
        closed,
        closed.len() as int,
    ) by {
        assert(u2 != vv);
        lemma_chain_ok_stable(g, prev_pre, prev_post, start, u2, gc[u2], closed, closed.len() as int, vv);
    }
    assert forall|k: usize| #[trigger]
        m_pre.contains_key(k) && k != v implies chain_ok(
        g,
        prev_post,
        start,
        k as int,
        m_pre[k].1 as int,
        closed,
        closed.len() as int + 1,
    ) by {
        lemma_chain_ok_stable(
            g,
            prev_pre,
            prev_post,
            start,
            k as int,
            m_pre[k].1 as int,
            closed,
            closed.len() as int + 1,
            vv,
        );
    }
    reveal(chain_ok);
    assert(chain_ok(g, prev_post, start, current as int, gcur as int, closed, closed.len() as int));
    let pc = chain_from(prev_post, current as int, nn)->Some_0;
    lemma_chain_shape(prev_post, current as int, nn);
    assert(pc[pc.len() - 1] == current);
    lemma_chain_fuel(prev_post, current as int, nn, (nn - 1) as nat);
    assert(prev_post[vv] == Some(current));
    assert(chain_from(prev_post, vv, nn) == Some(pc.push(v)));
    assert(has_edge(g, current as int, v, ce));
    lemma_walk_append(g, pc, gcur as int, v, ce);
    assert(walk_costed(g, pc.push(v), gnext as int));
    assert forall|i2: int|
        0 <= i2 < pc.push(v).len() - 1 implies closed.contains(
        (#[trigger] pc.push(v)[i2]) as int,
    ) by {
        assert(pc.push(v)[i2] == pc[i2]);
        if i2 < pc.len() - 1 {
            assert(closed.contains(pc[i2] as int));
        } else {
            assert(pc[i2] == current);
        }
    }
    assert(chain_ok(g, prev_post, start, vv, gnext as int, closed, closed.len() as int + 1));
}

/// Re-establishes the search invariant after one successful relaxation: the
/// frontier gains (or improves) node `v` reached from `current` over its
/// `jj`-th edge, and the predecessor map now points `v` at `current`.
#[verifier::rlimit(100)]
proof fn lemma_relax_newly<G: Graph, H: Heuristic>(
    g: &G,
    h: &H,
    start: usize,
    goal: usize,
    closedv: Seq<bool>,
    current: usize,
    v: usize,
    ce: u32,
    gcur: u64,
    gnext: u64,
    fnext: u64,
    m_pre: Map<usize, (u64, u64)>,
    prev_pre: Seq<Option<usize>>,
    prev_post: Seq<Option<usize>>,
    closed: Set<int>,
    gc: Map<int, int>,
    jj: int,
)
    requires
        graph_wf(g),
        g.node_count() <= u32::MAX as nat,
        (start as int) < g.node_count(),
        (goal as int) < g.node_count(),
        start != goal,
        search_inv(g, h, start, goal, m_pre, closedv, prev_pre, closed, gc),
        closed.len() <= g.node_count(),
        closed.contains(current as int),
        gc[current as int] == gcur as int,
        !closed.contains(v as int),
        0 <= jj < g.out_edges(current as int).len(),
        g.out_edges(current as int)[jj] == (v, ce),
        gnext == gcur + ce,
        gnext as int <= closed.len() * (u32::MAX as int),
        fnext as int == gnext as int + h.estimate(v as int),
        m_pre.contains_key(v) ==> prio_lt((fnext, gnext), m_pre[v]),
        prev_post == prev_pre.update(v as int, Some(current)),
        forall|u2: int| #[trigger]
            closed.contains(u2) && u2 != current as int ==> covered_upto(
                g,
                m_pre,
                closed,
                u2,
                g.out_edges(u2).len() as int,
            ),
        covered_upto(g, m_pre, closed, current as int, jj),
    ensures
        search_inv(
            g,
            h,
            start,
            goal,
            m_pre.insert(v, (fnext, gnext)),
            closedv,
            prev_post,
            closed,
            gc,
        ),
        forall|u2: int| #[trigger]
            closed.contains(u2) && u2 != current as int ==> covered_upto(
                g,
                m_pre.insert(v, (fnext, gnext)),
                closed,
                u2,
                g.out_edges(u2).len() as int,
            ),
        covered_upto(g, m_pre.insert(v, (fnext, gnext)), closed, current as int, jj + 1),
{
    reveal(search_inv);
    let nn = g.node_count();
    let vv = v as int;
    let m_post = m_pre.insert(v, (fnext, gnext));
    if m_pre.contains_key(v) {
        assert(m_pre[v].0 as int == m_pre[v].1 as int + h.estimate(vv));
        assert(gnext < m_pre[v].1);
    }
    lemma_relax_chains(
        g,
        start,
        current,
        v,
        ce,
        gcur,
        gnext,
        m_pre,
        prev_pre,
        prev_post,
        closed,
        gc,
        jj,
    );
    assert forall|k: usize| #[trigger]
        m_post.contains_key(k) implies chain_ok(
        g,
        prev_post,
        start,
        k as int,
        m_post[k].1 as int,
        closed,
        closed.len() as int + 1,
    ) by {
        if k != v {
            assert(m_pre.contains_key(k) && m_post[k] == m_pre[k]);
        } else {
            assert(m_post[k].1 == gnext);
        }
    }
    if !closed.contains(start as int) {
        assert(m_pre.contains_key(start) && m_pre[start].1 == 0);
        if v == start {
            assert(m_pre[start].0 as int == h.estimate(start as int));
            assert(!prio_lt((fnext, gnext), m_pre[start]));
            assert(false);
        }
        assert(m_post.contains_key(start) && m_post[start].1 == 0);
    }
    assert forall|u2: int| #[trigger]
        closed.contains(u2) && u2 != current as int implies covered_upto(
        g,
        m_post,
        closed,
        u2,
        g.out_edges(u2).len() as int,
    ) by {
        assert(covered_upto(g, m_pre, closed, u2, g.out_edges(u2).len() as int));
        assert forall|j2: int|
            0 <= j2 < g.out_edges(u2).len() implies ({
                let t = (#[trigger] g.out_edges(u2)[j2]).0;
                closed.contains(t as int) || m_post.contains_key(t)
            }) by {
            let t = g.out_edges(u2)[j2].0;
            if !closed.contains(t as int) {
                assert(m_pre.contains_key(t));
            }
        }
    }
    assert(covered_upto(g, m_post, closed, current as int, jj + 1));
    assert(search_inv(g, h, start, goal, m_post, closedv, prev_post, closed, gc));
}


/// Close the popped node `current`: record its finalized cost, and carry
/// every part of the search invariant over to the grown closed set.
#[verifier::rlimit(100)]
proof fn lemma_close_current<G: Graph, H: Heuristic>(
    g: &G,
    h: &H,
    start: usize,
    goal: usize,
    m0: Map<usize, (u64, u64)>,
    current: usize,
    fcur: u64,
    gcur: u64,
    closedv_pre: Seq<bool>,
    closedv_post: Seq<bool>,
    prevv: Seq<Option<usize>>,
    closed_pre: Set<int>,
    gc_pre: Map<int, int>,
)
    requires
        (start as int) < g.node_count(),
        (goal as int) < g.node_count(),
        g.node_count() <= u32::MAX as nat,
        search_inv(g, h, start, goal, m0, closedv_pre, prevv, closed_pre, gc_pre),
        closed_pre.len() <= g.node_count(),
        m0.contains_key(current),
        m0[current] == (fcur, gcur),
        current != goal,
        closedv_post == closedv_pre.update(current as int, true),
        forall|u2: int| #[trigger]
            closed_pre.contains(u2) ==> covered_upto(
                g,
                m0,
                closed_pre,
                u2,
                g.out_edges(u2).len() as int,
            ),
    ensures
        ({
            let closed = closed_pre.insert(current as int);
            let gc = gc_pre.insert(current as int, gcur as int);
            let m = m0.remove(current);
            &&& search_inv(g, h, start, goal, m, closedv_post, prevv, closed, gc)
            &&& closed.len() == closed_pre.len() + 1
            &&& closed.len() <= g.node_count()
            &&& closed.contains(current as int)
            &&& gc[current as int] == gcur as int
            &&& gcur as int <= (closed.len() as int - 1) * (u32::MAX as int)
            &&& start != goal
            &&& forall|u2: int| #[trigger]
                closed.contains(u2) && u2 != current as int ==> covered_upto(
                    g,
                    m,
                    closed,
                    u2,
                    g.out_edges(u2).len() as int,
                )
        }),
{
    reveal(search_inv);
    reveal(chain_ok);
    let closed = closed_pre.insert(current as int);
    let gc = gc_pre.insert(current as int, gcur as int);
    let m = m0.remove(current);
    if start == goal {
        assert(current == start);
        assert(false);
    }
    assert(closed.len() == closed_pre.len() + 1);
    lemma_int_range(0, g.node_count() as int);
    lemma_len_subset(closed, set_int_range(0, g.node_count() as int));
    let cc = u32::MAX as int;
    let lc = closed.len() as int;
    assert(gcur as int <= (lc - 1) * cc);
    assert((lc - 1) * cc <= lc * cc) by (nonlinear_arith)
        requires
            cc >= 0,
    ;
    assert forall|k: usize| #[trigger] m.contains_key(k) implies m[k].1 as int <= lc * cc by {
        assert(m0.contains_key(k) && m0[k] == m[k]);
    }
    assert forall|u2: int| #[trigger]
        closed.contains(u2) implies gc.contains_key(u2) && chain_ok(
        g,
        prevv,
        start,
        u2,
        gc[u2],
        closed,
        closed.len() as int,
    ) by {
        if u2 == current as int {
            assert(chain_ok(
                g,
                prevv,
                start,
                u2,
                gcur as int,
                closed_pre,
                closed_pre.len() as int + 1,
            ));
        } else {
            assert(chain_ok(g, prevv, start, u2, gc_pre[u2], closed_pre, closed_pre.len() as int));
        }
    }
    assert forall|k: usize| #[trigger]
        m.contains_key(k) implies chain_ok(
        g,
        prevv,
        start,
        k as int,
        m[k].1 as int,
        closed,
        closed.len() as int + 1,
    ) by {
        assert(m0.contains_key(k) && m0[k] == m[k]);
        assert(chain_ok(
            g,
            prevv,
            start,
            k as int,
            m0[k].1 as int,
            closed_pre,
            closed_pre.len() as int + 1,
        ));
    }
    assert forall|u2: int| #[trigger]
        closed.contains(u2) && u2 != current as int implies covered_upto(
        g,
        m,
        closed,
        u2,
        g.out_edges(u2).len() as int,
    ) by {
        assert(covered_upto(g, m0, closed_pre, u2, g.out_edges(u2).len() as int));
        assert forall|j2: int|
            0 <= j2 < g.out_edges(u2).len() implies ({
                let t = (#[trigger] g.out_edges(u2)[j2]).0;
                closed.contains(t as int) || m.contains_key(t)
            }) by {
            let t = g.out_edges(u2)[j2].0;
            if !closed.contains(t as int) {
                assert(m0.contains_key(t));
                assert(t != current);
            }
        }
    }
    assert(search_inv(g, h, start, goal, m, closedv_post, prevv, closed, gc));
}

/// Complete offline best-first search.  Starting from `start`, repeatedly
/// pop the frontier entry with the least `(f, g)`, stop with the
/// reconstructed route when the goal is popped, otherwise relax the popped
/// node's outgoing edges and close it.
///
/// Returns `None` exactly when no walk from `start` to `goal` exists; a
/// returned route is a costed walk from `start` to `goal`.  When
/// `start == goal` the route is the single node `start`, at cost zero.
#[verifier::rlimit(100)]
pub fn a_star_offline<G: Graph, H: Heuristic>(
    graph: &G,
    start: usize,
    goal: usize,
    heuristic: &H,
) -> (r: Option<Vec<usize>>)
    requires
        graph.inv(),
        graph_wf(graph),
        (start as int) < graph.node_count(),
        (goal as int) < graph.node_count(),
        graph.node_count() <= u32::MAX as nat,
    ensures
        r is None ==> forall|p: Seq<usize>, c: int|
            !connects(graph, p, c, start as int, goal as int),
        r matches Some(path) ==> is_route(graph, path@, start as int, goal as int),
        start == goal ==> (r matches Some(path) && path@ == seq![start]),
{
    let node_ids = graph.nodes();
    let n = node_ids.len();
    let mut closedv: Vec<bool> = Vec::new();
    let mut prevv: Vec<Option<usize>> = Vec::new();
    let mut i: usize = 0;
    while i < n
        invariant
            i <= n,
            closedv@.len() == i,
            prevv@.len() == i,
            forall|k: int| 0 <= k < i ==> !(#[trigger] closedv@[k]),
            forall|k: int| 0 <= k < i ==> (#[trigger] prevv@[k]) is None,
        decreases n - i,
    {
        closedv.push(false);
        prevv.push(None);
        i = i + 1;
    }
    let mut fr = Frontier::new();
    let h0 = heuristic.eval(start);
    let _inserted = fr.insert_or_improve(start, h0 as u64, 0u64);
    let ghost mut closed: Set<int> = Set::empty();
    let ghost mut gc: Map<int, int> = Map::empty();
    proof {
        reveal(search_inv);
        reveal(chain_ok);
        assert(chain_from(prevv@, start as int, graph.node_count()) == Some(seq![start]));
        assert(walk_costed(graph, seq![start], 0));
        assert(chain_ok(graph, prevv@, start, start as int, 0, closed, 1));
        assert(fr.entries()[start] == (h0 as u64, 0u64));
        assert(closed.len() == 0);
        assert(search_inv(
            graph,
            heuristic,
            start,
            goal,
            fr.entries(),
            closedv@,
            prevv@,
            closed,
            gc,
        ));
    }
    loop
        invariant
            graph.inv(),
            graph_wf(graph),
            (start as int) < graph.node_count(),
            (goal as int) < graph.node_count(),
            graph.node_count() <= u32::MAX as nat,
            fr.wf(),
            search_inv(graph, heuristic, start, goal, fr.entries(), closedv@, prevv@, closed, gc),
            closed.len() <= graph.node_count(),
            forall|u2: int| #[trigger]
                closed.contains(u2) ==> covered_upto(
                    graph,
                    fr.entries(),
                    closed,
                    u2,
                    graph.out_edges(u2).len() as int,
                ),
        decreases graph.node_count() - closed.len(),
    {
        let ghost m0 = fr.entries();
        let popped = fr.pop_min();
        match popped {
            None => {
                proof {
                    reveal(search_inv);
                    if start == goal {
                        assert(closed.contains(start as int));
                        assert(false);
                    }
                    assert forall|p: Seq<usize>, c: int|
                        !connects(graph, p, c, start as int, goal as int) by {
                        if connects(graph, p, c, start as int, goal as int) {
                            assert(closed.contains(start as int));
                            assert(forall|u2: int, j2: int|
                                closed.contains(u2) && 0 <= j2 < graph.out_edges(u2).len()
                                    ==> closed.contains(
                                    (#[trigger] graph.out_edges(u2)[j2]).0 as int,
                                ));
                            lemma_closed_walk(graph, closed, p, c);
                            assert(closed.contains(goal as int));
                            assert(false);
                        }
                    }
                }
                return None;
            },
            Some((current, fcur, gcur)) => {
                proof {
                    reveal(search_inv);
                    assert(m0.contains_key(current));
                    assert((current as int) < graph.node_count());
                    assert(closedv@.len() == graph.node_count());
                    assert(prevv@.len() == graph.node_count());
                    assert(!closed.contains(current as int));
                }
                if current == goal {
                    proof {
                        reveal(search_inv);
                        reveal(chain_ok);
                        assert(chain_ok(
                            graph,
                            prevv@,
                            start,
                            goal as int,
                            gcur as int,
                            closed,
                            closed.len() as int + 1,
                        ));
                        lemma_chain_shape(prevv@, goal as int, graph.node_count());
                    }
                    let path = trace_prev(&prevv, goal);
                    proof {
                        reveal(search_inv);
                        reveal(chain_ok);
                        let pch = chain_from(prevv@, goal as int, graph.node_count())->Some_0;
                        assert(path@ == pch);
                        assert(connects(graph, pch, gcur as int, start as int, goal as int));
                        assert(connects(graph, path@, gcur as int, start as int, goal as int));
                        if start == goal {
                            assert(chain_from(prevv@, goal as int, graph.node_count()) == Some(
                                seq![goal],
                            ));
                            assert(path@ == seq![start]);
                        }
                    }
                    proof {
                        assert(is_route(graph, path@, start as int, goal as int));
                    }
                    return Some(path);
                }
                let ghost closedv_pre = closedv@;
                closedv[current] = true;
                let ghost closed_pre = closed;
                proof {
                    lemma_close_current(
                        graph,
                        heuristic,
                        start,
                        goal,
                        m0,
                        current,
                        fcur,
                        gcur,
                        closedv_pre,
                        closedv@,
                        prevv@,
                        closed,
                        gc,
                    );
                    closed = closed.insert(current as int);
                    gc = gc.insert(current as int, gcur as int);
                }
                let edges = graph.edges(current);
                let mut j: usize = 0;
                while j < edges.len()
                    invariant
                        graph.inv(),
                        graph_wf(graph),
                        (start as int) < graph.node_count(),
                        (goal as int) < graph.node_count(),
                        graph.node_count() <= u32::MAX as nat,
                        (current as int) < graph.node_count(),
                        start != goal,
                        fr.wf(),
                        search_inv(
                            graph,
                            heuristic,
                            start,
                            goal,
                            fr.entries(),
                            closedv@,
                            prevv@,
                            closed,
                            gc,
                        ),
                        closed.len() <= graph.node_count(),
                        closed == closed_pre.insert(current as int),
                        closed.len() == closed_pre.len() + 1,
                        closed.contains(current as int),
                        gc[current as int] == gcur as int,
                        gcur as int <= (closed.len() as int - 1) * (u32::MAX as int),
                        j <= edges.len(),
                        edges@.len() == graph.out_edges(current as int).len(),
                        forall|j2: int|
                            0 <= j2 < edges@.len() ==> (#[trigger] edges@[j2]).from == current
                                && edges@[j2].to == graph.out_edges(current as int)[j2].0
                                && edges@[j2].cost == graph.out_edges(current as int)[j2].1,
                        forall|u2: int| #[trigger]
                            closed.contains(u2) && u2 != current as int ==> covered_upto(
                                graph,
                                fr.entries(),
                                closed,
                                u2,
                                graph.out_edges(u2).len() as int,
                            ),
                        covered_upto(graph, fr.entries(), closed, current as int, j as int),
                    decreases edges@.len() - j,
                {
                    let e = edges[j];
                    let v = e.to;
                    proof {
                        reveal(search_inv);
                        assert(graph.out_edges(current as int)[j as int] == (v, e.cost));
                        assert((v as int) < graph.node_count());
                        assert(closedv@.len() == graph.node_count());
                        assert(prevv@.len() == graph.node_count());
                    }
                    if !closedv[v] {
                        let hnext = heuristic.eval(v);
                        proof {
                            reveal(search_inv);
                            assert(!closed.contains(v as int));
                            let cc = u32::MAX as int;
                            let lc = closed.len() as int;
                            assert((lc - 1) * cc + cc == lc * cc) by (nonlinear_arith);
                            assert(lc * cc <= cc * cc) by (nonlinear_arith)
                                requires
                                    0 <= lc <= cc,
                            ;
                            assert(cc * cc + cc <= u64::MAX as int);
                        }
                        let gnext = gcur + (e.cost as u64);
                        let fnext = gnext + (hnext as u64);
                        let ghost m_pre = fr.entries();
                        let ghost prev_pre = prevv@;
                        let res = fr.insert_or_improve(v, fnext, gnext);
                        let ghost m_post = fr.entries();
                        proof {
                            reveal(search_inv);
                            assert(!closed.contains(v as int));
                            if m_pre.contains_key(v) {
                                assert(m_pre[v].0 as int == m_pre[v].1 as int
                                    + heuristic.estimate(v as int));
                                if prio_lt((fnext, gnext), m_pre[v]) {
                                    assert(gnext < m_pre[v].1);
                                } else {
                                    assert(m_pre[v].1 <= gnext);
                                }
                            }
                        }
                        if res.0 {
                            prevv[v] = Some(current);
                            proof {
                                assert(m_post == m_pre.insert(v, (fnext, gnext)));
                                assert(prevv@ == prev_pre.update(v as int, Some(current)));
                                lemma_relax_newly(
                                    graph,
                                    heuristic,
                                    start,
                                    goal,
                                    closedv@,
                                    current,
                                    v,
                                    e.cost,
                                    gcur,
                                    gnext,
                                    fnext,
                                    m_pre,
                                    prev_pre,
                                    prevv@,
                                    closed,
                                    gc,
                                    j as int,
                                );
                            }
                        } else {
                            proof {
                                reveal(search_inv);
                                assert(m_post == m_pre);
                                assert(m_pre.contains_key(v));
                                assert(m_pre[v].1 <= gnext);
                                assert(covered_upto(
                                    graph,
                                    m_post,
                                    closed,
                                    current as int,
                                    j as int + 1,
                                ));
                            }
                        }
                    } else {
                        proof {
                            reveal(search_inv);
                            assert(closed.contains(v as int));
                            assert(covered_upto(
                                graph,
                                fr.entries(),
                                closed,
                                current as int,
                                j as int + 1,
                            ));
                        }
                    }
                    j = j + 1;
                }
            },
        }
    }
}

} // verus!
