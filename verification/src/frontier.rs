use vstd::prelude::*;

verus! {

// The frontier keeps, for every discovered but not yet closed node, its best
// known priority pair `(f, g)`: `g` is the cheapest cost-from-start found so
// far, `f` is `g` plus the heuristic estimate.  It is backed by the max-heap
// `priority_queue::PriorityQueue`; priorities are stored reversed, with the
// node id as a last tie-break component, so that popping the greatest stored
// priority yields the entry with the lexicographically least `(f, g, node)`.

#[verifier::external_type_specification]
#[verifier::external_body]
#[verifier::reject_recursive_types(T)]
pub struct ExReverse<T>(core::cmp::Reverse<T>);

#[verifier::external_type_specification]
#[verifier::external_body]
#[verifier::reject_recursive_types(I)]
#[verifier::reject_recursive_types(P)]
#[verifier::reject_recursive_types(H)]
pub struct ExPriorityQueue<I, P, H>(priority_queue::PriorityQueue<I, P, H>);

pub type Pq = priority_queue::PriorityQueue<
    usize,
    core::cmp::Reverse<(u64, u64, usize)>,
    std::collections::hash_map::RandomState,
>;

/// The entries held by the queue: each node id present maps to the stored
/// `(f, g)` priority pair.
pub uninterp spec fn pq_entries(q: Pq) -> Map<usize, (u64, u64)>;

/// Every stored priority triple carries its own key as third component.
/// All queues this module ever builds satisfy it.
pub uninterp spec fn pq_keyed(q: Pq) -> bool;

/// The empty frontier model.
pub open spec fn no_entries() -> Map<usize, (u64, u64)> {
    Map::<usize, (u64, u64)>::empty()
}

/// Strict "better" order on priority pairs: compare the estimated total
/// cost `f` first, break ties by the smaller cost-so-far `g`.
pub open spec fn prio_lt(a: (u64, u64), b: (u64, u64)) -> bool {
    a.0 < b.0 || (a.0 == b.0 && a.1 < b.1)
}

/// Strict total order on whole entries: priority pair first, node id last.
pub open spec fn entry_lt(k1: usize, p1: (u64, u64), k2: usize, p2: (u64, u64)) -> bool {
    prio_lt(p1, p2) || (p1 == p2 && k1 < k2)
}

/// Relies on PriorityQueue::new: the new queue is empty.
#[verifier::external_body]
fn pq_new() -> (q: Pq)
    ensures
        pq_entries(q) == no_entries(),
        pq_keyed(q),
{
    priority_queue::PriorityQueue::new()
}

/// Relies on PriorityQueue::push_increase: inserts an absent item and returns
/// None; for a present item it keeps whichever priority is greater — here,
/// whichever reversed triple is lexicographically less — and returns the
/// discarded one (the replaced priority, or the rejected new priority).
#[verifier::external_body]
fn pq_push_increase(q: &mut Pq, node: usize, f: u64, g: u64) -> (r: Option<(u64, u64)>)
    requires
        pq_keyed(*old(q)),
    ensures
        pq_keyed(*final(q)),
        !pq_entries(*old(q)).contains_key(node) ==> {
            &&& pq_entries(*final(q)) == pq_entries(*old(q)).insert(node, (f, g))
            &&& r is None
        },
        pq_entries(*old(q)).contains_key(node) ==> {
            let prev = pq_entries(*old(q))[node];
            if prio_lt((f, g), prev) {
                &&& pq_entries(*final(q)) == pq_entries(*old(q)).insert(node, (f, g))
                &&& r == Some(prev)
            } else {
                &&& pq_entries(*final(q)) == pq_entries(*old(q))
                &&& r == Some((f, g))
            }
        },
{
    let core::cmp::Reverse(triple) = match q.push_increase(node, core::cmp::Reverse((f, g, node))) {
        None => {
            return None;
        },
        Some(p) => p,
    };
    Some((triple.0, triple.1))
}

/// Relies on PriorityQueue::pop: removes and returns the pair with the
/// greatest stored priority, or None when the queue is empty.  The stored
/// priorities are distinct reversed `(f, g, node)` triples, so the entry
/// returned is exactly the one least under `entry_lt`.
#[verifier::external_body]
fn pq_pop(q: &mut Pq) -> (r: Option<(usize, u64, u64)>)
    requires
        pq_keyed(*old(q)),
    ensures
        pq_keyed(*final(q)),
        r is None ==> {
            &&& pq_entries(*old(q)) == no_entries()
            &&& pq_entries(*final(q)) == pq_entries(*old(q))
        },
        r matches Some((node, f, g)) ==> {
            &&& pq_entries(*old(q)).contains_key(node)
            &&& pq_entries(*old(q))[node] == (f, g)
            &&& forall|k2: usize| #[trigger] pq_entries(*old(q)).contains_key(k2) && k2 != node
                ==> entry_lt(node, (f, g), k2, pq_entries(*old(q))[k2])
            &&& pq_entries(*final(q)) == pq_entries(*old(q)).remove(node)
        },
{
    match q.pop() {
        None => None,
        Some((node, core::cmp::Reverse(triple))) => Some((node, triple.0, triple.1)),
    }
}


/// Monotonic relaxation: while both the held and the offered priority pair
/// carry the same heuristic term (`f == g + h`, as every pair the search
/// builds for one node does), an insert-or-improve can only lower the
/// recorded cost-so-far `g`, never raise it: a strictly better pair carries
/// a strictly smaller `g`, and any other pair leaves the entry unchanged.
pub proof fn lemma_relaxation_monotone(held: (u64, u64), offered: (u64, u64), h: int)
    requires
        held.0 as int == held.1 as int + h,
        offered.0 as int == offered.1 as int + h,
    ensures
        prio_lt(offered, held) ==> offered.1 < held.1,
        !prio_lt(offered, held) ==> held.1 <= offered.1,
{
}

/// The open set of a search: discovered nodes that are not yet closed, each
/// with its best known `(f, g)` priority.
pub struct Frontier {
    q: Pq,
}

impl Frontier {
    /// The entries currently held, node id to `(f, g)`.
    pub closed spec fn entries(&self) -> Map<usize, (u64, u64)> {
        pq_entries(self.q)
    }

    pub closed spec fn wf(&self) -> bool {
        pq_keyed(self.q)
    }

    pub fn new() -> (fr: Frontier)
        ensures
            fr.wf(),
            fr.entries() == no_entries(),
    {
        Frontier { q: pq_new() }
    }

    /// Insert the node if absent; if present, replace its priority only when
    /// the new pair is strictly better under `prio_lt`.  Returns whether the
    /// node's priority was newly set, together with the discarded priority
    /// when the node was already present.
    pub fn insert_or_improve(&mut self, node: usize, f: u64, g: u64) -> (r: (bool, Option<(
        u64,
        u64,
    )>))
        requires
            old(self).wf(),
        ensures
            final(self).wf(),
            !old(self).entries().contains_key(node) ==> {
                &&& final(self).entries() == old(self).entries().insert(node, (f, g))
                &&& r.0 && r.1 is None
            },
            old(self).entries().contains_key(node) ==> {
                let prev = old(self).entries()[node];
                if prio_lt((f, g), prev) {
                    &&& final(self).entries() == old(self).entries().insert(node, (f, g))
                    &&& r.0 && r.1 == Some(prev)
                } else {
                    &&& final(self).entries() == old(self).entries()
                    &&& !r.0 && r.1 == Some((f, g))
                }
            },
    {
        let discarded = pq_push_increase(&mut self.q, node, f, g);
        match discarded {
            None => (true, None),
            Some(p) => (p.0 != f || p.1 != g, Some(p)),
        }
    }

    /// Remove and return the entry with the lexicographically least `(f, g)`
    /// pair, ties on the whole pair broken by the smaller node id; None when
    /// the frontier is empty.
    pub fn pop_min(&mut self) -> (r: Option<(usize, u64, u64)>)
        requires
            old(self).wf(),
        ensures
            final(self).wf(),
            r is None ==> {
                &&& old(self).entries() == no_entries()
                &&& final(self).entries() == old(self).entries()
            },
            r matches Some((node, f, g)) ==> {
                &&& old(self).entries().contains_key(node)
                &&& old(self).entries()[node] == (f, g)
                &&& forall|k2: usize| #[trigger] old(self).entries().contains_key(k2) && k2 != node
                    ==> entry_lt(node, (f, g), k2, old(self).entries()[k2])
                &&& final(self).entries() == old(self).entries().remove(node)
            },
    {
        pq_pop(&mut self.q)
    }
}

} // verus!
