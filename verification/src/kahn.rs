//! The order in which Kahn's algorithm with id tie-breaking lists the nodes
//! of an acyclic graph: start from the nodes without incoming connections in
//! increasing id order; repeatedly take the first queued node, drop its
//! outgoing connections, and queue, in increasing id order, the targets that
//! no longer have incoming connections.

use vstd::prelude::*;

use crate::paths::{pending_in, EdgeMap};

verus! {

/// The ids of the nodes listed in `s` increase strictly along it.
pub open spec fn id_ordered(s: Seq<usize>, ids: Map<usize, u64>) -> bool {
    forall|i: int, j: int| #![trigger s[i], s[j]] 0 <= i < j < s.len() ==> ids[s[i]] < ids[s[j]]
}

/// `s` lists the members of `set`, each once, in increasing id order.
pub open spec fn lists_in_id_order(s: Seq<usize>, set: Set<usize>, ids: Map<usize, u64>) -> bool {
    &&& id_ordered(s, ids)
    &&& forall|x: usize| #[trigger] s.contains(x) <==> set.contains(x)
}

/// The members of `set` in increasing id order.
pub open spec fn in_id_order(set: Set<usize>, ids: Map<usize, u64>) -> Seq<usize> {
    choose|s: Seq<usize>| lists_in_id_order(s, set, ids)
}

/// Two sequences with the same members, each in strictly increasing id
/// order, are equal.
pub proof fn lemma_id_ordered_unique(a: Seq<usize>, b: Seq<usize>, ids: Map<usize, u64>)
    requires
        id_ordered(a, ids),
        id_ordered(b, ids),
        forall|x: usize| #[trigger] a.contains(x) <==> b.contains(x),
    ensures
        a == b,
    decreases a.len(),
{
    if a.len() == 0 {
        if b.len() > 0 {
            assert(b.contains(b[0]));
            assert(a.contains(b[0]));
        }
        assert(a =~= b);
    } else {
        assert(a.contains(a[0]));
        assert(b.contains(a[0]));
        let j = choose|j: int| 0 <= j < b.len() && b[j] == a[0];
        assert(b.contains(b[0]));
        assert(a.contains(b[0]));
        let i = choose|i: int| 0 <= i < a.len() && a[i] == b[0];
        if j > 0 {
            assert(ids[b[0]] < ids[b[j]]);
            if i > 0 {
                assert(ids[a[0]] < ids[a[i]]);
            } else {
                assert(b[0] == b[j]);
            }
        }
        assert(a[0] == b[0]);
        let a1 = a.drop_first();
        let b1 = b.drop_first();
        assert forall|x: usize| #[trigger] a1.contains(x) <==> b1.contains(x) by {
            if a1.contains(x) {
                let p = choose|p: int| 0 <= p < a1.len() && a1[p] == x;
                assert(a[p + 1] == x);
                assert(ids[a[0]] < ids[a[p + 1]]);
                assert(a.contains(x));
                assert(b.contains(x));
                let q = choose|q: int| 0 <= q < b.len() && b[q] == x;
                if q == 0 {
                    assert(x == a[0]);
                }
                assert(b1[q - 1] == x);
            }
            if b1.contains(x) {
                let p = choose|p: int| 0 <= p < b1.len() && b1[p] == x;
                assert(b[p + 1] == x);
                assert(ids[b[0]] < ids[b[p + 1]]);
                assert(b.contains(x));
                assert(a.contains(x));
                let q = choose|q: int| 0 <= q < a.len() && a[q] == x;
                if q == 0 {
                    assert(x == b[0]);
                }
                assert(a1[q - 1] == x);
            }
        }
        lemma_id_ordered_unique(a1, b1, ids);
        assert(a =~= b) by {
            assert forall|k: int| 0 <= k < a.len() implies a[k] == b[k] by {
                if k > 0 {
                    assert(a[k] == a1[k - 1]);
                    assert(b[k] == b1[k - 1]);
                }
            }
        }
    }
}

/// A sequence that lists `set` in increasing id order is `in_id_order(set)`.
pub proof fn lemma_in_id_order_is(s: Seq<usize>, set: Set<usize>, ids: Map<usize, u64>)
    requires
        lists_in_id_order(s, set, ids),
    ensures
        in_id_order(set, ids) == s,
{
    let c = in_id_order(set, ids);
    assert(lists_in_id_order(c, set, ids));
    lemma_id_ordered_unique(c, s, ids);
}

/// The connections leaving `v`.
pub open spec fn out_edges(edges: EdgeMap, v: usize) -> Set<usize> {
    edges.dom().filter(|e: usize| edges[e].0 == v)
}

/// The targets of `v`'s connections that have no incoming connection left
/// once the connections in `after` are dropped.
pub open spec fn freed(edges: EdgeMap, v: usize, after: Set<usize>) -> Set<usize> {
    Set::new(
        |t: usize|
            (exists|e: usize| #[trigger] edges.contains_key(e) && edges[e].0 == v && edges[e].1 == t)
                && pending_in(edges, t, after).len() == 0,
    )
}

/// Run Kahn's algorithm from a state: `queue` to visit, `done` visited in
/// order, `removed` the connections already dropped. Gives the visit order.
pub open spec fn kahn_run(
    edges: EdgeMap,
    ids: Map<usize, u64>,
    dom: Set<usize>,
    queue: Seq<usize>,
    done: Seq<usize>,
    removed: Set<usize>,
) -> Seq<usize>
    decreases dom.len() - done.len(),
{
    if queue.len() == 0 || done.len() >= dom.len() {
        done
    } else {
        let v = queue[0];
        let after = removed.union(out_edges(edges, v));
        kahn_run(
            edges,
            ids,
            dom,
            queue.drop_first() + in_id_order(freed(edges, v, after), ids),
            done.push(v),
            after,
        )
    }
}

/// The nodes (of `dom`) without incoming connections.
pub open spec fn sources(edges: EdgeMap, dom: Set<usize>) -> Set<usize> {
    dom.filter(|v: usize| pending_in(edges, v, Set::empty()).len() == 0)
}

/// The order in which Kahn's algorithm with id tie-breaking visits the
/// nodes `dom` of a graph with connections `edges` and node ids `ids`.
pub open spec fn kahn_order(edges: EdgeMap, ids: Map<usize, u64>, dom: Set<usize>) -> Seq<usize> {
    kahn_run(edges, ids, dom, in_id_order(sources(edges, dom), ids), Seq::empty(), Set::empty())
}

/// One step of the run: the first queued node is visited, its connections
/// dropped, and the freed targets queued in id order.
pub proof fn lemma_kahn_step(
    edges: EdgeMap,
    ids: Map<usize, u64>,
    dom: Set<usize>,
    queue: Seq<usize>,
    done: Seq<usize>,
    removed: Set<usize>,
    after: Set<usize>,
    pushed: Seq<usize>,
)
    requires
        queue.len() > 0,
        done.len() < dom.len(),
        after == removed.union(out_edges(edges, queue[0])),
        lists_in_id_order(pushed, freed(edges, queue[0], after), ids),
    ensures
        kahn_run(edges, ids, dom, queue, done, removed) == kahn_run(
            edges,
            ids,
            dom,
            queue.drop_first() + pushed,
            done.push(queue[0]),
            after,
        ),
{
    lemma_in_id_order_is(pushed, freed(edges, queue[0], after), ids);
}

} // verus!
