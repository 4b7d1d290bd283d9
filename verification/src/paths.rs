//! Directed paths over an edge table and the facts about reachability that
//! the node graph's proofs use.

use vstd::prelude::*;

verus! {

/// An edge table: edge index to `(source, target, from_port, to_port)`.
pub type EdgeMap = Map<usize, (usize, usize, usize, usize)>;

/// Some live edge goes from `a` to `b`.
pub open spec fn has_edge(edges: EdgeMap, a: usize, b: usize) -> bool {
    exists|e: usize| edges.contains_key(e) && #[trigger] edges[e].0 == a && edges[e].1 == b
}

/// Consecutive entries `i` and `i + 1` of `p` are joined by an edge.
pub open spec fn path_step(edges: EdgeMap, p: Seq<usize>, i: int) -> bool {
    has_edge(edges, p[i], p[i + 1])
}

/// `p` is a non-empty walk along edges.
pub open spec fn is_path(edges: EdgeMap, p: Seq<usize>) -> bool {
    &&& p.len() >= 1
    &&& forall|i: int| 0 <= i < p.len() - 1 ==> #[trigger] path_step(edges, p, i)
}

/// `b` can be reached from `a` by following zero or more edges.
pub open spec fn reaches(edges: EdgeMap, a: usize, b: usize) -> bool {
    exists|p: Seq<usize>| #[trigger] is_path(edges, p) && p[0] == a && p.last() == b
}

/// No edge closes a cycle: the target of an edge never reaches its source.
pub open spec fn acyclic(edges: EdgeMap) -> bool {
    forall|a: usize, b: usize| #[trigger] has_edge(edges, a, b) ==> !reaches(edges, b, a)
}

/// Every edge leaving a member of `s` lands in `s`.
pub open spec fn closed_under_edges(edges: EdgeMap, s: Set<usize>) -> bool {
    forall|e: usize| edges.contains_key(e) && s.contains(#[trigger] edges[e].0) ==> s.contains(edges[e].1)
}

pub proof fn lemma_reaches_refl(edges: EdgeMap, a: usize)
    ensures
        reaches(edges, a, a),
{
    let p = seq![a];
    assert(is_path(edges, p));
}

pub proof fn lemma_reaches_step(edges: EdgeMap, a: usize, b: usize, c: usize)
    requires
        reaches(edges, a, b),
        has_edge(edges, b, c),
    ensures
        reaches(edges, a, c),
{
    let p = choose|p: Seq<usize>| #[trigger] is_path(edges, p) && p[0] == a && p.last() == b;
    let q = p.push(c);
    assert forall|i: int| 0 <= i < q.len() - 1 implies #[trigger] path_step(edges, q, i) by {
        if i < p.len() - 1 {
            assert(path_step(edges, p, i));
        }
    }
    assert(is_path(edges, q));
}

/// Every entry of a path that starts inside an edge-closed set is inside it.
proof fn lemma_path_stays_in_closed(edges: EdgeMap, s: Set<usize>, p: Seq<usize>, k: int)
    requires
        closed_under_edges(edges, s),
        is_path(edges, p),
        s.contains(p[0]),
        0 <= k < p.len(),
    ensures
        s.contains(p[k]),
    decreases k,
{
    if k > 0 {
        lemma_path_stays_in_closed(edges, s, p, k - 1);
        assert(path_step(edges, p, k - 1));
        let e = choose|e: usize| edges.contains_key(e) && #[trigger] edges[e].0 == p[k - 1] && edges[e].1 == p[k];
    }
}

/// An edge-closed set holds everything reachable from its members.
pub proof fn lemma_closed_contains_reachable(edges: EdgeMap, s: Set<usize>, a: usize, b: usize)
    requires
        closed_under_edges(edges, s),
        s.contains(a),
        reaches(edges, a, b),
    ensures
        s.contains(b),
{
    let p = choose|p: Seq<usize>| #[trigger] is_path(edges, p) && p[0] == a && p.last() == b;
    lemma_path_stays_in_closed(edges, s, p, p.len() - 1);
}

/// Reachability is transitive.
pub proof fn lemma_reaches_trans(edges: EdgeMap, a: usize, b: usize, c: usize)
    requires
        reaches(edges, a, b),
        reaches(edges, b, c),
    ensures
        reaches(edges, a, c),
{
    let p = choose|p: Seq<usize>| #[trigger] is_path(edges, p) && p[0] == a && p.last() == b;
    let q = choose|q: Seq<usize>| #[trigger] is_path(edges, q) && q[0] == b && q.last() == c;
    let r = p + q.drop_first();
    assert forall|i: int| 0 <= i < r.len() - 1 implies #[trigger] path_step(edges, r, i) by {
        if i < p.len() - 1 {
            assert(path_step(edges, p, i));
        } else {
            let j = i - (p.len() - 1);
            assert(path_step(edges, q, j));
            if i == p.len() - 1 {
                assert(r[i] == q[0]);
            }
        }
    }
    assert(is_path(edges, r));
}

/// A path in a sub-table of edges is a path in the whole table.
pub proof fn lemma_reaches_submap(small: EdgeMap, big: EdgeMap, a: usize, b: usize)
    requires
        small.submap_of(big),
        reaches(small, a, b),
    ensures
        reaches(big, a, b),
{
    let p = choose|p: Seq<usize>| #[trigger] is_path(small, p) && p[0] == a && p.last() == b;
    assert forall|i: int| 0 <= i < p.len() - 1 implies #[trigger] path_step(big, p, i) by {
        assert(path_step(small, p, i));
        let e = choose|e: usize| small.contains_key(e) && #[trigger] small[e].0 == p[i] && small[e].1 == p[i + 1];
        assert(small.dom().contains(e) && big.dom().contains(e));
        assert(big.contains_key(e) && big[e] == small[e]);
    }
    assert(is_path(big, p));
}

/// Removing edges keeps a table acyclic.
pub proof fn lemma_acyclic_submap(small: EdgeMap, big: EdgeMap)
    requires
        small.submap_of(big),
        acyclic(big),
    ensures
        acyclic(small),
{
    assert forall|a: usize, b: usize| #[trigger] has_edge(small, a, b) implies !reaches(small, b, a) by {
        let e = choose|e: usize| small.contains_key(e) && #[trigger] small[e].0 == a && small[e].1 == b;
        assert(small.dom().contains(e) && big.dom().contains(e));
        assert(big.contains_key(e) && big[e] == small[e]);
        assert(has_edge(big, a, b));
        if reaches(small, b, a) {
            lemma_reaches_submap(small, big, b, a);
        }
    }
}

/// After adding the edge `f -> t`, anything newly reachable goes through it.
proof fn lemma_reaches_after_insert_path(
    edges: EdgeMap,
    e: usize,
    f: usize,
    t: usize,
    fp: usize,
    tp: usize,
    p: Seq<usize>,
)
    requires
        is_path(edges.insert(e, (f, t, fp, tp)), p),
    ensures
        reaches(edges, p[0], p.last()) || (reaches(edges, p[0], f) && reaches(edges, t, p.last())),
    decreases p.len(),
{
    let big = edges.insert(e, (f, t, fp, tp));
    if p.len() == 1 {
        lemma_reaches_refl(edges, p[0]);
    } else {
        let q = p.drop_last();
        assert forall|i: int| 0 <= i < q.len() - 1 implies #[trigger] path_step(big, q, i) by {
            assert(path_step(big, p, i));
        }
        lemma_reaches_after_insert_path(edges, e, f, t, fp, tp, q);
        let u = q.last();
        let y = p.last();
        assert(path_step(big, p, p.len() - 2));
        let k = choose|k: usize| big.contains_key(k) && #[trigger] big[k].0 == u && big[k].1 == y;
        if k == e {
            lemma_reaches_refl(edges, t);
            if reaches(edges, p[0], u) {
            } else {
            }
        } else {
            assert(edges.contains_key(k) && edges[k] == big[k]);
            assert(has_edge(edges, u, y));
            if reaches(edges, p[0], u) {
                lemma_reaches_step(edges, p[0], u, y);
            } else {
                lemma_reaches_step(edges, t, u, y);
            }
        }
    }
}

pub proof fn lemma_reaches_after_insert(edges: EdgeMap, e: usize, f: usize, t: usize, fp: usize, tp: usize, x: usize, y: usize)
    requires
        reaches(edges.insert(e, (f, t, fp, tp)), x, y),
    ensures
        reaches(edges, x, y) || (reaches(edges, x, f) && reaches(edges, t, y)),
{
    let big = edges.insert(e, (f, t, fp, tp));
    let p = choose|p: Seq<usize>| #[trigger] is_path(big, p) && p[0] == x && p.last() == y;
    lemma_reaches_after_insert_path(edges, e, f, t, fp, tp, p);
}

/// Adding an edge `f -> t` to an acyclic table keeps it acyclic when `t`
/// does not reach `f`.
pub proof fn lemma_acyclic_insert(edges: EdgeMap, e: usize, f: usize, t: usize, fp: usize, tp: usize)
    requires
        acyclic(edges),
        !edges.contains_key(e),
        !reaches(edges, t, f),
    ensures
        acyclic(edges.insert(e, (f, t, fp, tp))),
{
    let big = edges.insert(e, (f, t, fp, tp));
    assert forall|a: usize, b: usize| #[trigger] has_edge(big, a, b) implies !reaches(big, b, a) by {
        if reaches(big, b, a) {
            lemma_reaches_after_insert(edges, e, f, t, fp, tp, b, a);
            let k = choose|k: usize| big.contains_key(k) && #[trigger] big[k].0 == a && big[k].1 == b;
            if k == e {
                // a == f, b == t
                if reaches(edges, b, a) {
                } else {
                }
            } else {
                assert(edges.contains_key(k) && edges[k] == big[k]);
                assert(has_edge(edges, a, b));
                if reaches(edges, b, a) {
                } else {
                    // t ->* a -> b ->* f in the old table
                    lemma_reaches_step(edges, t, a, b);
                    lemma_reaches_trans(edges, t, b, f);
                }
            }
        }
    }
}

/// The edges into `v` that are not yet in `removed`.
pub open spec fn pending_in(edges: EdgeMap, v: usize, removed: Set<usize>) -> Set<usize> {
    edges.dom().filter(|e: usize| edges[e].1 == v && !removed.contains(e))
}

/// Every member of `u` has an edge coming in from another member of `u`.
pub open spec fn fed_from_within(edges: EdgeMap, u: Set<usize>) -> bool {
    forall|v: usize| #[trigger] u.contains(v) ==> exists|e: usize| edges.contains_key(e) && edges[e].1 == v && u.contains(#[trigger] edges[e].0)
}

/// Walking edges backwards inside `u` gives paths of any length.
proof fn lemma_backward_walk(edges: EdgeMap, u: Set<usize>, w: usize, n: nat) -> (p: Seq<usize>)
    requires
        u.contains(w),
        fed_from_within(edges, u),
    ensures
        p.len() == n + 1,
        is_path(edges, p),
        forall|i: int| 0 <= i < p.len() ==> u.contains(#[trigger] p[i]),
    decreases n,
{
    if n == 0 {
        let p = seq![w];
        assert(is_path(edges, p));
        p
    } else {
        let q = lemma_backward_walk(edges, u, w, (n - 1) as nat);
        let v = q[0];
        assert(u.contains(v));
        let e = choose|e: usize| edges.contains_key(e) && edges[e].1 == v && u.contains(#[trigger] edges[e].0);
        let s = edges[e].0;
        let p = seq![s] + q;
        assert forall|i: int| 0 <= i < p.len() - 1 implies #[trigger] path_step(edges, p, i) by {
            if i == 0 {
                assert(p[0] == s && p[1] == v);
                assert(has_edge(edges, s, v));
            } else {
                assert(path_step(edges, q, i - 1));
                assert(p[i] == q[i - 1] && p[i + 1] == q[i]);
            }
        }
        assert forall|i: int| 0 <= i < p.len() implies u.contains(#[trigger] p[i]) by {
            if i > 0 {
                assert(p[i] == q[i - 1]);
            }
        }
        p
    }
}

/// In an acyclic table no non-empty finite set is fed only from within
/// itself: following incoming edges backwards would have to repeat a node.
pub proof fn lemma_fed_set_is_empty(edges: EdgeMap, u: Set<usize>, w: usize)
    requires
        acyclic(edges),
        u.finite(),
        u.contains(w),
    ensures
        !fed_from_within(edges, u),
{
    if fed_from_within(edges, u) {
        let p = lemma_backward_walk(edges, u, w, u.len());
        if p.no_duplicates() {
            p.unique_seq_to_set();
            assert(p.to_set().subset_of(u));
            vstd::set_lib::lemma_len_subset(p.to_set(), u);
        } else {
            let (i0, j0) = choose|i: int, j: int| 0 <= i < p.len() && 0 <= j < p.len() && i != j && p[i] == p[j];
            let i = if i0 < j0 { i0 } else { j0 };
            let j = if i0 < j0 { j0 } else { i0 };
            assert(path_step(edges, p, i));
            let q = p.subrange(i + 1, j + 1);
            assert forall|k: int| 0 <= k < q.len() - 1 implies #[trigger] path_step(edges, q, k) by {
                assert(path_step(edges, p, i + 1 + k));
                assert(q[k] == p[i + 1 + k] && q[k + 1] == p[i + 2 + k]);
            }
            assert(is_path(edges, q));
            assert(q[0] == p[i + 1] && q.last() == p[i]);
            assert(has_edge(edges, p[i], p[i + 1]));
            assert(reaches(edges, p[i + 1], p[i]));
        }
    }
}

} // verus!
