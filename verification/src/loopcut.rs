//! Edge-loop insertion ("loop cut") across a strip of quads.
//!
//! Starting from one edge, the cut walks across each quad to the opposite
//! edge, hops to the neighbouring quad, and continues, closing into a ring or
//! stopping at a boundary, a non-quad or an already crossed quad. Every crossed
//! edge gets one midpoint vertex and every crossed quad is split in two.
//!
//! The walk is stated step by step by [`walk`]; the split that follows by
//! [`split_loops`] and [`mid_edges`].

use vstd::prelude::*;

use glam::Vec3;

use crate::meshedit::{
    contains_index, edge_key, face_edge, key, loops_in_range, loops_of, opposite, opposite_edge,
    EditMesh,
};

verus! {

/// `Vec3::midpoint`: the point halfway between `a` and `b`. The coordinates
/// are floating point and opaque to the verifier, so nothing is stated about
/// the returned value.
#[verifier::external_body]
fn vec3_midpoint(a: Vec3, b: Vec3) -> Vec3 {
    a.midpoint(b)
}

/// How many of the first `n` edges of loop `f` have key `e`.
pub open spec fn edge_hits(f: Seq<usize>, e: (usize, usize), n: nat) -> nat
    decreases n,
{
    if n == 0 {
        0
    } else {
        edge_hits(f, e, (n - 1) as nat) + if face_edge(f, n - 1) == e {
            1nat
        } else {
            0nat
        }
    }
}

/// The faces among the first `n` that use edge `e`, in face order, each
/// listed once per edge of it with key `e`.
pub open spec fn faces_along(loops: Seq<Seq<usize>>, e: (usize, usize), n: nat) -> Seq<usize>
    decreases n,
{
    if n == 0 {
        Seq::empty()
    } else {
        faces_along(loops, e, (n - 1) as nat) + Seq::new(
            edge_hits(loops[n - 1], e, loops[n - 1].len()),
            |j: int| (n - 1) as usize,
        )
    }
}

/// The faces that use edge `e`.
pub open spec fn adjacent_faces(loops: Seq<Seq<usize>>, e: (usize, usize)) -> Seq<usize> {
    faces_along(loops, e, loops.len())
}

/// The first entry of `adj` other than `from`.
pub open spec fn first_other(adj: Seq<usize>, from: Option<usize>) -> Option<usize>
    decreases adj.len(),
{
    if adj.len() == 0 {
        None
    } else if from != Some(adj[0]) {
        Some(adj[0])
    } else {
        first_other(adj.drop_first(), from)
    }
}

/// One pass of the walk, from edge `cur` having left face `from`, with the
/// faces crossed so far in `strip` and the crossed edges in `cut`: enter the
/// first face along `cur` other than `from`; stop if there is none, if it was
/// crossed already or if it is not a quad holding `cur`; otherwise record it,
/// record `cur` and the edge across, and go on from that edge unless it is
/// `start`.
pub open spec fn walk(
    loops: Seq<Seq<usize>>,
    start: (usize, usize),
    cur: (usize, usize),
    from: Option<usize>,
    strip: Seq<usize>,
    cut: Seq<(usize, usize)>,
) -> (Seq<usize>, Seq<(usize, usize)>)
    decreases loops.len() - strip.len(),
{
    if strip.len() >= loops.len() {
        (strip, cut)
    } else {
        match first_other(adjacent_faces(loops, cur), from) {
            None => (strip, cut),
            Some(nf) => {
                if strip.contains(nf) {
                    (strip, cut)
                } else {
                    match opposite(loops[nf as int], cur) {
                        None => (strip, cut),
                        Some(opp) => {
                            let next = edge_key(opp.0, opp.1);
                            let s2 = strip.push(nf);
                            let c2 = cut.push(cur).push(next);
                            if next == start {
                                (s2, c2)
                            } else {
                                walk(loops, start, next, Some(nf), s2, c2)
                            }
                        },
                    }
                }
            },
        }
    }
}

/// The crossed faces (in crossing order) and crossed edges of a cut started
/// at edge `{a, b}`: a first pass that avoids the second face along the edge,
/// then, if there is a second face, a pass that avoids the first.
pub open spec fn cut_walks(loops: Seq<Seq<usize>>, a: usize, b: usize) -> (Seq<usize>, Seq<(usize, usize)>) {
    let start = edge_key(a, b);
    let sf = adjacent_faces(loops, start);
    if sf.len() == 0 {
        (Seq::empty(), Seq::empty())
    } else {
        let first = walk(
            loops,
            start,
            start,
            if sf.len() > 1 {
                Some(sf[1])
            } else {
                None
            },
            Seq::empty(),
            Seq::empty(),
        );
        if sf.len() > 1 {
            walk(loops, start, start, Some(sf[0]), first.0, first.1)
        } else {
            first
        }
    }
}

/// Quad `q` is split along edges 0 and 2 (rather than 1 and 3).
pub open spec fn splits_first_way(q: Seq<usize>, cut: Seq<(usize, usize)>) -> bool {
    cut.contains(face_edge(q, 0)) && cut.contains(face_edge(q, 2))
}

/// Quad `q` has a pair of opposite edges in `cut`.
pub open spec fn crossed(q: Seq<usize>, cut: Seq<(usize, usize)>) -> bool {
    q.len() == 4 && (splits_first_way(q, cut) || (cut.contains(face_edge(q, 1)) && cut.contains(
        face_edge(q, 3),
    )))
}

/// The two edges of `q` that get midpoints, in the order they are used.
pub open spec fn split_pair(q: Seq<usize>, cut: Seq<(usize, usize)>) -> ((usize, usize), (usize, usize)) {
    if splits_first_way(q, cut) {
        (face_edge(q, 0), face_edge(q, 2))
    } else {
        (face_edge(q, 1), face_edge(q, 3))
    }
}

/// `m` with `e` appended unless already present.
pub open spec fn add_new(m: Seq<(usize, usize)>, e: (usize, usize)) -> Seq<(usize, usize)> {
    if m.contains(e) {
        m
    } else {
        m.push(e)
    }
}

/// The edges that received a midpoint after splitting the first `k` faces of
/// `strip`, in the order their midpoints were created.
pub open spec fn mid_edges(
    loops: Seq<Seq<usize>>,
    strip: Seq<usize>,
    cut: Seq<(usize, usize)>,
    k: nat,
) -> Seq<(usize, usize)>
    decreases k,
{
    if k == 0 {
        Seq::empty()
    } else {
        let m = mid_edges(loops, strip, cut, (k - 1) as nat);
        let p = split_pair(loops[strip[k - 1] as int], cut);
        add_new(add_new(m, p.0), p.1)
    }
}

/// Splitting `k` faces adds at most two new vertices per face (fewer where
/// neighbouring faces share a cut edge's midpoint).
pub proof fn lemma_mid_edges_len(loops: Seq<Seq<usize>>, strip: Seq<usize>, cut: Seq<(usize, usize)>, k: nat)
    ensures
        mid_edges(loops, strip, cut, k).len() <= 2 * k,
    decreases k,
{
    if k > 0 {
        lemma_mid_edges_len(loops, strip, cut, (k - 1) as nat);
    }
}

/// Position of the last occurrence of `e` in `s` (-1 if absent).
pub open spec fn find_last(s: Seq<(usize, usize)>, e: (usize, usize)) -> int
    decreases s.len(),
{
    if s.len() == 0 {
        -1
    } else if s.last() == e {
        s.len() - 1
    } else {
        find_last(s.drop_last(), e)
    }
}

/// Vertex index of the midpoint of edge `e`: midpoints are numbered from `np`
/// in creation order.
pub open spec fn mid_vertex(mids: Seq<(usize, usize)>, e: (usize, usize), np: int) -> usize {
    (np + find_last(mids, e)) as usize
}

/// The half of quad `q` that keeps its face index.
pub open spec fn first_half(q: Seq<usize>, cut: Seq<(usize, usize)>, mids: Seq<(usize, usize)>, np: int) -> Seq<usize> {
    let p = split_pair(q, cut);
    let m0 = mid_vertex(mids, p.0, np);
    let m1 = mid_vertex(mids, p.1, np);
    if splits_first_way(q, cut) {
        seq![q[0], m0, m1, q[3]]
    } else {
        seq![q[1], m0, m1, q[0]]
    }
}

/// The half of quad `q` appended as a new face.
pub open spec fn second_half(q: Seq<usize>, cut: Seq<(usize, usize)>, mids: Seq<(usize, usize)>, np: int) -> Seq<usize> {
    let p = split_pair(q, cut);
    let m0 = mid_vertex(mids, p.0, np);
    let m1 = mid_vertex(mids, p.1, np);
    if splits_first_way(q, cut) {
        seq![m0, q[1], q[2], m1]
    } else {
        seq![m0, q[2], q[3], m1]
    }
}

/// The face loops after splitting the first `k` faces of `strip`: each split
/// face keeps its first half in place, and the second halves are appended in
/// strip order.
pub open spec fn split_prefix(
    loops: Seq<Seq<usize>>,
    strip: Seq<usize>,
    cut: Seq<(usize, usize)>,
    mids: Seq<(usize, usize)>,
    np: int,
    k: int,
) -> Seq<Seq<usize>> {
    Seq::new(
        loops.len(),
        |f: int|
            if strip.subrange(0, k).contains(f as usize) {
                first_half(loops[f], cut, mids, np)
            } else {
                loops[f]
            },
    ) + Seq::new(k as nat, |j: int| second_half(loops[strip[j] as int], cut, mids, np))
}

/// The face loops after splitting every face of `strip`.
pub open spec fn split_loops(
    loops: Seq<Seq<usize>>,
    strip: Seq<usize>,
    cut: Seq<(usize, usize)>,
    np: int,
) -> Seq<Seq<usize>> {
    split_prefix(loops, strip, cut, mid_edges(loops, strip, cut, strip.len()), np, strip.len() as int)
}

/// The crossed faces only name existing vertices.
pub open spec fn strip_in_range(loops: Seq<Seq<usize>>, strip: Seq<usize>, np: nat) -> bool {
    forall|k: int, t: int|
        0 <= k < strip.len() && 0 <= t < loops[strip[k] as int].len() ==> #[trigger] loops[strip[k] as int][t]
            < np
}

/// What a walk keeps: distinct crossed faces, each a quad with a pair of
/// opposite edges cut.
pub open spec fn strip_ok(loops: Seq<Seq<usize>>, strip: Seq<usize>, cut: Seq<(usize, usize)>) -> bool {
    &&& strip.no_duplicates()
    &&& forall|k: int| 0 <= k < strip.len() ==> #[trigger] strip[k] < loops.len()
    &&& forall|k: int| 0 <= k < strip.len() ==> crossed(#[trigger] loops[strip[k] as int], cut)
}

/// A cut whose start edge borders no face crosses nothing: the faces and
/// the vertex count stay as they were.
pub proof fn lemma_cut_unknown_edge(loops: Seq<Seq<usize>>, a: usize, b: usize, np: int)
    requires
        adjacent_faces(loops, edge_key(a, b)).len() == 0,
    ensures
        cut_walks(loops, a, b).0.len() == 0,
        split_loops(loops, cut_walks(loops, a, b).0, cut_walks(loops, a, b).1, np) == loops,
        mid_edges(loops, cut_walks(loops, a, b).0, cut_walks(loops, a, b).1, 0).len() == 0,
{
    let w = cut_walks(loops, a, b);
    assert(w.0 =~= Seq::<usize>::empty());
    assert(w.0.subrange(0, 0) =~= Seq::<usize>::empty());
    assert(split_loops(loops, w.0, w.1, np) =~= loops);
}

/// A cut started on an edge between two quads runs both ways: both quads
/// along the start edge are crossed, so at least two faces are split.
pub proof fn lemma_cut_crosses_both_sides(loops: Seq<Seq<usize>>, a: usize, b: usize)
    requires
        loops.len() <= usize::MAX,
        adjacent_faces(loops, edge_key(a, b)).len() >= 2,
        adjacent_faces(loops, edge_key(a, b))[0] != adjacent_faces(loops, edge_key(a, b))[1],
        loops[adjacent_faces(loops, edge_key(a, b))[0] as int].len() == 4,
        loops[adjacent_faces(loops, edge_key(a, b))[1] as int].len() == 4,
    ensures
        cut_walks(loops, a, b).0.contains(adjacent_faces(loops, edge_key(a, b))[0]),
        cut_walks(loops, a, b).0.contains(adjacent_faces(loops, edge_key(a, b))[1]),
        cut_walks(loops, a, b).0.len() >= 2,
{
    let start = edge_key(a, b);
    let sf = adjacent_faces(loops, start);
    let f0 = sf[0];
    let f1 = sf[1];
    lemma_faces_along_bounded(loops, start, loops.len());
    assert(f0 < loops.len() && f1 < loops.len());
    lemma_along_quad_has_opposite(loops, start, 0);
    lemma_along_quad_has_opposite(loops, start, 1);
    let e: Seq<usize> = Seq::empty();
    let c: Seq<(usize, usize)> = Seq::empty();
    assert(strip_ok(loops, e, c));
    // The first pass enters the first face along the start edge.
    assert(first_other(sf, Some(f1)) == Some(f0));
    let opp0 = opposite(loops[f0 as int], start).unwrap();
    let next0 = edge_key(opp0.0, opp0.1);
    let s1 = e.push(f0);
    let c1 = c.push(start).push(next0);
    assert(strip_ok(loops, s1, c1)) by {
        lemma_step_ok(loops, e, c, start, f0);
    }
    let first = walk(loops, start, start, Some(f1), e, c);
    if next0 != start {
        lemma_walk_ok(loops, start, next0, Some(f0), s1, c1);
        assert(first == walk(loops, start, next0, Some(f0), s1, c1));
        assert(first.0.len() >= 1);
        assert(first.0.subrange(0, 1) == s1);
        assert(first.0.subrange(0, 1)[0] == first.0[0]);
        assert(first.0[0] == f0);
    } else {
        assert(first.0 == s1);
    }
    assert(first.0.contains(f0)) by {
        assert(first.0[0] == f0);
    }
    lemma_walk_ok(loops, start, start, Some(f1), e, c);
    let w = cut_walks(loops, a, b);
    assert(w == walk(loops, start, start, Some(f0), first.0, first.1));
    lemma_walk_ok(loops, start, start, Some(f0), first.0, first.1);
    assert(w.0.subrange(0, first.0.len() as int) == first.0);
    assert(w.0.contains(f0)) by {
        let i = choose|i: int| 0 <= i < first.0.len() && first.0[i] == f0;
        assert(w.0[i] == f0);
    }
    // The second pass enters the other face, unless the first pass already
    // crossed it (or crossed every face).
    if first.0.len() >= loops.len() {
        lemma_distinct_below(first.0, loops.len());
        assert(first.0.contains(f1));
        assert(w == first);
    } else {
        assert(sf.drop_first()[0] == f1);
        assert(first_other(sf.drop_first(), Some(f0)) == Some(f1));
        assert(first_other(sf, Some(f0)) == Some(f1));
        if first.0.contains(f1) {
            assert(w == first);
        } else {
            let opp1 = opposite(loops[f1 as int], start).unwrap();
            let next1 = edge_key(opp1.0, opp1.1);
            let s2 = first.0.push(f1);
            let c2 = first.1.push(start).push(next1);
            if next1 != start {
                lemma_step_ok(loops, first.0, first.1, start, f1);
                lemma_walk_ok(loops, start, next1, Some(f1), s2, c2);
                assert(w == walk(loops, start, next1, Some(f1), s2, c2));
                assert(w.0.len() >= s2.len());
                assert(w.0.subrange(0, s2.len() as int) == s2);
                assert(w.0.subrange(0, s2.len() as int)[first.0.len() as int] == w.0[first.0.len() as int]);
                assert(w.0[first.0.len() as int] == f1);
            } else {
                assert(w.0 == s2);
                assert(w.0[first.0.len() as int] == f1);
            }
        }
    }
    assert(w.0.contains(f1));
    let i0 = choose|i: int| 0 <= i < w.0.len() && w.0[i] == f0;
    let i1 = choose|i: int| 0 <= i < w.0.len() && w.0[i] == f1;
    assert(i0 != i1);
}

/// A quad listed along edge `e` holds `e`, so the walk can cross it.
proof fn lemma_along_quad_has_opposite(loops: Seq<Seq<usize>>, e: (usize, usize), j: int)
    requires
        loops.len() <= usize::MAX,
        e == edge_key(e.0, e.1),
        0 <= j < adjacent_faces(loops, e).len(),
        loops[adjacent_faces(loops, e)[j] as int].len() == 4,
    ensures
        opposite(loops[adjacent_faces(loops, e)[j] as int], e) is Some,
{
    lemma_along_has_hits(loops, e, loops.len(), j);
    let f = loops[adjacent_faces(loops, e)[j] as int];
    lemma_hits_some_edge(f, e, f.len());
    let i = choose|i: int| 0 <= i < f.len() && face_edge(f, i) == e;
    assert(i == 0 || i == 1 || i == 2 || i == 3);
}

proof fn lemma_along_has_hits(loops: Seq<Seq<usize>>, e: (usize, usize), n: nat, j: int)
    requires
        n <= loops.len() <= usize::MAX,
        0 <= j < faces_along(loops, e, n).len(),
    ensures
        faces_along(loops, e, n)[j] < n,
        edge_hits(loops[faces_along(loops, e, n)[j] as int], e, loops[faces_along(loops, e, n)[j] as int].len()) > 0,
    decreases n,
{
    let prev = faces_along(loops, e, (n - 1) as nat);
    if j < prev.len() {
        lemma_along_has_hits(loops, e, (n - 1) as nat, j);
        assert(faces_along(loops, e, n)[j] == prev[j]);
    } else {
        let h = edge_hits(loops[n - 1], e, loops[n - 1].len());
        let tail = Seq::new(h, |q: int| (n - 1) as usize);
        assert(faces_along(loops, e, n) == prev + tail);
        assert(j < prev.len() + h);
        assert(faces_along(loops, e, n)[j] == tail[j - prev.len()]);
        assert(faces_along(loops, e, n)[j] == (n - 1) as usize);
        assert(h > 0);
    }
}

proof fn lemma_hits_some_edge(f: Seq<usize>, e: (usize, usize), n: nat)
    requires
        edge_hits(f, e, n) > 0,
    ensures
        exists|i: int| 0 <= i < n && face_edge(f, i) == e,
    decreases n,
{
    if face_edge(f, n - 1) != e {
        lemma_hits_some_edge(f, e, (n - 1) as nat);
        let i = choose|i: int| 0 <= i < n - 1 && face_edge(f, i) == e;
        assert(0 <= i < n && face_edge(f, i) == e);
    }
}

// ---------------------------------------------------------------------------
// Lemmas
// ---------------------------------------------------------------------------

/// Every face listed along an edge is a face index.
pub proof fn lemma_faces_along_bounded(loops: Seq<Seq<usize>>, e: (usize, usize), n: nat)
    requires
        n <= loops.len(),
    ensures
        forall|j: int| 0 <= j < faces_along(loops, e, n).len() ==> #[trigger] faces_along(loops, e, n)[j] < n,
    decreases n,
{
    if n > 0 {
        lemma_faces_along_bounded(loops, e, (n - 1) as nat);
        let prev = faces_along(loops, e, (n - 1) as nat);
        let all = faces_along(loops, e, n);
        assert forall|j: int| 0 <= j < all.len() implies #[trigger] all[j] < n by {
            if j < prev.len() {
                assert(all[j] == prev[j]);
            }
        }
    }
}

/// The first entry other than `from` is an entry.
pub proof fn lemma_first_other_in(adj: Seq<usize>, from: Option<usize>)
    requires
        first_other(adj, from).is_some(),
    ensures
        adj.contains(first_other(adj, from).unwrap()),
    decreases adj.len(),
{
    if from == Some(adj[0]) {
        lemma_first_other_in(adj.drop_first(), from);
        let x = first_other(adj.drop_first(), from).unwrap();
        let j = choose|j: int| 0 <= j < adj.drop_first().len() && adj.drop_first()[j] == x;
        assert(adj[j + 1] == x);
    } else {
        assert(adj[0] == first_other(adj, from).unwrap());
    }
}

/// The `usize` values below `n` form a finite set of `n` elements.
pub proof fn lemma_usize_range(n: nat)
    requires
        n <= usize::MAX + 1,
    ensures
        Set::new(|x: usize| x < n).finite(),
        Set::new(|x: usize| x < n).len() == n,
    decreases n,
{
    if n == 0 {
        assert(Set::new(|x: usize| x < n) =~= Set::<usize>::empty());
    } else {
        lemma_usize_range((n - 1) as nat);
        assert(Set::new(|x: usize| x < n) =~= Set::new(|x: usize| x < (n - 1) as nat).insert((n - 1) as usize));
    }
}

/// Distinct indices below `n` number at most `n`; with exactly `n` of them
/// every index below `n` occurs.
pub proof fn lemma_distinct_below(s: Seq<usize>, n: nat)
    requires
        n <= usize::MAX + 1,
        s.no_duplicates(),
        forall|k: int| 0 <= k < s.len() ==> #[trigger] s[k] < n,
    ensures
        s.len() <= n,
        s.len() == n ==> forall|x: usize| x < n ==> s.contains(x),
{
    let all = Set::new(|x: usize| x < n);
    lemma_usize_range(n);
    s.unique_seq_to_set();
    let st = s.to_set();
    assert(st.subset_of(all)) by {
        assert forall|x: usize| st.contains(x) implies all.contains(x) by {
            let k = choose|k: int| 0 <= k < s.len() && s[k] == x;
            assert(s[k] < n);
        }
    }
    vstd::set_lib::lemma_len_subset(st, all);
    if s.len() == n {
        vstd::set_lib::lemma_subset_equality(st, all);
        assert forall|x: usize| x < n implies s.contains(x) by {
            assert(all.contains(x));
            assert(st.contains(x));
        }
    }
}

/// A crossed quad stays crossed when more edges are cut.
pub proof fn lemma_crossed_grows(q: Seq<usize>, cut: Seq<(usize, usize)>, more: Seq<(usize, usize)>)
    requires
        crossed(q, cut),
    ensures
        crossed(q, cut + more),
{
    assert forall|e: (usize, usize)| cut.contains(e) implies (cut + more).contains(e) by {
        let j = choose|j: int| 0 <= j < cut.len() && cut[j] == e;
        assert((cut + more)[j] == e);
    }
}

/// Crossing the face that holds `cur` at edge `i` cuts a pair of opposite
/// edges of it.
pub proof fn lemma_cross_step(q: Seq<usize>, cur: (usize, usize), cut: Seq<(usize, usize)>)
    requires
        cur == edge_key(cur.0, cur.1),
        opposite(q, cur).is_some(),
    ensures
        q.len() == 4,
        crossed(q, cut.push(cur).push(edge_key(opposite(q, cur).unwrap().0, opposite(q, cur).unwrap().1))),
{
    let opp = opposite(q, cur).unwrap();
    let c2 = cut.push(cur).push(edge_key(opp.0, opp.1));
    assert(c2.contains(cur)) by {
        assert(c2[cut.len() as int] == cur);
    }
    assert(c2.contains(edge_key(opp.0, opp.1))) by {
        assert(c2[cut.len() as int + 1] == edge_key(opp.0, opp.1));
    }
}

/// Crossing a fresh face that holds `cur` keeps `strip_ok`.
pub proof fn lemma_step_ok(
    loops: Seq<Seq<usize>>,
    strip: Seq<usize>,
    cut: Seq<(usize, usize)>,
    cur: (usize, usize),
    nf: usize,
)
    requires
        strip_ok(loops, strip, cut),
        cur == edge_key(cur.0, cur.1),
        !strip.contains(nf),
        nf < loops.len(),
        opposite(loops[nf as int], cur).is_some(),
    ensures
        strip_ok(
            loops,
            strip.push(nf),
            cut.push(cur).push(
                edge_key(opposite(loops[nf as int], cur).unwrap().0, opposite(loops[nf as int], cur).unwrap().1),
            ),
        ),
{
    let opp = opposite(loops[nf as int], cur).unwrap();
    let next = edge_key(opp.0, opp.1);
    let s2 = strip.push(nf);
    let c2 = cut.push(cur).push(next);
    lemma_cross_step(loops[nf as int], cur, cut);
    assert(c2 == cut + seq![cur, next]);
    assert forall|k: int| 0 <= k < s2.len() implies crossed(#[trigger] loops[s2[k] as int], c2) by {
        if k < strip.len() {
            assert(s2[k] == strip[k]);
            lemma_crossed_grows(loops[strip[k] as int], cut, seq![cur, next]);
        }
    }
    assert(s2.no_duplicates()) by {
        assert forall|x: int, y: int| 0 <= x < s2.len() && 0 <= y < s2.len() && x != y implies s2[x] != s2[y] by {
            if x < strip.len() && y == strip.len() {
                assert(strip.contains(strip[x]));
            } else if y < strip.len() && x == strip.len() {
                assert(strip.contains(strip[y]));
            }
        }
    }
    assert(forall|k: int| 0 <= k < s2.len() ==> #[trigger] s2[k] < loops.len());
}

/// A walk keeps `strip_ok`, only appends to the strip and the cut, and never
/// crosses more faces than there are.
pub proof fn lemma_walk_ok(
    loops: Seq<Seq<usize>>,
    start: (usize, usize),
    cur: (usize, usize),
    from: Option<usize>,
    strip: Seq<usize>,
    cut: Seq<(usize, usize)>,
)
    requires
        strip_ok(loops, strip, cut),
        cur == edge_key(cur.0, cur.1),
    ensures
        ({
            let r = walk(loops, start, cur, from, strip, cut);
            &&& strip_ok(loops, r.0, r.1)
            &&& r.0.subrange(0, strip.len() as int) == strip
            &&& r.1.subrange(0, cut.len() as int) == cut
            &&& r.0.len() >= strip.len()
            &&& r.1.len() >= cut.len()
        }),
    decreases loops.len() - strip.len(),
{
    let r = walk(loops, start, cur, from, strip, cut);
    if strip.len() >= loops.len() {
        assert(r == (strip, cut));
        assert(strip.subrange(0, strip.len() as int) =~= strip);
        assert(cut.subrange(0, cut.len() as int) =~= cut);
    } else {
        match first_other(adjacent_faces(loops, cur), from) {
            None => {
                assert(strip.subrange(0, strip.len() as int) =~= strip);
                assert(cut.subrange(0, cut.len() as int) =~= cut);
            },
            Some(nf) => {
                if strip.contains(nf) {
                    assert(strip.subrange(0, strip.len() as int) =~= strip);
                    assert(cut.subrange(0, cut.len() as int) =~= cut);
                } else {
                    match opposite(loops[nf as int], cur) {
                        None => {
                            assert(strip.subrange(0, strip.len() as int) =~= strip);
                            assert(cut.subrange(0, cut.len() as int) =~= cut);
                        },
                        Some(opp) => {
                            let next = edge_key(opp.0, opp.1);
                            let s2 = strip.push(nf);
                            let c2 = cut.push(cur).push(next);
                            lemma_first_other_in(adjacent_faces(loops, cur), from);
                            lemma_faces_along_bounded(loops, cur, loops.len());
                            let adj = adjacent_faces(loops, cur);
                            let j = choose|j: int| 0 <= j < adj.len() && adj[j] == nf;
                            assert(adj[j] < loops.len());
                            lemma_cross_step(loops[nf as int], cur, cut);
                            assert(c2 == cut + seq![cur, next]);
                            assert forall|k: int| 0 <= k < s2.len() implies crossed(#[trigger] loops[s2[k] as int], c2) by {
                                if k < strip.len() {
                                    assert(s2[k] == strip[k]);
                                    lemma_crossed_grows(loops[strip[k] as int], cut, seq![cur, next]);
                                }
                            }
                            assert(s2.no_duplicates()) by {
                                assert forall|x: int, y: int| 0 <= x < s2.len() && 0 <= y < s2.len() && x != y implies s2[x] != s2[y] by {
                                    if x < strip.len() && y == strip.len() {
                                        assert(strip.contains(strip[x]));
                                    } else if y < strip.len() && x == strip.len() {
                                        assert(strip.contains(strip[y]));
                                    }
                                }
                            }
                            assert(forall|k: int| 0 <= k < s2.len() ==> #[trigger] s2[k] < loops.len());
                            assert(strip_ok(loops, s2, c2));
                            assert(next == edge_key(next.0, next.1));
                            if next == start {
                                assert(s2.subrange(0, strip.len() as int) =~= strip);
                                assert(c2.subrange(0, cut.len() as int) =~= cut);
                            } else {
                                lemma_walk_ok(loops, start, next, Some(nf), s2, c2);
                                let r2 = walk(loops, start, next, Some(nf), s2, c2);
                                assert(r2.0.subrange(0, strip.len() as int) =~= r2.0.subrange(0, s2.len() as int).subrange(0, strip.len() as int));
                                assert(r2.1.subrange(0, cut.len() as int) =~= r2.1.subrange(0, c2.len() as int).subrange(0, cut.len() as int));
                                assert(s2.subrange(0, strip.len() as int) =~= strip);
                                assert(c2.subrange(0, cut.len() as int) =~= cut);
                            }
                        },
                    }
                }
            },
        }
    }
}

/// The last occurrence of an entry of a duplicate-free sequence is its only
/// one.
pub proof fn lemma_find_last_at(s: Seq<(usize, usize)>, j: int)
    requires
        s.no_duplicates(),
        0 <= j < s.len(),
    ensures
        find_last(s, s[j]) == j,
    decreases s.len(),
{
    if j < s.len() - 1 {
        assert(s.last() != s[j]);
        assert(s.drop_last()[j] == s[j]);
        lemma_find_last_at(s.drop_last(), j);
    }
}

/// `add_new` keeps an entry present and its last position.
pub proof fn lemma_find_last_add_new(m: Seq<(usize, usize)>, x: (usize, usize), e: (usize, usize))
    requires
        m.contains(e),
    ensures
        add_new(m, x).contains(e),
        find_last(add_new(m, x), e) == find_last(m, e),
{
    if !m.contains(x) {
        let j = choose|j: int| 0 <= j < m.len() && m[j] == e;
        assert(add_new(m, x)[j] == e);
        assert(add_new(m, x).drop_last() =~= m);
    }
}

/// Midpoints already created keep their numbers while later faces are split.
pub proof fn lemma_mid_stable(
    loops: Seq<Seq<usize>>,
    strip: Seq<usize>,
    cut: Seq<(usize, usize)>,
    k: nat,
    k2: nat,
    e: (usize, usize),
)
    requires
        k <= k2,
        mid_edges(loops, strip, cut, k).contains(e),
    ensures
        mid_edges(loops, strip, cut, k2).contains(e),
        find_last(mid_edges(loops, strip, cut, k2), e) == find_last(mid_edges(loops, strip, cut, k), e),
    decreases k2 - k,
{
    if k < k2 {
        lemma_mid_stable(loops, strip, cut, k, (k2 - 1) as nat, e);
        let m = mid_edges(loops, strip, cut, (k2 - 1) as nat);
        let p = split_pair(loops[strip[k2 - 1] as int], cut);
        lemma_find_last_add_new(m, p.0, e);
        lemma_find_last_add_new(add_new(m, p.0), p.1, e);
    }
}

/// `add_new` keeps a sequence free of duplicates.
pub proof fn lemma_add_new_no_dup(m: Seq<(usize, usize)>, x: (usize, usize))
    requires
        m.no_duplicates(),
    ensures
        add_new(m, x).no_duplicates(),
{
    if !m.contains(x) {
        let r = m.push(x);
        assert forall|i: int, j: int| 0 <= i < r.len() && 0 <= j < r.len() && i != j implies r[i] != r[j] by {
            if i == m.len() {
                assert(!m.contains(r[j]) || r[j] != x);
            } else if j == m.len() {
                assert(m[i] == r[i]);
            }
        }
    }
}

/// A face at position `k` of a duplicate-free strip is not among the faces
/// before it.
pub proof fn lemma_not_in_prefix(strip: Seq<usize>, k: int)
    requires
        strip.no_duplicates(),
        0 <= k < strip.len(),
    ensures
        !strip.subrange(0, k).contains(strip[k]),
{
    if strip.subrange(0, k).contains(strip[k]) {
        let j = choose|j: int| 0 <= j < k && #[trigger] strip.subrange(0, k)[j] == strip[k];
        assert(strip[j] == strip[k]);
    }
}

/// Splitting one more face of the strip updates that face and appends its
/// second half.
pub proof fn lemma_split_prefix_step(
    loops: Seq<Seq<usize>>,
    strip: Seq<usize>,
    cut: Seq<(usize, usize)>,
    mids: Seq<(usize, usize)>,
    np: int,
    k: int,
)
    requires
        strip_ok(loops, strip, cut),
        0 <= k < strip.len(),
        loops.len() <= usize::MAX,
    ensures
        split_prefix(loops, strip, cut, mids, np, k + 1) == split_prefix(loops, strip, cut, mids, np, k).update(
            strip[k] as int,
            first_half(loops[strip[k] as int], cut, mids, np),
        ).push(second_half(loops[strip[k] as int], cut, mids, np)),
{
    let fi = strip[k];
    assert(fi < loops.len());
    let a = split_prefix(loops, strip, cut, mids, np, k + 1);
    let b = split_prefix(loops, strip, cut, mids, np, k).update(
        fi as int,
        first_half(loops[fi as int], cut, mids, np),
    ).push(second_half(loops[fi as int], cut, mids, np));
    assert forall|g: int| 0 <= g < loops.len() implies #[trigger] strip.subrange(0, k + 1).contains(g as usize) == (
    strip.subrange(0, k).contains(g as usize) || g == fi as int) by {
        if strip.subrange(0, k + 1).contains(g as usize) {
            let j = choose|j: int| 0 <= j < k + 1 && #[trigger] strip.subrange(0, k + 1)[j] == g as usize;
            if j < k {
                assert(strip.subrange(0, k)[j] == g as usize);
            }
        }
        if strip.subrange(0, k).contains(g as usize) {
            let j = choose|j: int| 0 <= j < k && #[trigger] strip.subrange(0, k)[j] == g as usize;
            assert(strip.subrange(0, k + 1)[j] == g as usize);
        }
        if g == fi as int {
            assert(strip.subrange(0, k + 1)[k] == g as usize);
        }
    }
    assert(a =~= b);
}

/// The edges of a list of `(edge, vertex)` pairs.
pub open spec fn edges_of(mids: Seq<((usize, usize), usize)>) -> Seq<(usize, usize)> {
    mids.map_values(|p: ((usize, usize), usize)| p.0)
}

/// The faces that use edge `e`, computed.
fn faces_on_edge(faces: &Vec<Vec<usize>>, e: (usize, usize)) -> (r: Vec<usize>)
    ensures
        r@ == adjacent_faces(loops_of(faces@), e),
{
    let ghost loops = loops_of(faces@);
    let mut r: Vec<usize> = Vec::new();
    let mut fi: usize = 0;
    while fi < faces.len()
        invariant
            0 <= fi <= faces@.len(),
            loops == loops_of(faces@),
            r@ == faces_along(loops, e, fi as nat),
        decreases faces.len() - fi,
    {
        let f = &faces[fi];
        let k = f.len();
        let mut i: usize = 0;
        while i < k
            invariant
                0 <= fi < faces@.len(),
                loops == loops_of(faces@),
                f@ == loops[fi as int],
                k == f@.len(),
                0 <= i <= k,
                r@ == faces_along(loops, e, fi as nat) + Seq::new(
                    edge_hits(loops[fi as int], e, i as nat),
                    |j: int| fi,
                ),
            decreases k - i,
        {
            let ek = key(f[i], f[(i + 1) % k]);
            proof {
                assert(ek == face_edge(loops[fi as int], i as int));
            }
            if ek.0 == e.0 && ek.1 == e.1 {
                proof {
                    assert(Seq::new(edge_hits(loops[fi as int], e, (i + 1) as nat), |j: int| fi) =~= Seq::new(
                        edge_hits(loops[fi as int], e, i as nat),
                        |j: int| fi,
                    ).push(fi));
                }
                r.push(fi);
            }
            i = i + 1;
        }
        proof {
            assert(faces_along(loops, e, (fi + 1) as nat) =~= faces_along(loops, e, fi as nat) + Seq::new(
                edge_hits(loops[fi as int], e, loops[fi as int].len()),
                |j: int| fi,
            ));
        }
        fi = fi + 1;
    }
    r
}

/// The first entry of `adj` other than `from`, computed.
fn find_other(adj: &Vec<usize>, from: Option<usize>) -> (r: Option<usize>)
    ensures
        r == first_other(adj@, from),
{
    let mut i: usize = 0;
    assert(adj@.subrange(0, adj@.len() as int) =~= adj@);
    while i < adj.len()
        invariant
            0 <= i <= adj@.len(),
            first_other(adj@, from) == first_other(adj@.subrange(i as int, adj@.len() as int), from),
        decreases adj.len() - i,
    {
        let x = adj[i];
        let differs = match from {
            Some(f) => f != x,
            None => true,
        };
        let ghost rest = adj@.subrange(i as int, adj@.len() as int);
        if differs {
            assert(rest[0] == x);
            return Some(x);
        }
        proof {
            assert(rest.drop_first() =~= adj@.subrange(i + 1, adj@.len() as int));
        }
        i = i + 1;
    }
    proof {
        assert(adj@.subrange(i as int, adj@.len() as int).len() == 0);
    }
    None
}

/// One pass of the walk, computed: appends to `strip` and `cut` exactly what
/// [`walk`] says.
fn walk_exec(
    faces: &Vec<Vec<usize>>,
    start: (usize, usize),
    blocked: Option<usize>,
    strip: &mut Vec<usize>,
    cut: &mut Vec<(usize, usize)>,
)
    requires
        strip_ok(loops_of(faces@), old(strip)@, old(cut)@),
        start == edge_key(start.0, start.1),
    ensures
        (final(strip)@, final(cut)@) == walk(loops_of(faces@), start, start, blocked, old(strip)@, old(cut)@),
        strip_ok(loops_of(faces@), final(strip)@, final(cut)@),
{
    let ghost loops = loops_of(faces@);
    let ghost target = walk(loops, start, start, blocked, strip@, cut@);
    proof {
        lemma_walk_ok(loops, start, start, blocked, strip@, cut@);
    }
    let mut cur = start;
    let mut from = blocked;
    let nfaces = faces.len();
    loop
        invariant_except_break
            walk(loops, start, cur, from, strip@, cut@) == target,
        invariant
            loops == loops_of(faces@),
            nfaces == loops.len(),
            strip_ok(loops, strip@, cut@),
            strip_ok(loops, target.0, target.1),
            cur == edge_key(cur.0, cur.1),
            start == edge_key(start.0, start.1),
        ensures
            (strip@, cut@) == target,
        decreases faces@.len() - strip@.len(),
    {
        proof {
            lemma_distinct_below(strip@, loops.len());
        }
        let adj = faces_on_edge(faces, cur);
        let nf = match find_other(&adj, from) {
            Some(f) => f,
            None => {
                break;
            },
        };
        proof {
            lemma_first_other_in(adj@, from);
            lemma_faces_along_bounded(loops, cur, loops.len());
            let j = choose|j: int| 0 <= j < adj@.len() && adj@[j] == nf;
            assert(adj@[j] < loops.len());
        }
        if contains_index(strip, nf) {
            break;
        }
        proof {
            if strip@.len() == loops.len() {
                assert(strip@.contains(nf));
            }
        }
        let opp = match opposite_edge(faces[nf].as_slice(), cur) {
            Some(o) => o,
            None => {
                break;
            },
        };
        let next = key(opp.0, opp.1);
        proof {
            lemma_step_ok(loops, strip@, cut@, cur, nf);
        }
        strip.push(nf);
        cut.push(cur);
        cut.push(next);
        from = Some(nf);
        cur = next;
        if cur.0 == start.0 && cur.1 == start.1 {
            break;
        }
    }
}

/// Whether `e` is among the cut edges.
fn contains_edge(cut: &Vec<(usize, usize)>, e: (usize, usize)) -> (r: bool)
    ensures
        r == cut@.contains(e),
{
    let mut i: usize = 0;
    while i < cut.len()
        invariant
            0 <= i <= cut@.len(),
            forall|j: int| 0 <= j < i ==> cut@[j] != e,
        decreases cut.len() - i,
    {
        if cut[i].0 == e.0 && cut[i].1 == e.1 {
            assert(cut@[i as int] == e);
            return true;
        }
        i = i + 1;
    }
    false
}

/// Where edge `e` is recorded in `mids`, if it is.
fn find_mid(mids: &Vec<((usize, usize), usize)>, e: (usize, usize)) -> (r: Option<usize>)
    ensures
        r.is_some() ==> r.unwrap() < mids@.len() && edges_of(mids@)[r.unwrap() as int] == e,
        r.is_none() ==> !edges_of(mids@).contains(e),
{
    let mut j: usize = 0;
    while j < mids.len()
        invariant
            0 <= j <= mids@.len(),
            forall|t: int| 0 <= t < j ==> edges_of(mids@)[t] != e,
        decreases mids.len() - j,
    {
        if mids[j].0.0 == e.0 && mids[j].0.1 == e.1 {
            return Some(j);
        }
        j = j + 1;
    }
    None
}

impl EditMesh {
    /// The vertex at the midpoint of edge `e`: the one made earlier for `e`
    /// (recorded in `mids`), or a new one appended now.
    fn midpoint_vertex(&mut self, mids: &mut Vec<((usize, usize), usize)>, e: (usize, usize)) -> (m: usize)
        requires
            old(self).positions@.len() >= old(mids)@.len(),
            edges_of(old(mids)@).no_duplicates(),
            forall|j: int| 0 <= j < old(mids)@.len() ==> #[trigger] old(mids)@[j].1 == old(self).positions@.len() - old(mids)@.len() + j,
            e.0 < old(self).positions@.len() - old(mids)@.len(),
            e.1 < old(self).positions@.len() - old(mids)@.len(),
        ensures
            ({
                let np = old(self).positions@.len() - old(mids)@.len();
                &&& edges_of(final(mids)@) == add_new(edges_of(old(mids)@), e)
                &&& edges_of(final(mids)@).no_duplicates()
                &&& forall|j: int| 0 <= j < final(mids)@.len() ==> #[trigger] final(mids)@[j].1 == np + j
                &&& final(self).positions@.len() == np + final(mids)@.len()
                &&& final(self).positions@.subrange(0, old(self).positions@.len() as int) == old(self).positions@
                &&& m == mid_vertex(edges_of(final(mids)@), e, np)
                &&& m < final(self).positions@.len()
            }),
            final(self).faces@ == old(self).faces@,
    {
        let ghost np = self.positions@.len() - mids@.len();
        match find_mid(mids, e) {
            Some(j) => {
                let m = mids[j].1;
                proof {
                    lemma_find_last_at(edges_of(mids@), j as int);
                    assert(edges_of(mids@).contains(e));
                    assert(self.positions@.subrange(0, self.positions@.len() as int) =~= self.positions@);
                }
                return m;
            },
            None => {},
        }
        proof {
            assert(!edges_of(mids@).contains(e));
        }
        let p = vec3_midpoint(self.positions[e.0], self.positions[e.1]);
        let ghost old_pos = self.positions@;
        self.positions.push(p);
        let m = self.positions.len() - 1;
        let ghost old_mids = mids@;
        mids.push((e, m));
        proof {
            assert(edges_of(mids@) =~= edges_of(old_mids).push(e));
            lemma_add_new_no_dup(edges_of(old_mids), e);
            assert(self.positions@.subrange(0, old_pos.len() as int) =~= old_pos);
            assert(edges_of(mids@).drop_last() =~= edges_of(old_mids));
        }
        m
    }

    /// Split quad `fi` along its cut pair of opposite edges: it keeps its
    /// first half and the second half is appended.
    fn split_one(&mut self, mids: &mut Vec<((usize, usize), usize)>, fi: usize, cut: &Vec<(usize, usize)>)
        requires
            fi < old(self).faces@.len(),
            crossed(old(self).face_loops()[fi as int], cut@),
            old(self).positions@.len() >= old(mids)@.len(),
            forall|t: int| 0 <= t < 4 ==> #[trigger] old(self).face_loops()[fi as int][t] < old(self).positions@.len() - old(mids)@.len(),
            edges_of(old(mids)@).no_duplicates(),
            forall|j: int| 0 <= j < old(mids)@.len() ==> #[trigger] old(mids)@[j].1 == old(self).positions@.len() - old(mids)@.len() + j,
        ensures
            ({
                let np = old(self).positions@.len() - old(mids)@.len();
                let q = old(self).face_loops()[fi as int];
                let p = split_pair(q, cut@);
                let m2 = add_new(add_new(edges_of(old(mids)@), p.0), p.1);
                &&& edges_of(final(mids)@) == m2
                &&& m2.contains(p.0) && m2.contains(p.1)
                &&& edges_of(final(mids)@).no_duplicates()
                &&& forall|j: int| 0 <= j < final(mids)@.len() ==> #[trigger] final(mids)@[j].1 == np + j
                &&& final(self).positions@.len() == np + final(mids)@.len()
                &&& final(self).positions@.subrange(0, old(self).positions@.len() as int) == old(self).positions@
                &&& final(self).face_loops() == old(self).face_loops().update(fi as int, first_half(q, cut@, m2, np)).push(
                    second_half(q, cut@, m2, np),
                )
                &&& forall|t: int| 0 <= t < 4 ==> #[trigger] first_half(q, cut@, m2, np)[t] < final(self).positions@.len()
                &&& forall|t: int| 0 <= t < 4 ==> #[trigger] second_half(q, cut@, m2, np)[t] < final(self).positions@.len()
            }),
    {
        let ghost np = self.positions@.len() - mids@.len();
        let ghost loops = self.face_loops();
        let ghost q = loops[fi as int];
        let ghost mk = edges_of(mids@);
        let ghost pos0 = self.positions@;
        let f = vstd::slice::slice_to_vec(self.faces[fi].as_slice());
        assert(f@ == q);
        let v0 = f[0];
        let v1 = f[1];
        let v2 = f[2];
        let v3 = f[3];
        assert(q[0] < np && q[1] < np && q[2] < np && q[3] < np);
        let e01 = key(v0, v1);
        let e12 = key(v1, v2);
        let e23 = key(v2, v3);
        let e30 = key(v3, v0);
        assert(e01 == face_edge(q, 0));
        assert(e12 == face_edge(q, 1));
        assert(e23 == face_edge(q, 2));
        assert(e30 == face_edge(q, 3));
        let first_way = contains_edge(cut, e01) && contains_edge(cut, e23);
        let (x0, x1) = if first_way {
            (e01, e23)
        } else {
            (e12, e30)
        };
        assert((x0, x1) == split_pair(q, cut@));
        let m0 = self.midpoint_vertex(mids, x0);
        let ghost pos1 = self.positions@;
        let m1 = self.midpoint_vertex(mids, x1);
        proof {
            let m1s = add_new(mk, x0);
            assert(m1s.contains(x0)) by {
                if !mk.contains(x0) {
                    assert(mk.push(x0)[mk.len() as int] == x0);
                }
            }
            lemma_find_last_add_new(m1s, x1, x0);
            assert(add_new(m1s, x1).contains(x1)) by {
                if !m1s.contains(x1) {
                    assert(m1s.push(x1)[m1s.len() as int] == x1);
                }
            }
            assert(self.positions@.subrange(0, pos0.len() as int) =~= pos1.subrange(0, pos0.len() as int));
        }
        let (h0, h1) = if first_way {
            (vec![v0, m0, m1, v3], vec![m0, v1, v2, m1])
        } else {
            (vec![v1, m0, m1, v0], vec![m0, v2, v3, m1])
        };
        let ghost m2 = edges_of(mids@);
        assert(h0@ =~= first_half(q, cut@, m2, np));
        assert(h1@ =~= second_half(q, cut@, m2, np));
        let ghost before = self.faces@;
        self.faces.set(fi, h0);
        self.faces.push(h1);
        proof {
            assert(loops_of(self.faces@) =~= loops_of(before).update(fi as int, h0@).push(h1@));
        }
    }

    /// Split every face of `strip` along its cut pair of opposite edges.
    fn split_strip(&mut self, strip: &Vec<usize>, cut: &Vec<(usize, usize)>)
        requires
            strip_ok(old(self).face_loops(), strip@, cut@),
            strip_in_range(old(self).face_loops(), strip@, old(self).positions@.len()),
        ensures
            final(self).face_loops() == split_loops(
                old(self).face_loops(),
                strip@,
                cut@,
                old(self).positions@.len() as int,
            ),
            final(self).positions@.len() == old(self).positions@.len() + mid_edges(
                old(self).face_loops(),
                strip@,
                cut@,
                strip@.len(),
            ).len(),
            final(self).positions@.subrange(0, old(self).positions@.len() as int) == old(self).positions@,
            old(self).indices_valid() ==> final(self).indices_valid(),
    {
        let ghost loops = self.face_loops();
        let ghost np = self.positions@.len() as int;
        let ghost mf = mid_edges(loops, strip@, cut@, strip@.len());
        let mut mids: Vec<((usize, usize), usize)> = Vec::new();
        let nfaces = self.faces.len();
        proof {
            assert(split_prefix(loops, strip@, cut@, mf, np, 0) =~= loops) by {
                assert(strip@.subrange(0, 0) =~= Seq::<usize>::empty());
            }
            assert(edges_of(mids@) =~= Seq::<(usize, usize)>::empty());
            assert(self.positions@.subrange(0, np) =~= self.positions@);
        }
        let mut k: usize = 0;
        while k < strip.len()
            invariant
                0 <= k <= strip@.len(),
                loops == old(self).face_loops(),
                nfaces == loops.len(),
                np == old(self).positions@.len(),
                mf == mid_edges(loops, strip@, cut@, strip@.len()),
                strip_ok(loops, strip@, cut@),
                strip_in_range(loops, strip@, np as nat),
                self.face_loops() == split_prefix(loops, strip@, cut@, mf, np, k as int),
                edges_of(mids@) == mid_edges(loops, strip@, cut@, k as nat),
                edges_of(mids@).no_duplicates(),
                forall|j: int| 0 <= j < mids@.len() ==> #[trigger] mids@[j].1 == np + j,
                self.positions@.len() == np + mids@.len(),
                self.positions@.subrange(0, np) == old(self).positions@,
                old(self).indices_valid() ==> loops_in_range(self.face_loops(), self.positions@.len()),
            decreases strip.len() - k,
        {
            let fi = strip[k];
            let ghost q = loops[fi as int];
            let ghost sp = self.face_loops();
            let ghost pos0 = self.positions@;
            proof {
                assert(self.face_loops().len() == self.faces@.len());
                assert(strip@[k as int] < loops.len());
                lemma_not_in_prefix(strip@, k as int);
                assert(sp[fi as int] == q);
                assert forall|t: int| 0 <= t < 4 implies #[trigger] sp[fi as int][t] < np by {
                    assert(loops[strip@[k as int] as int][t] < np);
                }
            }
            self.split_one(&mut mids, fi, cut);
            proof {
                let p = split_pair(q, cut@);
                let m2 = edges_of(mids@);
                lemma_mid_stable(loops, strip@, cut@, (k + 1) as nat, strip@.len(), p.0);
                lemma_mid_stable(loops, strip@, cut@, (k + 1) as nat, strip@.len(), p.1);
                assert(first_half(q, cut@, m2, np) == first_half(q, cut@, mf, np));
                assert(second_half(q, cut@, m2, np) == second_half(q, cut@, mf, np));
                lemma_split_prefix_step(loops, strip@, cut@, mf, np, k as int);
                assert(self.positions@.subrange(0, np) =~= self.positions@.subrange(0, pos0.len() as int).subrange(0, np));
                if old(self).indices_valid() {
                    let fl = self.face_loops();
                    let n = self.positions@.len();
                    assert forall|g: int, t: int| 0 <= g < fl.len() && 0 <= t < fl[g].len() implies fl[g][t] < n by {
                        if g != fi as int && g < sp.len() {
                            assert(fl[g] == sp[g]);
                        }
                    }
                }
            }
            k = k + 1;
        }
    }

    /// Insert an edge loop starting at the undirected edge `(a, b)`. Returns
    /// the number of quads that were split (0 if the edge is unknown or
    /// borders no quad).
    pub fn loop_cut(&mut self, a: usize, b: usize) -> (n: usize)
        requires
            strip_in_range(old(self).face_loops(), cut_walks(old(self).face_loops(), a, b).0, old(self).positions@.len()),
        ensures
            ({
                let loops = old(self).face_loops();
                let np = old(self).positions@.len();
                let w = cut_walks(loops, a, b);
                &&& n == w.0.len()
                &&& final(self).face_loops() == split_loops(loops, w.0, w.1, np as int)
                &&& final(self).face_loops().len() == loops.len() + n
                &&& final(self).positions@.len() == np + mid_edges(loops, w.0, w.1, w.0.len()).len()
                &&& final(self).positions@.subrange(0, np as int) == old(self).positions@
                &&& final(self).positions@.len() <= np + 2 * n
                &&& forall|f: int| 0 <= f < loops.len() ==> #[trigger] final(self).face_loops()[f] == loops[f]
                    || final(self).face_loops()[f].len() == 4
                &&& forall|j: int| 0 <= j < n ==> #[trigger] final(self).face_loops()[loops.len() + j].len() == 4
            }),
            ({
                let loops = old(self).face_loops();
                let sf = adjacent_faces(loops, edge_key(a, b));
                (sf.len() >= 2 && sf[0] != sf[1] && loops[sf[0] as int].len() == 4 && loops[sf[1] as int].len() == 4)
                    ==> n >= 2 && cut_walks(loops, a, b).0.contains(sf[0]) && cut_walks(loops, a, b).0.contains(sf[1])
            }),
            old(self).indices_valid() ==> final(self).indices_valid(),
    {
        let ghost loops = self.face_loops();
        let face_total: usize = self.faces.len();
        let start = key(a, b);
        let start_faces = faces_on_edge(&self.faces, start);
        let mut strip: Vec<usize> = Vec::new();
        let mut cut: Vec<(usize, usize)> = Vec::new();
        if start_faces.len() == 0 {
            proof {
                assert(split_loops(loops, strip@, cut@, self.positions@.len() as int) =~= loops) by {
                    assert(strip@.subrange(0, 0) =~= Seq::<usize>::empty());
                }
                assert(self.positions@.subrange(0, self.positions@.len() as int) =~= self.positions@);
            }
            return 0;
        }
        proof {
            assert(strip_ok(loops, strip@, cut@));
        }
        let block_first = if start_faces.len() > 1 {
            Some(start_faces[1])
        } else {
            None
        };
        walk_exec(&self.faces, start, block_first, &mut strip, &mut cut);
        if start_faces.len() > 1 {
            walk_exec(&self.faces, start, Some(start_faces[0]), &mut strip, &mut cut);
        }
        self.split_strip(&strip, &cut);
        proof {
            lemma_mid_edges_len(loops, strip@, cut@, strip@.len());
            let sf = adjacent_faces(loops, edge_key(a, b));
            if sf.len() >= 2 && sf[0] != sf[1] && loops[sf[0] as int].len() == 4 && loops[sf[1] as int].len() == 4 {
                assert(loops.len() == face_total);
                lemma_cut_crosses_both_sides(loops, a, b);
            }
        }
        strip.len()
    }
}

} // verus!
