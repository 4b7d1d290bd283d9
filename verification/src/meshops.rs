//! Index-level mesh operations on triangle lists (three indices per
//! triangle; a trailing partial triangle is ignored): reversing the winding,
//! appending another mesh's triangles, and vertex adjacency.

use vstd::prelude::*;

verus! {

/// `indices` with the last two corners of every complete triangle swapped.
pub open spec fn flipped(indices: Seq<u32>) -> Seq<u32> {
    let complete = (indices.len() / 3) * 3;
    Seq::new(
        indices.len(),
        |i: int|
            if i < complete && i % 3 == 1 {
                indices[i + 1]
            } else if i < complete && i % 3 == 2 {
                indices[i - 1]
            } else {
                indices[i]
            },
    )
}

/// Reverse the winding of every complete triangle (swap its second and third
/// corners).
pub fn flip_triangle_winding(indices: &mut Vec<u32>)
    ensures
        final(indices)@ == flipped(old(indices)@),
{
    let len = indices.len();
    let tris = len / 3;
    assert(tris * 3 <= len && len < tris * 3 + 3) by (nonlinear_arith)
        requires
            tris == len / 3,
    ;
    let mut t: usize = 0;
    while t < tris
        invariant
            0 <= t <= tris,
            tris == old(indices)@.len() / 3,
            tris * 3 <= len,
            len == old(indices)@.len(),
            indices@.len() == len,
            forall|i: int| 0 <= i < len ==> #[trigger] indices@[i] == if i < 3 * t {
                flipped(old(indices)@)[i]
            } else {
                old(indices)@[i]
            },
        decreases tris - t,
    {
        let b = indices[3 * t + 1];
        let c = indices[3 * t + 2];
        indices.set(3 * t + 1, c);
        indices.set(3 * t + 2, b);
        proof {
            assert forall|i: int| 0 <= i < len implies #[trigger] indices@[i] == if i < 3 * (t + 1) {
                flipped(old(indices)@)[i]
            } else {
                old(indices)@[i]
            } by {
                if 3 * t <= i < 3 * t + 3 {
                    assert(i % 3 == i - 3 * t) by (nonlinear_arith)
                        requires
                            3 * t <= i < 3 * t + 3,
                    ;
                }
            }
        }
        t = t + 1;
    }
    proof {
        assert forall|i: int| 0 <= i < len implies indices@[i] == flipped(old(indices)@)[i] by {
            if i >= 3 * tris {
                assert(!(i < (old(indices)@.len() / 3) * 3));
            }
        }
        assert(indices@ =~= flipped(old(indices)@));
    }
}

/// Flipping the winding twice gives back the indices it started from.
pub proof fn lemma_flip_twice(indices: Seq<u32>)
    ensures
        flipped(flipped(indices)) == indices,
{
    let f = flipped(indices);
    assert forall|i: int| 0 <= i < indices.len() implies #[trigger] flipped(f)[i] == indices[i] by {
        let complete = (indices.len() / 3) * 3;
        if i < complete && i % 3 == 1 {
            assert((i + 1) % 3 == 2 && i + 1 < complete) by (nonlinear_arith)
                requires
                    i % 3 == 1,
                    i < complete,
                    complete % 3 == 0,
            ;
        } else if i < complete && i % 3 == 2 {
            assert((i - 1) % 3 == 1) by (nonlinear_arith)
                requires
                    i % 3 == 2,
            ;
        }
    }
    assert(flipped(f) =~= indices);
}

/// Append the indices `more`, each shifted by `offset` (the number of
/// vertices already present), to `indices`.
pub fn append_offset_indices(indices: &mut Vec<u32>, more: &Vec<u32>, offset: u32)
    requires
        forall|i: int| 0 <= i < more@.len() ==> #[trigger] more@[i] + offset <= u32::MAX,
    ensures
        final(indices)@ == old(indices)@ + Seq::new(more@.len(), |i: int| (more@[i] + offset) as u32),
{
    let mut k: usize = 0;
    while k < more.len()
        invariant
            0 <= k <= more@.len(),
            forall|i: int| 0 <= i < more@.len() ==> #[trigger] more@[i] + offset <= u32::MAX,
            indices@ == old(indices)@ + Seq::new(k as nat, |i: int| (more@[i] + offset) as u32),
        decreases more.len() - k,
    {
        let v = more[k] + offset;
        indices.push(v);
        assert(old(indices)@ + Seq::new((k + 1) as nat, |i: int| (more@[i] + offset) as u32) =~= (old(indices)@
            + Seq::new(k as nat, |i: int| (more@[i] + offset) as u32)).push(v));
        k = k + 1;
    }
}

/// `a` and `b` are joined by an edge of some complete triangle of `indices`.
pub open spec fn adjacent(indices: Seq<u32>, a: int, b: int) -> bool {
    exists|t: int, k: int|
        0 <= t < indices.len() / 3 && 0 <= k < 3 && edge_between(indices, t, k, a, b)
}

/// Edge `k` of triangle `t` (from corner `k` to corner `k + 1`, cyclically)
/// joins `a` and `b`, in either direction.
pub open spec fn edge_between(indices: Seq<u32>, t: int, k: int, a: int, b: int) -> bool {
    let x = indices[3 * t + k] as int;
    let y = indices[3 * t + (k + 1) % 3] as int;
    (x == a && y == b) || (x == b && y == a)
}

/// Adjacency has no direction: `a` is a neighbour of `b` exactly when `b` is
/// a neighbour of `a`.
pub proof fn lemma_adjacent_symmetric(indices: Seq<u32>, a: int, b: int)
    ensures
        adjacent(indices, a, b) == adjacent(indices, b, a),
{
    if adjacent(indices, a, b) {
        let (t, k) = choose|t: int, k: int|
            0 <= t < indices.len() / 3 && 0 <= k < 3 && edge_between(indices, t, k, a, b);
        assert(edge_between(indices, t, k, b, a));
    }
    if adjacent(indices, b, a) {
        let (t, k) = choose|t: int, k: int|
            0 <= t < indices.len() / 3 && 0 <= k < 3 && edge_between(indices, t, k, b, a);
        assert(edge_between(indices, t, k, a, b));
    }
}

/// Whether `x` occurs in `v`.
fn contains_u32(v: &Vec<u32>, x: u32) -> (r: bool)
    ensures
        r == v@.contains(x),
{
    let mut i: usize = 0;
    while i < v.len()
        invariant
            0 <= i <= v@.len(),
            forall|j: int| 0 <= j < i ==> v@[j] != x,
        decreases v.len() - i,
    {
        if v[i] == x {
            assert(v@[i as int] == x);
            return true;
        }
        i = i + 1;
    }
    false
}

/// `s` with `x` appended unless it already occurs.
pub open spec fn with_member(s: Seq<u32>, x: u32) -> Seq<u32> {
    if s.contains(x) { s } else { s.push(x) }
}

proof fn lemma_with_member(s: Seq<u32>, x: u32)
    ensures
        forall|w: u32| #[trigger] with_member(s, x).contains(w) <==> (s.contains(w) || w == x),
        s.no_duplicates() ==> with_member(s, x).no_duplicates(),
{
    if !s.contains(x) {
        let t = s.push(x);
        assert forall|w: u32| #[trigger] t.contains(w) <==> (s.contains(w) || w == x) by {
            if s.contains(w) {
                let i = choose|i: int| 0 <= i < s.len() && s[i] == w;
                assert(t[i] == w);
            }
            if w == x {
                assert(t[s.len() as int] == x);
            }
            if t.contains(w) {
                let i = choose|i: int| 0 <= i < t.len() && t[i] == w;
                if i < s.len() {
                    assert(s[i] == w);
                }
            }
        }
    }
}

/// For each of the `n` vertices, its neighbours along triangle edges, each
/// listed once.
pub fn vertex_neighbours(indices: &Vec<u32>, n: usize) -> (r: Vec<Vec<u32>>)
    requires
        forall|i: int| 0 <= i < (indices@.len() / 3) * 3 ==> #[trigger] indices@[i] < n,
    ensures
        r@.len() == n,
        forall|v: int| 0 <= v < n ==> (#[trigger] r@[v])@.no_duplicates(),
        forall|v: int, w: u32| 0 <= v < n ==> (#[trigger] r@[v]@.contains(w) <==> adjacent(indices@, v, w as int)),
{
    let mut r: Vec<Vec<u32>> = Vec::new();
    let mut i: usize = 0;
    while i < n
        invariant
            0 <= i <= n,
            r@.len() == i,
            forall|v: int| 0 <= v < i ==> (#[trigger] r@[v])@.len() == 0,
        decreases n - i,
    {
        r.push(Vec::new());
        i = i + 1;
    }
    let len = indices.len();
    let tris = len / 3;
    assert(tris * 3 <= len) by (nonlinear_arith)
        requires
            tris == len / 3,
    ;
    let mut t: usize = 0;
    while t < tris
        invariant
            0 <= t <= tris,
            tris == indices@.len() / 3,
            tris * 3 <= len,
            len == indices@.len(),
            forall|i: int| 0 <= i < tris * 3 ==> #[trigger] indices@[i] < n,
            r@.len() == n,
            forall|v: int| 0 <= v < n ==> (#[trigger] r@[v])@.no_duplicates(),
            forall|v: int, w: u32| 0 <= v < n ==> (#[trigger] r@[v]@.contains(w) <==> exists|s: int, k: int|
                0 <= s < t && 0 <= k < 3 && #[trigger] edge_between(indices@, s, k, v, w as int)),
        decreases tris - t,
    {
        let mut k: usize = 0;
        while k < 3
            invariant
                0 <= t < tris,
                0 <= k <= 3,
                tris == indices@.len() / 3,
                tris * 3 <= len,
                len == indices@.len(),
                forall|i: int| 0 <= i < tris * 3 ==> #[trigger] indices@[i] < n,
                r@.len() == n,
                forall|v: int| 0 <= v < n ==> (#[trigger] r@[v])@.no_duplicates(),
                forall|v: int, w: u32| 0 <= v < n ==> (#[trigger] r@[v]@.contains(w) <==> exists|s: int, j: int|
                    ((0 <= s < t && 0 <= j < 3) || (s == t && 0 <= j < k)) && #[trigger] edge_between(indices@, s, j, v, w as int)),
            decreases 3 - k,
        {
            let a = indices[3 * t + k];
            let b = indices[3 * t + (k + 1) % 3];
            let ghost r0 = r@;
            let mut la = r[a as usize].clone();
            proof {
                assert(la@ =~= r0[a as int]@);
            }
            if !contains_u32(&la, b) {
                la.push(b);
            }
            proof {
                assert(la@ == with_member(r0[a as int]@, b));
                lemma_with_member(r0[a as int]@, b);
            }
            r.set(a as usize, la);
            let ghost r1 = r@;
            let mut lb = r[b as usize].clone();
            proof {
                assert(lb@ =~= r1[b as int]@);
            }
            if !contains_u32(&lb, a) {
                lb.push(a);
            }
            proof {
                assert(lb@ == with_member(r1[b as int]@, a));
                lemma_with_member(r1[b as int]@, a);
            }
            r.set(b as usize, lb);
            proof {
                assert forall|v: int| 0 <= v < n implies (#[trigger] r@[v])@.no_duplicates() by {
                    if v == b as int {
                    } else if v == a as int {
                    } else {
                        assert(r@[v] == r0[v]);
                    }
                }
                assert forall|v: int, w: u32| 0 <= v < n implies (#[trigger] r@[v]@.contains(w) <==> (
                    r0[v]@.contains(w) || (v == a as int && w == b) || (v == b as int && w == a))) by {
                    if v == b as int {
                        if b == a {
                            assert(r1[v]@ =~= la@);
                        } else {
                            assert(r1[v] == r0[v]);
                        }
                    } else if v == a as int {
                    } else {
                        assert(r@[v] == r0[v]);
                    }
                }
                assert(edge_between(indices@, t as int, k as int, a as int, b as int));
                assert forall|v: int, w: u32| 0 <= v < n implies (#[trigger] r@[v]@.contains(w) <==> exists|s: int, j: int|
                    ((0 <= s < t && 0 <= j < 3) || (s == t && 0 <= j < k + 1)) && #[trigger] edge_between(indices@, s, j, v, w as int)) by {
                    if r@[v]@.contains(w) {
                        if !r0[v]@.contains(w) {
                            assert(edge_between(indices@, t as int, k as int, v, w as int));
                        }
                    } else {
                        assert forall|s: int, j: int|
                            ((0 <= s < t && 0 <= j < 3) || (s == t && 0 <= j < k + 1)) implies !#[trigger] edge_between(indices@, s, j, v, w as int) by {
                            if s == t && j == k {
                            } else {
                                assert(!r0[v]@.contains(w));
                            }
                        }
                    }
                }
            }
            k = k + 1;
        }
        t = t + 1;
    }
    r
}

} // verus!
