//! Poly-modeling on a plain polygon soup: positions plus per-face vertex-index
//! loops (counter-clockwise).
//!
//! Every operator here is a face-list edit: it rewrites, appends or drops
//! index loops and appends vertices. Positions are `glam::Vec3` values that
//! the library only carries and copies; the floating-point work of computing
//! new positions (normals, centroids, offsets) is done by the caller, and the
//! one position the library itself derives, an edge midpoint, is computed by
//! `glam`.

use glam::Vec3;
use vstd::prelude::*;

verus! {

#[verifier::external_type_specification]
#[verifier::external_body]
pub struct ExVec3(Vec3);

/// The undirected key of the edge `{a, b}`: smaller index first.
pub open spec fn edge_key(a: usize, b: usize) -> (usize, usize) {
    if a <= b {
        (a, b)
    } else {
        (b, a)
    }
}

/// The undirected key of edge `i` of face loop `f` (from `f[i]` to the next
/// vertex, wrapping around).
pub open spec fn face_edge(f: Seq<usize>, i: int) -> (usize, usize) {
    edge_key(f[i], f[(i + 1) % (f.len() as int)])
}

/// Undirected edge key: `(min, max)`.
pub fn key(a: usize, b: usize) -> (r: (usize, usize))
    ensures
        r == edge_key(a, b),
{
    if a <= b {
        (a, b)
    } else {
        (b, a)
    }
}

/// In a quad, the edge across from edge `i`, as the ordered pair of its two
/// vertices.
pub open spec fn across(f: Seq<usize>, i: int) -> (usize, usize) {
    (f[(i + 2) % 4], f[(i + 3) % 4])
}

/// The edge across from `entry` in quad `f`: the first of the four edges whose
/// undirected key is `entry`'s decides; `None` for a non-quad or a quad
/// without that edge.
pub open spec fn opposite(f: Seq<usize>, entry: (usize, usize)) -> Option<(usize, usize)> {
    let ek = edge_key(entry.0, entry.1);
    if f.len() != 4 {
        None
    } else if face_edge(f, 0) == ek {
        Some(across(f, 0))
    } else if face_edge(f, 1) == ek {
        Some(across(f, 1))
    } else if face_edge(f, 2) == ek {
        Some(across(f, 2))
    } else if face_edge(f, 3) == ek {
        Some(across(f, 3))
    } else {
        None
    }
}

/// In a quad `face`, the edge directly across from the one matching `entry`
/// (undirected). `None` if the face is not a quad or has no such edge.
pub fn opposite_edge(face: &[usize], entry: (usize, usize)) -> (r: Option<(usize, usize)>)
    ensures
        r == opposite(face@, entry),
{
    if face.len() != 4 {
        return None;
    }
    let ek = key(entry.0, entry.1);
    let mut i: usize = 0;
    while i < 4
        invariant
            face@.len() == 4,
            ek == edge_key(entry.0, entry.1),
            0 <= i <= 4,
            forall|j: int| 0 <= j < i ==> face_edge(face@, j) != ek,
        decreases 4 - i,
    {
        let e = key(face[i], face[(i + 1) % 4]);
        if e.0 == ek.0 && e.1 == ek.1 {
            let j = (i + 2) % 4;
            let r = (face[j], face[(j + 1) % 4]);
            proof {
                assert(face_edge(face@, i as int) == ek);
                assert((i + 3) % 4 == (j + 1) % 4);
            }
            return Some(r);
        }
        i = i + 1;
    }
    None
}

/// Index of the first occurrence of `x` in `s`, or 0 if there is none.
pub open spec fn first_index_or_zero(s: Seq<usize>, x: usize) -> int {
    if exists|i: int| 0 <= i < s.len() && s[i] == x && forall|j: int| 0 <= j < i ==> s[j] != x {
        choose|i: int| 0 <= i < s.len() && s[i] == x && forall|j: int| 0 <= j < i ==> s[j] != x
    } else {
        0
    }
}

/// `s` rotated left by `p` places.
pub open spec fn rotate_left(s: Seq<usize>, p: int) -> Seq<usize> {
    s.subrange(p, s.len() as int) + s.subrange(0, p)
}

/// Rotate `seq` so that it begins at the first occurrence of `start`; left as
/// is when `start` does not occur.
pub fn rotate_to_start(seq: &[usize], start: usize) -> (r: Vec<usize>)
    ensures
        r@ == rotate_left(seq@, first_index_or_zero(seq@, start)),
{
    let mut i: usize = 0;
    while i < seq.len() && seq[i] != start
        invariant
            0 <= i <= seq@.len(),
            forall|j: int| 0 <= j < i ==> seq@[j] != start,
        decreases seq.len() - i,
    {
        i = i + 1;
    }
    let found = i < seq.len();
    let pos: usize = if found { i } else { 0 };
    proof {
        if found {
            assert(seq@[pos as int] == start);
            let c = choose|k: int| 0 <= k < seq@.len() && seq@[k] == start && forall|j: int| 0 <= j < k ==> seq@[j] != start;
            assert(c == pos as int) by {
                if c < pos as int {
                    assert(seq@[c] != start);
                } else if c > pos as int {
                    assert(seq@[pos as int] != start);
                }
            }
        } else {
            assert(!exists|k: int| 0 <= k < seq@.len() && seq@[k] == start && forall|j: int| 0 <= j < k ==> seq@[j] != start);
        }
    }
    let mut r: Vec<usize> = Vec::new();
    let mut k: usize = pos;
    while k < seq.len()
        invariant
            pos <= k <= seq@.len(),
            pos <= seq@.len(),
            r@ == seq@.subrange(pos as int, k as int),
        decreases seq.len() - k,
    {
        r.push(seq[k]);
        proof {
            assert(seq@.subrange(pos as int, k + 1) =~= seq@.subrange(pos as int, k as int).push(seq@[k as int]));
        }
        k = k + 1;
    }
    let mut k: usize = 0;
    while k < pos
        invariant
            0 <= k <= pos,
            pos <= seq@.len(),
            r@ == seq@.subrange(pos as int, seq@.len() as int) + seq@.subrange(0, k as int),
        decreases pos - k,
    {
        r.push(seq[k]);
        proof {
            assert(seq@.subrange(0, k + 1) =~= seq@.subrange(0, k as int).push(seq@[k as int]));
            assert(seq@.subrange(pos as int, seq@.len() as int) + seq@.subrange(0, k + 1) =~= (seq@.subrange(
                pos as int,
                seq@.len() as int,
            ) + seq@.subrange(0, k as int)).push(seq@[k as int]));
        }
        k = k + 1;
    }
    r
}

/// The face list with every face whose index occurs in `drop` removed, the
/// rest in the order they had (first `n` faces considered).
pub open spec fn keep_faces(faces: Seq<Seq<usize>>, drop: Seq<usize>, n: nat) -> Seq<Seq<usize>>
    decreases n,
{
    if n == 0 {
        Seq::empty()
    } else {
        let r = keep_faces(faces, drop, (n - 1) as nat);
        if drop.contains((n - 1) as usize) {
            r
        } else {
            r.push(faces[n - 1])
        }
    }
}

/// `faces` without the faces whose indices occur in `drop`.
pub open spec fn without_faces(faces: Seq<Seq<usize>>, drop: Seq<usize>) -> Seq<Seq<usize>> {
    keep_faces(faces, drop, faces.len())
}

/// Each kept face is one of the faces of the input list.
pub proof fn lemma_keep_faces_from(faces: Seq<Seq<usize>>, drop: Seq<usize>, n: nat)
    requires
        n <= faces.len(),
    ensures
        forall|j: int| 0 <= j < keep_faces(faces, drop, n).len() ==> exists|f: int|
            0 <= f < n && #[trigger] keep_faces(faces, drop, n)[j] == faces[f],
    decreases n,
{
    if n > 0 {
        lemma_keep_faces_from(faces, drop, (n - 1) as nat);
        let r = keep_faces(faces, drop, (n - 1) as nat);
        if !drop.contains((n - 1) as usize) {
            assert forall|j: int| 0 <= j < keep_faces(faces, drop, n).len() implies exists|f: int|
                0 <= f < n && #[trigger] keep_faces(faces, drop, n)[j] == faces[f] by {
                if j == r.len() {
                    assert(keep_faces(faces, drop, n)[j] == faces[n - 1]);
                } else {
                    assert(keep_faces(faces, drop, n)[j] == r[j]);
                }
            }
        }
    }
}

/// Removing faces keeps every remaining index in range.
pub proof fn lemma_without_faces_in_range(faces: Seq<Seq<usize>>, drop: Seq<usize>, np: nat)
    requires
        loops_in_range(faces, np),
    ensures
        loops_in_range(without_faces(faces, drop), np),
{
    lemma_keep_faces_from(faces, drop, faces.len());
    let k = without_faces(faces, drop);
    assert forall|f: int, i: int| 0 <= f < k.len() && 0 <= i < k[f].len() implies k[f][i] < np by {
        let g = choose|g: int| 0 <= g < faces.len() && k[f] == faces[g];
        assert(faces[g][i] < np);
    }
}

/// Whether `x` occurs in `v`.
pub(crate) fn contains_index(v: &Vec<usize>, x: usize) -> (r: bool)
    ensures
        r == v@.contains(x),
{
    let mut i: usize = 0;
    while i < v.len()
        invariant
            0 <= i <= v@.len(),
            forall|j: int| 0 <= j < i ==> v@[j] != x,
        decreases v.len() - i,
    {
        if v[i] == x {
            assert(v@[i as int] == x);
            return true;
        }
        i = i + 1;
    }
    false
}

/// The loop `s` read backwards.
pub open spec fn reversed(s: Seq<usize>) -> Seq<usize> {
    Seq::new(s.len(), |i: int| s[s.len() - 1 - i])
}

/// Copy of `s` read backwards.
fn reversed_vec(s: &[usize]) -> (r: Vec<usize>)
    ensures
        r@ == reversed(s@),
{
    let mut r: Vec<usize> = Vec::new();
    let mut k: usize = s.len();
    while k > 0
        invariant
            0 <= k <= s@.len(),
            r@.len() == s@.len() - k,
            forall|j: int| 0 <= j < r@.len() ==> r@[j] == s@[s@.len() - 1 - j],
        decreases k,
    {
        k = k - 1;
        r.push(s[k]);
    }
    assert(r@ =~= reversed(s@));
    r
}

/// The walls that replace face loop `r` by a fresh ring of vertices
/// `np, np + 1, ..., np + k - 1`: wall `i` is `[r[i], r[i+1], np+i+1, np+i]`
/// (indices wrapping around the ring).
pub open spec fn ring_walls(r: Seq<usize>, np: int) -> Seq<Seq<usize>> {
    let k = r.len() as int;
    Seq::new(
        r.len(),
        |i: int| seq![r[i], r[(i + 1) % k], (np + (i + 1) % k) as usize, (np + i) as usize],
    )
}

/// The fresh ring `np, np + 1, ..., np + k - 1`.
pub open spec fn fresh_ring(k: nat, np: int) -> Seq<usize> {
    Seq::new(k, |i: int| (np + i) as usize)
}

/// The walls that bridge loop `a` to loop `b` (read backwards): wall `i` is
/// `[a[i], a[i+1], b'[i+1], b'[i]]` with `b'` the reverse of `b`.
pub open spec fn bridge_walls(a: Seq<usize>, b: Seq<usize>) -> Seq<Seq<usize>> {
    let k = a.len() as int;
    let br = reversed(b);
    Seq::new(a.len(), |i: int| seq![a[i], a[(i + 1) % k], br[(i + 1) % k], br[i]])
}

/// Loop `b` has the directed edge `u -> v`.
pub open spec fn has_directed(b: Seq<usize>, u: usize, v: usize) -> bool {
    exists|j: int| 0 <= j < b.len() && #[trigger] b[j] == u && b[(j + 1) % (b.len() as int)] == v
}

/// The polygon left when the edge `a[i] -> a[i+1]` of `a`, walked the other
/// way in `b`, is dissolved: `a` from `a[i+1]` round to `a[i]`, then `b` from
/// `a[i]` round to `a[i+1]`, each without its last vertex.
pub open spec fn merged_loop(a: Seq<usize>, b: Seq<usize>, i: int) -> Seq<usize> {
    let u = a[i];
    let v = a[(i + 1) % (a.len() as int)];
    let ar = rotate_left(a, first_index_or_zero(a, v));
    let br = rotate_left(b, first_index_or_zero(b, u));
    ar.drop_last() + br.drop_last()
}

/// The merged polygon for the first edge of `a`, from index `i` on, that `b`
/// walks the other way and whose merge has at least three vertices.
pub open spec fn dissolve_from(a: Seq<usize>, b: Seq<usize>, i: nat) -> Option<Seq<usize>>
    decreases a.len() - i,
{
    if i >= a.len() {
        None
    } else if has_directed(b, a[((i + 1) % a.len()) as int], a[i as int]) && merged_loop(
        a,
        b,
        i as int,
    ).len() >= 3 {
        Some(merged_loop(a, b, i as int))
    } else {
        dissolve_from(a, b, i + 1)
    }
}

/// Whether loop `b` has the directed edge `u -> v`.
fn find_directed(b: &Vec<usize>, u: usize, v: usize) -> (r: bool)
    ensures
        r == has_directed(b@, u, v),
{
    let k = b.len();
    let mut j: usize = 0;
    while j < k
        invariant
            k == b@.len(),
            0 <= j <= k,
            forall|t: int| 0 <= t < j ==> !(#[trigger] b@[t] == u && b@[(t + 1) % (k as int)] == v),
        decreases k - j,
    {
        if b[j] == u && b[(j + 1) % k] == v {
            return true;
        }
        j = j + 1;
    }
    false
}

/// Rotating by the first position of `x` keeps the length.
pub proof fn lemma_rotate_len(s: Seq<usize>, x: usize)
    ensures
        0 <= first_index_or_zero(s, x) <= s.len(),
        rotate_left(s, first_index_or_zero(s, x)).len() == s.len(),
{
}

/// Each entry of the rotation by the first position of `x` is an entry of `s`
/// below the bound every entry of `s` is below.
pub proof fn lemma_rotate_bounded(s: Seq<usize>, x: usize, n: nat)
    requires
        forall|t: int| 0 <= t < s.len() ==> s[t] < n,
    ensures
        forall|t: int| 0 <= t < s.len() ==> #[trigger] rotate_left(s, first_index_or_zero(s, x))[t] < n,
{
    lemma_rotate_len(s, x);
    let p = first_index_or_zero(s, x);
    let r = rotate_left(s, p);
    assert forall|t: int| 0 <= t < s.len() implies #[trigger] r[t] < n by {
        if t < s.len() - p {
            assert(r[t] == s[p + t]);
        } else {
            assert(r[t] == s[t - (s.len() - p)]);
        }
    }
}

/// A merged loop only names vertices of the two loops it came from.
pub proof fn lemma_merged_in_range(a: Seq<usize>, b: Seq<usize>, i: int, n: nat)
    requires
        0 <= i < a.len(),
        forall|t: int| 0 <= t < a.len() ==> a[t] < n,
        forall|t: int| 0 <= t < b.len() ==> b[t] < n,
        b.len() >= 1,
    ensures
        forall|x: int| 0 <= x < merged_loop(a, b, i).len() ==> merged_loop(a, b, i)[x] < n,
{
    let u = a[i];
    let v = a[(i + 1) % (a.len() as int)];
    lemma_rotate_len(a, v);
    lemma_rotate_len(b, u);
    lemma_rotate_bounded(a, v, n);
    lemma_rotate_bounded(b, u, n);
    let ar = rotate_left(a, first_index_or_zero(a, v));
    let br = rotate_left(b, first_index_or_zero(b, u));
    let m = merged_loop(a, b, i);
    assert forall|x: int| 0 <= x < m.len() implies m[x] < n by {
        if x < ar.len() - 1 {
            assert(m[x] == ar[x]);
        } else {
            let y = x - (ar.len() - 1);
            assert(m[x] == br[y]);
        }
    }
}

/// The merged loop for edge `i` of `a`.
fn merge_at(a: &Vec<usize>, b: &Vec<usize>, i: usize) -> (m: Vec<usize>)
    requires
        i < a@.len(),
        b@.len() >= 1,
    ensures
        m@ == merged_loop(a@, b@, i as int),
{
    let k = a.len();
    let u = a[i];
    let v = a[(i + 1) % k];
    let ar = rotate_to_start(a.as_slice(), v);
    let br = rotate_to_start(b.as_slice(), u);
    proof {
        lemma_rotate_len(a@, v);
        lemma_rotate_len(b@, u);
    }
    let mut merged: Vec<usize> = Vec::new();
    let mut t: usize = 0;
    while t < ar.len() - 1
        invariant
            0 <= t <= ar@.len() - 1,
            ar@.len() >= 1,
            merged@ == ar@.subrange(0, t as int),
        decreases ar.len() - t,
    {
        merged.push(ar[t]);
        proof {
            assert(ar@.subrange(0, t + 1) =~= ar@.subrange(0, t as int).push(ar@[t as int]));
        }
        t = t + 1;
    }
    let mut t: usize = 0;
    while t < br.len() - 1
        invariant
            0 <= t <= br@.len() - 1,
            br@.len() >= 1,
            merged@ == ar@.drop_last() + br@.subrange(0, t as int),
        decreases br.len() - t,
    {
        merged.push(br[t]);
        proof {
            assert(br@.subrange(0, t + 1) =~= br@.subrange(0, t as int).push(br@[t as int]));
            assert(ar@.drop_last() + br@.subrange(0, t + 1) =~= (ar@.drop_last() + br@.subrange(
                0,
                t as int,
            )).push(br@[t as int]));
        }
        t = t + 1;
    }
    proof {
        assert(merged@ =~= merged_loop(a@, b@, i as int));
    }
    merged
}

/// A dissolve result is the merge at some edge of `a`, and `b` is nonempty.
pub proof fn lemma_dissolve_is_merge(a: Seq<usize>, b: Seq<usize>, i: nat)
    requires
        dissolve_from(a, b, i).is_some(),
    ensures
        b.len() >= 1,
        exists|j: int| i <= j < a.len() && dissolve_from(a, b, i) == Some(merged_loop(a, b, j)),
    decreases a.len() - i,
{
    if has_directed(b, a[((i + 1) % a.len()) as int], a[i as int]) && merged_loop(a, b, i as int).len() >= 3 {
        assert(dissolve_from(a, b, i) == Some(merged_loop(a, b, i as int)));
    } else {
        lemma_dissolve_is_merge(a, b, i + 1);
    }
}

/// Dissolving keeps every index in range.
pub proof fn lemma_dissolve_in_range(loops: Seq<Seq<usize>>, fa: int, fb: int, n: nat)
    requires
        loops_in_range(loops, n),
        0 <= fa < loops.len(),
        0 <= fb < loops.len(),
        dissolve_from(loops[fa], loops[fb], 0).is_some(),
    ensures
        loops_in_range(loops.update(fa, dissolve_from(loops[fa], loops[fb], 0).unwrap()), n),
{
    let a = loops[fa];
    let b = loops[fb];
    lemma_dissolve_is_merge(a, b, 0);
    let i = choose|i: int| 0 <= i < a.len() && dissolve_from(a, b, 0) == Some(merged_loop(a, b, i));
    assert(forall|t: int| 0 <= t < a.len() ==> a[t] < n);
    assert(forall|t: int| 0 <= t < b.len() ==> b[t] < n);
    lemma_merged_in_range(a, b, i, n);
    lemma_update_in_range(loops, fa, merged_loop(a, b, i), n);
}

/// The merged loop `dissolve_from(a, b, 0)` describes, computed.
fn find_dissolve(a: &Vec<usize>, b: &Vec<usize>) -> (r: Option<Vec<usize>>)
    ensures
        r.is_some() == dissolve_from(a@, b@, 0).is_some(),
        r.is_some() ==> r.unwrap()@ == dissolve_from(a@, b@, 0).unwrap(),
{
    let ka = a.len();
    let mut i: usize = 0;
    while i < ka
        invariant
            ka == a@.len(),
            0 <= i <= ka,
            dissolve_from(a@, b@, 0) == dissolve_from(a@, b@, i as nat),
        decreases ka - i,
    {
        let u = a[i];
        let v = a[(i + 1) % ka];
        if find_directed(b, v, u) {
            let merged = merge_at(a, b, i);
            if merged.len() >= 3 {
                return Some(merged);
            }
        }
        i = i + 1;
    }
    None
}

/// Replacing one loop by a loop of in-range indices keeps every index in range.
pub proof fn lemma_update_in_range(loops: Seq<Seq<usize>>, f: int, m: Seq<usize>, n: nat)
    requires
        0 <= f < loops.len(),
        loops_in_range(loops, n),
        forall|x: int| 0 <= x < m.len() ==> m[x] < n,
    ensures
        loops_in_range(loops.update(f, m), n),
{
    let l = loops.update(f, m);
    assert forall|g: int, s: int| 0 <= g < l.len() && 0 <= s < l[g].len() implies l[g][s] < n by {
        if g != f {
            assert(l[g] == loops[g]);
        }
    }
}

/// Some face walks the directed edge `a -> b`.
pub open spec fn has_directed_edge(loops: Seq<Seq<usize>>, a: usize, b: usize) -> bool {
    exists|f: int, i: int|
        0 <= f < loops.len() && 0 <= i < loops[f].len() && #[trigger] loops[f][i] == a && loops[f][(i + 1)
            % (loops[f].len() as int)] == b
}

/// `a -> b` is a boundary edge: some face walks it and none walks it back.
pub open spec fn is_boundary_edge(loops: Seq<Seq<usize>>, a: usize, b: usize) -> bool {
    has_directed_edge(loops, a, b) && !has_directed_edge(loops, b, a)
}

/// What every answer of `boundary_loops` satisfies: each loop has at least
/// three vertices, each step along a loop is a boundary edge, and no vertex
/// occurs twice in all the loops together.
pub open spec fn boundary_loops_ok(loops: Seq<Seq<usize>>, found: Seq<Seq<usize>>) -> bool {
    &&& forall|j: int| 0 <= j < found.len() ==> #[trigger] found[j].len() >= 3
    &&& forall|j: int, t: int|
        0 <= j < found.len() && 0 <= t < found[j].len() - 1 ==> is_boundary_edge(
            loops,
            #[trigger] found[j][t],
            found[j][t + 1],
        )
    &&& found.flatten().no_duplicates()
}

/// The boundary edges form disjoint cycles, as around the holes of a
/// manifold mesh: no vertex starts two boundary edges or ends two, and every
/// boundary edge is followed by another one.
#[verifier::opaque]
pub open spec fn simple_boundary(loops: Seq<Seq<usize>>) -> bool {
    &&& forall|a: usize, b: usize, c: usize|
        #[trigger] is_boundary_edge(loops, a, b) && #[trigger] is_boundary_edge(loops, a, c) ==> b == c
    &&& forall|a: usize, b: usize, c: usize|
        #[trigger] is_boundary_edge(loops, a, c) && #[trigger] is_boundary_edge(loops, b, c) ==> a == b
    &&& forall|a: usize, b: usize| #[trigger] is_boundary_edge(loops, a, b) ==> starts_boundary_edge(loops, b)
}

/// Some boundary edge starts at `v`.
#[verifier::opaque]
pub open spec fn starts_boundary_edge(loops: Seq<Seq<usize>>, v: usize) -> bool {
    exists|c: usize| #[trigger] is_boundary_edge(loops, v, c)
}

/// Every loop of `found` closes: its last vertex has a boundary edge back to
/// its first.
pub open spec fn loops_closed(loops: Seq<Seq<usize>>, found: Seq<Seq<usize>>) -> bool {
    forall|j: int| 0 <= j < found.len() ==> is_boundary_edge(loops, (#[trigger] found[j]).last(), found[j][0])
}

/// Every vertex that starts a boundary edge lies on one of the loops of
/// `found`.
pub open spec fn loops_cover_boundary(loops: Seq<Seq<usize>>, found: Seq<Seq<usize>>) -> bool {
    forall|a: usize, b: usize| #[trigger] is_boundary_edge(loops, a, b) ==> found.flatten().contains(a)
}

/// The loops filled in going from face list `before` to `after`: each face
/// appended to `before`, walked backwards.
pub open spec fn filled_loops(before: Seq<Seq<usize>>, after: Seq<Seq<usize>>) -> Seq<Seq<usize>> {
    Seq::new((after.len() - before.len()) as nat, |j: int| reversed(after[before.len() + j]))
}

/// Distinct entries all taken from `t` number at most `t.len()`.
pub proof fn lemma_distinct_within(s: Seq<usize>, t: Seq<usize>)
    requires
        s.no_duplicates(),
        forall|k: int| 0 <= k < s.len() ==> t.contains(#[trigger] s[k]),
    ensures
        s.len() <= t.len(),
{
    s.unique_seq_to_set();
    t.lemma_cardinality_of_set();
    assert(s.to_set().subset_of(t.to_set())) by {
        assert forall|x: usize| s.to_set().contains(x) implies t.to_set().contains(x) by {
            let k = choose|k: int| 0 <= k < s.len() && s[k] == x;
            assert(t.contains(s[k]));
        }
    }
    vstd::set_lib::lemma_len_subset(s.to_set(), t.to_set());
}

/// Whether some face walks the directed edge `a -> b`.
fn has_edge(faces: &Vec<Vec<usize>>, a: usize, b: usize) -> (r: bool)
    ensures
        r == has_directed_edge(loops_of(faces@), a, b),
{
    let ghost loops = loops_of(faces@);
    let mut fi: usize = 0;
    while fi < faces.len()
        invariant
            0 <= fi <= faces@.len(),
            loops == loops_of(faces@),
            forall|f: int, i: int|
                0 <= f < fi && 0 <= i < loops[f].len() ==> !(#[trigger] loops[f][i] == a && loops[f][(i + 1)
                    % (loops[f].len() as int)] == b),
        decreases faces.len() - fi,
    {
        let f = &faces[fi];
        let k = f.len();
        let mut i: usize = 0;
        while i < k
            invariant
                0 <= fi < faces@.len(),
                loops == loops_of(faces@),
                f@ == loops[fi as int],
                k == f@.len(),
                0 <= i <= k,
                forall|f: int, i: int|
                    0 <= f < fi && 0 <= i < loops[f].len() ==> !(#[trigger] loops[f][i] == a && loops[f][(i
                        + 1) % (loops[f].len() as int)] == b),
                forall|j: int| 0 <= j < i ==> !(#[trigger] loops[fi as int][j] == a && loops[fi as int][(j + 1) % (k as int)] == b),
            decreases k - i,
        {
            if f[i] == a && f[(i + 1) % k] == b {
                assert(loops[fi as int][i as int] == a);
                return true;
            }
            i = i + 1;
        }
        fi = fi + 1;
    }
    false
}

/// The boundary edges among the first `k` edges of face `f`, in order (edge
/// `t` runs from corner `t` to corner `t + 1`, cyclically).
pub open spec fn face_boundary_edges(loops: Seq<Seq<usize>>, f: int, k: nat) -> Seq<(usize, usize)>
    decreases k,
{
    if k == 0 {
        Seq::empty()
    } else {
        let prev = face_boundary_edges(loops, f, (k - 1) as nat);
        let a = loops[f][k - 1];
        let b = loops[f][(k as int) % (loops[f].len() as int)];
        if has_directed_edge(loops, b, a) {
            prev
        } else {
            prev.push((a, b))
        }
    }
}

/// The boundary edges of the first `m` faces, face by face.
pub open spec fn boundary_edge_list(loops: Seq<Seq<usize>>, m: nat) -> Seq<(usize, usize)>
    decreases m,
{
    if m == 0 {
        Seq::empty()
    } else {
        boundary_edge_list(loops, (m - 1) as nat) + face_boundary_edges(loops, m - 1, loops[m - 1].len())
    }
}

/// Every boundary edge among the first `k` edges of face `f` is listed.
proof fn lemma_face_boundary_edges_complete(loops: Seq<Seq<usize>>, f: int, k: nat, t: int)
    requires
        0 <= f < loops.len(),
        0 <= t < k <= loops[f].len(),
        !has_directed_edge(loops, loops[f][(t + 1) % (loops[f].len() as int)], loops[f][t]),
    ensures
        face_boundary_edges(loops, f, k).contains((loops[f][t], loops[f][(t + 1) % (loops[f].len() as int)])),
    decreases k,
{
    let prev = face_boundary_edges(loops, f, (k - 1) as nat);
    if t < k - 1 {
        lemma_face_boundary_edges_complete(loops, f, (k - 1) as nat, t);
        let e = (loops[f][t], loops[f][(t + 1) % (loops[f].len() as int)]);
        let x = choose|x: int| 0 <= x < prev.len() && prev[x] == e;
        if !has_directed_edge(loops, loops[f][(k as int) % (loops[f].len() as int)], loops[f][k - 1]) {
            assert(prev.push((loops[f][k - 1], loops[f][(k as int) % (loops[f].len() as int)]))[x] == e);
        }
    } else {
        assert(t + 1 == k);
        assert(face_boundary_edges(loops, f, k)[prev.len() as int] == (
            loops[f][t],
            loops[f][(t + 1) % (loops[f].len() as int)],
        ));
    }
}

/// Every boundary edge of the first `m` faces is listed.
proof fn lemma_boundary_edge_list_complete(loops: Seq<Seq<usize>>, m: nat, f: int, t: int)
    requires
        m <= loops.len(),
        0 <= f < m,
        0 <= t < loops[f].len(),
        !has_directed_edge(loops, loops[f][(t + 1) % (loops[f].len() as int)], loops[f][t]),
    ensures
        boundary_edge_list(loops, m).contains((loops[f][t], loops[f][(t + 1) % (loops[f].len() as int)])),
    decreases m,
{
    let e = (loops[f][t], loops[f][(t + 1) % (loops[f].len() as int)]);
    let prev = boundary_edge_list(loops, (m - 1) as nat);
    let last = face_boundary_edges(loops, m - 1, loops[m - 1].len());
    if f < m - 1 {
        lemma_boundary_edge_list_complete(loops, (m - 1) as nat, f, t);
        let x = choose|x: int| 0 <= x < prev.len() && prev[x] == e;
        assert((prev + last)[x] == e);
    } else {
        lemma_face_boundary_edges_complete(loops, f, loops[f].len(), t);
        let x = choose|x: int| 0 <= x < last.len() && last[x] == e;
        assert((prev + last)[prev.len() + x] == e);
    }
}

/// The boundary edges of the mesh, face by face: each directed face edge
/// `a -> b` that no face walks back as `b -> a`, once per face walking it.
fn boundary_edges(faces: &Vec<Vec<usize>>) -> (r: Vec<(usize, usize)>)
    ensures
        r@ == boundary_edge_list(loops_of(faces@), faces@.len()),
        forall|j: int| 0 <= j < r@.len() ==> is_boundary_edge(loops_of(faces@), #[trigger] r@[j].0, r@[j].1),
        forall|a: usize, b: usize| #[trigger] is_boundary_edge(loops_of(faces@), a, b) ==> r@.contains((a, b)),
{
    let ghost loops = loops_of(faces@);
    let mut r: Vec<(usize, usize)> = Vec::new();
    let mut fi: usize = 0;
    while fi < faces.len()
        invariant
            0 <= fi <= faces@.len(),
            loops == loops_of(faces@),
            r@ == boundary_edge_list(loops, fi as nat),
            forall|j: int| 0 <= j < r@.len() ==> is_boundary_edge(loops, #[trigger] r@[j].0, r@[j].1),
        decreases faces.len() - fi,
    {
        let f = &faces[fi];
        let k = f.len();
        let mut i: usize = 0;
        while i < k
            invariant
                0 <= fi < faces@.len(),
                loops == loops_of(faces@),
                f@ == loops[fi as int],
                k == f@.len(),
                0 <= i <= k,
                r@ == boundary_edge_list(loops, fi as nat) + face_boundary_edges(loops, fi as int, i as nat),
                forall|j: int| 0 <= j < r@.len() ==> is_boundary_edge(loops, #[trigger] r@[j].0, r@[j].1),
            decreases k - i,
        {
            let a = f[i];
            let b = f[(i + 1) % k];
            let ghost before = r@;
            if !has_edge(faces, b, a) {
                proof {
                    assert(loops[fi as int][i as int] == a);
                    assert(has_directed_edge(loops, a, b));
                }
                r.push((a, b));
            }
            proof {
                assert(r@ =~= boundary_edge_list(loops, fi as nat) + face_boundary_edges(loops, fi as int, (i + 1) as nat));
            }
            i = i + 1;
        }
        proof {
            assert(r@ =~= boundary_edge_list(loops, (fi + 1) as nat));
        }
        fi = fi + 1;
    }
    proof {
        assert forall|a: usize, b: usize| #[trigger] is_boundary_edge(loops, a, b) implies r@.contains((a, b)) by {
            let (f, t) = choose|f: int, t: int|
                0 <= f < loops.len() && 0 <= t < loops[f].len() && #[trigger] loops[f][t] == a && loops[f][(t + 1)
                    % (loops[f].len() as int)] == b;
            lemma_boundary_edge_list_complete(loops, loops.len(), f, t);
        }
    }
    r
}

/// The target of the first edge in `edges` that starts at `v`.
fn next_of(edges: &Vec<(usize, usize)>, v: usize) -> (r: Option<usize>)
    ensures
        r.is_some() ==> edges@.contains((v, r.unwrap())),
        r.is_none() ==> forall|j: int| 0 <= j < edges@.len() ==> #[trigger] edges@[j].0 != v,
{
    let mut j: usize = 0;
    while j < edges.len()
        invariant
            0 <= j <= edges@.len(),
            forall|t: int| 0 <= t < j ==> #[trigger] edges@[t].0 != v,
        decreases edges.len() - j,
    {
        if edges[j].0 == v {
            let x = edges[j].1;
            assert(edges@[j as int] == (v, x));
            return Some(x);
        }
        j = j + 1;
    }
    None
}

/// After a closed walk `lv` from `start` is added to the found loops and the
/// visited vertices, the found loops still close, still hold every visited
/// vertex, and the visited vertices still hold every boundary predecessor.
proof fn lemma_walk_kept(
    loops: Seq<Seq<usize>>,
    before: Seq<Seq<usize>>,
    lv: Seq<usize>,
    v0: Seq<usize>,
    visited: Seq<usize>,
    start: usize,
    simple: bool,
)
    requires
        simple == simple_boundary(loops),
        visited == v0 + lv,
        lv.len() >= 3,
        lv[0] == start,
        forall|t: int| 0 <= t < lv.len() - 1 ==> is_boundary_edge(loops, #[trigger] lv[t], lv[t + 1]),
        simple ==> is_boundary_edge(loops, lv.last(), start),
        simple ==> loops_closed(loops, before),
        simple ==> forall|k: int| 0 <= k < v0.len() ==> before.flatten().contains(#[trigger] v0[k]),
        simple ==> forall|v: usize, w: usize| #[trigger] is_boundary_edge(loops, v, w) && v0.contains(w) ==> v0.contains(v),
        before.push(lv).flatten() == before.flatten() + lv,
    ensures
        simple ==> loops_closed(loops, before.push(lv)),
        simple ==> forall|k: int| 0 <= k < visited.len() ==> before.push(lv).flatten().contains(#[trigger] visited[k]),
        simple ==> forall|v: usize, w: usize| #[trigger] is_boundary_edge(loops, v, w) && visited.contains(w) ==> visited.contains(v),
{
    if simple {
        reveal(simple_boundary);
        let after = before.push(lv);
        let fl = before.flatten();
        assert forall|j: int| 0 <= j < after.len() implies is_boundary_edge(loops, (#[trigger] after[j]).last(), after[j][0]) by {
            if j < before.len() {
                assert(after[j] == before[j]);
            }
        }
        assert forall|k: int| 0 <= k < visited.len() implies after.flatten().contains(#[trigger] visited[k]) by {
            if k < v0.len() {
                assert(visited[k] == v0[k]);
                let x = choose|x: int| 0 <= x < fl.len() && fl[x] == v0[k];
                assert((fl + lv)[x] == v0[k]);
            } else {
                assert((fl + lv)[fl.len() + k - v0.len()] == visited[k]);
            }
        }
        assert forall|v: usize, w: usize| #[trigger] is_boundary_edge(loops, v, w) && visited.contains(w) implies visited.contains(v) by {
            let x = choose|x: int| 0 <= x < visited.len() && visited[x] == w;
            if x < v0.len() {
                assert(v0[x] == w);
                assert(v0.contains(v));
                let y = choose|y: int| 0 <= y < v0.len() && v0[y] == v;
                assert(visited[y] == v);
            } else {
                let i = x - v0.len();
                assert(lv[i] == w);
                if i == 0 {
                    assert(is_boundary_edge(loops, lv.last(), w));
                    assert(v == lv.last());
                    assert(visited[v0.len() + lv.len() - 1] == v);
                } else {
                    assert(is_boundary_edge(loops, lv[i - 1], lv[i]));
                    assert(v == lv[i - 1]);
                    assert(visited[v0.len() + i - 1] == v);
                }
            }
        }
    }
}

/// The loops of a `Vec` of loops.
pub open spec fn views_of(v: Seq<Vec<usize>>) -> Seq<Seq<usize>> {
    v.map_values(|l: Vec<usize>| l@)
}

/// A polygon mesh as positions plus per-face vertex-index loops (CCW).
#[derive(Clone, Debug)]
pub struct EditMesh {
    pub positions: Vec<Vec3>,
    pub faces: Vec<Vec<usize>>,
}

/// The face loops of a face list, each as a sequence of vertex indices.
pub open spec fn loops_of(faces: Seq<Vec<usize>>) -> Seq<Seq<usize>> {
    faces.map_values(|f: Vec<usize>| f@)
}

/// Every vertex index of every face names an existing vertex.
pub open spec fn loops_in_range(faces: Seq<Seq<usize>>, n: nat) -> bool {
    forall|f: int, i: int| 0 <= f < faces.len() && 0 <= i < faces[f].len() ==> faces[f][i] < n
}

impl EditMesh {
    /// The face loops.
    pub open spec fn face_loops(&self) -> Seq<Seq<usize>> {
        loops_of(self.faces@)
    }

    /// Every face only names existing vertices.
    pub open spec fn indices_valid(&self) -> bool {
        loops_in_range(self.face_loops(), self.positions@.len())
    }

    /// An empty mesh.
    pub fn new() -> (m: EditMesh)
        ensures
            m.positions@.len() == 0,
            m.face_loops().len() == 0,
    {
        EditMesh { positions: Vec::new(), faces: Vec::new() }
    }

    /// Build from explicit positions and polygon faces.
    pub fn from_polygons(positions: Vec<Vec3>, faces: Vec<Vec<usize>>) -> (m: EditMesh)
        ensures
            m.positions@ == positions@,
            m.faces@ == faces@,
    {
        EditMesh { positions, faces }
    }

    /// Number of vertices.
    pub fn vertex_count(&self) -> (n: usize)
        ensures
            n == self.positions@.len(),
    {
        self.positions.len()
    }

    /// Number of faces.
    pub fn face_count(&self) -> (n: usize)
        ensures
            n == self.faces@.len(),
    {
        self.faces.len()
    }

    /// Append a vertex, returning its index.
    pub fn add_vertex(&mut self, p: Vec3) -> (idx: usize)
        ensures
            final(self).positions@ == old(self).positions@.push(p),
            final(self).faces@ == old(self).faces@,
            idx == old(self).positions@.len(),
    {
        self.positions.push(p);
        self.positions.len() - 1
    }
    /// Remove faces by index (indices need not be sorted, may repeat, and may
    /// be out of range). Vertices are kept, even if they become unreferenced.
    pub fn remove_faces(&mut self, indices: Vec<usize>)
        ensures
            final(self).face_loops() == without_faces(old(self).face_loops(), indices@),
            final(self).positions@ == old(self).positions@,
            old(self).indices_valid() ==> final(self).indices_valid(),
    {
        let ghost loops = self.face_loops();
        let mut kept: Vec<Vec<usize>> = Vec::new();
        let mut i: usize = 0;
        while i < self.faces.len()
            invariant
                0 <= i <= self.faces@.len(),
                loops == self.face_loops(),
                loops_of(kept@) == keep_faces(loops, indices@, i as nat),
            decreases self.faces.len() - i,
        {
            if !contains_index(&indices, i) {
                let f = vstd::slice::slice_to_vec(self.faces[i].as_slice());
                proof {
                    assert(loops_of(kept@.push(f)) =~= loops_of(kept@).push(f@));
                }
                kept.push(f);
            }
            i = i + 1;
        }
        self.faces = kept;
        proof {
            if old(self).indices_valid() {
                lemma_without_faces_in_range(loops, indices@, self.positions@.len());
            }
        }
    }

    /// Fill a boundary loop with a single n-gon face (its vertices in reverse
    /// order, so it faces into the hole). Returns the new face index.
    pub fn fill_hole(&mut self, loop_verts: &[usize]) -> (idx: usize)
        ensures
            final(self).face_loops() == old(self).face_loops().push(reversed(loop_verts@)),
            final(self).positions@ == old(self).positions@,
            idx == old(self).faces@.len(),
            old(self).indices_valid() && (forall|i: int| 0 <= i < loop_verts@.len() ==> loop_verts@[i]
                < old(self).positions@.len()) ==> final(self).indices_valid(),
    {
        let face = reversed_vec(loop_verts);
        proof {
            assert(loops_of(self.faces@.push(face)) =~= loops_of(self.faces@).push(face@));
        }
        self.faces.push(face);
        self.faces.len() - 1
    }

    /// Replace face `face` by a ring of new vertices at `ring` (one per corner,
    /// in order) and connect the old ring to the new one with quad walls.
    /// This is the face-list half of extruding or insetting a face. Returns
    /// `face`, which now holds the new ring.
    pub fn replace_with_ring(&mut self, face: usize, ring: Vec<Vec3>) -> (idx: usize)
        requires
            face < old(self).faces@.len(),
            ring@.len() == old(self).faces@[face as int]@.len(),
        ensures
            idx == face,
            final(self).positions@ == old(self).positions@ + ring@,
            final(self).face_loops() == old(self).face_loops().update(
                face as int,
                fresh_ring(ring@.len(), old(self).positions@.len() as int),
            ) + ring_walls(old(self).face_loops()[face as int], old(self).positions@.len() as int),
            old(self).indices_valid() ==> final(self).indices_valid(),
    {
        let ghost loops = self.face_loops();
        let ghost np = self.positions@.len() as int;
        let r = vstd::slice::slice_to_vec(self.faces[face].as_slice());
        let k = r.len();
        let mut cap: Vec<usize> = Vec::new();
        let mut i: usize = 0;
        while i < k
            invariant
                k == r@.len(),
                k == ring@.len(),
                0 <= i <= k,
                self.positions@ == old(self).positions@ + ring@.subrange(0, i as int),
                self.faces@ == old(self).faces@,
                cap@ == fresh_ring(i as nat, np),
                np == old(self).positions@.len(),
            decreases k - i,
        {
            let v = self.add_vertex(ring[i]);
            proof {
                assert(ring@.subrange(0, i + 1) =~= ring@.subrange(0, i as int).push(ring@[i as int]));
                assert(cap@.push(v) =~= fresh_ring((i + 1) as nat, np));
            }
            cap.push(v);
            i = i + 1;
        }
        assert(ring@.subrange(0, k as int) =~= ring@);
        let total = self.positions.len();
        assert(np + k == total);
        let mut j: usize = 0;
        while j < k
            invariant
                k == r@.len(),
                r@ == loops[face as int],
                0 <= j <= k,
                np + k <= usize::MAX,
                cap@ == fresh_ring(k as nat, np),
                self.positions@ == old(self).positions@ + ring@,
                loops == loops_of(old(self).faces@),
                face < old(self).faces@.len(),
                self.face_loops() == loops + ring_walls(r@, np).subrange(0, j as int),
            decreases k - j,
        {
            let a = r[j];
            let b = r[(j + 1) % k];
            let cb = cap[(j + 1) % k];
            let ca = cap[j];
            let w = vec![a, b, cb, ca];
            proof {
                assert(w@ =~= ring_walls(r@, np)[j as int]);
                assert(ring_walls(r@, np).subrange(0, j + 1) =~= ring_walls(r@, np).subrange(0, j as int).push(w@));
                assert(loops_of(self.faces@.push(w)) =~= loops_of(self.faces@).push(w@));
            }
            self.faces.push(w);
            j = j + 1;
        }
        assert(ring_walls(r@, np).subrange(0, k as int) =~= ring_walls(r@, np));
        let ghost before = self.faces@;
        let ghost cap_view = cap@;
        self.faces.set(face, cap);
        proof {
            assert(loops_of(before) == loops + ring_walls(r@, np));
            assert(self.faces@ == before.update(face as int, self.faces@[face as int]));
            assert(loops_of(self.faces@) =~= loops_of(before).update(face as int, cap_view));
            assert(self.face_loops() =~= loops.update(face as int, fresh_ring(k as nat, np)) + ring_walls(r@, np));
            if old(self).indices_valid() {
                let fl = self.face_loops();
                let n = self.positions@.len();
                assert forall|f: int, t: int| 0 <= f < fl.len() && 0 <= t < fl[f].len() implies fl[f][t] < n by {
                    if f < loops.len() && f != face {
                        assert(fl[f] == loops[f]);
                    } else if f >= loops.len() {
                        let w = f - loops.len();
                        assert(fl[f] == ring_walls(r@, np)[w]);
                        assert(r@[w] < np);
                        assert(r@[(w + 1) % (k as int)] < np);
                    }
                }
            }
        }
        face
    }

    /// Bridge two faces with the same vertex count (at least three) by
    /// connecting their loops with quad walls, then removing both faces.
    /// Vertex `i` of `face_a` connects to vertex `i` of the reversed loop of
    /// `face_b`. Returns `false`, changing nothing, if the counts differ or
    /// are below three.
    pub fn bridge_faces(&mut self, face_a: usize, face_b: usize) -> (ok: bool)
        requires
            face_a < old(self).faces@.len(),
            face_b < old(self).faces@.len(),
        ensures
            ({
                let a = old(self).face_loops()[face_a as int];
                let b = old(self).face_loops()[face_b as int];
                ok == (a.len() == b.len() && a.len() >= 3)
            }),
            ok ==> final(self).face_loops() == without_faces(
                old(self).face_loops() + bridge_walls(
                    old(self).face_loops()[face_a as int],
                    old(self).face_loops()[face_b as int],
                ),
                seq![face_a, face_b],
            ),
            !ok ==> final(self).faces@ == old(self).faces@,
            final(self).positions@ == old(self).positions@,
            old(self).indices_valid() ==> final(self).indices_valid(),
    {
        let ghost loops = self.face_loops();
        let a = vstd::slice::slice_to_vec(self.faces[face_a].as_slice());
        let b = vstd::slice::slice_to_vec(self.faces[face_b].as_slice());
        if a.len() != b.len() || a.len() < 3 {
            return false;
        }
        let k = a.len();
        let b_rev = reversed_vec(b.as_slice());
        let ghost walls = bridge_walls(a@, b@);
        let mut i: usize = 0;
        while i < k
            invariant
                k == a@.len(),
                k == b@.len(),
                b_rev@ == reversed(b@),
                a@ == loops[face_a as int],
                b@ == loops[face_b as int],
                walls == bridge_walls(a@, b@),
                0 <= i <= k,
                self.positions@ == old(self).positions@,
                self.face_loops() == loops + walls.subrange(0, i as int),
            decreases k - i,
        {
            let a0 = a[i];
            let a1 = a[(i + 1) % k];
            let b1 = b_rev[(i + 1) % k];
            let b0 = b_rev[i];
            let w = vec![a0, a1, b1, b0];
            proof {
                assert(w@ =~= walls[i as int]);
                assert(walls.subrange(0, i + 1) =~= walls.subrange(0, i as int).push(w@));
                assert(loops_of(self.faces@.push(w)) =~= loops_of(self.faces@).push(w@));
            }
            self.faces.push(w);
            i = i + 1;
        }
        assert(walls.subrange(0, k as int) =~= walls);
        proof {
            if old(self).indices_valid() {
                let fl = self.face_loops();
                let n = self.positions@.len();
                assert forall|f: int, t: int| 0 <= f < fl.len() && 0 <= t < fl[f].len() implies fl[f][t] < n by {
                    if f >= loops.len() {
                        let w = f - loops.len();
                        assert(fl[f] == walls[w]);
                        assert(a@[w] < n);
                        assert(a@[(w + 1) % (k as int)] < n);
                        assert(b@[k - 1 - (w + 1) % (k as int)] < n);
                        assert(b@[k - 1 - w] < n);
                    }
                }
            }
        }
        let mut drop: Vec<usize> = Vec::new();
        drop.push(face_a);
        drop.push(face_b);
        assert(drop@ =~= seq![face_a, face_b]);
        self.remove_faces(drop);
        true
    }

    /// Dissolve the edge shared by two faces, merging them into one polygon.
    /// The shared edge is `u -> v` in `face_a` and `v -> u` in `face_b`; the
    /// first such edge of `face_a` whose merge has at least three vertices is
    /// used. On success `face_a` becomes the merged polygon and `face_b` is
    /// removed; otherwise nothing changes and `false` is returned.
    pub fn dissolve_edge(&mut self, face_a: usize, face_b: usize) -> (ok: bool)
        requires
            face_a < old(self).faces@.len(),
            face_b < old(self).faces@.len(),
        ensures
            ({
                let d = dissolve_from(
                    old(self).face_loops()[face_a as int],
                    old(self).face_loops()[face_b as int],
                    0,
                );
                &&& ok == d.is_some()
                &&& ok ==> final(self).face_loops() == without_faces(
                    old(self).face_loops().update(face_a as int, d.unwrap()),
                    seq![face_b],
                )
            }),
            !ok ==> final(self).faces@ == old(self).faces@,
            final(self).positions@ == old(self).positions@,
            old(self).indices_valid() ==> final(self).indices_valid(),
    {
        let ghost loops = self.face_loops();
        let a = vstd::slice::slice_to_vec(self.faces[face_a].as_slice());
        let b = vstd::slice::slice_to_vec(self.faces[face_b].as_slice());
        match find_dissolve(&a, &b) {
            None => false,
            Some(merged) => {
                let ghost m = merged@;
                proof {
                    if old(self).indices_valid() {
                        lemma_dissolve_in_range(loops, face_a as int, face_b as int, self.positions@.len());
                    }
                }
                self.faces.set(face_a, merged);
                proof {
                    assert(self.face_loops() =~= loops.update(face_a as int, m));
                }
                let mut drop: Vec<usize> = Vec::new();
                drop.push(face_b);
                assert(drop@ =~= seq![face_b]);
                self.remove_faces(drop);
                true
            }
        }
    }
    /// Find the boundary loops (ordered vertex rings of holes / open edges).
    ///
    /// A directed face edge with no opposing directed edge is a boundary edge;
    /// chaining those edges head-to-tail yields each hole's loop. Chains with
    /// fewer than three vertices are dropped. When the boundary edges form
    /// disjoint cycles, every hole's whole cycle is found, each loop closing
    /// back on its first vertex.
    #[verifier::rlimit(40)]
    pub fn boundary_loops(&self) -> (found: Vec<Vec<usize>>)
        ensures
            boundary_loops_ok(self.face_loops(), views_of(found@)),
            simple_boundary(self.face_loops()) ==> loops_closed(self.face_loops(), views_of(found@)),
            simple_boundary(self.face_loops()) ==> loops_cover_boundary(self.face_loops(), views_of(found@)),
    {
        let ghost loops = self.face_loops();
        let ghost simple = simple_boundary(loops);
        let edges = boundary_edges(&self.faces);
        let ghost sources = edges@.map_values(|e: (usize, usize)| e.0);
        let mut found: Vec<Vec<usize>> = Vec::new();
        let mut visited: Vec<usize> = Vec::new();
        let mut si: usize = 0;
        proof {
            assert(views_of(found@).flatten() =~= Seq::<usize>::empty());
        }
        while si < edges.len()
            invariant
                0 <= si <= edges@.len(),
                loops == self.face_loops(),
                simple == simple_boundary(loops),
                sources == edges@.map_values(|e: (usize, usize)| e.0),
                forall|j: int| 0 <= j < edges@.len() ==> is_boundary_edge(loops, #[trigger] edges@[j].0, edges@[j].1),
                forall|a: usize, b: usize| #[trigger] is_boundary_edge(loops, a, b) ==> edges@.contains((a, b)),
                boundary_loops_ok(loops, views_of(found@)),
                visited@.no_duplicates(),
                forall|k: int| 0 <= k < visited@.len() ==> sources.contains(#[trigger] visited@[k]),
                forall|k: int| 0 <= k < views_of(found@).flatten().len() ==> visited@.contains(
                    #[trigger] views_of(found@).flatten()[k],
                ),
                forall|j: int| 0 <= j < si ==> visited@.contains(#[trigger] edges@[j].0),
                simple ==> loops_closed(loops, views_of(found@)),
                simple ==> forall|k: int| 0 <= k < visited@.len() ==> views_of(found@).flatten().contains(#[trigger] visited@[k]),
                simple ==> forall|v: usize, w: usize| #[trigger] is_boundary_edge(loops, v, w) && visited@.contains(w) ==> visited@.contains(v),
            decreases edges.len() - si,
        {
            let start = edges[si].0;
            let ghost v0 = visited@;
            if !contains_index(&visited, start) {
                let mut lv: Vec<usize> = Vec::new();
                let mut cur = start;
                loop
                    invariant_except_break
                        lv@.len() > 0 ==> cur != start,
                    invariant
                        si < edges@.len(),
                        start == edges@[si as int].0,
                        loops == self.face_loops(),
                        simple == simple_boundary(loops),
                        sources == edges@.map_values(|e: (usize, usize)| e.0),
                        forall|j: int| 0 <= j < edges@.len() ==> is_boundary_edge(loops, #[trigger] edges@[j].0, edges@[j].1),
                        forall|a: usize, b: usize| #[trigger] is_boundary_edge(loops, a, b) ==> edges@.contains((a, b)),
                        boundary_loops_ok(loops, views_of(found@)),
                        visited@.no_duplicates(),
                        forall|k: int| 0 <= k < visited@.len() ==> sources.contains(#[trigger] visited@[k]),
                        (views_of(found@).flatten() + lv@).no_duplicates(),
                        forall|k: int| 0 <= k < (views_of(found@).flatten() + lv@).len() ==> visited@.contains(
                            #[trigger] (views_of(found@).flatten() + lv@)[k],
                        ),
                        forall|t: int| 0 <= t < lv@.len() - 1 ==> is_boundary_edge(loops, #[trigger] lv@[t], lv@[t + 1]),
                        lv@.len() > 0 ==> is_boundary_edge(loops, lv@.last(), cur),
                        visited@ == v0 + lv@,
                        !v0.contains(start),
                        lv@.len() == 0 ==> cur == start,
                        lv@.len() > 0 ==> lv@[0] == start,
                        simple ==> forall|v: usize, w: usize| #[trigger] is_boundary_edge(loops, v, w) && v0.contains(w) ==> v0.contains(v),
                    ensures
                        lv@.len() > 0,
                        simple ==> cur == start,
                    decreases sources.len() - visited@.len(),
                {
                    proof {
                        lemma_distinct_within(visited@, sources);
                    }
                    let nxt = match next_of(&edges, cur) {
                        Some(n) => n,
                        None => {
                            proof {
                                if lv@.len() == 0 {
                                    assert(edges@[si as int].0 != cur);
                                }
                                if simple {
                                    reveal(simple_boundary);
                                    reveal(starts_boundary_edge);
                                    assert(is_boundary_edge(loops, lv@.last(), cur));
                                    assert(starts_boundary_edge(loops, cur));
                                    let c = choose|c: usize| #[trigger] is_boundary_edge(loops, cur, c);
                                    assert(edges@.contains((cur, c)));
                                    let j = choose|j: int| 0 <= j < edges@.len() && edges@[j] == (cur, c);
                                    assert(edges@[j].0 == cur);
                                }
                            }
                            break;
                        },
                    };
                    if contains_index(&visited, cur) {
                        proof {
                            if lv@.len() == 0 {
                                assert(visited@ =~= v0);
                            }
                            if simple {
                                reveal(simple_boundary);
                                let last = lv@.last();
                                let n0 = v0.len() as int;
                                assert(visited@[n0 + lv@.len() - 1] == last);
                                if v0.contains(cur) {
                                    assert(v0.contains(last));
                                    let x = choose|x: int| 0 <= x < v0.len() && v0[x] == last;
                                    assert(visited@[x] == last);
                                } else {
                                    let y = choose|y: int| 0 <= y < visited@.len() && visited@[y] == cur;
                                    let i = y - n0;
                                    assert(lv@[i] == cur);
                                    assert(i != 0);
                                    assert(is_boundary_edge(loops, lv@[i - 1], lv@[i]));
                                    assert(lv@[i - 1] == last);
                                    assert(visited@[n0 + i - 1] == last);
                                }
                            }
                        }
                        break;
                    }
                    let ghost j = choose|j: int| 0 <= j < edges@.len() && edges@[j] == (cur, nxt);
                    proof {
                        assert(sources[j] == cur);
                        assert(is_boundary_edge(loops, edges@[j].0, edges@[j].1));
                        let fl = views_of(found@).flatten();
                        assert(!(fl + lv@).contains(cur)) by {
                            if (fl + lv@).contains(cur) {
                                let k = choose|k: int| 0 <= k < (fl + lv@).len() && (fl + lv@)[k] == cur;
                                assert(visited@.contains((fl + lv@)[k]));
                            }
                        }
                        assert((fl + lv@.push(cur)) =~= (fl + lv@).push(cur));
                    }
                    let ghost old_visited = visited@;
                    visited.push(cur);
                    lv.push(cur);
                    proof {
                        let fl = views_of(found@).flatten();
                        assert(visited@ =~= v0 + lv@);
                        assert forall|x: int, y: int| 0 <= x < visited@.len() && 0 <= y < visited@.len() && x != y implies visited@[x] != visited@[y] by {
                            if x == old_visited.len() {
                                assert(old_visited.contains(visited@[y]) || y == x);
                            } else if y == old_visited.len() {
                                assert(old_visited.contains(visited@[x]));
                            }
                        }
                        assert forall|k: int| 0 <= k < (fl + lv@).len() implies visited@.contains(#[trigger] (fl + lv@)[k]) by {
                            if k < (fl + lv@).len() - 1 {
                                let w = (fl + lv@)[k];
                                assert(w == (fl + lv@.drop_last())[k]);
                                assert(old_visited.contains(w));
                                let i = choose|i: int| 0 <= i < old_visited.len() && old_visited[i] == w;
                                assert(visited@[i] == w);
                            } else {
                                assert(visited@[old_visited.len() as int] == cur);
                            }
                        }
                        assert(forall|k: int| 0 <= k < visited@.len() ==> sources.contains(#[trigger] visited@[k]));
                        lemma_distinct_within(visited@, sources);
                    }
                    cur = nxt;
                    if cur == start {
                        break;
                    }
                }
                proof {
                    if simple {
                        reveal(simple_boundary);
                        assert(is_boundary_edge(loops, lv@.last(), start));
                        if lv@.len() == 1 {
                            assert(lv@.last() == start);
                        } else if lv@.len() == 2 {
                            assert(is_boundary_edge(loops, lv@[0], lv@[1]));
                        }
                    }
                    assert(visited@[v0.len() as int] == start);
                }
                if lv.len() >= 3 {
                    let ghost before = views_of(found@);
                    let ghost lvv = lv@;
                    found.push(lv);
                    proof {
                        assert(views_of(found@) =~= before.push(lvv));
                        before.lemma_flatten_push(lvv);
                        assert forall|j: int, t: int|
                            0 <= j < views_of(found@).len() && 0 <= t < views_of(found@)[j].len() - 1 implies is_boundary_edge(
                            loops,
                            #[trigger] views_of(found@)[j][t],
                            views_of(found@)[j][t + 1],
                        ) by {
                            if j < before.len() {
                                assert(views_of(found@)[j] == before[j]);
                            }
                        }
                        lemma_walk_kept(loops, before, lvv, v0, visited@, start, simple);
                    }
                } else {
                    proof {
                        let fl = views_of(found@).flatten();
                        assert forall|x: int, y: int| 0 <= x < fl.len() && 0 <= y < fl.len() && x != y implies fl[x] != fl[y] by {
                            assert((fl + lv@)[x] == fl[x]);
                            assert((fl + lv@)[y] == fl[y]);
                        }
                        assert forall|k: int| 0 <= k < fl.len() implies visited@.contains(#[trigger] fl[k]) by {
                            assert((fl + lv@)[k] == fl[k]);
                        }
                    }
                }
                proof {
                    assert forall|j: int| 0 <= j < si + 1 implies visited@.contains(#[trigger] edges@[j].0) by {
                        if j < si {
                            let x = choose|x: int| 0 <= x < v0.len() && v0[x] == edges@[j].0;
                            assert(visited@[x] == edges@[j].0);
                        }
                    }
                }
            }
            si = si + 1;
        }
        proof {
            if simple {
                assert forall|a: usize, b: usize| #[trigger] is_boundary_edge(loops, a, b) implies views_of(found@).flatten().contains(a) by {
                    let j = choose|j: int| 0 <= j < edges@.len() && edges@[j] == (a, b);
                    assert(visited@.contains(edges@[j].0));
                    let k = choose|k: int| 0 <= k < visited@.len() && visited@[k] == a;
                }
            }
        }
        found
    }

    /// Fill every boundary loop that `boundary_loops` finds, each with one
    /// polygon. When the boundary edges form disjoint cycles, every hole is
    /// closed.
    pub fn fill_all_holes(&mut self)
        ensures
            final(self).positions@ == old(self).positions@,
            final(self).face_loops().len() >= old(self).face_loops().len(),
            final(self).face_loops().subrange(0, old(self).face_loops().len() as int) == old(self).face_loops(),
            boundary_loops_ok(old(self).face_loops(), filled_loops(old(self).face_loops(), final(self).face_loops())),
            simple_boundary(old(self).face_loops()) ==> loops_closed(
                old(self).face_loops(),
                filled_loops(old(self).face_loops(), final(self).face_loops()),
            ),
            simple_boundary(old(self).face_loops()) ==> loops_cover_boundary(
                old(self).face_loops(),
                filled_loops(old(self).face_loops(), final(self).face_loops()),
            ),
            old(self).indices_valid() ==> final(self).indices_valid(),
    {
        let ghost loops = self.face_loops();
        let ghost n = loops.len();
        let holes = self.boundary_loops();
        let ghost hv = views_of(holes@);
        let mut j: usize = 0;
        proof {
            assert(self.face_loops().subrange(0, n as int) =~= loops);
        }
        while j < holes.len()
            invariant
                0 <= j <= holes@.len(),
                hv == views_of(holes@),
                boundary_loops_ok(loops, hv),
                n == loops.len(),
                self.positions@ == old(self).positions@,
                loops == old(self).face_loops(),
                self.face_loops().len() == n + j,
                self.face_loops().subrange(0, n as int) == loops,
                forall|t: int| 0 <= t < j ==> #[trigger] self.face_loops()[n + t] == reversed(hv[t]),
                old(self).indices_valid() ==> self.indices_valid(),
            decreases holes.len() - j,
        {
            let ghost before = self.face_loops();
            proof {
                if old(self).indices_valid() {
                    assert forall|t: int| 0 <= t < holes@[j as int]@.len() implies holes@[j as int]@[t] < self.positions@.len() by {
                        let h = hv[j as int];
                        assert(h == holes@[j as int]@);
                        if t < h.len() - 1 {
                            assert(is_boundary_edge(loops, h[t], h[t + 1]));
                            let (f, i) = choose|f: int, i: int|
                                0 <= f < loops.len() && 0 <= i < loops[f].len() && #[trigger] loops[f][i] == h[t] && loops[f][(i + 1)
                                    % (loops[f].len() as int)] == h[t + 1];
                            assert(loops[f][i] < self.positions@.len());
                        } else {
                            assert(h.len() >= 3);
                            assert(is_boundary_edge(loops, h[t - 1], h[t]));
                            let (f, i) = choose|f: int, i: int|
                                0 <= f < loops.len() && 0 <= i < loops[f].len() && #[trigger] loops[f][i] == h[t - 1] && loops[f][(i + 1)
                                    % (loops[f].len() as int)] == h[t];
                            assert(loops[f][(i + 1) % (loops[f].len() as int)] < self.positions@.len());
                        }
                    }
                }
            }
            self.fill_hole(holes[j].as_slice());
            proof {
                assert(self.face_loops().subrange(0, n as int) =~= before.subrange(0, n as int));
                assert forall|t: int| 0 <= t < j + 1 implies #[trigger] self.face_loops()[n + t] == reversed(hv[t]) by {
                    if t < j {
                        assert(self.face_loops()[n + t] == before[n + t]);
                    }
                }
            }
            j = j + 1;
        }
        proof {
            let fl = self.face_loops();
            let added = filled_loops(loops, fl);
            assert forall|t: int| 0 <= t < added.len() implies added[t] == hv[t] by {
                assert(reversed(reversed(hv[t])) =~= hv[t]);
            }
            assert(added =~= hv);
        }
    }
}

} // verus!
