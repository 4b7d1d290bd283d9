//! Vertex welding and grid clustering: vertices whose grid keys coincide
//! form one cluster, clusters are numbered in order of first appearance,
//! indices are remapped, and triangles that collapse are dropped. The grid
//! keys (positions snapped to a grid) and the clusters' merged attributes are
//! floating point work done by the caller.

use vstd::prelude::*;

verus! {

/// A vertex's snapped grid cell.
pub type GridKey = (i64, i64, i64);

/// The weld of the first `n` keys: the distinct keys in order of first
/// occurrence, the index of each first occurrence, and for each vertex the
/// new index of its key.
pub open spec fn weld_prefix(keys: Seq<GridKey>, n: nat) -> (Seq<GridKey>, Seq<usize>, Seq<u32>)
    decreases n,
{
    if n == 0 {
        (Seq::empty(), Seq::empty(), Seq::empty())
    } else {
        let prev = weld_prefix(keys, (n - 1) as nat);
        let k = keys[n - 1];
        if prev.0.contains(k) {
            (prev.0, prev.1, prev.2.push(prev.0.index_of(k) as u32))
        } else {
            (prev.0.push(k), prev.1.push((n - 1) as usize), prev.2.push(prev.0.len() as u32))
        }
    }
}

/// The weld of all keys.
pub open spec fn weld_of(keys: Seq<GridKey>) -> (Seq<GridKey>, Seq<usize>, Seq<u32>) {
    weld_prefix(keys, keys.len())
}

/// Where `k` is among the kept keys, if it is.
fn find_key(kept: &Vec<GridKey>, k: GridKey) -> (r: Option<usize>)
    requires
        kept@.no_duplicates(),
    ensures
        r.is_some() ==> kept@.contains(k) && r.unwrap() == kept@.index_of(k),
        r.is_none() ==> !kept@.contains(k),
{
    let mut j: usize = 0;
    while j < kept.len()
        invariant
            0 <= j <= kept@.len(),
            kept@.no_duplicates(),
            forall|t: int| 0 <= t < j ==> kept@[t] != k,
        decreases kept.len() - j,
    {
        if kept[j].0 == k.0 && kept[j].1 == k.1 && kept[j].2 == k.2 {
            proof {
                assert(kept@[j as int] == k);
                assert(kept@.contains(k));
                let c = kept@.index_of(k);
                assert(0 <= c < kept@.len() && kept@[c] == k);
                if c != j as int {
                    assert(kept@[c] != kept@[j as int]);
                }
            }
            return Some(j);
        }
        j = j + 1;
    }
    None
}

/// Weld by grid key: returns the index of the first vertex of each distinct
/// key (in order of first occurrence) and, per vertex, the new index of its
/// key.
pub fn weld_remap(keys: &Vec<GridKey>) -> (r: (Vec<usize>, Vec<u32>))
    requires
        keys@.len() <= u32::MAX,
    ensures
        r.0@ == weld_of(keys@).1,
        r.1@ == weld_of(keys@).2,
{
    let mut kept: Vec<GridKey> = Vec::new();
    let mut firsts: Vec<usize> = Vec::new();
    let mut remap: Vec<u32> = Vec::new();
    let mut i: usize = 0;
    while i < keys.len()
        invariant
            0 <= i <= keys@.len(),
            keys@.len() <= u32::MAX,
            kept@.len() <= i,
            (kept@, firsts@, remap@) == weld_prefix(keys@, i as nat),
        decreases keys.len() - i,
    {
        let k = keys[i];
        proof {
            lemma_weld_maps_to_same_key(keys@, i as nat);
        }
        match find_key(&kept, k) {
            Some(p) => {
                remap.push(p as u32);
            },
            None => {
                let idx = kept.len() as u32;
                kept.push(k);
                firsts.push(i);
                remap.push(idx);
            },
        }
        i = i + 1;
    }
    (firsts, remap)
}

/// The triangles among the first `t` of `indices`, remapped, without those
/// whose three new corners are not all different.
pub open spec fn kept_triangles(indices: Seq<u32>, remap: Seq<u32>, t: nat) -> Seq<u32>
    decreases t,
{
    if t == 0 {
        Seq::empty()
    } else {
        let prev = kept_triangles(indices, remap, (t - 1) as nat);
        let base = 3 * (t - 1);
        let a = remap[indices[base] as int];
        let b = remap[indices[base + 1] as int];
        let c = remap[indices[base + 2] as int];
        if a != b && b != c && a != c {
            prev + seq![a, b, c]
        } else {
            prev
        }
    }
}

/// Triangle `k` of a triangle list.
pub open spec fn triangle_at(s: Seq<u32>, k: int) -> (u32, u32, u32) {
    (s[3 * k], s[3 * k + 1], s[3 * k + 2])
}

/// Triangle `t` of `indices` with each corner passed through `remap`.
pub open spec fn remapped_triangle(indices: Seq<u32>, remap: Seq<u32>, t: int) -> (u32, u32, u32) {
    (remap[indices[3 * t] as int], remap[indices[3 * t + 1] as int], remap[indices[3 * t + 2] as int])
}

/// The three corners are pairwise different.
pub open spec fn corners_distinct(x: (u32, u32, u32)) -> bool {
    x.0 != x.1 && x.1 != x.2 && x.0 != x.2
}

/// `r` holds triangle `x` somewhere.
pub open spec fn has_triangle(r: Seq<u32>, x: (u32, u32, u32)) -> bool {
    exists|k: int| 0 <= k < r.len() / 3 && #[trigger] triangle_at(r, k) == x
}

/// Dropping collapsed triangles: the result is a list of whole triangles,
/// each with three different corners and each the remap of an input
/// triangle; and an input triangle's remap appears in it exactly when its
/// three remapped corners are different.
pub proof fn lemma_drop_degenerate_law(indices: Seq<u32>, remap: Seq<u32>, t: nat)
    ensures
        ({
            let r = kept_triangles(indices, remap, t);
            &&& r.len() % 3 == 0
            &&& forall|k: int| 0 <= k < r.len() / 3 ==> corners_distinct(#[trigger] triangle_at(r, k))
            &&& forall|k: int| 0 <= k < r.len() / 3 ==> exists|s: int|
                0 <= s < t && #[trigger] triangle_at(r, k) == remapped_triangle(indices, remap, s)
            &&& forall|s: int| 0 <= s < t ==> (corners_distinct(#[trigger] remapped_triangle(indices, remap, s))
                <==> has_triangle(r, remapped_triangle(indices, remap, s)))
        }),
    decreases t,
{
    if t > 0 {
        let prev = kept_triangles(indices, remap, (t - 1) as nat);
        let r = kept_triangles(indices, remap, t);
        lemma_drop_degenerate_law(indices, remap, (t - 1) as nat);
        let m: int = (prev.len() / 3) as int;
        assert(prev.len() == 3 * m);
        let x = remapped_triangle(indices, remap, t - 1);
        if corners_distinct(x) {
            assert(r == prev + seq![x.0, x.1, x.2]);
            assert(r.len() == 3 * (m + 1));
            assert(r.len() / 3 == m + 1);
            assert forall|k: int| 0 <= k < m implies #[trigger] triangle_at(r, k) == triangle_at(prev, k) by {
                assert(r[3 * k] == prev[3 * k]);
                assert(r[3 * k + 1] == prev[3 * k + 1]);
                assert(r[3 * k + 2] == prev[3 * k + 2]);
            }
            assert(triangle_at(r, m) == x);
            assert forall|k: int| 0 <= k < r.len() / 3 implies exists|s: int|
                0 <= s < t && #[trigger] triangle_at(r, k) == remapped_triangle(indices, remap, s) by {
                if k < m {
                    assert(triangle_at(r, k) == triangle_at(prev, k));
                } else {
                    assert(triangle_at(r, k) == remapped_triangle(indices, remap, t - 1));
                }
            }
            assert forall|s: int| 0 <= s < t implies (corners_distinct(#[trigger] remapped_triangle(indices, remap, s))
                <==> has_triangle(r, remapped_triangle(indices, remap, s))) by {
                let y = remapped_triangle(indices, remap, s);
                if s == t - 1 {
                    assert(triangle_at(r, m) == y);
                } else {
                    if has_triangle(prev, y) {
                        let k = choose|k: int| 0 <= k < prev.len() / 3 && #[trigger] triangle_at(prev, k) == y;
                        assert(triangle_at(r, k) == y);
                    }
                    if has_triangle(r, y) {
                        let k = choose|k: int| 0 <= k < r.len() / 3 && #[trigger] triangle_at(r, k) == y;
                        if k < m {
                            assert(triangle_at(prev, k) == y);
                        } else {
                            assert(corners_distinct(triangle_at(r, k)));
                        }
                    }
                }
            }
        } else {
            assert(r == prev);
            assert forall|s: int| 0 <= s < t implies (corners_distinct(#[trigger] remapped_triangle(indices, remap, s))
                <==> has_triangle(r, remapped_triangle(indices, remap, s))) by {
                let y = remapped_triangle(indices, remap, s);
                if s == t - 1 {
                    if has_triangle(r, y) {
                        let k = choose|k: int| 0 <= k < r.len() / 3 && #[trigger] triangle_at(r, k) == y;
                        assert(corners_distinct(triangle_at(r, k)));
                    }
                }
            }
            assert forall|k: int| 0 <= k < r.len() / 3 implies exists|s: int|
                0 <= s < t && #[trigger] triangle_at(r, k) == remapped_triangle(indices, remap, s) by {
                let s = choose|s: int| 0 <= s < t - 1 && #[trigger] triangle_at(prev, k) == remapped_triangle(indices, remap, s);
            }
        }
    }
}

/// Remap each complete triangle of `indices` and keep those that did not
/// collapse (a trailing partial triangle is ignored).
pub fn drop_degenerate(indices: &Vec<u32>, remap: &Vec<u32>) -> (r: Vec<u32>)
    requires
        forall|i: int| 0 <= i < (indices@.len() / 3) * 3 ==> #[trigger] indices@[i] < remap@.len(),
    ensures
        r@ == kept_triangles(indices@, remap@, indices@.len() / 3),
        r@.len() % 3 == 0,
        forall|k: int| 0 <= k < r@.len() / 3 ==> corners_distinct(#[trigger] triangle_at(r@, k)),
        forall|s: int| 0 <= s < indices@.len() / 3 ==> (corners_distinct(#[trigger] remapped_triangle(indices@, remap@, s))
            <==> has_triangle(r@, remapped_triangle(indices@, remap@, s))),
{
    let len = indices.len();
    let tris = len / 3;
    assert(tris * 3 <= indices@.len()) by (nonlinear_arith)
        requires
            tris == indices@.len() / 3,
    ;
    let mut out: Vec<u32> = Vec::new();
    let mut t: usize = 0;
    while t < tris
        invariant
            0 <= t <= tris,
            tris == indices@.len() / 3,
            tris * 3 <= indices@.len(),
            len == indices@.len(),
            forall|i: int| 0 <= i < tris * 3 ==> #[trigger] indices@[i] < remap@.len(),
            out@ == kept_triangles(indices@, remap@, t as nat),
        decreases tris - t,
    {
        let base = 3 * t;
        assert(indices@[base as int] < remap@.len());
        assert(indices@[base + 1] < remap@.len());
        assert(indices@[base + 2] < remap@.len());
        let a = remap[indices[base] as usize];
        let b = remap[indices[base + 1] as usize];
        let c = remap[indices[base + 2] as usize];
        if a != b && b != c && a != c {
            let ghost before = out@;
            out.push(a);
            out.push(b);
            out.push(c);
            assert(out@ =~= before + seq![a, b, c]);
        }
        t = t + 1;
    }
    proof {
        lemma_drop_degenerate_law(indices@, remap@, tris as nat);
    }
    out
}

/// Welding keeps one vertex per distinct key, maps every vertex to the kept
/// vertex of its key, and keeps each key's first vertex.
pub proof fn lemma_weld_maps_to_same_key(keys: Seq<GridKey>, n: nat)
    requires
        n <= keys.len(),
        keys.len() <= u32::MAX,
    ensures
        ({
            let w = weld_prefix(keys, n);
            &&& w.0.len() == w.1.len()
            &&& w.0.len() <= n
            &&& w.2.len() == n
            &&& w.0.no_duplicates()
            &&& forall|j: int| 0 <= j < w.1.len() ==> #[trigger] w.1[j] < n && keys[w.1[j] as int] == w.0[j]
            &&& forall|i: int| 0 <= i < n ==> #[trigger] w.2[i] < w.0.len() && w.0[w.2[i] as int] == keys[i]
        }),
    decreases n,
{
    if n > 0 {
        lemma_weld_maps_to_same_key(keys, (n - 1) as nat);
        let prev = weld_prefix(keys, (n - 1) as nat);
        let k = keys[n - 1];
        let w = weld_prefix(keys, n);
        if prev.0.contains(k) {
            let c = prev.0.index_of(k);
            assert(0 <= c < prev.0.len() && prev.0[c] == k);
            assert forall|i: int| 0 <= i < n implies #[trigger] w.2[i] < w.0.len() && w.0[w.2[i] as int] == keys[i] by {
                if i < n - 1 {
                    assert(w.2[i] == prev.2[i]);
                }
            }
        } else {
            assert(w.0.no_duplicates()) by {
                assert forall|x: int, y: int| 0 <= x < w.0.len() && 0 <= y < w.0.len() && x != y implies w.0[x] != w.0[y] by {
                    if x == prev.0.len() {
                        assert(!prev.0.contains(w.0[y]) || w.0[y] != k);
                        if y < prev.0.len() {
                            assert(prev.0.contains(prev.0[y]));
                        }
                    } else if y == prev.0.len() {
                        assert(prev.0.contains(prev.0[x]));
                    }
                }
            }
            assert forall|i: int| 0 <= i < n implies #[trigger] w.2[i] < w.0.len() && w.0[w.2[i] as int] == keys[i] by {
                if i < n - 1 {
                    assert(w.2[i] == prev.2[i]);
                }
            }
            assert forall|j: int| 0 <= j < w.1.len() implies #[trigger] w.1[j] < n && keys[w.1[j] as int] == w.0[j] by {
                if j < prev.1.len() {
                    assert(w.1[j] == prev.1[j]);
                }
            }
        }
    }
}

} // verus!
