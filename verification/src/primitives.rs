//! Triangle index lists of the primitive meshes: quads whose four corners
//! are stored one after another, a subdivided grid plane, and a
//! latitude/longitude sphere. Vertex positions are not computed here, only
//! which vertices each triangle joins.

use vstd::prelude::*;
use vstd::arithmetic::div_mod::lemma_fundamental_div_mod_converse;

verus! {

/// The two triangles of quad `q`, whose corners are vertices `4q .. 4q + 3`
/// in order around the quad.
pub open spec fn quad_cell(q: int) -> Seq<u32> {
    let b = 4 * q;
    seq![b as u32, (b + 1) as u32, (b + 2) as u32, b as u32, (b + 2) as u32, (b + 3) as u32]
}

/// The triangles of the first `m` quads, quad by quad.
pub open spec fn quad_prefix(m: nat) -> Seq<u32>
    decreases m,
{
    if m == 0 {
        Seq::empty()
    } else {
        quad_prefix((m - 1) as nat) + quad_cell(m - 1)
    }
}

/// Triangles for `quads` quads, each split along the diagonal from its first
/// to its third corner.
pub fn quad_indices(quads: u32) -> (r: Vec<u32>)
    requires
        4 * quads <= u32::MAX,
    ensures
        r@ == quad_prefix(quads as nat),
{
    let mut r: Vec<u32> = Vec::new();
    let mut q: u32 = 0;
    while q < quads
        invariant
            q <= quads,
            4 * quads <= u32::MAX,
            r@ == quad_prefix(q as nat),
        decreases quads - q,
    {
        let b = 4 * q;
        r.push(b);
        r.push(b + 1);
        r.push(b + 2);
        r.push(b);
        r.push(b + 2);
        r.push(b + 3);
        assert(r@ =~= quad_prefix(q as nat) + quad_cell(q as int));
        q = q + 1;
    }
    r
}

/// The two triangles of grid cell (`row`, `col`) of a plane with `cols`
/// vertices per row: top-left, bottom-left, top-right, then top-right,
/// bottom-left, bottom-right.
pub open spec fn plane_cell(cols: int, row: int, col: int) -> Seq<u32> {
    let tl = row * cols + col;
    let tr = tl + 1;
    let bl = tl + cols;
    let br = bl + 1;
    seq![tl as u32, bl as u32, tr as u32, tr as u32, bl as u32, br as u32]
}

/// The triangles of the first `m` cells, row by row, of a plane with `s`
/// cells along each side.
pub open spec fn plane_prefix(s: int, m: nat) -> Seq<u32>
    decreases m,
{
    if m == 0 {
        Seq::empty()
    } else {
        plane_prefix(s, (m - 1) as nat) + plane_cell(s + 1, (m - 1) / s, (m - 1) % s)
    }
}

/// The number of cells along each side of a plane asked for with
/// `subdivisions` (at least one).
pub open spec fn plane_side(subdivisions: u32) -> int {
    if subdivisions < 1 { 1 } else { subdivisions as int }
}

/// Triangles of a grid plane with `subdivisions` cells along each side (at
/// least one), on a row-major grid of `(s + 1) * (s + 1)` vertices.
pub fn plane_indices(subdivisions: u32) -> (r: Vec<u32>)
    requires
        6 * plane_side(subdivisions) * plane_side(subdivisions) <= u32::MAX,
    ensures
        r@ == plane_prefix(plane_side(subdivisions), (plane_side(subdivisions) * plane_side(subdivisions)) as nat),
{
    let s: u32 = if subdivisions < 1 { 1 } else { subdivisions };
    let ghost sg = s as int;
    assert(sg == plane_side(subdivisions));
    assert(s + 1 <= s * (s + 1) + s <= 6 * sg * sg) by (nonlinear_arith)
        requires
            sg == s,
            s >= 1,
    ;
    let cols: u32 = s + 1;
    let mut r: Vec<u32> = Vec::new();
    let mut row: u32 = 0;
    while row < s
        invariant
            row <= s,
            sg == s,
            s >= 1,
            cols == s + 1,
            s * cols + s <= 6 * sg * sg <= u32::MAX,
            r@ == plane_prefix(sg, (row * s) as nat),
        decreases s - row,
    {
        let mut col: u32 = 0;
        while col < s
            invariant
                row < s,
                col <= s,
                sg == s,
                s >= 1,
                cols == s + 1,
                s * cols + s <= 6 * sg * sg <= u32::MAX,
                r@ == plane_prefix(sg, (row * s + col) as nat),
            decreases s - col,
        {
            assert(row * cols + col + cols + 1 <= s * cols + s) by (nonlinear_arith)
                requires
                    row < s,
                    col < s,
                    cols == s + 1,
            ;
            let tl = row * cols + col;
            let tr = tl + 1;
            let bl = tl + cols;
            let br = bl + 1;
            r.push(tl);
            r.push(bl);
            r.push(tr);
            r.push(tr);
            r.push(bl);
            r.push(br);
            proof {
                let m = (row * s + col) as int;
                lemma_fundamental_div_mod_converse(m, sg, row as int, col as int);
                assert(r@ =~= plane_prefix(sg, m as nat) + plane_cell(sg + 1, row as int, col as int));
                assert(plane_prefix(sg, (m + 1) as nat) == plane_prefix(sg, m as nat) + plane_cell(sg + 1, m / sg, m % sg));
            }
            col = col + 1;
        }
        assert((row * s + s) == (row + 1) * s) by (nonlinear_arith);
        row = row + 1;
    }
    r
}

/// The triangles of band `i`, sector `j` of a sphere with `sectors` sectors
/// and `stacks` bands: the upper triangle unless the band touches the top
/// pole, then the lower triangle unless it touches the bottom pole.
pub open spec fn sphere_cell(sectors: int, stacks: int, i: int, j: int) -> Seq<u32> {
    let first = i * (sectors + 1) + j;
    let second = first + sectors + 1;
    let upper: Seq<u32> = if i != 0 {
        seq![first as u32, second as u32, (first + 1) as u32]
    } else {
        Seq::empty()
    };
    let lower: Seq<u32> = if i != stacks - 1 {
        seq![(first + 1) as u32, second as u32, (second + 1) as u32]
    } else {
        Seq::empty()
    };
    upper + lower
}

/// The triangles of the first `m` cells, band by band.
pub open spec fn sphere_prefix(sectors: int, stacks: int, m: nat) -> Seq<u32>
    decreases m,
{
    if m == 0 {
        Seq::empty()
    } else {
        sphere_prefix(sectors, stacks, (m - 1) as nat) + sphere_cell(
            sectors,
            stacks,
            (m - 1) / sectors,
            (m - 1) % sectors,
        )
    }
}

/// The sector count used for a sphere asked for with `sectors` (at least 3).
pub open spec fn sphere_sectors(sectors: u32) -> int {
    if sectors < 3 { 3 } else { sectors as int }
}

/// The band count used for a sphere asked for with `stacks` (at least 2).
pub open spec fn sphere_stacks(stacks: u32) -> int {
    if stacks < 2 { 2 } else { stacks as int }
}

/// Triangles of a latitude/longitude sphere whose `(stacks + 1) * (sectors + 1)`
/// vertices run ring by ring from the top pole, each ring repeating its first
/// vertex at the seam. The bands at the poles get one triangle per sector,
/// the others two.
pub fn uv_sphere_indices(sectors: u32, stacks: u32) -> (r: Vec<u32>)
    requires
        (sphere_stacks(stacks) + 1) * (sphere_sectors(sectors) + 1) <= u32::MAX,
    ensures
        r@ == sphere_prefix(
            sphere_sectors(sectors),
            sphere_stacks(stacks),
            (sphere_stacks(stacks) * sphere_sectors(sectors)) as nat,
        ),
{
    let sec: u32 = if sectors < 3 { 3 } else { sectors };
    let st: u32 = if stacks < 2 { 2 } else { stacks };
    let ghost secg = sec as int;
    let ghost stg = st as int;
    let mut r: Vec<u32> = Vec::new();
    let mut i: u32 = 0;
    while i < st
        invariant
            i <= st,
            secg == sec,
            stg == st,
            sec >= 3,
            st >= 2,
            (st + 1) * (sec + 1) <= u32::MAX,
            r@ == sphere_prefix(secg, stg, (i * sec) as nat),
        decreases st - i,
    {
        let mut j: u32 = 0;
        while j < sec
            invariant
                i < st,
                j <= sec,
                secg == sec,
                stg == st,
                sec >= 3,
                st >= 2,
                (st + 1) * (sec + 1) <= u32::MAX,
                r@ == sphere_prefix(secg, stg, (i * sec + j) as nat),
            decreases sec - j,
        {
            assert(i * (sec + 1) + j + sec + 2 < (st + 1) * (sec + 1)) by (nonlinear_arith)
                requires
                    i < st,
                    j < sec,
            ;
            let first = i * (sec + 1) + j;
            let second = first + sec + 1;
            let ghost before = r@;
            if i != 0 {
                r.push(first);
                r.push(second);
                r.push(first + 1);
            }
            if i != st - 1 {
                r.push(first + 1);
                r.push(second);
                r.push(second + 1);
            }
            proof {
                let m = (i * sec + j) as int;
                lemma_fundamental_div_mod_converse(m, secg, i as int, j as int);
                assert(r@ =~= before + sphere_cell(secg, stg, i as int, j as int));
                assert(sphere_prefix(secg, stg, (m + 1) as nat) == sphere_prefix(secg, stg, m as nat)
                    + sphere_cell(secg, stg, m / secg, m % secg));
            }
            j = j + 1;
        }
        assert((i * sec + sec) == (i + 1) * sec) by (nonlinear_arith);
        i = i + 1;
    }
    r
}

/// `quads` quads give two triangles each, and every index names one of
/// their `4 * quads` corners.
pub proof fn lemma_quad_indices_shape(quads: nat)
    requires
        4 * quads <= u32::MAX,
    ensures
        quad_prefix(quads).len() == 6 * quads,
        forall|i: int| 0 <= i < 6 * quads ==> (#[trigger] quad_prefix(quads)[i]) < 4 * quads,
    decreases quads,
{
    if quads > 0 {
        lemma_quad_indices_shape((quads - 1) as nat);
        let p = quad_prefix((quads - 1) as nat);
        let c = quad_cell(quads - 1);
        assert forall|i: int| 0 <= i < 6 * quads implies (#[trigger] quad_prefix(quads)[i]) < 4 * quads by {
            if i < p.len() {
                assert(quad_prefix(quads)[i] == p[i]);
            } else {
                assert(quad_prefix(quads)[i] == c[i - p.len()]);
            }
        }
    }
}

/// A plane with `s` cells per side has two triangles per cell, and every
/// index names one of its `(s + 1) * (s + 1)` grid vertices.
pub proof fn lemma_plane_indices_shape(s: int)
    requires
        s >= 1,
        (s + 1) * (s + 1) <= u32::MAX,
    ensures
        plane_prefix(s, (s * s) as nat).len() == 6 * s * s,
        forall|i: int| 0 <= i < 6 * s * s ==> (#[trigger] plane_prefix(s, (s * s) as nat)[i]) < (s + 1) * (s + 1),
{
    assert(s * s >= 0 && 6 * s * s == 6 * (s * s)) by (nonlinear_arith)
        requires
            s >= 1,
    ;
    lemma_plane_prefix_shape(s, (s * s) as nat);
}

proof fn lemma_plane_prefix_shape(s: int, m: nat)
    requires
        s >= 1,
        m <= s * s,
        (s + 1) * (s + 1) <= u32::MAX,
    ensures
        plane_prefix(s, m).len() == 6 * m,
        forall|i: int| 0 <= i < 6 * m ==> (#[trigger] plane_prefix(s, m)[i]) < (s + 1) * (s + 1),
    decreases m,
{
    if m > 0 {
        lemma_plane_prefix_shape(s, (m - 1) as nat);
        let p = plane_prefix(s, (m - 1) as nat);
        let row = (m - 1) / s;
        let col = (m - 1) % s;
        assert(0 <= row < s && 0 <= col < s) by (nonlinear_arith)
            requires
                s >= 1,
                0 <= m - 1 < s * s,
                row == (m - 1) / s,
                col == (m - 1) % s,
        ;
        let cols = s + 1;
        assert(0 <= row * cols + col && row * cols + col + cols + 1 < (s + 1) * (s + 1)) by (nonlinear_arith)
            requires
                0 <= row < s,
                0 <= col < s,
                cols == s + 1,
        ;
        let c = plane_cell(cols, row, col);
        assert forall|i: int| 0 <= i < 6 * m implies (#[trigger] plane_prefix(s, m)[i]) < (s + 1) * (s + 1) by {
            if i < p.len() {
                assert(plane_prefix(s, m)[i] == p[i]);
            } else {
                assert(plane_prefix(s, m)[i] == c[i - p.len()]);
            }
        }
    }
}

/// The number of indices in the first `m` cells of a sphere with `sectors`
/// sectors and `stacks` bands: three for each cell of a polar band, six for
/// each other cell.
pub open spec fn sphere_prefix_len(sectors: int, stacks: int, m: int) -> int
    decreases m,
{
    if m <= 0 {
        0
    } else {
        let i = (m - 1) / sectors;
        sphere_prefix_len(sectors, stacks, m - 1) + if i == 0 || i == stacks - 1 { 3int } else { 6int }
    }
}

/// A sphere's triangles all name one of its `(stacks + 1) * (sectors + 1)`
/// vertices, and there are `2 * sectors * (stacks - 1)` of them: one per
/// sector in each polar band, two in every other band.
pub proof fn lemma_uv_sphere_indices_shape(sectors: int, stacks: int)
    requires
        sectors >= 3,
        stacks >= 2,
        (stacks + 1) * (sectors + 1) <= u32::MAX,
    ensures
        sphere_prefix(sectors, stacks, (stacks * sectors) as nat).len() == 6 * sectors * (stacks - 1),
        forall|i: int| 0 <= i < 6 * sectors * (stacks - 1) ==> (#[trigger] sphere_prefix(
            sectors,
            stacks,
            (stacks * sectors) as nat,
        )[i]) < (stacks + 1) * (sectors + 1),
{
    assert(stacks * sectors >= 0) by (nonlinear_arith)
        requires
            sectors >= 3,
            stacks >= 2,
    ;
    lemma_sphere_prefix_shape(sectors, stacks, (stacks * sectors) as nat);
    lemma_sphere_prefix_len_bands(sectors, stacks, stacks);
    assert(sectors * stacks == stacks * sectors) by (nonlinear_arith);
    assert(6 * sectors * stacks - 3 * sectors - 3 * sectors == 6 * sectors * (stacks - 1)) by (nonlinear_arith);
}

/// After `b` whole bands the count is `6 * sectors * b` less three for
/// each polar band among them.
proof fn lemma_sphere_prefix_len_bands(sectors: int, stacks: int, b: int)
    requires
        sectors >= 3,
        stacks >= 2,
        1 <= b <= stacks,
    ensures
        sphere_prefix_len(sectors, stacks, sectors * b) == 6 * sectors * b - 3 * sectors - if b == stacks { 3 * sectors } else { 0 },
    decreases b,
{
    if b == 1 {
        lemma_band_len(sectors, stacks, 0, sectors);
        assert(sectors * 0 == 0 && sectors * 1 == sectors);
        assert(sphere_prefix_len(sectors, stacks, 0) == 0);
        assert(sectors * 3 == 6 * sectors * 1 - 3 * sectors);
        if b == stacks {
        }
    } else {
        lemma_sphere_prefix_len_bands(sectors, stacks, b - 1);
        lemma_band_len(sectors, stacks, b - 1, sectors);
        assert(sectors * (b - 1) + sectors == sectors * b) by (nonlinear_arith);
        assert(6 * sectors * (b - 1) + 6 * sectors == 6 * sectors * b) by (nonlinear_arith);
        assert(sectors * 6 == 6 * sectors && sectors * 3 == 3 * sectors);
    }
}

/// Within band `i`, the first `j` cells each add the same count.
proof fn lemma_band_len(sectors: int, stacks: int, i: int, j: int)
    requires
        sectors >= 3,
        0 <= i,
        0 <= j <= sectors,
    ensures
        sphere_prefix_len(sectors, stacks, sectors * i + j) == sphere_prefix_len(sectors, stacks, sectors * i)
            + j * if i == 0 || i == stacks - 1 { 3int } else { 6int },
    decreases j,
{
    if j > 0 {
        lemma_band_len(sectors, stacks, i, j - 1);
        assert(sectors * i >= 0) by (nonlinear_arith)
            requires
                sectors >= 3,
                i >= 0,
        ;
        assert(sectors * i == i * sectors) by (nonlinear_arith);
        lemma_fundamental_div_mod_converse(sectors * i + j - 1, sectors, i, j - 1);
        let k: int = if i == 0 || i == stacks - 1 { 3int } else { 6int };
        assert((j - 1) * k + k == j * k) by (nonlinear_arith);
    }
}

proof fn lemma_sphere_prefix_shape(sectors: int, stacks: int, m: nat)
    requires
        sectors >= 3,
        stacks >= 2,
        m <= stacks * sectors,
        (stacks + 1) * (sectors + 1) <= u32::MAX,
    ensures
        sphere_prefix(sectors, stacks, m).len() == sphere_prefix_len(sectors, stacks, m as int),
        forall|i: int| 0 <= i < sphere_prefix(sectors, stacks, m).len() ==> (#[trigger] sphere_prefix(sectors, stacks, m)[i]) < (
        stacks + 1) * (sectors + 1),
    decreases m,
{
    if m > 0 {
        lemma_sphere_prefix_shape(sectors, stacks, (m - 1) as nat);
        let p = sphere_prefix(sectors, stacks, (m - 1) as nat);
        let bi = (m - 1) / sectors;
        let bj = (m - 1) % sectors;
        assert(0 <= bi < stacks && 0 <= bj < sectors) by (nonlinear_arith)
            requires
                sectors >= 3,
                0 <= m - 1 < stacks * sectors,
                bi == (m - 1) / sectors,
                bj == (m - 1) % sectors,
        ;
        let first = bi * (sectors + 1) + bj;
        assert(0 <= first && first + sectors + 2 < (stacks + 1) * (sectors + 1)) by (nonlinear_arith)
            requires
                0 <= bi < stacks,
                0 <= bj < sectors,
                first == bi * (sectors + 1) + bj,
        ;
        let c = sphere_cell(sectors, stacks, bi, bj);
        assert forall|i: int| 0 <= i < sphere_prefix(sectors, stacks, m).len() implies (#[trigger] sphere_prefix(
            sectors,
            stacks,
            m,
        )[i]) < (stacks + 1) * (sectors + 1) by {
            if i < p.len() {
                assert(sphere_prefix(sectors, stacks, m)[i] == p[i]);
            } else {
                assert(sphere_prefix(sectors, stacks, m)[i] == c[i - p.len()]);
            }
        }
    }
}

} // verus!
