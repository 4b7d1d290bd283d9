//! Asset tables of a project bundle: `(id, value)` lists rather than maps, so
//! that they serialize cleanly to formats without numeric map keys; and the
//! integrity check that every asset id referenced by the scene's mesh nodes
//! and by the materials resolves to a stored asset.

use vstd::prelude::*;

verus! {

/// Position of the first entry of `list` with id `id`, or -1 if none.
pub open spec fn first_with_id<V>(list: Seq<(u64, V)>, id: u64) -> int
    decreases list.len(),
{
    if list.len() == 0 {
        -1
    } else if list[0].0 == id {
        0
    } else {
        let r = first_with_id(list.drop_first(), id);
        if r < 0 {
            -1
        } else {
            r + 1
        }
    }
}

/// `first_with_id` finds the first matching entry, or reports that none
/// matches.
pub proof fn lemma_first_with_id<V>(list: Seq<(u64, V)>, id: u64)
    ensures
        -1 <= first_with_id(list, id) < list.len(),
        first_with_id(list, id) >= 0 ==> list[first_with_id(list, id)].0 == id,
        forall|j: int| 0 <= j < list.len() && (first_with_id(list, id) < 0 || j < first_with_id(list, id)) ==> #[trigger] list[j].0 != id,
    decreases list.len(),
{
    if list.len() > 0 && list[0].0 != id {
        lemma_first_with_id(list.drop_first(), id);
        assert forall|j: int| 0 <= j < list.len() && (first_with_id(list, id) < 0 || j < first_with_id(list, id)) implies #[trigger] list[j].0 != id by {
            if j > 0 {
                assert(list[j] == list.drop_first()[j - 1]);
            }
        }
    }
}

/// The table after storing `value` under `id`: the first entry with that id
/// gets the new value, or the pair is appended when no entry has it.
pub open spec fn stored<V>(list: Seq<(u64, V)>, id: u64, value: V) -> Seq<(u64, V)> {
    let j = first_with_id(list, id);
    if j >= 0 {
        list.update(j, (id, value))
    } else {
        list.push((id, value))
    }
}

/// Replace the value for `id` if present, otherwise append.
pub fn replace_or_push<V>(list: &mut Vec<(u64, V)>, id: u64, value: V)
    ensures
        final(list)@ == stored(old(list)@, id, value),
{
    proof {
        lemma_first_with_id(list@, id);
    }
    let mut i: usize = 0;
    while i < list.len()
        invariant
            0 <= i <= list@.len(),
            list@ == old(list)@,
            forall|j: int| 0 <= j < i ==> #[trigger] list@[j].0 != id,
        decreases list.len() - i,
    {
        if list[i].0 == id {
            proof {
                lemma_first_with_id(list@, id);
                let f = first_with_id(list@, id);
                assert(f == i as int) by {
                    if f < 0 || i < f {
                        assert(list@[i as int].0 != id);
                    }
                }
            }
            list.set(i, (id, value));
            return;
        }
        i = i + 1;
    }
    proof {
        lemma_first_with_id(list@, id);
        let f = first_with_id(list@, id);
        if f >= 0 {
            assert(list@[f].0 != id);
        }
    }
    list.push((id, value));
}

/// Storing under an id makes a later lookup of that id find the stored value;
/// entries under other ids keep their positions and values, and the table
/// grows by one entry only when the id was new.
pub proof fn lemma_stored_then_found<V>(list: Seq<(u64, V)>, id: u64, value: V)
    ensures
        ({
            let after = stored(list, id, value);
            &&& first_with_id(after, id) >= 0
            &&& after[first_with_id(after, id)] == (id, value)
            &&& forall|j: int| 0 <= j < list.len() && list[j].0 != id ==> #[trigger] after[j] == list[j]
            &&& after.len() == if first_with_id(list, id) >= 0 {
                list.len()
            } else {
                list.len() + 1
            }
        }),
{
    lemma_first_with_id(list, id);
    let after = stored(list, id, value);
    lemma_first_with_id(after, id);
    let j = first_with_id(list, id);
    let k = first_with_id(after, id);
    if j >= 0 {
        assert(after[j].0 == id);
        assert(k == j) by {
            if k < 0 || j < k {
                assert(after[j].0 != id);
            } else if k < j {
                assert(list[k].0 != id);
                assert(after[k] == list[k]);
            }
        }
    } else {
        let n = list.len() as int;
        assert(after[n].0 == id);
        assert(k == n) by {
            if k < 0 || n < k {
                assert(after[n].0 != id);
            } else if k < n {
                assert(after[k] == list[k]);
                assert(list[k].0 != id);
            }
        }
    }
}

/// Some entry of `list` has id `id`.
pub open spec fn has_id<V>(list: Seq<(u64, V)>, id: u64) -> bool {
    first_with_id(list, id) >= 0
}

/// Whether some entry of `list` has id `id`.
pub fn contains_id<V>(list: &Vec<(u64, V)>, id: u64) -> (r: bool)
    ensures
        r == has_id(list@, id),
{
    proof {
        lemma_first_with_id(list@, id);
    }
    let mut i: usize = 0;
    while i < list.len()
        invariant
            0 <= i <= list@.len(),
            forall|j: int| 0 <= j < i ==> #[trigger] list@[j].0 != id,
            -1 <= first_with_id(list@, id) < list@.len(),
            first_with_id(list@, id) >= 0 ==> list@[first_with_id(list@, id)].0 == id,
        decreases list.len() - i,
    {
        if list[i].0 == id {
            proof {
                lemma_first_with_id(list@, id);
                if first_with_id(list@, id) < 0 {
                    assert(list@[i as int].0 != id);
                }
            }
            return true;
        }
        i = i + 1;
    }
    proof {
        let f = first_with_id(list@, id);
        if f >= 0 {
            assert(list@[f].0 != id);
        }
    }
    false
}

/// The value stored under `id`: that of the first entry with this id, or
/// `None` when no entry has it.
pub fn lookup<V>(list: &Vec<(u64, V)>, id: u64) -> (r: Option<&V>)
    ensures
        match r {
            Some(v) => first_with_id(list@, id) >= 0 && *v == list@[first_with_id(list@, id)].1,
            None => first_with_id(list@, id) < 0,
        },
{
    proof {
        lemma_first_with_id(list@, id);
    }
    let mut i: usize = 0;
    while i < list.len()
        invariant
            0 <= i <= list@.len(),
            forall|j: int| 0 <= j < i ==> #[trigger] list@[j].0 != id,
            -1 <= first_with_id(list@, id) < list@.len(),
            first_with_id(list@, id) >= 0 ==> list@[first_with_id(list@, id)].0 == id,
            forall|j: int| 0 <= j < list@.len() && (first_with_id(list@, id) < 0 || j < first_with_id(list@, id)) ==> #[trigger] list@[j].0 != id,
        decreases list.len() - i,
    {
        if list[i].0 == id {
            proof {
                let f = first_with_id(list@, id);
                if f < 0 || i < f {
                    assert(list@[i as int].0 != id);
                }
                if f >= 0 && f < i {
                    assert(list@[f].0 != id);
                }
            }
            return Some(&list[i].1);
        }
        i = i + 1;
    }
    proof {
        let f = first_with_id(list@, id);
        if f >= 0 {
            assert(list@[f].0 != id);
        }
    }
    None
}

/// A scene node that draws a mesh: its key, the mesh id, and the material
/// id if it has one.
#[derive(Clone, Copy, Debug, PartialEq, Eq)]
pub struct MeshNode {
    pub key: u64,
    pub mesh: u64,
    pub material: Option<u64>,
}

/// The texture ids a material refers to, slot by slot.
#[derive(Clone, Copy, Debug, PartialEq, Eq)]
pub struct MaterialTextures {
    pub base_color: Option<u64>,
    pub metallic_roughness: Option<u64>,
    pub normal: Option<u64>,
    pub emissive: Option<u64>,
    pub occlusion: Option<u64>,
}

/// A reference that does not resolve: the position of the referring mesh
/// node (in scene order) or material (in table order), and the missing id.
#[derive(Clone, Copy, Debug, PartialEq, Eq)]
pub enum Dangling {
    Mesh { node: usize, mesh: u64 },
    Material { node: usize, material: u64 },
    Texture { material: usize, texture: u64 },
}

/// The dangling references of mesh node `n`, at position `i`: its mesh,
/// then its material.
pub open spec fn node_issues<M>(
    n: MeshNode,
    i: int,
    meshes: Seq<(u64, M)>,
    materials: Seq<(u64, MaterialTextures)>,
) -> Seq<Dangling> {
    let mesh_issue: Seq<Dangling> = if has_id(meshes, n.mesh) {
        Seq::empty()
    } else {
        seq![Dangling::Mesh { node: i as usize, mesh: n.mesh }]
    };
    let material_issue: Seq<Dangling> = match n.material {
        Some(m) => if has_id(materials, m) {
            Seq::empty()
        } else {
            seq![Dangling::Material { node: i as usize, material: m }]
        },
        None => Seq::empty(),
    };
    mesh_issue + material_issue
}

/// The dangling references of the first `k` mesh nodes, node by node.
pub open spec fn nodes_issues<M>(
    nodes: Seq<MeshNode>,
    meshes: Seq<(u64, M)>,
    materials: Seq<(u64, MaterialTextures)>,
    k: nat,
) -> Seq<Dangling>
    decreases k,
{
    if k == 0 {
        Seq::empty()
    } else {
        nodes_issues(nodes, meshes, materials, (k - 1) as nat) + node_issues(nodes[k - 1], k - 1, meshes, materials)
    }
}

/// The issue of one texture slot of material `j`, if it names a missing
/// texture.
pub open spec fn slot_issue<T>(slot: Option<u64>, j: int, textures: Seq<(u64, T)>) -> Seq<Dangling> {
    match slot {
        Some(t) => if has_id(textures, t) {
            Seq::empty()
        } else {
            seq![Dangling::Texture { material: j as usize, texture: t }]
        },
        None => Seq::empty(),
    }
}

/// The dangling texture references of material `m` at position `j`, in slot
/// order: base colour, metallic-roughness, normal, emissive, occlusion.
pub open spec fn material_issues<T>(m: MaterialTextures, j: int, textures: Seq<(u64, T)>) -> Seq<Dangling> {
    slot_issue(m.base_color, j, textures) + slot_issue(m.metallic_roughness, j, textures) + slot_issue(
        m.normal,
        j,
        textures,
    ) + slot_issue(m.emissive, j, textures) + slot_issue(m.occlusion, j, textures)
}

/// The dangling texture references of the first `k` materials.
pub open spec fn materials_issues<T>(
    materials: Seq<(u64, MaterialTextures)>,
    textures: Seq<(u64, T)>,
    k: nat,
) -> Seq<Dangling>
    decreases k,
{
    if k == 0 {
        Seq::empty()
    } else {
        materials_issues(materials, textures, (k - 1) as nat) + material_issues(materials[k - 1].1, k - 1, textures)
    }
}

/// Every reference resolves: each mesh node's mesh and material, and each
/// material's textures, are stored.
pub open spec fn self_contained<M, T>(
    nodes: Seq<MeshNode>,
    meshes: Seq<(u64, M)>,
    materials: Seq<(u64, MaterialTextures)>,
    textures: Seq<(u64, T)>,
) -> bool {
    &&& forall|i: int| 0 <= i < nodes.len() ==> #[trigger] node_issues(nodes[i], i, meshes, materials).len() == 0
    &&& forall|j: int| 0 <= j < materials.len() ==> #[trigger] material_issues(materials[j].1, j, textures).len() == 0
}

fn push_slot_issue<T>(issues: &mut Vec<Dangling>, slot: Option<u64>, j: usize, textures: &Vec<(u64, T)>)
    ensures
        final(issues)@ == old(issues)@ + slot_issue(slot, j as int, textures@),
{
    if let Some(t) = slot {
        if !contains_id(textures, t) {
            issues.push(Dangling::Texture { material: j, texture: t });
        }
    }
    assert(issues@ =~= old(issues)@ + slot_issue(slot, j as int, textures@));
}

fn push_material_issues<T>(issues: &mut Vec<Dangling>, m: MaterialTextures, j: usize, textures: &Vec<(u64, T)>)
    ensures
        final(issues)@ == old(issues)@ + material_issues(m, j as int, textures@),
{
    push_slot_issue(issues, m.base_color, j, textures);
    push_slot_issue(issues, m.metallic_roughness, j, textures);
    push_slot_issue(issues, m.normal, j, textures);
    push_slot_issue(issues, m.emissive, j, textures);
    push_slot_issue(issues, m.occlusion, j, textures);
    assert(issues@ =~= old(issues)@ + material_issues(m, j as int, textures@));
}

/// The references that do not resolve, mesh nodes first (each node's mesh,
/// then its material), then each material's textures; empty exactly when the
/// bundle is self-contained.
pub fn validate_references<M, T>(
    nodes: &Vec<MeshNode>,
    meshes: &Vec<(u64, M)>,
    materials: &Vec<(u64, MaterialTextures)>,
    textures: &Vec<(u64, T)>,
) -> (r: Vec<Dangling>)
    ensures
        r@ == nodes_issues(nodes@, meshes@, materials@, nodes@.len()) + materials_issues(
            materials@,
            textures@,
            materials@.len(),
        ),
        r@.len() == 0 <==> self_contained(nodes@, meshes@, materials@, textures@),
        forall|j: int, t: u64| 0 <= j < materials@.len() && #[trigger] names_texture(materials@[j].1, t)
            && !has_id(textures@, t) ==> r@.contains(Dangling::Texture { material: j as usize, texture: t }),
        forall|i: int| 0 <= i < nodes@.len() && !has_id(meshes@, (#[trigger] nodes@[i]).mesh) ==> r@.contains(
            Dangling::Mesh { node: i as usize, mesh: nodes@[i].mesh },
        ),
        forall|x: Dangling| #[trigger] r@.contains(x) ==> really_dangling(x, nodes@, meshes@, materials@, textures@),
{
    let mut issues: Vec<Dangling> = Vec::new();
    let mut i: usize = 0;
    while i < nodes.len()
        invariant
            0 <= i <= nodes@.len(),
            issues@ == nodes_issues(nodes@, meshes@, materials@, i as nat),
        decreases nodes.len() - i,
    {
        let n = nodes[i];
        let ghost before = issues@;
        if !contains_id(meshes, n.mesh) {
            issues.push(Dangling::Mesh { node: i, mesh: n.mesh });
        }
        if let Some(m) = n.material {
            if !contains_id(materials, m) {
                issues.push(Dangling::Material { node: i, material: m });
            }
        }
        assert(issues@ =~= before + node_issues(n, i as int, meshes@, materials@));
        i = i + 1;
    }
    let ghost node_part = issues@;
    let mut j: usize = 0;
    while j < materials.len()
        invariant
            0 <= j <= materials@.len(),
            node_part == nodes_issues(nodes@, meshes@, materials@, nodes@.len()),
            issues@ == node_part + materials_issues(materials@, textures@, j as nat),
        decreases materials.len() - j,
    {
        let m = materials[j].1;
        push_material_issues(&mut issues, m, j, textures);
        assert(issues@ =~= node_part + materials_issues(materials@, textures@, (j + 1) as nat));
        j = j + 1;
    }
    proof {
        lemma_nodes_issues_empty(nodes@, meshes@, materials@, nodes@.len());
        lemma_materials_issues_empty(materials@, textures@, materials@.len());
        lemma_validation_law(nodes@, meshes@, materials@, textures@);
    }
    issues
}

proof fn lemma_nodes_issues_empty<M>(
    nodes: Seq<MeshNode>,
    meshes: Seq<(u64, M)>,
    materials: Seq<(u64, MaterialTextures)>,
    k: nat,
)
    requires
        k <= nodes.len(),
    ensures
        nodes_issues(nodes, meshes, materials, k).len() == 0 <==> forall|i: int|
            0 <= i < k ==> #[trigger] node_issues(nodes[i], i, meshes, materials).len() == 0,
    decreases k,
{
    if k > 0 {
        lemma_nodes_issues_empty(nodes, meshes, materials, (k - 1) as nat);
    }
}

proof fn lemma_materials_issues_empty<T>(materials: Seq<(u64, MaterialTextures)>, textures: Seq<(u64, T)>, k: nat)
    requires
        k <= materials.len(),
    ensures
        materials_issues(materials, textures, k).len() == 0 <==> forall|j: int|
            0 <= j < k ==> #[trigger] material_issues(materials[j].1, j, textures).len() == 0,
    decreases k,
{
    if k > 0 {
        lemma_materials_issues_empty(materials, textures, (k - 1) as nat);
    }
}

/// Material `m` names texture `t` in one of its five slots (base colour,
/// metallic-roughness, normal, emissive, occlusion).
pub open spec fn names_texture(m: MaterialTextures, t: u64) -> bool {
    m.base_color == Some(t) || m.metallic_roughness == Some(t) || m.normal == Some(t) || m.emissive == Some(t)
        || m.occlusion == Some(t)
}

/// `d` is a true dangling reference of the bundle: its mesh node or material
/// exists at that position and names an id that is not stored.
pub open spec fn really_dangling<M, T>(
    d: Dangling,
    nodes: Seq<MeshNode>,
    meshes: Seq<(u64, M)>,
    materials: Seq<(u64, MaterialTextures)>,
    textures: Seq<(u64, T)>,
) -> bool {
    match d {
        Dangling::Mesh { node, mesh } => node < nodes.len() && nodes[node as int].mesh == mesh && !has_id(meshes, mesh),
        Dangling::Material { node, material } => node < nodes.len() && nodes[node as int].material == Some(material)
            && !has_id(materials, material),
        Dangling::Texture { material, texture } => material < materials.len() && names_texture(
            materials[material as int].1,
            texture,
        ) && !has_id(textures, texture),
    }
}

proof fn lemma_concat_contains(a: Seq<Dangling>, b: Seq<Dangling>, x: Dangling)
    ensures
        (a + b).contains(x) <==> a.contains(x) || b.contains(x),
{
    if a.contains(x) {
        let i = choose|i: int| 0 <= i < a.len() && a[i] == x;
        assert((a + b)[i] == x);
    }
    if b.contains(x) {
        let i = choose|i: int| 0 <= i < b.len() && b[i] == x;
        assert((a + b)[a.len() + i] == x);
    }
    if (a + b).contains(x) {
        let i = choose|i: int| 0 <= i < (a + b).len() && (a + b)[i] == x;
        if i < a.len() {
            assert(a[i] == x);
        } else {
            assert(b[i - a.len()] == x);
        }
    }
}

proof fn lemma_slot_issue_law<T>(slot: Option<u64>, j: int, textures: Seq<(u64, T)>, x: Dangling)
    ensures
        slot_issue(slot, j, textures).contains(x) <==> (slot matches Some(t) && !has_id(textures, t)
            && x == (Dangling::Texture { material: j as usize, texture: t })),
{
    if slot_issue(slot, j, textures).contains(x) {
        let i = choose|i: int| 0 <= i < slot_issue(slot, j, textures).len() && slot_issue(slot, j, textures)[i] == x;
    }
    if slot matches Some(t) && !has_id(textures, t) && x == (Dangling::Texture { material: j as usize, texture: t }) {
        assert(slot_issue(slot, j, textures)[0] == x);
    }
}

proof fn lemma_material_issues_law<T>(m: MaterialTextures, j: int, textures: Seq<(u64, T)>, x: Dangling)
    ensures
        material_issues(m, j, textures).contains(x) <==> (exists|t: u64| #[trigger] names_texture(m, t)
            && !has_id(textures, t) && x == (Dangling::Texture { material: j as usize, texture: t })),
{
    let a = slot_issue(m.base_color, j, textures);
    let b = slot_issue(m.metallic_roughness, j, textures);
    let c = slot_issue(m.normal, j, textures);
    let d = slot_issue(m.emissive, j, textures);
    let e = slot_issue(m.occlusion, j, textures);
    lemma_concat_contains(a, b, x);
    lemma_concat_contains(a + b, c, x);
    lemma_concat_contains(a + b + c, d, x);
    lemma_concat_contains(a + b + c + d, e, x);
    lemma_slot_issue_law(m.base_color, j, textures, x);
    lemma_slot_issue_law(m.metallic_roughness, j, textures, x);
    lemma_slot_issue_law(m.normal, j, textures, x);
    lemma_slot_issue_law(m.emissive, j, textures, x);
    lemma_slot_issue_law(m.occlusion, j, textures, x);
    if exists|t: u64| #[trigger] names_texture(m, t) && !has_id(textures, t) && x == (Dangling::Texture {
        material: j as usize,
        texture: t,
    }) {
        let t = choose|t: u64| #[trigger] names_texture(m, t) && !has_id(textures, t) && x == (Dangling::Texture {
            material: j as usize,
            texture: t,
        });
        assert(material_issues(m, j, textures).contains(x));
    }
    if material_issues(m, j, textures).contains(x) {
        match x {
            Dangling::Texture { material, texture } => {
                assert(names_texture(m, texture));
            },
            _ => {},
        }
    }
}

proof fn lemma_materials_issues_law<T>(materials: Seq<(u64, MaterialTextures)>, textures: Seq<(u64, T)>, k: nat, x: Dangling)
    requires
        k <= materials.len() <= usize::MAX,
    ensures
        materials_issues(materials, textures, k).contains(x) <==> (exists|j: int, t: u64|
            0 <= j < k && #[trigger] names_texture(materials[j].1, t) && !has_id(textures, t)
                && x == (Dangling::Texture { material: j as usize, texture: t })),
    decreases k,
{
    if k > 0 {
        lemma_materials_issues_law(materials, textures, (k - 1) as nat, x);
        lemma_concat_contains(
            materials_issues(materials, textures, (k - 1) as nat),
            material_issues(materials[k - 1].1, k - 1, textures),
            x,
        );
        lemma_material_issues_law(materials[k - 1].1, k - 1, textures, x);
        if exists|j: int, t: u64| 0 <= j < k && #[trigger] names_texture(materials[j].1, t) && !has_id(textures, t)
            && x == (Dangling::Texture { material: j as usize, texture: t }) {
            let (j, t) = choose|j: int, t: u64| 0 <= j < k && #[trigger] names_texture(materials[j].1, t)
                && !has_id(textures, t) && x == (Dangling::Texture { material: j as usize, texture: t });
            if j == k - 1 {
                assert(names_texture(materials[k - 1].1, t));
            } else {
                assert(names_texture(materials[j].1, t));
            }
        }
        if material_issues(materials[k - 1].1, k - 1, textures).contains(x) {
            let t = choose|t: u64| #[trigger] names_texture(materials[k - 1].1, t) && !has_id(textures, t)
                && x == (Dangling::Texture { material: (k - 1) as usize, texture: t });
            assert(names_texture(materials[k - 1].1, t));
        }
    }
}

proof fn lemma_nodes_issues_law<M>(
    nodes: Seq<MeshNode>,
    meshes: Seq<(u64, M)>,
    materials: Seq<(u64, MaterialTextures)>,
    k: nat,
    x: Dangling,
)
    requires
        k <= nodes.len() <= usize::MAX,
    ensures
        nodes_issues(nodes, meshes, materials, k).contains(x) <==> (exists|i: int|
            0 <= i < k && #[trigger] node_reports(nodes[i], i, meshes, materials, x)),
    decreases k,
{
    if k > 0 {
        let n = nodes[k - 1];
        let i = k - 1;
        lemma_nodes_issues_law(nodes, meshes, materials, (k - 1) as nat, x);
        lemma_concat_contains(nodes_issues(nodes, meshes, materials, (k - 1) as nat), node_issues(n, i, meshes, materials), x);
        let a: Seq<Dangling> = if has_id(meshes, n.mesh) { Seq::empty() } else { seq![Dangling::Mesh { node: i as usize, mesh: n.mesh }] };
        let b: Seq<Dangling> = match n.material {
            Some(m) => if has_id(materials, m) { Seq::empty() } else { seq![Dangling::Material { node: i as usize, material: m }] },
            None => Seq::empty(),
        };
        assert(node_issues(n, i, meshes, materials) == a + b);
        lemma_concat_contains(a, b, x);
        if a.contains(x) {
            let q = choose|q: int| 0 <= q < a.len() && a[q] == x;
        }
        if b.contains(x) {
            let q = choose|q: int| 0 <= q < b.len() && b[q] == x;
        }
        if node_reports(n, i, meshes, materials, x) {
            if x == (Dangling::Mesh { node: i as usize, mesh: n.mesh }) && !has_id(meshes, n.mesh) {
                assert(a[0] == x);
            } else {
                assert(b[0] == x);
            }
        }
        if exists|j: int| 0 <= j < k && #[trigger] node_reports(nodes[j], j, meshes, materials, x) {
            let j = choose|j: int| 0 <= j < k && #[trigger] node_reports(nodes[j], j, meshes, materials, x);
            if j < k - 1 {
                assert(node_reports(nodes[j], j, meshes, materials, x));
            }
        }
    }
}

/// Node `n` at position `i` has the dangling reference `x`: its mesh, or its
/// material, is not stored.
pub open spec fn node_reports<M>(n: MeshNode, i: int, meshes: Seq<(u64, M)>, materials: Seq<(u64, MaterialTextures)>, x: Dangling) -> bool {
    ||| (x == Dangling::Mesh { node: i as usize, mesh: n.mesh } && !has_id(meshes, n.mesh))
    ||| (n.material matches Some(m) && !has_id(materials, m) && x == Dangling::Material { node: i as usize, material: m })
}

/// Validation reports every dangling reference and nothing else: a mesh
/// node's missing mesh, its missing material, and every texture that a
/// material names in any of its five slots but that is not stored.
pub proof fn lemma_validation_law<M, T>(
    nodes: Seq<MeshNode>,
    meshes: Seq<(u64, M)>,
    materials: Seq<(u64, MaterialTextures)>,
    textures: Seq<(u64, T)>,
)
    requires
        nodes.len() <= usize::MAX,
        materials.len() <= usize::MAX,
    ensures
        ({
            let r = nodes_issues(nodes, meshes, materials, nodes.len()) + materials_issues(materials, textures, materials.len());
            &&& forall|i: int| 0 <= i < nodes.len() && !has_id(meshes, (#[trigger] nodes[i]).mesh) ==> r.contains(
                Dangling::Mesh { node: i as usize, mesh: nodes[i].mesh },
            )
            &&& forall|i: int| 0 <= i < nodes.len() && (#[trigger] nodes[i]).material is Some && !has_id(
                materials,
                nodes[i].material.unwrap(),
            ) ==> r.contains(Dangling::Material { node: i as usize, material: nodes[i].material.unwrap() })
            &&& forall|j: int, t: u64| 0 <= j < materials.len() && #[trigger] names_texture(materials[j].1, t) && !has_id(textures, t)
                ==> r.contains(Dangling::Texture { material: j as usize, texture: t })
            &&& forall|x: Dangling| #[trigger] r.contains(x) ==> really_dangling(x, nodes, meshes, materials, textures)
        }),
{
    let a = nodes_issues(nodes, meshes, materials, nodes.len());
    let b = materials_issues(materials, textures, materials.len());
    assert forall|i: int| 0 <= i < nodes.len() && !has_id(meshes, (#[trigger] nodes[i]).mesh) implies (a + b).contains(
        Dangling::Mesh { node: i as usize, mesh: nodes[i].mesh },
    ) by {
        let x = Dangling::Mesh { node: i as usize, mesh: nodes[i].mesh };
        lemma_nodes_issues_law(nodes, meshes, materials, nodes.len(), x);
        assert(node_reports(nodes[i], i, meshes, materials, x));
        lemma_concat_contains(a, b, x);
    }
    assert forall|i: int| 0 <= i < nodes.len() && (#[trigger] nodes[i]).material is Some && !has_id(
        materials,
        nodes[i].material.unwrap(),
    ) implies (a + b).contains(Dangling::Material { node: i as usize, material: nodes[i].material.unwrap() }) by {
        let x = Dangling::Material { node: i as usize, material: nodes[i].material.unwrap() };
        lemma_nodes_issues_law(nodes, meshes, materials, nodes.len(), x);
        assert(node_reports(nodes[i], i, meshes, materials, x));
        lemma_concat_contains(a, b, x);
    }
    assert forall|j: int, t: u64| 0 <= j < materials.len() && #[trigger] names_texture(materials[j].1, t) && !has_id(textures, t)
        implies (a + b).contains(Dangling::Texture { material: j as usize, texture: t }) by {
        let x = Dangling::Texture { material: j as usize, texture: t };
        lemma_materials_issues_law(materials, textures, materials.len(), x);
        lemma_concat_contains(a, b, x);
    }
    assert forall|x: Dangling| #[trigger] (a + b).contains(x) implies really_dangling(x, nodes, meshes, materials, textures) by {
        lemma_concat_contains(a, b, x);
        lemma_nodes_issues_law(nodes, meshes, materials, nodes.len(), x);
        lemma_materials_issues_law(materials, textures, materials.len(), x);
        if a.contains(x) {
            let i = choose|i: int| 0 <= i < nodes.len() && #[trigger] node_reports(nodes[i], i, meshes, materials, x);
        } else {
            let (j, t) = choose|j: int, t: u64| 0 <= j < materials.len() && #[trigger] names_texture(materials[j].1, t)
                && !has_id(textures, t) && x == (Dangling::Texture { material: j as usize, texture: t });
        }
    }
}

} // verus!
