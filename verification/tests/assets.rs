use toolkit::evaluation::{choose_input, InputSource};
use toolkit::project::{lookup, replace_or_push, validate_references, Dangling, MaterialTextures, MeshNode};

#[test]
fn replace_or_push_appends_new_id() {
    let mut list: Vec<(u64, &str)> = vec![(1, "a"), (2, "b")];
    replace_or_push(&mut list, 3, "c");
    assert_eq!(list, vec![(1, "a"), (2, "b"), (3, "c")]);
}

#[test]
fn replace_or_push_replaces_existing_id() {
    let mut list: Vec<(u64, &str)> = vec![(1, "a"), (2, "b"), (2, "x")];
    replace_or_push(&mut list, 2, "c");
    assert_eq!(list, vec![(1, "a"), (2, "c"), (2, "x")]);
}

#[test]
fn replace_or_push_on_empty() {
    let mut list: Vec<(u64, String)> = Vec::new();
    replace_or_push(&mut list, 7, "mesh".to_string());
    replace_or_push(&mut list, 7, "mesh2".to_string());
    assert_eq!(list, vec![(7, "mesh2".to_string())]);
}

#[test]
fn input_from_first_available_connection() {
    let incoming = vec![(1, 0, 9, 1), (2, 0, 9, 0), (3, 1, 9, 0)];
    let available = vec![true, false, true];
    assert_eq!(choose_input(&incoming, &available, 0, 0, true), InputSource::Connection(2));
    assert_eq!(choose_input(&incoming, &available, 1, 0, true), InputSource::Connection(0));
}

#[test]
fn input_falls_back_to_own_then_default() {
    let incoming = vec![(1, 0, 9, 1)];
    let available = vec![false];
    assert_eq!(choose_input(&incoming, &available, 1, 2, true), InputSource::Own);
    assert_eq!(choose_input(&incoming, &available, 2, 2, true), InputSource::Default);
    assert_eq!(choose_input(&incoming, &available, 2, 2, false), InputSource::Empty);
}

fn no_textures() -> MaterialTextures {
    MaterialTextures {
        base_color: None,
        metallic_roughness: None,
        normal: None,
        emissive: None,
        occlusion: None,
    }
}

#[test]
fn validate_passes_for_consistent_bundle() {
    let meshes: Vec<(u64, &str)> = vec![(1, "cube")];
    let materials = vec![(2, no_textures())];
    let textures: Vec<(u64, ())> = Vec::new();
    let nodes = vec![MeshNode { key: 0, mesh: 1, material: Some(2) }];
    assert!(validate_references(&nodes, &meshes, &materials, &textures).is_empty());
}

#[test]
fn validate_flags_dangling_mesh() {
    let meshes: Vec<(u64, &str)> = Vec::new();
    let materials: Vec<(u64, MaterialTextures)> = Vec::new();
    let textures: Vec<(u64, ())> = Vec::new();
    let nodes = vec![MeshNode { key: 0, mesh: 999, material: None }];
    let issues = validate_references(&nodes, &meshes, &materials, &textures);
    assert_eq!(issues.len(), 1);
    assert!(matches!(issues[0], Dangling::Mesh { .. }));
}

#[test]
fn validate_lists_nodes_then_materials_in_slot_order() {
    let meshes: Vec<(u64, &str)> = vec![(1, "cube")];
    let mut mat = no_textures();
    mat.normal = Some(40);
    mat.base_color = Some(30);
    mat.emissive = Some(5);
    let materials = vec![(2, no_textures()), (3, mat)];
    let textures: Vec<(u64, ())> = vec![(5, ())];
    let nodes = vec![
        MeshNode { key: 10, mesh: 1, material: Some(9) },
        MeshNode { key: 11, mesh: 8, material: Some(2) },
    ];
    let issues = validate_references(&nodes, &meshes, &materials, &textures);
    assert_eq!(
        issues,
        vec![
            Dangling::Material { node: 0, material: 9 },
            Dangling::Mesh { node: 1, mesh: 8 },
            Dangling::Texture { material: 1, texture: 30 },
            Dangling::Texture { material: 1, texture: 40 },
        ]
    );
}

#[test]
fn lookup_finds_what_was_stored() {
    let mut list: Vec<(u64, &str)> = Vec::new();
    replace_or_push(&mut list, 7, "cube");
    replace_or_push(&mut list, 8, "steel");
    replace_or_push(&mut list, 7, "sphere");
    assert_eq!(list.len(), 2);
    assert_eq!(lookup(&list, 7), Some(&"sphere"));
    assert_eq!(lookup(&list, 8), Some(&"steel"));
    assert_eq!(lookup(&list, 9), None);
}

#[test]
fn add_and_look_up_assets() {
    let mut meshes: Vec<(u64, &str)> = Vec::new();
    let mut materials: Vec<(u64, &str)> = Vec::new();
    let mesh_id = 1;
    let mat_id = 2;
    meshes.push((mesh_id, "cube"));
    materials.push((mat_id, "steel"));
    assert!(lookup(&meshes, mesh_id).is_some());
    assert_eq!(*lookup(&materials, mat_id).unwrap(), "steel");
    assert_eq!(meshes.len(), 1);
    assert_eq!(materials.len(), 1);
}

#[test]
fn insert_with_id_replaces() {
    let mut meshes: Vec<(u64, f32)> = Vec::new();
    let id = 7;
    replace_or_push(&mut meshes, id, 1.0);
    replace_or_push(&mut meshes, id, 2.0);
    assert_eq!(meshes.len(), 1); // replaced, not duplicated
}
