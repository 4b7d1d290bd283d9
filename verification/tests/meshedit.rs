use glam::Vec3;
use toolkit::meshedit::{key, opposite_edge, rotate_to_start, EditMesh};

fn quad_cube() -> EditMesh {
    let p = vec![
        Vec3::new(-1.0, -1.0, -1.0),
        Vec3::new(1.0, -1.0, -1.0),
        Vec3::new(1.0, 1.0, -1.0),
        Vec3::new(-1.0, 1.0, -1.0),
        Vec3::new(-1.0, -1.0, 1.0),
        Vec3::new(1.0, -1.0, 1.0),
        Vec3::new(1.0, 1.0, 1.0),
        Vec3::new(-1.0, 1.0, 1.0),
    ];
    let faces = vec![
        vec![0, 3, 2, 1],
        vec![4, 5, 6, 7],
        vec![0, 1, 5, 4],
        vec![2, 3, 7, 6],
        vec![1, 2, 6, 5],
        vec![0, 4, 7, 3],
    ];
    EditMesh::from_polygons(p, faces)
}

/// V - E + F over the referenced vertices and undirected edges of the faces.
fn euler_characteristic(m: &EditMesh) -> i64 {
    let mut verts: Vec<usize> = Vec::new();
    let mut edges: Vec<(usize, usize)> = Vec::new();
    for f in &m.faces {
        let k = f.len();
        for i in 0..k {
            if !verts.contains(&f[i]) {
                verts.push(f[i]);
            }
            let e = key(f[i], f[(i + 1) % k]);
            if !edges.contains(&e) {
                edges.push(e);
            }
        }
    }
    verts.len() as i64 - edges.len() as i64 + m.faces.len() as i64
}

fn two_quads() -> EditMesh {
    let positions = vec![
        Vec3::new(0.0, 0.0, 0.0),
        Vec3::new(1.0, 0.0, 0.0),
        Vec3::new(1.0, 1.0, 0.0),
        Vec3::new(0.0, 1.0, 0.0),
        Vec3::new(2.0, 0.0, 0.0),
        Vec3::new(2.0, 1.0, 0.0),
    ];
    let faces = vec![vec![0, 1, 2, 3], vec![1, 4, 5, 2]];
    EditMesh::from_polygons(positions, faces)
}

#[test]
fn remove_faces_drops_correct_ones() {
    let mut cube = quad_cube();
    cube.remove_faces(vec![0, 1]);
    assert_eq!(cube.face_count(), 4);
}

#[test]
fn remove_faces_keeps_order_and_ignores_repeats_and_unknowns() {
    let mut cube = quad_cube();
    cube.remove_faces(vec![4, 1, 4, 99]);
    assert_eq!(cube.faces, vec![vec![0, 3, 2, 1], vec![0, 1, 5, 4], vec![2, 3, 7, 6], vec![0, 4, 7, 3]]);
    assert_eq!(cube.vertex_count(), 8);
}

#[test]
fn open_box_has_one_boundary_loop() {
    let mut cube = quad_cube();
    cube.remove_faces(vec![1]);
    let loops = cube.boundary_loops();
    assert_eq!(loops.len(), 1);
    assert_eq!(loops[0].len(), 4);
}

#[test]
fn closed_cube_has_no_boundary_loops() {
    let cube = quad_cube();
    assert!(cube.boundary_loops().is_empty());
}

#[test]
fn boundary_loop_follows_open_edges() {
    let mut cube = quad_cube();
    cube.remove_faces(vec![1]);
    let l = &cube.boundary_loops()[0];
    // The removed +Z face was 4 -> 5 -> 6 -> 7; the hole is walked the other way.
    let k = l.len();
    for i in 0..k {
        let a = l[i];
        let b = l[(i + 1) % k];
        let forward = [(5, 4), (6, 5), (7, 6), (4, 7)];
        assert!(forward.contains(&(a, b)), "unexpected step {a}->{b}");
    }
}

#[test]
fn loop_cut_around_cube_splits_four_faces() {
    let mut cube = quad_cube();
    let n = cube.loop_cut(1, 5);
    assert_eq!(n, 4, "should cross the four side faces");
    assert_eq!(cube.vertex_count(), 12);
    assert_eq!(euler_characteristic(&cube), 2);
}

#[test]
fn loop_cut_on_open_quad_strip() {
    let mut m = two_quads();
    let n = m.loop_cut(0, 3);
    assert_eq!(n, 2);
    assert_eq!(m.face_count(), 4);
}

#[test]
fn unknown_edge_is_noop() {
    let mut cube = quad_cube();
    assert_eq!(cube.loop_cut(100, 200), 0);
    assert_eq!(cube.face_count(), 6);
    assert_eq!(cube.vertex_count(), 8);
}

#[test]
fn loop_cut_splits_with_shared_midpoints() {
    let mut m = two_quads();
    m.loop_cut(0, 3);
    // The cut runs across both quads through the vertical edges 0-3, 1-2
    // and 4-5; the shared edge 1-2 gets one midpoint used by both quads.
    assert_eq!(m.vertex_count(), 9);
    assert_eq!(m.faces[0], vec![1, 6, 7, 0]);
    assert_eq!(m.faces[1], vec![4, 8, 6, 1]);
    assert_eq!(m.faces[2], vec![6, 2, 3, 7]);
    assert_eq!(m.faces[3], vec![8, 5, 2, 6]);
    assert_eq!(m.positions[6], Vec3::new(1.0, 0.5, 0.0));
    assert_eq!(m.positions[7], Vec3::new(0.0, 0.5, 0.0));
    assert_eq!(m.positions[8], Vec3::new(2.0, 0.5, 0.0));
}

#[test]
fn loop_cut_on_triangle_is_noop() {
    let positions = vec![Vec3::ZERO, Vec3::X, Vec3::Y];
    let mut m = EditMesh::from_polygons(positions, vec![vec![0, 1, 2]]);
    assert_eq!(m.loop_cut(0, 1), 0);
    assert_eq!(m.faces, vec![vec![0, 1, 2]]);
}

#[test]
fn dissolve_merges_two_quads_into_hexagon() {
    let mut m = two_quads();
    assert!(m.dissolve_edge(0, 1));
    assert_eq!(m.face_count(), 1);
    assert_eq!(m.faces[0].len(), 6);
    assert_eq!(m.faces[0], vec![2, 3, 0, 1, 4, 5]);
}

#[test]
fn dissolve_without_shared_edge_is_refused() {
    let mut cube = quad_cube();
    // -Z and +Z faces share no edge.
    assert!(!cube.dissolve_edge(0, 1));
    assert_eq!(cube.face_count(), 6);
}

#[test]
fn fill_hole_closes_open_box() {
    let mut cube = quad_cube();
    cube.remove_faces(vec![1]);
    let loops = cube.boundary_loops();
    cube.fill_hole(&loops[0]);
    assert_eq!(euler_characteristic(&cube), 2);
    assert!(cube.boundary_loops().is_empty());
}

#[test]
fn fill_hole_reverses_loop() {
    let mut cube = quad_cube();
    let idx = cube.fill_hole(&[1, 2, 3]);
    assert_eq!(idx, 6);
    assert_eq!(cube.faces[6], vec![3, 2, 1]);
}

#[test]
fn fill_all_holes_closes_box() {
    let mut cube = quad_cube();
    cube.remove_faces(vec![1, 0]);
    cube.fill_all_holes();
    assert_eq!(cube.face_count(), 6);
    assert!(cube.boundary_loops().is_empty());
    assert_eq!(euler_characteristic(&cube), 2);
}

#[test]
fn bridge_two_quads_makes_tube() {
    let positions = vec![
        Vec3::new(0.0, 0.0, 0.0),
        Vec3::new(1.0, 0.0, 0.0),
        Vec3::new(1.0, 1.0, 0.0),
        Vec3::new(0.0, 1.0, 0.0),
        Vec3::new(0.0, 0.0, 1.0),
        Vec3::new(1.0, 0.0, 1.0),
        Vec3::new(1.0, 1.0, 1.0),
        Vec3::new(0.0, 1.0, 1.0),
    ];
    let faces = vec![vec![0, 1, 2, 3], vec![4, 5, 6, 7]];
    let mut m = EditMesh::from_polygons(positions, faces);
    assert!(m.bridge_faces(0, 1));
    assert_eq!(m.face_count(), 4);
    assert_eq!(m.faces[0], vec![0, 1, 6, 7]);
}

#[test]
fn bridge_refuses_mismatched_faces() {
    let positions = vec![Vec3::ZERO, Vec3::X, Vec3::Y, Vec3::Z, Vec3::ONE, Vec3::NEG_X, Vec3::NEG_Y];
    let faces = vec![vec![0, 1, 2, 3], vec![4, 5, 6]];
    let mut m = EditMesh::from_polygons(positions, faces.clone());
    assert!(!m.bridge_faces(0, 1));
    assert_eq!(m.faces, faces);
}

#[test]
fn replace_with_ring_adds_cap_and_walls() {
    let mut cube = quad_cube();
    let before = cube.face_count();
    let ring = vec![Vec3::new(-1.0, -1.0, 2.0), Vec3::new(1.0, -1.0, 2.0), Vec3::new(1.0, 1.0, 2.0), Vec3::new(-1.0, 1.0, 2.0)];
    let f = cube.replace_with_ring(1, ring);
    assert_eq!(f, 1);
    assert_eq!(cube.face_count(), before + 4);
    assert_eq!(cube.vertex_count(), 12);
    assert_eq!(cube.faces[1], vec![8, 9, 10, 11]);
    assert_eq!(cube.faces[6], vec![4, 5, 9, 8]);
    assert_eq!(cube.faces[9], vec![7, 4, 8, 11]);
    assert_eq!(euler_characteristic(&cube), 2);
}

#[test]
fn add_vertex_returns_new_index() {
    let mut m = EditMesh::new();
    assert_eq!(m.add_vertex(Vec3::X), 0);
    assert_eq!(m.add_vertex(Vec3::Y), 1);
    assert_eq!(m.vertex_count(), 2);
    assert_eq!(m.face_count(), 0);
}

#[test]
fn key_orders_endpoints() {
    assert_eq!(key(5, 2), (2, 5));
    assert_eq!(key(2, 5), (2, 5));
}

#[test]
fn opposite_edge_of_quad() {
    assert_eq!(opposite_edge(&[0, 1, 2, 3], (1, 0)), Some((2, 3)));
    assert_eq!(opposite_edge(&[0, 1, 2, 3], (2, 1)), Some((3, 0)));
    assert_eq!(opposite_edge(&[0, 1, 2], (0, 1)), None);
    assert_eq!(opposite_edge(&[0, 1, 2, 3], (0, 2)), None);
}

#[test]
fn rotate_to_start_rotates() {
    assert_eq!(rotate_to_start(&[4, 5, 6, 7], 6), vec![6, 7, 4, 5]);
    assert_eq!(rotate_to_start(&[4, 5, 6, 7], 9), vec![4, 5, 6, 7]);
}

/// The ring of an extrusion of `face` by `offset`: each corner moved by it.
fn extruded_ring(m: &EditMesh, face: usize, offset: Vec3) -> Vec<Vec3> {
    m.faces[face].iter().map(|&v| m.positions[v] + offset).collect()
}

#[test]
fn extrude_keeps_mesh_closed() {
    let mut cube = quad_cube();
    // Extrude the +Z face outward by 1 along its normal.
    let ring = extruded_ring(&cube, 1, Vec3::new(0.0, 0.0, 1.0));
    cube.replace_with_ring(1, ring);
    // Still closed genus-0: V - E + F = 2.
    assert_eq!(euler_characteristic(&cube), 2);
    // Added 4 cap verts and 4 walls; the cap moved out to z=2.
    assert_eq!(cube.vertex_count(), 12);
    let cap = &cube.faces[1];
    for &v in cap {
        assert!((cube.positions[v].z - 2.0).abs() < 1e-5);
    }
}

#[test]
fn extrude_wall_count() {
    let mut cube = quad_cube();
    let before = cube.face_count();
    // The -Z face, extruded by 0.5 along its normal.
    let ring = extruded_ring(&cube, 0, Vec3::new(0.0, 0.0, -0.5));
    cube.replace_with_ring(0, ring);
    assert_eq!(cube.face_count(), before + 4); // 4 new walls
}

#[test]
fn tube_has_two_boundary_loops_and_both_fill() {
    let mut cube = quad_cube();
    cube.remove_faces(vec![0, 1]);
    let loops = cube.boundary_loops();
    assert_eq!(loops.len(), 2);
    let mut all: Vec<usize> = loops.iter().flatten().copied().collect();
    all.sort();
    assert_eq!(all, vec![0, 1, 2, 3, 4, 5, 6, 7]);
    cube.fill_all_holes();
    assert_eq!(cube.face_count(), 6);
    assert!(cube.boundary_loops().is_empty());
    assert_eq!(euler_characteristic(&cube), 2);
}
