use toolkit::meshops::{append_offset_indices, flip_triangle_winding, vertex_neighbours};
use toolkit::primitives::quad_indices;

#[test]
fn flip_reverses_winding() {
    // The cube's triangle list: six quads of four corners each.
    let mut cube = quad_indices(6);
    let before = cube.clone();
    flip_triangle_winding(&mut cube);
    // First triangle's second/third indices are swapped.
    assert_eq!(cube[0], before[0]);
    assert_eq!(cube[1], before[2]);
    assert_eq!(cube[2], before[1]);
}

#[test]
fn merging_two_cubes_doubles_the_triangles() {
    let cube = quad_indices(6);
    let mut merged: Vec<u32> = Vec::new();
    append_offset_indices(&mut merged, &cube, 0);
    append_offset_indices(&mut merged, &cube, 24);
    assert_eq!(merged.len() / 3, 2 * (cube.len() / 3));
    assert_eq!(merged[36], 24);
    assert!(merged.iter().all(|&i| i < 48));
}

#[test]
fn flip_swaps_last_two_corners_of_each_triangle() {
    let mut indices: Vec<u32> = vec![0, 1, 2, 2, 3, 0];
    flip_triangle_winding(&mut indices);
    assert_eq!(indices, vec![0, 2, 1, 2, 0, 3]);
}

#[test]
fn flip_leaves_partial_triangle_alone() {
    let mut indices: Vec<u32> = vec![4, 5, 6, 7, 8];
    flip_triangle_winding(&mut indices);
    assert_eq!(indices, vec![4, 6, 5, 7, 8]);
}

#[test]
fn flip_twice_restores_indices() {
    let start: Vec<u32> = vec![0, 1, 2, 3, 4, 5, 9];
    let mut indices = start.clone();
    flip_triangle_winding(&mut indices);
    flip_triangle_winding(&mut indices);
    assert_eq!(indices, start);
}

#[test]
fn append_shifts_by_offset() {
    let mut indices: Vec<u32> = vec![0, 1, 2];
    append_offset_indices(&mut indices, &vec![0, 2, 1], 3);
    assert_eq!(indices, vec![0, 1, 2, 3, 5, 4]);
}

#[test]
fn append_empty_is_identity() {
    let mut indices: Vec<u32> = vec![7, 8, 9];
    append_offset_indices(&mut indices, &Vec::new(), 100);
    assert_eq!(indices, vec![7, 8, 9]);
}

#[test]
fn neighbours_of_a_quad() {
    // Two triangles sharing the diagonal 0-2.
    let indices: Vec<u32> = vec![0, 1, 2, 0, 2, 3];
    let n = vertex_neighbours(&indices, 5);
    assert_eq!(n.len(), 5);
    let mut n0 = n[0].clone();
    n0.sort();
    assert_eq!(n0, vec![1, 2, 3]);
    let mut n1 = n[1].clone();
    n1.sort();
    assert_eq!(n1, vec![0, 2]);
    let mut n2 = n[2].clone();
    n2.sort();
    assert_eq!(n2, vec![0, 1, 3]);
    assert!(n[4].is_empty());
}
