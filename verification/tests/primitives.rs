use toolkit::primitives::{plane_indices, quad_indices, uv_sphere_indices};

#[test]
fn cube_quads_give_twelve_triangles() {
    let idx = quad_indices(6);
    assert_eq!(idx.len(), 36);
    assert!(idx.iter().all(|&i| i < 24));
}

#[test]
fn quads_split_along_first_diagonal() {
    assert_eq!(quad_indices(2), vec![0, 1, 2, 0, 2, 3, 4, 5, 6, 4, 6, 7]);
    assert!(quad_indices(0).is_empty());
}

#[test]
fn plane_index_counts() {
    let idx = plane_indices(3);
    // 3 * 3 cells, two triangles each, on a 4 x 4 vertex grid.
    assert_eq!(idx.len() / 3, 18);
    assert!(idx.iter().all(|&i| i < 16));
}

#[test]
fn plane_single_cell() {
    assert_eq!(plane_indices(1), vec![0, 2, 1, 1, 2, 3]);
    // Zero subdivisions is raised to one.
    assert_eq!(plane_indices(0), vec![0, 2, 1, 1, 2, 3]);
}

#[test]
fn plane_second_row_starts_one_row_down() {
    let idx = plane_indices(2);
    assert_eq!(idx.len(), 24);
    // Cell (1, 0): top-left is vertex 3 on a grid with 3 vertices per row.
    assert_eq!(&idx[12..18], &[3, 6, 4, 4, 6, 7]);
}

#[test]
fn sphere_index_counts() {
    let idx = uv_sphere_indices(16, 8);
    // One triangle per sector in each polar band, two in the six others.
    assert_eq!(idx.len() / 3, 2 * 16 + 2 * 16 * 6);
    assert!(idx.iter().all(|&i| i < (8 + 1) * (16 + 1)));
}

#[test]
fn smallest_sphere() {
    let expected: Vec<u32> = vec![1, 4, 5, 2, 5, 6, 3, 6, 7, 4, 8, 5, 5, 9, 6, 6, 10, 7];
    assert_eq!(uv_sphere_indices(3, 2), expected);
    // Fewer sectors or stacks are raised to the minimum.
    assert_eq!(uv_sphere_indices(1, 0), expected);
}
