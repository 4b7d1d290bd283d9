use toolkit::bvh::{flatten_tree, BvhNode};

fn leaf(tag: u8, tris: Vec<u32>) -> BvhNode<u8> {
    BvhNode::Leaf { aabb: tag, triangle_indices: tris }
}

fn internal(tag: u8, left: BvhNode<u8>, right: BvhNode<u8>) -> BvhNode<u8> {
    BvhNode::Internal { aabb: tag, left: Box::new(left), right: Box::new(right) }
}

#[test]
fn single_leaf_flattens_to_one_node() {
    let flat = flatten_tree(&leaf(7, vec![3, 4, 5]));
    assert_eq!(flat.len(), 1);
    assert_eq!(flat[0].aabb, 7);
    assert_eq!(flat[0].left_or_first, 3);
    assert_eq!(flat[0].right_or_count, 3);
    assert_eq!(flat[0].is_leaf, 1);
}

#[test]
fn empty_leaf_has_zero_first() {
    let flat = flatten_tree(&leaf(0, Vec::new()));
    assert_eq!(flat[0].left_or_first, 0);
    assert_eq!(flat[0].right_or_count, 0);
}

#[test]
fn internal_nodes_point_at_children_in_preorder() {
    // root(0) -> [inner(1) -> [a(2), b(3)], c(4)]
    let tree = internal(0, internal(1, leaf(2, vec![0]), leaf(3, vec![1, 2])), leaf(4, vec![3]));
    let flat = flatten_tree(&tree);
    let tags: Vec<u8> = flat.iter().map(|n| n.aabb).collect();
    assert_eq!(tags, vec![0, 1, 2, 3, 4]);
    assert_eq!((flat[0].left_or_first, flat[0].right_or_count, flat[0].is_leaf), (1, 4, 0));
    assert_eq!((flat[1].left_or_first, flat[1].right_or_count, flat[1].is_leaf), (2, 3, 0));
    let leaf_triangles: u32 = flat.iter().filter(|n| n.is_leaf == 1).map(|n| n.right_or_count).sum();
    assert_eq!(leaf_triangles, 4);
}

#[test]
fn aabb_reads_either_kind() {
    let tree = internal(9, leaf(1, vec![]), leaf(2, vec![]));
    assert_eq!(*tree.aabb(), 9);
    let copy = tree.clone();
    assert_eq!(flatten_tree(&copy).len(), 3);
}
