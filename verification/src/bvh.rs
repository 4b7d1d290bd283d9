//! The shape of a bounding-volume hierarchy and its flattening into a linear
//! array for GPU traversal. The bounds `B` are carried along untouched;
//! building the hierarchy (which compares floating-point costs) is left to
//! the caller.

use vstd::prelude::*;

verus! {

/// A node of the hierarchy: a leaf listing triangle ids, or an internal
/// node with two children. Every node carries its bounds.
#[derive(Debug)]
pub enum BvhNode<B> {
    Leaf { aabb: B, triangle_indices: Vec<u32> },
    Internal { aabb: B, left: Box<BvhNode<B>>, right: Box<BvhNode<B>> },
}

impl<B: Clone> Clone for BvhNode<B> {
    fn clone(&self) -> (r: Self)
        decreases self,
    {
        match self {
            BvhNode::Leaf { aabb, triangle_indices } => BvhNode::Leaf {
                aabb: aabb.clone(),
                triangle_indices: triangle_indices.clone(),
            },
            BvhNode::Internal { aabb, left, right } => BvhNode::Internal {
                aabb: aabb.clone(),
                left: Box::new((&**left).clone()),
                right: Box::new((&**right).clone()),
            },
        }
    }
}

impl<B> BvhNode<B> {
    /// The bounds of this node, whichever its kind.
    pub fn aabb(&self) -> (r: &B)
        ensures
            *r == match *self {
                BvhNode::Leaf { aabb, .. } => aabb,
                BvhNode::Internal { aabb, .. } => aabb,
            },
    {
        match self {
            BvhNode::Leaf { aabb, .. } => aabb,
            BvhNode::Internal { aabb, .. } => aabb,
        }
    }
}

/// A node of the flattened hierarchy.
#[derive(Clone, Copy, Debug)]
pub struct FlatNode<B> {
    pub aabb: B,
    /// For internal nodes: position of the left child. For leaves: the
    /// first triangle id of the leaf (0 for an empty leaf). Positions and
    /// counts are kept modulo 2^32.
    pub left_or_first: u32,
    /// For internal nodes: position of the right child. For leaves: the
    /// number of triangles.
    pub right_or_count: u32,
    /// 1 for a leaf, 0 for an internal node.
    pub is_leaf: u32,
}

/// The number of nodes of the tree under `node`.
pub open spec fn node_count<B>(node: BvhNode<B>) -> nat
    decreases node,
{
    match node {
        BvhNode::Leaf { .. } => 1,
        BvhNode::Internal { left, right, .. } => 1 + node_count(*left) + node_count(*right),
    }
}

/// The flattened nodes of the tree under `node` when its first node lands
/// at position `at`: pre-order, each internal node naming the positions of
/// its children.
pub open spec fn flat<B>(node: BvhNode<B>, at: int) -> Seq<FlatNode<B>>
    decreases node,
{
    match node {
        BvhNode::Leaf { aabb, triangle_indices } => seq![
            FlatNode {
                aabb,
                left_or_first: if triangle_indices@.len() > 0 { triangle_indices@[0] } else { 0 },
                right_or_count: triangle_indices@.len() as u32,
                is_leaf: 1,
            },
        ],
        BvhNode::Internal { aabb, left, right } => {
            let right_at = at + 1 + node_count(*left);
            seq![
                FlatNode {
                    aabb,
                    left_or_first: (at + 1) as u32,
                    right_or_count: right_at as u32,
                    is_leaf: 0,
                },
            ] + flat(*left, at + 1) + flat(*right, right_at)
        },
    }
}

/// The flattened tree has one entry per node.
pub proof fn lemma_flat_len<B>(node: BvhNode<B>, at: int)
    ensures
        flat(node, at).len() == node_count(node),
    decreases node,
{
    match node {
        BvhNode::Leaf { .. } => {},
        BvhNode::Internal { left, right, .. } => {
            lemma_flat_len(*left, at + 1);
            lemma_flat_len(*right, at + 1 + node_count(*left));
        },
    }
}

fn flatten_into<B: Copy>(node: &BvhNode<B>, out: &mut Vec<FlatNode<B>>)
    ensures
        final(out)@ == old(out)@ + flat(*node, old(out)@.len() as int),
    decreases node,
{
    proof {
        lemma_flat_len(*node, out@.len() as int);
    }
    match node {
        BvhNode::Leaf { aabb, triangle_indices } => {
            let first: u32 = if triangle_indices.len() > 0 {
                triangle_indices[0]
            } else {
                0
            };
            out.push(FlatNode {
                aabb: *aabb,
                left_or_first: first,
                right_or_count: triangle_indices.len() as u32,
                is_leaf: 1,
            });
            assert(out@ =~= old(out)@ + flat(*node, old(out)@.len() as int));
        },
        BvhNode::Internal { aabb, left, right } => {
            let self_idx = out.len();
            out.push(FlatNode { aabb: *aabb, left_or_first: 0, right_or_count: 0, is_leaf: 0 });
            let left_idx = out.len() as u32;
            let ghost before_left = out@;
            flatten_into(&**left, out);
            proof {
                lemma_flat_len(**left, before_left.len() as int);
            }
            let right_idx = out.len() as u32;
            let ghost before_right = out@;
            flatten_into(&**right, out);
            proof {
                lemma_flat_len(**right, before_right.len() as int);
            }
            out.set(
                self_idx,
                FlatNode { aabb: *aabb, left_or_first: left_idx, right_or_count: right_idx, is_leaf: 0 },
            );
            assert(out@ =~= old(out)@ + flat(*node, old(out)@.len() as int));
        },
    }
}

/// Flatten the tree into a linear array in pre-order, each internal node
/// naming the positions of its two children.
pub fn flatten_tree<B: Copy>(root: &BvhNode<B>) -> (r: Vec<FlatNode<B>>)
    ensures
        r@ == flat(*root, 0),
        r@.len() == node_count(*root),
{
    let mut out: Vec<FlatNode<B>> = Vec::new();
    flatten_into(root, &mut out);
    proof {
        lemma_flat_len(*root, 0);
        assert(out@ =~= flat(*root, 0));
    }
    out
}

} // verus!
