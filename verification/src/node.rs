//! Node-graph value types: data types flowing through ports, and the graph's
//! per-node record.

use vstd::prelude::*;

verus! {

/// Types that can flow through node connections.
#[derive(Clone, Copy, Debug, PartialEq, Eq, Structural, Hash)]
pub enum DataType {
    Float,
    Vec2,
    Vec3,
    Vec4,
    Color,
    Image,
    Mesh,
    Any,
}

impl DataType {
    /// `true` when a connection from `output_type` to `input_type` is
    /// type-compatible: identical types, or `Any` on either side.
    pub fn compatible(output_type: DataType, input_type: DataType) -> (r: bool)
        ensures
            r == (output_type == input_type || output_type == DataType::Any
                || input_type == DataType::Any),
    {
        output_type == input_type || output_type == DataType::Any || input_type == DataType::Any
    }
}

/// A node placed in a [`crate::dag::NodeGraph`]: its id, the name of the
/// template it instantiates, and whether its cached outputs are stale.
#[derive(Debug)]
pub struct NodeInstance {
    pub id: u64,
    pub template_name: String,
    pub dirty: bool,
}

impl NodeInstance {
    /// A fresh instance; new nodes start dirty (nothing has been evaluated).
    pub fn new(id: u64, template_name: String) -> (r: NodeInstance)
        ensures
            r.id == id,
            r.template_name@ == template_name@,
            r.dirty,
    {
        NodeInstance { id, template_name, dirty: true }
    }

    /// A copy of this instance with the dirty flag set to `dirty`.
    pub fn with_dirty(&self, dirty: bool) -> (r: NodeInstance)
        ensures
            r.id == self.id,
            r.template_name@ == self.template_name@,
            r.dirty == dirty,
    {
        NodeInstance { id: self.id, template_name: self.template_name.clone(), dirty }
    }
}

} // verus!
