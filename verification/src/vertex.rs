//! GPU vertex layout descriptors.
//!
//! A vertex is twelve 32-bit floats laid out in order: position (3), normal
//! (3), uv (2) and tangent (4). The vertex type itself, being made of floats,
//! lives outside the verified library; its layout is described here.

use vstd::prelude::*;

verus! {

/// Describes the format of a single vertex attribute for GPU binding.
#[derive(Clone, Debug, PartialEq, Eq)]
pub struct VertexAttribute {
    /// Byte offset of this attribute within the vertex.
    pub offset: u32,
    /// Format name (e.g. `"float32x3"`, `"float32x2"`, `"float32x4"`).
    pub format: &'static str,
    /// Shader location index.
    pub shader_location: u32,
}

/// Describes the memory layout of a vertex for GPU pipeline configuration.
pub struct VertexLayout;

impl VertexLayout {
    /// Size in bytes of one vertex: 12 floats of 4 bytes.
    pub fn stride() -> (r: u32)
        ensures
            r == (3 + 3 + 2 + 4) * 4,
    {
        (3 + 3 + 2 + 4) * 4
    }

    /// The attribute descriptors in shader-location order:
    /// 0 = position (float32x3), 1 = normal (float32x3), 2 = uv (float32x2),
    /// 3 = tangent (float32x4), each at the byte offset where it starts.
    pub fn attributes() -> (r: Vec<VertexAttribute>)
        ensures
            r.len() == 4,
            r[0].offset == 0 && r[0].shader_location == 0 && r[0].format@ == "float32x3"@,
            r[1].offset == 12 && r[1].shader_location == 1 && r[1].format@ == "float32x3"@,
            r[2].offset == 24 && r[2].shader_location == 2 && r[2].format@ == "float32x2"@,
            r[3].offset == 32 && r[3].shader_location == 3 && r[3].format@ == "float32x4"@,
    {
        let mut r: Vec<VertexAttribute> = Vec::new();
        r.push(VertexAttribute { offset: 0, format: "float32x3", shader_location: 0 });
        r.push(VertexAttribute { offset: 12, format: "float32x3", shader_location: 1 });
        r.push(VertexAttribute { offset: 24, format: "float32x2", shader_location: 2 });
        r.push(VertexAttribute { offset: 32, format: "float32x4", shader_location: 3 });
        r
    }
}

} // verus!
