//! Identifiers of transform-gizmo handles. Picking and dragging are
//! floating-point work done by the caller.

use vstd::prelude::*;

verus! {

/// The transform operation the gizmo performs.
#[derive(Clone, Copy, Debug, PartialEq, Eq, Structural)]
pub enum GizmoMode {
    Translate,
    Rotate,
    Scale,
}

/// Which handle of the gizmo is being addressed.
#[derive(Clone, Copy, Debug, PartialEq, Eq, Structural)]
pub enum GizmoAxis {
    X,
    Y,
    Z,
    /// Planar handles (translate only): drag within a coordinate plane.
    XY,
    YZ,
    XZ,
    /// View-aligned handle: uniform scale or screen-space translate/rotate.
    Screen,
}

/// A pickable handle: a (mode, axis) pair.
#[derive(Clone, Copy, Debug, PartialEq, Eq, Structural)]
pub struct GizmoHandle {
    pub mode: GizmoMode,
    pub axis: GizmoAxis,
}

} // verus!
