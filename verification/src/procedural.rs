//! Procedural layout helpers. Grid packing subdivides a rectangle into equal
//! cells; the cell coordinates are floating point and computed by the caller.

use vstd::prelude::*;

verus! {

/// Grid packing: subdivides an outer rectangle into a regular grid of
/// equally sized cells.
pub struct GridPacker;

} // verus!
