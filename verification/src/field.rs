//! Combinators on scalar fields: each holds the fields (or the function) it
//! combines. Sampling a field is floating-point work done by the caller.

use vstd::prelude::*;

verus! {

/// Sum of two fields.
pub struct AddF<A, B>(pub A, pub B);

/// Difference of two fields.
pub struct SubF<A, B>(pub A, pub B);

/// Product of two fields.
pub struct MulF<A, B>(pub A, pub B);

/// Pointwise minimum (SDF union).
pub struct MinF<A, B>(pub A, pub B);

/// Pointwise maximum (SDF intersection).
pub struct MaxF<A, B>(pub A, pub B);

/// Negated field.
pub struct NegF<A>(pub A);

/// Absolute value of a field.
pub struct AbsF<A>(pub A);

/// A field's value passed through a function.
pub struct MapF<A, G>(pub A, pub G);

/// A field sampled at points displaced by a vector field (domain warp).
pub struct WarpF<A, W>(pub A, pub W);

} // verus!
