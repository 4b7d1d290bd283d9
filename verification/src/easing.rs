//! Names of easing curves and of tween repeat behaviours. Evaluating a curve
//! is floating-point work done by the caller.

use vstd::prelude::*;

verus! {

/// A named easing function. The input `t` is clamped to `[0, 1]` and the
/// output is generally in `[0, 1]` (overshooting variants like `Back` and
/// `Elastic` may exceed it briefly).
#[derive(Clone, Copy, Debug, PartialEq, Eq, Structural)]
pub enum Easing {
    Linear,
    QuadIn,
    QuadOut,
    QuadInOut,
    CubicIn,
    CubicOut,
    CubicInOut,
    SineIn,
    SineOut,
    SineInOut,
    ExpoIn,
    ExpoOut,
    ExpoInOut,
    BackIn,
    BackOut,
    BackInOut,
    ElasticOut,
    BounceOut,
    /// Hermite smoothstep: `t²(3 - 2t)`.
    SmoothStep,
    /// Perlin smootherstep: `t³(6t² - 15t + 10)`.
    SmootherStep,
}

/// How a tween behaves when it reaches the end of its duration.
#[derive(Clone, Copy, Debug, PartialEq, Eq, Structural)]
pub enum Repeat {
    /// Stop at the end.
    Once,
    /// Jump back to the start and play again.
    Loop,
    /// Reverse direction at each end (ping-pong).
    PingPong,
}

} // verus!
