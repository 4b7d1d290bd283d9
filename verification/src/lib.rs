//! A toolkit of verified building blocks for procedural content tools: a
//! node-graph DAG with cycle-free connections, dirty propagation and a fixed
//! topological order; an RGBA8 image buffer with PNG coding; seeded
//! permutation tables for noise; polygon-mesh face editing and edge-loop
//! cuts; an input ring buffer; L-system rewriting; vertex welding; asset
//! tables; and a few small descriptor types.

pub mod node;
pub mod paths;
pub mod topology;
pub mod kahn;
pub mod order;
pub mod dag;
pub mod evaluation;
pub mod image;
pub mod codec;
pub mod vertex;
pub mod noise;
pub mod meshedit;
pub mod loopcut;
pub mod telemetry;
pub mod project;
pub mod lsystem;
pub mod weld;
pub mod easing;
pub mod gizmo;
pub mod field;
pub mod procedural;
pub mod meshops;
pub mod primitives;
pub mod turtle;
pub mod bvh;
pub mod text;
