//! A verified metaball isosurface engine over fixed-point coordinates.
//!
//! A scene is a set of radial sources, each with unit support radius; the
//! scalar field at a point is the sum of per-source influences.  The crate
//! extracts a polygonal approximation of the 0.5-influence isosurface by
//! octree subdivision, refines vertices by gradient descent onto the true
//! surface, and answers ray/isosurface intersection queries by windowed
//! ray marching.
//!
//! All geometry is carried in fixed-point: a coordinate of `SCALE` units
//! stands for 1.0, so every quantity is an exact integer and every function
//! here is verified against an exact mathematical model of itself.

pub mod fixed;
pub mod geom;
pub mod metaball;
pub mod meta_iso;
pub mod raycast;
