//! Broad-phase interference queries over a balanced bounding volume tree.
//!
//! Geometry lives on an integer grid: coordinates, radii and ray directions are
//! integers, so that every bounding-sphere test is exact and every merge provably
//! encloses what it merges. `mass` decides which closed-form cone formula a
//! dimension has; the floating-point formulas themselves live outside the library.
pub mod geometry;
pub mod bounding_sphere;
pub mod bvt;
pub mod ray_interferences;
pub mod shape;
pub mod mass;
