//! Verified core of a small rigid-body engine: a dynamic bounding-volume
//! hierarchy over integer boxes for the broad phase, keyboard and mouse
//! button state tracking, and the index layout of a latitude/longitude ball
//! mesh.
pub mod aabb;
pub mod ball;
pub mod bvh;
pub mod input;
