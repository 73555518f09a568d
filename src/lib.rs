//! Integer and structural core of a Monte Carlo path tracer: bounding boxes over
//! order keys, the scene arena with its bounding-volume hierarchy and nearest-hit
//! traversal, the path-depth controller of the integrator, the partition and hand-over
//! of samples across workers, and the layout of the output buffers.
pub mod aabb;
pub mod accumulate;
pub mod bounds;
pub mod encode;
pub mod integrator;
pub mod scene;
pub mod traverse;
