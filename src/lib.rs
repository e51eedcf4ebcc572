//! Verified core of an offline ray tracer.
//!
//! - `order`: ordering keys for the ray parameter `t` (a double held as bits)
//! - `intersections`: sorting crossings and selecting the hit
//! - `refraction`: the media on either side of a crossing
//! - `graph`: the scene-graph arena and its world-transform chains
//! - `bounds`: bounding boxes for pruning group traversal
//! - `canvas`: the output pixel buffer
//! - `ppm`: the plain PPM text of an image

pub mod order;
pub mod intersections;
pub mod refraction;
pub mod graph;
pub mod canvas;
pub mod bounds;
pub mod ppm;
