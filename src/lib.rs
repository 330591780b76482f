//! Bounding-volume hierarchies over triangle meshes, and the flattening of a
//! scene graph into the offset-indexed buffers that a GPU ray tracer walks.
//!
//! Vector and matrix values are glam's; they travel through the library as
//! opaque values. The arithmetic done on them stays inside glam.

pub mod builder;
pub mod geometry;
pub mod mesh;
pub mod scene;
pub mod shader_buffer;
