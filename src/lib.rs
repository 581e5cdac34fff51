//! Binned surface-area-heuristic bounding volume hierarchy over integer
//! (fixed-point grid) bounding boxes, with a flattened node table for a
//! compute-device ray tracer.
pub mod bbox;
pub mod triangle;
pub mod binning;
pub mod partition;
pub mod bvh;
pub mod build_model;
pub mod uniforms;
pub mod theorems;
pub mod config;
