//! Rasterization of vector geometries onto a regular pixel grid.
//!
//! World coordinates are integers in a caller-chosen unit; the grid has an
//! integer origin and integer cell sizes, so every pixel-space quantity is an
//! exact rational and every rasterization decision is exact.
pub mod arith;
pub mod pixel_functions;
pub mod raster;
pub mod geometry;
pub mod bounds;
pub mod edges;
pub mod band;
pub mod cache;
pub mod writers;
pub mod emit;
pub mod fill;
pub mod lines;
pub mod burn_geometry;
pub mod rasterize_geometry;
pub mod rusterize_impl;
pub mod validate;
pub mod laws;
