//! Overlays a semi-transparent darkness mask onto a raster image.
//!
//! A two-dimensional grid of per-cell overlay strengths is mapped onto
//! rectangular pixel regions of an image, and a black overlay is alpha
//! composited onto each covered pixel with the standard source-over
//! operator, carried out in exact integer arithmetic.

pub mod args;
pub mod image_buf;
pub mod info;
pub mod naming;
pub mod overlay;
pub mod pixel;
pub mod text;
