//! Detection and recognition pipeline for text in raster images.
//!
//! The crate turns a per-pixel text-probability surface into word regions,
//! groups the regions into reading-order lines, samples each line into a
//! fixed-height grayscale strip, and decodes per-column character
//! probabilities into strings. All coordinates and probabilities are
//! fixed-point integers; running the neural models that produce the
//! probability inputs is the caller's job.

pub mod alphabet;
pub mod decode;
pub mod detect;
pub mod engine;
pub mod errors;
pub mod geom;
pub mod layout;
pub mod recog;
pub mod sample;
pub mod surface;
pub mod text;
