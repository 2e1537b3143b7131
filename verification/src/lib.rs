//! Image processing and feature detection on in-memory pixel buffers.
//!
//! Pixel samples live in an 8-bit byte domain; every algorithm is specified
//! and verified over exact integer arithmetic on that domain: color-space
//! conversions as rounded rationals, filters as integer kernels with
//! divisors, detectors and descriptors over integer moments and fixed-point
//! directions.

pub mod arith;
pub mod typing;
pub mod model;
pub mod cast;
pub mod algorithm;
pub mod keypoints;
pub mod colors;
pub mod features;
pub mod matching;
pub mod noise;
pub mod metrics;
