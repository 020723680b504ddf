//! Verified core of the iris computer-vision library: geometry types,
//! contour extraction and hull computation, rasterisation on pixel buffers,
//! edge hysteresis, feature-sampling patterns, window registry state and the
//! dimension bookkeeping of the image operations, and the reading of weight
//! tensors out of raw bytes.
use vstd::prelude::*;

pub mod error;
pub mod types;
pub mod rng;
pub mod gpu;
pub mod geometry;
pub mod hull;
pub mod trace;
pub mod contours;
pub mod features;
pub mod gui;
pub mod edges;
pub mod detectors;
pub mod hog;
pub mod image_ops;
pub mod drawing;
pub mod histogram;
pub mod checks;
pub mod text;
pub mod weights;

verus! {
} // verus!
