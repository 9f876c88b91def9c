//! A verified image-filter engine over flat row-major RGB rasters.
//!
//! The heart of the crate is the windowed statistical filter machinery: a
//! sliding-window box blur and an oil-painting mode filter, both run as two
//! separable 1D passes whose incremental accumulators are proved equal to
//! the brute-force per-window statistics, and a Floyd–Steinberg
//! error-diffusion ditherer feeding an ASCII-art renderer.  Around them sit
//! the pointwise and geometric filters and a single `apply` entry point for
//! front ends.  Image decoding, resizing and the luma conversion are the
//! image codec's work, reached through a handful of trusted wrappers;
//! everything else is verified down to the byte.

use vstd::prelude::*;

pub mod buffer;
pub mod window;
pub mod accum;
pub mod blur;
pub mod oil;
pub mod dither;
pub mod ascii;
pub mod pointwise;
pub mod geometric;
pub mod noise;
pub mod apply;

verus! {

/// Errors reported synchronously, before any processing begins; no partial
/// buffer is ever returned.
#[derive(Clone, Copy, Debug, PartialEq, Eq, Structural)]
pub enum FilterError {
    /// The character ramp is empty: there is no glyph to emit.
    EmptyRamp,
    /// The stated dimensions do not match the buffer length.
    DimensionMismatch,
    /// The histogram filter was asked for zero intensity buckets.
    ZeroBucketCount,
}

impl FilterError {
    /// A short human-readable description.
    pub fn message(&self) -> (m: &'static str)
        ensures
            m@ == (match self {
                FilterError::EmptyRamp => "character ramp is empty"@,
                FilterError::DimensionMismatch => "buffer length does not match dimensions"@,
                FilterError::ZeroBucketCount => "bucket count must be at least 1"@,
            }),
    {
        match self {
            FilterError::EmptyRamp => "character ramp is empty",
            FilterError::DimensionMismatch => "buffer length does not match dimensions",
            FilterError::ZeroBucketCount => "bucket count must be at least 1",
        }
    }
}

} // verus!
